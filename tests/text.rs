use feedcore::feed_view::FeedFilter;
use feedcore::text::{parse_u32, str_eq};

#[test]
fn decimal_ids_parse() {
    assert_eq!(parse_u32("0"), Some(0));
    assert_eq!(parse_u32("42"), Some(42));
    assert_eq!(parse_u32("+7"), Some(7));
    assert_eq!(parse_u32("4294967295"), Some(u32::MAX));
    assert_eq!(parse_u32("4294967296"), None);
    assert_eq!(parse_u32("99999999999x"), None);
    assert_eq!(parse_u32(""), None);
    assert_eq!(parse_u32("+"), None);
    assert_eq!(parse_u32("-1"), None);
    assert_eq!(parse_u32("1a"), None);
    for s in ["0", "12", "+3", "4294967295", "4294967296", "", "x", "-2"] {
        assert_eq!(parse_u32(s), s.parse::<u32>().ok());
    }
}

#[test]
fn strings_compare_by_characters() {
    assert!(str_eq("abc", "abc"));
    assert!(!str_eq("abc", "abd"));
    assert!(!str_eq("ab", "abc"));
    assert!(str_eq("", ""));
}

#[test]
fn query_selects_filter() {
    assert!(matches!(FeedFilter::from_query(Some("feed"), Some("3")), FeedFilter::Feed(Some(3))));
    assert!(matches!(FeedFilter::from_query(Some("feed"), Some("x")), FeedFilter::Feed(None)));
    assert!(matches!(FeedFilter::from_query(Some("feed"), None), FeedFilter::All));
    assert!(matches!(FeedFilter::from_query(Some("folder"), Some("Tech")), FeedFilter::Folder(ref b) if b == b"Tech"));
    assert!(matches!(FeedFilter::from_query(Some("star"), Some("5")), FeedFilter::StarIn(Some(5))));
    assert!(matches!(FeedFilter::from_query(Some("star"), None), FeedFilter::Star));
    assert!(matches!(FeedFilter::from_query(Some("unread"), Some("8")), FeedFilter::UnreadIn(Some(8))));
    assert!(matches!(FeedFilter::from_query(Some("unread"), None), FeedFilter::Unread));
    assert!(matches!(FeedFilter::from_query(Some("other"), Some("1")), FeedFilter::All));
    assert!(matches!(FeedFilter::from_query(None, None), FeedFilter::All));
}
