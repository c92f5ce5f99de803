use feedcore::codec::{hashtag_to_key, u64_to_bytes, wide_pair_to_bytes};
use feedcore::error::AppError;
use feedcore::page::ParamsPage;
use feedcore::solo::{
    append_solo, author_entry, extract_hashtags, link_hashtags, replace_bytes, solo_source, solo_text, SoloSource, get_all_solos, get_solos_by_uids, hashtag_ids, new_solo, solo_record,
    timeline_entry, validate_solo_content, SoloRef,
};
use feedcore::visibility::{Viewer, Visibility};

fn post(id: u64, author: u64, visibility: u64) -> SoloRef {
    SoloRef { id, author, visibility }
}

fn timeline() -> Vec<SoloRef> {
    vec![post(1, 1, 0), post(2, 1, 10), post(3, 2, 20), post(4, 2, 0), post(5, 1, 20)]
}

#[test]
fn anonymous_timeline_shows_public_posts() {
    let p = ParamsPage { anchor: 0, n: 10, is_desc: true };
    assert_eq!(get_all_solos(&timeline(), &Viewer::anonymous(), &p), vec![4, 1]);
}

#[test]
fn follower_timeline_pages() {
    let viewer = Viewer::signed_in(2, vec![1]);
    let first = ParamsPage { anchor: 0, n: 2, is_desc: true };
    let second = ParamsPage { anchor: 2, n: 2, is_desc: true };
    assert_eq!(get_all_solos(&timeline(), &viewer, &first), vec![4, 3]);
    assert_eq!(get_all_solos(&timeline(), &viewer, &second), vec![2, 1]);
    let asc = ParamsPage { anchor: 1, n: 2, is_desc: false };
    assert_eq!(get_all_solos(&timeline(), &viewer, &asc), vec![2, 3]);
}

#[test]
fn posts_by_authors_in_author_order() {
    let per_author = vec![vec![post(1, 1, 0), post(2, 1, 10), post(5, 1, 20)], vec![post(3, 2, 20), post(4, 2, 0)]];
    let p = ParamsPage { anchor: 0, n: 10, is_desc: false };
    assert_eq!(get_solos_by_uids(&per_author, &Viewer::signed_in(1, vec![]), &p), vec![1, 5, 4]);
    assert_eq!(get_solos_by_uids(&vec![], &Viewer::anonymous(), &p), Vec::<u64>::new());
}

#[test]
fn index_entries_are_read_back() {
    let e = timeline_entry(&u64_to_bytes(7), &wide_pair_to_bytes(3, 10)).unwrap();
    assert_eq!(e, post(7, 3, 10));
    assert!(timeline_entry(&[1], &wide_pair_to_bytes(3, 10)).is_err());
    assert_eq!(author_entry(3, &wide_pair_to_bytes(7, 20)), Ok(post(7, 3, 20)));
    assert!(author_entry(3, &[0; 8]).is_err());
}

#[test]
fn hashtag_lookup_skips_longer_tags() {
    let keys = vec![hashtag_to_key(b"rust", 3), hashtag_to_key(b"rustacean", 4), hashtag_to_key(b"rust", 9)];
    assert_eq!(hashtag_ids(b"rust", &keys), vec![3, 9]);
    assert!(hashtag_ids(b"go", &keys).is_empty());
}

#[test]
fn public_post_writes_hashtags() {
    let w = append_solo(2, 5, 40, Visibility::Everyone, &vec![b"a".to_vec(), b"bc".to_vec()]);
    assert_eq!(w.author_key, wide_pair_to_bytes(2, 5));
    assert_eq!(w.author_value, wide_pair_to_bytes(40, 0));
    assert_eq!(w.timeline_key, u64_to_bytes(40));
    assert_eq!(w.timeline_value, wide_pair_to_bytes(2, 0));
    assert_eq!(w.hashtag_keys, vec![hashtag_to_key(b"a", 40), hashtag_to_key(b"bc", 40)]);
}

#[test]
fn private_post_writes_no_hashtags() {
    let w = append_solo(2, 6, 41, Visibility::Following, &vec![b"a".to_vec()]);
    assert_eq!(w.timeline_value, wide_pair_to_bytes(2, 10));
    assert!(w.hashtag_keys.is_empty());
    let r = solo_record(41, 2, Visibility::JustMe, "hi".to_string(), vec!["a".to_string()], 9);
    assert_eq!((r.visibility, r.hashtags.len(), r.created_at), (20, 0, 9));
}

#[test]
fn new_post_is_stamped_now() {
    let r = new_solo(1, 2, Visibility::Everyone, "x".to_string(), vec!["t".to_string()]);
    assert_eq!((r.sid, r.uid, r.visibility), (1, 2, 0));
    assert_eq!(r.hashtags, vec!["t".to_string()]);
    assert!(r.created_at > 1_600_000_000);
}

#[test]
fn post_length_is_bounded() {
    assert_eq!(validate_solo_content("hello"), Ok(()));
    assert_eq!(validate_solo_content(""), Err(AppError::ValidationFailure));
    assert_eq!(validate_solo_content(&"ü".repeat(1000)), Ok(()));
    assert_eq!(validate_solo_content(&"a".repeat(1001)), Err(AppError::ValidationFailure));
}

#[test]
fn hashtags_are_words_starting_with_hash() {
    let tags = extract_hashtags("hi #rust and #verus\n#rust again#not # #x".as_bytes(), 5);
    assert_eq!(tags, vec![b"rust".to_vec(), b"verus".to_vec(), b"x".to_vec()]);
    let many = extract_hashtags(b"#a #b #c #d #e #f #g", 5);
    assert_eq!(many.len(), 5);
    assert_eq!(many[4], b"e".to_vec());
    assert!(extract_hashtags(b"no tags here", 5).is_empty());
    assert!(extract_hashtags(b"", 5).is_empty());
    assert_eq!(extract_hashtags("#caf\u{e9} ok".as_bytes(), 5), vec!["caf\u{e9}".as_bytes().to_vec()]);
}

#[test]
fn replace_matches_std() {
    for (s, p, r) in [("aaa", "aa", "b"), ("abcabc", "bc", "X"), ("none", "zz", "y"), ("", "a", "b"), ("x", "", "y")] {
        let got = replace_bytes(s.as_bytes(), p.as_bytes(), r.as_bytes());
        let want = if p.is_empty() { s.to_string() } else { s.replace(p, r) };
        assert_eq!(String::from_utf8(got).unwrap(), want);
    }
}

#[test]
fn tags_become_links() {
    let text = "hi #rust and #go";
    let tags = extract_hashtags(text.as_bytes(), 5);
    let linked = String::from_utf8(link_hashtags(text.as_bytes(), &tags)).unwrap();
    assert_eq!(linked, "hi #[rust](/solo/user/0?tag=rust) and #[go](/solo/user/0?tag=go)");
    assert_eq!(link_hashtags(b"plain", &vec![]), b"plain".to_vec());
}

#[test]
fn page_source_choice() {
    assert!(matches!(solo_source(true, Some("Following"), Some("t"), 3), SoloSource::Following));
    assert!(matches!(solo_source(false, Some("Following"), None, 0), SoloSource::Nothing));
    assert!(matches!(solo_source(false, None, Some("rust"), 3), SoloSource::Tag(ref b) if b == b"rust"));
    assert!(matches!(solo_source(true, Some("Other"), None, 0), SoloSource::Everyone));
    assert!(matches!(solo_source(false, None, None, 7), SoloSource::Author(7)));
}

#[test]
fn post_text_by_visibility() {
    let (text, tags) = solo_text(b"see #rust", Visibility::Everyone);
    assert_eq!(String::from_utf8(text).unwrap(), "see #[rust](/solo/user/0?tag=rust)");
    assert_eq!(tags, vec![b"rust".to_vec()]);
    let (text, tags) = solo_text(b"see #rust", Visibility::Following);
    assert_eq!(text, b"see #rust".to_vec());
    assert!(tags.is_empty());
}
