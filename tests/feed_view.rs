use feedcore::codec::{folder_to_key, i64_to_bytes, pair_to_key};
use feedcore::feed_view::{
    feed_view, get_item_ids_and_ts, sort_by_ts, subscription_entry, FeedFilter, FeedRef, Subscription,
};
use feedcore::page::ParamsPage;

fn sub(folder: &str, feed: u32, is_public: bool) -> Subscription {
    Subscription { folder: folder.as_bytes().to_vec(), feed, is_public }
}

fn fixture() -> (Vec<Subscription>, Vec<(u32, Vec<(u32, i64)>)>) {
    let subs = vec![sub("News", 1, true), sub("Tech", 2, false), sub("News", 3, true)];
    let table = vec![
        (1, vec![(10, 100), (11, 300)]),
        (2, vec![(20, 200)]),
        (3, vec![(30, 50), (31, 400)]),
    ];
    (subs, table)
}

fn page(anchor: usize, n: usize) -> ParamsPage {
    ParamsPage { anchor, n, is_desc: true }
}

fn folders(p: &feedcore::feed_view::FeedPage) -> Vec<(String, Vec<u32>)> {
    p.groups
        .iter()
        .map(|g| (String::from_utf8(g.folder.clone()).unwrap(), g.feeds.iter().map(|f| f.feed).collect()))
        .collect()
}

#[test]
fn owner_sees_all_items_newest_first() {
    let (subs, table) = fixture();
    let p = feed_view(&FeedFilter::All, &subs, &table, &vec![], &vec![], true, true, &page(0, 3));
    assert_eq!(p.items, vec![(31, 400), (11, 300), (20, 200)]);
    assert_eq!(folders(&p), vec![("News".to_string(), vec![1, 3]), ("Tech".to_string(), vec![2])]);
    let next = feed_view(&FeedFilter::All, &subs, &table, &vec![], &vec![], true, true, &page(3, 3));
    assert_eq!(next.items, vec![(10, 100), (30, 50)]);
}

#[test]
fn visitor_sees_only_public_subscriptions() {
    let (subs, table) = fixture();
    let p = feed_view(&FeedFilter::All, &subs, &table, &vec![], &vec![], false, false, &page(0, 10));
    assert_eq!(p.items, vec![(31, 400), (11, 300), (10, 100), (30, 50)]);
    assert_eq!(folders(&p), vec![("News".to_string(), vec![1, 3])]);
}

#[test]
fn one_feed_is_active() {
    let (subs, table) = fixture();
    let p = feed_view(&FeedFilter::Feed(Some(2)), &subs, &table, &vec![], &vec![], true, true, &page(0, 10));
    assert_eq!(p.items, vec![(20, 200)]);
    assert_eq!(p.groups[1].feeds, vec![FeedRef { feed: 2, is_active: true, is_public: false }]);
    assert!(!p.groups[0].feeds[0].is_active);
    let none = feed_view(&FeedFilter::Feed(None), &subs, &table, &vec![], &vec![], true, true, &page(0, 10));
    assert!(none.items.is_empty() && none.groups.is_empty());
}

#[test]
fn one_folder_ascending() {
    let (subs, table) = fixture();
    let p = feed_view(
        &FeedFilter::Folder(b"News".to_vec()),
        &subs,
        &table,
        &vec![],
        &vec![],
        true,
        true,
        &ParamsPage { anchor: 0, n: 10, is_desc: false },
    );
    assert_eq!(p.items, vec![(30, 50), (10, 100), (11, 300), (31, 400)]);
}

#[test]
fn starred_and_unread_filters() {
    let (subs, table) = fixture();
    let star = vec![(11, 5), (20, 7)];
    let read = vec![10, 31];
    let all_star = feed_view(&FeedFilter::Star, &subs, &table, &star, &read, false, true, &page(0, 10));
    assert_eq!(all_star.items, vec![(20, 7), (11, 5)]);
    assert!(all_star.groups.is_empty());
    let star_in = feed_view(&FeedFilter::StarIn(Some(1)), &subs, &table, &star, &read, true, true, &page(0, 10));
    assert_eq!(star_in.items, vec![(11, 5)]);
    let visitor = feed_view(&FeedFilter::StarIn(Some(1)), &subs, &table, &star, &read, false, true, &page(0, 10));
    assert!(visitor.items.is_empty() && visitor.groups.is_empty());
    let unread_in = feed_view(&FeedFilter::UnreadIn(Some(3)), &subs, &table, &star, &read, true, true, &page(0, 10));
    assert_eq!(unread_in.items, vec![(30, 50)]);
    let unread = feed_view(&FeedFilter::Unread, &subs, &table, &star, &read, true, true, &page(0, 10));
    assert_eq!(unread.items, vec![(11, 300), (20, 200), (30, 50)]);
    let anon = feed_view(&FeedFilter::Unread, &subs, &table, &star, &read, false, false, &page(0, 10));
    assert!(anon.items.is_empty());
}

#[test]
fn sort_keeps_equal_timestamps_in_order() {
    let v = vec![(1, 5), (2, 3), (3, 5), (4, -1)];
    assert_eq!(sort_by_ts(&v), vec![(4, -1), (2, 3), (1, 5), (3, 5)]);
}

#[test]
fn scan_entries_are_read_back() {
    let entries = vec![(pair_to_key(4, 9), i64_to_bytes(77)), (pair_to_key(4, 12), i64_to_bytes(-3))];
    assert_eq!(get_item_ids_and_ts(4, &entries), Ok(vec![(9, 77), (12, -3)]));
    assert!(get_item_ids_and_ts(5, &entries).is_err());
    assert!(get_item_ids_and_ts(4, &vec![(vec![0, 0, 0, 4], vec![])]).is_err());
}

#[test]
fn subscription_entries_are_read_back() {
    let s = subscription_entry(1, &folder_to_key(1, b"Tech", 8), &[1]).unwrap();
    assert_eq!((s.folder, s.feed, s.is_public), (b"Tech".to_vec(), 8, true));
    assert!(!subscription_entry(1, &folder_to_key(1, b"T", 8), &[0]).unwrap().is_public);
    assert!(subscription_entry(2, &folder_to_key(1, b"T", 8), &[0]).is_err());
    assert!(subscription_entry(1, &folder_to_key(1, b"T", 8), &[]).is_err());
}

#[test]
fn single_feed_newest_first_example() {
    let subs = vec![sub("News", 1, true)];
    let table = vec![(1, vec![(1, 10), (2, 20), (3, 30), (4, 40), (5, 50)])];
    let first = feed_view(&FeedFilter::All, &subs, &table, &vec![], &vec![], true, true, &page(0, 2));
    assert_eq!(first.items, vec![(5, 50), (4, 40)]);
    let third = feed_view(&FeedFilter::All, &subs, &table, &vec![], &vec![], true, true, &page(2, 2));
    assert_eq!(third.items, vec![(3, 30), (2, 20)]);
}

#[test]
fn equal_timestamps_keep_gathered_order() {
    let subs = vec![sub("A", 1, true), sub("B", 2, true)];
    let table = vec![(1, vec![(7, 5)]), (2, vec![(8, 5)])];
    let p = feed_view(&FeedFilter::All, &subs, &table, &vec![], &vec![], true, true, &ParamsPage { anchor: 0, n: 5, is_desc: false });
    assert_eq!(p.items, vec![(7, 5), (8, 5)]);
}
