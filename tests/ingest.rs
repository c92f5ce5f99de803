use std::collections::BTreeMap;

use feedcore::codec::{i64_to_bytes, pair_to_key, u32_to_bytes};
use feedcore::error::AppError;
use feedcore::ingest::{
    assign_item_ids, pick_parse, refresh_batch, refresh_writes, Entry, ErrorWrite, ParsedFeed,
    RefreshWrites,
};

fn entry(link: &str, updated: i64) -> Entry {
    Entry { link: link.to_string(), title: String::new(), content: String::new(), updated }
}

fn feed(title: &str) -> ParsedFeed {
    ParsedFeed { title: title.to_string(), entries: vec![] }
}

type Store = (BTreeMap<Vec<u8>, Vec<u8>>, BTreeMap<Vec<u8>, Vec<u8>>);

fn apply(store: &mut Store, w: &RefreshWrites) {
    for (k, v) in &w.feed_items {
        store.0.insert(k.clone(), v.clone());
    }
    match &w.error {
        ErrorWrite::Clear(k) => {
            store.1.remove(k);
        }
        ErrorWrite::Record(k, m) => {
            store.1.insert(k.clone(), m.clone());
        }
    }
}

/// Merges a document against a link index and counter, as a caller would.
fn merge(links: &mut BTreeMap<String, u32>, counter: &mut u32, entries: &Vec<Entry>) -> Vec<u32> {
    let stored: Vec<Option<u32>> = entries.iter().map(|e| links.get(&e.link).copied()).collect();
    let r = assign_item_ids(entries, &stored, *counter);
    *counter += r.fresh;
    for (e, id) in entries.iter().zip(&r.ids) {
        links.insert(e.link.clone(), *id);
    }
    r.ids
}

#[test]
fn new_links_get_consecutive_ids() {
    let entries = vec![entry("a", 1), entry("b", 2), entry("a", 3), entry("c", 4)];
    let stored = vec![None, Some(9), None, None];
    let r = assign_item_ids(&entries, &stored, 100);
    assert_eq!(r.ids, vec![100, 9, 100, 101]);
    assert_eq!(r.fresh, 2);
}

#[test]
fn reingesting_unchanged_document_is_idempotent() {
    let entries = vec![entry("x", 10), entry("y", 20), entry("x", 30)];
    let mut links = BTreeMap::new();
    let mut counter = 1;
    let first = merge(&mut links, &mut counter, &entries);
    let pairs: Vec<(u32, i64)> = first.iter().zip(&entries).map(|(i, e)| (*i, e.updated)).collect();
    let mut store: Store = (BTreeMap::new(), BTreeMap::new());
    apply(&mut store, &refresh_writes(5, &Ok(pairs.clone())));
    let links_after = links.clone();
    let counter_after = counter;
    let index_after = store.0.clone();

    let second = merge(&mut links, &mut counter, &entries);
    assert_eq!(second, first);
    assert_eq!(counter, counter_after);
    assert_eq!(links, links_after);
    let pairs2: Vec<(u32, i64)> = second.iter().zip(&entries).map(|(i, e)| (*i, e.updated)).collect();
    apply(&mut store, &refresh_writes(5, &Ok(pairs2)));
    assert_eq!(store.0, index_after);
    assert_eq!(store.0.len(), 2);
}

#[test]
fn success_writes_membership_and_clears_error() {
    let w = refresh_writes(3, &Ok(vec![(7, 100), (8, -5)]));
    assert_eq!(
        w.feed_items,
        vec![(pair_to_key(3, 7), i64_to_bytes(100)), (pair_to_key(3, 8), i64_to_bytes(-5))]
    );
    assert!(matches!(w.error, ErrorWrite::Clear(ref k) if *k == u32_to_bytes(3)));
}

#[test]
fn failure_records_error_only() {
    let w = refresh_writes(3, &Err(b"invalid feed".to_vec()));
    assert!(w.feed_items.is_empty());
    match w.error {
        ErrorWrite::Record(k, m) => {
            assert_eq!(k, u32_to_bytes(3));
            assert_eq!(m, b"invalid feed".to_vec());
        }
        ErrorWrite::Clear(_) => panic!("expected an error record"),
    }
}

#[test]
fn batch_isolates_a_failing_feed() {
    let f = 1u32;
    let g = 2u32;
    let mut store: Store = (BTreeMap::new(), BTreeMap::new());
    store.0.insert(pair_to_key(g, 50), i64_to_bytes(5));
    store.1.insert(u32_to_bytes(f), b"old failure".to_vec());
    let g_before: Vec<_> = store.0.iter().filter(|(k, _)| k[..4] == g.to_be_bytes()).map(|(k, v)| (k.clone(), v.clone())).collect();

    let batch = vec![(f, Ok(vec![(10, 100), (11, 110)])), (g, Err(b"timeout".to_vec()))];
    let writes = refresh_batch(&batch);
    assert_eq!(writes.len(), 2);
    for w in &writes {
        apply(&mut store, w);
    }
    assert!(!store.1.contains_key(&u32_to_bytes(f)));
    assert_eq!(store.1.get(&u32_to_bytes(g)), Some(&b"timeout".to_vec()));
    assert_eq!(store.0.get(&pair_to_key(f, 10)), Some(&i64_to_bytes(100)));
    assert_eq!(store.0.get(&pair_to_key(f, 11)), Some(&i64_to_bytes(110)));
    let g_after: Vec<_> = store.0.iter().filter(|(k, _)| k[..4] == g.to_be_bytes()).map(|(k, v)| (k.clone(), v.clone())).collect();
    assert_eq!(g_after, g_before);
}

#[test]
fn first_format_wins_then_second() {
    assert_eq!(pick_parse(Some(feed("rss")), Some(feed("atom"))).map(|f| f.title).ok(), Some("rss".to_string()));
    assert_eq!(pick_parse(None, Some(feed("atom"))).map(|f| f.title).ok(), Some("atom".to_string()));
    assert!(matches!(pick_parse(None, None), Err(AppError::InvalidFeedSource)));
}
