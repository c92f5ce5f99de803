use std::collections::BTreeSet;

use feedcore::codec::folder_to_key;
use feedcore::error::AppError;
use feedcore::folders::{
    choose_folder, feed_subscribe, folder_names, set_folder, subscribed_feeds, validate_feed_form, SubscribeAction,
};

fn apply(tree: &mut BTreeSet<Vec<u8>>, remove: &[Vec<u8>], key: Vec<u8>) {
    for k in remove {
        tree.remove(k);
    }
    tree.insert(key);
}

fn entries_for(tree: &BTreeSet<Vec<u8>>, user: u32, feed: u32) -> usize {
    tree.iter()
        .filter(|k| k.len() >= 8 && k[..4] == user.to_be_bytes() && k[k.len() - 4..] == feed.to_be_bytes())
        .count()
}

#[test]
fn moving_a_feed_leaves_one_entry() {
    let mut tree = BTreeSet::new();
    tree.insert(folder_to_key(1, b"News", 7));
    tree.insert(folder_to_key(1, b"News", 8));
    tree.insert(folder_to_key(2, b"News", 7));
    let scanned: Vec<Vec<u8>> = tree.iter().filter(|k| k[..4] == 1u32.to_be_bytes()).cloned().collect();
    let plan = set_folder(1, 7, &scanned, b"Tech", true);
    assert_eq!(plan.remove, vec![folder_to_key(1, b"News", 7)]);
    assert_eq!(plan.key, folder_to_key(1, b"Tech", 7));
    assert_eq!(plan.value, vec![1]);
    apply(&mut tree, &plan.remove, plan.key);
    assert_eq!(entries_for(&tree, 1, 7), 1);
    assert!(tree.contains(&folder_to_key(1, b"Tech", 7)));
    assert!(tree.contains(&folder_to_key(1, b"News", 8)));
    assert!(tree.contains(&folder_to_key(2, b"News", 7)));
}

#[test]
fn moving_twice_still_leaves_one_entry() {
    let mut tree = BTreeSet::new();
    for folder in [&b"News"[..], b"Tech", b"News"] {
        let scanned: Vec<Vec<u8>> = tree.iter().cloned().collect();
        let plan = set_folder(3, 11, &scanned, folder, false);
        assert_eq!(plan.value, vec![0]);
        apply(&mut tree, &plan.remove, plan.key);
        assert_eq!(entries_for(&tree, 3, 11), 1);
    }
}

#[test]
fn folder_choice() {
    assert_eq!(choose_folder("Tech", "x"), "Tech");
    assert_eq!(choose_folder("New", "Blogs"), "Blogs");
    assert_eq!(choose_folder("New", ""), "Default");
}

#[test]
fn form_fields_are_bounded() {
    let long = "a".repeat(257);
    let edge = "é".repeat(256);
    assert_eq!(validate_feed_form("http://x", "Tech", ""), Ok(()));
    assert_eq!(validate_feed_form(&edge, &edge, &edge), Ok(()));
    assert_eq!(validate_feed_form(&long, "Tech", ""), Err(AppError::ValidationFailure));
    assert_eq!(validate_feed_form("u", "f", &long), Err(AppError::ValidationFailure));
}

#[test]
fn owner_unsubscribes() {
    let scanned = vec![folder_to_key(1, b"News", 4), folder_to_key(1, b"Tech", 5)];
    match feed_subscribe(1, 1, 5, &scanned, &scanned) {
        SubscribeAction::Remove(k) => assert_eq!(k, folder_to_key(1, b"Tech", 5)),
        _ => panic!("expected a removal"),
    }
}

#[test]
fn visitor_copies_subscription() {
    let scanned = vec![folder_to_key(1, b"News", 4), folder_to_key(1, b"Tech", 5)];
    match feed_subscribe(1, 2, 4, &scanned, &vec![]) {
        SubscribeAction::Copy(plan) => {
            assert!(plan.remove.is_empty());
            assert_eq!(plan.key, folder_to_key(2, b"News", 4));
            assert_eq!(plan.value, vec![1]);
        }
        _ => panic!("expected a copy"),
    }
    assert!(matches!(feed_subscribe(1, 2, 9, &scanned, &vec![]), SubscribeAction::Nothing));
}

#[test]
fn copying_a_feed_already_held_leaves_one_entry() {
    let mut tree = BTreeSet::new();
    tree.insert(folder_to_key(1, b"News", 4));
    tree.insert(folder_to_key(2, b"Tech", 4));
    tree.insert(folder_to_key(2, b"Tech", 6));
    let owner: Vec<Vec<u8>> = tree.iter().filter(|k| k[..4] == 1u32.to_be_bytes()).cloned().collect();
    let viewer: Vec<Vec<u8>> = tree.iter().filter(|k| k[..4] == 2u32.to_be_bytes()).cloned().collect();
    match feed_subscribe(1, 2, 4, &owner, &viewer) {
        SubscribeAction::Copy(plan) => {
            assert_eq!(plan.remove, vec![folder_to_key(2, b"Tech", 4)]);
            apply(&mut tree, &plan.remove, plan.key);
        }
        _ => panic!("expected a copy"),
    }
    assert_eq!(entries_for(&tree, 2, 4), 1);
    assert!(tree.contains(&folder_to_key(2, b"News", 4)));
    assert!(tree.contains(&folder_to_key(2, b"Tech", 6)));
}

#[test]
fn sweep_lists_each_feed_once() {
    let keys = vec![
        folder_to_key(1, b"News", 4),
        folder_to_key(2, b"Tech", 4),
        folder_to_key(2, b"Tech", 6),
        vec![1, 2, 3],
    ];
    assert_eq!(subscribed_feeds(&keys), vec![4, 6]);
    assert!(subscribed_feeds(&vec![]).is_empty());
}

#[test]
fn folder_names_for_the_add_form() {
    let keys = vec![folder_to_key(1, b"News", 4), folder_to_key(1, b"Tech", 5), folder_to_key(1, b"News", 6)];
    assert_eq!(folder_names(&keys), vec![b"News".to_vec(), b"Tech".to_vec()]);
    assert_eq!(folder_names(&vec![]), vec![b"Default".to_vec()]);
}
