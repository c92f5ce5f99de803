use feedcore::error::AppError;
use feedcore::visibility::{can_visit_solo, Viewer, Visibility};

#[test]
fn followers_tier_needs_a_follow() {
    let b_follows_a = Viewer::signed_in(2, vec![1]);
    let b_alone = Viewer::signed_in(2, vec![]);
    assert!(b_follows_a.can_view(10, 1));
    assert!(!b_alone.can_view(10, 1));
    assert!(!Viewer::anonymous().can_view(10, 1));
}

#[test]
fn author_tier_only_for_author() {
    assert!(Viewer::signed_in(1, vec![]).can_view(20, 1));
    assert!(!Viewer::signed_in(2, vec![1]).can_view(20, 1));
    assert!(!Viewer::anonymous().can_view(20, 0));
}

#[test]
fn everyone_tier_for_all() {
    assert!(Viewer::anonymous().can_view(0, 5));
    assert!(Viewer::signed_in(9, vec![]).can_view(0, 5));
}

#[test]
fn unknown_tier_is_hidden() {
    assert!(!can_visit_solo(5, &[1], 1, 1));
    assert!(!Viewer::signed_in(1, vec![1]).can_view(30, 1));
}

#[test]
fn can_visit_solo_cases() {
    assert!(can_visit_solo(0, &[], 3, 4));
    assert!(can_visit_solo(10, &[7, 3], 3, 4));
    assert!(!can_visit_solo(10, &[7], 3, 4));
    assert!(can_visit_solo(20, &[], 4, 4));
    assert!(!can_visit_solo(20, &[4], 3, 4));
}

#[test]
fn labels_parse_to_tiers() {
    assert_eq!(Visibility::from_label("Everyone").map(|v| v.tier()), Ok(0));
    assert_eq!(Visibility::from_label("Following").map(|v| v.tier()), Ok(10));
    assert_eq!(Visibility::from_label("Just me").map(|v| v.tier()), Ok(20));
    assert_eq!(Visibility::from_label("Friends"), Err(AppError::ValidationFailure));
}

#[test]
fn error_messages() {
    assert_eq!(AppError::InvalidFeedSource.message(), "invalid feed source");
    assert_eq!(AppError::NotFound.message(), "not found");
    assert_eq!(AppError::ValidationFailure.message(), "invalid input");
}
