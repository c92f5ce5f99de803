use feedcore::page::{get_range, paginate, ParamsPage};

fn params(anchor: usize, n: usize, is_desc: bool) -> ParamsPage {
    ParamsPage { anchor, n, is_desc }
}

#[test]
fn descending_first_page_shows_newest_first() {
    let ts: Vec<i64> = vec![10, 20, 30, 40, 50];
    let p = params(0, 2, true);
    assert_eq!(get_range(ts.len(), &p), Some((4, 5)));
    assert_eq!(paginate(&ts, &p), vec![50, 40]);
}

#[test]
fn descending_second_page_skips_anchor() {
    let ts: Vec<i64> = vec![10, 20, 30, 40, 50];
    let p = params(2, 2, true);
    assert_eq!(get_range(ts.len(), &p), Some((2, 3)));
    assert_eq!(paginate(&ts, &p), vec![30, 20]);
}

#[test]
fn descending_last_page_is_clamped_at_start() {
    let ts: Vec<i64> = vec![10, 20, 30, 40, 50];
    let p = params(4, 2, true);
    assert_eq!(get_range(ts.len(), &p), Some((1, 1)));
    assert_eq!(paginate(&ts, &p), vec![10]);
}

#[test]
fn ascending_pages() {
    let ts: Vec<i64> = vec![10, 20, 30, 40, 50];
    assert_eq!(get_range(5, &params(0, 2, false)), Some((1, 2)));
    assert_eq!(paginate(&ts, &params(0, 2, false)), vec![10, 20]);
    assert_eq!(get_range(5, &params(4, 2, false)), Some((5, 5)));
    assert_eq!(paginate(&ts, &params(4, 2, false)), vec![50]);
}

#[test]
fn empty_sequence_gives_empty_page() {
    let ts: Vec<i64> = vec![];
    assert_eq!(get_range(0, &params(0, 3, true)), None);
    assert_eq!(get_range(0, &params(0, 3, false)), None);
    assert!(paginate(&ts, &params(0, 3, true)).is_empty());
}

#[test]
fn anchor_past_end_gives_empty_page() {
    let ts: Vec<i64> = vec![1, 2, 3];
    assert_eq!(get_range(3, &params(3, 2, true)), None);
    assert_eq!(get_range(3, &params(7, 2, false)), None);
    assert!(paginate(&ts, &params(5, 2, false)).is_empty());
}

#[test]
fn zero_size_gives_empty_page() {
    assert_eq!(get_range(4, &params(0, 0, true)), None);
    assert_eq!(get_range(4, &params(0, 0, false)), None);
}

#[test]
fn consecutive_pages_tile_the_sequence() {
    let seq: Vec<u32> = (1..=7).collect();
    for desc in [true, false] {
        let mut seen: Vec<u32> = Vec::new();
        let mut anchor = 0;
        while anchor < seq.len() {
            let page = paginate(&seq, &params(anchor, 3, desc));
            assert!(!page.is_empty());
            seen.extend(page);
            anchor += 3;
        }
        seen.sort();
        assert_eq!(seen, seq);
    }
}

#[test]
fn windows_stay_inside_sequence() {
    for len in 0..6usize {
        for anchor in 0..8usize {
            for n in 1..4usize {
                for desc in [true, false] {
                    if let Some((s, e)) = get_range(len, &params(anchor, n, desc)) {
                        assert!(1 <= s && s <= e && e <= len);
                    }
                }
            }
        }
    }
}
