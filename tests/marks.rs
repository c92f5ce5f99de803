use feedcore::codec::{bytes_to_i64, i64_to_bytes, pair_to_key};
use feedcore::marks::{item_flags, mark_read, star_write, toggle_star, MarkWrite};

#[test]
fn star_toggles() {
    assert!(matches!(toggle_star(1, 2, false, false), MarkWrite::Nothing));
    match toggle_star(1, 2, true, true) {
        MarkWrite::Remove(k) => assert_eq!(k, pair_to_key(1, 2)),
        _ => panic!("expected a removal"),
    }
    match toggle_star(1, 2, true, false) {
        MarkWrite::Insert(k, v) => {
            assert_eq!(k, pair_to_key(1, 2));
            assert!(bytes_to_i64(&v).unwrap() > 1_600_000_000);
        }
        _ => panic!("expected an insert"),
    }
}

#[test]
fn star_value_is_the_time_given() {
    match star_write(3, 4, true, false, 1234) {
        MarkWrite::Insert(k, v) => {
            assert_eq!(k, pair_to_key(3, 4));
            assert_eq!(v, i64_to_bytes(1234));
        }
        _ => panic!("expected an insert"),
    }
}

#[test]
fn read_mark_has_empty_value() {
    let (k, v) = mark_read(5, 6);
    assert_eq!(k, pair_to_key(5, 6));
    assert!(v.is_empty());
}

#[test]
fn item_flags_on_pages() {
    assert_eq!(item_flags(true, true, false, true), (false, true));
    assert_eq!(item_flags(true, true, true, false), (true, false));
    assert_eq!(item_flags(false, true, false, true), (true, true));
    assert_eq!(item_flags(false, false, false, false), (true, false));
}
