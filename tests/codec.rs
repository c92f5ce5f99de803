use feedcore::codec::{
    bytes_to_i64, bytes_to_u32, bytes_to_u64, bytes_to_wide_pair, folder_to_key, hashtag_key_post,
    hashtag_to_key, i64_to_bytes, key_to_folder, key_to_pair, pair_to_key, u32_to_bytes,
    u64_to_bytes, wide_pair_to_bytes, KeyError,
};

#[test]
fn integers_are_big_endian() {
    assert_eq!(u32_to_bytes(0x0102_0304), vec![1, 2, 3, 4]);
    assert_eq!(u64_to_bytes(258), vec![0, 0, 0, 0, 0, 0, 1, 2]);
    assert_eq!(i64_to_bytes(-1), vec![255; 8]);
    assert_eq!(i64_to_bytes(1), vec![0, 0, 0, 0, 0, 0, 0, 1]);
}

#[test]
fn byte_order_is_numeric_order() {
    assert!(u32_to_bytes(255) < u32_to_bytes(256));
    assert!(u64_to_bytes(9) < u64_to_bytes(1 << 40));
}

#[test]
fn integers_round_trip() {
    for n in [0u32, 1, 255, 256, 65_535, u32::MAX] {
        assert_eq!(bytes_to_u32(&u32_to_bytes(n)), Ok(n));
    }
    for n in [0u64, 7, u64::MAX] {
        assert_eq!(bytes_to_u64(&u64_to_bytes(n)), Ok(n));
    }
    for t in [0i64, -1, 1_700_000_000, i64::MIN, i64::MAX] {
        assert_eq!(bytes_to_i64(&i64_to_bytes(t)), Ok(t));
    }
}

#[test]
fn wrong_lengths_are_refused() {
    assert_eq!(bytes_to_u32(&[1, 2, 3]), Err(KeyError::BadLength));
    assert_eq!(bytes_to_u64(&[0; 9]), Err(KeyError::BadLength));
    assert_eq!(bytes_to_i64(&[]), Err(KeyError::BadLength));
    assert_eq!(key_to_pair(&[0; 7]), Err(KeyError::BadLength));
    assert!(key_to_folder(&[0; 7]).is_err());
    assert_eq!(hashtag_key_post(&[1, 2]), Err(KeyError::BadLength));
    assert_eq!(bytes_to_wide_pair(&[0; 15]), Err(KeyError::BadLength));
}

#[test]
fn pair_keys_round_trip() {
    let k = pair_to_key(3, 70_000);
    assert_eq!(k, vec![0, 0, 0, 3, 0, 1, 17, 112]);
    assert_eq!(key_to_pair(&k), Ok((3, 70_000)));
}

#[test]
fn folder_keys_round_trip() {
    let k = folder_to_key(1, b"Tech", 9);
    assert_eq!(k, vec![0, 0, 0, 1, b'T', b'e', b'c', b'h', 0, 0, 0, 9]);
    let f = key_to_folder(&k).unwrap();
    assert_eq!((f.user, f.folder.as_slice(), f.feed), (1, &b"Tech"[..], 9));
    let empty = key_to_folder(&folder_to_key(2, b"", 5)).unwrap();
    assert!(empty.folder.is_empty());
}

#[test]
fn wide_pairs_and_hashtags() {
    let v = wide_pair_to_bytes(5, 10);
    assert_eq!(v.len(), 16);
    assert_eq!(bytes_to_wide_pair(&v), Ok((5, 10)));
    let k = hashtag_to_key(b"rust", 42);
    assert_eq!(&k[..4], b"rust");
    assert_eq!(hashtag_key_post(&k), Ok(42));
}
