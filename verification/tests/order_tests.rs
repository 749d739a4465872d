use silicon_trust::order::{dedup_strings, digest_le, sort_digests, sort_strings, string_le};

#[test]
fn digest_order_is_lexicographic() {
    assert!(digest_le(&[1u8, 2, 3], &[1u8, 2, 3]));
    assert!(digest_le(&[1u8, 2, 3], &[1u8, 3, 0]));
    assert!(!digest_le(&[2u8, 0, 0], &[1u8, 9, 9]));
}

#[test]
fn sort_digests_ascending() {
    let v = vec![[3u8, 1], [1u8, 9], [2u8, 0], [1u8, 2]];
    assert_eq!(sort_digests(&v), vec![[1u8, 2], [1u8, 9], [2u8, 0], [3u8, 1]]);
}

#[test]
fn sort_digests_order_independent() {
    let a = vec![[9u8; 4], [0u8; 4], [5u8; 4], [0u8; 4]];
    let b = vec![[0u8; 4], [5u8; 4], [0u8; 4], [9u8; 4]];
    assert_eq!(sort_digests(&a), sort_digests(&b));
    let mut c = a.clone();
    c.sort_unstable();
    assert_eq!(sort_digests(&a), c);
}

#[test]
fn string_order_matches_std() {
    let pairs = [("a", "b"), ("ab", "a"), ("", "x"), ("L2U", "L1D"), ("é", "z"), ("same", "same")];
    for (x, y) in pairs.iter() {
        assert_eq!(string_le(x, y), x <= y);
        assert_eq!(string_le(y, x), y <= x);
    }
}

#[test]
fn sort_and_dedup_strings() {
    let v: Vec<String> = ["b", "a", "c", "a", "b"].iter().map(|s| s.to_string()).collect();
    let sorted = sort_strings(&v);
    assert_eq!(sorted, vec!["a", "a", "b", "b", "c"]);
    assert_eq!(dedup_strings(&sorted), vec!["a", "b", "c"]);
}
