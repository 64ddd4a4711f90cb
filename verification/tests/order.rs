use anchor_db::order::{compare_keys, KeyOrder};

#[test]
fn compare_keys_orders_bytes_lexicographically() {
    assert_eq!(compare_keys(b"a", b"b"), KeyOrder::Less);
    assert_eq!(compare_keys(b"b", b"a"), KeyOrder::Greater);
    assert_eq!(compare_keys(b"abc", b"abc"), KeyOrder::Equal);
    assert_eq!(compare_keys(b"", b""), KeyOrder::Equal);
}

#[test]
fn a_proper_prefix_comes_first() {
    assert_eq!(compare_keys(b"", b"a"), KeyOrder::Less);
    assert_eq!(compare_keys(b"ab", b"abc"), KeyOrder::Less);
    assert_eq!(compare_keys(b"abc", b"ab"), KeyOrder::Greater);
}

#[test]
fn bytes_compare_as_unsigned() {
    assert_eq!(compare_keys(b"\x7f", b"\x80"), KeyOrder::Less);
    assert_eq!(compare_keys(b"\xff", b"\x00\xff"), KeyOrder::Greater);
    assert_eq!(compare_keys(b"10", b"9"), KeyOrder::Less);
}

#[test]
fn compare_keys_agrees_with_the_order_of_slices() {
    let samples: Vec<&[u8]> = vec![b"", b"a", b"aa", b"ab", b"b", b"\x00", b"\xff", b"a\x00"];
    for x in samples.iter() {
        for y in samples.iter() {
            let expected = if x < y {
                KeyOrder::Less
            } else if x == y {
                KeyOrder::Equal
            } else {
                KeyOrder::Greater
            };
            assert_eq!(compare_keys(x, y), expected);
        }
    }
}
