use micro_bloom::MicroBloom;
use micro_bloom::MAX_WORDS;

#[test]
fn test_1k() {
    let mut bloom = MicroBloom::new(256, 3).unwrap();

    for i in 0..1000u32 {
        bloom.insert(&i.to_le_bytes());
    }
    for i in 0..1000u32 {
        assert!(bloom.check(&i.to_le_bytes()));
    }

    let mut false_positive_found = false;
    let mut negative_found = false;
    for i in 1001u32..1000000u32 {
        if !bloom.check(&i.to_le_bytes()) {
            negative_found = true;
        } else {
            false_positive_found = true;
        }
        if negative_found && false_positive_found {
            break;
        }
    }
    assert!(false_positive_found);
    assert!(negative_found);
}

#[test]
fn no_false_negative_scenario() {
    let mut bloom = MicroBloom::new(64, 4).unwrap();
    bloom.insert(b"alpha");
    bloom.insert(b"beta");
    assert!(bloom.check(b"alpha"));
    assert!(bloom.check(b"beta"));
}

#[test]
fn true_negative_scenario() {
    let mut bloom = MicroBloom::new(256, 3).unwrap();
    bloom.insert(b"alpha");
    assert!(!bloom.check(b"a rather long item that was never inserted"));
}

#[test]
fn idempotent_insert_scenario() {
    let mut once = MicroBloom::new(64, 3).unwrap();
    let mut twice = MicroBloom::new(64, 3).unwrap();
    once.insert(b"hello");
    twice.insert(b"hello");
    twice.insert(b"hello");
    assert_eq!(once, twice);
    for i in 0..200u32 {
        assert_eq!(once.check(&i.to_le_bytes()), twice.check(&i.to_le_bytes()));
    }
}

#[test]
fn order_independent_scenario() {
    let items: [&[u8]; 3] = [b"alpha", b"beta", b"gamma"];
    let orders: [[usize; 3]; 6] = [
        [0, 1, 2],
        [0, 2, 1],
        [1, 0, 2],
        [1, 2, 0],
        [2, 0, 1],
        [2, 1, 0],
    ];
    let mut first = MicroBloom::new(32, 4).unwrap();
    for &i in orders[0].iter() {
        first.insert(items[i]);
    }
    for order in orders[1..].iter() {
        let mut other = MicroBloom::new(32, 4).unwrap();
        for &i in order.iter() {
            other.insert(items[i]);
        }
        assert_eq!(first, other);
        for v in 0..200u32 {
            assert_eq!(first.check(&v.to_le_bytes()), other.check(&v.to_le_bytes()));
        }
    }
}

#[test]
fn smallest_size() {
    let mut bloom = MicroBloom::new(1, 1).unwrap();
    bloom.insert(b"x");
    assert!(bloom.check(b"x"));
}

#[test]
fn invalid_configurations() {
    assert!(MicroBloom::new(0, 3).is_none());
    assert!(MicroBloom::new(256, 0).is_none());
    assert!(MicroBloom::new(0, 0).is_none());
    assert!(MicroBloom::new(MAX_WORDS + 1, 1).is_none());
}

#[test]
fn u32_key_matches_le_bytes() {
    let mut by_int = MicroBloom::new(64, 3).unwrap();
    let mut by_bytes = MicroBloom::new(64, 3).unwrap();
    by_int.insert_u32(0xDEAD_BEEF);
    by_bytes.insert(&0xDEAD_BEEFu32.to_le_bytes());
    assert_eq!(by_int, by_bytes);
    assert!(by_int.check_u32(0xDEAD_BEEF));
    assert!(by_int.check(&0xDEAD_BEEFu32.to_le_bytes()));
}
