use obr::xxhash::{XxHash32, XxHash64};

#[test]
fn test_xxhash32_empty() {
    assert_eq!(XxHash32::oneshot(&[], 0), 0x02CC5D05);
    assert_eq!(XxHash32::oneshot(&[], 0x9E3779B1), 0x36B78AE7);
}

#[test]
fn test_xxhash32_basic() {
    let input = b"Nobody inspects the spammish repetition";
    assert_eq!(XxHash32::oneshot(input, 0), 0xE2293B2F);
}

#[test]
fn test_xxhash64_empty() {
    assert_eq!(XxHash64::oneshot(&[], 0), 0xEF46DB3751D8E999);
}

#[test]
fn test_xxhash64_basic() {
    let input = b"Nobody inspects the spammish repetition";
    assert_eq!(XxHash64::oneshot(input, 0), 0xFBCEA83C8A378BF1);
}

#[test]
fn test_xxhash32_incremental() {
    let mut hasher = XxHash32::new(0);
    hasher.write(b"hello");
    hasher.write(b" ");
    hasher.write(b"world");
    let result = hasher.finish();

    let oneshot_result = XxHash32::oneshot(b"hello world", 0);
    assert_eq!(result, oneshot_result);
}

#[test]
fn test_xxhash64_incremental() {
    let mut hasher = XxHash64::new(0);
    hasher.write(b"hello");
    hasher.write(b" ");
    hasher.write(b"world");
    let result = hasher.finish();

    let oneshot_result = XxHash64::oneshot(b"hello world", 0);
    assert_eq!(result, oneshot_result);
}

#[test]
fn test_hasher_trait() {
    let mut hasher32 = XxHash32::new(0);
    hasher32.write(b"test");
    let _result32 = hasher32.finish();

    let mut hasher64 = XxHash64::new(0);
    hasher64.write(b"test");
    let _result64 = hasher64.finish();
}

#[test]
fn test_incremental_any_chunking() {
    let input: Vec<u8> = (0u16..200).map(|i| (i % 251) as u8).collect();
    let whole32 = XxHash32::oneshot(&input, 7);
    let whole64 = XxHash64::oneshot(&input, 7);
    for chunk in [1usize, 3, 16, 17, 31, 32, 33, 64] {
        let mut h32 = XxHash32::new(7);
        let mut h64 = XxHash64::new(7);
        for piece in input.chunks(chunk) {
            h32.write(piece);
            h64.write(piece);
        }
        assert_eq!(h32.finish(), whole32);
        assert_eq!(h64.finish(), whole64);
    }
}

#[test]
fn test_finish_does_not_disturb_state() {
    let mut h = XxHash64::new(1);
    h.write(b"abcdefgh");
    let first = h.finish();
    assert_eq!(first, h.finish());
    h.write(b"ij");
    let mut h2 = XxHash64::new(1);
    h2.write(b"abcdefghij");
    assert_eq!(h.finish(), h2.finish());
}

#[test]
fn test_seed_changes_digest() {
    assert_ne!(XxHash32::oneshot(b"weather", 0), XxHash32::oneshot(b"weather", 1));
    assert_ne!(XxHash64::oneshot(b"weather", 0), XxHash64::oneshot(b"weather", 1));
}

#[test]
fn test_default_hashers_use_seed_zero() {
    let h32 = obr::xxhash::XxHash32::default();
    assert_eq!(h32.finish(), obr::xxhash::XxHash32::oneshot(&[], 0));
    let h64 = obr::xxhash::XxHash64::default();
    assert_eq!(h64.finish(), obr::xxhash::XxHash64::oneshot(&[], 0));
}
