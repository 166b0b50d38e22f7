use hashers::fnv::{fnv1a32, fnv1a64, FNV1aHasher32, FNV1aHasher64};
use hashers::null::{null, passthrough, NullHasher, PassThroughHasher};
use std::hash::Hasher;
use std::collections::hash_map::DefaultHasher;
use std::collections::HashMap;
use std::hash::BuildHasherDefault;

fn sample(n: usize, k: usize, c: usize) -> Vec<u8> {
    (0..n).map(|i| ((i * k + c) & 0xff) as u8).collect()
}

#[test]
fn lib_basic() {
    assert_eq!(fnv1a64(b""), 14695981039346656037);
    assert_eq!(fnv1a64(b"a"), 12638187200555641996);
    assert_eq!(fnv1a64(b"b"), 12638190499090526629);
    assert_eq!(fnv1a64(b"ab"), 620445648566982762);
    assert_eq!(fnv1a64(b"abcd"), 18165163011005162717);
    assert_eq!(fnv1a64(b"abcdefg"), 4642726675185563447);
}

#[test]
fn fnv1a32_vectors() {
    assert_eq!(fnv1a32(b""), 2166136261);
    assert_eq!(fnv1a32(b"a"), 3826002220);
    assert_eq!(fnv1a32(b"foobar"), 3214735720);
}

#[test]
fn fnv_does_not_depend_on_the_cut() {
    let data = sample(40, 3, 1);
    for cut in 0..=data.len() {
        let mut a = FNV1aHasher32::default();
        a.write(&data[..cut]);
        a.write(&data[cut..]);
        assert_eq!(a.finish(), fnv1a32(&data));
        let mut b = FNV1aHasher64::default();
        b.write(&data[..cut]);
        b.write(&data[cut..]);
        assert_eq!(b.finish(), fnv1a64(&data));
    }
}

#[test]
fn fnv_as_std_hasher() {
    let mut map: HashMap<i32, i32, BuildHasherDefault<FNV1aHasher64>> = HashMap::default();
    map.insert(1, 2);
    assert_eq!(map.get(&1), Some(&2));
    let mut h: FNV1aHasher64 = Default::default();
    Hasher::write(&mut h, b"abcd");
    assert_eq!(Hasher::finish(&h), 18165163011005162717);
}

#[test]
fn null_is_always_zero() {
    assert_eq!(null(b""), 0);
    assert_eq!(null(b"abcdefg"), 0);
    let mut h = NullHasher::default();
    h.write(b"anything");
    assert_eq!(h.finish(), 0);
    assert_eq!(h, NullHasher);
}

#[test]
fn passthrough_keeps_the_last_eight_bytes() {
    assert_eq!(passthrough(b""), 0);
    assert_eq!(passthrough(b"a"), 97);
    assert_eq!(passthrough(b"ab"), 24930);
    assert_eq!(passthrough(b"abcdefghij"), 7161960797921896810);
    assert_eq!(
        passthrough(b"abcdefghij"),
        u64::from_be_bytes(*b"cdefghij")
    );
}

#[test]
fn passthrough_does_not_depend_on_the_cut() {
    let data = sample(20, 9, 2);
    for cut in 0..=data.len() {
        let mut h = PassThroughHasher::default();
        h.write(&data[..cut]);
        h.write(&data[cut..]);
        assert_eq!(h.finish(), passthrough(&data));
    }
}

#[test]
fn builtin_default_is_the_std_hasher() {
    for n in [0usize, 1, 7, 100] {
        let data = sample(n, 5, 5);
        let mut h = DefaultHasher::new();
        h.write(&data);
        assert_eq!(hashers::builtin::default(&data), h.finish());
    }
}
