use hashers::jenkins::{lookup3, oaat, rot, rot64, Lookup3Hasher, OAATHasher};
use std::hash::Hasher;
use std::collections::HashMap;
use std::hash::BuildHasherDefault;

fn sample(n: usize, k: usize, c: usize) -> Vec<u8> {
    (0..n).map(|i| ((i * k + c) & 0xff) as u8).collect()
}

#[test]
fn basic() {
    assert_eq!(oaat(b""), 0);
    assert_eq!(oaat(b"a"), 29161854018);
    assert_eq!(oaat(b"b"), 30079156635);
    assert_eq!(oaat(b"ab"), 30087418617432);
    assert_eq!(oaat(b"abcdefg"), 3103867595652801641);
}

#[test]
fn mod_basic() {
    assert_eq!(lookup3(b""), 0);
    assert_eq!(lookup3(b"a"), 6351843130003064584);
    assert_eq!(lookup3(b"b"), 5351957087540069269);
    assert_eq!(lookup3(b"ab"), 7744397999705663711);
    assert_eq!(lookup3(b"abcd"), 16288908501016938652);
    assert_eq!(lookup3(b"abcdefg"), 6461572128488215717);
}

#[test]
fn rot_turns_left_modulo_32() {
    assert_eq!(rot(0x80000001, 1), 3);
    assert_eq!(rot(0x12345678, 4), 0x23456781);
    assert_eq!(rot(0x12345678, 0), 0x12345678);
    assert_eq!(rot(0x12345678, 32), 0x12345678);
    assert_eq!(rot(0x12345678, 36), 0x23456781);
    for k in 0..100usize {
        assert_eq!(rot(0xdeadbeef, k), 0xdeadbeefu32.rotate_left((k % 32) as u32));
    }
}

#[test]
fn rot64_turns_left_modulo_64() {
    assert_eq!(rot64(0x8000000000000001, 1), 3);
    assert_eq!(rot64(0x0123456789abcdef, 8), 0x23456789abcdef01);
    assert_eq!(rot64(0x0123456789abcdef, 0), 0x0123456789abcdef);
    assert_eq!(rot64(0x0123456789abcdef, 64), 0x0123456789abcdef);
    assert_eq!(rot64(0x0123456789abcdef, 72), 0x23456789abcdef01);
    for k in 0..200usize {
        assert_eq!(
            rot64(0xdeadbeef01234567, k),
            0xdeadbeef01234567u64.rotate_left((k % 64) as u32)
        );
    }
}

#[test]
fn oaat_does_not_depend_on_the_cut() {
    let data = sample(50, 7, 3);
    let whole = oaat(&data);
    for cut in 0..=data.len() {
        let mut h = OAATHasher(0);
        h.write(&data[..cut]);
        h.write(&data[cut..]);
        assert_eq!(h.finish(), whole);
    }
}

#[test]
fn oaat_default_starts_from_zero() {
    let h: OAATHasher = Default::default();
    assert_eq!(h, OAATHasher(0));
    assert_eq!(h.finish(), 0);
}

#[test]
fn lookup3_around_the_block_size() {
    assert_eq!(lookup3(&sample(11, 7, 3)), 8387487865480918529);
    assert_eq!(lookup3(&sample(12, 7, 3)), 4115095437416505106);
    assert_eq!(lookup3(&sample(13, 7, 3)), 9368467090901005206);
    assert_eq!(lookup3(&sample(23, 7, 3)), 13569273341605214715);
    assert_eq!(lookup3(&sample(24, 7, 3)), 941353654831846543);
    assert_eq!(lookup3(&sample(25, 7, 3)), 609336523959271767);
    assert_eq!(lookup3(&sample(40, 7, 3)), 12803491219028699964);
}

#[test]
fn lookup3_seeded() {
    let data = sample(17, 7, 3);
    assert_eq!(
        Lookup3Hasher::oneshot(&data, 0x12345678, 0x9abcdef0),
        15611114166762742996
    );
    let mut h = Lookup3Hasher::new(0x12345678, 0x9abcdef0);
    assert_eq!(h.pc, 0x12345678);
    assert_eq!(h.pb, 0x9abcdef0);
    h.write(&data);
    assert_eq!(h.pc, 2583045332);
    assert_eq!(h.pb, 3634745759);
    assert_eq!(h.finish(), 2583045332u64 | (3634745759u64 << 32));
}

#[test]
fn lookup3_oneshot_unseeded_is_lookup3() {
    for n in 0..40 {
        let data = sample(n, 13, 1);
        assert_eq!(Lookup3Hasher::oneshot(&data, 0, 0), lookup3(&data));
    }
}

#[test]
fn lookup3_is_deterministic() {
    let data = sample(100, 5, 9);
    assert_eq!(lookup3(&data), lookup3(&data));
    let mut a = Lookup3Hasher::new(1, 2);
    let mut b = Lookup3Hasher::new(1, 2);
    a.write(&data);
    b.write(&data);
    assert_eq!(a, b);
    assert_eq!(a.finish(), b.finish());
}

#[test]
fn lookup3_finish_is_idempotent_and_leaves_the_state() {
    let mut h = Lookup3Hasher::new(0, 0);
    h.write(b"abcdefg");
    let before = h;
    let first = h.finish();
    let second = h.finish();
    assert_eq!(first, second);
    assert_eq!(first, 6461572128488215717);
    assert_eq!(h, before);
}

#[test]
fn lookup3_empty_write_changes_nothing() {
    let mut h = Lookup3Hasher::new(7, 9);
    h.write(b"");
    assert_eq!(h, Lookup3Hasher::new(7, 9));
    h.write(b"abcd");
    let after = h;
    h.write(b"");
    assert_eq!(h, after);

    let mut pieces = Lookup3Hasher::new(0, 0);
    pieces.write(b"");
    pieces.write(b"abcdefg");
    pieces.write(b"");
    assert_eq!(pieces.finish(), lookup3(b"abcdefg"));
}

#[test]
fn lookup3_depends_on_the_cut() {
    let mut h = Lookup3Hasher::new(0, 0);
    h.write(b"a");
    h.write(b"b");
    assert_eq!(h.finish(), 18104817335149544820);
    assert_eq!(lookup3(b"ab"), 7744397999705663711);
    assert_ne!(h.finish(), lookup3(b"ab"));
}

#[test]
fn lookup3_write_after_finish_goes_on() {
    let mut h = Lookup3Hasher::new(0, 0);
    h.write(b"a");
    let _ = h.finish();
    h.write(b"b");
    assert_eq!(h.finish(), 18104817335149544820);
}

#[test]
fn lookup3_mix_vectors() {
    let (mut a, mut b, mut c) = (1u32, 2u32, 3u32);
    Lookup3Hasher::mix(&mut a, &mut b, &mut c);
    assert_eq!((a, b, c), (2273116832, 3440859789, 3824966690));
    let (mut a, mut b, mut c) = (0xdeadbeefu32, 0x01234567u32, 0x89abcdefu32);
    Lookup3Hasher::mix(&mut a, &mut b, &mut c);
    assert_eq!((a, b, c), (1550447406, 968616334, 162387299));
}

#[test]
fn lookup3_final_mix_vectors() {
    let (mut a, mut b, mut c) = (1u32, 2u32, 3u32);
    Lookup3Hasher::final_mix(&mut a, &mut b, &mut c);
    assert_eq!((a, b, c), (3233524850, 3593481507, 922718683));
    let (mut a, mut b, mut c) = (0xdeadbeefu32, 0x01234567u32, 0x89abcdefu32);
    Lookup3Hasher::final_mix(&mut a, &mut b, &mut c);
    assert_eq!((a, b, c), (3918307123, 3324654368, 2781420322));
}

#[test]
fn shift_add_reads_up_to_four_bytes() {
    assert_eq!(Lookup3Hasher::shift_add(&[]), 0);
    assert_eq!(Lookup3Hasher::shift_add(&[0x11]), 0x11);
    assert_eq!(Lookup3Hasher::shift_add(&[0x11, 0x22]), 0x2211);
    assert_eq!(Lookup3Hasher::shift_add(&[0x11, 0x22, 0x33]), 0x332211);
    assert_eq!(Lookup3Hasher::shift_add(&[0x11, 0x22, 0x33, 0x44]), 0x44332211);
    assert_eq!(
        Lookup3Hasher::shift_add(&[0x11, 0x22, 0x33, 0x44, 0x55, 0x66]),
        0x44332211
    );
    assert_eq!(Lookup3Hasher::shift_add(&[0xff, 0xff, 0xff, 0xff]), 0xffffffff);
}

#[test]
fn lookup3_in_words() {
    assert_eq!(
        Lookup3Hasher::new(0, 0).to_string(),
        "Lookup3Hasher { pc: 0x00000000, pb: 0x00000000 }"
    );
    assert_eq!(
        Lookup3Hasher::new(1, 0xdeadbeef).to_string(),
        "Lookup3Hasher { pc: 0x00000001, pb: 0xdeadbeef }"
    );
    assert_eq!(
        Lookup3Hasher::new(0xABCDEF01, 0x00102030).to_string(),
        "Lookup3Hasher { pc: 0xabcdef01, pb: 0x00102030 }"
    );
}

#[test]
fn lookup3_default_is_unseeded() {
    let h: Lookup3Hasher = Default::default();
    assert_eq!(h, Lookup3Hasher::new(0, 0));
}

#[test]
fn lookup3_as_std_hasher() {
    let mut map: HashMap<i32, i32, BuildHasherDefault<Lookup3Hasher>> = HashMap::default();
    map.insert(1, 2);
    map.insert(3, 4);
    assert_eq!(map.get(&1), Some(&2));
    assert_eq!(map.get(&3), Some(&4));
    assert_eq!(map.get(&5), None);

    let mut h = Lookup3Hasher::new(0, 0);
    Hasher::write(&mut h, b"abcd");
    assert_eq!(Hasher::finish(&h), 16288908501016938652);
}
