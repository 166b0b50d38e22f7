use hashers::bytes::{load_u32_le, load_u64_le};
use hashers::jenkins::spooky_hash::{
    copy_bytes, end, end_partial, load_block, mix, short, short_end, short_mix, spooky,
    SpookyHasher,
};
use hashers::jenkins::{lookup3, oaat};
use std::hash::Hasher;
use std::collections::HashMap;
use std::hash::BuildHasherDefault;

fn sample(n: usize, k: usize, c: usize) -> Vec<u8> {
    (0..n).map(|i| ((i * k + c) & 0xff) as u8).collect()
}

fn state() -> [u64; 12] {
    let mut st = [0u64; 12];
    for i in 0..12u64 {
        st[i as usize] = i.wrapping_mul(0x0123456789abcdef).wrapping_add(0x1111);
    }
    st
}

fn data() -> [u64; 12] {
    let mut d = [0u64; 12];
    for i in 0..12u64 {
        d[i as usize] = i.wrapping_mul(0xfedcba987654321).wrapping_add(0x2222);
    }
    d
}

fn hash128(data: &[u8]) -> (u64, u64) {
    let mut h = SpookyHasher::default();
    h.write(data);
    h.finish128()
}

#[test]
fn spooky_hash_basic() {
    assert_eq!(spooky(b""), 13905049616862401802);
    assert_eq!(spooky(b"a"), 16932945748884078726);
    assert_eq!(spooky(b"b"), 5781063613870495197);
    assert_eq!(spooky(b"ab"), 13849109452443161137);
    assert_eq!(spooky(b"abcd"), 4142038200967391753);
    assert_eq!(spooky(b"abcdefg"), 2761526316938866980);
    assert_eq!(spooky(b"abcdefghijklmnopqrstuvwxyz"), 16192181224158463141);
}

#[test]
fn spooky_empty_input_has_a_digest() {
    assert_eq!(spooky(b""), 13905049616862401802);
    assert_eq!(SpookyHasher::default().finish(), 13905049616862401802);
    assert_eq!(
        SpookyHasher::default().finish128(),
        (13905049616862401802, 6118167776584903481)
    );
    let mut h = SpookyHasher::default();
    h.write(b"");
    assert_eq!(h.finish(), 13905049616862401802);
}

#[test]
fn spooky_short_lengths() {
    assert_eq!(hash128(&sample(1, 7, 3)), (13142207354445264797, 5737699277282327036));
    assert_eq!(hash128(&sample(15, 7, 3)), (5315820701262930553, 4490936142890586397));
    assert_eq!(hash128(&sample(16, 7, 3)), (17743182227384949306, 9544932728944247681));
    assert_eq!(hash128(&sample(31, 7, 3)), (13917588197756108091, 12866479915300864725));
    assert_eq!(hash128(&sample(32, 7, 3)), (10698457695829461997, 15111522391882890996));
    assert_eq!(hash128(&sample(33, 7, 3)), (3670672838640029110, 5612073177033707084));
    assert_eq!(hash128(&sample(95, 7, 3)), (7371116753309366362, 9652707510707489153));
    assert_eq!(hash128(&sample(96, 7, 3)), (2056835115381435199, 14878553352115125440));
    assert_eq!(hash128(&sample(97, 7, 3)), (8574857459657114526, 11344333434958133521));
    assert_eq!(hash128(&sample(191, 7, 3)), (10726844390243519262, 2231869415509292768));
}

#[test]
fn spooky_long_lengths() {
    assert_eq!(hash128(&sample(192, 7, 3)), (11927380278096484653, 10030524008878203987));
    assert_eq!(hash128(&sample(193, 7, 3)), (6796161751202690240, 978642091396653058));
    assert_eq!(hash128(&sample(287, 7, 3)), (8350348383602573871, 14566820156787434130));
    assert_eq!(hash128(&sample(288, 7, 3)), (11548623934390103946, 18317994669014032784));
    assert_eq!(hash128(&sample(289, 7, 3)), (13218062267968005795, 12090527406694826660));
    assert_eq!(hash128(&sample(383, 7, 3)), (3265870301576971098, 8805869835449426375));
    assert_eq!(hash128(&sample(384, 7, 3)), (6497447191502949574, 5083762389377569001));
    assert_eq!(hash128(&sample(385, 7, 3)), (466640583504249110, 5255881383019029616));
    assert_eq!(hash128(&sample(1000, 7, 3)), (14400013276996645418, 7313432927905717877));
}

#[test]
fn spooky_seeded() {
    let s1 = 0x0123456789abcdef;
    let s2 = 0xfedcba9876543210;
    let cases: [(usize, (u64, u64)); 7] = [
        (0, (12218767120658286705, 9516072327040991287)),
        (5, (17523812337352821359, 653332198498092830)),
        (100, (17854961037279011568, 12430773488807904849)),
        (191, (12501992074596090888, 1484371994605268911)),
        (192, (1923309337977372541, 8829317217573805966)),
        (200, (6902695293050697570, 17329118550443679261)),
        (500, (4745534804211429011, 11982036692729280949)),
    ];
    for (n, expected) in cases {
        let mut h = SpookyHasher::new(s1, s2);
        h.write(&sample(n, 7, 3));
        assert_eq!(h.finish128(), expected);
        assert_eq!(h.finish(), expected.0);
    }
}

#[test]
fn spooky_zero_seeds_are_not_no_seeds_for_long_input() {
    let short_input = sample(100, 7, 3);
    let mut seeded = SpookyHasher::new(0, 0);
    seeded.write(&short_input);
    assert_eq!(seeded.finish128(), hash128(&short_input));

    let long_input = sample(300, 7, 3);
    let mut seeded = SpookyHasher::new(0, 0);
    seeded.write(&long_input);
    assert_eq!(seeded.finish128(), (6912227366381008548, 1230659150971546252));
    assert_ne!(seeded.finish128(), hash128(&long_input));
}

#[test]
fn spooky_is_deterministic() {
    for n in [0usize, 1, 50, 191, 192, 193, 500] {
        let input = sample(n, 3, 11);
        assert_eq!(spooky(&input), spooky(&input));
        let mut a = SpookyHasher::new(5, 6);
        let mut b = SpookyHasher::new(5, 6);
        a.write(&input);
        b.write(&input);
        assert_eq!(a.finish128(), b.finish128());
    }
}

#[test]
fn spooky_does_not_depend_on_the_cut() {
    let input = sample(450, 7, 3);
    let whole = hash128(&input);
    for cut in 0..=input.len() {
        let mut h = SpookyHasher::default();
        h.write(&input[..cut]);
        h.write(&input[cut..]);
        assert_eq!(h.finish128(), whole);
    }
}

#[test]
fn spooky_does_not_depend_on_the_cuts_of_three_pieces() {
    for n in [10usize, 191, 192, 193, 300] {
        let input = sample(n, 13, 7);
        let whole = hash128(&input);
        let mut first = 0;
        while first <= n {
            let mut second = first;
            while second <= n {
                let mut h = SpookyHasher::new(0, 0);
                let mut reference = SpookyHasher::new(0, 0);
                h.write(&input[..first]);
                h.write(&input[first..second]);
                h.write(&input[second..]);
                reference.write(&input);
                assert_eq!(h.finish128(), reference.finish128());
                if n < 192 {
                    assert_eq!(h.finish128(), whole);
                }
                second += 7;
            }
            first += 5;
        }
    }
}

#[test]
fn spooky_byte_by_byte() {
    for n in [0usize, 1, 95, 96, 191, 192, 193, 288, 400] {
        let input = sample(n, 7, 3);
        let mut h = SpookyHasher::default();
        for b in &input {
            h.write(&[*b]);
        }
        assert_eq!(h.finish128(), hash128(&input));
    }
}

#[test]
fn spooky_crossing_the_buffer_size() {
    let input = sample(260, 7, 3);
    let whole = hash128(&input);

    let mut straddling = SpookyHasher::default();
    straddling.write(&input[..100]);
    straddling.write(&input[100..191]);
    straddling.write(&input[191..193]);
    straddling.write(&input[193..]);
    assert_eq!(straddling.finish128(), whole);

    let mut exact = SpookyHasher::default();
    exact.write(&input[..192]);
    exact.write(&input[192..]);
    assert_eq!(exact.finish128(), whole);

    let mut just_under = SpookyHasher::default();
    just_under.write(&input[..191]);
    assert_eq!(just_under.finish128(), hash128(&input[..191]));
    just_under.write(&input[191..192]);
    assert_eq!(just_under.finish128(), hash128(&input[..192]));
    just_under.write(&input[192..]);
    assert_eq!(just_under.finish128(), whole);
}

#[test]
fn spooky_finish_is_idempotent() {
    for n in [0usize, 10, 191, 192, 300] {
        let mut h = SpookyHasher::default();
        h.write(&sample(n, 7, 3));
        let first = h.finish128();
        let second = h.finish128();
        assert_eq!(first, second);
        assert_eq!(h.finish(), first.0);
        assert_eq!(h.finish(), h.finish());
    }
}

#[test]
fn spooky_write_after_finish_goes_on() {
    let input = sample(400, 7, 3);
    for cut in [0usize, 1, 100, 191, 192, 193, 250, 399, 400] {
        let mut h = SpookyHasher::default();
        h.write(&input[..cut]);
        assert_eq!(h.finish128(), hash128(&input[..cut]));
        h.write(&input[cut..]);
        assert_eq!(h.finish128(), hash128(&input));
    }
}

#[test]
fn spooky_tells_trailing_zeros_from_nothing_in_long_input() {
    let mut with_zero = sample(200, 7, 3);
    let without = with_zero.clone();
    with_zero.push(0);
    assert_ne!(hash128(&with_zero), hash128(&without));
}

#[test]
fn spooky_copy_hashes_alike() {
    let mut h = SpookyHasher::new(1, 2);
    h.write(&sample(100, 7, 3));
    let mut copy = h;
    h.write(&sample(150, 5, 1));
    copy.write(&sample(150, 5, 1));
    assert_eq!(h.finish128(), copy.finish128());
}

#[test]
fn spooky_as_std_hasher() {
    let mut map: HashMap<String, i32, BuildHasherDefault<SpookyHasher>> = HashMap::default();
    map.insert("one".to_string(), 1);
    map.insert("two".to_string(), 2);
    assert_eq!(map.get("one"), Some(&1));
    assert_eq!(map.get("two"), Some(&2));
    assert_eq!(map.get("three"), None);

    let mut h: SpookyHasher = Default::default();
    Hasher::write(&mut h, b"abcd");
    assert_eq!(Hasher::finish(&h), 4142038200967391753);
}

#[test]
fn short_on_every_rest() {
    let s1 = 0x1111111111111111u64;
    let s2 = 0x2222222222222222u64;
    let cases: [(usize, (u64, u64)); 25] = [
        (0, (16127354372228734520, 12337455041750700893)),
        (1, (2197339884445188828, 1633176369490054182)),
        (2, (17684306508044961315, 6522791626326708316)),
        (3, (1185805346385173122, 5789688893911005303)),
        (4, (17834666147405992781, 3375043410281590501)),
        (5, (16927743361436905586, 3587315141573022873)),
        (6, (10336008160298798884, 15849245406418181758)),
        (7, (5545197798718526730, 10292721190696315192)),
        (8, (4393773363886758724, 10923684819548806821)),
        (9, (929847743969097558, 1814113428810231643)),
        (10, (14395162846429079752, 14467458373948973159)),
        (11, (4852412129193274919, 12221850116284512672)),
        (12, (10443667025870701221, 13322451464716440980)),
        (13, (16110743590157591888, 12389436723739864890)),
        (14, (16110743590157591888, 12389436723739864890)),
        (15, (16110743590157591888, 12389436723739864890)),
        (16, (391513888806653300, 17064775167801866794)),
        (17, (391513888806653300, 17064775167801866794)),
        (31, (391513888806653300, 17064775167801866794)),
        (32, (10713423598194558050, 3968583203211947208)),
        (33, (639798919832098071, 10968871492002865338)),
        (47, (9189615487248904739, 13096987580480233845)),
        (48, (14727794917465533051, 16850851967504018200)),
        (63, (14727794917465533051, 16850851967504018200)),
        (64, (2099413536299409095, 11131929729992876705)),
    ];
    for (n, expected) in cases {
        let message = sample(n, 11, 5);
        let mut h1 = s1;
        let mut h2 = s2;
        short(&message, n, &mut h1, &mut h2);
        assert_eq!((h1, h2), expected);
    }
    let mut h1 = s1;
    let mut h2 = s2;
    short(&sample(65, 11, 5), 65, &mut h1, &mut h2);
    assert_eq!((h1, h2), (1268876342117028628, 1355612156882430801));
}

#[test]
fn short_reads_the_length_only_for_a_packed_rest() {
    let mut h1 = 1u64;
    let mut h2 = 2u64;
    short(&sample(5, 11, 5), 77, &mut h1, &mut h2);
    assert_eq!((h1, h2), (11913253628531120425, 11196480271631054503));

    let mut a1 = 1u64;
    let mut a2 = 2u64;
    short(&sample(20, 11, 5), 77, &mut a1, &mut a2);
    assert_eq!((a1, a2), (6011298301367578231, 2451780968525929876));
    let mut b1 = 1u64;
    let mut b2 = 2u64;
    short(&sample(20, 11, 5), 20, &mut b1, &mut b2);
    assert_eq!((a1, a2), (b1, b2));
}

#[test]
fn short_is_what_finish_uses_below_the_buffer_size() {
    for n in [0usize, 1, 31, 32, 100, 191] {
        let input = sample(n, 7, 3);
        let mut padded = input.clone();
        padded.resize(192, 0);
        let mut h1 = 0u64;
        let mut h2 = 0u64;
        short(&padded, n, &mut h1, &mut h2);
        assert_eq!((h1, h2), hash128(&input));
    }
}

#[test]
fn mix_vector() {
    let mut st = state();
    mix(&data(), &mut st);
    assert_eq!(
        st,
        [
            12883848482881877943,
            4064027854313283211,
            8866157120402478683,
            2692673287467050332,
            2076509767679765016,
            13627244345954416727,
            443020349970882035,
            13924534982774558931,
            12176557166329314172,
            9131455666591814195,
            6811833492376176199,
            3121239683881135881
        ]
    );
}

#[test]
fn mix_reads_twelve_words_of_longer_data() {
    let mut longer = data().to_vec();
    longer.push(99);
    longer.push(100);
    let mut a = state();
    let mut b = state();
    mix(&longer, &mut a);
    mix(&data(), &mut b);
    assert_eq!(a, b);
}

#[test]
fn end_partial_vector() {
    let mut st = state();
    end_partial(&mut st);
    assert_eq!(
        st,
        [
            11955981133822621322,
            16708075546779288861,
            12970300222677537875,
            11507762065547111294,
            10259596767793917558,
            3109815950469148942,
            3419078502162432802,
            9476489157758877568,
            15359416437674985517,
            13786698847197617245,
            3289624552371650995,
            10377964120588424323
        ]
    );
}

#[test]
fn end_vector() {
    let mut st = state();
    end(&data(), &mut st);
    assert_eq!(
        st,
        [
            13585501822059340274,
            1561369926416466983,
            15409628823801809678,
            16971460765627670072,
            16527749719492613903,
            13488281605247864741,
            10998026439532182104,
            122058003313355809,
            1059824159240975015,
            13911526565754084044,
            13898924098903113175,
            1425056440810136162
        ]
    );
}

#[test]
fn short_mix_vector() {
    let st = state();
    let mut h = [st[0], st[1], st[2], st[3]];
    short_mix(&mut h);
    assert_eq!(
        h,
        [
            17620473533630261069,
            4556733832814035777,
            18368008491216435572,
            7801372966379219597
        ]
    );
}

#[test]
fn short_end_vector() {
    let st = state();
    let mut h = [st[0], st[1], st[2], st[3]];
    short_end(&mut h);
    assert_eq!(
        h,
        [
            12464350477501678835,
            4953647334932655728,
            10526669570225869224,
            4257386612639807389
        ]
    );
}

#[test]
fn loads_are_little_endian() {
    let buf = [0x01u8, 0x02, 0x03, 0x04, 0x05, 0x06, 0x07, 0x08, 0x09, 0x0a];
    assert_eq!(load_u32_le(&buf, 0), 0x04030201);
    assert_eq!(load_u32_le(&buf, 1), 0x05040302);
    assert_eq!(load_u32_le(&buf, 6), 0x0a090807);
    assert_eq!(load_u64_le(&buf, 0), 0x0807060504030201);
    assert_eq!(load_u64_le(&buf, 2), 0x0a09080706050403);
    assert_eq!(load_u32_le(&[0xff, 0xff, 0xff, 0xff], 0), u32::MAX);
    assert_eq!(load_u64_le(&[0xff; 8], 0), u64::MAX);
}

#[test]
fn load_block_reads_twelve_words() {
    let buf = sample(200, 1, 0);
    let words = load_block(&buf, 3);
    for i in 0..12 {
        let mut eight = [0u8; 8];
        eight.copy_from_slice(&buf[3 + 8 * i..3 + 8 * i + 8]);
        assert_eq!(words[i], u64::from_le_bytes(eight));
    }
}

#[test]
fn copy_bytes_overwrites_in_place() {
    let mut dst = [9u8; 8];
    copy_bytes(&mut dst, 2, &[1, 2, 3]);
    assert_eq!(dst, [9, 9, 1, 2, 3, 9, 9, 9]);
    copy_bytes(&mut dst, 8, &[]);
    assert_eq!(dst, [9, 9, 1, 2, 3, 9, 9, 9]);
    copy_bytes(&mut dst, 0, &[7; 8]);
    assert_eq!(dst, [7; 8]);
}

fn xorshift(state: &mut u64) -> u64 {
    let mut x = *state;
    x ^= x << 13;
    x ^= x >> 7;
    x ^= x << 17;
    *state = x;
    x
}

fn chi2(samples: &[Vec<u8>], hash: fn(&[u8]) -> u64, mask_size: u32) -> f64 {
    let n_buckets = 2usize.pow(mask_size);
    let mask = n_buckets as u64 - 1;
    let mut buckets = vec![0usize; n_buckets];
    for s in samples {
        buckets[(hash(s) & mask) as usize] += 1;
    }
    let expected = samples.len() as f64 / n_buckets as f64;
    let mut sum = 0.0f64;
    for c in buckets {
        let r = c as f64 - expected;
        sum += r * r / expected;
    }
    (sum - n_buckets as f64) / (n_buckets as f64).sqrt()
}

#[test]
fn low_bits_spread_evenly_over_random_samples() {
    let mut rng = 0x9e3779b97f4a7c15u64;
    let mut samples: Vec<Vec<u8>> = Vec::new();
    for _ in 0..4096 {
        let v = xorshift(&mut rng);
        samples.push(v.to_le_bytes()[..6].to_vec());
    }
    let spooky_score = chi2(&samples, spooky, 7);
    let lookup3_score = chi2(&samples, lookup3, 7);
    let oaat_score = chi2(&samples, oaat, 7);
    println!("spooky {spooky_score} lookup3 {lookup3_score} oaat {oaat_score}");
    assert!(spooky_score.abs() < 4.0);
    assert!(lookup3_score.abs() < 4.0);
    assert!(oaat_score.abs() < 4.0);
}
