use oht::crypto::{prf, prf_int};
use oht::obl::{
    ochoose_bool, ochoose_u32, ochoose_u8, ochoose_val, oeq, oeq_key, ogt, okey_lt, olt, osort,
    SortOrder,
};
use oht::tag::{
    self, TAG_BIN_IDX, TAG_DUMMY, TAG_EXCESS, TAG_FILLER,
};
use oht::{Elem, KEY_SIZE, VAL_SIZE};

#[test]
fn tag_codec_exact_values() {
    let t = tag::init();
    assert_eq!(t, 0);
    let t = tag::set(t, TAG_DUMMY);
    assert_eq!(t, 0x1);
    assert!(tag::check(t, TAG_DUMMY));
    assert!(tag::check_not(t, TAG_FILLER));
    let t = tag::set(t, TAG_EXCESS);
    assert_eq!(t, 0x5);
    let t = tag::unset(t, TAG_DUMMY);
    assert_eq!(t, 0x4);
    let t = tag::set_val(t, TAG_BIN_IDX, 0x2a);
    assert_eq!(t, 0x002a_0004);
    assert_eq!(tag::get(t, TAG_BIN_IDX), 0x2a);
    assert_eq!(tag::get(t, TAG_EXCESS), 1);
    // set_val masks an oversized value into the field
    let masked = tag::set_val(0, TAG_EXCESS, 0xff);
    assert_eq!(masked, TAG_EXCESS);
    // set_val_fit writes a fitting value without the mask step
    let fitted = tag::set_val_fit(TAG_FILLER, TAG_BIN_IDX, 7);
    assert_eq!(fitted, 0x0007_0002);
    assert_eq!(tag::get(fitted, TAG_BIN_IDX), 7);
}

#[test]
fn branch_free_compares() {
    assert!(olt(3, 5));
    assert!(!olt(5, 3));
    assert!(!olt(4, 4));
    assert!(olt(0, u32::MAX));
    assert!(ogt(5, 3));
    assert!(!ogt(3, 5));
    assert!(!ogt(4, 4));
    assert!(oeq(9, 9));
    assert!(!oeq(9, 10));
    assert!(oeq(0, 0));
    assert!(oeq(u32::MAX, u32::MAX));
}

#[test]
fn branch_free_selects() {
    assert_eq!(ochoose_u8(true, 1, 2), 1);
    assert_eq!(ochoose_u8(false, 1, 2), 2);
    assert_eq!(ochoose_u32(true, 0xdead, 0xbeef), 0xdead);
    assert_eq!(ochoose_u32(false, 0xdead, 0xbeef), 0xbeef);
    assert_eq!(ochoose_bool(true, false, true), false);
    assert_eq!(ochoose_bool(false, false, true), true);
    let a = [3u8; VAL_SIZE];
    let b = [9u8; VAL_SIZE];
    assert_eq!(ochoose_val(true, a, b), a);
    assert_eq!(ochoose_val(false, a, b), b);
}

#[test]
fn whole_key_compares() {
    let mut a = [0u8; KEY_SIZE];
    let mut b = [0u8; KEY_SIZE];
    assert!(oeq_key(a, b));
    assert!(!okey_lt(&a, &b));
    // the last byte is least significant in the big-endian reading
    b[KEY_SIZE - 1] = 1;
    assert!(!oeq_key(a, b));
    assert!(okey_lt(&a, &b));
    assert!(!okey_lt(&b, &a));
    // an earlier byte outweighs any later ones
    a[0] = 1;
    assert!(okey_lt(&b, &a));
    assert!(!okey_lt(&a, &b));
}

#[test]
fn prf_is_deterministic_and_keyed() {
    let k1 = b"one secret key".as_slice();
    let k2 = b"another secret".as_slice();
    let d1 = prf(k1, b"data");
    assert_eq!(d1.len(), 32);
    assert_eq!(d1, prf(k1, b"data"));
    assert_ne!(d1, prf(k1, b"datb"));
    assert_ne!(d1, prf(k2, b"data"));
}

#[test]
fn prf_int_stays_in_range() {
    let k = b"range check key".as_slice();
    for b in [1u16, 2, 3, 31, 255, 65535] {
        for i in 0..16u32 {
            let r = prf_int(k, &i.to_le_bytes(), b);
            assert!(r < b);
        }
    }
    // and it reduces the digest's low 16 bits, so b == 1 pins it
    assert_eq!(prf_int(k, b"x", 1), 0);
}

fn tagged_elem(tag: u32, key_byte: u8) -> Elem {
    let mut e = Elem {
        key: [0; KEY_SIZE],
        val: [0; VAL_SIZE],
        tag,
    };
    e.key[0] = key_byte;
    e
}

#[test]
fn bin_group_order_groups_by_bin_then_filler() {
    let bin = |v: u32| v << 16;
    let mut v = vec![
        tagged_elem(bin(2), 0),
        tagged_elem(bin(1) | TAG_FILLER, 1),
        tagged_elem(bin(1), 2),
        tagged_elem(bin(0), 3),
    ];
    osort(&mut v, SortOrder::BinGroup, 1);
    assert_eq!(v[0].tag, bin(0));
    assert_eq!(v[1].tag, bin(1));
    assert_eq!(v[2].tag, bin(1) | TAG_FILLER);
    assert_eq!(v[3].tag, bin(2));
}

#[test]
fn excess_split_order_moves_overflow_back() {
    let bin = |v: u32| v << 16;
    let mut v = vec![
        tagged_elem(bin(3) | TAG_EXCESS | TAG_FILLER, 0),
        tagged_elem(bin(2) | TAG_EXCESS, 1),
        tagged_elem(bin(5), 2),
        tagged_elem(bin(1), 3),
        tagged_elem(bin(0) | TAG_DUMMY, 4),
    ];
    osort(&mut v, SortOrder::ExcessSplit, 1);
    // survivors first, by bin whether dummy or not; then the overflow,
    // real and dummy records before fillers
    assert_eq!(v[0].tag, bin(0) | TAG_DUMMY);
    assert_eq!(v[1].tag, bin(1));
    assert_eq!(v[2].tag, bin(5));
    assert_eq!(v[3].tag, bin(2) | TAG_EXCESS);
    assert_eq!(v[4].tag, bin(3) | TAG_EXCESS | TAG_FILLER);
}
