use oht::tag::{self, TAG_BIN_IDX, TAG_EXCESS, TAG_FILLER};
use oht::{Elem, Oht, OhtError, KEY_SIZE, VAL_SIZE, TAG_DUMMY};

const PRF_KEY: &[u8; 32] = b"abcdefghijklmnopqrstuvwxyz012345";

fn keyed_elem(i: u32, val_byte: u8, tag: u32) -> Elem {
    let mut elem = Elem {
        key: [0; KEY_SIZE],
        val: [val_byte; VAL_SIZE],
        tag,
    };
    let bytes = i.to_le_bytes();
    for (k, b) in bytes.iter().enumerate() {
        elem.key[k] = *b;
    }
    elem
}

fn query(i: u32) -> Elem {
    keyed_elem(i, 0, 0)
}

#[test]
fn dummy_record_never_returned() {
    let mut oht = Oht::new(8, 6);
    let mut elems = Vec::new();
    for i in 0..10u32 {
        elems.push(keyed_elem(i, 7, 0));
    }
    // a dummy with a key no real record carries
    elems.push(keyed_elem(100, 9, TAG_DUMMY));
    oht.prepare(elems);
    oht.build(PRF_KEY, 1).unwrap();
    let (found, val) = oht.lookup(query(100), PRF_KEY);
    assert!(!found);
    assert_eq!(val, [0; VAL_SIZE]);
    // the real records are still there
    let (found, val) = oht.lookup(query(3), PRF_KEY);
    assert!(found);
    assert_eq!(val, [7; VAL_SIZE]);
}

#[test]
fn dummy_query_forced_not_found() {
    let mut oht = Oht::new(8, 6);
    let mut elems = Vec::new();
    for i in 0..10u32 {
        elems.push(keyed_elem(i, 7, 0));
    }
    oht.prepare(elems);
    oht.build(PRF_KEY, 1).unwrap();
    // key 3 is stored, but the query itself is tagged dummy
    let mut q = query(3);
    q.tag = TAG_DUMMY;
    q.val = [5; VAL_SIZE];
    let (found, val) = oht.lookup(q, PRF_KEY);
    assert!(!found);
    assert_eq!(val, [5; VAL_SIZE]);
}

#[test]
fn dummy_laden_build_keeps_shape_and_reals() {
    let mut oht = Oht::new(4, 6);
    let mut elems = Vec::new();
    for i in 0..6u32 {
        elems.push(keyed_elem(i, 3, 0));
    }
    for i in 50..56u32 {
        elems.push(keyed_elem(i, 4, TAG_DUMMY));
    }
    oht.prepare(elems);
    oht.build(PRF_KEY, 1).unwrap();
    // both tiers keep the exact bin-slice shape even with dummies staged
    for t in [&oht.bins1, &oht.bins2] {
        assert_eq!(t.len(), 4 * 6);
        for (i, e) in t.iter().enumerate() {
            assert_eq!(tag::get(e.tag, TAG_BIN_IDX) as usize, i / 6);
            assert!(e.tag & TAG_EXCESS == 0);
        }
    }
    // every real record is still retrievable
    for i in 0..6u32 {
        let (found, val) = oht.lookup(query(i), PRF_KEY);
        assert!(found);
        assert_eq!(val, [3; VAL_SIZE]);
    }
    // the dummies never come back
    for i in 50..56u32 {
        let (found, _) = oht.lookup(query(i), PRF_KEY);
        assert!(!found);
    }
}

#[test]
fn lookup_twice_same_answer() {
    let mut oht = Oht::new(8, 6);
    let mut elems = Vec::new();
    for i in 0..20u32 {
        elems.push(keyed_elem(i, 3, 0));
    }
    oht.prepare(elems);
    oht.build(PRF_KEY, 1).unwrap();
    for i in [0u32, 11, 19, 77] {
        let first = oht.lookup(query(i), PRF_KEY);
        let second = oht.lookup(query(i), PRF_KEY);
        assert_eq!(first.0, second.0);
        assert_eq!(first.1, second.1);
    }
}

#[test]
fn overload_fails_deterministically() {
    // 9 records exceed twice the total capacity b * z = 4
    let mut oht = Oht::new(2, 2);
    let mut elems = Vec::new();
    for i in 0..9u32 {
        elems.push(keyed_elem(i, 1, 0));
    }
    oht.prepare(elems);
    assert_eq!(oht.build(PRF_KEY, 1), Err(OhtError::CapacityExceeded));
}

#[test]
fn prepare_resets_both_tiers() {
    let mut oht = Oht::new(4, 3);
    let mut elems = Vec::new();
    for i in 0..5u32 {
        elems.push(keyed_elem(i, 1, 0));
    }
    oht.prepare(elems);
    oht.build(PRF_KEY, 1).unwrap();
    assert_eq!(oht.len(), 2 * 4 * 3);
    assert!(!oht.is_empty());
    let mut second = Vec::new();
    for i in 10..12u32 {
        second.push(keyed_elem(i, 2, 0));
    }
    oht.prepare(second);
    assert_eq!(oht.len(), 2);
    oht.build(PRF_KEY, 1).unwrap();
    let (found, val) = oht.lookup(query(11), PRF_KEY);
    assert!(found);
    assert_eq!(val, [2; VAL_SIZE]);
    // a key only present before the second prepare is gone
    let (found, _) = oht.lookup(query(4), PRF_KEY);
    assert!(!found);
}

#[test]
fn build_pass_splits_tier_and_overflow() {
    // five records into two bins of two slots: at least one real record
    // cannot fit and must land in the pile, flagged
    let mut bins = Vec::new();
    for i in 0..5u32 {
        bins.push(keyed_elem(i, 1, 0));
    }
    let (pile, spilled) = Oht::build_pass(2, 2, &mut bins, PRF_KEY, 1);
    assert_eq!(bins.len(), 4);
    assert_eq!(pile.len(), 5);
    let kept_real = bins.iter().filter(|e| e.tag & TAG_FILLER == 0).count();
    let pile_real = pile.iter().filter(|e| e.tag & TAG_FILLER == 0).count();
    assert_eq!(kept_real + pile_real, 5);
    assert!(pile_real >= 1);
    assert!(spilled);
}

#[test]
fn empty_batch_builds_filler_only_tiers() {
    let mut oht = Oht::new(3, 2);
    oht.prepare(Vec::new());
    oht.build(PRF_KEY, 1).unwrap();
    assert_eq!(oht.bins1.len(), 6);
    assert_eq!(oht.bins2.len(), 6);
    let (found, val) = oht.lookup(query(0), PRF_KEY);
    assert!(!found);
    assert_eq!(val, [0; VAL_SIZE]);
}

#[test]
fn equal_keys_return_one_of_their_values() {
    let mut oht = Oht::new(4, 4);
    let mut elems = Vec::new();
    elems.push(keyed_elem(7, 11, 0));
    elems.push(keyed_elem(7, 22, 0));
    for i in 0..4u32 {
        elems.push(keyed_elem(i, 1, 0));
    }
    oht.prepare(elems);
    oht.build(PRF_KEY, 1).unwrap();
    let (found, val) = oht.lookup(query(7), PRF_KEY);
    assert!(found);
    assert!(val == [11; VAL_SIZE] || val == [22; VAL_SIZE]);
}

#[test]
fn clear_empties_the_table() {
    let mut oht = Oht::new(4, 3);
    let mut elems = Vec::new();
    for i in 0..5u32 {
        elems.push(keyed_elem(i, 1, 0));
    }
    oht.prepare(elems);
    oht.build(PRF_KEY, 1).unwrap();
    oht.clear();
    assert!(oht.is_empty());
    assert_eq!(oht.len(), 0);
    assert_eq!(oht.b, 4);
    assert_eq!(oht.z, 3);
}

#[test]
fn values_come_back_bytewise() {
    let mut oht = Oht::new(8, 6);
    let mut elems = Vec::new();
    for i in 0..6u32 {
        // give each record a distinct value pattern
        let mut e = keyed_elem(i, 0, 0);
        for (k, byte) in e.val.iter_mut().enumerate() {
            *byte = (k as u8).wrapping_add(i as u8);
        }
        elems.push(e);
    }
    let expected = elems.clone();
    oht.prepare(elems);
    oht.build(PRF_KEY, 1).unwrap();
    for i in 0..6u32 {
        let (found, val) = oht.lookup(query(i), PRF_KEY);
        assert!(found);
        assert_eq!(val, expected[i as usize].val);
    }
}
