use oht::obl::SortOrder;
use oht::tag::{self, TAG_BIN_IDX, TAG_EXCESS};
use oht::{Elem, Oht, KEY_SIZE, VAL_SIZE};

const PRF_KEY: &[u8; 32] = b"01234567890123456789012345678901";

fn elem_with_key_index(i: u32, val_byte: u8) -> Elem {
    let mut elem = Elem {
        key: [0; KEY_SIZE],
        val: [val_byte; VAL_SIZE],
        tag: 0,
    };
    let bytes = i.to_le_bytes();
    for (k, b) in bytes.iter().enumerate() {
        elem.key[k] = *b;
    }
    elem
}

fn check_bin_elems(bin_range: &[Elem], bin_idx: u16) {
    for (i, elem) in bin_range.iter().enumerate() {
        assert!(elem.tag & TAG_EXCESS == 0);
        assert_eq!(
            tag::get(elem.tag, TAG_BIN_IDX),
            bin_idx as u32,
            "{:?} at bin {} idx {}",
            elem,
            bin_idx,
            i
        );
    }
}

fn check_bins(bins: &[Elem], b: u16, z: usize) {
    assert_eq!(bins.len(), b as usize * z);
    for i in 0..b {
        let bin_range = &bins[i as usize * z..(i as usize + 1) * z];
        check_bin_elems(bin_range, i);
    }
}

#[test]
fn test_oht_build_ok() {
    let mut oht = Oht::new(4, 100);
    let mut elems = Vec::new();
    for i in 0..100u32 {
        elems.push(elem_with_key_index(i, 0));
    }
    oht.bins1 = elems.clone();
    oht.build(PRF_KEY, 1).unwrap();
    check_bins(&oht.bins1, 4, 100);
    check_bins(&oht.bins2, 4, 100);
}

#[test]
fn test_oht_build_mt_ok() {
    let mut oht = Oht::new(4, 1300);
    let mut elems = Vec::new();
    for i in 0..5000u32 {
        elems.push(elem_with_key_index(i, 0));
    }
    oht.bins1 = elems.clone();
    oht.build(PRF_KEY, 4).unwrap();
    check_bins(&oht.bins1, 4, 1300);
    check_bins(&oht.bins2, 4, 1300);
}

#[test]
fn test_oht_build_then_lookup_ok() {
    let mut oht = Oht::new(31, 17);
    let mut elems = Vec::new();
    for i in 0..100u32 {
        elems.push(elem_with_key_index(i, 1));
    }
    oht.bins1 = elems.clone();
    oht.build(PRF_KEY, 1).unwrap();
    let null_val = [0; VAL_SIZE];
    for i in [1usize, 14, 51, 4, 8, 10] {
        let key = elems[i].key;
        let (found, res_val) = oht.lookup(
            Elem {
                tag: 0,
                key,
                val: null_val,
            },
            PRF_KEY,
        );
        assert!(found);
        assert_eq!(res_val, [1; VAL_SIZE], "key {}", i);
    }
    let mut key = [0; KEY_SIZE];
    for (i, b) in 1919u32.to_le_bytes().iter().enumerate() {
        key[i] = *b;
    }
    let (found, res_val) = oht.lookup(
        Elem {
            tag: 0,
            key,
            val: null_val,
        },
        PRF_KEY,
    );
    assert!(!found);
    assert_eq!(res_val, null_val);
}

#[test]
fn test_ok() {
    let mut vec = vec![
        Elem {
            tag: 0,
            key: std::array::from_fn(|_| 0),
            val: std::array::from_fn(|_| 0)
        };
        3
    ];
    vec[0].key[0] = 3;
    vec[1].key[0] = 2;
    vec[2].key[0] = 1;
    oht::obl::osort(&mut vec, SortOrder::WholeKey, 1);
    assert_eq!(vec.len(), 3);
    assert_eq!(vec[0].key[0], 1);
    assert_eq!(vec[1].key[0], 2);
    assert_eq!(vec[2].key[0], 3);
}
