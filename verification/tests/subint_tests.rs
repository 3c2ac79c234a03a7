use subint::of;
use subint::raw::{advance, mk_ones};

#[test]
fn test_perm_iter_corner() {
    assert_eq!(None, of(3).unwrap().permute(4).next());
    assert_eq!(None, of(0).unwrap().permute(1).next());
    assert_eq!(Some(0xFFFF_FFFF), of(32).unwrap().permute(32).next());
}

#[test]
fn test_perm_iter_corner2() {
    let mut i = of(0).unwrap().permute(0);
    assert_eq!(Some(0), i.next());
    assert_eq!(None, i.next());
}

#[test]
fn test_perm_iter_simple() {
    let mut i = of(5).unwrap().permute(1);
    assert_eq!(Some(0b00001), i.next());
    assert_eq!(Some(0b00010), i.next());
    assert_eq!(Some(0b00100), i.next());
    assert_eq!(Some(0b01000), i.next());
    assert_eq!(Some(0b10000), i.next());
    assert_eq!(None, i.next());
    assert_eq!(None, i.next());
    assert_eq!(None, i.next());
    assert_eq!(None, i.next());
}

#[test]
fn test_perm_iter_full() {
    let mut i = of(4).unwrap().permute(4);
    assert_eq!(Some(0b1111), i.next());
    assert_eq!(None, i.next());
}

#[test]
fn test_perm_collect() {
    let mut i = of(3).unwrap().permute(1);
    let mut p = Vec::<u32>::new();
    while let Some(v) = i.next() {
        p.push(v);
    }
    assert_eq!(p, vec![0b001, 0b010, 0b100]);
}

#[test]
fn test_perm_for_consuming() {
    let mut perms = Vec::<u32>::with_capacity(3);
    let mut i = of(3).unwrap().permute(1);
    while let Some(p) = i.next() {
        perms.push(p);
    }
    assert_eq!(perms, vec![0b001, 0b010, 0b100]);
}

#[test]
fn test_inv() {
    assert_eq!(0, of(0).unwrap().invert(0));
    assert_eq!(0xCAFEBABEu32, of(0).unwrap().invert(0xCAFEBABEu32));
    assert_eq!(u32::MAX, of(32).unwrap().invert(0));
    assert_eq!(0x12345678, of(32).unwrap().invert(0xEDCBA987));
    assert_eq!(0x1234A987, of(16).unwrap().invert(0x12345678));
}

#[test]
fn test_of_out_of_range() {
    assert!(of(33).is_err());
    assert!(of(u32::MAX).is_err());
    assert!(of(32).is_ok());
}

#[test]
fn test_mk_ones() {
    assert_eq!(0b0, mk_ones(0));
    assert_eq!(0b1, mk_ones(1));
    assert_eq!(0b11, mk_ones(2));
    assert_eq!(0xFF, mk_ones(8));
    assert_eq!(0x7FFF_FFFF, mk_ones(31));
    assert_eq!(0xFFFF_FFFF, mk_ones(32));
}

#[test]
fn test_advance_2_1() {
    assert_eq!(advance(2, 1, 0b01), 0b10);
    assert_eq!(advance(2, 1, 0b10), 0b01);
}

#[test]
fn test_advance_3_1() {
    assert_eq!(advance(3, 1, 0b001), 0b010);
    assert_eq!(advance(3, 1, 0b010), 0b100);
    assert_eq!(advance(3, 1, 0b100), 0b001);
}

#[test]
fn test_advance_2_0() {
    assert_eq!(advance(2, 0, 0b00), 0b00);
}

#[test]
fn test_advance_1_0() {
    assert_eq!(advance(1, 0, 0b00), 0b00);
}

#[test]
fn test_advance_0_0() {
    assert_eq!(advance(0, 0, 0b00), 0b00);
}

#[test]
fn test_advance_corner() {
    let u32max = u32::MAX;

    assert_eq!(advance(32, 31, 0xFFFF_FFF0 | 0b1101), 0xFFFF_FFF0 | 0b1110);
    assert_eq!(advance(32, 31, 0xFFFF_FFFE), 0x7FFF_FFFF);
    assert_eq!(advance(32, 32, u32max), u32max);
}

#[test]
fn test_perm_4_2_sequence() {
    let mut i = of(4).unwrap().permute(2);
    assert_eq!(Some(0b0011), i.next());
    assert_eq!(Some(0b0101), i.next());
    assert_eq!(Some(0b0110), i.next());
    assert_eq!(Some(0b1001), i.next());
    assert_eq!(Some(0b1010), i.next());
    assert_eq!(Some(0b1100), i.next());
    assert_eq!(None, i.next());
    assert_eq!(None, i.next());
}

#[test]
fn test_perm_counts() {
    // width 5, two set bits: C(5, 2) = 10 patterns, each of two set bits.
    let mut i = of(5).unwrap().permute(2);
    let mut seen = Vec::<u32>::new();
    while let Some(v) = i.next() {
        assert_eq!(v.count_ones(), 2);
        assert!(v < 1 << 5);
        if let Some(last) = seen.last() {
            assert!(v > *last);
        }
        seen.push(v);
    }
    assert_eq!(seen.len(), 10);
}

#[test]
fn test_invert_round_trip() {
    for w in 0..=16u32 {
        let s = of(w).unwrap();
        for v in 0..1u32 << w {
            assert_eq!(v, s.invert(s.invert(v)));
        }
    }
    let s = of(32).unwrap();
    assert_eq!(0xDEAD_BEEF, s.invert(s.invert(0xDEAD_BEEF)));
}
