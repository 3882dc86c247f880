use bits::{Bits, Rank, Select};

struct Case(u64, (usize, Option<usize>));

const CASES: &[Case] = &[
    Case(0b_0000000000_0000000000, (0, None)),
    Case(0b_0000100101_1000111001, (1, Some(3))),
    Case(0b_0000100101_1000111001, (2, Some(4))),
    Case(0b_0000100101_1000111001, (3, Some(5))),
    Case(0b_0000100101_1000111001, (4, Some(9))),
    Case(0b_0000100101_1000111001, (5, Some(10))),
    Case(0b_0000100101_1000111001, (6, Some(12))),
    Case(0b_0000100101_1000111001, (7, Some(15))),
    Case(0b_0000100101_0000000000, (0, Some(10))),
    Case(0b_0000100101_0000000000, (1, Some(12))),
    Case(0b_0000100101_0000000000, (2, Some(15))),
    Case(0b_0000000000_0000000001, (0, Some(0))),
    Case(0b_0000100101_0000000000, (3, None)),
    Case(0b_0000000000_0000000001, (1, None)),
];

#[test]
fn broadword_properties() {
    for &Case(bits, (k, want)) in CASES {
        assert_eq!(bits.select1(k), want);

        let r9: usize = bits.rank1(64);
        assert_eq!(r9, bits.count_ones() as usize);

        let s9: Option<usize> = bits.select1(k);
        if let Some(s) = s9 {
            let r9: usize = bits.rank1(s);
            assert_eq!(r9, k);
        }
    }
}

#[test]
fn select1_counts_from_zero() {
    let w: u64 = 0b_0000100101_1000111001;
    let want = [0, 3, 4, 5, 9, 10, 12, 15];
    for (c, &p) in want.iter().enumerate() {
        assert_eq!(w.select1(c), Some(p));
    }
    assert_eq!(w.ones(), 8);
    assert_eq!(w.select1(8), None);
    assert_eq!(w.select1(64), None);
    assert_eq!(w.select1(usize::MAX), None);
}

#[test]
fn select1_on_full_and_high_words() {
    let full = u64::MAX;
    for c in 0..64 {
        assert_eq!(full.select1(c), Some(c));
    }
    assert_eq!(full.select1(64), None);
    let top: u64 = 1 << 63;
    assert_eq!(top.select1(0), Some(63));
    assert_eq!(top.select1(1), None);
    let w: u64 = 0xF000_0000_0000_0001;
    assert_eq!(w.select1(0), Some(0));
    assert_eq!(w.select1(1), Some(60));
    assert_eq!(w.select1(4), Some(63));
}

#[test]
fn select1_matches_naive_scan() {
    let words: [u64; 6] = [
        0x0123_4567_89AB_CDEF,
        0x8000_0000_0000_8001,
        0x00FF_0000_FF00_0000,
        0xAAAA_AAAA_AAAA_AAAA,
        0x5555_5555_5555_5555,
        0x0000_0001_0000_0000,
    ];
    for &w in words.iter() {
        let mut c = 0;
        for p in 0..64 {
            if w & (1u64 << p) != 0 {
                assert_eq!(w.select1(c), Some(p));
                assert_eq!(w.rank1(p), c);
                c += 1;
            }
        }
        assert_eq!(w.select1(c), None);
    }
}

#[test]
fn rank_of_words() {
    let w: u64 = 0b_1011;
    assert_eq!(w.rank1(0), 0);
    assert_eq!(w.rank1(1), 1);
    assert_eq!(w.rank1(2), 2);
    assert_eq!(w.rank1(3), 2);
    assert_eq!(w.rank1(4), 3);
    assert_eq!(w.rank1(64), 3);
    assert_eq!(w.rank1(1000), 3);
    assert_eq!(w.rank0(4), 1);
    assert_eq!(w.rank0(64), 61);
    for i in 0..=64 {
        assert_eq!(w.rank1(i) + w.rank0(i), i);
    }
    assert_eq!(u64::zero().ones(), 0);
    assert_eq!(u64::MAX.ones(), 64);
}

#[test]
fn select0_on_words() {
    let w: u64 = 0b_1011;
    assert_eq!(w.select0(0), Some(2));
    assert_eq!(w.select0(1), Some(4));
    assert_eq!(w.select0(60), Some(63));
    assert_eq!(w.select0(61), None);
    assert_eq!(u64::MAX.select0(0), None);
    assert_eq!(0u64.select0(63), Some(63));
}

#[test]
fn narrow_words() {
    let w32: u32 = 0b_0000100101_1000111001;
    assert_eq!(w32.select1(3), Some(5));
    assert_eq!(w32.select1(8), None);
    assert_eq!(w32.rank1(32), 8);
    assert_eq!(w32.rank1(100), 8);
    assert_eq!(w32.rank0(32), 24);
    assert_eq!(w32.select0(0), Some(1));
    assert_eq!(w32.select0(23), Some(31));
    assert_eq!(w32.select0(24), None);

    let w16: u16 = 0x8001;
    assert_eq!(w16.ones(), 2);
    assert_eq!(w16.select1(1), Some(15));
    assert_eq!(w16.select0(13), Some(14));
    assert_eq!(w16.select0(14), None);
    assert_eq!(u16::MAX.select0(0), None);

    let w8: u8 = 0b1000_0000;
    assert_eq!(w8.select1(0), Some(7));
    assert_eq!(w8.select0(6), Some(6));
    assert_eq!(w8.select0(7), None);
    assert_eq!(0u8.select0(7), Some(7));
    assert_eq!(u8::zero().ones(), 0);
    assert_eq!(<u8 as Bits>::SIZE, 8);
}
