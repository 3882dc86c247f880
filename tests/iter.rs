use bits::iter::{Iter, Ptr};
use bits::pair::{difference, intersection, symmetric_difference, union};

fn new_itermap(bits: &[u64]) -> Iter<'_> {
    let popc = bits.iter().fold(0, |acc, &x| acc + x.count_ones() as usize);
    Iter::map(bits, popc)
}

#[test]
fn test_ptr_partialeq() {
    let vec_0 = vec![0u64];
    let vec_1 = vec![0u64];

    let p0 = Ptr::at(&vec_0[..], 0, 0, None);
    let p1 = Ptr::at(&vec_0[..], 0, 0, None);
    assert_ne!(p0, p1, "invalid ptr should not be equal");

    let p1 = Ptr::at(&vec_1[..], 0, 0, None);
    assert_ne!(p0, p1, "slice raw pointer");

    let p0 = Ptr::at(&vec_1[..], 0, 0, Some(0));
    let p1 = Ptr::at(&vec_1[..], 0, 0, Some(0));
    assert_eq!(p0, p1, "slice raw pointer");
}

#[test]
fn test_iter() {
    let vec_0 = vec![1 | 1 << 63; 3];
    {
        let mut iter = new_itermap(&vec_0[..]);
        assert_eq!(Some(0), iter.next());
        assert_eq!(Some(63), iter.next());
        assert_eq!(Some(64), iter.next());
        assert_eq!(Some(127), iter.next());
        assert_eq!(Some(128), iter.next());
        assert_eq!(Some(191), iter.next());
        assert_eq!(None, iter.next());
        assert_eq!(None, iter.next_back());
    }
    {
        let mut iter = new_itermap(&vec_0[..]);
        assert_eq!(Some(191), iter.next_back());
        assert_eq!(Some(128), iter.next_back());
        assert_eq!(Some(127), iter.next_back());
        assert_eq!(Some(64), iter.next_back());
        assert_eq!(Some(63), iter.next_back());
        assert_eq!(Some(0), iter.next_back());
        assert_eq!(None, iter.next());
        assert_eq!(None, iter.next_back());
    }
    {
        let mut iter = new_itermap(&vec_0[..]);
        assert_eq!(Some(0), iter.next());
        assert_eq!(Some(191), iter.next_back());
        assert_eq!(Some(63), iter.next());
        assert_eq!(Some(128), iter.next_back());
        assert_eq!(Some(64), iter.next());
        assert_eq!(Some(127), iter.next_back());
        assert_eq!(None, iter.next());
        assert_eq!(None, iter.next_back());
    }
    {
        let mut iter = new_itermap(&vec_0[..]);
        assert_eq!(Some(191), iter.next_back());
        assert_eq!(Some(0), iter.next());
        assert_eq!(Some(128), iter.next_back());
        assert_eq!(Some(63), iter.next());
        assert_eq!(Some(127), iter.next_back());
        assert_eq!(Some(64), iter.next());
        assert_eq!(None, iter.next_back());
        assert_eq!(None, iter.next());
    }
}

#[test]
fn repr_iter_next() {
    let bits: &[u64] = &[1 | 1 << 63, 1 | 1 << 63, 1 | 1 << 63];
    let dirs = &[Some(0), Some(63), Some(64), Some(127), Some(128), Some(191), None, None];
    let ones = bits.iter().fold(0, |acc, &x| acc + x.count_ones() as usize);
    let mut iter = Iter::map(bits, ones);
    for (i, &want) in dirs.iter().enumerate() {
        let got = iter.next();
        assert_eq!(got, want, "{:?}", i);
    }
}

#[test]
fn backward_cursor_keeps_bit_zero() {
    let bits: &[u64] = &[0b11, 0b101];
    let mut iter = Iter::map(bits, 4);
    assert_eq!(iter.next_back(), Some(66));
    assert_eq!(iter.next_back(), Some(64));
    assert_eq!(iter.next_back(), Some(1));
    assert_eq!(iter.next_back(), Some(0));
    assert_eq!(iter.next_back(), None);
    assert_eq!(iter.next(), None);
}

#[test]
fn empty_sequences() {
    let none: &[u64] = &[];
    let mut iter = Iter::map(none, 0);
    assert_eq!(iter.next(), None);
    assert_eq!(iter.next_back(), None);
    let zeros: &[u64] = &[0, 0, 0];
    let mut iter = Iter::map(zeros, 0);
    assert_eq!(iter.next_back(), None);
    assert_eq!(iter.next(), None);
    let empty: &[u16] = &[];
    let mut iter = Iter::vec(empty);
    assert_eq!(iter.next(), None);
    assert_eq!(iter.next_back(), None);
}

#[test]
fn array_sequence_from_both_ends() {
    let data: &[u16] = &[2, 5, 9, 11];
    let mut iter = Iter::vec(data);
    assert_eq!(iter.next(), Some(2));
    assert_eq!(iter.next_back(), Some(11));
    assert_eq!(iter.next(), Some(5));
    assert_eq!(iter.next_back(), Some(9));
    assert_eq!(iter.next(), None);
    assert_eq!(iter.next_back(), None);
}

fn drain_intersection(x: &[u16], y: &[u16]) -> Vec<u16> {
    let mut m = intersection(Iter::vec(x), Iter::vec(y));
    let mut out = Vec::new();
    while let Some(v) = m.next() {
        out.push(v);
    }
    out
}

#[test]
fn merge_rules() {
    let x: &[u16] = &[1, 3, 5, 7];
    let y: &[u16] = &[3, 4, 5, 8, 9];
    assert_eq!(drain_intersection(x, y), vec![3, 5]);

    let mut m = union(Iter::vec(x), Iter::vec(y));
    let mut out = Vec::new();
    while let Some(v) = m.next() {
        out.push(v);
    }
    assert_eq!(out, vec![1, 3, 4, 5, 7, 8, 9]);

    let mut m = difference(Iter::vec(x), Iter::vec(y));
    let mut out = Vec::new();
    while let Some(v) = m.next() {
        out.push(v);
    }
    assert_eq!(out, vec![1, 7]);

    let mut m = difference(Iter::vec(y), Iter::vec(x));
    let mut out = Vec::new();
    while let Some(v) = m.next() {
        out.push(v);
    }
    assert_eq!(out, vec![4, 8, 9]);

    let mut m = symmetric_difference(Iter::vec(x), Iter::vec(y));
    let mut out = Vec::new();
    while let Some(v) = m.next() {
        out.push(v);
    }
    assert_eq!(out, vec![1, 4, 7, 8, 9]);

    let empty: &[u16] = &[];
    assert_eq!(drain_intersection(x, empty), Vec::<u16>::new());
    let mut m = union(Iter::vec(empty), Iter::vec(y));
    assert_eq!(m.next(), Some(3));
}

#[test]
fn merge_across_representations() {
    let words: &[u64] = &[0b1010, 1 << 5];
    let arr: &[u16] = &[1, 3, 64, 69, 100];
    let mut m = intersection(Iter::map(words, 3), Iter::vec(arr));
    assert_eq!(m.next(), Some(1));
    assert_eq!(m.next(), Some(3));
    assert_eq!(m.next(), Some(69));
    assert_eq!(m.next(), None);
    assert_eq!(m.next(), None);
}

#[test]
fn remaining_length() {
    let words: &[u64] = &[1 | 1 << 63, 1 << 5];
    let mut iter = Iter::map(words, 3);
    assert_eq!(iter.len(), 3);
    assert_eq!(iter.next(), Some(0));
    assert_eq!(iter.len(), 2);
    assert_eq!(iter.next_back(), Some(69));
    assert_eq!(iter.len(), 1);
    assert_eq!(iter.next(), Some(63));
    assert_eq!(iter.len(), 0);
    assert_eq!(iter.next(), None);
    assert_eq!(iter.len(), 0);

    let data: &[u16] = &[3, 7, 9];
    let mut iter = Iter::vec(data);
    assert_eq!(iter.len(), 3);
    iter.next_back();
    assert_eq!(iter.len(), 2);
}
