use bits::bucket::Bucket;
use bits::repr::Repr;
use bits::{Bits, Rank, Select};
use rand::Rng;

fn drain(mut next: impl FnMut() -> Option<u16>) -> Vec<u16> {
    let mut out = Vec::new();
    while let Some(x) = next() {
        out.push(x);
    }
    out
}

fn random_positions<R: Rng>(n: usize, rng: &mut R) -> Vec<u16> {
    (0..n).map(|_| rng.gen()).collect()
}

#[test]
fn rank_split_and_total() {
    let b = Bucket::from_positions(&[0, 5, 64, 65535]);
    for &i in [0usize, 1, 5, 6, 64, 65, 1000, 65535, 65536].iter() {
        assert_eq!(b.rank1(i) + b.rank0(i), i);
    }
    assert_eq!(b.rank1(65536), b.ones());
    assert_eq!(b.rank1(65535), 3);
    assert_eq!(b.rank1(6), 2);
    assert_eq!(b.rank0(6), 4);
}

#[test]
fn select_then_rank_on_both_representations() {
    let mut rng = rand::thread_rng();
    for &n in [100usize, 10000].iter() {
        let v = random_positions(n, &mut rng);
        let a = Bucket::from_positions(&v);
        for c in 0..a.ones() {
            let p = a.select1(c).unwrap();
            assert!(a.contains(p as u16));
            assert_eq!(a.rank1(p), c);
        }
        assert_eq!(a.select1(a.ones()), None);
        assert_eq!(a.select1(usize::MAX), None);
    }
}

#[test]
fn select0_on_buckets() {
    let a = Bucket::from_positions(&[0, 1, 3]);
    assert_eq!(a.select0(0), Some(2));
    assert_eq!(a.select0(1), Some(4));
    assert_eq!(a.select0(65532), Some(65535));
    assert_eq!(a.select0(65533), None);
    let mut m = Bucket::with_capacity(5000);
    m.insert(0);
    m.insert(1);
    m.insert(3);
    assert!(m.is_map());
    assert_eq!(m.select0(0), Some(2));
    assert_eq!(m.select0(1), Some(4));
    assert_eq!(m.select0(65532), Some(65535));
    assert_eq!(m.select0(65533), None);
    let full = Bucket::from_flags(&vec![true; 70000]);
    assert_eq!(full.ones(), 65536);
    assert_eq!(full.select0(0), None);
    assert_eq!(full.select1(65535), Some(65535));
}

#[test]
fn optimize_is_idempotent() {
    let mut rng = rand::thread_rng();
    for &n in [10usize, 5000, 20000].iter() {
        let mut b = Bucket::with_capacity(n);
        for _ in 0..n {
            b.insert(rng.gen());
        }
        b.optimize();
        let kind = b.is_vec();
        let before = drain({
            let mut it = b.iter();
            move || it.next()
        });
        let ones = b.ones();
        b.optimize();
        assert_eq!(b.is_vec(), kind);
        assert_eq!(b.ones(), ones);
        let after = drain({
            let mut it = b.iter();
            move || it.next()
        });
        assert_eq!(before, after);
        assert_eq!(b.is_vec(), b.ones() <= Repr::VEC_SIZE);
    }
}

#[test]
fn representation_transparency() {
    let mut rng = rand::thread_rng();
    let v = random_positions(3000, &mut rng);
    let mut a = Bucket::with_capacity(0);
    let mut m = Bucket::with_capacity(Bucket::SIZE);
    for &x in v.iter() {
        a.insert(x);
        m.insert(x);
    }
    assert!(a.is_vec());
    assert!(m.is_map());
    assert_eq!(a.ones(), m.ones());
    for p in 0..Bucket::SIZE {
        assert_eq!(a.contains(p as u16), m.contains(p as u16));
    }
    for i in (0..=Bucket::SIZE).step_by(97) {
        assert_eq!(a.rank1(i), m.rank1(i));
        assert_eq!(a.rank0(i), m.rank0(i));
    }
    for c in 0..a.ones() + 2 {
        assert_eq!(a.select1(c), m.select1(c));
    }
    for c in (0..Bucket::SIZE).step_by(101) {
        assert_eq!(a.select0(c), m.select0(c));
    }
}

#[test]
fn insert_then_remove_restores() {
    let mut b = Bucket::from_positions(&[4, 8, 15, 16, 23, 42]);
    let ones = b.ones();
    assert!(b.insert(1000));
    assert_eq!(b.ones(), ones + 1);
    assert!(b.remove(1000));
    assert_eq!(b.ones(), ones);
    assert!(!b.contains(1000));
    assert!(!b.insert(42));
    assert!(!b.remove(999));
    assert_eq!(b.ones(), ones);
}

fn collect_bucket(b: &Bucket) -> Vec<u16> {
    let mut it = b.iter();
    drain(move || it.next())
}

#[test]
fn set_laws_over_random_pairs() {
    let mut rng = rand::thread_rng();
    let sizes = [(100usize, 200usize), (100, 20000), (20000, 100), (20000, 30000)];
    for &(na, nb) in sizes.iter() {
        let a = Bucket::from_positions(&random_positions(na, &mut rng));
        let b = Bucket::from_positions(&random_positions(nb, &mut rng));
        let and = a.bitand(&b);
        let or = a.bitor(&b);
        let xor = a.bitxor(&b);
        for &x in collect_bucket(&and).iter() {
            assert!(a.contains(x) && b.contains(x));
        }
        for &x in collect_bucket(&a).iter() {
            assert!(or.contains(x));
        }
        for &x in collect_bucket(&b).iter() {
            assert!(or.contains(x));
        }
        let mut d1 = a.difference(&b);
        let mut d2 = b.difference(&a);
        let mut diffs = drain(move || d1.next());
        diffs.extend(drain(move || d2.next()));
        diffs.sort();
        assert_eq!(collect_bucket(&xor), diffs);
        let mut s = a.symmetric_difference(&b);
        assert_eq!(drain(move || s.next()), diffs);
        let mut i = a.intersection(&b);
        assert_eq!(drain(move || i.next()), collect_bucket(&and));
        let mut u = a.union(&b);
        assert_eq!(drain(move || u.next()), collect_bucket(&or));
        assert_eq!(and.ones() + or.ones(), a.ones() + b.ones());
        assert_eq!(xor.ones(), or.ones() - and.ones());
    }
}

#[test]
fn in_place_operators() {
    let mut a = Bucket::from_positions(&[1, 2, 3, 100]);
    let b = Bucket::from_positions(&[2, 3, 4]);
    a.bitand_assign(&b);
    assert_eq!(collect_bucket(&a), vec![2, 3]);
    a.bitor_assign(&b);
    assert_eq!(collect_bucket(&a), vec![2, 3, 4]);
    assert_eq!(a.ones(), 3);
    a.bitxor_assign(&Bucket::from_positions(&[4, 5]));
    assert_eq!(collect_bucket(&a), vec![2, 3, 5]);
    assert_eq!(a.ones(), 3);
    let mut m = Bucket::with_capacity(10000);
    m.insert(70);
    m.insert(7000);
    m.bitxor_assign(&Bucket::from_positions(&[70, 71]));
    assert!(m.is_vec());
    assert_eq!(collect_bucket(&m), vec![71, 7000]);
    assert_eq!(m.ones(), 2);

    let big: Vec<u16> = (0..5000u16).map(|x| x * 13).collect();
    let mut wide = Bucket::from_positions(&big);
    assert!(wide.is_map());
    wide.bitor_assign(&Bucket::from_positions(&[1, 2]));
    assert!(wide.is_map());
    assert_eq!(wide.ones(), 5002);
    let small = Bucket::from_positions(&[13, 26, 27]);
    let both = small.bitand(&wide);
    assert!(both.is_vec());
    assert_eq!(collect_bucket(&both), vec![13, 26]);
}

#[test]
fn threshold_boundary() {
    let mut b = Bucket::with_capacity(Bucket::SIZE);
    for x in 0..4096u16 {
        b.insert(x * 3);
    }
    assert!(b.is_map());
    b.optimize();
    assert!(b.is_vec());
    assert_eq!(b.ones(), 4096);
    b.optimize();
    assert!(b.is_vec());
    assert!(b.insert(1));
    b.optimize();
    assert!(b.is_map());
    assert_eq!(b.ones(), 4097);
    assert!(b.contains(1));
    for x in 0..4096u16 {
        assert!(b.contains(x * 3));
    }
    assert!(!b.contains(2));
}

#[test]
fn flags_beyond_universe_are_ignored() {
    let mut flags = vec![false; 70000];
    flags[3] = true;
    flags[65535] = true;
    flags[65536] = true;
    flags[69999] = true;
    let b = Bucket::from_flags(&flags);
    assert_eq!(b.ones(), 2);
    assert_eq!(collect_bucket(&b), vec![3, 65535]);
}
