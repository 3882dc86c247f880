use bits::bucket::Bucket;
use bits::iter::Iter;
use bits::pair::{intersection, symmetric_difference, union};
use bits::repr::Repr;
use bits::{Bits, Rank, Select};
use rand::Rng;

fn generate_bucket(size: usize) -> Bucket {
    let mut rng = rand::thread_rng();
    let mut b = Bucket::zero();
    for _ in 0..size {
        let x: u16 = rng.gen();
        b.insert(x);
    }
    b
}

fn members(mut it: Iter<'_>) -> Vec<u16> {
    let mut out = Vec::new();
    while let Some(x) = it.next() {
        out.push(x);
    }
    out
}

#[test]
fn bucket_properties() {
    let mut rng = rand::thread_rng();
    {
        let l0 = rng.gen_range(10..Repr::VEC_SIZE + 1);
        let b0 = generate_bucket(l0);
        assert_eq!(b0.ones(), b0.rank1(Bucket::SIZE));

        let c = rng.gen_range(0..b0.ones() - 1);
        let s = b0.select1(c).unwrap();
        let r = b0.rank1(s);
        assert_eq!(c, r);
    }
    {
        let l1 = rng.gen_range(Repr::VEC_SIZE + 1..u16::MAX as usize - 1);
        let b1 = generate_bucket(l1);
        assert_eq!(b1.ones(), b1.rank1(Bucket::SIZE));

        let c = rng.gen_range(0..b1.ones() - 1);
        let s = b1.select1(c).unwrap();
        let r = b1.rank1(s);
        assert_eq!(c, r);
    }
}

#[test]
fn bucket_from_iter() {
    {
        let vec = vec![1u16; 10000];
        let bucket = Bucket::from_positions(&vec);
        assert_eq!(bucket.ones(), 1);
        assert!(bucket.contains(1));
    }
    {
        let vec = vec![true; 10000];
        let bucket = Bucket::from_flags(&vec);
        assert_eq!(bucket.ones(), 10000);
        assert!(bucket.is_map());
    }
}

#[test]
fn bucket_insert_remove() {
    let mut b = Bucket::zero();
    let mut i = 0u16;
    while i < Repr::VEC_SIZE as u16 {
        assert!(b.insert(i), "insert({:?}) failed", i);
        assert!(b.contains(i));
        i += 1;
    }
    assert_eq!(b.ones(), Repr::VEC_SIZE);
    while i < u16::MAX {
        assert!(b.insert(i), "insert failed");
        assert!(b.contains(i), "insert ok, but not contains");
        i += 1;
    }
    assert!(b.insert(i), "insert({:?}) failed", i);
    assert!(b.contains(i));

    b.optimize();
    assert!(b.is_map());

    assert_eq!(i as usize, u16::MAX as usize);
    assert_eq!(b.ones(), Bucket::SIZE);

    while i > 0 {
        assert!(b.remove(i), "remove({:?}) failed", i);
        assert!(!b.contains(i));
        i -= 1;
    }
    assert!(b.remove(i), "remove({:?}) failed", i);
    assert_eq!(i, 0);
    assert_eq!(b.ones(), 0);

    b.optimize();
    assert!(b.is_vec());
}

fn random_bucket<R: Rng>(size: usize, rng: &mut R) -> Bucket {
    let mut b = Bucket::with_capacity(size);
    for _ in 0..size {
        b.insert(rng.gen());
    }
    b
}

fn rank_select_run<R: Rng>(size: usize, rng: &mut R) {
    let b = random_bucket(size, rng);
    assert_eq!(b.ones(), b.rank1(Bucket::SIZE), "{:?}", size);
    let c = if b.ones() == 0 {
        0
    } else {
        rng.gen_range(0..b.ones())
    };
    let s = b.select1(c).unwrap_or(0);
    let r = b.rank1(s);
    assert_eq!(c, r, "{:?}", size);
}

#[test]
fn repr_rank_select_properties() {
    let mut rng = rand::thread_rng();
    let mut lens = vec![
        rng.gen_range(10..Repr::VEC_SIZE),
        rng.gen_range(Repr::VEC_SIZE + 1..Bucket::SIZE - 1),
    ];
    lens.extend_from_slice(&[0, Repr::VEC_SIZE, Repr::VEC_SIZE * 2, Bucket::SIZE / 2, Bucket::SIZE]);
    lens.sort();
    for &size in lens.iter() {
        rank_select_run(size, &mut rng);
    }
}

fn random_repr<R: Rng>(size: usize, rng: &mut R) -> Repr {
    let mut repr = Repr::with_capacity(size);
    for _ in 0..size {
        repr.insert(rng.gen());
    }
    repr
}

#[derive(Clone, Copy)]
enum Kind {
    Vec,
    Bitmap,
}

fn sized<R: Rng>(kind: Kind, rng: &mut R) -> Repr {
    let size = match kind {
        Kind::Vec => rng.gen_range(0..Repr::VEC_SIZE),
        Kind::Bitmap => rng.gen_range(Repr::VEC_SIZE..Bucket::SIZE),
    };
    random_repr(size, rng)
}

#[test]
fn repr_bitops() {
    let mut rng = rand::thread_rng();
    let kinds = [(Kind::Vec, Kind::Vec), (Kind::Vec, Kind::Bitmap), (Kind::Bitmap, Kind::Vec), (Kind::Bitmap, Kind::Bitmap)];
    for &(l, r) in kinds.iter() {
        let lhs = sized(l, &mut rng);
        let rhs = sized(r, &mut rng);

        let mut bitand = lhs.duplicate();
        let n = bitand.intersect_with(&rhs);
        assert_eq!(n, bitand.ones());
        let got = members(bitand.iter());
        for &bit in got.iter() {
            assert!(lhs.contains(bit), "{:?}", bit);
            assert!(rhs.contains(bit), "{:?}", bit);
        }
        let want = members_of_intersection(&lhs, &rhs);
        assert_eq!(got, want);

        let mut bitor = lhs.duplicate();
        let n = bitor.union_with(&rhs);
        assert_eq!(n, bitor.ones());
        let got = members(bitor.iter());
        for &bit in got.iter() {
            assert!(lhs.contains(bit) || rhs.contains(bit), "{:?}", bit);
        }
        let mut pair = union(lhs.iter(), rhs.iter());
        let mut want = Vec::new();
        while let Some(x) = pair.next() {
            want.push(x);
        }
        assert_eq!(got, want);

        let mut bitxor = lhs.duplicate();
        let n = bitxor.symmetric_difference_with(&rhs);
        assert_eq!(n, bitxor.ones());
        let got = members(bitxor.iter());
        for &bit in got.iter() {
            assert!(!(lhs.contains(bit) && rhs.contains(bit)), "{:?}", bit);
        }
        let mut pair = symmetric_difference(lhs.iter(), rhs.iter());
        let mut want = Vec::new();
        while let Some(x) = pair.next() {
            want.push(x);
        }
        assert_eq!(got, want);
    }
}

fn members_of_intersection(lhs: &Repr, rhs: &Repr) -> Vec<u16> {
    let mut pair = intersection(lhs.iter(), rhs.iter());
    let mut out = Vec::new();
    while let Some(x) = pair.next() {
        out.push(x);
    }
    out
}

#[test]
fn repr_insert_remove() {
    let mut b = Bucket::zero();
    let mut i = 0u16;
    while i < Repr::VEC_SIZE as u16 {
        assert!(b.insert(i), "insert({:?}) failed", i);
        assert!(b.contains(i));
        i += 1;
    }
    assert_eq!(b.ones(), Repr::VEC_SIZE);
    while i < Bucket::SIZE as u16 {
        assert!(b.insert(i), "insert failed");
        assert!(b.contains(i), "insert ok, but not contains");
        i += 1;
    }
    assert!(b.insert(i), "insert({:?}) failed", i);
    assert!(b.contains(i));

    b.optimize();

    assert_eq!(i as usize, Repr::VEC_SIZE);
    assert_eq!(b.ones(), Repr::VEC_SIZE + 1);

    while i > 0 {
        assert!(b.remove(i), "remove({:?}) failed", i);
        assert!(!b.contains(i));
        i -= 1;
    }
    assert!(b.remove(i), "remove({:?}) failed", i);
    assert_eq!(i, 0);
    assert_eq!(b.ones(), 0);

    b.optimize();
    assert_eq!(0, b.ones());
}

#[test]
fn bitmap_grows_to_fit() {
    let mut r = Repr::with_capacity(Bucket::SIZE);
    assert!(r.insert(200));
    match &r {
        Repr::Bitmap(words) => {
            assert_eq!(words.len(), 4);
            assert_eq!(words[3], 1 << 8);
            assert_eq!(&words[..3], &[0, 0, 0]);
        }
        Repr::Vec(_) => panic!("expected a bitmap"),
    }
    assert!(r.insert(5));
    assert!(!r.insert(200));
    assert!(r.remove(200));
    assert!(!r.remove(200));
    match &r {
        Repr::Bitmap(words) => {
            assert_eq!(words.len(), 4);
            assert_eq!(words[0], 1 << 5);
            assert_eq!(words[3], 0);
        }
        Repr::Vec(_) => panic!("expected a bitmap"),
    }
    assert_eq!(r.ones(), 1);
}
