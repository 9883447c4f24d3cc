use wavelet::fid::fid_builder::FIDBuilder;
use wavelet::fid::fid_size::FID256_8;
use wavelet::fid::fully_indexable_dictionary::FullyIndexableDictionary;

fn from_bits(bits: &[bool]) -> FullyIndexableDictionary<FID256_8> {
    let mut b = FIDBuilder::<FID256_8>::new(bits.len());
    for (i, &v) in bits.iter().enumerate() {
        if v {
            b.set(i);
        }
    }
    FullyIndexableDictionary::build(b)
}

fn pattern(n: usize) -> Vec<bool> {
    (0..n).map(|i| (i * 7 + i / 3) % 5 < 2).collect()
}

fn naive_rank(bits: &[bool], pos: usize, flag: usize) -> usize {
    bits[..pos].iter().filter(|&&b| (b as usize) == flag).count()
}

#[test]
fn scenario_sixteen_bits() {
    let mut b = FIDBuilder::<FID256_8>::new(16);
    for &p in &[1, 4, 6, 7, 9, 12, 14] {
        b.set(p);
    }
    let f = FullyIndexableDictionary::build(b);
    // ones at 1, 4, 6, 7 and 9 lie in [0, 10)
    assert_eq!(f.rank(10, 1), 5);
    assert_eq!(f.rank(10, 0), 5);
    assert_eq!(f.rank(9, 1), 4);
    assert_eq!(f.rank(16, 1), 7);
    assert_eq!(f.select(3, 1), Some(6));
    assert_eq!(f.select(7, 1), Some(14));
    assert_eq!(f.select(8, 1), None);
    assert_eq!(f.select(1, 0), Some(0));
    assert_eq!(f.select(9, 0), Some(15));
    assert_eq!(f.select(10, 0), None);
}

#[test]
fn access_reads_back_the_bits() {
    let bits = pattern(600);
    let f = from_bits(&bits);
    for i in 0..bits.len() {
        assert_eq!(f.access(i), bits[i] as usize);
    }
}

#[test]
fn rank_matches_naive_count() {
    for &n in &[0usize, 1, 7, 8, 9, 255, 256, 257, 300, 512, 777] {
        let bits = pattern(n);
        let f = from_bits(&bits);
        for pos in 0..=n {
            assert_eq!(f.rank(pos, 1), naive_rank(&bits, pos, 1));
            assert_eq!(f.rank(pos, 0), naive_rank(&bits, pos, 0));
        }
    }
}

#[test]
fn rank_steps_by_one_at_each_bit() {
    let bits = pattern(300);
    let f = from_bits(&bits);
    for pos in 0..300 {
        let b = f.access(pos);
        assert_eq!(f.rank(pos + 1, b) - f.rank(pos, b), 1);
    }
}

#[test]
fn rank_is_monotone() {
    let bits = pattern(520);
    let f = from_bits(&bits);
    for flag in 0..2 {
        for pos in 0..520 {
            assert!(f.rank(pos, flag) <= f.rank(pos + 1, flag));
        }
    }
}

#[test]
fn select_inverts_rank() {
    let bits = pattern(530);
    let f = from_bits(&bits);
    for flag in 0..2 {
        let total = f.rank(530, flag);
        for k in 1..=total {
            let p = f.select(k, flag).unwrap();
            assert_eq!(f.rank(p + 1, flag), k);
            assert_eq!(f.access(p), flag);
        }
        assert_eq!(f.select(total + 1, flag), None);
        assert_eq!(f.select(0, flag), Some(0));
    }
}

#[test]
fn empty_vector() {
    let f = from_bits(&[]);
    assert_eq!(f.rank(0, 1), 0);
    assert_eq!(f.rank(0, 0), 0);
    assert_eq!(f.select(0, 1), Some(0));
    assert_eq!(f.select(1, 1), None);
    assert_eq!(f.select(1, 0), None);
}

#[test]
fn whole_chunks_end_exactly() {
    let bits = vec![true; 512];
    let f = from_bits(&bits);
    assert_eq!(f.rank(512, 1), 512);
    assert_eq!(f.rank(512, 0), 0);
    assert_eq!(f.rank(256, 1), 256);
    assert_eq!(f.select(512, 1), Some(511));
    assert_eq!(f.select(257, 1), Some(256));
}

#[test]
fn unset_clears_a_bit() {
    let mut b = FIDBuilder::<FID256_8>::new(20);
    b.set(3);
    b.set(11);
    b.set(19);
    b.unset(11);
    b.unset(5);
    let f = FullyIndexableDictionary::build(b);
    assert_eq!(f.access(3), 1);
    assert_eq!(f.access(11), 0);
    assert_eq!(f.access(5), 0);
    assert_eq!(f.rank(20, 1), 2);
    assert_eq!(f.select(2, 1), Some(19));
}

#[test]
fn padding_beyond_length_is_not_counted() {
    let mut b = FIDBuilder::<FID256_8>::new(10);
    b.set(2);
    b.set(200);
    let f = FullyIndexableDictionary::build(b);
    assert_eq!(f.rank(10, 1), 1);
    assert_eq!(f.select(2, 1), None);
}
