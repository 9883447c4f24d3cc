use wavelet::wv::fid::FullyIndexableDictionary;
use wavelet::wv::fid_builder::FIDBuilder;
use wavelet::wv::fid_size::FID256_8;

#[test]
fn ones_rank_and_select() {
    let mut b = FIDBuilder::<FID256_8>::new(300);
    for p in (0..300).filter(|p| p % 3 == 0) {
        b.set(p);
    }
    let f = FullyIndexableDictionary::build(b);
    assert_eq!(f.access(0), 1);
    assert_eq!(f.access(1), 0);
    assert_eq!(f.rank(0), 0);
    assert_eq!(f.rank(10), 4);
    assert_eq!(f.rank(300), 100);
    assert_eq!(f.select(0), Some(0));
    assert_eq!(f.select(1), Some(0));
    assert_eq!(f.select(4), Some(9));
    assert_eq!(f.select(100), Some(297));
    assert_eq!(f.select(101), None);
}

#[test]
fn ones_dictionary_over_sixteen_bits() {
    let mut b = FIDBuilder::<FID256_8>::new(16);
    for &p in &[1, 4, 6, 7, 9, 12, 14] {
        b.set(p);
    }
    let f = FullyIndexableDictionary::build(b);
    assert_eq!(f.rank(10), 5);
    assert_eq!(f.select(3), Some(6));
    assert_eq!(f.select(8), None);
}
