use wavelet::fid::fid_size::FID256_8;
use wavelet::wv::wavelet_matrix::WaveletMatrix;

fn sample() -> Vec<usize> {
    vec![0, 7, 1, 1, 4, 3, 6, 7, 5, 5, 0, 4, 7, 6, 6, 3]
}

fn naive_count(vec: &[usize], s: usize, e: usize, x: usize) -> usize {
    vec[s..e].iter().filter(|&&v| v == x).count()
}

#[test]
fn rank_x_test() {
    let vec = sample();
    let wv = WaveletMatrix::<FID256_8>::new(&vec, 4);
    assert_eq!(wv.rank_x(0..vec.len(), 4), 2);
    assert_eq!(wv.rank_x(0..9, 5), 1);
    assert_eq!(wv.rank_x(3..9, 1), 1);
}

#[test]
fn at_test() {
    let vec = sample();
    let wv = WaveletMatrix::<FID256_8>::new(&vec, 4);
    for i in 0..vec.len() {
        assert_eq!(vec[i], wv.at(i));
    }
}

#[test]
fn len_is_number_of_values() {
    let vec = sample();
    let wv = WaveletMatrix::<FID256_8>::new(&vec, 4);
    assert_eq!(wv.len(), 16);
}

#[test]
fn rank_x_matches_naive_count_on_every_range() {
    let vec = sample();
    let wv = WaveletMatrix::<FID256_8>::new(&vec, 4);
    for x in 0..16 {
        for s in 0..=vec.len() {
            for e in s..=vec.len() {
                assert_eq!(wv.rank_x(s..e, x), naive_count(&vec, s, e, x));
            }
        }
    }
}

#[test]
fn rank_x_of_absent_value_is_zero() {
    let vec = sample();
    let wv = WaveletMatrix::<FID256_8>::new(&vec, 4);
    assert_eq!(wv.rank_x(0..16, 2), 0);
    assert_eq!(wv.rank_x(0..16, 15), 0);
    assert_eq!(wv.rank_x(5..5, 3), 0);
}

#[test]
fn dfs_pos_x_difference_counts_occurrences() {
    let vec = sample();
    let wv = WaveletMatrix::<FID256_8>::new(&vec, 4);
    assert_eq!(wv.dfs_pos_x(16, 7) - wv.dfs_pos_x(0, 7), 3);
    assert!(wv.dfs_pos_x(16, 7) <= 16);
    assert_eq!(wv.dfs_pos_x(0, 0), 0);
}

#[test]
fn long_sequence_round_trip_and_counts() {
    let mut vec = Vec::new();
    let mut state: usize = 12345;
    for _ in 0..700 {
        state = state.wrapping_mul(1103515245).wrapping_add(12345) % 2147483648;
        vec.push((state >> 8) % 1024);
    }
    let wv = WaveletMatrix::<FID256_8>::new(&vec, 10);
    for i in 0..vec.len() {
        assert_eq!(wv.at(i), vec[i]);
    }
    for &x in &[vec[0], vec[17], vec[699], 1023, 0] {
        assert_eq!(wv.rank_x(0..700, x), naive_count(&vec, 0, 700, x));
        assert_eq!(wv.rank_x(100..613, x), naive_count(&vec, 100, 613, x));
    }
}

#[test]
fn empty_sequence() {
    let vec: Vec<usize> = Vec::new();
    let wv = WaveletMatrix::<FID256_8>::new(&vec, 3);
    assert_eq!(wv.len(), 0);
    assert_eq!(wv.rank_x(0..0, 5), 0);
}

#[test]
fn depth_zero_holds_only_zeros() {
    let vec = vec![0, 0, 0];
    let wv = WaveletMatrix::<FID256_8>::new(&vec, 0);
    assert_eq!(wv.at(1), 0);
    assert_eq!(wv.rank_x(0..3, 0), 3);
    assert_eq!(wv.rank_x(1..3, 0), 2);
}

#[test]
fn full_width_values() {
    let vec = vec![usize::MAX, 0, usize::MAX - 1, usize::MAX];
    let wv = WaveletMatrix::<FID256_8>::new(&vec, usize::BITS as usize);
    for i in 0..vec.len() {
        assert_eq!(wv.at(i), vec[i]);
    }
    assert_eq!(wv.rank_x(0..4, usize::MAX), 2);
}

fn reversed_low_bits(v: usize, depth: usize) -> usize {
    let mut r = 0;
    for d in 0..depth {
        r = (r << 1) | ((v >> d) & 1);
    }
    r
}

fn naive_final_position(vec: &[usize], depth: usize, pos: usize, x: usize) -> usize {
    let key = reversed_low_bits(x, depth);
    let before = vec
        .iter()
        .filter(|&&v| reversed_low_bits(v, depth) < key)
        .count();
    before + naive_count(vec, 0, pos, x)
}

#[test]
fn dfs_pos_x_concrete_positions() {
    let vec = sample();
    let wv = WaveletMatrix::<FID256_8>::new(&vec, 4);
    assert_eq!(wv.dfs_pos_x(0, 4), 2);
    assert_eq!(wv.dfs_pos_x(16, 4), 4);
    assert_eq!(wv.dfs_pos_x(9, 5), 10);
}

#[test]
fn dfs_pos_x_counts_values_ordered_before() {
    let vec = sample();
    let wv = WaveletMatrix::<FID256_8>::new(&vec, 4);
    for x in 0..16 {
        for pos in 0..=vec.len() {
            assert_eq!(wv.dfs_pos_x(pos, x), naive_final_position(&vec, 4, pos, x));
        }
    }
}

#[test]
fn dfs_pos_x_is_monotone_in_pos() {
    let vec = sample();
    let wv = WaveletMatrix::<FID256_8>::new(&vec, 4);
    for x in 0..16 {
        for pos in 0..vec.len() {
            let a = wv.dfs_pos_x(pos, x);
            let b = wv.dfs_pos_x(pos + 1, x);
            assert!(a <= b && b - a <= 1);
        }
    }
}
