use bitboost_data::binner::Binner;
use bitboost_data::bitsets::{construct_bitvecs, transform_bitvecs_to_ord};
use bitboost_data::data::{fraction_of, into_cat, Config, Data, DataError, FeatType, FIXED_ONE};
use bitboost_data::quantile::{bucket_of, compute_rank_thresholds, compute_split_points};
use bitboost_data::sampling::{reservoir_from_draws, reservoir_sample, sample, select_examples};
use bitboost_data::store::BitBlockStore;

#[test]
fn alloc_rounds_up_to_whole_blocks() {
    let mut s = BitBlockStore::new();
    let a = s.alloc_zero_bits(1);
    let b = s.alloc_zero_bits(65);
    let c = s.alloc_zero_bits(0);
    assert_eq!((a.start, a.nblocks), (0, 1));
    assert_eq!((b.start, b.nblocks), (1, 2));
    assert_eq!((c.start, c.nblocks), (3, 0));
    assert_eq!(s.get_bitvec(b), vec![0u64, 0]);
}

#[test]
fn enable_bit_sets_only_that_bit() {
    let mut s = BitBlockStore::new();
    let a = s.alloc_zero_bits(100);
    let b = s.alloc_zero_bits(100);
    s.enable_bit(a, 3);
    s.enable_bit(a, 70);
    assert_eq!(s.get_bitvec(a), vec![0b1000u64, 1u64 << 6]);
    assert_eq!(s.get_bitvec(b), vec![0u64, 0]);
    assert!(s.get_bit(a, 70));
    assert!(!s.get_bit(a, 69));
}

#[test]
fn or_assign_unions_two_ranges() {
    let mut s = BitBlockStore::new();
    let a = s.alloc_zero_bits(64);
    let b = s.alloc_zero_bits(64);
    s.enable_bit(a, 0);
    s.enable_bit(b, 5);
    s.or_assign(b, a);
    assert_eq!(s.get_bitvec(b), vec![0b100001u64]);
    assert_eq!(s.get_bitvec(a), vec![1u64]);
}

#[test]
fn reset_rewinds_the_arena() {
    let mut s = BitBlockStore::new();
    s.alloc_zero_bits(300);
    s.reset();
    let a = s.alloc_zero_bits(10);
    assert_eq!(a.start, 0);
}

#[test]
fn one_hot_then_prefix_or() {
    let mut s = BitBlockStore::new();
    let cats = vec![2usize, 0, 1, 2, 5, 0];
    let rs = construct_bitvecs(&mut s, 6, 3, &cats);
    assert_eq!(s.get_bitvec(rs[0]), vec![0b100010u64]);
    assert_eq!(s.get_bitvec(rs[1]), vec![0b000100u64]);
    assert_eq!(s.get_bitvec(rs[2]), vec![0b001001u64]);
    transform_bitvecs_to_ord(&mut s, &rs);
    assert_eq!(s.get_bitvec(rs[0]), vec![0b100010u64]);
    assert_eq!(s.get_bitvec(rs[1]), vec![0b100110u64]);
    assert_eq!(s.get_bitvec(rs[2]), vec![0b101111u64]);
}

#[test]
fn sample_is_sorted_and_in_range() {
    let v = sample(5, 40, 7);
    assert_eq!(v.len(), 40);
    assert!(v.windows(2).all(|w| w[0] <= w[1]));
    assert!(v.iter().all(|&x| x < 5));
    // forty draws from five rows repeat some row
    assert!(v.windows(2).any(|w| w[0] == w[1]));
}

#[test]
fn reservoir_sample_is_distinct_and_sorted() {
    let v = reservoir_sample(100, 10, 3);
    assert_eq!(v.len(), 10);
    assert!(v.windows(2).all(|w| w[0] < w[1]));
    assert!(v.iter().all(|&x| x < 100));
    assert_eq!(reservoir_sample(4, 4, 3), vec![0, 1, 2, 3]);
    assert_eq!(reservoir_sample(4, 0, 3), Vec::<usize>::new());
}

#[test]
fn identity_bagging() {
    assert_eq!(select_examples(6, 6, 99), vec![0, 1, 2, 3, 4, 5]);
    assert_eq!(select_examples(0, 0, 99), Vec::<usize>::new());
    let v = select_examples(6, 3, 99);
    assert_eq!(v.len(), 3);
}

#[test]
fn sampling_is_reproducible() {
    assert_eq!(sample(50, 20, 11), sample(50, 20, 11));
    assert_eq!(reservoir_sample(50, 20, 11), reservoir_sample(50, 20, 11));
}

#[test]
fn binner_maps_values_to_bins() {
    let b = Binner::new(4, (0, 100));
    assert_eq!(b.bin_index(-5), 0);
    assert_eq!(b.bin_index(0), 0);
    assert_eq!(b.bin_index(24), 0);
    assert_eq!(b.bin_index(25), 1);
    assert_eq!(b.bin_index(99), 3);
    assert_eq!(b.bin_index(100), 3);
    assert_eq!(b.bin_index(1000), 3);
    assert_eq!(b.bin_representative(0), 0);
    assert_eq!(b.bin_representative(1), 25);
    assert_eq!(b.bin_representative(3), 75);
    let flat = Binner::new(4, (7, 7));
    assert_eq!(flat.bin_index(7), 0);
    assert_eq!(flat.bin_representative(3), 7);
}

#[test]
fn rank_iter_finds_first_bin_reaching_each_rank() {
    let mut b = Binner::new(4, (0, 100));
    b.insert(10, 3);
    b.insert(60, 2);
    b.insert(90, 5);
    assert_eq!(b.rank_iter(&vec![0, 1, 3, 4, 5, 6, 10, 11]), vec![0, 0, 0, 2, 2, 3, 3, 3]);
}

#[test]
fn rank_thresholds_round_to_nearest() {
    assert_eq!(compute_rank_thresholds(32, 8), vec![4, 7, 11, 14, 18, 21, 25, 28]);
    assert_eq!(compute_rank_thresholds(10, 1), vec![5]);
    assert_eq!(compute_rank_thresholds(7, 0), Vec::<u128>::new());
    assert_eq!(compute_rank_thresholds(u128::MAX, 1), vec![u128::MAX / 2 + 1]);
}

#[test]
fn split_points_drop_repeats() {
    let mut b = Binner::new(4, (0, 100));
    b.insert(10, 8);
    b.insert(90, 1);
    let s = compute_split_points(&b, &vec![1, 2, 3, 9]);
    assert_eq!(s, vec![0, 75]);
}

#[test]
fn bucket_counts_boundaries_below() {
    let s = vec![10i64, 20, 30];
    assert_eq!(bucket_of(&s, 5), 0);
    assert_eq!(bucket_of(&s, 10), 0);
    assert_eq!(bucket_of(&s, 11), 1);
    assert_eq!(bucket_of(&s, 30), 2);
    assert_eq!(bucket_of(&s, 31), 3);
    assert_eq!(bucket_of(&Vec::new(), 31), 0);
}

#[test]
fn fractions_round_to_nearest() {
    assert_eq!(fraction_of(8, 750000), 6);
    assert_eq!(fraction_of(3, 670000), 2);
    assert_eq!(fraction_of(3, 500000), 2);
    assert_eq!(fraction_of(3, 0), 0);
    assert_eq!(fraction_of(usize::MAX, 1000000), usize::MAX);
}

#[test]
fn categories_from_values() {
    assert_eq!(into_cat(0), 0);
    assert_eq!(into_cat(3 * FIXED_ONE), 3);
}

fn f(x: i64) -> i64 {
    x * FIXED_ONE
}

#[test]
fn store_from_columns() {
    let mut config = Config::new();
    config.categorical_features = vec![2];
    let names = vec!["a".to_string(), "bb".to_string(), "ccc".to_string(), "t".to_string()];
    let cols = vec![vec![f(1), f(4)], vec![f(2), f(5)], vec![f(0), f(1)], vec![f(0), f(1)]];
    let data = Data::from_columns(&config, names, cols).unwrap();
    assert_eq!(data.nfeatures(), 3);
    assert_eq!(data.nexamples(), 2);
    assert_eq!(data.target_id(), 3);
    assert_eq!(data.feat_name(1), "bb");
    assert_eq!(data.feat_limits(0), (f(1), f(4)));
    assert_eq!(data.feat_limits(2), (f(0), f(1)));
    assert_eq!(data.feat_card(0), 0);
    assert_eq!(data.feat_card(2), 2);
    assert_eq!(data.feat_type(0), FeatType::Numerical);
    assert_eq!(data.feat_type(2), FeatType::LoCardCat);
    assert_eq!(data.get_feature(1), &vec![f(2), f(5)]);
    assert_eq!(data.get_target(), &vec![f(0), f(1)]);
}

#[test]
fn store_without_names_and_high_cardinality() {
    let mut config = Config::new();
    config.categorical_features = vec![0];
    config.max_nbins = 2;
    let cols = vec![vec![f(0), f(2), f(1)], vec![f(1), f(1), f(1)]];
    let data = Data::from_columns(&config, Vec::new(), cols).unwrap();
    assert_eq!(data.feat_name(0), "");
    assert_eq!(data.feat_card(0), 3);
    assert_eq!(data.feat_type(0), FeatType::HiCardCat);
}

#[test]
fn store_errors() {
    let mut config = Config::new();
    config.categorical_features = vec![1];
    assert_eq!(Data::from_columns(&config, Vec::new(), Vec::new()).err(), Some(DataError::NoColumns));
    assert_eq!(
        Data::from_columns(&config, vec!["x".to_string()], vec![vec![1], vec![2]]).err(),
        Some(DataError::NameCount)
    );
    assert_eq!(
        Data::from_columns(&config, Vec::new(), vec![vec![1, 2], vec![2, 3], vec![1]]).err(),
        Some(DataError::RaggedColumn(2))
    );
    let fractional = vec![vec![0, 0, 0], vec![f(1), f(1) + 1, -f(1)]];
    assert_eq!(
        Data::from_columns(&config, Vec::new(), fractional).err(),
        Some(DataError::InvalidCategorical(1, f(1) + 1))
    );
    let negative = vec![vec![0, 0], vec![f(1), -f(1)]];
    assert_eq!(
        Data::from_columns(&config, Vec::new(), negative).err(),
        Some(DataError::InvalidCategorical(1, -f(1)))
    );
    let two_bad = vec![vec![0], vec![-f(2)], vec![f(1) + 3]];
    let mut two_cats = Config::new();
    two_cats.categorical_features = vec![2, 1];
    assert_eq!(
        Data::from_columns(&two_cats, Vec::new(), two_bad).err(),
        Some(DataError::InvalidCategorical(0, -f(2)))
    );
    let huge = vec![vec![0], vec![f(u32::MAX as i64)]];
    assert_eq!(
        Data::from_columns(&config, Vec::new(), huge).err(),
        Some(DataError::InvalidCategorical(0, f(u32::MAX as i64)))
    );
}

#[test]
fn reservoir_follows_the_draws() {
    assert_eq!(reservoir_from_draws(4, 2, &vec![0, 5]), vec![1, 2]);
    assert_eq!(reservoir_from_draws(5, 2, &vec![1, 0, 2]), vec![2, 3]);
    assert_eq!(reservoir_from_draws(3, 3, &Vec::new()), vec![0, 1, 2]);
}
