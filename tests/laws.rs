use bitboost_data::data::{Config, Data, FeatType, FIXED_ONE};
use bitboost_data::dataset::Dataset;

/// Three features (numerical, low- and high-cardinality categorical) and a
/// target, 40 rows.
fn mixed_data(config: &Config) -> Data {
    let mut cols = vec![Vec::new(), Vec::new(), Vec::new(), Vec::new()];
    for r in 0..40i64 {
        cols[0].push((r * 37 % 23) * FIXED_ONE / 3);
        cols[1].push((r % 3) * FIXED_ONE);
        cols[2].push((r * 7 % 20) * FIXED_ONE);
        cols[3].push(((r * 13 % 11) - 5) * FIXED_ONE / 4);
    }
    Data::from_columns(config, Vec::new(), cols).unwrap()
}

fn mixed_config() -> Config {
    let mut config = Config::new();
    config.categorical_features = vec![1, 2];
    config.max_nbins = 6;
    config.example_fraction = 800000;
    config.random_seed = 5;
    config
}

#[test]
fn ordered_bitsets_are_nested() {
    let config = mixed_config();
    let data = mixed_data(&config);
    let g = data.get_target().clone();
    let ds = Dataset::construct_from_data(&config, &data, &g);
    for &f in ds.feat_ids() {
        if ds.feat_type(f) == FeatType::LoCardCat {
            continue;
        }
        for a in 0..ds.get_nbins(f) {
            for b in a + 1..ds.get_nbins(f) {
                let va = ds.get_bitvec(f, a);
                let vb = ds.get_bitvec(f, b);
                for w in 0..va.len() {
                    assert_eq!(va[w] & !vb[w], 0);
                }
            }
        }
    }
}

#[test]
fn one_hot_bitsets_partition_rows() {
    let config = mixed_config();
    let data = mixed_data(&config);
    let g = data.get_target().clone();
    let ds = Dataset::construct_from_data(&config, &data, &g);
    assert_eq!(ds.feat_type(1), FeatType::LoCardCat);
    assert_eq!(ds.get_nbins(1), 3);
    for i in 0..ds.nexamples() {
        let hits: usize = (0..3).filter(|&k| ds.get_bit(1, k, i)).count();
        assert_eq!(hits, 1);
        let row = ds.examples()[i];
        assert!(ds.get_bit(1, row % 3, i));
    }
}

#[test]
fn rebuilding_with_the_same_seed_reproduces_the_round() {
    let config = mixed_config();
    let data = mixed_data(&config);
    let g = data.get_target().clone();
    let a = Dataset::construct_from_data(&config, &data, &g);
    let mut b = Dataset::construct_from_data(&config, &data, &g);
    b.construct_again(&config);
    assert_eq!(a.examples(), b.examples());
    assert_eq!(a.feat_ids(), b.feat_ids());
    for f in 0..3 {
        assert_eq!(a.get_nbins(f), b.get_nbins(f));
        for k in 0..a.get_nbins(f) {
            assert_eq!(a.get_bitvec(f, k), b.get_bitvec(f, k));
            assert_eq!(a.get_split_value(f, k), b.get_split_value(f, k));
        }
    }
}

#[test]
fn bin_counts_stay_within_their_bound() {
    let config = mixed_config();
    let data = mixed_data(&config);
    let g = data.get_target().clone();
    let ds = Dataset::construct_from_data(&config, &data, &g);
    assert_eq!(ds.get_max_nbins(0), 6);
    assert_eq!(ds.get_max_nbins(1), 3);
    assert_eq!(ds.get_max_nbins(2), 6);
    assert_eq!(ds.feat_type(2), FeatType::HiCardCat);
    for f in 0..3 {
        assert!(ds.get_nbins(f) <= ds.get_max_nbins(f));
    }
}

#[test]
fn numeric_split_values_strictly_increase() {
    let config = mixed_config();
    let data = mixed_data(&config);
    let g = data.get_target().clone();
    let ds = Dataset::construct_from_data(&config, &data, &g);
    let n = ds.get_nbins(0);
    assert!(n > 1);
    for k in 1..n {
        assert!(ds.get_split_value(0, k - 1) < ds.get_split_value(0, k));
    }
    // a row is in split k exactly when its value is at most split value k
    let col = data.get_feature(0);
    for k in 0..n {
        for i in 0..ds.nexamples() {
            let v = col[ds.examples()[i]];
            assert_eq!(ds.get_bit(0, k, i), v <= ds.get_split_value(0, k));
        }
    }
}

#[test]
fn super_categories_follow_mean_gradient() {
    let mut config = Config::new();
    config.categorical_features = vec![0];
    config.max_nbins = 8;
    let mut cols = vec![Vec::new(), Vec::new()];
    for r in 0..32i64 {
        cols[0].push((r / 2 + 1) * FIXED_ONE);
        cols[1].push(((r / 2) / 2 + 1) * FIXED_ONE);
    }
    let data = Data::from_columns(&config, Vec::new(), cols).unwrap();
    let g = data.get_target().clone();
    let ds = Dataset::construct_from_data(&config, &data, &g);
    assert_eq!(ds.get_super_category(0, FIXED_ONE), 0);
    assert_eq!(ds.get_super_category(0, 3 * FIXED_ONE), 1);
    assert_eq!(ds.get_super_category(0, 16 * FIXED_ONE), 7);
    assert_eq!(ds.get_split_value(0, 2), 2 * FIXED_ONE);
}

#[test]
fn fewer_rows_and_features_with_fractions() {
    let mut config = mixed_config();
    config.feature_fraction = 340000;
    let data = mixed_data(&config);
    let g = data.get_target().clone();
    let ds = Dataset::construct_from_data(&config, &data, &g);
    assert_eq!(ds.nexamples(), 32);
    assert_eq!(ds.nfeatures(), 1);
    assert!(ds.examples().windows(2).all(|w| w[0] <= w[1]));
    assert!(ds.examples().iter().all(|&r| r < 40));
    let f = ds.feat_ids()[0];
    for other in 0..3 {
        if other != f {
            assert_eq!(ds.get_nbins(other), 0);
        }
    }
    assert_eq!(ds.get_bitvec(f, 0).len(), 1);
}

#[test]
fn round_without_rows() {
    let mut config = mixed_config();
    config.example_fraction = 0;
    let data = mixed_data(&config);
    let g = data.get_target().clone();
    let ds = Dataset::construct_from_data(&config, &data, &g);
    assert_eq!(ds.nexamples(), 0);
    assert_eq!(ds.nfeatures(), 3);
    for f in 0..3 {
        assert!(ds.get_nbins(f) <= ds.get_max_nbins(f));
        for k in 0..ds.get_nbins(f) {
            assert!(ds.get_bitvec(f, k).is_empty());
        }
    }
}

#[test]
fn round_borrows_store_and_gradients() {
    let config = mixed_config();
    let data = mixed_data(&config);
    let g = data.get_target().clone();
    let ds = Dataset::construct_from_data(&config, &data, &g);
    assert_eq!(ds.get_gradient(), &g);
    assert_eq!(ds.get_target(), data.get_target());
    assert_eq!(ds.get_feature(1), data.get_feature(1));
    assert_eq!(ds.feat_name(0), "");
}

#[test]
fn rebuilding_keeps_nothing_from_the_earlier_round() {
    let config = mixed_config();
    let data = mixed_data(&config);
    let g = data.get_target().clone();
    let mut ds = Dataset::construct_from_data(&config, &data, &g);
    assert_eq!(ds.nfeatures(), 3);
    let mut fewer = mixed_config();
    fewer.feature_fraction = 340000;
    fewer.example_fraction = 500000;
    ds.construct_again(&fewer);
    let fresh = Dataset::construct_from_data(&fewer, &data, &g);
    assert_eq!(ds.nexamples(), 20);
    assert_eq!(ds.examples(), fresh.examples());
    assert_eq!(ds.feat_ids(), fresh.feat_ids());
    for f in 0..3 {
        assert_eq!(ds.get_nbins(f), fresh.get_nbins(f));
        for k in 0..ds.get_nbins(f) {
            assert_eq!(ds.get_bitvec(f, k), fresh.get_bitvec(f, k));
            assert_eq!(ds.get_split_value(f, k), fresh.get_split_value(f, k));
        }
    }
}
