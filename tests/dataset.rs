use bitboost_data::data::{Config, Data, FeatType, FIXED_ONE};
use bitboost_data::dataset::Dataset;

fn fixed(x: f64) -> i64 {
    (x * FIXED_ONE as f64).round() as i64
}

/// Columns from rows of numbers.
fn columns_of(rows: &[Vec<f64>]) -> Vec<Vec<i64>> {
    let ncols = rows[0].len();
    let mut cols = vec![Vec::new(); ncols];
    for row in rows {
        for (j, &x) in row.iter().enumerate() {
            cols[j].push(fixed(x));
        }
    }
    cols
}

fn rows_of(text: &str) -> Vec<Vec<f64>> {
    text.split('\n')
        .filter(|l| !l.is_empty())
        .map(|l| l.split(',').map(|x| x.parse::<f64>().unwrap()).collect())
        .collect()
}

fn data_of(config: &Config, text: &str) -> Data {
    Data::from_columns(config, Vec::new(), columns_of(&rows_of(text))).unwrap()
}

fn first_block(ds: &Dataset, f: usize, k: usize) -> u64 {
    ds.get_bitvec(f, k)[0]
}

#[test]
fn basic_dataset() {
    let mut config = Config::new();
    config.csv_has_header = false;
    config.random_seed = 2;
    config.feature_fraction = 670000;
    config.example_fraction = 750000;
    config.categorical_features = vec![1];

    let d = "1,0,3,0\n4,1,6,0\n7,1,9,0\n10,1,12,0\n13,0,15,0\n16,2,18,0\n19,2,21,0\n22,0,24,0";
    let data = data_of(&config, d);

    assert_eq!(data.nexamples(), 8);
    assert_eq!(data.feat_card(1), 3);

    let target = data.get_target().clone();
    let dataset = Dataset::construct_from_data(&config, &data, &target);

    assert_eq!(dataset.nfeatures(), 2);
    assert_eq!(dataset.nexamples(), 6);
    assert_eq!(dataset.feat_ids(), &vec![1, 2]);
    assert_eq!(dataset.examples(), &vec![0, 2, 2, 5, 7, 7]);

    let values = vec![0b110001u64, 0b000110, 0b001000];
    for i in 0..3 {
        assert_eq!(values[i], first_block(&dataset, 1, i));
    }
}

#[test]
fn dataset_hicard_cat() {
    let mut config = Config::new();
    config.csv_has_header = false;
    config.categorical_features = vec![0];
    config.max_nbins = 8;
    let d = "1,1\n1,1\n2,1\n2,1\n3,2\n3,2\n4,2\n4,2\n5,3\n5,3\n6,3\n6,3\n7,4\n7,4\n8,4\n8,4\n\
             9,5\n9,5\n10,5\n10,5\n11,6\n11,6\n12,6\n12,6\n13,7\n13,7\n14,7\n14,7\n15,8\n15,8\
             \n16,8\n16,8";
    let data = data_of(&config, d);
    let target = data.get_target().clone();
    let dataset = Dataset::construct_from_data(&config, &data, &target);

    let values = vec![0b00000000000000000000000000001111u64,
                      0b00000000000000000000000011111111,
                      0b00000000000000000000111111111111,
                      0b00000000000000001111111111111111,
                      0b00000000000011111111111111111111,
                      0b00000000111111111111111111111111,
                      0b00001111111111111111111111111111];
    assert_eq!(dataset.get_nbins(0), values.len());
    for i in 0..dataset.get_nbins(0) {
        assert_eq!(values[i], first_block(&dataset, 0, i));
    }
}

#[test]
fn dataset_nbins() {
    let mut config = Config::new();
    config.csv_has_header = false;
    config.categorical_features = vec![0];
    config.max_nbins = 8;
    let d = "8,1\n7,1\n1,0\n7,1\n3,0\n8,1\n6,1\n2,0\n5,1\n4,1\n2,0\n7,1\n3,0\n8,1\n6,1\n3,0\n\
             7,1\n5,1\n5,1\n4,1\n2,0\n1,0\n6,1\n2,0\n6,1\n1,0\n4,1\n3,0\n4,1\n8,1\n1,0\n5,1";
    let data = data_of(&config, d);
    let target = data.get_target().clone();
    let dataset = Dataset::construct_from_data(&config, &data, &target);

    assert_eq!(8, dataset.get_max_nbins(0));
    assert_eq!(2, dataset.get_nbins(0));
}

fn dataset_num_aux(data_str: &str, values: &[u64]) {
    let mut config = Config::new();
    config.csv_has_header = false;
    config.max_nbins = 8;
    let data = data_of(&config, data_str);
    let target = data.get_target().clone();
    let dataset = Dataset::construct_from_data(&config, &data, &target);

    for i in 0..dataset.get_nbins(0) {
        assert_eq!(values[i], first_block(&dataset, 0, i));
    }
}

#[test]
fn dataset_num1() {
    let values = vec![0b00000000000000000000000000000011u64,
                      0b00000000000000000000000001111111,
                      0b00000000000000000000001111111111,
                      0b00000000000000000011111111111111,
                      0b00000000000000011111111111111111,
                      0b00000000000111111111111111111111,
                      0b00000000111111111111111111111111,
                      0b00000111111111111111111111111111];
    let d = "0,1\n6,1\n11,1\n11,1\n13,1\n21,1\n24,1\n31,1\n36,1\n38,1\n42,1\n48,1\n60,1\n60,1\
             \n61,1\n61,1\n64,1\n68,1\n75,1\n80,1\n81,1\n84,1\n85,1\n86,1\n89,1\n90,1\n91,1\n\
             92,1\n92,1\n93,1\n96,1\n98,1";
    dataset_num_aux(d, &values);
}

#[test]
fn dataset_num2() {
    let values = vec![0b00000000000000000000001111111111u64,
                      0b00000000000000000011111111111111,
                      0b00000000000000111111111111111111,
                      0b00000000000111111111111111111111,
                      0b00000000011111111111111111111111,
                      0b00000011111111111111111111111111,
                      0b00000111111111111111111111111111,
                      0b00111111111111111111111111111111];
    let d = "0,1\n6,2\n11,3\n11,4\n13,5\n21,7\n24,8\n31,9\n36,10\n38,11\n42,12\n48,13\n60,14\
             \n60,15\n61,16\n61,18\n64,19\n68,20\n75,21\n80,22\n81,23\n84,24\n85,25\n86,26\n\
             89,27\n90,28\n91,30\n92,31\n92,32\n93,33\n96,34\n98,35";
    dataset_num_aux(d, &values);
}

#[test]
fn dataset_all() {
    let mut config = Config::new();
    config.categorical_features = vec![0, 1];
    config.csv_has_header = false;
    config.max_nbins = 8;
    let d = "6,16,1,0.01\n4,19,2,0.02\n5,6,3,0.02\n0,4,4,0.03\n6,5,5,0.03\n4,4,6,0.04\n1,15,7,0.08\n2,16,8,0.09\n6,8,9,0.09\n4,14,10,0.09\n2,2,11,0.1\n5,11,12,0.13\n4,1,13,0.14\n0,9,14,0.18\n0,18,15,0.22\n3,12,16,0.22\n1,18,17,0.24\n0,8,18,0.27\n6,17,19,0.28\n3,14,20,0.28\n0,12,21,0.3\n6,16,22,0.32\n5,1,23,0.35\n0,13,24,0.36\n6,17,25,0.37\n3,10,26,0.37\n2,3,27,0.38\n6,9,28,0.4\n1,18,29,0.44\n5,7,30,0.45\n2,4,31,0.45\n6,5,32,0.49\n0,14,33,0.49\n2,19,34,0.49\n1,20,35,0.5\n4,3,36,0.53\n3,9,37,0.54\n6,20,38,0.6\n2,12,39,0.61\n6,11,40,0.62\n2,6,41,0.63\n0,8,42,0.65\n3,19,43,0.68\n4,13,44,0.7\n4,15,45,0.71\n5,2,46,0.74\n5,10,47,0.74\n6,3,48,0.75\n6,7,49,0.76\n6,15,50,0.76\n3,11,51,0.77\n5,2,52,0.8\n6,1,53,0.82\n2,7,54,0.84\n1,4,55,0.86\n6,13,56,0.88\n3,5,57,0.89\n3,20,58,0.92\n5,6,59,0.92\n1,1,60,0.94\n4,2,61,0.96\n6,17,62,0.99\n1,3,63,0.99\n1,10,64,0.99";
    let data = data_of(&config, d);
    let target = data.get_target().clone();
    let dataset = Dataset::construct_from_data(&config, &data, &target);

    assert_eq!(dataset.get_max_nbins(0), 7);
    assert_eq!(dataset.get_max_nbins(1), 8);
    assert_eq!(dataset.get_max_nbins(2), 8);
    assert_eq!(dataset.get_nbins(0), 7);
    assert_eq!(dataset.get_nbins(1), 8);
    assert_eq!(dataset.get_nbins(2), 8);

    let values = vec![0b0000000000000000000000100000000100000000100100100110000000001000u64,
                      0b1100100001000000000000000000010000010000000000010000000001000000,
                      0b0000000000100000000000010100001001000100000000000000010010000000,
                      0b0000001100000100000001000001000000000010000010001000000000000000,
                      0b0001000000000000000110000000100000000000000000000001001000100010,
                      0b0000010000001000011000000000000000100000010000000000100000000100,
                      0b0010000010010011100000001010000010001001001001000000000100010001,
                      0b0,

                      0b0000000000000000000000000000000100000000001010000000001010000001,
                      0b0000000000000000000000100000000100010000001010110100001110000001,
                      0b0000000001000000000000100001000101011000001010110110001110101001,
                      0b0000000001000000000001100101001101011000001110111110001110101011,
                      0b0000000101000110000101101101001111011000001110111110101111111011,
                      0b0010010101000110000101111101001111011001001111111110101111111111,
                      0b0010110111010110000111111101001111011001111111111111101111111111,
                      0b0111110111011110101111111101101111011101111111111111111111111111,

                      0b0000000000000000000000000000000000000000001111111111111111111111,
                      0b0000000000000000000000000000000001111111111111111111111111111111,
                      0b0000000000000000000000000011111111111111111111111111111111111111,
                      0b0000000000000000000001111111111111111111111111111111111111111111,
                      0b0000000000000000111111111111111111111111111111111111111111111111,
                      0b0000000000001111111111111111111111111111111111111111111111111111,
                      0b0000000011111111111111111111111111111111111111111111111111111111,
                      0b0000111111111111111111111111111111111111111111111111111111111111];

    for k in 0..3 {
        for i in 0..dataset.get_nbins(k) {
            assert_eq!(values[k * 8 + i], first_block(&dataset, k, i));
        }
    }
}
