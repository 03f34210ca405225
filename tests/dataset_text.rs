use rust_genetic_algorithm::dataset::{parse_shares, parse_weights, split_words};
use rust_genetic_algorithm::model::GaError;

#[test]
fn words_are_split_on_whitespace() {
    let w = split_words(&b"  12 3\n\t45  ".to_vec());
    assert_eq!(w, vec![b"12".to_vec(), b"3".to_vec(), b"45".to_vec()]);
    assert!(split_words(&b"   ".to_vec()).is_empty());
}

#[test]
fn weights_are_read() {
    assert_eq!(parse_weights(&b"10 20\n30 4294967295".to_vec()), Ok(vec![10, 20, 30, u32::MAX]));
    assert_eq!(parse_weights(&b"".to_vec()), Ok(vec![]));
}

#[test]
fn bad_weights_are_refused() {
    assert_eq!(parse_weights(&b"10 x 30".to_vec()), Err(GaError::DatasetFormat));
    assert_eq!(parse_weights(&b"-5".to_vec()), Err(GaError::DatasetFormat));
    assert_eq!(parse_weights(&b"4294967296".to_vec()), Err(GaError::DatasetFormat));
    assert_eq!(parse_weights(&b"1.5".to_vec()), Err(GaError::DatasetFormat));
}

#[test]
fn shares_are_read_in_parts_per_million() {
    assert_eq!(parse_shares(&b"0.5 0.25 0.125 1".to_vec()), Ok(vec![500_000, 250_000, 125_000, 1_000_000]));
    assert_eq!(parse_shares(&b"0.1234567 2. 0.000001".to_vec()), Ok(vec![123_456, 2_000_000, 1]));
    assert_eq!(parse_shares(&b"4294.967295".to_vec()), Ok(vec![u32::MAX]));
}

#[test]
fn bad_shares_are_refused() {
    assert_eq!(parse_shares(&b".5".to_vec()), Err(GaError::DatasetFormat));
    assert_eq!(parse_shares(&b"0.5.1".to_vec()), Err(GaError::DatasetFormat));
    assert_eq!(parse_shares(&b"0,5".to_vec()), Err(GaError::DatasetFormat));
    assert_eq!(parse_shares(&b"4294.967296".to_vec()), Err(GaError::DatasetFormat));
    assert_eq!(parse_shares(&b"1e3".to_vec()), Err(GaError::DatasetFormat));
}
