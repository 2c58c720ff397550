use cfpyo3_core::align_nbytes;
use cfpyo3_core::DataFrame;
use cfpyo3_core::DecodeError;

fn pad32(name: &str) -> Vec<u8> {
    let mut out = vec![0u8; 32];
    out[..name.len()].copy_from_slice(name.as_bytes());
    out
}

fn get_test_df() -> DataFrame {
    let index = vec![0i64, 1];
    let columns = vec![pad32("a"), pad32("b"), pad32("c")];
    let values: Vec<u32> = [1.0f32, 2.0, 3.0, 4.0, 5.0, 6.0]
        .iter()
        .map(|x| x.to_bits())
        .collect();
    DataFrame::new(index, columns, values)
}

#[test]
fn test_buffer_io() {
    let df = get_test_df();
    let bytes = df.to_bytes();
    let loaded = DataFrame::from_buffer(&bytes).unwrap();
    assert_eq!(df.index, loaded.index);
    assert_eq!(df.columns, loaded.columns);
    assert_eq!(df.values, loaded.values);
}

#[test]
fn buffer_test_buffer_io() {
    let df = get_test_df();
    let bytes = df.to_bytes();
    let loaded = DataFrame::from_buffer(&bytes).unwrap();
    assert_eq!(df.index, loaded.index);
    assert_eq!(df.columns, loaded.columns);
    assert_eq!(df.values, loaded.values);
}

#[test]
fn test_byte_layout() {
    let df = get_test_df();
    let bytes = df.to_bytes();
    // little-endian section lengths: 2 * 8 index bytes, 3 * 32 column bytes
    assert_eq!(
        &bytes[..16],
        &[16, 0, 0, 0, 0, 0, 0, 0, 96, 0, 0, 0, 0, 0, 0, 0],
    );
    assert_eq!(bytes.len(), 16 + 16 + 96 + 24);
    // values are little-endian bit patterns of the cells
    let first = u32::from_le_bytes([bytes[128], bytes[129], bytes[130], bytes[131]]);
    assert_eq!(f32::from_bits(first), 1.0);
}

#[test]
fn test_negative_timestamps_round_trip() {
    let index = vec![-5i64, i64::MIN, i64::MAX];
    let columns = vec![pad32("x")];
    let values: Vec<u32> = vec![0, u32::MAX, 7];
    let df = DataFrame::new(index.clone(), columns, values.clone());
    let bytes = df.to_bytes();
    let loaded = DataFrame::from_buffer(&bytes).unwrap();
    assert_eq!(loaded.index, index);
    assert_eq!(loaded.values, values);
}

#[test]
fn test_truncated_buffer_is_rejected() {
    let df = get_test_df();
    let mut bytes = df.to_bytes();
    bytes.pop();
    assert!(matches!(
        DataFrame::from_buffer(&bytes),
        Err(DecodeError::Truncated)
    ));
    assert!(matches!(
        DataFrame::from_buffer(&vec![1u8, 2, 3]),
        Err(DecodeError::Truncated)
    ));
}

#[test]
fn test_decoder_tolerates_a_tail() {
    let df = get_test_df();
    let mut bytes = df.to_bytes();
    bytes.extend_from_slice(&[0xAA; 13]);
    let loaded = DataFrame::from_buffer(&bytes).unwrap();
    assert_eq!(df.values, loaded.values);
}

#[test]
fn test_align_nbytes() {
    assert_eq!(align_nbytes(0), 0);
    assert_eq!(align_nbytes(8), 8);
    assert_eq!(align_nbytes(9), 16);
    assert_eq!(align_nbytes(15), 16);
    assert_eq!(align_nbytes(16), 16);
}
