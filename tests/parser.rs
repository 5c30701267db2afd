use netcdf3::io::parser::{parse_data_type, parse_name_string, parse_non_neg_i32, parse_zero_padding};
use netcdf3::{compute_num_bytes_zero_padding, DataType, InvalidBytes, ParseHeaderErrorKind};

fn name_bytes(word: &[u8]) -> Vec<u8> {
    let mut bytes: Vec<u8> = (word.len() as i32).to_be_bytes().to_vec();
    bytes.extend(word);
    for _ in 0..compute_num_bytes_zero_padding(word.len()) {
        bytes.push(0_u8);
    }
    bytes
}

fn check_parse_non_neg_i32() {
    for a in [0_i32, 1_i32, i32::MAX] {
        let bytes: [u8; 4] = a.to_be_bytes();
        let (b, next) = parse_non_neg_i32(&bytes[..], 0).unwrap();
        assert_eq!(4, next);
        assert_eq!(a as usize, b);
    }
    for a in [-1_i32, i32::MIN] {
        let bytes: [u8; 4] = a.to_be_bytes();
        let err = parse_non_neg_i32(&bytes[..], 0).unwrap_err();
        assert_eq!(ParseHeaderErrorKind::NonNegativeI32, err.kind);
        assert_eq!(InvalidBytes::Bytes(bytes.to_vec()), err.invalid_bytes);
    }
    {
        let mut bytes: Vec<u8> = 1_i32.to_be_bytes().to_vec();
        bytes.push(42);
        bytes.push(43);
        bytes.push(44);
        let (b, next) = parse_non_neg_i32(&bytes[..], 0).unwrap();
        assert_eq!(&[42, 43, 44], &bytes[next..]);
        assert_eq!(1, b);
    }
    {
        let bytes: Vec<u8> = Vec::from(&1_i32.to_be_bytes()[..2]);
        let err = parse_non_neg_i32(&bytes[..], 0).unwrap_err();
        assert_eq!(ParseHeaderErrorKind::NonNegativeI32, err.kind);
        assert_eq!(InvalidBytes::Incomplete(2), err.invalid_bytes);
    }
}

fn check_parse_name_string() {
    {
        let bytes = name_bytes(b"foo");
        let (name, next) = parse_name_string(&bytes[..], 0).unwrap();
        assert_eq!("foo", name);
        assert_eq!(0, bytes.len() - next);
    }
    {
        let mut bytes = name_bytes(b"foo");
        bytes.extend(&[1, 2, 3]);
        let (name, next) = parse_name_string(&bytes[..], 0).unwrap();
        assert_eq!("foo", name);
        assert_eq!(&[1, 2, 3], &bytes[next..]);
    }
    {
        let mut bytes = name_bytes(b"foooo");
        let n = bytes.len();
        bytes[n - 3] = 1;
        let err = parse_name_string(&bytes[..], 0).unwrap_err();
        assert_eq!(ParseHeaderErrorKind::ZeroPadding, err.kind);
        assert_eq!(InvalidBytes::Bytes(vec![1, 0, 0]), err.invalid_bytes);
    }
    {
        let bytes = name_bytes("café".as_bytes());
        let (name, next) = parse_name_string(&bytes[..], 0).unwrap();
        assert_eq!("café", name);
        assert_eq!(bytes.len(), next);
    }
    {
        let word: Vec<u8> = vec![b'c', b'a', b'f', b'\xe9'];
        let bytes = name_bytes(&word);
        let err = parse_name_string(&bytes[..], 0).unwrap_err();
        assert_eq!(ParseHeaderErrorKind::Utf8, err.kind);
        assert_eq!(InvalidBytes::Bytes(word), err.invalid_bytes);
    }
    {
        let mut bytes = name_bytes(b"foobar");
        bytes.pop();
        let err = parse_name_string(&bytes[..], 0).unwrap_err();
        assert_eq!(ParseHeaderErrorKind::ZeroPadding, err.kind);
        assert!(matches!(err.invalid_bytes, InvalidBytes::Incomplete(_)));
    }
}

fn check_parse_data_type() {
    for (tag, t) in [(1_u32, DataType::I8), (2, DataType::U8), (3, DataType::I16), (4, DataType::I32), (5, DataType::F32), (6, DataType::F64)] {
        let bytes: [u8; 4] = tag.to_be_bytes();
        let (data_type, next) = parse_data_type(&bytes[..], 0).unwrap();
        assert_eq!(t, data_type);
        assert_eq!(4, next);
    }
    for bytes in [0_u32.to_be_bytes(), (-1_i32).to_be_bytes(), 7_u32.to_be_bytes()] {
        let err = parse_data_type(&bytes[..], 0).unwrap_err();
        assert_eq!(ParseHeaderErrorKind::DataType, err.kind);
    }
    let mut bytes: Vec<u8> = 3_u32.to_be_bytes().to_vec();
    bytes.extend(&[42, 43, 44]);
    let (data_type, next) = parse_data_type(&bytes[..], 0).unwrap();
    assert_eq!(DataType::I16, data_type);
    assert_eq!(&[42, 43, 44], &bytes[next..]);
}

fn check_parse_zero_padding() {
    assert_eq!(Ok(0), parse_zero_padding(&[], 0, 0));
    assert_eq!(Ok(3), parse_zero_padding(&[0, 0, 0, 1], 0, 3));
    let err = parse_zero_padding(&[0, 1, 0], 0, 3).unwrap_err();
    assert_eq!(ParseHeaderErrorKind::ZeroPadding, err.kind);
    assert_eq!(InvalidBytes::Bytes(vec![0, 1, 0]), err.invalid_bytes);
    let err = parse_zero_padding(&[0], 0, 3).unwrap_err();
    assert_eq!(InvalidBytes::Incomplete(2), err.invalid_bytes);
}

#[test]
fn tests_test_parse_non_neg_i32() {
    check_parse_non_neg_i32();
}

#[test]
fn tests_file_reader_test_parse_non_neg_i32() {
    check_parse_non_neg_i32();
}

#[test]
fn tests_test_parse_name_string() {
    check_parse_name_string();
}

#[test]
fn tests_file_reader_test_parse_name_string() {
    check_parse_name_string();
}

#[test]
fn tests_test_parse_data_type() {
    check_parse_data_type();
}

#[test]
fn tests_file_reader_test_parse_data_type() {
    check_parse_data_type();
}

#[test]
fn tests_test_parse_zero_padding() {
    check_parse_zero_padding();
}

#[test]
fn tests_file_reader_test_parse_zero_padding() {
    check_parse_zero_padding();
}
