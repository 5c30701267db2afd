use netcdf3::io::header::{write_dims_list, write_name_string};
use netcdf3::Dimension;

#[test]
fn test_write_dims_list() {
    {
        let mut bytes: Vec<u8> = vec![];
        write_dims_list(&mut bytes, &vec![]);
        assert_eq!(8, bytes.len());
        assert_eq!(&[0u8; 8][..], &bytes[..]);
    }
    for (dim, size_field) in [
        (Dimension::new_fixed_size("dim_1", 10).unwrap(), 10_i32),
        (Dimension::new_unlimited_size("dim_1", 10).unwrap(), 0_i32),
    ] {
        let mut bytes: Vec<u8> = vec![];
        write_dims_list(&mut bytes, &vec![dim]);
        let mut expected: Vec<u8> = vec![0, 0, 0, 0x0A];
        expected.extend(1_i32.to_be_bytes());
        expected.extend(5_i32.to_be_bytes());
        expected.extend(b"dim_1");
        expected.extend([0, 0, 0]);
        expected.extend(size_field.to_be_bytes());
        assert_eq!(expected, bytes);
    }
}

#[test]
fn test_write_name_string() {
    for (name, count, total) in [("a", 1_i32, 8_usize), ("abcd", 4, 8), ("abcde", 5, 12), ("café", 5, 12)] {
        let mut bytes: Vec<u8> = vec![];
        write_name_string(&mut bytes, name);
        assert_eq!(total, bytes.len());
        assert_eq!(count.to_be_bytes(), bytes[0..4]);
        assert_eq!(name.as_bytes(), &bytes[4..4 + count as usize]);
        assert!(bytes[4 + count as usize..].iter().all(|b| *b == 0));
    }
    let mut bytes: Vec<u8> = vec![];
    write_name_string(&mut bytes, "café");
    assert_eq!(&[b'c', b'a', b'f', 0xc3, 0xa9, 0, 0, 0], &bytes[4..]);
}
