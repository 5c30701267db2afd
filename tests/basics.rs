use netcdf3::{compute_num_bytes_zero_padding, is_special_1, is_special_2, is_valid_name, DataType, Dimension, DimensionType, NC_MAX_NAME_SIZE};

#[test]
fn test_new_fixed_size_dimension() {
    let latitude_dim = Dimension::new_fixed_size("latitude", 360).unwrap();
    assert_eq!("latitude", latitude_dim.name());
    assert_eq!(360_usize, latitude_dim.size());
    assert_eq!(DimensionType::FixedSize, latitude_dim.dim_type());
    assert!(latitude_dim.is_fixed());
    assert!(!latitude_dim.is_unlimited());
}

#[test]
fn test_new_unlimited_size_dimension() {
    let time_dim = Dimension::new_unlimited_size("time", 1440).unwrap();
    assert_eq!("time", time_dim.name());
    assert_eq!(1440_usize, time_dim.size());
    assert_eq!(DimensionType::UnlimitedSize, time_dim.dim_type());
    assert!(!time_dim.is_fixed());
    assert!(time_dim.is_unlimited());
}

#[test]
fn test_dimension_equality() {
    {
        let dim_a: Dimension = Dimension::new_fixed_size("latitude", 180).unwrap();
        let dim_b: Dimension = Dimension::new_fixed_size("latitude", 180).unwrap();
        assert_eq!(dim_a, dim_b);
    }
    {
        let dim_a: Dimension = Dimension::new_fixed_size("latitude", 90).unwrap();
        let dim_b: Dimension = Dimension::new_fixed_size("latitude", 180).unwrap();
        assert_ne!(dim_a, dim_b);
    }
    {
        let dim_a: Dimension = Dimension::new_fixed_size("latitude", 180).unwrap();
        let dim_b: Dimension = Dimension::new_fixed_size("longitude", 180).unwrap();
        assert_ne!(dim_a, dim_b);
    }
    {
        let dim_a: Dimension = Dimension::new_unlimited_size("latitude", 180).unwrap();
        let dim_b: Dimension = Dimension::new_unlimited_size("latitude", 180).unwrap();
        assert_eq!(dim_a, dim_b);
    }
    {
        let dim_a: Dimension = Dimension::new_unlimited_size("latitude", 90).unwrap();
        let dim_b: Dimension = Dimension::new_unlimited_size("latitude", 180).unwrap();
        assert_ne!(dim_a, dim_b);
    }
    {
        let dim_a: Dimension = Dimension::new_unlimited_size("latitude", 180).unwrap();
        let dim_b: Dimension = Dimension::new_unlimited_size("longitude", 180).unwrap();
        assert_ne!(dim_a, dim_b);
    }
    {
        let dim_a: Dimension = Dimension::new_fixed_size("latitude", 180).unwrap();
        let dim_b: Dimension = Dimension::new_unlimited_size("latitude", 180).unwrap();
        assert_ne!(dim_a, dim_b);
    }
}

#[test]
fn test_rc_dimension_equality() {
    let dim_a: std::rc::Rc<Dimension> = std::rc::Rc::new(Dimension::new_fixed_size("latitude", 180).unwrap());
    let dim_b: std::rc::Rc<Dimension> = std::rc::Rc::new(Dimension::new_fixed_size("latitude", 180).unwrap());
    assert_eq!(dim_a, dim_b);
    assert!(!std::rc::Rc::ptr_eq(&dim_a, &dim_b));
    let dim_c: std::rc::Rc<Dimension> = std::rc::Rc::clone(&dim_a);
    assert_eq!(dim_a, dim_c);
    assert_eq!(dim_b, dim_c);
    assert!(std::rc::Rc::ptr_eq(&dim_a, &dim_c));
    assert!(!std::rc::Rc::ptr_eq(&dim_b, &dim_c));
}

#[test]
fn test_data_type_display() {
    assert_eq!("DataType::I8", DataType::I8.to_string());
    assert_eq!("DataType::U8", DataType::U8.to_string());
    assert_eq!("DataType::I16", DataType::I16.to_string());
    assert_eq!("DataType::I32", DataType::I32.to_string());
    assert_eq!("DataType::F32", DataType::F32.to_string());
    assert_eq!("DataType::F64", DataType::F64.to_string());
}

#[test]
fn test_data_type_size_of_element() {
    assert_eq!(1, DataType::I8.size_of());
    assert_eq!(1, DataType::U8.size_of());
    assert_eq!(2, DataType::I16.size_of());
    assert_eq!(4, DataType::I32.size_of());
    assert_eq!(4, DataType::F32.size_of());
    assert_eq!(8, DataType::F64.size_of());
}

#[test]
fn test_data_type_c_api_name() {
    assert_eq!("NC_BYTE", DataType::I8.c_api_name());
    assert_eq!("NC_CHAR", DataType::U8.c_api_name());
    assert_eq!("NC_SHORT", DataType::I16.c_api_name());
    assert_eq!("NC_INT", DataType::I32.c_api_name());
    assert_eq!("NC_FLOAT", DataType::F32.c_api_name());
    assert_eq!("NC_DOUBLE", DataType::F64.c_api_name());
}

#[test]
fn test_data_type_try_from_u32() -> Result<(), &'static str> {
    assert_eq!(DataType::I8, DataType::try_from(1_u32)?);
    assert_eq!(DataType::U8, DataType::try_from(2_u32)?);
    assert_eq!(DataType::I16, DataType::try_from(3_u32)?);
    assert_eq!(DataType::I32, DataType::try_from(4_u32)?);
    assert_eq!(DataType::F32, DataType::try_from(5_u32)?);
    assert_eq!(DataType::F64, DataType::try_from(6_u32)?);
    assert!(DataType::try_from(0_u32).is_err());
    assert!(DataType::try_from(7_u32).is_err());
    Ok(())
}

#[test]
fn test_compute_num_bytes_zero_padding() {
    assert_eq!(0, compute_num_bytes_zero_padding(0));
    assert_eq!(3, compute_num_bytes_zero_padding(1));
    assert_eq!(2, compute_num_bytes_zero_padding(2));
    assert_eq!(1, compute_num_bytes_zero_padding(3));
    assert_eq!(0, compute_num_bytes_zero_padding(4));
    assert_eq!(3, compute_num_bytes_zero_padding(5));
}

#[test]
fn test_some_valid_name_strings() {
    let valid_name_strings: &'static [&str] = &["f", "foo", "_foo", "àfoo", "éfoo", "èfoo", "ëfoo", "€foo"];
    for name in valid_name_strings {
        assert_eq!(true, is_valid_name(name), "The valid NetCDF-3 name_string '{}' has been checked as invalid.", name)
    }
}

#[test]
fn test_some_invalid_name_strings() {
    let invalid_name_strings: &'static [&str] = &[
        "", ".foo", "@foo", "+foo", "-foo", " foo", " foo", "!foo", r#""foo"#, "#foo", "$foo", "%foo", "&foo", r#"'foo"#, "(foo",
        ")foo", "*foo", ",foo", ":foo", ";foo", "<foo", "=foo", ">foo", "?foo", "[foo", r#"\foo"#, "]foo", "^foo", "`foo", "{foo",
        "|foo", "}foo", "~foo",
    ];
    for name in invalid_name_strings {
        assert_eq!(false, is_valid_name(name), "The invalid NetCDF-3 name_string '{}' has been checked as valid.", name)
    }
}

#[test]
fn test_is_special_1() {
    assert_eq!(true, is_special_1('_'));
    assert_eq!(true, is_special_1('.'));
    assert_eq!(true, is_special_1('@'));
    assert_eq!(true, is_special_1('+'));
    assert_eq!(true, is_special_1('-'));
    assert_eq!(false, is_special_1('A'));
    assert_eq!(false, is_special_1('Z'));
    assert_eq!(false, is_special_1('a'));
    assert_eq!(false, is_special_1('z'));
    assert_eq!(false, is_special_1('0'));
    assert_eq!(false, is_special_1('9'));
    assert_eq!(false, is_special_1('/'));
    assert_eq!(false, is_special_1('!'));
    assert_eq!(false, is_special_1(' '));
}

#[test]
fn test_is_special_2() {
    for c in [' ', '!', '"', '#', '$', '%', '&', '\'', '(', ')', '*', ',', ':', ';', '<', '=', '>', '?', '[', '\\', ']', '^', '`', '{', '|', '}', '~'] {
        assert_eq!(true, is_special_2(c));
    }
    for c in ['A', 'Z', 'a', 'z', '0', '9', '/', '_'] {
        assert_eq!(false, is_special_2(c));
    }
}

#[test]
fn test_max_name_size() {
    let valid_ascii_name: String = "a".chars().cycle().take(NC_MAX_NAME_SIZE).collect();
    assert_eq!(true, is_valid_name(&valid_ascii_name));
    let invalid_ascii_name: String = valid_ascii_name + "a";
    assert_eq!(false, is_valid_name(&invalid_ascii_name));
    let valid_utf8_name: String = "é".chars().cycle().take(NC_MAX_NAME_SIZE / 2).collect();
    assert_eq!(NC_MAX_NAME_SIZE, valid_utf8_name.len());
    assert_eq!(true, is_valid_name(&valid_utf8_name));
    let invalid_utf8_name: String = valid_utf8_name + "a";
    assert_eq!(false, is_valid_name(&invalid_utf8_name));
}
