use netcdf3::{Attribute, DataSet, DataType, InvalidDataSet};

#[test]
fn test_new_i8_attr() {
    let attr = Attribute::new_i8_attr("attr1", vec![0, 1, 2, 3]).unwrap();

    assert_eq!(DataType::I8, attr.data_type());
    assert!(attr.get_i8().is_some());
    assert_eq!(&vec![0_i8, 1, 2, 3], attr.get_i8().unwrap());

    assert_eq!(None, attr.get_u8());
    assert_eq!(None, attr.get_i16());
    assert_eq!(None, attr.get_i32());
    assert_eq!(None, attr.get_f32());
    assert_eq!(None, attr.get_f64());
}

#[test]
fn global_attributes_keep_order_and_rename() {
    let mut ds = DataSet::new();
    ds.add_global_attr_u8("title", b"Example".to_vec()).unwrap();
    ds.add_global_attr_f64("scale", vec![2.5f64.to_bits()]).unwrap();
    ds.add_global_attr_i16("valid", vec![1, 2]).unwrap();
    assert_eq!(vec!["title".to_string(), "scale".to_string(), "valid".to_string()], ds.get_global_attr_names());
    assert_eq!(Err(InvalidDataSet::GlobalAttributeAlreadyExists("title".to_string())), ds.add_global_attr_i8("title", vec![]));
    assert_eq!(Err(InvalidDataSet::GlobalAttributeNameNotValid("!x".to_string())), ds.add_global_attr_i8("!x", vec![]));
    assert_eq!(Ok(()), ds.rename_global_attr("scale", "scale"));
    ds.rename_global_attr("scale", "factor").unwrap();
    assert_eq!(vec!["title".to_string(), "factor".to_string(), "valid".to_string()], ds.get_global_attr_names());
    assert_eq!(Some(&[2.5f64.to_bits()][..]), ds.get_global_attr_f64("factor"));
    assert_eq!(Err(InvalidDataSet::GlobalAttributeAlreadyExists("valid".to_string())), ds.rename_global_attr("factor", "valid"));
    assert_eq!(Err(InvalidDataSet::GlobalAttributeNotDefined("nope".to_string())), ds.rename_global_attr("nope", "other"));
    let removed = ds.remove_global_attr("title").unwrap();
    assert_eq!("title", removed.name());
    assert_eq!(2, ds.num_global_attrs());
}

#[test]
fn variable_attributes() {
    let mut ds = DataSet::new();
    ds.add_fixed_dim("x", 2).unwrap();
    ds.add_var_i32("v", &["x"]).unwrap();
    ds.add_var_attr_u8("v", "units", b"m".to_vec()).unwrap();
    ds.add_var_attr_f32("v", "scale", vec![0.5f32.to_bits()]).unwrap();
    assert_eq!(Some(2), ds.num_var_attrs("v"));
    assert_eq!(Some(true), ds.has_var_attr("v", "units"));
    assert_eq!(Some(DataType::F32), ds.get_var_attr_data_type("v", "scale"));
    assert_eq!(Some(1), ds.get_var_attr_len("v", "units"));
    assert_eq!(
        Err(InvalidDataSet::VariableAttributeAlreadyExists { var_name: "v".to_string(), attr_name: "units".to_string() }),
        ds.add_var_attr_i8("v", "units", vec![])
    );
    assert_eq!(
        Err(InvalidDataSet::VariableAttributeNameNotValid { var_name: "v".to_string(), attr_name: "#u".to_string() }),
        ds.add_var_attr_i8("v", "#u", vec![])
    );
    ds.rename_var_attr("v", "units", "unit").unwrap();
    assert_eq!(Some(&b"m"[..]), ds.get_var_attr_u8("v", "unit"));
    assert_eq!(None, ds.get_var_attr_u8("v", "units"));
    let a = ds.remove_var_attr("v", "scale").unwrap();
    assert_eq!(DataType::F32, a.data_type());
    assert_eq!(
        Err(InvalidDataSet::VariableAttributeNotDefined { var_name: "v".to_string(), attr_name: "scale".to_string() }),
        ds.remove_var_attr("v", "scale").map(|_| ())
    );
    assert_eq!(Err(InvalidDataSet::VariableNotDefined("w".to_string())), ds.add_var_attr_i8("w", "a", vec![]));
}

#[test]
fn remove_then_add_dimension_again() {
    let mut ds = DataSet::new();
    ds.add_fixed_dim("a", 1).unwrap();
    ds.add_fixed_dim("b", 2).unwrap();
    let removed = ds.remove_dim("a").unwrap();
    ds.add_fixed_dim(&removed.name(), removed.size()).unwrap();
    assert_eq!(vec!["b".to_string(), "a".to_string()], ds.get_dim_names());
    assert_eq!(Some(1), ds.get_dim_size("a"));
}

#[test]
fn rename_to_same_name_is_a_no_op() {
    let mut ds = DataSet::new();
    ds.add_fixed_dim("a", 1).unwrap();
    ds.add_var_i8("v", &["a"]).unwrap();
    assert_eq!(Ok(()), ds.rename_dim("a", "a"));
    assert_eq!(Ok(()), ds.rename_var("v", "v"));
    assert_eq!(vec!["a".to_string()], ds.get_dim_names());
    assert_eq!(vec!["v".to_string()], ds.get_var_names());
    ds.rename_dim("a", "b").unwrap();
    assert_eq!(vec!["b".to_string()], ds.get_var("v").unwrap().get_dim_names());
}

#[test]
fn chunk_sizes_are_padded() {
    let mut ds = DataSet::new();
    ds.set_unlimited_dim("t", 3).unwrap();
    ds.add_fixed_dim("x", 5).unwrap();
    ds.add_var_i16("s", &["t", "x"]).unwrap();
    ds.add_var_u8("c", &[]).unwrap();
    let s = ds.get_var("s").unwrap();
    assert!(s.is_record_var());
    assert_eq!(5, s.num_elements_per_chunk());
    assert_eq!(12, s.chunk_size());
    assert_eq!(3, s.num_chunks());
    assert_eq!(15, s.len());
    let c = ds.get_var("c").unwrap();
    assert!(!c.is_record_var());
    assert_eq!(1, c.num_elements_per_chunk());
    assert_eq!(4, c.chunk_size());
    assert_eq!(1, c.len());
    assert_eq!(12, ds.num_bytes_per_record());
}
