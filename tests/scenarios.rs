use netcdf3::{DataSet, DataType, DataVector, FileReader, FileWriter, InvalidDataSet, Version};
use netcdf3::{NC_FILL_F32, NC_FILL_F64, NC_FILL_I16, NC_FILL_I32, NC_FILL_I8, NC_FILL_U8};

fn scalar_data_set() -> DataSet {
    let mut ds = DataSet::new();
    ds.add_var_i8("scalar_value_i8", &[]).unwrap();
    ds.add_var_u8("scalar_value_u8", &[]).unwrap();
    ds.add_var_i16("scalar_value_i16", &[]).unwrap();
    ds.add_var_i32("scalar_value_i32", &[]).unwrap();
    ds.add_var_f32("scalar_value_f32", &[]).unwrap();
    ds.add_var_f64("scalar_value_f64", &[]).unwrap();
    ds
}

#[test]
fn empty_data_set_file() {
    let ds = DataSet::new();
    let mut w = FileWriter::new();
    w.set_def(&ds, Version::Classic, 4096).unwrap();
    let bytes = w.close();
    assert_eq!(4096, bytes.len());
    assert_eq!(&[b'C', b'D', b'F', 1], &bytes[0..4]);
    assert_eq!(&[0u8; 4], &bytes[4..8]);
    assert!(bytes[8..4096].iter().all(|b| *b == 0));
    let r = FileReader::from_bytes(bytes).unwrap();
    assert_eq!(0, r.data_set().num_dims());
    assert_eq!(0, r.data_set().num_vars());
    assert_eq!(Version::Classic, r.version());
}

#[test]
fn empty_data_set_minimal_header() {
    let ds = DataSet::new();
    let mut w = FileWriter::new();
    w.set_def(&ds, Version::Classic, 0).unwrap();
    assert_eq!(32, w.close().len());
}

#[test]
fn six_scalar_variables() {
    let ds = scalar_data_set();
    let mut w = FileWriter::new();
    w.set_def(&ds, Version::Classic, 0).unwrap();
    w.write_var_i8("scalar_value_i8", &[42]).unwrap();
    w.write_var_u8("scalar_value_u8", &[42]).unwrap();
    w.write_var_i16("scalar_value_i16", &[42]).unwrap();
    w.write_var_i32("scalar_value_i32", &[42]).unwrap();
    w.write_var_f32("scalar_value_f32", &[42.0f32.to_bits()]).unwrap();
    w.write_var_f64("scalar_value_f64", &[42.0f64.to_bits()]).unwrap();
    let r = FileReader::from_bytes(w.close()).unwrap();
    assert_eq!(vec![42i8], r.read_var_to_i8("scalar_value_i8").unwrap());
    assert_eq!(vec![42u8], r.read_var_to_u8("scalar_value_u8").unwrap());
    assert_eq!(vec![42i16], r.read_var_to_i16("scalar_value_i16").unwrap());
    assert_eq!(vec![42i32], r.read_var_to_i32("scalar_value_i32").unwrap());
    assert_eq!(vec![42.0f32], r.read_var_to_f32("scalar_value_f32").unwrap().into_iter().map(f32::from_bits).collect::<Vec<f32>>());
    assert_eq!(vec![42.0f64], r.read_var_to_f64("scalar_value_f64").unwrap().into_iter().map(f64::from_bits).collect::<Vec<f64>>());
}

#[test]
fn fill_on_close() {
    let ds = scalar_data_set();
    let mut w = FileWriter::new();
    w.set_def(&ds, Version::Offset64Bit, 0).unwrap();
    let r = FileReader::from_bytes(w.close()).unwrap();
    assert_eq!(vec![NC_FILL_I8], r.read_var_to_i8("scalar_value_i8").unwrap());
    assert_eq!(vec![NC_FILL_U8], r.read_var_to_u8("scalar_value_u8").unwrap());
    assert_eq!(vec![NC_FILL_I16], r.read_var_to_i16("scalar_value_i16").unwrap());
    assert_eq!(vec![NC_FILL_I32], r.read_var_to_i32("scalar_value_i32").unwrap());
    assert_eq!(vec![NC_FILL_F32], r.read_var_to_f32("scalar_value_f32").unwrap());
    assert_eq!(vec![NC_FILL_F64], r.read_var_to_f64("scalar_value_f64").unwrap());
    assert_eq!(9.9692099683868690e+36f32, f32::from_bits(NC_FILL_F32));
    assert_eq!(9.9692099683868690e+36f64, f64::from_bits(NC_FILL_F64));
}

fn temperature_data_set() -> DataSet {
    let mut ds = DataSet::new();
    ds.add_fixed_dim("latitude", 3).unwrap();
    ds.add_fixed_dim("longitude", 5).unwrap();
    ds.set_unlimited_dim("time", 2).unwrap();
    ds.add_var_f32("latitude", &["latitude"]).unwrap();
    ds.add_var_f32("longitude", &["longitude"]).unwrap();
    ds.add_var_f32("time", &["time"]).unwrap();
    ds.add_var_i8("temperature_i8", &["time", "latitude", "longitude"]).unwrap();
    ds.add_var_u8("temperature_u8", &["time", "latitude", "longitude"]).unwrap();
    ds.add_var_i16("temperature_i16", &["time", "latitude", "longitude"]).unwrap();
    ds.add_var_i32("temperature_i32", &["time", "latitude", "longitude"]).unwrap();
    ds.add_var_f32("temperature_f32", &["time", "latitude", "longitude"]).unwrap();
    ds.add_var_f64("temperature_f64", &["time", "latitude", "longitude"]).unwrap();
    ds
}

fn f32_bits(v: &[f32]) -> Vec<u32> {
    v.iter().map(|x| x.to_bits()).collect()
}

#[test]
fn record_interleaving() {
    let ds = temperature_data_set();
    assert_eq!(308, ds.num_bytes_per_record());
    assert_eq!(2, ds.num_records());
    let mut w = FileWriter::new();
    w.set_def(&ds, Version::Classic, 0).unwrap();
    w.write_var_f32("latitude", &f32_bits(&[0.0, 0.5, 1.0])).unwrap();
    w.write_var_f32("longitude", &f32_bits(&[0.0, 0.5, 1.0, 1.5, 2.0])).unwrap();
    w.write_var_f32("time", &f32_bits(&[438300.0, 438324.0])).unwrap();
    w.write_var_i8("temperature_i8", &(0..30).map(|x| x as i8).collect::<Vec<i8>>()).unwrap();
    w.write_var_u8("temperature_u8", &(0..30).map(|x| x as u8).collect::<Vec<u8>>()).unwrap();
    w.write_var_i16("temperature_i16", &(0..30).map(|x| x as i16).collect::<Vec<i16>>()).unwrap();
    w.write_var_i32("temperature_i32", &(0..30).collect::<Vec<i32>>()).unwrap();
    w.write_var_f32("temperature_f32", &(0..30).map(|x| (x as f32).to_bits()).collect::<Vec<u32>>()).unwrap();
    w.write_var_f64("temperature_f64", &(0..30).map(|x| (x as f64).to_bits()).collect::<Vec<u64>>()).unwrap();
    let bytes = w.close();
    let r = FileReader::from_bytes(bytes).unwrap();
    assert_eq!(308, r.data_set().num_bytes_per_record());
    assert_eq!(Some(2), r.data_set().get_dim_size("time"));
    assert_eq!((0..30).map(|x| x as i8).collect::<Vec<i8>>(), r.read_var_to_i8("temperature_i8").unwrap());
    assert_eq!((0..30).map(|x| x as u8).collect::<Vec<u8>>(), r.read_var_to_u8("temperature_u8").unwrap());
    assert_eq!((0..30).map(|x| x as i16).collect::<Vec<i16>>(), r.read_var_to_i16("temperature_i16").unwrap());
    assert_eq!((0..30).collect::<Vec<i32>>(), r.read_var_to_i32("temperature_i32").unwrap());
    assert_eq!((0..30).map(|x| (x as f32).to_bits()).collect::<Vec<u32>>(), r.read_var_to_f32("temperature_f32").unwrap());
    assert_eq!((0..30).map(|x| (x as f64).to_bits()).collect::<Vec<u64>>(), r.read_var_to_f64("temperature_f64").unwrap());
    assert_eq!(f32_bits(&[438300.0, 438324.0]), r.read_var_to_f32("time").unwrap());
    assert_eq!(f32_bits(&[0.0, 0.5, 1.0]), r.read_var_to_f32("latitude").unwrap());
    let (back, version) = r.close();
    assert_eq!(Version::Classic, version);
    assert_eq!(ds.get_var_names(), back.get_var_names());
    assert_eq!(ds.get_dims(), back.get_dims());
}

#[test]
fn record_interleaving_fill_one_variable() {
    let ds = temperature_data_set();
    let mut w = FileWriter::new();
    w.set_def(&ds, Version::Offset64Bit, 100).unwrap();
    w.write_var_i16("temperature_i16", &(0..30).map(|x| x as i16).collect::<Vec<i16>>()).unwrap();
    let r = FileReader::from_bytes(w.close()).unwrap();
    assert_eq!((0..30).map(|x| x as i16).collect::<Vec<i16>>(), r.read_var_to_i16("temperature_i16").unwrap());
    assert_eq!(vec![NC_FILL_I8; 30], r.read_var_to_i8("temperature_i8").unwrap());
    assert_eq!(vec![NC_FILL_F64; 30], r.read_var_to_f64("temperature_f64").unwrap());
}

#[test]
fn streaming_record_count() {
    let ds = temperature_data_set();
    let mut w = FileWriter::new();
    w.set_def(&ds, Version::Classic, 0).unwrap();
    let mut bytes = w.close();
    bytes[4..8].copy_from_slice(&[0xFF, 0xFF, 0xFF, 0xFF]);
    let r = FileReader::from_bytes(bytes.clone()).unwrap();
    assert_eq!(Some(2), r.data_set().get_dim_size("time"));
    bytes.push(0);
    assert_eq!(Err(netcdf3::ReadError::ComputeNumberOfRecords), FileReader::from_bytes(bytes).map(|_| ()));
}

#[test]
fn dimension_already_used() {
    let mut ds = DataSet::new();
    ds.add_fixed_dim("d", 10).unwrap();
    ds.add_var_i8("v", &["d"]).unwrap();
    assert_eq!(
        Err(InvalidDataSet::DimensionYetUsed { var_names: vec!["v".to_string()], dim_name: "d".to_string() }),
        ds.remove_dim("d").map(|_| ())
    );
    ds.remove_var("v").unwrap();
    assert_eq!("d", ds.remove_dim("d").unwrap().name());
    assert_eq!(0, ds.num_dims());
}

#[test]
fn unlimited_dimension_first_rule() {
    let mut ds = DataSet::new();
    ds.set_unlimited_dim("time", 2).unwrap();
    ds.add_fixed_dim("x", 3).unwrap();
    assert_eq!(
        Err(InvalidDataSet::UnlimitedDimensionMustBeDefinedFirst {
            var_name: "v".to_string(),
            unlim_dim_name: "time".to_string(),
            get_dim_names: vec!["x".to_string(), "time".to_string()],
        }),
        ds.add_var("v", &["x", "time"], DataType::I8)
    );
    assert_eq!(0, ds.num_vars());
}

#[test]
fn classic_version_not_possible() {
    let mut ds = DataSet::new();
    ds.add_fixed_dim("big", 0x4000_0000).unwrap();
    ds.add_var_i8("a", &["big"]).unwrap();
    ds.add_var_i8("b", &["big"]).unwrap();
    ds.add_var_i8("c", &["big"]).unwrap();
    let mut w = FileWriter::new();
    assert_eq!(Err(netcdf3::WriteError::ClassicVersionNotPossible), w.set_def(&ds, Version::Classic, 0));
    assert!(!w.header_is_defined());
}

#[test]
fn header_defined_once() {
    let ds = DataSet::new();
    let mut w = FileWriter::new();
    w.set_def(&ds, Version::Classic, 0).unwrap();
    assert_eq!(Err(netcdf3::WriteError::HeaderAlreadyDefined), w.set_def(&ds, Version::Classic, 0));
}

#[test]
fn write_errors() {
    let ds = scalar_data_set();
    let mut w = FileWriter::new();
    assert_eq!(Err(netcdf3::WriteError::HeaderNotDefined), w.write_var_i8("scalar_value_i8", &[1]));
    w.set_def(&ds, Version::Classic, 0).unwrap();
    assert_eq!(Err(netcdf3::WriteError::VariableNotDefined("nope".to_string())), w.write_var_i8("nope", &[1]));
    assert_eq!(
        Err(netcdf3::WriteError::VariableMismatchDataType { var_name: "scalar_value_i8".to_string(), req: DataType::I8, get: DataType::U8 }),
        w.write_var_u8("scalar_value_i8", &[1])
    );
    assert_eq!(
        Err(netcdf3::WriteError::VariableMismatchDataLength { var_name: "scalar_value_i8".to_string(), req: 1, get: 2 }),
        w.write_var_i8("scalar_value_i8", &[1, 2])
    );
}

#[test]
fn header_bytes_of_one_dimension() {
    let mut ds = DataSet::new();
    ds.add_fixed_dim("dim_1", 10).unwrap();
    let mut w = FileWriter::new();
    w.set_def(&ds, Version::Classic, 0).unwrap();
    let bytes = w.close();
    assert_eq!(
        vec![
            b'C', b'D', b'F', 1, 0, 0, 0, 0,
            0, 0, 0, 0x0A, 0, 0, 0, 1,
            0, 0, 0, 5, b'd', b'i', b'm', b'_', b'1', 0, 0, 0,
            0, 0, 0, 10,
            0, 0, 0, 0, 0, 0, 0, 0,
            0, 0, 0, 0, 0, 0, 0, 0,
        ],
        bytes
    );
}

#[test]
fn parse_errors() {
    assert!(matches!(FileReader::from_bytes(b"XDF\x01".to_vec()), Err(netcdf3::ReadError::ParseHeader(e)) if e.kind == netcdf3::ParseHeaderErrorKind::MagicWord));
    assert!(matches!(FileReader::from_bytes(b"CDF\x03".to_vec()), Err(netcdf3::ReadError::ParseHeader(e)) if e.kind == netcdf3::ParseHeaderErrorKind::VersionNumber));
    let mut ok = {
        let mut ds = DataSet::new();
        ds.add_fixed_dim("dim_1", 10).unwrap();
        let mut w = FileWriter::new();
        w.set_def(&ds, Version::Classic, 0).unwrap();
        w.close()
    };
    ok[25] = 1;
    assert!(matches!(FileReader::from_bytes(ok), Err(netcdf3::ReadError::ParseHeader(e)) if e.kind == netcdf3::ParseHeaderErrorKind::ZeroPadding));
}

#[test]
fn data_vector_accessors() {
    let v = DataVector::new(DataType::I16, 3);
    assert_eq!(DataType::I16, v.data_type());
    assert_eq!(3, v.len());
    assert_eq!(Some(&[0i16, 0, 0][..]), v.get_i16());
    assert_eq!(None, v.get_i8());
}

#[test]
fn data_set_structure_round_trip() {
    for version in [Version::Classic, Version::Offset64Bit] {
        let mut ds = temperature_data_set();
        ds.add_global_attr_u8("title", b"Example of NETCDF3 file".to_vec()).unwrap();
        ds.add_global_attr_u8("Conventions", b"CF-1.8".to_vec()).unwrap();
        ds.add_global_attr_i16("shorts", vec![1, -2, 3]).unwrap();
        ds.add_var_attr_u8("temperature_f32", "units", b"K".to_vec()).unwrap();
        ds.add_var_attr_f64("temperature_f32", "scale", vec![0.25f64.to_bits()]).unwrap();
        ds.add_var_attr_i8("latitude", "flags", vec![-1, 0, 1, 2, 3]).unwrap();
        let mut w = FileWriter::new();
        w.set_def(&ds, version, 0).unwrap();
        let bytes = w.close();
        let r = FileReader::from_bytes(bytes).unwrap();
        assert_eq!(version, r.version());
        let (back, _) = r.close();
        assert_eq!(ds, back);
    }
}
