use vstd::prelude::*;
use crate::data_type::DataType;

verus! {

/// A request that would break a rule of the dataset model.
#[derive(Debug, Clone, PartialEq, Eq)]
pub enum InvalidDataSet {
    DimensionAlreadyExists(String),
    DimensionNotDefined(String),
    DimensionsNotDefined { var_name: String, get_undef_dim_names: Vec<String> },
    DimensionsUsedMultipleTimes { var_name: String, get_dim_names: Vec<String> },
    UnlimitedDimensionAlreadyExists(String),
    DimensionYetUsed { var_names: Vec<String>, dim_name: String },
    DimensionsIdsNotValid(Vec<usize>),
    DimensionNameNotValid(String),
    VariableAttributeAlreadyExists { var_name: String, attr_name: String },
    VariableAttributeNotDefined { var_name: String, attr_name: String },
    VariableAttributeNameNotValid { var_name: String, attr_name: String },
    VariableNotDefined(String),
    VariableNameNotValid(String),
    VariableAlreadyExists(String),
    VariableMismatchDataType { var_name: String, req: DataType, get: DataType },
    VariableMismatchDataLength { var_name: String, req: usize, get: usize },
    UnlimitedDimensionMustBeDefinedFirst {
        var_name: String,
        unlim_dim_name: String,
        get_dim_names: Vec<String>,
    },
    GlobalAttributeAlreadyExists(String),
    GlobalAttributeNotDefined(String),
    GlobalAttributeNameNotValid(String),
}


/// Why writing a file failed.
#[derive(Debug, Clone, PartialEq, Eq)]
pub enum WriteError {
    HeaderAlreadyDefined,
    HeaderNotDefined,
    /// An offset does not fit in the 32-bit offsets of the classic version.
    ClassicVersionNotPossible,
    /// An offset or the file size does not fit in a signed 64-bit integer or in a `usize`.
    DataSetTooLarge,
    VariableNotDefined(String),
    VariableMismatchDataType { var_name: String, req: DataType, get: DataType },
    VariableMismatchDataLength { var_name: String, req: usize, get: usize },
}


/// The part of the header grammar that failed to parse.
#[derive(Debug, Clone, Copy, PartialEq, Eq, Structural)]
pub enum ParseHeaderErrorKind {
    MagicWord,
    VersionNumber,
    NonNegativeI32,
    Utf8,
    DataType,
    DataElements,
    ZeroPadding,
    DimTag,
    AttrTag,
    VarTag,
    Offset,
}

/// What a parse error holds: the offending bytes, or how many more bytes are needed.
#[derive(Debug, Clone, PartialEq, Eq)]
pub enum InvalidBytes {
    Bytes(Vec<u8>),
    Incomplete(usize),
}

/// A header that does not follow the grammar.
#[derive(Debug, Clone, PartialEq, Eq)]
pub struct ParseHeaderError {
    pub kind: ParseHeaderErrorKind,
    pub invalid_bytes: InvalidBytes,
}

/// Why reading a file failed.
#[derive(Debug, Clone, PartialEq, Eq)]
pub enum ReadError {
    ParseHeader(ParseHeaderError),
    /// The record section is not a whole number of records.
    ComputeNumberOfRecords,
    DataSet(InvalidDataSet),
    VariableNotDefined(String),
    VariableMismatchDataType { var_name: String, req: DataType, get: DataType },
    /// A variable's data lies beyond the end of the file.
    UnexpectedEndOfData,
}

} // verus!
