use vstd::prelude::*;

verus! {

/// The six element types of the format. The on-disk tag of each is given by `tag_of`.
#[derive(Debug, Clone, Copy, PartialEq, Eq, Structural)]
pub enum DataType {
    I8,
    U8,
    I16,
    I32,
    F32,
    F64,
}

/// Byte width of one element.
pub open spec fn size_of_spec(t: DataType) -> nat {
    match t {
        DataType::I8 => 1,
        DataType::U8 => 1,
        DataType::I16 => 2,
        DataType::I32 => 4,
        DataType::F32 => 4,
        DataType::F64 => 8,
    }
}

/// On-disk tag of an element type.
pub open spec fn tag_of(t: DataType) -> u32 {
    match t {
        DataType::I8 => 1,
        DataType::U8 => 2,
        DataType::I16 => 3,
        DataType::I32 => 4,
        DataType::F32 => 5,
        DataType::F64 => 6,
    }
}

/// Element type of an on-disk tag, if the tag is one.
pub open spec fn type_of_tag(v: u32) -> Option<DataType> {
    if v == 1 {
        Some(DataType::I8)
    } else if v == 2 {
        Some(DataType::U8)
    } else if v == 3 {
        Some(DataType::I16)
    } else if v == 4 {
        Some(DataType::I32)
    } else if v == 5 {
        Some(DataType::F32)
    } else if v == 6 {
        Some(DataType::F64)
    } else {
        None
    }
}

impl DataType {
    /// Byte width of one element.
    pub fn size_of(&self) -> (r: usize)
        ensures
            r == size_of_spec(*self),
    {
        match self {
            DataType::I8 => 1,
            DataType::U8 => 1,
            DataType::I16 => 2,
            DataType::I32 => 4,
            DataType::F32 => 4,
            DataType::F64 => 8,
        }
    }

    /// Name of the type in the C interface of the format's reference library.
    pub fn c_api_name(&self) -> (r: &'static str)
        ensures
            r@ == c_api_name_spec(*self),
    {
        match self {
            DataType::I8 => "NC_BYTE",
            DataType::U8 => "NC_CHAR",
            DataType::I16 => "NC_SHORT",
            DataType::I32 => "NC_INT",
            DataType::F32 => "NC_FLOAT",
            DataType::F64 => "NC_DOUBLE",
        }
    }

    /// On-disk tag of the type.
    pub fn tag(&self) -> (r: u32)
        ensures
            r == tag_of(*self),
    {
        match self {
            DataType::I8 => 1,
            DataType::U8 => 2,
            DataType::I16 => 3,
            DataType::I32 => 4,
            DataType::F32 => 5,
            DataType::F64 => 6,
        }
    }

    /// Element type of an on-disk tag; an error for any other number.
    pub fn try_from(value: u32) -> (r: Result<DataType, &'static str>)
        ensures
            r is Ok <==> type_of_tag(value) is Some,
            r is Ok ==> type_of_tag(value) == Some(r->Ok_0),
    {
        match value {
            1 => Ok(DataType::I8),
            2 => Ok(DataType::U8),
            3 => Ok(DataType::I16),
            4 => Ok(DataType::I32),
            5 => Ok(DataType::F32),
            6 => Ok(DataType::F64),
            _ => Err("Invalid data type number."),
        }
    }

    /// Printable form of the type, `DataType::I8` and so on.
    pub fn to_string(&self) -> (r: String)
        ensures
            r@ == display_spec(*self),
    {
        match self {
            DataType::I8 => String::from_str("DataType::I8"),
            DataType::U8 => String::from_str("DataType::U8"),
            DataType::I16 => String::from_str("DataType::I16"),
            DataType::I32 => String::from_str("DataType::I32"),
            DataType::F32 => String::from_str("DataType::F32"),
            DataType::F64 => String::from_str("DataType::F64"),
        }
    }
}

/// The C interface name of each type.
pub open spec fn c_api_name_spec(t: DataType) -> Seq<char> {
    match t {
        DataType::I8 => "NC_BYTE"@,
        DataType::U8 => "NC_CHAR"@,
        DataType::I16 => "NC_SHORT"@,
        DataType::I32 => "NC_INT"@,
        DataType::F32 => "NC_FLOAT"@,
        DataType::F64 => "NC_DOUBLE"@,
    }
}

/// The printable form of each type.
pub open spec fn display_spec(t: DataType) -> Seq<char> {
    match t {
        DataType::I8 => "DataType::I8"@,
        DataType::U8 => "DataType::U8"@,
        DataType::I16 => "DataType::I16"@,
        DataType::I32 => "DataType::I32"@,
        DataType::F32 => "DataType::F32"@,
        DataType::F64 => "DataType::F64"@,
    }
}

} // verus!
