use vstd::prelude::*;
use crate::data_type::DataType;

verus! {

/// Values of one element type. Floating-point values are held as their IEEE-754 bit
/// patterns (`u32` for `F32`, `u64` for `F64`).
#[derive(Debug, Clone, PartialEq)]
pub enum DataVector {
    I8(Vec<i8>),
    U8(Vec<u8>),
    I16(Vec<i16>),
    I32(Vec<i32>),
    F32(Vec<u32>),
    F64(Vec<u64>),
}

/// Mathematical content of a `DataVector`.
pub ghost enum Values {
    I8(Seq<i8>),
    U8(Seq<u8>),
    I16(Seq<i16>),
    I32(Seq<i32>),
    F32(Seq<u32>),
    F64(Seq<u64>),
}

impl Values {
    pub open spec fn data_type(self) -> DataType {
        match self {
            Values::I8(_) => DataType::I8,
            Values::U8(_) => DataType::U8,
            Values::I16(_) => DataType::I16,
            Values::I32(_) => DataType::I32,
            Values::F32(_) => DataType::F32,
            Values::F64(_) => DataType::F64,
        }
    }

    pub open spec fn len(self) -> nat {
        match self {
            Values::I8(s) => s.len(),
            Values::U8(s) => s.len(),
            Values::I16(s) => s.len(),
            Values::I32(s) => s.len(),
            Values::F32(s) => s.len(),
            Values::F64(s) => s.len(),
        }
    }

    /// `n` zeros of type `t`.
    pub open spec fn zeros(t: DataType, n: nat) -> Values {
        match t {
            DataType::I8 => Values::I8(Seq::new(n, |i: int| 0i8)),
            DataType::U8 => Values::U8(Seq::new(n, |i: int| 0u8)),
            DataType::I16 => Values::I16(Seq::new(n, |i: int| 0i16)),
            DataType::I32 => Values::I32(Seq::new(n, |i: int| 0i32)),
            DataType::F32 => Values::F32(Seq::new(n, |i: int| 0u32)),
            DataType::F64 => Values::F64(Seq::new(n, |i: int| 0u64)),
        }
    }
}

impl View for DataVector {
    type V = Values;

    open spec fn view(&self) -> Values {
        match self {
            DataVector::I8(v) => Values::I8(v@),
            DataVector::U8(v) => Values::U8(v@),
            DataVector::I16(v) => Values::I16(v@),
            DataVector::I32(v) => Values::I32(v@),
            DataVector::F32(v) => Values::F32(v@),
            DataVector::F64(v) => Values::F64(v@),
        }
    }
}

impl DataVector {
    /// A vector of `length` zeros of the given type.
    pub fn new(data_type: DataType, length: usize) -> (r: DataVector)
        ensures
            r@ == Values::zeros(data_type, length as nat),
    {
        match data_type {
            DataType::I8 => {
                let v = vec![0i8; length];
                assert(v@ =~= Seq::new(length as nat, |i: int| 0i8));
                DataVector::I8(v)
            },
            DataType::U8 => {
                let v = vec![0u8; length];
                assert(v@ =~= Seq::new(length as nat, |i: int| 0u8));
                DataVector::U8(v)
            },
            DataType::I16 => {
                let v = vec![0i16; length];
                assert(v@ =~= Seq::new(length as nat, |i: int| 0i16));
                DataVector::I16(v)
            },
            DataType::I32 => {
                let v = vec![0i32; length];
                assert(v@ =~= Seq::new(length as nat, |i: int| 0i32));
                DataVector::I32(v)
            },
            DataType::F32 => {
                let v = vec![0u32; length];
                assert(v@ =~= Seq::new(length as nat, |i: int| 0u32));
                DataVector::F32(v)
            },
            DataType::F64 => {
                let v = vec![0u64; length];
                assert(v@ =~= Seq::new(length as nat, |i: int| 0u64));
                DataVector::F64(v)
            },
        }
    }

    pub fn data_type(&self) -> (r: DataType)
        ensures
            r == self@.data_type(),
    {
        match self {
            DataVector::I8(_) => DataType::I8,
            DataVector::U8(_) => DataType::U8,
            DataVector::I16(_) => DataType::I16,
            DataVector::I32(_) => DataType::I32,
            DataVector::F32(_) => DataType::F32,
            DataVector::F64(_) => DataType::F64,
        }
    }

    pub fn len(&self) -> (r: usize)
        ensures
            r == self@.len(),
    {
        match self {
            DataVector::I8(v) => v.len(),
            DataVector::U8(v) => v.len(),
            DataVector::I16(v) => v.len(),
            DataVector::I32(v) => v.len(),
            DataVector::F32(v) => v.len(),
            DataVector::F64(v) => v.len(),
        }
    }

    pub fn get_i8(&self) -> (r: Option<&[i8]>)
        ensures
            r is Some <==> self@ is I8,
            r is Some ==> self@ == Values::I8(r->Some_0@),
    {
        match self {
            DataVector::I8(v) => Some(v.as_slice()),
            _ => None,
        }
    }

    pub fn get_u8(&self) -> (r: Option<&[u8]>)
        ensures
            r is Some <==> self@ is U8,
            r is Some ==> self@ == Values::U8(r->Some_0@),
    {
        match self {
            DataVector::U8(v) => Some(v.as_slice()),
            _ => None,
        }
    }

    pub fn get_i16(&self) -> (r: Option<&[i16]>)
        ensures
            r is Some <==> self@ is I16,
            r is Some ==> self@ == Values::I16(r->Some_0@),
    {
        match self {
            DataVector::I16(v) => Some(v.as_slice()),
            _ => None,
        }
    }

    pub fn get_i32(&self) -> (r: Option<&[i32]>)
        ensures
            r is Some <==> self@ is I32,
            r is Some ==> self@ == Values::I32(r->Some_0@),
    {
        match self {
            DataVector::I32(v) => Some(v.as_slice()),
            _ => None,
        }
    }

    /// The bit patterns of `F32` values.
    pub fn get_f32(&self) -> (r: Option<&[u32]>)
        ensures
            r is Some <==> self@ is F32,
            r is Some ==> self@ == Values::F32(r->Some_0@),
    {
        match self {
            DataVector::F32(v) => Some(v.as_slice()),
            _ => None,
        }
    }

    /// The bit patterns of `F64` values.
    pub fn get_f64(&self) -> (r: Option<&[u64]>)
        ensures
            r is Some <==> self@ is F64,
            r is Some ==> self@ == Values::F64(r->Some_0@),
    {
        match self {
            DataVector::F64(v) => Some(v.as_slice()),
            _ => None,
        }
    }

    /// A copy whose content is the same.
    pub fn duplicate(&self) -> (r: DataVector)
        ensures
            r@ == self@,
    {
        match self {
            DataVector::I8(v) => DataVector::I8(v.clone()),
            DataVector::U8(v) => DataVector::U8(v.clone()),
            DataVector::I16(v) => DataVector::I16(v.clone()),
            DataVector::I32(v) => DataVector::I32(v.clone()),
            DataVector::F32(v) => DataVector::F32(v.clone()),
            DataVector::F64(v) => DataVector::F64(v.clone()),
        }
    }
}

} // verus!
