use vstd::prelude::*;

pub mod layout;
pub mod header;
pub mod data;
pub mod file_writer;
pub mod parser;
pub mod file_reader;

verus! {

/// Variant of the file format: 32-bit or 64-bit data offsets.
#[derive(Debug, Clone, Copy, PartialEq, Eq, Structural)]
pub enum Version {
    Classic,
    Offset64Bit,
}

/// Version byte written after the magic word.
pub open spec fn version_byte(v: Version) -> u8 {
    match v {
        Version::Classic => 1,
        Version::Offset64Bit => 2,
    }
}

/// Width in bytes of a variable's begin offset in the header.
pub open spec fn offset_width(v: Version) -> nat {
    match v {
        Version::Classic => 4,
        Version::Offset64Bit => 8,
    }
}

impl Version {
    pub fn version_number(&self) -> (r: u8)
        ensures
            r == version_byte(*self),
    {
        match self {
            Version::Classic => 1,
            Version::Offset64Bit => 2,
        }
    }
}

/// Number of zero bytes needed to bring `number_of_bytes` up to a multiple of four.
pub fn compute_num_bytes_zero_padding(number_of_bytes: usize) -> (r: usize)
    ensures
        r == crate::data_set::variable::padding(number_of_bytes as nat),
        r < 4,
        (number_of_bytes + r) % 4 == 0,
{
    let rem: usize = number_of_bytes % 4;
    if rem == 0 {
        0
    } else {
        4 - rem
    }
}

} // verus!
