pub mod name_string;
pub mod data_type;
pub mod data_vector;
pub mod error;
pub mod data_set;
pub mod io;

pub use name_string::{is_valid_name, is_special_1, is_special_2, NC_MAX_NAME_SIZE};
pub use data_type::DataType;
pub use data_vector::DataVector;
pub use error::{InvalidDataSet, WriteError, ReadError, ParseHeaderError, ParseHeaderErrorKind, InvalidBytes};
pub use data_set::dimension::{Dimension, DimensionSize, DimensionType};
pub use data_set::attribute::Attribute;
pub use data_set::variable::Variable;
pub use data_set::DataSet;
pub use io::{compute_num_bytes_zero_padding, Version};
pub use io::file_reader::FileReader;
pub use io::file_writer::FileWriter;
pub use io::data::{NC_FILL_F32, NC_FILL_F64, NC_FILL_I16, NC_FILL_I32, NC_FILL_I8, NC_FILL_U8};
