//! The RESP wire protocol: typed values, their encoding and decoding.

pub mod decode;
pub mod encode;
pub mod laws;
pub mod model;
pub mod value;

pub use decode::parse_array;
pub use decode::parse_bulk_string;
pub use decode::parse_bytes;
pub use decode::parse_error;
pub use decode::parse_integer;
pub use decode::parse_resp;
pub use decode::parse_simple_string;
pub use value::RespError;
pub use value::RespValue;
