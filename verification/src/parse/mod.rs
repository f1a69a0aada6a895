pub mod error;
pub mod http_method;
pub mod iter;
pub mod parse_utils;
pub mod parser;
pub mod surface;
pub mod tchar;
pub mod uri;
pub mod round_trip;
pub mod header_block;
pub mod head_laws;
