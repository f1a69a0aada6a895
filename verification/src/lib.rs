pub mod connection;
pub mod error;
pub mod parse;
pub mod router;
pub mod shutdown;
