//! Real-time chat gateway: credential validation, connection sessions,
//! room membership, and broadcast fan-out, with verified contracts.

pub mod errors;
pub mod gateway;
pub mod token;

pub use errors::Error;
