pub mod cli;
pub mod crypto;
pub mod error;
pub mod file;
pub mod kdf;
pub mod memory;
pub mod password;
pub mod pipeline;
pub mod text;
