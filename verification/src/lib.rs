//! Verified core of an InstallShield 3.x archive unpacker.

pub mod explode;
pub mod text;
pub mod archive;
pub mod error;
pub mod output;
pub mod discovery;
pub mod order;
pub mod cli;
pub mod paths;
