pub mod config;
pub mod text;
pub mod path;
pub mod media;
pub mod scan;
pub mod json;
pub mod order;
pub mod process;
pub mod fs;
pub mod transcode;
pub mod contention;
