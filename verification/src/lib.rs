//! Tag files, change files and repositories of Pijul.

pub mod bytes;
pub mod change_file;
pub mod channel;
pub mod cli;
pub mod copier;
pub mod entry;
pub mod layout;
pub mod limits;
pub mod pages;
pub mod repository;
pub mod restorer;
pub mod tag;
pub mod text_encoding;
pub mod zstd;
