//! A small relational storage engine: pages, a buffer pool with LRU/MRU
//! replacement, a byte-level record format, and the parsing of conditions and
//! `SELECT` commands.

pub mod basic;
pub mod buffer;
pub mod buffer_manager;
pub mod catalog_file;
pub mod col_info;
pub mod condition;
pub mod config;
pub mod data_base;
pub mod db_manager;
pub mod disk_manager;
pub mod format_laws;
pub mod operator;
pub mod page;
pub mod page_laws;
pub mod relation;
pub mod relation_pages;
pub mod schema;
pub mod select;
pub mod sgbd;
pub mod text;
