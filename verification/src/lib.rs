//! Folder-map core: directory snapshots, their JSON form, layout keys and
//! the decision logic of the project indexer, with contracts checked by Verus.

pub mod cli;
pub mod display;
pub mod indexer;
pub mod json_read;
pub mod layout;
pub mod models;
pub mod scene;
pub mod scanner;
pub mod storage;
pub mod text;
