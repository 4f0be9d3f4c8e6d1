//! Path rules, content-library layout and change tracking for a game
//! launcher backend, each with a proved contract.
pub mod unix_path;
pub mod text;
pub mod names;
pub mod aux_path;
pub mod library;
pub mod safe_write;
pub mod hashing;
pub mod folder_changes;
pub mod mods_page;
pub mod normal_form;
