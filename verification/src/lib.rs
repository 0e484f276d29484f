//! Redirection of alternate stage forms inside a loaded content archive.
//!
//! The archive's directory table and search index are modelled as plain
//! tables; every operation on them is stated over those tables and proved.

pub mod archive;
pub mod backup;
pub mod hash;
pub mod loading;
pub mod logger;
pub mod manager;
pub mod menu;
pub mod music_fix;
pub mod params;
pub mod patching;
pub mod path;
pub mod search;
pub mod search_patching;
pub mod sorting;
