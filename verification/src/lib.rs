//! A verified core for the meow package tools: the meowzip archive
//! container, the installed-package database bookkeeping, conflict
//! detection with three-way merge, and the dependency resolver.

pub mod codec;
pub mod strutil;
pub mod meowzip;
pub mod hash;
pub mod signing;
pub mod archive;
pub mod records;
pub mod db;
pub mod threeway;
pub mod conflict;
pub mod sync;
pub mod columned;
pub mod mzlist;
pub mod listing;
pub mod errors;
