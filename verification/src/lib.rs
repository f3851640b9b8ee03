//! Hosts-file handling for the bebasin blocker: a verified reader and writer of
//! hosts files, the merge of two host tables, and the decisions of the updater.

pub mod error;
pub mod grammar;
pub mod helpers;
pub mod hosts;
pub mod hosts_map;
pub mod laws;
pub mod os;
pub mod parser;
pub mod text;
pub mod updater;
