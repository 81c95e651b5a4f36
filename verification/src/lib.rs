//! Verified core of the ergibus back-up system: path handling, ordered
//! maps, snapshot directory trees and the decisions taken around them.

pub mod names;
pub mod paths;
pub mod ordered_map;
pub mod errors;
pub mod globs;
pub mod archive;
pub mod snapshot_dir;
pub mod attributes;
pub mod fs_objects;
pub mod report;
pub mod path_ext;
pub mod snapshot;
pub mod lib_path_ext;
pub mod config;
pub mod content;
pub mod cli;
pub mod clap_cmds;
pub mod gui;
pub mod snapshot_file;
