//! The commands of the second command line program, as plain values.

use vstd::prelude::*;
use crate::archive::ArchiveNameOrDirPath;
use crate::cli::{delete_choice, snapshot_dir_id, DeleteChoice};

verus! {

/// Repository management.
#[derive(Debug, Clone)]
pub enum Repository {
    New {
        repo_name: String,
        location: String,
        algorithm: String,
    },
    List,
}

/// What to do with the snapshots.
#[derive(Debug, Clone)]
pub enum SubCmd {
    List,
    Delete(Delete),
}

/// Snapshot management for an archive, named or found by its directory.
#[derive(Debug, Clone)]
pub struct Snapshot {
    pub archive_name: Option<String>,
    pub exigency_dir_path: Option<String>,
    pub sub_cmd: SubCmd,
}

/// Delete snapshots: all but the newest `N`, or the one `N` back.
#[derive(Debug, Clone)]
pub struct Delete {
    pub all_but_newest_n: Option<usize>,
    pub back_n: Option<i64>,
    pub clear_fell: bool,
    pub verbose: bool,
}

/// Take a file or a directory out of a snapshot.
#[derive(Debug, Clone)]
pub struct Extract {
    pub back_n: i64,
    pub archive_name: Option<String>,
    pub exigency_dir_path: Option<String>,
    pub file_path: Option<String>,
    pub dir_path: Option<String>,
    pub overwrite: bool,
    pub with_name: Option<String>,
    pub into_dir: Option<String>,
    pub stats: bool,
}

impl Delete {
    /// The deletion asked for.
    pub fn choice(&self) -> (r: Option<DeleteChoice>)
        ensures
            match self.all_but_newest_n {
                Some(c) => r == Some(DeleteChoice::AllButNewest(c)),
                None => match self.back_n {
                    Some(n) => r == Some(DeleteChoice::BackN(n)),
                    None => r is None,
                },
            },
    {
        delete_choice(self.all_but_newest_n, self.back_n)
    }
}

impl Snapshot {
    /// How the command locates the snapshot directory.
    pub fn snapshot_dir_id(&self) -> (r: Option<ArchiveNameOrDirPath>)
        ensures
            match self.archive_name {
                Some(n) => r matches Some(ArchiveNameOrDirPath::ArchiveName(m)) && m@ == n@,
                None => match self.exigency_dir_path {
                    Some(p) => r matches Some(ArchiveNameOrDirPath::DirPath(q)) && q@ == p@,
                    None => r is None,
                },
            },
    {
        snapshot_dir_id(&self.archive_name, &self.exigency_dir_path)
    }
}

impl Extract {
    /// How the command locates the snapshot directory.
    pub fn snapshot_dir_id(&self) -> (r: Option<ArchiveNameOrDirPath>)
        ensures
            match self.archive_name {
                Some(n) => r matches Some(ArchiveNameOrDirPath::ArchiveName(m)) && m@ == n@,
                None => match self.exigency_dir_path {
                    Some(p) => r matches Some(ArchiveNameOrDirPath::DirPath(q)) && q@ == p@,
                    None => r is None,
                },
            },
    {
        snapshot_dir_id(&self.archive_name, &self.exigency_dir_path)
    }
}

} // verus!
