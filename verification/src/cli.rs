//! The commands of the back-up programs, as plain values, and the
//! choices their handling makes before any work is done.

use vstd::prelude::*;
use crate::archive::ArchiveNameOrDirPath;
use crate::errors::Error;

verus! {

/// Archive management: create an archive, or list the archives.
#[derive(Debug, Clone)]
pub enum ManageArchives {
    New {
        archive_name: String,
        content_repo_name: String,
        location: String,
        inclusions: Vec<String>,
        dir_exclusions: Vec<String>,
        file_exclusions: Vec<String>,
    },
    List,
}

/// List the content repositories, with their specifications if `show`.
#[derive(Debug, Clone)]
pub struct ListRepositories {
    pub show: bool,
}

/// Delete a content repository.
#[derive(Debug, Clone)]
pub struct DeleteRepository {
    pub repo_name: String,
}

/// Remove unreferenced content from a repository.
#[derive(Debug, Clone)]
pub struct PruneRepository {
    pub repo_name: String,
}

/// Create a content repository.
#[derive(Debug, Clone)]
pub struct NewRepository {
    pub repo_name: String,
    pub location: String,
    pub algorithm: String,
}

/// Repository management.
#[derive(Debug, Clone)]
pub enum ManageRepositories {
    List(ListRepositories),
    Delete(DeleteRepository),
    Prune(PruneRepository),
    NewRepo(NewRepository),
}

/// The hash algorithms a repository may use.
pub const ALGORITHMS: [&'static str; 3] = ["Sha1", "Sha256", "Sha512"];

/// What to do with the snapshots of an archive.
#[derive(Debug, Clone)]
pub enum SubCmd {
    List,
    Delete {
        all_but_newest_n: Option<usize>,
        back_n: Option<i64>,
        clear_fell: bool,
        verbose: bool,
    },
}

/// Snapshot management for an archive, named or found by its directory.
#[derive(Debug, Clone)]
pub struct Snapshots {
    pub archive_name: Option<String>,
    pub exigency_dir_path: Option<String>,
    pub sub_cmd: SubCmd,
}

/// What to take out of a snapshot.
#[derive(Debug, Clone)]
pub enum ContentsSubCmd {
    Extract {
        file_path: Option<String>,
        dir_path: Option<String>,
        overwrite: bool,
        with_name: Option<String>,
        into_dir: Option<String>,
        show_stats: bool,
    },
}

/// Access to the contents of one snapshot of an archive.
#[derive(Debug, Clone)]
pub struct SnapshotContents {
    pub archive_name: Option<String>,
    pub exigency_dir_path: Option<String>,
    pub back_n: i64,
    pub sub_cmd: ContentsSubCmd,
}

/// Make snapshots of the named archives.
#[derive(Debug, Clone)]
pub struct BackUp {
    pub show_stats: bool,
    pub archives: Vec<String>,
}

/// Which snapshots a deletion removes.
#[derive(Debug, Clone, Copy, PartialEq, Eq, Structural)]
pub enum DeleteChoice {
    AllButNewest(usize),
    BackN(i64),
}

/// How the snapshot directory is located: by the archive's name when it
/// is given, else by the directory.
pub fn snapshot_dir_id(archive_name: &Option<String>, exigency_dir_path: &Option<String>) -> (r: Option<ArchiveNameOrDirPath>)
    ensures
        match *archive_name {
            Some(n) => r matches Some(ArchiveNameOrDirPath::ArchiveName(m)) && m@ == n@,
            None => match *exigency_dir_path {
                Some(p) => r matches Some(ArchiveNameOrDirPath::DirPath(q)) && q@ == p@,
                None => r is None,
            },
        },
{
    match archive_name {
        Some(n) => Some(ArchiveNameOrDirPath::ArchiveName(n.clone())),
        None => match exigency_dir_path {
            Some(p) => Some(ArchiveNameOrDirPath::DirPath(p.clone())),
            None => None,
        },
    }
}

/// The deletion asked for: all but the newest `N` when that is given,
/// else the one `N` back.
pub fn delete_choice(all_but_newest_n: Option<usize>, back_n: Option<i64>) -> (r: Option<DeleteChoice>)
    ensures
        match all_but_newest_n {
            Some(c) => r == Some(DeleteChoice::AllButNewest(c)),
            None => match back_n {
                Some(n) => r == Some(DeleteChoice::BackN(n)),
                None => r is None,
            },
        },
{
    match all_but_newest_n {
        Some(c) => Some(DeleteChoice::AllButNewest(c)),
        None => match back_n {
            Some(n) => Some(DeleteChoice::BackN(n)),
            None => None,
        },
    }
}

impl Snapshots {
    /// How the command locates the snapshot directory.
    pub fn snapshot_dir_id(&self) -> (r: Option<ArchiveNameOrDirPath>)
        ensures
            match self.archive_name {
                Some(n) => r matches Some(ArchiveNameOrDirPath::ArchiveName(m)) && m@ == n@,
                None => match self.exigency_dir_path {
                    Some(p) => r matches Some(ArchiveNameOrDirPath::DirPath(q)) && q@ == p@,
                    None => r is None,
                },
            },
    {
        snapshot_dir_id(&self.archive_name, &self.exigency_dir_path)
    }
}

impl SnapshotContents {
    /// How the command locates the snapshot directory.
    pub fn snapshot_dir_id(&self) -> (r: Option<ArchiveNameOrDirPath>)
        ensures
            match self.archive_name {
                Some(n) => r matches Some(ArchiveNameOrDirPath::ArchiveName(m)) && m@ == n@,
                None => match self.exigency_dir_path {
                    Some(p) => r matches Some(ArchiveNameOrDirPath::DirPath(q)) && q@ == p@,
                    None => r is None,
                },
            },
    {
        snapshot_dir_id(&self.archive_name, &self.exigency_dir_path)
    }
}

impl BackUp {
    /// The outcome of backing up the archives, given how many failed.
    pub fn outcome(error_count: i32) -> (r: Result<(), Error>)
        ensures
            error_count > 0 ==> r == Err::<(), Error>(Error::SnapshotsFailed(error_count)),
            error_count <= 0 ==> r is Ok,
    {
        if error_count > 0 {
            Err(Error::SnapshotsFailed(error_count))
        } else {
            Ok(())
        }
    }
}

} // verus!
