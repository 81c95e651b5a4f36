//! Snapshots: the names of their files, the order in which they are
//! listed, and the lookup of recorded paths.

use vstd::prelude::*;
use regex::Regex;
use regex::Error as RegexError;
use window_sort_iterator::WindowSortIterExt;
use crate::errors::{Error, IoErrorKind};
use crate::fs_objects::{DirLookup, DirectoryData, FileData, FileStats, FileSystemObject, SymLinkStats};
use crate::names::seq_lt;
use crate::path_ext::{absolute_path_buf, spec_absolute_path};
use crate::paths::{join, path_components, spec_join, spec_path_type, tilde, PathComponent, PathType};

verus! {

#[verifier::external_type_specification]
#[verifier::external_body]
pub struct ExRegex(Regex);

#[verifier::external_type_specification]
#[verifier::external_body]
pub struct ExRegexError(RegexError);

/// Whether `Regex::new` accepts `pattern`.
pub uninterp spec fn regex_parses(pattern: Seq<char>) -> bool;

/// The pattern a regular expression was made from (`Regex::as_str`).
pub uninterp spec fn regex_source(re: Regex) -> Seq<char>;

/// Whether the regular expression `pattern` matches somewhere in `text`
/// (`Regex::is_match`).
pub uninterp spec fn regex_matches(pattern: Seq<char>, text: Seq<char>) -> bool;

/// `Regex::new`: the compiled pattern, or the reason it is refused.
#[verifier::external_body]
fn regex_new(pattern: &str) -> (r: Result<Regex, RegexError>)
    ensures
        r is Ok <==> regex_parses(pattern@),
        r matches Ok(re) ==> regex_source(re) == pattern@,
{
    Regex::new(pattern)
}

/// `Regex::is_match` on `text`.
#[verifier::external_body]
fn regex_is_match(re: &Regex, text: &str) -> (r: bool)
    ensures
        r == regex_matches(regex_source(*re), text@),
{
    re.is_match(text)
}

/// Names sorted from the highest to the lowest.
pub open spec fn descending(s: Seq<Seq<char>>) -> bool {
    forall|i: int, j: int| 0 <= i < j < s.len() ==> !seq_lt(#[trigger] s[i], #[trigger] s[j])
}

/// Names sorted from the lowest to the highest.
pub open spec fn ascending(s: Seq<Seq<char>>) -> bool {
    forall|i: int, j: int| 0 <= i < j < s.len() ==> !seq_lt(#[trigger] s[j], #[trigger] s[i])
}

/// The texts of a list of strings.
pub open spec fn texts(v: Seq<String>) -> Seq<Seq<char>> {
    v.map_values(|s: String| s@)
}

/// `window_sort` over a window that holds every item: the items from the
/// highest to the lowest. Strings are ordered by their characters, as
/// their UTF-8 bytes order them.
#[verifier::external_body]
fn sort_descending(items: Vec<String>) -> (r: Vec<String>)
    ensures
        texts(r@).to_multiset() == texts(items@).to_multiset(),
        descending(texts(r@)),
{
    items.into_iter().window_sort(usize::MAX).collect()
}

/// The order in which snapshots are listed.
#[derive(Debug, Clone, Copy, PartialEq, Eq, Structural)]
pub enum Order {
    Ascending,
    Descending,
}

impl Order {
    pub fn is_ascending(&self) -> (r: bool)
        ensures
            r == (*self == Order::Ascending),
    {
        match self {
            Order::Ascending => true,
            Order::Descending => false,
        }
    }

    pub fn is_descending(&self) -> (r: bool)
        ensures
            r == (*self == Order::Descending),
    {
        match self {
            Order::Ascending => false,
            Order::Descending => true,
        }
    }
}

/// The pattern of the names of snapshot files: the local date and time of
/// the snapshot and the offset of the time zone.
pub const SS_FILE_NAME_PATTERN: &'static str = "^(\\d{4})-(\\d{2})-(\\d{2})-(\\d{2})-(\\d{2})-(\\d{2})[+-](\\d{4})$";

/// Recognises the names of snapshot files.
#[derive(Debug)]
pub struct SnapshotNameMatcher {
    re: Regex,
}

impl SnapshotNameMatcher {
    /// The pattern the matcher was made from.
    pub closed spec fn pattern(&self) -> Seq<char> {
        regex_source(self.re)
    }

    /// The matcher of snapshot file names; `None` only if the pattern is
    /// refused.
    pub fn new() -> (r: Option<SnapshotNameMatcher>)
        ensures
            r is Some <==> regex_parses(SS_FILE_NAME_PATTERN@),
            r matches Some(m) ==> m.pattern() == SS_FILE_NAME_PATTERN@,
    {
        match regex_new(SS_FILE_NAME_PATTERN) {
            Ok(re) => Some(SnapshotNameMatcher { re }),
            Err(_) => None,
        }
    }

    /// Whether `name` is the name of a snapshot file.
    pub fn is_match(&self, name: &str) -> (r: bool)
        ensures
            r == regex_matches(self.pattern(), name@),
    {
        regex_is_match(&self.re, name)
    }
}

/// The names of the entries of a directory that are files named as
/// snapshots, in the order of the entries.
pub open spec fn snapshot_names(pattern: Seq<char>, entries: Seq<(String, bool)>) -> Seq<Seq<char>>
    decreases entries.len(),
{
    if entries.len() == 0 {
        Seq::empty()
    } else {
        let prev = snapshot_names(pattern, entries.drop_last());
        let (name, is_file) = entries.last();
        if is_file && regex_matches(pattern, name@) {
            prev.push(name@)
        } else {
            prev
        }
    }
}

/// The names of the snapshot files among the entries of a directory
/// (each a name and whether it is a file), in the given order.
pub fn snapshot_names_in_order(matcher: &SnapshotNameMatcher, entries: &Vec<(String, bool)>, order: Order) -> (r: Vec<String>)
    ensures
        texts(r@).to_multiset() == snapshot_names(matcher.pattern(), entries@).to_multiset(),
        order == Order::Ascending ==> ascending(texts(r@)),
        order == Order::Descending ==> descending(texts(r@)),
{
    let mut names: Vec<String> = Vec::new();
    let mut i: usize = 0;
    while i < entries.len()
        invariant
            i <= entries@.len(),
            texts(names@) == snapshot_names(matcher.pattern(), entries@.take(i as int)),
        decreases entries@.len() - i,
    {
        let ghost before = names@;
        assert(entries@.take(i + 1).drop_last() =~= entries@.take(i as int));
        if entries[i].1 && matcher.is_match(entries[i].0.as_str()) {
            names.push(entries[i].0.clone());
            assert(texts(names@) =~= texts(before).push(entries@[i as int].0@));
        }
        i = i + 1;
    }
    assert(entries@.take(i as int) =~= entries@);
    let sorted = sort_descending(names);
    match order {
        Order::Descending => sorted,
        Order::Ascending => {
            let r = reversed(sorted);
            r
        },
    }
}

/// The strings in the opposite order.
fn reversed(v: Vec<String>) -> (r: Vec<String>)
    requires
        descending(texts(v@)),
    ensures
        texts(r@) == texts(v@).reverse(),
        texts(r@).to_multiset() == texts(v@).to_multiset(),
        ascending(texts(r@)),
{
    let mut r: Vec<String> = Vec::new();
    let mut k: usize = v.len();
    while k > 0
        invariant
            k <= v@.len(),
            texts(r@) == texts(v@).subrange(k as int, v@.len() as int).reverse(),
        decreases k,
    {
        k = k - 1;
        let ghost before = r@;
        r.push(v[k].clone());
        assert(texts(v@).subrange(k as int, v@.len() as int) =~= seq![v@[k as int]@] + texts(v@).subrange(k + 1, v@.len() as int));
        assert(texts(r@) =~= texts(before).push(v@[k as int]@));
        assert(texts(r@) =~= texts(v@).subrange(k as int, v@.len() as int).reverse());
    }
    assert(texts(v@).subrange(0, v@.len() as int) =~= texts(v@));
    proof { texts(v@).lemma_reverse_to_multiset(); }
    r
}

/// What a snapshot records: the tree of directories from the root, the
/// directory that relative paths are taken from, the archive it belongs
/// to and the counts of what it holds.
#[derive(Debug)]
pub struct SnapshotPersistentData {
    root_dir: DirectoryData,
    base_dir_path: String,
    archive_name: String,
    file_stats: FileStats,
    sym_link_stats: SymLinkStats,
}

impl SnapshotPersistentData {
    pub closed spec fn spec_root(&self) -> DirectoryData {
        self.root_dir
    }

    pub closed spec fn spec_base_dir_path(&self) -> Seq<char> {
        self.base_dir_path@
    }

    pub closed spec fn spec_archive_name(&self) -> Seq<char> {
        self.archive_name@
    }

    pub closed spec fn spec_file_stats(&self) -> FileStats {
        self.file_stats
    }

    pub closed spec fn spec_sym_link_stats(&self) -> SymLinkStats {
        self.sym_link_stats
    }

    /// The recorded tree is consistent.
    pub open spec fn wf(&self) -> bool {
        self.spec_root().wf()
    }

    /// A snapshot of the archive `archive_name` that records nothing yet
    /// below `root_dir`, taking relative paths from the root.
    pub fn new(root_dir: DirectoryData, archive_name: &str) -> (r: SnapshotPersistentData)
        requires
            root_dir.wf(),
        ensures
            r.wf(),
            r.spec_root() == root_dir,
            r.spec_base_dir_path() == root_dir.spec_path(),
            r.spec_archive_name() == archive_name@,
            r.spec_file_stats() == (FileStats { file_count: 0, byte_count: 0, stored_byte_count: 0 }),
            r.spec_sym_link_stats() == (SymLinkStats { dir_sym_link_count: 0, file_sym_link_count: 0 }),
    {
        let base_dir_path = root_dir.path().to_owned();
        SnapshotPersistentData {
            root_dir,
            base_dir_path,
            archive_name: archive_name.to_owned(),
            file_stats: FileStats { file_count: 0, byte_count: 0, stored_byte_count: 0 },
            sym_link_stats: SymLinkStats { dir_sym_link_count: 0, file_sym_link_count: 0 },
        }
    }

    /// A snapshot made of its parts, as they were stored.
    pub fn from_parts(
        root_dir: DirectoryData,
        base_dir_path: &str,
        archive_name: &str,
        file_stats: FileStats,
        sym_link_stats: SymLinkStats,
    ) -> (r: SnapshotPersistentData)
        requires
            root_dir.wf(),
        ensures
            r.wf(),
            r.spec_root() == root_dir,
            r.spec_base_dir_path() == base_dir_path@,
            r.spec_archive_name() == archive_name@,
            r.spec_file_stats() == file_stats,
            r.spec_sym_link_stats() == sym_link_stats,
    {
        SnapshotPersistentData {
            root_dir,
            base_dir_path: base_dir_path.to_owned(),
            archive_name: archive_name.to_owned(),
            file_stats,
            sym_link_stats,
        }
    }

    pub fn archive_name(&self) -> (r: &str)
        ensures
            r@ == self.spec_archive_name(),
    {
        self.archive_name.as_str()
    }

    pub fn base_dir_path(&self) -> (r: &str)
        ensures
            r@ == self.spec_base_dir_path(),
    {
        self.base_dir_path.as_str()
    }

    pub fn root_dir_path(&self) -> (r: &str)
        ensures
            r@ == self.spec_root().spec_path(),
    {
        self.root_dir.path()
    }

    pub fn root_dir(&self) -> (r: &DirectoryData)
        ensures
            *r == self.spec_root(),
    {
        &self.root_dir
    }

    pub fn file_stats(&self) -> (r: FileStats)
        ensures
            r == self.spec_file_stats(),
    {
        self.file_stats
    }

    pub fn sym_link_stats(&self) -> (r: SymLinkStats)
        ensures
            r == self.spec_sym_link_stats(),
    {
        self.sym_link_stats
    }

    /// The recorded tree, for adding to it.
    pub fn root_dir_mut(&mut self) -> (r: &mut DirectoryData)
        ensures
            *r == old(self).spec_root(),
            final(self).spec_root() == *final(r),
            final(self).spec_base_dir_path() == old(self).spec_base_dir_path(),
            final(self).spec_archive_name() == old(self).spec_archive_name(),
            final(self).spec_file_stats() == old(self).spec_file_stats(),
            final(self).spec_sym_link_stats() == old(self).spec_sym_link_stats(),
    {
        &mut self.root_dir
    }

    /// Adds the counts of what was recorded.
    pub fn add_stats(&mut self, file_stats: FileStats, sym_link_stats: SymLinkStats)
        requires
            old(self).spec_file_stats().file_count + file_stats.file_count <= u64::MAX,
            old(self).spec_file_stats().byte_count + file_stats.byte_count <= u64::MAX,
            old(self).spec_file_stats().stored_byte_count + file_stats.stored_byte_count <= u64::MAX,
            old(self).spec_sym_link_stats().dir_sym_link_count + sym_link_stats.dir_sym_link_count <= u64::MAX,
            old(self).spec_sym_link_stats().file_sym_link_count + sym_link_stats.file_sym_link_count <= u64::MAX,
        ensures
            final(self).spec_root() == old(self).spec_root(),
            final(self).spec_base_dir_path() == old(self).spec_base_dir_path(),
            final(self).spec_archive_name() == old(self).spec_archive_name(),
            final(self).spec_file_stats().file_count == old(self).spec_file_stats().file_count + file_stats.file_count,
            final(self).spec_file_stats().byte_count == old(self).spec_file_stats().byte_count + file_stats.byte_count,
            final(self).spec_file_stats().stored_byte_count == old(self).spec_file_stats().stored_byte_count
                + file_stats.stored_byte_count,
            final(self).spec_sym_link_stats().dir_sym_link_count == old(self).spec_sym_link_stats().dir_sym_link_count
                + sym_link_stats.dir_sym_link_count,
            final(self).spec_sym_link_stats().file_sym_link_count == old(self).spec_sym_link_stats().file_sym_link_count
                + sym_link_stats.file_sym_link_count,
    {
        self.file_stats.add_assign(file_stats);
        self.sym_link_stats.add_assign(sym_link_stats);
    }

    /// Takes relative paths from the directory where the recorded tree
    /// starts to branch.
    pub fn settle_base_dir(&mut self)
        ensures
            final(self).spec_root() == old(self).spec_root(),
            final(self).spec_base_dir_path() == old(self).spec_root().base_dir_of().spec_path(),
            final(self).spec_archive_name() == old(self).spec_archive_name(),
            final(self).spec_file_stats() == old(self).spec_file_stats(),
            final(self).spec_sym_link_stats() == old(self).spec_sym_link_stats(),
    {
        let path = self.root_dir.base_dir().path().to_owned();
        self.base_dir_path = path;
    }

    /// The absolute path at which a directory path given to `find_subdir`
    /// is looked up; `None` when it cannot be made absolute.
    pub open spec fn dir_target(&self, path: Seq<char>, current_dir: Result<&str, IoErrorKind>, home_dir: Option<&str>) -> Option<Seq<char>> {
        match spec_path_type(path) {
            PathType::Absolute => Some(path),
            PathType::RelativeCurDirImplicit => Some(spec_join(self.spec_base_dir_path(), path)),
            PathType::Empty => Some(self.spec_base_dir_path()),
            _ => match spec_absolute_path(path, current_dir, home_dir) {
                Ok(a) => Some(a),
                Err(_) => None,
            },
        }
    }

    /// The absolute path at which a file path given to `find_file` is
    /// looked up; `None` when there is none.
    pub open spec fn file_target(&self, path: Seq<char>, current_dir: Result<&str, IoErrorKind>, home_dir: Option<&str>) -> Option<Seq<char>> {
        match spec_path_type(path) {
            PathType::Absolute => Some(path),
            PathType::RelativeCurDirImplicit => Some(spec_join(self.spec_base_dir_path(), path)),
            PathType::Empty => None,
            _ => match spec_absolute_path(path, current_dir, home_dir) {
                Ok(a) => Some(a),
                Err(_) => None,
            },
        }
    }

    /// The recorded directory at `dir_path`: relative paths that start
    /// with a name are taken from the base directory, the others are made
    /// absolute with the current and home directories given.
    pub fn find_subdir(&self, dir_path: &str, current_dir: Result<&str, IoErrorKind>, home_dir: Option<&str>) -> (r: Result<&DirectoryData, Error>)
        requires
            self.wf(),
        ensures
            match self.dir_target(dir_path@, current_dir, home_dir) {
                Some(t) => self.spec_root().subdir_result(t, r),
                None => r matches Err(Error::SnapshotUnknownDirectory(s)) && s@ == dir_path@,
            },
    {
        match PathType::of(dir_path) {
            PathType::Absolute => self.root_dir.find_subdir(dir_path),
            PathType::RelativeCurDirImplicit => {
                let p = join(self.base_dir_path.as_str(), dir_path);
                self.root_dir.find_subdir(p.as_str())
            },
            PathType::Empty => self.root_dir.find_subdir(self.base_dir_path.as_str()),
            _ => match absolute_path_buf(dir_path, current_dir, home_dir) {
                Ok(p) => self.root_dir.find_subdir(p.as_str()),
                Err(_) => Err(Error::SnapshotUnknownDirectory(dir_path.to_owned())),
            },
        }
    }

    /// The recorded file at `file_path`, found as `find_subdir` finds
    /// directories; the empty path names no file.
    pub fn find_file(&self, file_path: &str, current_dir: Result<&str, IoErrorKind>, home_dir: Option<&str>) -> (r: Result<&FileData, Error>)
        requires
            self.wf(),
        ensures
            match self.file_target(file_path@, current_dir, home_dir) {
                Some(t) => self.spec_root().file_result(t, r),
                None => r matches Err(Error::SnapshotUnknownFile(s)) && s@ == file_path@,
            },
    {
        match PathType::of(file_path) {
            PathType::Absolute => self.root_dir.find_file(file_path),
            PathType::RelativeCurDirImplicit => {
                let p = join(self.base_dir_path.as_str(), file_path);
                self.root_dir.find_file(p.as_str())
            },
            PathType::Empty => Err(Error::SnapshotUnknownFile(file_path.to_owned())),
            _ => match absolute_path_buf(file_path, current_dir, home_dir) {
                Ok(p) => self.root_dir.find_file(p.as_str()),
                Err(_) => Err(Error::SnapshotUnknownFile(file_path.to_owned())),
            },
        }
    }
}

/// The counts kept of a snapshot and the time its making took.
#[derive(Debug)]
pub struct SnapshotStats {
    pub file_stats: FileStats,
    pub sym_link_stats: SymLinkStats,
    pub creation_duration: std::time::Duration,
}

impl SnapshotStats {
    /// The counts of `spd` with the time its making took.
    pub fn new(spd: &SnapshotPersistentData, creation_duration: std::time::Duration) -> (r: SnapshotStats)
        ensures
            r.file_stats == spd.spec_file_stats(),
            r.sym_link_stats == spd.spec_sym_link_stats(),
            r.creation_duration == creation_duration,
    {
        SnapshotStats { file_stats: spd.file_stats(), sym_link_stats: spd.sym_link_stats(), creation_duration }
    }
}


/// Two lists sorted from the lowest to the highest with the same names
/// are the same list.
proof fn lemma_sorted_unique(a: Seq<Seq<char>>, b: Seq<Seq<char>>)
    requires
        ascending(a),
        ascending(b),
        a.to_multiset() == b.to_multiset(),
    ensures
        a == b,
    decreases a.len(),
{
    crate::names::lemma_seq_lt_order();
    a.to_multiset_ensures();
    b.to_multiset_ensures();
    if a.len() == 0 {
        assert(b.len() == 0);
        assert(a =~= b);
    } else {
        assert(b.len() == a.len());
        assert(a.to_multiset().count(a[0]) > 0);
        assert(b.contains(a[0]));
        let k = choose|k: int| 0 <= k < b.len() && b[k] == a[0];
        assert(a.contains(b[0])) by {
            assert(b.to_multiset().count(b[0]) > 0);
        }
        let m = choose|m: int| 0 <= m < a.len() && a[m] == b[0];
        if k > 0 {
            assert(!seq_lt(b[k], b[0]));
        }
        if m > 0 {
            assert(!seq_lt(a[m], a[0]));
        }
        assert(a[0] == b[0]);
        assert(a.remove(0) =~= a.drop_first());
        assert(b.remove(0) =~= b.drop_first());
        assert(a.drop_first().to_multiset() == b.drop_first().to_multiset());
        assert(ascending(a.drop_first())) by {
            assert forall|i: int, j: int| 0 <= i < j < a.drop_first().len() implies !seq_lt(#[trigger] a.drop_first()[j], #[trigger] a.drop_first()[i]) by {
                assert(a.drop_first()[i] == a[i + 1] && a.drop_first()[j] == a[j + 1]);
            }
        }
        assert(ascending(b.drop_first())) by {
            assert forall|i: int, j: int| 0 <= i < j < b.drop_first().len() implies !seq_lt(#[trigger] b.drop_first()[j], #[trigger] b.drop_first()[i]) by {
                assert(b.drop_first()[i] == b[i + 1] && b.drop_first()[j] == b[j + 1]);
            }
        }
        lemma_sorted_unique(a.drop_first(), b.drop_first());
        assert(a =~= seq![a[0]] + a.drop_first());
        assert(b =~= seq![b[0]] + b.drop_first());
    }
}

/// The listing in ascending order is the listing in descending order
/// read backwards.
pub proof fn law_orders_agree(asc: Seq<Seq<char>>, desc: Seq<Seq<char>>)
    requires
        ascending(asc),
        descending(desc),
        asc.to_multiset() == desc.to_multiset(),
    ensures
        asc == desc.reverse(),
{
    desc.lemma_reverse_to_multiset();
    assert(ascending(desc.reverse())) by {
        assert forall|i: int, j: int| 0 <= i < j < desc.reverse().len() implies !seq_lt(#[trigger] desc.reverse()[j], #[trigger] desc.reverse()[i]) by {
            let n = desc.len();
            assert(desc.reverse()[i] == desc[n - 1 - i]);
            assert(desc.reverse()[j] == desc[n - 1 - j]);
        }
    }
    lemma_sorted_unique(asc, desc.reverse());
}

/// A relative path that starts with a name other than `~` is looked up
/// below the snapshot's base directory, whatever the current and home
/// directories are: by `find_subdir` and by `find_file` alike.
pub proof fn law_names_from_base_dir(
    s: SnapshotPersistentData,
    path: Seq<char>,
    current_dir: Result<&str, IoErrorKind>,
    home_dir: Option<&str>,
)
    requires
        path_components(path).len() > 0,
        path_components(path)[0] is Normal,
        path_components(path)[0]->Normal_0 != tilde(),
    ensures
        s.dir_target(path, current_dir, home_dir) == Some(spec_join(s.spec_base_dir_path(), path)),
        s.file_target(path, current_dir, home_dir) == Some(spec_join(s.spec_base_dir_path(), path)),
{
}

} // verus!
