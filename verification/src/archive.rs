//! Archives: their exclusions, their snapshot directories and the choice
//! of the snapshots that an operation acts on.

use vstd::prelude::*;
use globset::Error as GlobsetError;
use globset::GlobSet;
use crate::errors::Error;
use crate::globs::{
    builder_add, builder_build, builder_new, builder_patterns, glob_new, glob_parses, set_builds,
    set_is_empty, set_is_match, set_matches, set_patterns,
};
use crate::config::{config_known, get_archive_config_dir_path, spec_config_dir, ConfigEnv};
use crate::lib_path_ext::{absolute_path_buf, expand_home_dir, spec_absolute_path_buf, spec_expand_home_dir};
use crate::paths::{
    components, file_name, is_absolute, is_tilde, join, path_components, spec_file_name, spec_is_absolute, spec_join, tilde,
    Component, PathComponent,
};

verus! {

/// The texts of a list of strings.
pub open spec fn texts(v: Seq<String>) -> Seq<Seq<char>> {
    v.map_values(|s: String| s@)
}

/// Every pattern is accepted by `Glob::new`.
pub open spec fn all_parse(patterns: Seq<Seq<char>>) -> bool {
    forall|i: int| 0 <= i < patterns.len() ==> glob_parses(#[trigger] patterns[i])
}

/// The patterns make a glob set: each is a glob and together they build.
pub open spec fn makes_set(patterns: Seq<Seq<char>>) -> bool {
    all_parse(patterns) && set_builds(patterns)
}

/// A glob set of `patterns`, or the first reason they are refused.
fn build_globset(patterns: &Vec<String>) -> (r: Result<GlobSet, GlobsetError>)
    ensures
        r is Ok <==> makes_set(texts(patterns@)),
        r matches Ok(s) ==> set_patterns(s) == texts(patterns@),
{
    let mut builder = builder_new();
    let mut i: usize = 0;
    while i < patterns.len()
        invariant
            i <= patterns@.len(),
            builder_patterns(builder) == texts(patterns@).take(i as int),
            all_parse(texts(patterns@).take(i as int)),
        decreases patterns@.len() - i,
    {
        match glob_new(patterns[i].as_str()) {
            Ok(glob) => {
                builder_add(&mut builder, glob);
                assert(texts(patterns@).take(i + 1) =~= texts(patterns@).take(i as int).push(patterns@[i as int]@));
            },
            Err(err) => {
                assert(!glob_parses(texts(patterns@)[i as int]));
                return Err(err);
            },
        }
        i = i + 1;
    }
    assert(texts(patterns@).take(i as int) =~= texts(patterns@));
    builder_build(&builder)
}

/// The glob sets that keep directories and files out of a snapshot.
#[derive(Debug)]
pub struct Exclusions {
    dir_globset: GlobSet,
    file_globset: GlobSet,
}

/// Whether a set of `patterns` excludes `path`: the set is not empty and
/// matches the whole path or its last name.
pub open spec fn excludes(patterns: Seq<Seq<char>>, path: Seq<char>) -> bool {
    patterns.len() > 0 && (set_matches(patterns, path) || set_matches(patterns, spec_file_name(path)->Some_0))
}

/// Deciding `excludes` needs the last name only when the whole path does
/// not match a set that is not empty.
pub open spec fn can_decide(patterns: Seq<Seq<char>>, path: Seq<char>) -> bool {
    patterns.len() == 0 || set_matches(patterns, path) || spec_file_name(path) is Some
}

impl Exclusions {
    /// The directory patterns.
    pub closed spec fn dir_patterns(&self) -> Seq<Seq<char>> {
        set_patterns(self.dir_globset)
    }

    /// The file patterns.
    pub closed spec fn file_patterns(&self) -> Seq<Seq<char>> {
        set_patterns(self.file_globset)
    }

    /// The exclusions made of the two lists of glob patterns.
    pub fn new(dir_patterns: &Vec<String>, file_patterns: &Vec<String>) -> (r: Result<Exclusions, Error>)
        ensures
            r is Ok <==> makes_set(texts(dir_patterns@)) && makes_set(texts(file_patterns@)),
            r matches Ok(e) ==> e.dir_patterns() == texts(dir_patterns@) && e.file_patterns() == texts(file_patterns@),
            r matches Err(e) ==> e is GlobError,
    {
        let dir_globset = match build_globset(dir_patterns) {
            Ok(s) => s,
            Err(err) => return Err(Error::GlobError(err)),
        };
        let file_globset = match build_globset(file_patterns) {
            Ok(s) => s,
            Err(err) => return Err(Error::GlobError(err)),
        };
        Ok(Exclusions { dir_globset, file_globset })
    }

    /// Whether `dir_entry` is a directory that the directory patterns let
    /// through, matched by its name and by its path.
    pub fn is_non_excluded_dir(&self, is_dir: bool, entry_name: &str, entry_path: &str) -> (r: bool)
        ensures
            r == (is_dir && (self.dir_patterns().len() == 0 || (!set_matches(self.dir_patterns(), entry_name@)
                && !set_matches(self.dir_patterns(), entry_path@)))),
    {
        if is_dir {
            if set_is_empty(&self.dir_globset) {
                true
            } else if set_is_match(&self.dir_globset, entry_name) {
                false
            } else if set_is_match(&self.dir_globset, entry_path) {
                false
            } else {
                true
            }
        } else {
            false
        }
    }

    /// Whether the directory patterns exclude the directory at
    /// `abs_dir_path`.
    pub fn is_excluded_dir(&self, abs_dir_path: &str) -> (r: bool)
        requires
            can_decide(self.dir_patterns(), abs_dir_path@),
        ensures
            r == excludes(self.dir_patterns(), abs_dir_path@),
    {
        excluded_by(&self.dir_globset, abs_dir_path)
    }

    /// Whether the file patterns exclude the file at `abs_file_path`.
    pub fn is_excluded_file(&self, abs_file_path: &str) -> (r: bool)
        requires
            can_decide(self.file_patterns(), abs_file_path@),
        ensures
            r == excludes(self.file_patterns(), abs_file_path@),
    {
        excluded_by(&self.file_globset, abs_file_path)
    }

    /// `is_excluded_dir` where it can decide; `None` for a path that does
    /// not end in a name and is not matched whole by a set that is not
    /// empty.
    pub fn checked_is_excluded_dir(&self, abs_dir_path: &str) -> (r: Option<bool>)
        ensures
            r is Some <==> can_decide(self.dir_patterns(), abs_dir_path@),
            r matches Some(b) ==> b == excludes(self.dir_patterns(), abs_dir_path@),
    {
        if decidable_by(&self.dir_globset, abs_dir_path) {
            Some(self.is_excluded_dir(abs_dir_path))
        } else {
            None
        }
    }

    /// `is_excluded_file` where it can decide; `None` for a path that does
    /// not end in a name and is not matched whole by a set that is not
    /// empty.
    pub fn checked_is_excluded_file(&self, abs_file_path: &str) -> (r: Option<bool>)
        ensures
            r is Some <==> can_decide(self.file_patterns(), abs_file_path@),
            r matches Some(b) ==> b == excludes(self.file_patterns(), abs_file_path@),
    {
        if decidable_by(&self.file_globset, abs_file_path) {
            Some(self.is_excluded_file(abs_file_path))
        } else {
            None
        }
    }
}

fn decidable_by(set: &GlobSet, path: &str) -> (r: bool)
    ensures
        r == can_decide(set_patterns(*set), path@),
{
    set_is_empty(set) || set_is_match(set, path) || file_name(path).is_some()
}

fn excluded_by(set: &GlobSet, path: &str) -> (r: bool)
    requires
        can_decide(set_patterns(*set), path@),
    ensures
        r == excludes(set_patterns(*set), path@),
{
    if set_is_empty(set) {
        false
    } else if set_is_match(set, path) {
        true
    } else {
        match file_name(path) {
            Some(name) => set_is_match(set, name.as_str()),
            None => false,
        }
    }
}

/// How an archive's snapshots were located: by the archive's name or by
/// the directory that holds them.
#[derive(Debug, Clone)]
pub enum ArchiveNameOrDirPath {
    ArchiveName(String),
    DirPath(String),
}

impl ArchiveNameOrDirPath {
    /// A copy of the identification.
    pub fn duplicate(&self) -> (r: ArchiveNameOrDirPath)
        ensures
            r == *self,
    {
        match self {
            ArchiveNameOrDirPath::ArchiveName(n) => ArchiveNameOrDirPath::ArchiveName(n.clone()),
            ArchiveNameOrDirPath::DirPath(p) => ArchiveNameOrDirPath::DirPath(p.clone()),
        }
    }
}

/// The position, counted from the first listed, of the snapshot `n` back:
/// a negative `n` counts from the end of the list.
pub open spec fn back_n_index(len: int, n: int) -> int {
    if n < 0 {
        len + n
    } else {
        n
    }
}

/// The position of the snapshot `n` back in a list of `len`, when there
/// is one.
fn back_n(len: usize, n: i64) -> (r: Option<usize>)
    ensures
        match r {
            Some(i) => 0 <= back_n_index(len as int, n as int) < len && i == back_n_index(len as int, n as int),
            None => !(0 <= back_n_index(len as int, n as int) < len),
        },
{
    let len_wide = len as i128;
    let index: i128 = if n < 0 { len_wide + (n as i128) } else { n as i128 };
    if 0 <= index && index < len_wide {
        Some(index as usize)
    } else {
        None
    }
}

/// The directory that holds an archive's snapshots, with how it was
/// located.
#[derive(Debug)]
pub struct ArchiveSnapshotDir {
    id: ArchiveNameOrDirPath,
    dir_path: String,
}

impl ArchiveSnapshotDir {
    pub closed spec fn spec_id(&self) -> ArchiveNameOrDirPath {
        self.id
    }

    pub closed spec fn spec_dir_path(&self) -> Seq<char> {
        self.dir_path@
    }

    /// The snapshot directory at `dir_path` (canonical), located by `id`.
    pub fn new(id: ArchiveNameOrDirPath, dir_path: &str) -> (r: ArchiveSnapshotDir)
        ensures
            r.spec_id() == id,
            r.spec_dir_path() == dir_path@,
    {
        ArchiveSnapshotDir { id, dir_path: dir_path.to_owned() }
    }

    /// How the directory was located.
    pub fn id(&self) -> (r: &ArchiveNameOrDirPath)
        ensures
            *r == self.spec_id(),
    {
        &self.id
    }

    /// The directory's path.
    pub fn dir_path(&self) -> (r: &str)
        ensures
            r@ == self.spec_dir_path(),
    {
        self.dir_path.as_str()
    }

    /// The snapshot `n` back in the listing `snapshot_paths` (newest
    /// first): `n` counts from the newest, a negative `n` from the oldest.
    pub fn get_snapshot_path_back_n(&self, snapshot_paths: Result<Vec<String>, Error>, n: i64) -> (r: Result<String, Error>)
        ensures
            match snapshot_paths {
                Err(e) => r == Err::<String, Error>(e),
                Ok(ps) => if ps@.len() == 0 {
                    r == Err::<String, Error>(Error::ArchiveEmpty(self.spec_id()))
                } else if 0 <= back_n_index(ps@.len() as int, n as int) < ps@.len() {
                    r matches Ok(p) && p@ == ps@[back_n_index(ps@.len() as int, n as int)]@
                } else {
                    r == Err::<String, Error>(Error::SnapshotIndexOutOfRange(self.spec_id(), n))
                },
            },
    {
        let paths = match snapshot_paths {
            Ok(paths) => paths,
            Err(e) => return Err(e),
        };
        if paths.len() == 0 {
            return Err(Error::ArchiveEmpty(self.id.duplicate()));
        }
        match back_n(paths.len(), n) {
            Some(index) => Ok(paths[index].clone()),
            None => Err(Error::SnapshotIndexOutOfRange(self.id.duplicate(), n)),
        }
    }

    /// How many of the oldest snapshots of the listing `snapshot_paths`
    /// (oldest first) go so that the `newest_count` newest stay; keeping
    /// none is refused unless `clear_fell`.
    pub fn delete_all_but_newest(
        &self,
        snapshot_paths: Result<Vec<String>, Error>,
        newest_count: usize,
        clear_fell: bool,
    ) -> (r: Result<usize, Error>)
        ensures
            !clear_fell && newest_count == 0 ==> r == Err::<usize, Error>(Error::LastSnapshot(self.spec_id())),
            clear_fell || newest_count > 0 ==> match snapshot_paths {
                Err(e) => r == Err::<usize, Error>(e),
                Ok(ps) => if ps@.len() == 0 {
                    r == Err::<usize, Error>(Error::ArchiveEmpty(self.spec_id()))
                } else if ps@.len() <= newest_count {
                    r == Ok::<usize, Error>(0)
                } else {
                    r == Ok::<usize, Error>((ps@.len() - newest_count) as usize)
                },
            },
    {
        if !clear_fell && newest_count == 0 {
            return Err(Error::LastSnapshot(self.id.duplicate()));
        }
        let paths = match snapshot_paths {
            Ok(paths) => paths,
            Err(e) => return Err(e),
        };
        if paths.len() == 0 {
            return Err(Error::ArchiveEmpty(self.id.duplicate()));
        }
        if paths.len() <= newest_count {
            return Ok(0);
        }
        Ok(paths.len() - newest_count)
    }

    /// Which snapshot of the listing `snapshot_paths` (newest first) goes
    /// to delete the one `n` back: `None` when there is none that far
    /// back; deleting the only snapshot is refused unless `clear_fell`.
    pub fn delete_ss_back_n(&self, snapshot_paths: Result<Vec<String>, Error>, n: i64, clear_fell: bool) -> (r: Result<Option<usize>, Error>)
        ensures
            match snapshot_paths {
                Err(e) => r == Err::<Option<usize>, Error>(e),
                Ok(ps) => if ps@.len() == 0 {
                    r == Err::<Option<usize>, Error>(Error::ArchiveEmpty(self.spec_id()))
                } else if !(0 <= back_n_index(ps@.len() as int, n as int) < ps@.len()) {
                    r == Ok::<Option<usize>, Error>(None)
                } else if !clear_fell && ps@.len() == 1 {
                    r == Err::<Option<usize>, Error>(Error::LastSnapshot(self.spec_id()))
                } else {
                    r == Ok::<Option<usize>, Error>(Some(back_n_index(ps@.len() as int, n as int) as usize))
                },
            },
    {
        let paths = match snapshot_paths {
            Ok(paths) => paths,
            Err(e) => return Err(e),
        };
        if paths.len() == 0 {
            return Err(Error::ArchiveEmpty(self.id.duplicate()));
        }
        match back_n(paths.len(), n) {
            None => Ok(None),
            Some(index) => {
                if !clear_fell && paths.len() == 1 {
                    Err(Error::LastSnapshot(self.id.duplicate()))
                } else {
                    Ok(Some(index))
                }
            },
        }
    }
}

/// The path of the specification of the archive `archive_name`.
pub open spec fn spec_archive_spec_file_path(env: ConfigEnv, archive_name: Seq<char>) -> Seq<char> {
    spec_join(spec_join(spec_config_dir(env), "archives"@), archive_name)
}

/// The path of the specification of the archive `archive_name`.
pub fn get_archive_spec_file_path(env: &ConfigEnv, archive_name: &str) -> (r: String)
    requires
        config_known(*env),
    ensures
        r@ == spec_archive_spec_file_path(*env, archive_name@),
{
    join(get_archive_config_dir_path(env).as_str(), archive_name)
}

/// Checks that each pattern is a glob; the first that is not is reported.
pub fn validate_patterns(patterns: &Vec<String>) -> (r: Result<(), Error>)
    ensures
        r is Ok <==> all_parse(texts(patterns@)),
        r matches Err(e) ==> e is GlobError,
{
    let mut i: usize = 0;
    while i < patterns.len()
        invariant
            i <= patterns@.len(),
            all_parse(texts(patterns@).take(i as int)),
        decreases patterns@.len() - i,
    {
        match glob_new(patterns[i].as_str()) {
            Ok(_) => {
                assert(texts(patterns@).take(i + 1) =~= texts(patterns@).take(i as int).push(patterns@[i as int]@));
            },
            Err(err) => {
                assert(!glob_parses(texts(patterns@)[i as int]));
                return Err(Error::GlobError(err));
            },
        }
        i = i + 1;
    }
    assert(texts(patterns@).take(i as int) =~= texts(patterns@));
    Ok(())
}

/// The directory for the snapshots of a new archive `name` stored at
/// `location`: `ergibus/archives` there, then the host's and the user's
/// names where they are known, then the archive's name.
pub fn new_snapshot_dir_path(location: &str, host_name: Option<&str>, user_name: Option<&str>, name: &str) -> (r: String)
    ensures
        r@ == spec_join(
            {
                let base = spec_join(spec_join(location@, "ergibus"@), "archives"@);
                let with_host = match host_name {
                    Some(h) => spec_join(base, h@),
                    None => base,
                };
                match user_name {
                    Some(u) => spec_join(with_host, u@),
                    None => with_host,
                }
            },
            name@,
        ),
{
    let p = join(location, "ergibus");
    let mut p = join(p.as_str(), "archives");
    if let Some(h) = host_name {
        p = join(p.as_str(), h);
    }
    if let Some(u) = user_name {
        p = join(p.as_str(), u);
    }
    join(p.as_str(), name)
}

/// Whether the inclusion starts with the character `~`.
pub open spec fn home_relative(inclusion: Seq<char>) -> bool {
    inclusion.len() > 0 && inclusion[0] == '~'
}

/// What an inclusion of the archive stands for: a path starting with `~`
/// expanded, an absolute path itself; `None` for a relative path.
pub open spec fn spec_included(inclusion: Seq<char>, exists: bool, home_dir: Option<&str>) -> Option<Seq<char>> {
    if home_relative(inclusion) {
        spec_expand_home_dir(inclusion, exists, home_dir)
    } else if spec_is_absolute(inclusion) {
        Some(inclusion)
    } else {
        None
    }
}

/// The paths an archive includes, from the inclusions of its
/// specification. `exists` tells for each inclusion whether something
/// exists at it, taken as a relative path. Each inclusion that starts
/// with `~` must expand; a relative inclusion is refused.
pub fn resolve_inclusions(
    archive_name: &str,
    inclusions: &Vec<String>,
    exists: &Vec<bool>,
    home_dir: Option<&str>,
) -> (r: Result<Vec<String>, Error>)
    requires
        exists@.len() == inclusions@.len(),
        forall|i: int| 0 <= i < inclusions@.len() && home_relative(#[trigger] inclusions@[i]@)
            ==> spec_expand_home_dir(inclusions@[i]@, exists@[i], home_dir) is Some,
    ensures
        match r {
            Ok(v) => v@.len() == inclusions@.len() && forall|i: int| 0 <= i < inclusions@.len()
                ==> spec_included(#[trigger] inclusions@[i]@, exists@[i], home_dir) == Some(v@[i]@),
            Err(e) => exists|i: int| 0 <= i < inclusions@.len()
                && spec_included(#[trigger] inclusions@[i]@, exists@[i], home_dir) is None
                && (forall|j: int| 0 <= j < i ==> spec_included(#[trigger] inclusions@[j]@, exists@[j], home_dir) is Some)
                && (e matches Error::RelativeIncludePath(p, n) && p@ == inclusions@[i]@ && n@ == archive_name@),
        },
{
    let mut includes: Vec<String> = Vec::new();
    let mut i: usize = 0;
    while i < inclusions.len()
        invariant
            i <= inclusions@.len(),
            exists@.len() == inclusions@.len(),
            forall|k: int| 0 <= k < inclusions@.len() && home_relative(#[trigger] inclusions@[k]@)
                ==> spec_expand_home_dir(inclusions@[k]@, exists@[k], home_dir) is Some,
            includes@.len() == i,
            forall|k: int| 0 <= k < i ==> spec_included(#[trigger] inclusions@[k]@, exists@[k], home_dir) == Some(includes@[k]@),
        decreases inclusions@.len() - i,
    {
        let inclusion = inclusions[i].as_str();
        let starts_home = inclusion.unicode_len() > 0 && inclusion.get_char(0) == '~';
        let included = if starts_home {
            match expand_home_dir(inclusion, exists[i], home_dir) {
                Some(p) => p,
                None => inclusion.to_owned(),
            }
        } else {
            if !is_absolute(inclusion) {
                let ghost k = i as int;
                assert(spec_included(inclusions@[k]@, exists@[k], home_dir) is None);
                return Err(Error::RelativeIncludePath(inclusion.to_owned(), archive_name.to_owned()));
            }
            inclusion.to_owned()
        };
        includes.push(included);
        i = i + 1;
    }
    Ok(includes)
}

/// Whether a failure to record an inclusion is passed over while the
/// rest of the snapshot is made: the inclusion vanished or may not be
/// read.
pub fn is_benign_inclusion_error(err: &Error) -> (r: bool)
    ensures
        r == (*err matches Error::IOError(k) && (k == crate::errors::IoErrorKind::NotFound
            || k == crate::errors::IoErrorKind::PermissionDenied)),
{
    match err {
        Error::IOError(crate::errors::IoErrorKind::NotFound) => true,
        Error::IOError(crate::errors::IoErrorKind::PermissionDenied) => true,
        _ => false,
    }
}


/// Counting back 0 selects the newest snapshot and -1 the oldest; counting
/// back `n` from the newest and `len - n` from the oldest selects the same
/// one.
pub proof fn law_back_n_ends(len: int, n: int)
    requires
        len > 0,
        0 <= n < len,
    ensures
        back_n_index(len, 0) == 0,
        back_n_index(len, -1) == len - 1,
        back_n_index(len, n - len) == back_n_index(len, n),
{
}

/// A set of patterns that is not empty excludes every path it matches as
/// a whole and every path whose last name it matches; an empty set
/// excludes nothing; and, where the question can be decided, a path that
/// is excluded is one of these.
pub proof fn law_exclusion_by_match(patterns: Seq<Seq<char>>, path: Seq<char>)
    ensures
        patterns.len() > 0 && set_matches(patterns, path) ==> excludes(patterns, path),
        patterns.len() > 0 && spec_file_name(path) is Some && set_matches(patterns, spec_file_name(path)->Some_0)
            ==> excludes(patterns, path),
        patterns.len() == 0 ==> !excludes(patterns, path),
        can_decide(patterns, path) && excludes(patterns, path) ==> patterns.len() > 0 && (set_matches(patterns, path)
            || (spec_file_name(path) is Some && set_matches(patterns, spec_file_name(path)->Some_0))),
{
}

/// Exclusions made of no patterns exclude nothing.
pub proof fn law_no_patterns_exclude_nothing(path: Seq<char>)
    ensures
        !excludes(Seq::empty(), path),
        can_decide(Seq::empty(), path),
{
}


/// Where an extracted file or directory goes: into `into_dir_path`,
/// under `with_name` when it is given, else under its own name.
pub fn extraction_target(into_dir_path: &str, with_name: &Option<String>, path: &str) -> (r: String)
    requires
        with_name is Some || spec_file_name(path@) is Some,
    ensures
        r@ == match with_name {
            Some(w) => spec_join(into_dir_path@, w@),
            None => spec_join(into_dir_path@, spec_file_name(path@)->Some_0),
        },
{
    match with_name {
        Some(w) => join(into_dir_path, w.as_str()),
        None => match file_name(path) {
            Some(n) => join(into_dir_path, n.as_str()),
            None => String::new(),
        },
    }
}

/// Whether the first component of `path` is `~`.
pub open spec fn starts_with_home(path: Seq<char>) -> bool {
    path_components(path).len() > 0 && path_components(path)[0] == PathComponent::Normal(tilde())
}

/// The absolute path of what is to be extracted: a path starting with
/// `~` is expanded (`exists` tells whether something exists at it taken
/// as a relative path), others are made absolute against
/// `current_dir`.
pub fn extraction_source(path: &str, exists: bool, home_dir: Option<&str>, current_dir: &str) -> (r: String)
    requires
        starts_with_home(path@) ==> spec_expand_home_dir(path@, exists, home_dir) is Some,
    ensures
        starts_with_home(path@) ==> spec_expand_home_dir(path@, exists, home_dir) == Some(r@),
        !starts_with_home(path@) ==> r@ == spec_absolute_path_buf(path@, current_dir@),
{
    let comps = components(path);
    let home_first = if comps.len() > 0 {
        assert(path_components(path@)[0] == comps@[0]@);
        match &comps[0] {
            Component::Normal(n) => is_tilde(n.as_str()),
            _ => false,
        }
    } else {
        false
    };
    if home_first {
        match expand_home_dir(path, exists, home_dir) {
            Some(p) => p,
            None => String::new(),
        }
    } else {
        absolute_path_buf(path, current_dir)
    }
}

} // verus!
