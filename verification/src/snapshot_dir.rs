//! A tree of directories as seen when a snapshot is taken, searched and
//! extended by absolute path.

use vstd::prelude::*;
use crate::errors::IoErrorKind;
use crate::paths::{components, components_start_with, comps_have_prefix, comps_view, is_absolute, is_plain_name, join, path_components, spec_is_absolute, spec_join, Component, PathComponent, lemma_join_plain_name, lemma_components_plain};

verus! {

/// The mode bits of a file system object.
#[derive(Debug, Clone, Copy, PartialEq, Eq)]
pub struct Attributes {
    pub st_mode: u32,
}

impl Attributes {
    /// The attributes of an object with mode `st_mode`.
    pub fn new(st_mode: u32) -> (r: Attributes)
        ensures
            r.st_mode == st_mode,
    {
        Attributes { st_mode }
    }
}

/// A file in a snapshot directory.
#[derive(Debug, Clone, PartialEq, Eq)]
pub struct SnapshotFile {
    pub path: String,
    pub attributes: Attributes,
}

/// A symbolic link in a snapshot directory.
#[derive(Debug, Clone, PartialEq, Eq)]
pub struct SnapshotSymLink {
    pub path: String,
    pub attributes: Attributes,
}

/// A directory of a snapshot with its sub-directories, files and links,
/// each keyed by name.
#[derive(Debug)]
pub struct SnapshotDir {
    path: String,
    attributes: Attributes,
    subdirs: Vec<(String, SnapshotDir)>,
    files: Vec<(String, SnapshotFile)>,
    file_links: Vec<(String, SnapshotSymLink)>,
    subdir_links: Vec<(String, SnapshotSymLink)>,
}

/// The first sub-directory in `subs` called `name`.
pub open spec fn find_child(subs: Seq<(String, SnapshotDir)>, name: Seq<char>) -> Option<SnapshotDir>
    decreases subs.len(),
{
    if subs.len() == 0 {
        None
    } else if subs[0].0@ == name {
        Some(subs[0].1)
    } else {
        find_child(subs.drop_first(), name)
    }
}

/// The outcome of following a relative path of components down a tree.
pub enum Walk {
    Found(SnapshotDir),
    Missing,
    Malformed,
}

impl SnapshotDir {
    /// The directory's (absolute) path.
    pub closed spec fn spec_path(self) -> Seq<char> {
        self.path@
    }

    /// The directory's attributes.
    pub closed spec fn spec_attributes(self) -> Attributes {
        self.attributes
    }

    /// The named sub-directories.
    pub closed spec fn spec_subdirs(self) -> Seq<(String, SnapshotDir)> {
        self.subdirs@
    }

    /// Follows `rest`, one name per level: a missing name ends the walk,
    /// a component that is not a name makes the path malformed.
    pub open spec fn walk(self, rest: Seq<PathComponent>) -> Walk
        decreases rest.len(),
    {
        if rest.len() == 0 {
            Walk::Found(self)
        } else {
            match rest[0] {
                PathComponent::Normal(n) => match find_child(self.spec_subdirs(), n) {
                    Some(c) => c.walk(rest.drop_first()),
                    None => Walk::Missing,
                },
                _ => Walk::Malformed,
            }
        }
    }

    /// The tree is consistent: paths are absolute, each sub-directory's
    /// path is its parent's path followed by its name, and names are
    /// single plain names.
    pub open spec fn wf(self) -> bool
        decreases self,
    {
        &&& spec_is_absolute(self.spec_path())
        &&& forall|i: int| 0 <= i < self.spec_subdirs().len() ==> {
            let (n, c) = #[trigger] self.spec_subdirs()[i];
            &&& is_plain_name(n@)
            &&& path_components(c.spec_path()) == path_components(self.spec_path()).push(PathComponent::Normal(n@))
            &&& c.wf()
        }
    }
}


/// The components of `abs` below those of `base`.
pub open spec fn rest_below(abs: Seq<char>, base: Seq<char>) -> Seq<PathComponent> {
    path_components(abs).skip(path_components(base).len() as int)
}

/// Whether `abs` lies at or below `base`, component by component.
pub open spec fn lies_below(abs: Seq<char>, base: Seq<char>) -> bool {
    comps_have_prefix(path_components(abs), path_components(base))
}

/// The position of the first entry of `subs` at which `find_child` stops.
proof fn lemma_find_child_at(subs: Seq<(String, SnapshotDir)>, name: Seq<char>, i: int)
    requires
        0 <= i < subs.len(),
        subs[i].0@ == name,
        forall|j: int| 0 <= j < i ==> subs[j].0@ != name,
    ensures
        find_child(subs, name) == Some(subs[i].1),
    decreases i,
{
    if i > 0 {
        lemma_find_child_at(subs.drop_first(), name, i - 1);
    }
}

proof fn lemma_find_child_none_names(subs: Seq<(String, SnapshotDir)>, name: Seq<char>)
    requires
        find_child(subs, name) is None,
    ensures
        forall|j: int| 0 <= j < subs.len() ==> subs[j].0@ != name,
    decreases subs.len(),
{
    if subs.len() > 0 {
        lemma_find_child_none_names(subs.drop_first(), name);
        assert forall|j: int| 0 <= j < subs.len() implies subs[j].0@ != name by {
            if j > 0 {
                assert(subs[j] == subs.drop_first()[j - 1]);
            }
        }
    }
}

proof fn lemma_find_child_none(subs: Seq<(String, SnapshotDir)>, name: Seq<char>)
    requires
        forall|j: int| 0 <= j < subs.len() ==> subs[j].0@ != name,
    ensures
        find_child(subs, name) is None,
    decreases subs.len(),
{
    if subs.len() > 0 {
        lemma_find_child_none(subs.drop_first(), name);
    }
}

impl SnapshotDir {
    /// An empty directory at `path` (an absolute, canonical path) with the
    /// given mode.
    pub fn new_empty(path: &str, st_mode: u32) -> (r: SnapshotDir)
        requires
            spec_is_absolute(path@),
        ensures
            r.wf(),
            r.spec_path() == path@,
            r.spec_attributes().st_mode == st_mode,
            r.spec_subdirs().len() == 0,
            r.spec_files().len() == 0,
            r.spec_file_links().len() == 0,
            r.spec_subdir_links().len() == 0,
    {
        SnapshotDir {
            path: path.to_owned(),
            attributes: Attributes::new(st_mode),
            subdirs: Vec::new(),
            files: Vec::new(),
            file_links: Vec::new(),
            subdir_links: Vec::new(),
        }
    }

    /// The directory's path.
    pub fn path(&self) -> (r: &str)
        ensures
            r@ == self.spec_path(),
    {
        self.path.as_str()
    }

    /// The directory's attributes.
    pub fn attributes(&self) -> (r: Attributes)
        ensures
            r == self.spec_attributes(),
    {
        self.attributes
    }

    /// The position of the first sub-directory called `name`.
    fn child_index(&self, name: &str) -> (r: Option<usize>)
        ensures
            match r {
                Some(i) => i < self.spec_subdirs().len() && self.spec_subdirs()[i as int].0@ == name@
                    && find_child(self.spec_subdirs(), name@) == Some(self.spec_subdirs()[i as int].1)
                    && forall|j: int| 0 <= j < i ==> self.spec_subdirs()[j].0@ != name@,
                None => find_child(self.spec_subdirs(), name@) is None,
            },
    {
        let mut i: usize = 0;
        while i < self.subdirs.len()
            invariant
                i <= self.spec_subdirs().len(),
                forall|j: int| 0 <= j < i ==> self.spec_subdirs()[j].0@ != name@,
            decreases self.spec_subdirs().len() - i,
        {
            if String::eq(&self.subdirs[i].0, &name.to_owned()) {
                proof { lemma_find_child_at(self.spec_subdirs(), name@, i as int); }
                return Some(i);
            }
            i = i + 1;
        }
        proof { lemma_find_child_none(self.spec_subdirs(), name@); }
        None
    }

    /// The directory at `abs_subdir_path`, which must be absolute; `None`
    /// when the path does not lie below this directory or names a missing
    /// directory.
    pub fn find_subdir(&self, abs_subdir_path: &str) -> (r: Option<&SnapshotDir>)
        requires
            self.wf(),
            spec_is_absolute(abs_subdir_path@),
            lies_below(abs_subdir_path@, self.spec_path()) ==>
                !(self.walk(rest_below(abs_subdir_path@, self.spec_path())) is Malformed),
        ensures
            match r {
                Some(d) => lies_below(abs_subdir_path@, self.spec_path())
                    && self.walk(rest_below(abs_subdir_path@, self.spec_path())) == Walk::Found(*d),
                None => !lies_below(abs_subdir_path@, self.spec_path())
                    || self.walk(rest_below(abs_subdir_path@, self.spec_path())) is Missing,
            },
            r matches Some(d) ==> path_components(d.spec_path()) == path_components(abs_subdir_path@),
        decreases path_components(abs_subdir_path@).len() - path_components(self.spec_path()).len(),
    {
        proof {
            if lies_below(abs_subdir_path@, self.spec_path())
                && self.walk(rest_below(abs_subdir_path@, self.spec_path())) is Found {
                law_snapshot_found_path(*self, abs_subdir_path@);
            }
        }
        let comps = components(abs_subdir_path);
        let base = components(self.path.as_str());
        if !components_start_with(&comps, &base) {
            return None;
        }
        let ghost rest = rest_below(abs_subdir_path@, self.spec_path());
        if comps.len() == base.len() {
            assert(rest.len() == 0);
            return Some(self);
        }
        let b = base.len();
        assert(rest[0] == comps_view(comps@)[b as int]);
        match &comps[b] {
            Component::Normal(name) => {
                match self.child_index(name.as_str()) {
                    Some(i) => {
                        let child = &self.subdirs[i].1;
                        proof {
                            let pa = path_components(abs_subdir_path@);
                            let pb = path_components(self.spec_path());
                            let (n, c) = self.spec_subdirs()[i as int];
                            assert(path_components(c.spec_path()) == pb.push(PathComponent::Normal(n@)));
                            assert(pa.take(b + 1) =~= pb.push(PathComponent::Normal(n@)));
                            assert(rest_below(abs_subdir_path@, c.spec_path()) =~= rest.drop_first());
                        }
                        child.find_subdir(abs_subdir_path)
                    },
                    None => None,
                }
            },
            _ => None,
        }
    }
}


/// Two directories agree on their path, their attributes and the files
/// and links they record; only their sub-directories may differ.
pub open spec fn same_dir(a: SnapshotDir, b: SnapshotDir) -> bool {
    &&& a.spec_path() == b.spec_path()
    &&& a.spec_attributes() == b.spec_attributes()
    &&& a.spec_files() == b.spec_files()
    &&& a.spec_file_links() == b.spec_file_links()
    &&& a.spec_subdir_links() == b.spec_subdir_links()
}

/// Every directory found in `old` is still found in `new`, with the same
/// path, attributes, files and links.
pub open spec fn keeps(old: SnapshotDir, new: SnapshotDir) -> bool {
    forall|q: Seq<PathComponent>| #[trigger] old.walk(q) is Found ==> {
        &&& new.walk(q) is Found
        &&& same_dir(old.walk(q)->Found_0, new.walk(q)->Found_0)
    }
}

/// `q` is a leading part of `rest`.
pub open spec fn leads(q: Seq<PathComponent>, rest: Seq<PathComponent>) -> bool {
    q.len() <= rest.len() && rest.take(q.len() as int) == q
}

/// Every directory found in `new` but not in `old` lies on the way down
/// `rest`.
pub open spec fn grows_along(old: SnapshotDir, new: SnapshotDir, rest: Seq<PathComponent>) -> bool {
    forall|q: Seq<PathComponent>| #[trigger] new.walk(q) is Found ==> old.walk(q) is Found || leads(q, rest)
}

proof fn lemma_find_child_update(subs: Seq<(String, SnapshotDir)>, idx: int, c: SnapshotDir, m: Seq<char>)
    requires
        0 <= idx < subs.len(),
        find_child(subs, subs[idx].0@) == Some(subs[idx].1),
        forall|j: int| 0 <= j < idx ==> subs[j].0@ != subs[idx].0@,
    ensures
        find_child(subs.update(idx, (subs[idx].0, c)), m) == if m == subs[idx].0@ {
            Some(c)
        } else {
            find_child(subs, m)
        },
    decreases idx,
{
    let nsubs = subs.update(idx, (subs[idx].0, c));
    if idx == 0 {
        assert(nsubs.drop_first() =~= subs.drop_first());
    } else {
        if subs[0].0@ != m {
            assert(nsubs.drop_first() =~= subs.drop_first().update(idx - 1, (subs[idx].0, c)));
            lemma_find_child_update(subs.drop_first(), idx - 1, c, m);
            if m != subs[idx].0@ {
            }
        }
        if m == subs[idx].0@ {
            assert(subs[0].0@ != m);
        }
    }
}

proof fn lemma_find_child_push(subs: Seq<(String, SnapshotDir)>, n: String, c: SnapshotDir, m: Seq<char>)
    requires
        find_child(subs, n@) is None,
    ensures
        find_child(subs.push((n, c)), m) == if m == n@ {
            Some(c)
        } else {
            find_child(subs, m)
        },
    decreases subs.len(),
{
    if subs.len() == 0 {
        assert(subs.push((n, c)).drop_first() =~= Seq::<(String, SnapshotDir)>::empty());
    } else {
        assert(subs.push((n, c)).drop_first() =~= subs.drop_first().push((n, c)));
        if subs[0].0@ != m {
            lemma_find_child_push(subs.drop_first(), n, c, m);
        }
    }
}

impl SnapshotDir {
    /// Names of sub-directories are distinct, at every level.
    pub open spec fn names_distinct_tree(self) -> bool
        decreases self,
    {
        &&& forall|a: int, b: int| 0 <= a < b < self.spec_subdirs().len()
            ==> self.spec_subdirs()[a].0@ != self.spec_subdirs()[b].0@
        &&& forall|i: int| 0 <= i < self.spec_subdirs().len() ==> (#[trigger] self.spec_subdirs()[i]).1.names_distinct_tree()
    }
}

proof fn lemma_walk_empty(d: SnapshotDir, q: Seq<PathComponent>)
    requires
        d.spec_subdirs().len() == 0,
        d.walk(q) is Found,
    ensures
        q.len() == 0,
{
    if q.len() > 0 {
        assert(find_child(d.spec_subdirs(), q[0]->Normal_0) is None);
    }
}

/// Replacing the sub-directory at `idx` by one that keeps and grows only
/// along `rest.drop_first()` keeps the parent and grows it only along
/// `rest`.
proof fn lemma_replace_child(
    old: SnapshotDir,
    new: SnapshotDir,
    idx: int,
    c_old: SnapshotDir,
    c_new: SnapshotDir,
    rest: Seq<PathComponent>,
)
    requires
        0 <= idx < old.spec_subdirs().len(),
        rest.len() > 0,
        rest[0] == PathComponent::Normal(old.spec_subdirs()[idx].0@),
        c_old == old.spec_subdirs()[idx].1,
        find_child(old.spec_subdirs(), old.spec_subdirs()[idx].0@) == Some(c_old),
        forall|j: int| 0 <= j < idx ==> old.spec_subdirs()[j].0@ != old.spec_subdirs()[idx].0@,
        new.spec_subdirs() == old.spec_subdirs().update(idx, (old.spec_subdirs()[idx].0, c_new)),
        same_dir(old, new),
        keeps(c_old, c_new),
        grows_along(c_old, c_new, rest.drop_first()),
    ensures
        keeps(old, new),
        grows_along(old, new, rest),
{
    let name = old.spec_subdirs()[idx].0@;
    assert forall|q: Seq<PathComponent>| #[trigger] old.walk(q) is Found implies new.walk(q) is Found
        && same_dir(old.walk(q)->Found_0, new.walk(q)->Found_0) by {
        if q.len() > 0 {
            let m = q[0]->Normal_0;
            lemma_find_child_update(old.spec_subdirs(), idx, c_new, m);
            if m == name {
                assert(old.walk(q) == c_old.walk(q.drop_first()));
                assert(c_old.walk(q.drop_first()) is Found);
            }
        }
    }
    assert forall|q: Seq<PathComponent>| #[trigger] new.walk(q) is Found implies old.walk(q) is Found
        || leads(q, rest) by {
        if q.len() > 0 {
            let m = q[0]->Normal_0;
            lemma_find_child_update(old.spec_subdirs(), idx, c_new, m);
            if m == name {
                assert(new.walk(q) == c_new.walk(q.drop_first()));
                assert(c_new.walk(q.drop_first()) is Found);
                if !(c_old.walk(q.drop_first()) is Found) {
                    assert(leads(q.drop_first(), rest.drop_first()));
                    assert(rest.take(q.len() as int) =~= seq![rest[0]] + rest.drop_first().take(q.len() - 1));
                    assert(q =~= seq![q[0]] + q.drop_first());
                }
            }
        } else {
            assert(rest.take(0) =~= q);
        }
    }
}

/// Every directory that `new` records and `old` does not was added for a
/// call of `stat`: its path is its parent's path joined with its name, and
/// `stat`, called with that path, gave its mode.
pub open spec fn stat_made<F: Fn(&str) -> Result<u32, IoErrorKind>>(old: SnapshotDir, new: SnapshotDir, stat: F) -> bool {
    forall|q: Seq<PathComponent>| #[trigger] new.walk(q) is Found && !(old.walk(q) is Found) ==> {
        &&& q.len() > 0
        &&& q.last() is Normal
        &&& new.walk(q.drop_last()) is Found
        &&& (new.walk(q)->Found_0).spec_path()
            == spec_join((new.walk(q.drop_last())->Found_0).spec_path(), q.last()->Normal_0)
        &&& exists|p: &str| p@ == (new.walk(q)->Found_0).spec_path()
            && #[trigger] stat.ensures((p,), Ok::<u32, IoErrorKind>((new.walk(q)->Found_0).spec_attributes().st_mode))
    }
}

/// `p` is the path of a directory on the way down `rest` from `d` that
/// `d` does not record.
pub open spec fn missing_along(d: SnapshotDir, p: Seq<char>, rest: Seq<PathComponent>) -> bool {
    &&& lies_below(p, d.spec_path())
    &&& rest_below(p, d.spec_path()).len() > 0
    &&& leads(rest_below(p, d.spec_path()), rest)
    &&& !(d.walk(rest_below(p, d.spec_path())) is Found)
}

/// Adding an empty sub-directory, made for a call of `stat` on its path,
/// adds only that directory.
proof fn lemma_add_stat_made<F: Fn(&str) -> Result<u32, IoErrorKind>>(
    p: SnapshotDir,
    q: SnapshotDir,
    n: String,
    c: SnapshotDir,
    stat: F,
    cp: &str,
)
    requires
        find_child(p.spec_subdirs(), n@) is None,
        q.spec_subdirs() == p.spec_subdirs().push((n, c)),
        c.spec_subdirs().len() == 0,
        c.spec_path() == spec_join(p.spec_path(), n@),
        q.spec_path() == p.spec_path(),
        cp@ == c.spec_path(),
        stat.ensures((cp,), Ok::<u32, IoErrorKind>(c.spec_attributes().st_mode)),
    ensures
        stat_made(p, q, stat),
{
    assert forall|w: Seq<PathComponent>| #[trigger] q.walk(w) is Found && !(p.walk(w) is Found) implies {
        &&& w.len() > 0
        &&& w.last() is Normal
        &&& q.walk(w.drop_last()) is Found
        &&& (q.walk(w)->Found_0).spec_path()
            == spec_join((q.walk(w.drop_last())->Found_0).spec_path(), w.last()->Normal_0)
        &&& exists|pp: &str| pp@ == (q.walk(w)->Found_0).spec_path()
            && #[trigger] stat.ensures((pp,), Ok::<u32, IoErrorKind>((q.walk(w)->Found_0).spec_attributes().st_mode))
    } by {
        assert(w.len() > 0);
        let m = w[0]->Normal_0;
        lemma_find_child_push(p.spec_subdirs(), n, c, m);
        if m != n@ {
            assert(q.walk(w) == p.walk(w));
        }
        assert(q.walk(w) == c.walk(w.drop_first()));
        lemma_walk_empty(c, w.drop_first());
        assert(w.drop_last() =~= Seq::<PathComponent>::empty());
        assert(w.last() == w[0]);
        assert(q.walk(w) == Walk::Found(c));
    }
}

/// Putting a sub-directory grown by calls of `stat` in place of the one
/// at `idx` grows the parent only by those calls.
proof fn lemma_replace_stat_made<F: Fn(&str) -> Result<u32, IoErrorKind>>(
    old: SnapshotDir,
    new: SnapshotDir,
    idx: int,
    c_old: SnapshotDir,
    c_new: SnapshotDir,
    stat: F,
)
    requires
        0 <= idx < old.spec_subdirs().len(),
        c_old == old.spec_subdirs()[idx].1,
        find_child(old.spec_subdirs(), old.spec_subdirs()[idx].0@) == Some(c_old),
        forall|j: int| 0 <= j < idx ==> old.spec_subdirs()[j].0@ != old.spec_subdirs()[idx].0@,
        new.spec_subdirs() == old.spec_subdirs().update(idx, (old.spec_subdirs()[idx].0, c_new)),
        stat_made(c_old, c_new, stat),
    ensures
        stat_made(old, new, stat),
{
    let name = old.spec_subdirs()[idx].0@;
    assert forall|w: Seq<PathComponent>| #[trigger] new.walk(w) is Found && !(old.walk(w) is Found) implies {
        &&& w.len() > 0
        &&& w.last() is Normal
        &&& new.walk(w.drop_last()) is Found
        &&& (new.walk(w)->Found_0).spec_path()
            == spec_join((new.walk(w.drop_last())->Found_0).spec_path(), w.last()->Normal_0)
        &&& exists|pp: &str| pp@ == (new.walk(w)->Found_0).spec_path()
            && #[trigger] stat.ensures((pp,), Ok::<u32, IoErrorKind>((new.walk(w)->Found_0).spec_attributes().st_mode))
    } by {
        assert(w.len() > 0);
        let m = w[0]->Normal_0;
        lemma_find_child_update(old.spec_subdirs(), idx, c_new, m);
        if m != name {
            assert(new.walk(w) == old.walk(w));
        }
        let w2 = w.drop_first();
        assert(new.walk(w) == c_new.walk(w2));
        assert(old.walk(w) == c_old.walk(w2));
        assert(w2.len() > 0);
        assert(w.last() == w2.last());
        let wd = w.drop_last();
        assert(wd.len() > 0 && wd[0] == w[0]);
        assert(wd.drop_first() =~= w2.drop_last());
        assert(new.walk(wd) == c_new.walk(w2.drop_last()));
    }
}

/// A directory missing below a sub-directory is missing below its parent,
/// when the sub-directory is the one the parent records under its name or
/// the parent records none under that name.
proof fn lemma_missing_lifts(before: SnapshotDir, c: SnapshotDir, name: Seq<char>, p: Seq<char>, rest: Seq<PathComponent>)
    requires
        path_components(c.spec_path()) == path_components(before.spec_path()).push(PathComponent::Normal(name)),
        rest.len() > 0,
        rest[0] == PathComponent::Normal(name),
        missing_along(c, p, rest.drop_first()),
        find_child(before.spec_subdirs(), name) is None || find_child(before.spec_subdirs(), name) == Some(c),
    ensures
        missing_along(before, p, rest),
{
    let pb = path_components(before.spec_path());
    let pc = path_components(c.spec_path());
    let pp = path_components(p);
    let r1 = pp.skip(pc.len() as int);
    assert(pp.take(pc.len() as int) == pc);
    assert(pp.take(pb.len() as int) =~= pb) by {
        assert(pp.take(pb.len() as int) =~= pp.take(pc.len() as int).take(pb.len() as int));
    }
    let w = pp.skip(pb.len() as int);
    assert(w =~= seq![PathComponent::Normal(name)] + r1) by {
        assert(pp[pb.len() as int] == pc[pb.len() as int]);
    }
    assert(w.drop_first() =~= r1);
    assert(rest.drop_first().take(r1.len() as int) == r1);
    assert(rest.take(w.len() as int) =~= w) by {
        assert(rest.take(w.len() as int) =~= seq![rest[0]] + rest.drop_first().take(r1.len() as int));
    }
    assert(w[0] == PathComponent::Normal(name));
}

/// Growing by calls of `stat` carries over from one change to the next.
proof fn lemma_stat_made_trans<F: Fn(&str) -> Result<u32, IoErrorKind>>(a: SnapshotDir, b: SnapshotDir, c: SnapshotDir, stat: F)
    requires
        stat_made(a, b, stat),
        stat_made(b, c, stat),
        keeps(b, c),
    ensures
        stat_made(a, c, stat),
{
    assert forall|w: Seq<PathComponent>| #[trigger] c.walk(w) is Found && !(a.walk(w) is Found) implies {
        &&& w.len() > 0
        &&& w.last() is Normal
        &&& c.walk(w.drop_last()) is Found
        &&& (c.walk(w)->Found_0).spec_path()
            == spec_join((c.walk(w.drop_last())->Found_0).spec_path(), w.last()->Normal_0)
        &&& exists|pp: &str| pp@ == (c.walk(w)->Found_0).spec_path()
            && #[trigger] stat.ensures((pp,), Ok::<u32, IoErrorKind>((c.walk(w)->Found_0).spec_attributes().st_mode))
    } by {
        if b.walk(w) is Found {
            assert(b.walk(w.drop_last()) is Found);
            assert(c.walk(w.drop_last()) is Found);
        }
    }
}

/// A walk down names only is never malformed.
proof fn lemma_walk_all_normal(d: SnapshotDir, q: Seq<PathComponent>)
    requires
        forall|j: int| 0 <= j < q.len() ==> (#[trigger] q[j]) is Normal,
    ensures
        !(d.walk(q) is Malformed),
    decreases q.len(),
{
    if q.len() > 0 {
        assert(q[0] is Normal);
        match find_child(d.spec_subdirs(), q[0]->Normal_0) {
            Some(c) => {
                assert forall|j: int| 0 <= j < q.drop_first().len() implies (#[trigger] q.drop_first()[j]) is Normal by {
                    assert(q.drop_first()[j] == q[j + 1]);
                }
                lemma_walk_all_normal(c, q.drop_first());
            },
            None => {},
        }
    }
}

impl SnapshotDir {
    /// The directory at `abs_subdir_path`, adding the missing directories
    /// on the way down. The mode of each added directory is found by
    /// calling `stat` with its path; when a call fails its error is handed
    /// back and the directories added above it stay.
    fn ensure_path<F: Fn(&str) -> Result<u32, IoErrorKind>>(
        &mut self,
        abs_subdir_path: &str,
        stat: &F,
    ) -> (r: Result<(), IoErrorKind>)
        requires
            old(self).wf(),
            old(self).names_distinct_tree(),
            spec_is_absolute(abs_subdir_path@),
            lies_below(abs_subdir_path@, old(self).spec_path()),
            forall|j: int| 0 <= j < rest_below(abs_subdir_path@, old(self).spec_path()).len()
                ==> (#[trigger] rest_below(abs_subdir_path@, old(self).spec_path())[j]) is Normal,
            forall|p: &str| stat.requires((p,)),
        ensures
            final(self).wf(),
            final(self).names_distinct_tree(),
            same_dir(*old(self), *final(self)),
            keeps(*old(self), *final(self)),
            grows_along(*old(self), *final(self), rest_below(abs_subdir_path@, old(self).spec_path())),
            r is Ok ==> final(self).walk(rest_below(abs_subdir_path@, old(self).spec_path())) is Found,
            stat_made(*old(self), *final(self), *stat),
            r matches Err(e) ==> exists|p: &str| #[trigger] stat.ensures((p,), Err::<u32, IoErrorKind>(e))
                && missing_along(*old(self), p@, rest_below(abs_subdir_path@, old(self).spec_path())),
        decreases path_components(abs_subdir_path@).len() - path_components(old(self).spec_path()).len(),
    {
        let ghost rest = rest_below(abs_subdir_path@, self.spec_path());
        let comps = components(abs_subdir_path);
        let base = components(self.path.as_str());
        let b = base.len();
        proof {
            lemma_components_plain(abs_subdir_path@);
            assert(keeps(*old(self), *old(self)));
            assert(grows_along(*old(self), *old(self), rest));
            assert(stat_made(*old(self), *old(self), *stat));
        }
        if comps.len() == b {
            assert(rest.len() == 0);
            return Ok(());
        }
        assert(rest[0] == comps_view(comps@)[b as int]);
        assert(rest[0] is Normal);
        let name: String = match &comps[b] {
            Component::Normal(n) => n.clone(),
            _ => { return Ok(()); },
        };
        assert(is_plain_name(name@)) by {
            assert(path_components(abs_subdir_path@)[b as int] == rest[0]);
        }
        let ghost before = *self;
        let idx = match self.child_index(name.as_str()) {
            Some(i) => i,
            None => {
                let child_path = join(self.path.as_str(), name.as_str());
                proof { lemma_join_plain_name(self.spec_path(), name@); }
                let cp = child_path.as_str();
                let mode = match stat(cp) {
                    Ok(m) => m,
                    Err(e) => {
                        proof {
                            let pb = path_components(before.spec_path());
                            let w = rest_below(cp@, before.spec_path());
                            assert(path_components(cp@).take(pb.len() as int) =~= pb);
                            assert(w =~= seq![PathComponent::Normal(name@)]);
                            assert(rest.take(1) =~= w);
                            assert(before.walk(w) is Missing);
                        }
                        return Err(e);
                    },
                };
                let child = SnapshotDir::new_empty(child_path.as_str(), mode);
                let ghost c = child;
                self.subdirs.push((name.clone(), child));
                proof {
                    let ns = before.spec_subdirs().push((name, c));
                    assert(self.spec_subdirs() =~= ns);
                    lemma_add_stat_made(before, *self, name, c, *stat, cp);
                    assert forall|q: Seq<PathComponent>| #[trigger] before.walk(q) is Found implies self.walk(q) is Found
                        && same_dir(before.walk(q)->Found_0, self.walk(q)->Found_0) by {
                        if q.len() > 0 {
                            lemma_find_child_push(before.spec_subdirs(), name, c, q[0]->Normal_0);
                        }
                    }
                    assert forall|q: Seq<PathComponent>| #[trigger] self.walk(q) is Found implies before.walk(q) is Found
                        || leads(q, rest) by {
                        if q.len() > 0 {
                            lemma_find_child_push(before.spec_subdirs(), name, c, q[0]->Normal_0);
                            if q[0]->Normal_0 == name@ {
                                lemma_walk_empty(c, q.drop_first());
                                assert(rest.take(1) =~= q);
                            }
                        } else {
                            assert(rest.take(0) =~= q);
                        }
                    }
                    lemma_find_child_push(before.spec_subdirs(), name, c, name@);
                    lemma_find_child_none_names(before.spec_subdirs(), name@);
                    assert(c.names_distinct_tree());
                    assert(before.names_distinct_tree());
                    assert forall|a: int, bb: int| 0 <= a < bb < self.spec_subdirs().len()
                        implies self.spec_subdirs()[a].0@ != self.spec_subdirs()[bb].0@ by {
                        if bb < before.spec_subdirs().len() {
                            assert(self.spec_subdirs()[a] == before.spec_subdirs()[a]);
                            assert(self.spec_subdirs()[bb] == before.spec_subdirs()[bb]);
                        } else {
                            assert(self.spec_subdirs()[a] == before.spec_subdirs()[a]);
                        }
                    }
                    assert forall|i: int| 0 <= i < self.spec_subdirs().len()
                        implies (#[trigger] self.spec_subdirs()[i]).1.names_distinct_tree() by {
                        if i < before.spec_subdirs().len() {
                            assert(self.spec_subdirs()[i] == before.spec_subdirs()[i]);
                        }
                    }
                    assert(self.names_distinct_tree());
                }
                self.subdirs.len() - 1
            },
        };
        let ghost mid = *self;
        let ghost c_mid = mid.spec_subdirs()[idx as int].1;
        proof {
            assert(keeps(before, mid));
            assert(grows_along(before, mid, rest));
            assert(find_child(mid.spec_subdirs(), name@) == Some(c_mid));
            assert(mid.spec_subdirs()[idx as int].0@ == name@);
            let pa = path_components(abs_subdir_path@);
            let pb = path_components(self.spec_path());
            assert(path_components(c_mid.spec_path()) == pb.push(PathComponent::Normal(name@)));
            assert(pa.take(b + 1) =~= pb.push(PathComponent::Normal(name@)));
            assert(rest_below(abs_subdir_path@, c_mid.spec_path()) =~= rest.drop_first());
            assert(c_mid.wf());
            assert(c_mid.names_distinct_tree());
            assert(stat_made(before, mid, *stat));
            assert(find_child(before.spec_subdirs(), name@) is None || find_child(before.spec_subdirs(), name@) == Some(c_mid));
        }
        let pair = &mut self.subdirs[idx];
        let child = &mut pair.1;
        let r = child.ensure_path(abs_subdir_path, stat);
        proof {
            let fin = *self;
            assert(fin.spec_subdirs() == mid.spec_subdirs().update(idx as int, (mid.spec_subdirs()[idx as int].0, fin.spec_subdirs()[idx as int].1)));
            let c_fin = fin.spec_subdirs()[idx as int].1;
            lemma_replace_child(mid, fin, idx as int, c_mid, c_fin, rest);
            lemma_replace_stat_made(mid, fin, idx as int, c_mid, c_fin, *stat);
            lemma_stat_made_trans(before, mid, fin, *stat);
            if let Err(e) = r {
                let p = choose|p: &str| #[trigger] stat.ensures((p,), Err::<u32, IoErrorKind>(e))
                    && missing_along(c_mid, p@, rest.drop_first());
                lemma_missing_lifts(before, c_mid, name@, p@, rest);
            }
            assert(keeps(before, fin)) by {
                assert forall|q: Seq<PathComponent>| #[trigger] before.walk(q) is Found implies fin.walk(q) is Found
                    && same_dir(before.walk(q)->Found_0, fin.walk(q)->Found_0) by {
                    assert(mid.walk(q) is Found);
                }
            }
            assert(grows_along(before, fin, rest)) by {
                assert forall|q: Seq<PathComponent>| #[trigger] fin.walk(q) is Found implies before.walk(q) is Found
                    || leads(q, rest) by {
                    if !leads(q, rest) {
                        assert(mid.walk(q) is Found);
                    }
                }
            }
            assert forall|i: int| 0 <= i < fin.spec_subdirs().len() implies {
                let (n, c) = #[trigger] fin.spec_subdirs()[i];
                &&& is_plain_name(n@)
                &&& path_components(c.spec_path()) == path_components(fin.spec_path()).push(PathComponent::Normal(n@))
                &&& c.wf()
            } by {
                if i != idx {
                    assert(fin.spec_subdirs()[i] == mid.spec_subdirs()[i]);
                }
            }
            assert(fin.wf());
            assert(fin.names_distinct_tree()) by {
                assert forall|i: int| 0 <= i < fin.spec_subdirs().len() implies (#[trigger] fin.spec_subdirs()[i]).1.names_distinct_tree() by {
                    if i != idx {
                        assert(fin.spec_subdirs()[i] == mid.spec_subdirs()[i]);
                    }
                }
            }
            if r is Ok {
                lemma_find_child_update(mid.spec_subdirs(), idx as int, c_fin, name@);
            }
        }
        r
    }

    /// The directory at `abs_subdir_path`, adding the missing directories
    /// on the way down. When the path is recorded already nothing changes
    /// and `stat` is not called. The mode of each added directory is found
    /// by calling `stat` with its path (its parent's path joined with its
    /// name); when a call fails its error is handed back and the
    /// directories added above it stay.
    pub fn find_or_add_subdir<F: Fn(&str) -> Result<u32, IoErrorKind>>(
        &mut self,
        abs_subdir_path: &str,
        stat: &F,
    ) -> (r: Result<&SnapshotDir, IoErrorKind>)
        requires
            old(self).wf(),
            old(self).names_distinct_tree(),
            spec_is_absolute(abs_subdir_path@),
            lies_below(abs_subdir_path@, old(self).spec_path()),
            forall|j: int| 0 <= j < rest_below(abs_subdir_path@, old(self).spec_path()).len()
                ==> (#[trigger] rest_below(abs_subdir_path@, old(self).spec_path())[j]) is Normal,
            forall|p: &str| stat.requires((p,)),
        ensures
            final(self).wf(),
            final(self).names_distinct_tree(),
            same_dir(*old(self), *final(self)),
            keeps(*old(self), *final(self)),
            grows_along(*old(self), *final(self), rest_below(abs_subdir_path@, old(self).spec_path())),
            stat_made(*old(self), *final(self), *stat),
            old(self).walk(rest_below(abs_subdir_path@, old(self).spec_path())) is Found
                ==> r is Ok && *final(self) == *old(self),
            r matches Ok(d) ==> final(self).walk(rest_below(abs_subdir_path@, old(self).spec_path()))
                == Walk::Found(*d),
            r matches Ok(d) ==> path_components(d.spec_path()) == path_components(abs_subdir_path@),
            r matches Err(e) ==> exists|p: &str| #[trigger] stat.ensures((p,), Err::<u32, IoErrorKind>(e))
                && missing_along(*old(self), p@, rest_below(abs_subdir_path@, old(self).spec_path())),
    {
        proof {
            lemma_walk_all_normal(*self, rest_below(abs_subdir_path@, self.spec_path()));
        }
        let recorded = self.find_subdir(abs_subdir_path).is_some();
        if recorded {
            proof {
                assert(keeps(*self, *self));
                assert(grows_along(*self, *self, rest_below(abs_subdir_path@, self.spec_path())));
                assert(stat_made(*self, *self, *stat));
            }
            return match self.find_subdir(abs_subdir_path) {
                Some(d) => Ok(d),
                None => Err(IoErrorKind::Other),
            };
        }
        match self.ensure_path(abs_subdir_path, stat) {
            Ok(()) => {},
            Err(e) => { return Err(e); },
        }
        proof {
            lemma_walk_all_normal(*self, rest_below(abs_subdir_path@, self.spec_path()));
        }
        match self.find_subdir(abs_subdir_path) {
            Some(d) => Ok(d),
            None => {
                assert(false);
                Err(IoErrorKind::Other)
            },
        }
    }
}


/// The first entry of `entries` called `name`.
pub open spec fn find_named<T>(entries: Seq<(String, T)>, name: Seq<char>) -> Option<T>
    decreases entries.len(),
{
    if entries.len() == 0 {
        None
    } else if entries[0].0@ == name {
        Some(entries[0].1)
    } else {
        find_named(entries.drop_first(), name)
    }
}

/// Where a directory entry belongs in a snapshot directory.
#[derive(Debug, Clone, Copy, PartialEq, Eq)]
pub enum EntryKind {
    SubdirLink,
    Subdir,
    FileLink,
    File,
}

/// Sorts an entry by what its metadata says: a directory or not, a
/// symbolic link or not.
pub fn classify_entry(is_dir: bool, is_symlink: bool) -> (r: EntryKind)
    ensures
        r == (if is_dir {
            if is_symlink { EntryKind::SubdirLink } else { EntryKind::Subdir }
        } else {
            if is_symlink { EntryKind::FileLink } else { EntryKind::File }
        }),
{
    if is_dir {
        if is_symlink { EntryKind::SubdirLink } else { EntryKind::Subdir }
    } else {
        if is_symlink { EntryKind::FileLink } else { EntryKind::File }
    }
}

/// Sets the entry called `name` to `value`: an existing entry of that name
/// is replaced, otherwise the entry is added at the end.
fn set_named<T>(entries: &mut Vec<(String, T)>, name: &str, value: T)
    ensures
        find_named(final(entries)@, name@) == Some(value),
        forall|m: Seq<char>| m != name@ ==> find_named(final(entries)@, m) == find_named(old(entries)@, m),
{
    let mut i: usize = 0;
    let n = entries.len();
    let ghost before = entries@;
    while i < n
        invariant
            n == entries@.len(),
            entries@ == before,
            before == old(entries)@,
            i <= n,
            forall|j: int| 0 <= j < i ==> entries@[j].0@ != name@,
        decreases n - i,
    {
        if String::eq(&entries[i].0, &name.to_owned()) {
            let ghost t = entries@[i as int].0;
            entries.set(i, (name.to_owned(), value));
            proof {
                assert(entries@ == before.update(i as int, entries@[i as int]));
                assert(before == old(entries)@);
                lemma_find_named_set(before, i as int, name@, entries@[i as int]);
                assert forall|m: Seq<char>| m != name@ implies find_named(entries@, m) == find_named(before, m) by {
                    assert(find_named(before.update(i as int, entries@[i as int]), m) == find_named(before, m));
                }
            }
            return;
        }
        i = i + 1;
    }
    entries.push((name.to_owned(), value));
    proof {
        lemma_find_named_push(before, name@, entries@.last());
    }
}

proof fn lemma_find_named_set<T>(s: Seq<(String, T)>, i: int, name: Seq<char>, e: (String, T))
    requires
        0 <= i < s.len(),
        s[i].0@ == name,
        e.0@ == name,
        forall|j: int| 0 <= j < i ==> s[j].0@ != name,
    ensures
        find_named(s.update(i, e), name) == Some(e.1),
        forall|m: Seq<char>| m != name ==> find_named(s.update(i, e), m) == find_named(s, m),
    decreases i,
{
    if i == 0 {
        assert(s.update(i, e).drop_first() =~= s.drop_first());
        assert forall|m: Seq<char>| m != name implies find_named(s.update(i, e), m) == find_named(s, m) by {
            assert(s.update(i, e)[0] == e);
            assert(find_named(s.update(i, e), m) == find_named(s.update(i, e).drop_first(), m));
            assert(find_named(s, m) == find_named(s.drop_first(), m));
        }
    } else {
        assert(s.update(i, e).drop_first() =~= s.drop_first().update(i - 1, e));
        lemma_find_named_set(s.drop_first(), i - 1, name, e);
        assert forall|m: Seq<char>| m != name implies find_named(s.update(i, e), m) == find_named(s, m) by {
            assert(s.update(i, e)[0] == s[0]);
            if s[0].0@ != m {
                assert(find_named(s.update(i, e), m) == find_named(s.update(i, e).drop_first(), m));
                assert(find_named(s, m) == find_named(s.drop_first(), m));
            }
        }
    }
}

proof fn lemma_find_named_push<T>(s: Seq<(String, T)>, name: Seq<char>, e: (String, T))
    requires
        e.0@ == name,
        forall|j: int| 0 <= j < s.len() ==> s[j].0@ != name,
    ensures
        find_named(s.push(e), name) == Some(e.1),
        forall|m: Seq<char>| m != name ==> find_named(s.push(e), m) == find_named(s, m),
    decreases s.len(),
{
    if s.len() == 0 {
        assert(s.push(e).drop_first() =~= Seq::<(String, T)>::empty());
        assert forall|m: Seq<char>| m != name implies find_named(s.push(e), m) == find_named(s, m) by {
            assert(s.push(e)[0] == e);
            assert(s.push(e).len() == 1);
            assert(s.push(e)[0].0@ != m);
            assert(find_named(s.push(e), m) == find_named(s.push(e).drop_first(), m));
        }
    } else {
        assert(s.push(e).drop_first() =~= s.drop_first().push(e));
        assert forall|j: int| 0 <= j < s.drop_first().len() implies s.drop_first()[j].0@ != name by {
            assert(s.drop_first()[j] == s[j + 1]);
        }
        lemma_find_named_push(s.drop_first(), name, e);
        assert forall|m: Seq<char>| m != name implies find_named(s.push(e), m) == find_named(s, m) by {
            assert(s.push(e)[0] == s[0]);
            if s[0].0@ != m {
                assert(find_named(s.push(e), m) == find_named(s.push(e).drop_first(), m));
                assert(find_named(s, m) == find_named(s.drop_first(), m));
            }
        }
    }
}

impl SnapshotDir {
    /// The files, by name.
    pub closed spec fn spec_files(self) -> Seq<(String, SnapshotFile)> {
        self.files@
    }

    /// The links to files, by name.
    pub closed spec fn spec_file_links(self) -> Seq<(String, SnapshotSymLink)> {
        self.file_links@
    }

    /// The links to directories, by name.
    pub closed spec fn spec_subdir_links(self) -> Seq<(String, SnapshotSymLink)> {
        self.subdir_links@
    }

    /// The named sub-directories.
    pub fn subdirs(&self) -> (r: &Vec<(String, SnapshotDir)>)
        ensures
            r@ == self.spec_subdirs(),
    {
        &self.subdirs
    }

    /// The named files.
    pub fn files(&self) -> (r: &Vec<(String, SnapshotFile)>)
        ensures
            r@ == self.spec_files(),
    {
        &self.files
    }

    /// The named links to files.
    pub fn file_links(&self) -> (r: &Vec<(String, SnapshotSymLink)>)
        ensures
            r@ == self.spec_file_links(),
    {
        &self.file_links
    }

    /// The named links to directories.
    pub fn subdir_links(&self) -> (r: &Vec<(String, SnapshotSymLink)>)
        ensures
            r@ == self.spec_subdir_links(),
    {
        &self.subdir_links
    }

    /// Records a file, a link to a file or a link to a directory found in
    /// this directory under `name`; an earlier entry of that name in the
    /// same list is replaced.
    pub fn insert_entry(&mut self, name: &str, kind: EntryKind, entry_path: &str, st_mode: u32)
        requires
            kind != EntryKind::Subdir,
        ensures
            final(self).spec_path() == old(self).spec_path(),
            final(self).spec_attributes() == old(self).spec_attributes(),
            final(self).spec_subdirs() == old(self).spec_subdirs(),
            kind == EntryKind::File ==> {
                &&& find_named(final(self).spec_files(), name@) matches Some(f)
                    && f.path@ == entry_path@ && f.attributes.st_mode == st_mode
                &&& forall|m: Seq<char>| m != name@ ==> find_named(final(self).spec_files(), m)
                    == find_named(old(self).spec_files(), m)
                &&& final(self).spec_file_links() == old(self).spec_file_links()
                &&& final(self).spec_subdir_links() == old(self).spec_subdir_links()
            },
            kind == EntryKind::FileLink ==> {
                &&& find_named(final(self).spec_file_links(), name@) matches Some(f)
                    && f.path@ == entry_path@ && f.attributes.st_mode == st_mode
                &&& forall|m: Seq<char>| m != name@ ==> find_named(final(self).spec_file_links(), m)
                    == find_named(old(self).spec_file_links(), m)
                &&& final(self).spec_files() == old(self).spec_files()
                &&& final(self).spec_subdir_links() == old(self).spec_subdir_links()
            },
            kind == EntryKind::SubdirLink ==> {
                &&& find_named(final(self).spec_subdir_links(), name@) matches Some(f)
                    && f.path@ == entry_path@ && f.attributes.st_mode == st_mode
                &&& forall|m: Seq<char>| m != name@ ==> find_named(final(self).spec_subdir_links(), m)
                    == find_named(old(self).spec_subdir_links(), m)
                &&& final(self).spec_files() == old(self).spec_files()
                &&& final(self).spec_file_links() == old(self).spec_file_links()
            },
    {
        match kind {
            EntryKind::File => {
                let f = SnapshotFile { path: entry_path.to_owned(), attributes: Attributes::new(st_mode) };
                set_named(&mut self.files, name, f);
            },
            EntryKind::FileLink => {
                let f = SnapshotSymLink { path: entry_path.to_owned(), attributes: Attributes::new(st_mode) };
                set_named(&mut self.file_links, name, f);
            },
            _ => {
                let f = SnapshotSymLink { path: entry_path.to_owned(), attributes: Attributes::new(st_mode) };
                set_named(&mut self.subdir_links, name, f);
            },
        }
    }
}


proof fn lemma_find_child_set(subs: Seq<(String, SnapshotDir)>, idx: int, n2: String, c: SnapshotDir, m: Seq<char>)
    requires
        0 <= idx < subs.len(),
        n2@ == subs[idx].0@,
        forall|j: int| 0 <= j < idx ==> subs[j].0@ != subs[idx].0@,
    ensures
        find_child(subs.update(idx, (n2, c)), m) == if m == n2@ {
            Some(c)
        } else {
            find_child(subs, m)
        },
    decreases idx,
{
    let nsubs = subs.update(idx, (n2, c));
    if idx == 0 {
        assert(nsubs.drop_first() =~= subs.drop_first());
    } else {
        assert(nsubs.drop_first() =~= subs.drop_first().update(idx - 1, (n2, c)));
        lemma_find_child_set(subs.drop_first(), idx - 1, n2, c, m);
    }
}

impl SnapshotDir {
    /// Records `sub` as the sub-directory called `name`, replacing an
    /// earlier one of that name. Refused, leaving this directory as it
    /// was, when the path of `sub` is not this directory's path followed
    /// by `name`.
    pub fn insert_subdir(&mut self, name: &str, sub: SnapshotDir) -> (r: bool)
        requires
            old(self).wf(),
            old(self).names_distinct_tree(),
            is_plain_name(name@),
            sub.wf(),
            sub.names_distinct_tree(),
        ensures
            final(self).wf(),
            final(self).names_distinct_tree(),
            same_dir(*old(self), *final(self)),
            r == (path_components(sub.spec_path()) == path_components(old(self).spec_path()).push(PathComponent::Normal(name@))),
            r ==> find_child(final(self).spec_subdirs(), name@) == Some(sub),
            r ==> forall|m: Seq<char>| m != name@ ==> find_child(final(self).spec_subdirs(), m)
                == find_child(old(self).spec_subdirs(), m),
            !r ==> *final(self) == *old(self),
    {
        let expected_path = join(self.path.as_str(), name);
        proof { lemma_join_plain_name(self.spec_path(), name@); }
        let expected = components(expected_path.as_str());
        let actual = components(sub.path.as_str());
        let fits = actual.len() == expected.len() && components_start_with(&actual, &expected);
        proof {
            if actual.len() == expected.len() && fits {
                assert(comps_view(actual@) =~= comps_view(expected@).take(expected.len() as int));
                assert(comps_view(expected@).take(expected.len() as int) =~= comps_view(expected@));
            }
        }
        if !fits {
            proof {
                if comps_view(actual@) == comps_view(expected@) {
                    assert(actual@.len() == comps_view(actual@).len());
                    assert(expected@.len() == comps_view(expected@).len());
                    assert(comps_view(actual@).take(expected.len() as int) =~= comps_view(actual@));
                }
            }
            return false;
        }
        let ghost before = *self;
        let ghost s2 = sub;
        match self.child_index(name) {
            Some(i) => {
                self.subdirs.set(i, (name.to_owned(), sub));
                proof {
                    let n2 = self.spec_subdirs()[i as int].0;
                    assert(self.spec_subdirs() == before.spec_subdirs().update(i as int, (n2, s2)));
                    assert forall|m: Seq<char>| true implies find_child(self.spec_subdirs(), m) == if m == name@ {
                        Some(s2)
                    } else {
                        find_child(before.spec_subdirs(), m)
                    } by {
                        lemma_find_child_set(before.spec_subdirs(), i as int, n2, s2, m);
                    }
                    assert forall|a: int, b: int| 0 <= a < b < self.spec_subdirs().len()
                        implies self.spec_subdirs()[a].0@ != self.spec_subdirs()[b].0@ by {
                        assert(self.spec_subdirs()[a].0@ == before.spec_subdirs()[a].0@);
                        assert(self.spec_subdirs()[b].0@ == before.spec_subdirs()[b].0@);
                    }
                    assert forall|k: int| 0 <= k < self.spec_subdirs().len()
                        implies (#[trigger] self.spec_subdirs()[k]).1.names_distinct_tree() by {
                        if k != i {
                            assert(self.spec_subdirs()[k] == before.spec_subdirs()[k]);
                        }
                    }
                    assert forall|k: int| 0 <= k < self.spec_subdirs().len() implies {
                        let (n, c) = #[trigger] self.spec_subdirs()[k];
                        &&& is_plain_name(n@)
                        &&& path_components(c.spec_path()) == path_components(self.spec_path()).push(PathComponent::Normal(n@))
                        &&& c.wf()
                    } by {
                        if k != i {
                            assert(self.spec_subdirs()[k] == before.spec_subdirs()[k]);
                        }
                    }
                }
            },
            None => {
                self.subdirs.push((name.to_owned(), sub));
                proof {
                    let n2 = self.spec_subdirs().last().0;
                    assert(self.spec_subdirs() == before.spec_subdirs().push((n2, s2)));
                    lemma_find_child_none_names(before.spec_subdirs(), name@);
                    assert forall|m: Seq<char>| true implies find_child(self.spec_subdirs(), m) == if m == name@ {
                        Some(s2)
                    } else {
                        find_child(before.spec_subdirs(), m)
                    } by {
                        lemma_find_child_push(before.spec_subdirs(), n2, s2, m);
                    }
                    assert forall|a: int, b: int| 0 <= a < b < self.spec_subdirs().len()
                        implies self.spec_subdirs()[a].0@ != self.spec_subdirs()[b].0@ by {
                        assert(self.spec_subdirs()[a] == before.spec_subdirs()[a]);
                        if b < before.spec_subdirs().len() {
                            assert(self.spec_subdirs()[b] == before.spec_subdirs()[b]);
                        }
                    }
                    assert forall|k: int| 0 <= k < self.spec_subdirs().len()
                        implies (#[trigger] self.spec_subdirs()[k]).1.names_distinct_tree() by {
                        if k < before.spec_subdirs().len() {
                            assert(self.spec_subdirs()[k] == before.spec_subdirs()[k]);
                        }
                    }
                    assert forall|k: int| 0 <= k < self.spec_subdirs().len() implies {
                        let (n, c) = #[trigger] self.spec_subdirs()[k];
                        &&& is_plain_name(n@)
                        &&& path_components(c.spec_path()) == path_components(self.spec_path()).push(PathComponent::Normal(n@))
                        &&& c.wf()
                    } by {
                        if k < before.spec_subdirs().len() {
                            assert(self.spec_subdirs()[k] == before.spec_subdirs()[k]);
                        }
                    }
                }
            },
        }
        true
    }
}


/// What `find_child` finds is one of the entries of that name.
proof fn lemma_find_child_some(subs: Seq<(String, SnapshotDir)>, name: Seq<char>)
    requires
        find_child(subs, name) is Some,
    ensures
        exists|i: int| 0 <= i < subs.len() && (#[trigger] subs[i]).0@ == name
            && find_child(subs, name) == Some(subs[i].1),
    decreases subs.len(),
{
    if subs[0].0@ == name {
        assert(subs[0].0@ == name && find_child(subs, name) == Some(subs[0].1));
    } else {
        lemma_find_child_some(subs.drop_first(), name);
        let i = choose|i: int| 0 <= i < subs.drop_first().len() && (#[trigger] subs.drop_first()[i]).0@ == name
            && find_child(subs.drop_first(), name) == Some(subs.drop_first()[i].1);
        assert(subs[i + 1] == subs.drop_first()[i]);
    }
}

/// The directory found by following names down a consistent tree is
/// consistent, and its path is the path of the top followed by those
/// names.
pub proof fn law_snapshot_walk_path(d: SnapshotDir, rest: Seq<PathComponent>)
    requires
        d.wf(),
        d.walk(rest) is Found,
    ensures
        path_components((d.walk(rest)->Found_0).spec_path()) == path_components(d.spec_path()) + rest,
        (d.walk(rest)->Found_0).wf(),
    decreases rest.len(),
{
    if rest.len() == 0 {
        assert(path_components(d.spec_path()) + rest =~= path_components(d.spec_path()));
    } else {
        let n = rest[0]->Normal_0;
        lemma_find_child_some(d.spec_subdirs(), n);
        let i = choose|i: int| 0 <= i < d.spec_subdirs().len() && (#[trigger] d.spec_subdirs()[i]).0@ == n
            && find_child(d.spec_subdirs(), n) == Some(d.spec_subdirs()[i].1);
        let c = d.spec_subdirs()[i].1;
        assert(path_components(c.spec_path()) == path_components(d.spec_path()).push(PathComponent::Normal(n)));
        law_snapshot_walk_path(c, rest.drop_first());
        assert(path_components(d.spec_path()) + rest =~= path_components(c.spec_path()) + rest.drop_first());
    }
}

/// A directory that `find_or_add_subdir` or `find_subdir` gives for a
/// path has that path's components.
pub proof fn law_snapshot_found_path(d: SnapshotDir, abs: Seq<char>)
    requires
        d.wf(),
        lies_below(abs, d.spec_path()),
        d.walk(rest_below(abs, d.spec_path())) is Found,
    ensures
        path_components((d.walk(rest_below(abs, d.spec_path()))->Found_0).spec_path()) == path_components(abs),
{
    let rest = rest_below(abs, d.spec_path());
    law_snapshot_walk_path(d, rest);
    let pb = path_components(d.spec_path());
    let pa = path_components(abs);
    assert(pa =~= pa.take(pb.len() as int) + pa.skip(pb.len() as int));
}

} // verus!
