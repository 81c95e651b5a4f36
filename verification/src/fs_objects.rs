//! The file system objects recorded in a snapshot: files, symbolic links
//! and directories whose contents are kept in ascending order of name.

use vstd::prelude::*;
use crate::attributes::{Attributes, AttributesIfce};
use crate::errors::{Error, IoErrorKind};
use crate::names::{compare_names, lemma_seq_lt_order, seq_lt, spec_name_order, NameOrder};
use crate::paths::{
    components, components_start_with, comps_have_prefix, comps_view, file_name, is_plain_name, join,
    lemma_components_plain, lemma_join_plain_name, plain_name, path_components, spec_file_name, spec_is_absolute,
    spec_join, Component, PathComponent, render, render_range, render_rel, render_rel_range,
};
use crate::snapshot_dir::{leads, lies_below, rest_below};

verus! {

/// A file: its name, its attributes and the token under which its
/// contents are stored.
#[derive(Debug, Clone, PartialEq, Eq, Default)]
pub struct FileData {
    file_name: String,
    attributes: Attributes,
    content_token: String,
}

/// A symbolic link: its name, its attributes and its target.
#[derive(Debug, Clone, PartialEq, Eq, Default)]
pub struct SymLinkData {
    file_name: String,
    attributes: Attributes,
    link_target: String,
}

/// A directory with its contents in ascending order of name.
#[derive(Debug, Default)]
pub struct DirectoryData {
    path: String,
    attributes: Attributes,
    contents: Vec<FileSystemObject>,
}

/// One object of a directory. A link carries whether it leads to a file.
#[derive(Debug)]
pub enum FileSystemObject {
    File(FileData),
    SymLink(SymLinkData, bool),
    Directory(DirectoryData),
}

impl FileData {
    /// A file record.
    pub fn new(file_name: &str, attributes: Attributes, content_token: &str) -> (r: FileData)
        ensures
            r.spec_name() == file_name@,
            r.spec_attributes() == attributes,
            r.spec_token() == content_token@,
    {
        FileData { file_name: file_name.to_owned(), attributes, content_token: content_token.to_owned() }
    }

    pub closed spec fn spec_name(&self) -> Seq<char> {
        self.file_name@
    }

    pub closed spec fn spec_attributes(&self) -> Attributes {
        self.attributes
    }

    pub closed spec fn spec_token(&self) -> Seq<char> {
        self.content_token@
    }

    /// The file's name.
    pub fn name(&self) -> (r: &str)
        ensures
            r@ == self.spec_name(),
    {
        self.file_name.as_str()
    }

    /// The file's attributes.
    pub fn attributes(&self) -> (r: Attributes)
        ensures
            r == self.spec_attributes(),
    {
        self.attributes
    }

    /// The token of the file's stored contents.
    pub fn content_token(&self) -> (r: &str)
        ensures
            r@ == self.spec_token(),
    {
        self.content_token.as_str()
    }
}

impl SymLinkData {
    /// A link record.
    pub fn new(file_name: &str, attributes: Attributes, link_target: &str) -> (r: SymLinkData)
        ensures
            r.spec_name() == file_name@,
            r.spec_attributes() == attributes,
            r.spec_target() == link_target@,
    {
        SymLinkData { file_name: file_name.to_owned(), attributes, link_target: link_target.to_owned() }
    }

    pub closed spec fn spec_name(&self) -> Seq<char> {
        self.file_name@
    }

    pub closed spec fn spec_attributes(&self) -> Attributes {
        self.attributes
    }

    pub closed spec fn spec_target(&self) -> Seq<char> {
        self.link_target@
    }

    /// The link's name.
    pub fn name(&self) -> (r: &str)
        ensures
            r@ == self.spec_name(),
    {
        self.file_name.as_str()
    }

    /// The link's attributes.
    pub fn attributes(&self) -> (r: Attributes)
        ensures
            r == self.spec_attributes(),
    {
        self.attributes
    }

    /// Where the link points.
    pub fn link_target(&self) -> (r: &str)
        ensures
            r@ == self.spec_target(),
    {
        self.link_target.as_str()
    }
}

impl DirectoryData {
    pub closed spec fn spec_path(&self) -> Seq<char> {
        self.path@
    }

    pub closed spec fn spec_attributes(&self) -> Attributes {
        self.attributes
    }

    pub closed spec fn spec_contents(&self) -> Seq<FileSystemObject> {
        self.contents@
    }

    /// The name of a directory is the last component of its path.
    pub open spec fn spec_name(&self) -> Seq<char> {
        spec_file_name(self.spec_path())->Some_0
    }
}

impl FileSystemObject {
    /// The name under which an object sits in its directory.
    pub open spec fn spec_name(&self) -> Seq<char> {
        match self {
            FileSystemObject::File(f) => f.spec_name(),
            FileSystemObject::SymLink(l, _) => l.spec_name(),
            FileSystemObject::Directory(d) => d.spec_name(),
        }
    }
}

/// Names strictly ascending.
pub open spec fn names_ascending(contents: Seq<FileSystemObject>) -> bool {
    forall|i: int, j: int| 0 <= i < j < contents.len() ==> seq_lt(#[trigger] contents[i].spec_name(), #[trigger] contents[j].spec_name())
}

impl DirectoryData {
    /// The directory is consistent: its path is absolute, its contents are
    /// in strictly ascending order of name, and each sub-directory's path
    /// is this path followed by one more name.
    pub open spec fn wf(&self) -> bool
        decreases self,
    {
        &&& spec_is_absolute(self.spec_path())
        &&& names_ascending(self.spec_contents())
        &&& forall|i: int| 0 <= i < self.spec_contents().len() ==> match #[trigger] self.spec_contents()[i] {
            FileSystemObject::Directory(c) => {
                let pc = path_components(c.spec_path());
                &&& pc.len() > 0
                &&& pc.last() is Normal
                &&& pc == path_components(self.spec_path()).push(pc.last())
                &&& c.wf()
            },
            _ => true,
        }
    }
}


/// The object of `contents` called `n`, if any.
pub open spec fn entry_named(contents: Seq<FileSystemObject>, n: Seq<char>) -> Option<FileSystemObject> {
    if exists|i: int| 0 <= i < contents.len() && (#[trigger] contents[i]).spec_name() == n {
        let i = choose|i: int| 0 <= i < contents.len() && (#[trigger] contents[i]).spec_name() == n;
        Some(contents[i])
    } else {
        None
    }
}

/// The outcome of following names down from a directory.
pub enum DirWalk {
    Found(DirectoryData),
    Missing,
    Malformed,
}

impl DirectoryData {
    /// Follows `rest` one name per level through sub-directories.
    pub open spec fn walk(&self, rest: Seq<PathComponent>) -> DirWalk
        decreases rest.len(),
    {
        if rest.len() == 0 {
            DirWalk::Found(*self)
        } else {
            match rest[0] {
                PathComponent::Normal(n) => match entry_named(self.spec_contents(), n) {
                    Some(FileSystemObject::Directory(c)) => c.walk(rest.drop_first()),
                    _ => DirWalk::Missing,
                },
                _ => DirWalk::Malformed,
            }
        }
    }
}

/// In ascending contents the object at `i` is the one of its name.
proof fn lemma_entry_at(contents: Seq<FileSystemObject>, i: int)
    requires
        names_ascending(contents),
        0 <= i < contents.len(),
    ensures
        entry_named(contents, contents[i].spec_name()) == Some(contents[i]),
{
    lemma_seq_lt_order();
    let n = contents[i].spec_name();
    assert(contents[i].spec_name() == n);
    let j = choose|j: int| 0 <= j < contents.len() && (#[trigger] contents[j]).spec_name() == n;
    if j < i {
        assert(seq_lt(contents[j].spec_name(), contents[i].spec_name()));
    } else if j > i {
        assert(seq_lt(contents[i].spec_name(), contents[j].spec_name()));
    }
}

impl DirectoryData {
    /// An empty directory at `path`, an absolute canonical path.
    pub fn new(path: &str, attributes: Attributes) -> (r: DirectoryData)
        requires
            spec_is_absolute(path@),
        ensures
            r.wf(),
            r.spec_path() == path@,
            r.spec_attributes() == attributes,
            r.spec_contents().len() == 0,
    {
        DirectoryData { path: path.to_owned(), attributes, contents: Vec::new() }
    }

    /// The directory's path.
    pub fn path(&self) -> (r: &str)
        ensures
            r@ == self.spec_path(),
    {
        self.path.as_str()
    }

    /// The directory's attributes.
    pub fn attributes(&self) -> (r: Attributes)
        ensures
            r == self.spec_attributes(),
    {
        self.attributes
    }

    /// The directory's name: the last component of its path, which must
    /// be a name.
    pub fn name(&self) -> (r: String)
        requires
            spec_file_name(self.spec_path()) is Some,
        ensures
            r@ == self.spec_name(),
    {
        match file_name(self.path.as_str()) {
            Some(n) => n,
            None => String::new(),
        }
    }
}

impl FileSystemObject {
    /// Objects other than directories, and directories whose path ends in
    /// a name, have a name.
    pub open spec fn has_name(&self) -> bool {
        match self {
            FileSystemObject::Directory(d) => spec_file_name(d.spec_path()) is Some,
            _ => true,
        }
    }

    /// The object's name.
    pub fn name(&self) -> (r: String)
        requires
            self.has_name(),
        ensures
            r@ == self.spec_name(),
    {
        match self {
            FileSystemObject::File(f) => f.name().to_owned(),
            FileSystemObject::SymLink(l, _) => l.name().to_owned(),
            FileSystemObject::Directory(d) => d.name(),
        }
    }
}

pub proof fn lemma_dir_has_name(d: DirectoryData, i: int)
    requires
        d.wf(),
        0 <= i < d.spec_contents().len(),
    ensures
        d.spec_contents()[i].has_name(),
{
    match d.spec_contents()[i] {
        FileSystemObject::Directory(c) => {
            let pc = path_components(c.spec_path());
            assert(pc.len() > 0 && pc.last() is Normal);
        },
        _ => {},
    }
}

impl DirectoryData {
    /// The position of the object called `name`: `Ok` with its index when
    /// there is one, otherwise `Err` with the index at which it would be
    /// inserted.
    pub fn index_for(&self, name: &str) -> (r: Result<usize, usize>)
        requires
            self.wf(),
        ensures
            match r {
                Ok(i) => i < self.spec_contents().len() && self.spec_contents()[i as int].spec_name() == name@,
                Err(i) => {
                    &&& i <= self.spec_contents().len()
                    &&& forall|j: int| 0 <= j < i ==> seq_lt(#[trigger] self.spec_contents()[j].spec_name(), name@)
                    &&& forall|j: int| i <= j < self.spec_contents().len() ==> seq_lt(name@, #[trigger] self.spec_contents()[j].spec_name())
                },
            },
    {
        let mut lo: usize = 0;
        let mut hi: usize = self.contents.len();
        proof { lemma_seq_lt_order(); }
        while lo < hi
            invariant
                self.wf(),
                lo <= hi <= self.spec_contents().len(),
                forall|j: int| 0 <= j < lo ==> seq_lt(#[trigger] self.spec_contents()[j].spec_name(), name@),
                forall|j: int| hi <= j < self.spec_contents().len() ==> seq_lt(name@, #[trigger] self.spec_contents()[j].spec_name()),
            decreases hi - lo,
        {
            let mid = lo + (hi - lo) / 2;
            proof { lemma_dir_has_name(*self, mid as int); lemma_seq_lt_order(); }
            let mid_name = self.contents[mid].name();
            match compare_names(name, mid_name.as_str()) {
                NameOrder::Equal => {
                    return Ok(mid);
                },
                NameOrder::Less => {
                    proof {
                        assert forall|j: int| mid <= j < self.spec_contents().len() implies seq_lt(name@, #[trigger] self.spec_contents()[j].spec_name()) by {
                            if j > mid {
                                assert(seq_lt(self.spec_contents()[mid as int].spec_name(), self.spec_contents()[j].spec_name()));
                            }
                        }
                    }
                    hi = mid;
                },
                NameOrder::Greater => {
                    proof {
                        assert(seq_lt(mid_name@, name@));
                        assert forall|j: int| 0 <= j < mid + 1 implies seq_lt(#[trigger] self.spec_contents()[j].spec_name(), name@) by {
                            if j < mid {
                                assert(seq_lt(self.spec_contents()[j].spec_name(), self.spec_contents()[mid as int].spec_name()));
                            }
                        }
                    }
                    lo = mid + 1;
                },
            }
        }
        Err(lo)
    }

    /// The object called `name`, by the contract of `index_for`.
    proof fn lemma_index_for_entry(&self, name: Seq<char>, r: Result<usize, usize>)
        requires
            self.wf(),
            match r {
                Ok(i) => i < self.spec_contents().len() && self.spec_contents()[i as int].spec_name() == name,
                Err(i) => {
                    &&& i <= self.spec_contents().len()
                    &&& forall|j: int| 0 <= j < i ==> seq_lt(#[trigger] self.spec_contents()[j].spec_name(), name)
                    &&& forall|j: int| i <= j < self.spec_contents().len() ==> seq_lt(name, #[trigger] self.spec_contents()[j].spec_name())
                },
            },
        ensures
            match r {
                Ok(i) => entry_named(self.spec_contents(), name) == Some(self.spec_contents()[i as int]),
                Err(_) => entry_named(self.spec_contents(), name) is None,
            },
    {
        lemma_seq_lt_order();
        match r {
            Ok(i) => {
                lemma_entry_at(self.spec_contents(), i as int);
            },
            Err(i) => {
                if exists|k: int| 0 <= k < self.spec_contents().len() && (#[trigger] self.spec_contents()[k]).spec_name() == name {
                    let k = choose|k: int| 0 <= k < self.spec_contents().len() && (#[trigger] self.spec_contents()[k]).spec_name() == name;
                    if k < i {
                        assert(seq_lt(self.spec_contents()[k].spec_name(), name));
                    } else {
                        assert(seq_lt(name, self.spec_contents()[k].spec_name()));
                    }
                }
            },
        }
    }

    /// The sub-directory called `name`, if there is one.
    pub fn get_directory(&self, name: &str) -> (r: Option<&DirectoryData>)
        requires
            self.wf(),
        ensures
            match r {
                Some(d) => entry_named(self.spec_contents(), name@) == Some(FileSystemObject::Directory(*d)),
                None => !(entry_named(self.spec_contents(), name@) matches Some(FileSystemObject::Directory(_))),
            },
    {
        let r = self.index_for(name);
        proof { self.lemma_index_for_entry(name@, r); }
        match r {
            Ok(index) => self.contents[index].get_dir_data(),
            Err(_) => None,
        }
    }

    /// The file called `name`, if there is one.
    pub fn get_file(&self, name: &str) -> (r: Option<&FileData>)
        requires
            self.wf(),
        ensures
            match r {
                Some(f) => entry_named(self.spec_contents(), name@) == Some(FileSystemObject::File(*f)),
                None => !(entry_named(self.spec_contents(), name@) matches Some(FileSystemObject::File(_))),
            },
    {
        let r = self.index_for(name);
        proof { self.lemma_index_for_entry(name@, r); }
        match r {
            Ok(index) => self.contents[index].get_file_data(),
            Err(_) => None,
        }
    }
}


/// What looking up a directory path gives: the directory, nothing known
/// under that path, or a path that leaves the tree by a component that is
/// not a name (with the text of the path from that component on).
pub enum DirLookup {
    Found(DirectoryData),
    Unknown,
    Malformed(Seq<char>),
}

impl DirectoryData {
    /// The components from the first one at which a walk down `rest`
    /// meets a component that is not a name.
    pub open spec fn malformed_rest(&self, rest: Seq<PathComponent>) -> Seq<PathComponent>
        decreases rest.len(),
    {
        if rest.len() == 0 {
            rest
        } else {
            match rest[0] {
                PathComponent::Normal(n) => match entry_named(self.spec_contents(), n) {
                    Some(FileSystemObject::Directory(c)) => c.malformed_rest(rest.drop_first()),
                    _ => rest,
                },
                _ => rest,
            }
        }
    }

    /// The directory that `path` names in this tree.
    pub open spec fn lookup_subdir(&self, path: Seq<char>) -> DirLookup {
        if !lies_below(path, self.spec_path()) {
            DirLookup::Unknown
        } else {
            let rest = rest_below(path, self.spec_path());
            match self.walk(rest) {
                DirWalk::Found(d) => DirLookup::Found(d),
                DirWalk::Missing => DirLookup::Unknown,
                DirWalk::Malformed => DirLookup::Malformed(render_rel(self.malformed_rest(rest))),
            }
        }
    }
}

impl DirectoryData {
    /// `r` is what looking up the directory at `path` gives: the directory,
    /// or the failure that names `path` or the malformed rest of it.
    pub open spec fn subdir_result(&self, path: Seq<char>, r: Result<&DirectoryData, Error>) -> bool {
        match r {
            Ok(d) => self.lookup_subdir(path) == DirLookup::Found(*d),
            Err(Error::SnapshotUnknownDirectory(s)) => s@ == path && self.lookup_subdir(path) is Unknown,
            Err(Error::FSOMalformedPath(s)) => self.lookup_subdir(path) == DirLookup::Malformed(s@),
            Err(_) => false,
        }
    }

    /// `r` is what looking up the file at `path` gives.
    pub open spec fn file_result(&self, path: Seq<char>, r: Result<&FileData, Error>) -> bool {
        match r {
            Ok(f) => spec_file_name(path) matches Some(n)
                && self.lookup_subdir(parent_text(path)) matches DirLookup::Found(d)
                && entry_named(d.spec_contents(), n) == Some(FileSystemObject::File(*f)),
            Err(Error::SnapshotUnknownFile(s)) => s@ == path && (spec_file_name(path) is None || (
                spec_file_name(path) matches Some(n)
                && self.lookup_subdir(parent_text(path)) matches DirLookup::Found(d)
                && !(entry_named(d.spec_contents(), n) matches Some(FileSystemObject::File(_))))),
            Err(Error::SnapshotUnknownDirectory(s)) => spec_file_name(path) is Some
                && s@ == parent_text(path) && self.lookup_subdir(parent_text(path)) is Unknown,
            Err(Error::FSOMalformedPath(s)) => spec_file_name(path) is Some
                && self.lookup_subdir(parent_text(path)) == DirLookup::Malformed(s@),
            Err(_) => false,
        }
    }
}

/// The text of the directory that holds `path` (`Path::parent`).
pub open spec fn parent_text(path: Seq<char>) -> Seq<char> {
    render(path_components(path).drop_last())
}

impl DirectoryData {
    /// The directory at `path`, which lies at or below this directory.
    pub fn find_subdir(&self, path: &str) -> (r: Result<&DirectoryData, Error>)
        requires
            self.wf(),
        ensures
            self.subdir_result(path@, r),
            r matches Ok(d) ==> d.wf() && path_components(d.spec_path()) == path_components(path@),
        decreases path_components(path@).len() - path_components(self.spec_path()).len(),
    {
        proof {
            if self.lookup_subdir(path@) is Found {
                law_lookup_path(*self, path@);
            }
        }
        let comps = components(path);
        let base = components(self.path.as_str());
        if !components_start_with(&comps, &base) {
            return Err(Error::SnapshotUnknownDirectory(path.to_owned()));
        }
        let ghost rest = rest_below(path@, self.spec_path());
        if comps.len() == base.len() {
            assert(rest.len() == 0);
            return Ok(self);
        }
        let b = base.len();
        assert(rest[0] == comps_view(comps@)[b as int]);
        match &comps[b] {
            Component::Normal(name) => {
                match self.get_directory(name.as_str()) {
                    Some(child) => {
                        proof {
                            let pa = path_components(path@);
                            let pb = path_components(self.spec_path());
                            let i = choose|i: int| 0 <= i < self.spec_contents().len()
                                && (#[trigger] self.spec_contents()[i]).spec_name() == name@;
                            assert(self.spec_contents()[i] == FileSystemObject::Directory(*child));
                            let pc = path_components(child.spec_path());
                            assert(pc == pb.push(pc.last()));
                            assert(pc.last() == PathComponent::Normal(name@));
                            assert(pa.take(b + 1) =~= pb.push(PathComponent::Normal(name@)));
                            assert(rest_below(path@, child.spec_path()) =~= rest.drop_first());
                        }
                        child.find_subdir(path)
                    },
                    None => Err(Error::SnapshotUnknownDirectory(path.to_owned())),
                }
            },
            _ => {
                let tail = render_rel_range(&comps, b, comps.len());
                assert(comps_view(comps@).subrange(b as int, comps@.len() as int) =~= rest);
                Err(Error::FSOMalformedPath(tail))
            },
        }
    }

    /// The file at `path`, found in the directory that holds it.
    pub fn find_file(&self, path: &str) -> (r: Result<&FileData, Error>)
        requires
            self.wf(),
        ensures
            self.file_result(path@, r),
    {
        let comps = components(path);
        let n = comps.len();
        if n == 0 {
            return Err(Error::SnapshotUnknownFile(path.to_owned()));
        }
        assert(comps_view(comps@).last() == comps@[n - 1]@);
        match &comps[n - 1] {
            Component::Normal(name) => {
                let parent = render_range(&comps, 0, n - 1);
                assert(comps_view(comps@).subrange(0, n - 1) =~= path_components(path@).drop_last());
                let subdir = self.find_subdir(parent.as_str())?;
                match subdir.get_file(name.as_str()) {
                    Some(file_data) => Ok(file_data),
                    None => Err(Error::SnapshotUnknownFile(path.to_owned())),
                }
            },
            _ => Err(Error::SnapshotUnknownFile(path.to_owned())),
        }
    }
}

/// Putting a sub-directory with the same path in place of the one at
/// `idx` keeps what looking up `path` finds below it.
proof fn lemma_replace_lookup_any(p: DirectoryData, idx: int, c_old: DirectoryData, path: Seq<char>)
    requires
        p.wf(),
        0 <= idx < p.spec_contents().len(),
        p.spec_contents()[idx] == FileSystemObject::Directory(c_old),
        lies_below(path, p.spec_path()),
        rest_below(path, p.spec_path()).len() > 0,
        rest_below(path, p.spec_path())[0] == PathComponent::Normal(c_old.spec_name()),
        rest_below(path, c_old.spec_path()) == rest_below(path, p.spec_path()).drop_first(),
    ensures
        forall|q: DirectoryData, c: DirectoryData| #![trigger q.lookup_subdir(path), c.lookup_subdir(path)]
            q.spec_path() == p.spec_path() && c.spec_path() == c_old.spec_path()
            && q.spec_contents() == p.spec_contents().update(idx, FileSystemObject::Directory(c))
            && c.lookup_subdir(path) is Found ==> q.lookup_subdir(path) == c.lookup_subdir(path),
{
    let rest = rest_below(path, p.spec_path());
    assert forall|q: DirectoryData, c: DirectoryData| #![trigger q.lookup_subdir(path), c.lookup_subdir(path)]
        q.spec_path() == p.spec_path() && c.spec_path() == c_old.spec_path()
        && q.spec_contents() == p.spec_contents().update(idx, FileSystemObject::Directory(c))
        && c.lookup_subdir(path) is Found implies q.lookup_subdir(path) == c.lookup_subdir(path) by {
        lemma_update_same_name(p.spec_contents(), idx, FileSystemObject::Directory(c));
        assert(entry_named(q.spec_contents(), c_old.spec_name()) == Some(FileSystemObject::Directory(c)));
        assert(q.walk(rest) == c.walk(rest.drop_first()));
    }
}

impl DirectoryData {
    /// The directory at `path`, known to lie in this tree, for changing.
    fn found_subdir_mut(&mut self, path: &str) -> (r: Option<&mut DirectoryData>)
        requires
            old(self).wf(),
            old(self).lookup_subdir(path@) is Found,
        ensures
            r matches Some(d) && old(self).lookup_subdir(path@) == DirLookup::Found(*d) && d.wf(),
            r matches Some(d) ==> (keeps_recorded(*d, *final(d)) ==> keeps_recorded(*old(self), *final(self))),
            r matches Some(d) ==> (final(d).spec_path() == d.spec_path() ==> final(self).spec_path() == old(self).spec_path()),
            r matches Some(d) ==> ((final(d).wf() && final(d).spec_path() == d.spec_path()) ==> {
                &&& final(self).wf()
                &&& final(self).lookup_subdir(path@) == DirLookup::Found(*final(d))
            }),
        decreases path_components(path@).len() - path_components(old(self).spec_path()).len(),
    {
        let comps = components(path);
        let base = components(self.path.as_str());
        let ghost rest = rest_below(path@, self.spec_path());
        if comps.len() == base.len() {
            assert(rest.len() == 0);
            return Some(self);
        }
        let b = base.len();
        assert(rest[0] == comps_view(comps@)[b as int]);
        let name: String = match &comps[b] {
            Component::Normal(n) => n.clone(),
            _ => { return None; },
        };
        let found = self.index_for(name.as_str());
        proof { self.lemma_index_for_entry(name@, found); }
        let idx: usize = match found {
            Ok(i) => i,
            Err(_) => { return None; },
        };
        let ghost before = *self;
        let ghost c_old = match before.spec_contents()[idx as int] {
            FileSystemObject::Directory(c) => c,
            _ => before,
        };
        proof {
            if !(before.spec_contents()[idx as int] is Directory) {
                assert(before.walk(rest) is Missing);
            } else {
                let pa = path_components(path@);
                let pb = path_components(before.spec_path());
                let pc = path_components(c_old.spec_path());
                assert(pc == pb.push(pc.last()));
                assert(pc.last() == PathComponent::Normal(name@));
                assert(pa.take(b + 1) =~= pb.push(PathComponent::Normal(name@)));
                assert(rest_below(path@, c_old.spec_path()) =~= rest.drop_first());
                assert(before.walk(rest) == c_old.walk(rest.drop_first()));
                lemma_replace_lookup_any(before, idx as int, c_old, path@);
            }
        }
        match self.subdir_at_mut(idx) {
            Some(child) => child.found_subdir_mut(path),
            None => None,
        }
    }

    /// The directory at `path`, which lies at or below this one, for
    /// changing: there is one exactly when `find_subdir` finds it. This
    /// directory stays consistent when the one handed out does and keeps
    /// its path, and what is written through it is then what `path` finds.
    pub fn find_subdir_mut(&mut self, path: &str) -> (r: Option<&mut DirectoryData>)
        requires
            old(self).wf(),
        ensures
            r is Some <==> old(self).lookup_subdir(path@) is Found,
            r is None ==> *final(self) == *old(self),
            r matches Some(d) ==> {
                &&& old(self).lookup_subdir(path@) == DirLookup::Found(*d)
                &&& d.wf()
                &&& keeps_recorded(*d, *final(d)) ==> keeps_recorded(*old(self), *final(self))
                &&& final(d).spec_path() == d.spec_path() ==> final(self).spec_path() == old(self).spec_path()
                &&& (final(d).wf() && final(d).spec_path() == d.spec_path()) ==> {
                    &&& final(self).wf()
                    &&& final(self).lookup_subdir(path@) == DirLookup::Found(*final(d))
                }
            },
    {
        let known = match self.find_subdir(path) {
            Ok(_) => true,
            Err(_) => false,
        };
        if !known {
            return None;
        }
        self.found_subdir_mut(path)
    }
}

impl DirectoryData {
    /// `obj` may stand in this directory: a sub-directory's path is this
    /// path followed by one more name, and the sub-directory is consistent.
    pub open spec fn fits(&self, obj: FileSystemObject) -> bool {
        match obj {
            FileSystemObject::Directory(c) => {
                let pc = path_components(c.spec_path());
                &&& pc.len() > 0
                &&& pc.last() is Normal
                &&& pc == path_components(self.spec_path()).push(pc.last())
                &&& c.wf()
            },
            _ => true,
        }
    }
}

/// Inserting `obj` at its place keeps the names ascending and changes
/// the lookup of its name only.
proof fn lemma_insert_sorted(contents: Seq<FileSystemObject>, i: int, obj: FileSystemObject)
    requires
        names_ascending(contents),
        0 <= i <= contents.len(),
        forall|j: int| 0 <= j < i ==> seq_lt(#[trigger] contents[j].spec_name(), obj.spec_name()),
        forall|j: int| i <= j < contents.len() ==> seq_lt(obj.spec_name(), #[trigger] contents[j].spec_name()),
    ensures
        names_ascending(contents.insert(i, obj)),
        forall|n: Seq<char>| #[trigger] entry_named(contents.insert(i, obj), n) == if n == obj.spec_name() {
            Some(obj)
        } else {
            entry_named(contents, n)
        },
{
    lemma_seq_lt_order();
    let ns = contents.insert(i, obj);
    assert forall|a: int, b: int| 0 <= a < b < ns.len() implies seq_lt(#[trigger] ns[a].spec_name(), #[trigger] ns[b].spec_name()) by {
        if b < i {
            assert(ns[a] == contents[a] && ns[b] == contents[b]);
        } else if b == i {
            assert(ns[a] == contents[a]);
        } else if a < i {
            assert(ns[a] == contents[a] && ns[b] == contents[b - 1]);
            assert(seq_lt(contents[a].spec_name(), obj.spec_name()));
        } else if a == i {
            assert(ns[b] == contents[b - 1]);
        } else {
            assert(ns[a] == contents[a - 1] && ns[b] == contents[b - 1]);
        }
    }
    assert forall|n: Seq<char>| #[trigger] entry_named(ns, n) == if n == obj.spec_name() {
        Some(obj)
    } else {
        entry_named(contents, n)
    } by {
        if n == obj.spec_name() {
            assert(ns[i] == obj);
            lemma_entry_at(ns, i);
        } else if exists|k: int| 0 <= k < contents.len() && (#[trigger] contents[k]).spec_name() == n {
            let k = choose|k: int| 0 <= k < contents.len() && (#[trigger] contents[k]).spec_name() == n;
            lemma_entry_at(contents, k);
            if k < i {
                assert(ns[k] == contents[k]);
                lemma_entry_at(ns, k);
            } else {
                assert(ns[k + 1] == contents[k]);
                lemma_entry_at(ns, k + 1);
            }
        } else {
            assert forall|k: int| 0 <= k < ns.len() implies (#[trigger] ns[k]).spec_name() != n by {
                if k < i {
                    assert(ns[k] == contents[k]);
                } else if k > i {
                    assert(ns[k] == contents[k - 1]);
                }
            }
        }
    }
}

impl DirectoryData {
    /// Puts `obj` at its place among the contents, unless an object of
    /// the same name is there already; tells whether it was put.
    pub fn insert_object(&mut self, obj: FileSystemObject) -> (r: bool)
        requires
            old(self).wf(),
            old(self).fits(obj),
        ensures
            final(self).wf(),
            final(self).spec_path() == old(self).spec_path(),
            final(self).spec_attributes() == old(self).spec_attributes(),
            r == (entry_named(old(self).spec_contents(), obj.spec_name()) is None),
            r ==> final(self).spec_contents().len() == old(self).spec_contents().len() + 1,
            r ==> forall|n: Seq<char>| #[trigger] entry_named(final(self).spec_contents(), n) == if n == obj.spec_name() {
                Some(obj)
            } else {
                entry_named(old(self).spec_contents(), n)
            },
            !r ==> *final(self) == *old(self),
            keeps_recorded(*old(self), *final(self)),
    {
        let name = obj.name();
        let found = self.index_for(name.as_str());
        proof { self.lemma_index_for_entry(name@, found); }
        match found {
            Ok(_) => false,
            Err(index) => {
                proof { lemma_insert_sorted(self.spec_contents(), index as int, obj); }
                let ghost before = self.spec_contents();
                self.contents.insert(index, obj);
                proof {
                    let ns = self.spec_contents();
                    assert(ns == before.insert(index as int, obj));
                    assert forall|k: int| 0 <= k < ns.len() implies match #[trigger] ns[k] {
                        FileSystemObject::Directory(c) => {
                            let pc = path_components(c.spec_path());
                            &&& pc.len() > 0
                            &&& pc.last() is Normal
                            &&& pc == path_components(self.spec_path()).push(pc.last())
                            &&& c.wf()
                        },
                        _ => true,
                    } by {
                        if k < index {
                            assert(ns[k] == before[k]);
                        } else if k > index {
                            assert(ns[k] == before[k - 1]);
                        }
                    }
                    lemma_insert_keeps(*old(self), *self, obj);
                }
                true
            },
        }
    }
}

/// The kind of a directory entry found on disk.
#[derive(Debug, Clone, Copy, PartialEq, Eq, Structural)]
pub enum EntryType {
    Dir,
    File,
    SymLink,
    Other,
}

/// What recording one directory entry takes.
#[derive(Debug, Clone, Copy, PartialEq, Eq, Structural)]
pub enum PopulateStep {
    /// Nothing: the entry is excluded, recorded already, or of no kind
    /// that is recorded.
    Skip,
    /// The sub-directory at this index is recorded already: record its
    /// own entries.
    Repopulate(usize),
    /// Record a new sub-directory, a new file or a new link; it goes at
    /// this index.
    AddDir(usize),
    AddFile(usize),
    AddSymLink(usize),
}

/// Replacing a sub-directory by a consistent one with the same path keeps
/// the directory consistent.
proof fn lemma_replace_subdir(p: DirectoryData, q: DirectoryData, index: int, c: DirectoryData)
    requires
        p.wf(),
        0 <= index < p.spec_contents().len(),
        p.spec_contents()[index] matches FileSystemObject::Directory(c_old) && c_old.spec_path() == c.spec_path(),
        c.wf(),
        q.spec_path() == p.spec_path(),
        q.spec_contents() == p.spec_contents().update(index, FileSystemObject::Directory(c)),
    ensures
        q.wf(),
{
    let pc = p.spec_contents();
    let qc = q.spec_contents();
    assert forall|a: int, b: int| 0 <= a < b < qc.len() implies seq_lt(#[trigger] qc[a].spec_name(), #[trigger] qc[b].spec_name()) by {
        assert(pc[a].spec_name() == qc[a].spec_name());
        assert(pc[b].spec_name() == qc[b].spec_name());
    }
    assert forall|i: int| 0 <= i < qc.len() implies match #[trigger] qc[i] {
        FileSystemObject::Directory(c) => {
            let pc = path_components(c.spec_path());
            &&& pc.len() > 0
            &&& pc.last() is Normal
            &&& pc == path_components(q.spec_path()).push(pc.last())
            &&& c.wf()
        },
        _ => true,
    } by {
        if i != index {
            assert(qc[i] == pc[i]);
        } else {
            assert(match pc[i] {
                FileSystemObject::Directory(c) => {
                    let pc = path_components(c.spec_path());
                    &&& pc.len() > 0
                    &&& pc.last() is Normal
                    &&& pc == path_components(p.spec_path()).push(pc.last())
                    &&& c.wf()
                },
                _ => true,
            });
        }
    }
}

proof fn lemma_replace_subdir_any(p: DirectoryData, index: int)
    requires
        p.wf(),
        0 <= index < p.spec_contents().len(),
    ensures
        forall|q: DirectoryData, c: DirectoryData| #![trigger q.wf(), c.wf()]
            (p.spec_contents()[index] matches FileSystemObject::Directory(c_old) && c_old.spec_path() == c.spec_path())
            && c.wf() && q.spec_path() == p.spec_path()
            && q.spec_contents() == p.spec_contents().update(index, FileSystemObject::Directory(c)) ==> q.wf(),
{
    assert forall|q: DirectoryData, c: DirectoryData| #![trigger q.wf(), c.wf()]
        (p.spec_contents()[index] matches FileSystemObject::Directory(c_old) && c_old.spec_path() == c.spec_path())
        && c.wf() && q.spec_path() == p.spec_path()
        && q.spec_contents() == p.spec_contents().update(index, FileSystemObject::Directory(c)) implies q.wf() by {
        lemma_replace_subdir(p, q, index, c);
    }
}

impl DirectoryData {
    /// A new, empty sub-directory of this one called `name`, when `name`
    /// is a plain name.
    pub fn new_child(&self, name: &str, attributes: Attributes) -> (r: Option<DirectoryData>)
        requires
            self.wf(),
        ensures
            r is Some <==> is_plain_name(name@),
            r matches Some(c) ==> {
                &&& self.fits(FileSystemObject::Directory(c))
                &&& c.spec_path() == spec_join(self.spec_path(), name@)
                &&& c.spec_name() == name@
                &&& c.spec_attributes() == attributes
                &&& c.spec_contents().len() == 0
            },
    {
        if !plain_name(name) {
            return None;
        }
        let path = join(self.path.as_str(), name);
        proof { lemma_join_plain_name(self.spec_path(), name@); }
        assert(spec_is_absolute(path@)) by {
            let pc = path_components(path@);
            assert(pc[0] == PathComponent::RootDir);
        }
        let c = DirectoryData { path, attributes, contents: Vec::new() };
        Some(c)
    }

    /// What recording the entry called `name` takes, given whether the
    /// exclusions exclude it and what kind of entry it is.
    pub fn populate_step(&self, name: &str, excluded: bool, entry_type: EntryType) -> (r: PopulateStep)
        requires
            self.wf(),
        ensures
            excluded ==> r == PopulateStep::Skip,
            !excluded ==> match entry_named(self.spec_contents(), name@) {
                Some(FileSystemObject::Directory(c)) => r matches PopulateStep::Repopulate(i)
                    && i < self.spec_contents().len()
                    && self.spec_contents()[i as int] == FileSystemObject::Directory(c),
                Some(_) => r == PopulateStep::Skip,
                None => match entry_type {
                    EntryType::Dir => r is AddDir,
                    EntryType::File => r is AddFile,
                    EntryType::SymLink => r is AddSymLink,
                    EntryType::Other => r == PopulateStep::Skip,
                },
            },
            match r {
                PopulateStep::AddDir(i) | PopulateStep::AddFile(i) | PopulateStep::AddSymLink(i) => {
                    &&& i <= self.spec_contents().len()
                    &&& forall|j: int| 0 <= j < i ==> seq_lt(#[trigger] self.spec_contents()[j].spec_name(), name@)
                    &&& forall|j: int| i <= j < self.spec_contents().len() ==> seq_lt(name@, #[trigger] self.spec_contents()[j].spec_name())
                },
                _ => true,
            },
    {
        if excluded {
            return PopulateStep::Skip;
        }
        let found = self.index_for(name);
        proof { self.lemma_index_for_entry(name@, found); }
        match found {
            Ok(index) => match &self.contents[index] {
                FileSystemObject::Directory(_) => PopulateStep::Repopulate(index),
                _ => PopulateStep::Skip,
            },
            Err(index) => match entry_type {
                EntryType::Dir => PopulateStep::AddDir(index),
                EntryType::File => PopulateStep::AddFile(index),
                EntryType::SymLink => PopulateStep::AddSymLink(index),
                EntryType::Other => PopulateStep::Skip,
            },
        }
    }

    /// The sub-directory at `index`, for changing. The directory stays
    /// consistent when the sub-directory does and keeps its path.
    pub fn subdir_at_mut(&mut self, index: usize) -> (r: Option<&mut DirectoryData>)
        requires
            old(self).wf(),
            index < old(self).spec_contents().len(),
        ensures
            r matches Some(d) ==> old(self).spec_contents()[index as int] == FileSystemObject::Directory(*d),
            r matches Some(d) ==> d.wf(),
            final(self).spec_path() == old(self).spec_path(),
            final(self).spec_attributes() == old(self).spec_attributes(),
            r matches Some(d) ==> final(self).spec_contents() == old(self).spec_contents().update(
                index as int,
                FileSystemObject::Directory(*final(d)),
            ),
            r matches Some(d) ==> ((final(d).wf() && final(d).spec_path() == d.spec_path()) ==> final(self).wf()),
            r matches Some(d) ==> (keeps_recorded(*d, *final(d)) ==> keeps_recorded(*old(self), *final(self))),
            r is None ==> !(old(self).spec_contents()[index as int] is Directory)
                && final(self).spec_contents() == old(self).spec_contents(),
    {
        proof {
            lemma_replace_subdir_any(*self, index as int);
            if self.spec_contents()[index as int] is Directory {
                lemma_replace_keeps_any(*self, index as int);
            }
        }
        let elem = &mut self.contents[index];
        elem.get_dir_data_mut()
    }
}

/// Counts of the files recorded by a snapshot.
#[derive(Debug, Clone, Copy, PartialEq, Eq)]
pub struct FileStats {
    pub file_count: u64,
    pub byte_count: u64,
    pub stored_byte_count: u64,
}

impl Default for FileStats {
    fn default() -> (r: FileStats)
        ensures
            r.file_count == 0 && r.byte_count == 0 && r.stored_byte_count == 0,
    {
        FileStats { file_count: 0, byte_count: 0, stored_byte_count: 0 }
    }
}

impl FileStats {
    /// Adds `other` field by field.
    pub fn add_assign(&mut self, other: FileStats)
        requires
            old(self).file_count + other.file_count <= u64::MAX,
            old(self).byte_count + other.byte_count <= u64::MAX,
            old(self).stored_byte_count + other.stored_byte_count <= u64::MAX,
        ensures
            final(self).file_count == old(self).file_count + other.file_count,
            final(self).byte_count == old(self).byte_count + other.byte_count,
            final(self).stored_byte_count == old(self).stored_byte_count + other.stored_byte_count,
    {
        *self = FileStats {
            file_count: self.file_count + other.file_count,
            byte_count: self.byte_count + other.byte_count,
            stored_byte_count: self.stored_byte_count + other.stored_byte_count,
        };
    }
}

/// Counts of the links recorded by a snapshot.
#[derive(Debug, Clone, Copy, PartialEq, Eq)]
pub struct SymLinkStats {
    pub dir_sym_link_count: u64,
    pub file_sym_link_count: u64,
}

impl Default for SymLinkStats {
    fn default() -> (r: SymLinkStats)
        ensures
            r.dir_sym_link_count == 0 && r.file_sym_link_count == 0,
    {
        SymLinkStats { dir_sym_link_count: 0, file_sym_link_count: 0 }
    }
}

impl SymLinkStats {
    /// Adds `other` field by field.
    pub fn add_assign(&mut self, other: SymLinkStats)
        requires
            old(self).dir_sym_link_count + other.dir_sym_link_count <= u64::MAX,
            old(self).file_sym_link_count + other.file_sym_link_count <= u64::MAX,
        ensures
            final(self).dir_sym_link_count == old(self).dir_sym_link_count + other.dir_sym_link_count,
            final(self).file_sym_link_count == old(self).file_sym_link_count + other.file_sym_link_count,
    {
        *self = SymLinkStats {
            dir_sym_link_count: self.dir_sym_link_count + other.dir_sym_link_count,
            file_sym_link_count: self.file_sym_link_count + other.file_sym_link_count,
        };
    }
}

/// What recording a tree adds up to: the counts of its files and links and
/// how much the content repository grew.
#[derive(Debug, Clone, Copy, PartialEq, Eq)]
pub struct PopulateTotals {
    pub file_stats: FileStats,
    pub sym_link_stats: SymLinkStats,
    pub delta_repo_size: u64,
}

/// The sum of the totals `t` and one more item's counts.
pub open spec fn sum_fits(t: PopulateTotals, fs: FileStats, ss: SymLinkStats, delta: u64) -> bool {
    &&& t.file_stats.file_count + fs.file_count <= u64::MAX
    &&& t.file_stats.byte_count + fs.byte_count <= u64::MAX
    &&& t.file_stats.stored_byte_count + fs.stored_byte_count <= u64::MAX
    &&& t.sym_link_stats.dir_sym_link_count + ss.dir_sym_link_count <= u64::MAX
    &&& t.sym_link_stats.file_sym_link_count + ss.file_sym_link_count <= u64::MAX
    &&& t.delta_repo_size + delta <= u64::MAX
}

impl PopulateTotals {
    /// Nothing recorded yet.
    pub fn new() -> (r: PopulateTotals)
        ensures
            r.file_stats == (FileStats { file_count: 0, byte_count: 0, stored_byte_count: 0 }),
            r.sym_link_stats == (SymLinkStats { dir_sym_link_count: 0, file_sym_link_count: 0 }),
            r.delta_repo_size == 0,
    {
        PopulateTotals {
            file_stats: FileStats { file_count: 0, byte_count: 0, stored_byte_count: 0 },
            sym_link_stats: SymLinkStats { dir_sym_link_count: 0, file_sym_link_count: 0 },
            delta_repo_size: 0,
        }
    }

    /// Whether adding these counts stays within the counters' range.
    pub fn fits(&self, fs: FileStats, ss: SymLinkStats, delta: u64) -> (r: bool)
        ensures
            r == sum_fits(*self, fs, ss, delta),
    {
        fs.file_count <= u64::MAX - self.file_stats.file_count
            && fs.byte_count <= u64::MAX - self.file_stats.byte_count
            && fs.stored_byte_count <= u64::MAX - self.file_stats.stored_byte_count
            && ss.dir_sym_link_count <= u64::MAX - self.sym_link_stats.dir_sym_link_count
            && ss.file_sym_link_count <= u64::MAX - self.sym_link_stats.file_sym_link_count
            && delta <= u64::MAX - self.delta_repo_size
    }

    /// Adds one more item's counts, field by field.
    pub fn add(&mut self, fs: FileStats, ss: SymLinkStats, delta: u64)
        requires
            sum_fits(*old(self), fs, ss, delta),
        ensures
            final(self).file_stats.file_count == old(self).file_stats.file_count + fs.file_count,
            final(self).file_stats.byte_count == old(self).file_stats.byte_count + fs.byte_count,
            final(self).file_stats.stored_byte_count == old(self).file_stats.stored_byte_count + fs.stored_byte_count,
            final(self).sym_link_stats.dir_sym_link_count == old(self).sym_link_stats.dir_sym_link_count + ss.dir_sym_link_count,
            final(self).sym_link_stats.file_sym_link_count == old(self).sym_link_stats.file_sym_link_count + ss.file_sym_link_count,
            final(self).delta_repo_size == old(self).delta_repo_size + delta,
    {
        self.file_stats.add_assign(fs);
        self.sym_link_stats.add_assign(ss);
        self.delta_repo_size = self.delta_repo_size + delta;
    }
}

/// What a file's record adds to the counts: one file of its size, stored
/// in `stored_size` bytes.
pub fn file_stats_for(attributes: &Attributes, stored_size: u64) -> (r: FileStats)
    ensures
        r.file_count == 1,
        r.byte_count == attributes.st_size,
        r.stored_byte_count == stored_size,
{
    FileStats { file_count: 1, byte_count: attributes.size(), stored_byte_count: stored_size }
}

/// What a link's record adds to the counts: one link, counted among the
/// links to files whatever it leads to.
pub fn sym_link_stats_for(is_file: bool) -> (r: SymLinkStats)
    ensures
        r.dir_sym_link_count == 0,
        r.file_sym_link_count == 1,
{
    if is_file {
        SymLinkStats { dir_sym_link_count: 0, file_sym_link_count: 1 }
    } else {
        SymLinkStats { dir_sym_link_count: 0, file_sym_link_count: 1 }
    }
}

/// Counts of what an extraction wrote.
#[derive(Debug, Clone, Copy, PartialEq, Eq)]
pub struct ExtractionStats {
    pub dir_count: u64,
    pub file_count: u64,
    pub bytes_count: u64,
    pub dir_sym_link_count: u64,
    pub file_sym_link_count: u64,
}

impl Default for ExtractionStats {
    fn default() -> (r: ExtractionStats)
        ensures
            r.dir_count == 0 && r.file_count == 0 && r.bytes_count == 0
                && r.dir_sym_link_count == 0 && r.file_sym_link_count == 0,
    {
        ExtractionStats { dir_count: 0, file_count: 0, bytes_count: 0, dir_sym_link_count: 0, file_sym_link_count: 0 }
    }
}

impl DirectoryData {
    /// The objects of the directory, in ascending order of name.
    pub fn contents(&self) -> (r: &Vec<FileSystemObject>)
        ensures
            r@ == self.spec_contents(),
    {
        &self.contents
    }
}

impl DirectoryData {
    /// The directory where the tree starts to branch: going down while a
    /// directory holds exactly one object and that object is a directory.
    pub open spec fn base_dir_of(&self) -> DirectoryData
        decreases self,
    {
        if self.spec_contents().len() == 1 {
            match self.spec_contents()[0] {
                FileSystemObject::Directory(c) => c.base_dir_of(),
                _ => *self,
            }
        } else {
            *self
        }
    }

    /// The directory where the tree below this one starts to branch.
    pub fn base_dir(&self) -> (r: &DirectoryData)
        ensures
            *r == self.base_dir_of(),
        decreases self,
    {
        if self.contents.len() == 1 {
            match &self.contents[0] {
                FileSystemObject::Directory(c) => c.base_dir(),
                _ => self,
            }
        } else {
            self
        }
    }
}

/// The base directory is where the recorded tree starts to branch: a
/// directory that does not hold exactly one object, or holds one that is
/// not a directory, is its own base; one that holds a single
/// sub-directory has that sub-directory's base; and the base never holds
/// exactly one object that is a directory.
pub proof fn law_base_dir_branches(d: DirectoryData)
    ensures
        d.spec_contents().len() != 1 ==> d.base_dir_of() == d,
        d.spec_contents().len() == 1 && !(d.spec_contents()[0] is Directory) ==> d.base_dir_of() == d,
        d.spec_contents().len() == 1 && d.spec_contents()[0] is Directory
            ==> d.base_dir_of() == (d.spec_contents()[0]->Directory_0).base_dir_of(),
        !(d.base_dir_of().spec_contents().len() == 1 && d.base_dir_of().spec_contents()[0] is Directory),
    decreases d,
{
    if d.spec_contents().len() == 1 {
        if let FileSystemObject::Directory(c) = d.spec_contents()[0] {
            law_base_dir_branches(c);
        }
    }
}

/// Two directories are at the same path with the same attributes.
pub open spec fn same_place(a: DirectoryData, b: DirectoryData) -> bool {
    a.spec_path() == b.spec_path() && a.spec_attributes() == b.spec_attributes()
}

/// Every directory found in `old` is still found in `new`, at the same
/// path with the same attributes.
pub open spec fn dir_keeps(old: DirectoryData, new: DirectoryData) -> bool {
    forall|q: Seq<PathComponent>| #[trigger] old.walk(q) is Found ==> {
        &&& new.walk(q) is Found
        &&& same_place(old.walk(q)->Found_0, new.walk(q)->Found_0)
    }
}

/// Every directory found in `new` but not in `old` lies on the way down
/// `rest`.
pub open spec fn dir_grows_along(old: DirectoryData, new: DirectoryData, rest: Seq<PathComponent>) -> bool {
    forall|q: Seq<PathComponent>| #[trigger] new.walk(q) is Found ==> old.walk(q) is Found || leads(q, rest)
}

/// Every object other than a directory that `old` records, in any of its
/// directories, `new` records unchanged under the same name in the
/// directory at the same place. (Directories themselves are kept by
/// `dir_keeps`.)
pub open spec fn entries_kept(old: DirectoryData, new: DirectoryData) -> bool {
    forall|q: Seq<PathComponent>, n: Seq<char>|
        #![trigger entry_named((old.walk(q)->Found_0).spec_contents(), n)]
        old.walk(q) is Found
        && entry_named((old.walk(q)->Found_0).spec_contents(), n) is Some
        && !(entry_named((old.walk(q)->Found_0).spec_contents(), n)->Some_0 is Directory)
        ==> new.walk(q) is Found
            && entry_named((new.walk(q)->Found_0).spec_contents(), n)
                == entry_named((old.walk(q)->Found_0).spec_contents(), n)
}

/// Keeping entries carries over from one change to the next.
proof fn lemma_entries_kept_trans(a: DirectoryData, b: DirectoryData, c: DirectoryData)
    requires
        dir_keeps(a, b),
        entries_kept(a, b),
        entries_kept(b, c),
    ensures
        entries_kept(a, c),
{
    assert forall|q: Seq<PathComponent>, n: Seq<char>|
        a.walk(q) is Found
        && entry_named((a.walk(q)->Found_0).spec_contents(), n) is Some
        && !(entry_named((a.walk(q)->Found_0).spec_contents(), n)->Some_0 is Directory)
        implies c.walk(q) is Found
            && entry_named((c.walk(q)->Found_0).spec_contents(), n)
                == #[trigger] entry_named((a.walk(q)->Found_0).spec_contents(), n) by {
        assert(entry_named((b.walk(q)->Found_0).spec_contents(), n) == entry_named((a.walk(q)->Found_0).spec_contents(), n));
    }
}

/// `new` keeps what `old` records: its place, every directory at the same
/// place and every other object unchanged. (It may record more.)
pub open spec fn keeps_recorded(old: DirectoryData, new: DirectoryData) -> bool {
    &&& same_place(old, new)
    &&& dir_keeps(old, new)
    &&& entries_kept(old, new)
}

/// Adding an object under a name that was free keeps what was recorded.
proof fn lemma_insert_keeps(p: DirectoryData, q: DirectoryData, obj: FileSystemObject)
    requires
        entry_named(p.spec_contents(), obj.spec_name()) is None,
        q.spec_path() == p.spec_path(),
        q.spec_attributes() == p.spec_attributes(),
        forall|m: Seq<char>| #[trigger] entry_named(q.spec_contents(), m) == if m == obj.spec_name() {
            Some(obj)
        } else {
            entry_named(p.spec_contents(), m)
        },
    ensures
        keeps_recorded(p, q),
{
    assert forall|w: Seq<PathComponent>| #[trigger] p.walk(w) is Found implies q.walk(w) is Found
        && same_place(p.walk(w)->Found_0, q.walk(w)->Found_0) by {
        if w.len() > 0 {
            let m = w[0]->Normal_0;
            assert(entry_named(q.spec_contents(), m) == entry_named(p.spec_contents(), m));
            assert(q.walk(w) == p.walk(w));
        }
    }
    assert forall|w: Seq<PathComponent>, n: Seq<char>|
        p.walk(w) is Found
        && entry_named((p.walk(w)->Found_0).spec_contents(), n) is Some
        && !(entry_named((p.walk(w)->Found_0).spec_contents(), n)->Some_0 is Directory)
        implies q.walk(w) is Found
            && entry_named((q.walk(w)->Found_0).spec_contents(), n)
                == #[trigger] entry_named((p.walk(w)->Found_0).spec_contents(), n) by {
        if w.len() > 0 {
            let m = w[0]->Normal_0;
            assert(entry_named(q.spec_contents(), m) == entry_named(p.spec_contents(), m));
            assert(q.walk(w) == p.walk(w));
        } else {
            assert(entry_named(q.spec_contents(), n) == entry_named(p.spec_contents(), n));
        }
    }
}

/// Putting in place of the sub-directory at `idx` one that keeps what it
/// recorded keeps what the parent recorded.
proof fn lemma_replace_keeps(p: DirectoryData, q: DirectoryData, idx: int, c_new: DirectoryData)
    requires
        names_ascending(p.spec_contents()),
        0 <= idx < p.spec_contents().len(),
        p.spec_contents()[idx] is Directory,
        keeps_recorded(p.spec_contents()[idx]->Directory_0, c_new),
        q.spec_path() == p.spec_path(),
        q.spec_attributes() == p.spec_attributes(),
        q.spec_contents() == p.spec_contents().update(idx, FileSystemObject::Directory(c_new)),
    ensures
        keeps_recorded(p, q),
{
    let c_old = p.spec_contents()[idx]->Directory_0;
    let name = c_old.spec_name();
    assert(c_new.spec_name() == name);
    lemma_update_same_name(p.spec_contents(), idx, FileSystemObject::Directory(c_new));
    lemma_entry_at(p.spec_contents(), idx);
    assert forall|w: Seq<PathComponent>| #[trigger] p.walk(w) is Found implies q.walk(w) is Found
        && same_place(p.walk(w)->Found_0, q.walk(w)->Found_0) by {
        if w.len() > 0 {
            let m = w[0]->Normal_0;
            if m == name {
                assert(p.walk(w) == c_old.walk(w.drop_first()));
                assert(q.walk(w) == c_new.walk(w.drop_first()));
                assert(c_old.walk(w.drop_first()) is Found);
            } else {
                assert(q.walk(w) == p.walk(w));
            }
        }
    }
    assert forall|w: Seq<PathComponent>, n: Seq<char>|
        p.walk(w) is Found
        && entry_named((p.walk(w)->Found_0).spec_contents(), n) is Some
        && !(entry_named((p.walk(w)->Found_0).spec_contents(), n)->Some_0 is Directory)
        implies q.walk(w) is Found
            && entry_named((q.walk(w)->Found_0).spec_contents(), n)
                == #[trigger] entry_named((p.walk(w)->Found_0).spec_contents(), n) by {
        if w.len() > 0 {
            let m = w[0]->Normal_0;
            if m == name {
                assert(p.walk(w) == c_old.walk(w.drop_first()));
                assert(q.walk(w) == c_new.walk(w.drop_first()));
                assert(entry_named((c_old.walk(w.drop_first())->Found_0).spec_contents(), n)
                    == entry_named((p.walk(w)->Found_0).spec_contents(), n));
            } else {
                assert(q.walk(w) == p.walk(w));
            }
        }
    }
}

/// `lemma_replace_keeps` for every replacement at once.
proof fn lemma_replace_keeps_any(p: DirectoryData, idx: int)
    requires
        p.wf(),
        0 <= idx < p.spec_contents().len(),
        p.spec_contents()[idx] is Directory,
    ensures
        forall|q: DirectoryData, c: DirectoryData|
            #![trigger keeps_recorded(p.spec_contents()[idx]->Directory_0, c), keeps_recorded(p, q)]
            keeps_recorded(p.spec_contents()[idx]->Directory_0, c)
            && q.spec_path() == p.spec_path() && q.spec_attributes() == p.spec_attributes()
            && q.spec_contents() == p.spec_contents().update(idx, FileSystemObject::Directory(c))
            ==> keeps_recorded(p, q),
{
    assert forall|q: DirectoryData, c: DirectoryData|
        #![trigger keeps_recorded(p.spec_contents()[idx]->Directory_0, c), keeps_recorded(p, q)]
        keeps_recorded(p.spec_contents()[idx]->Directory_0, c)
        && q.spec_path() == p.spec_path() && q.spec_attributes() == p.spec_attributes()
        && q.spec_contents() == p.spec_contents().update(idx, FileSystemObject::Directory(c))
        implies keeps_recorded(p, q) by {
        lemma_replace_keeps(p, q, idx, c);
    }
}

/// A recording is a run of changes, each of which keeps what was
/// recorded before it: adding an object under a name that is free
/// (`insert_object`), changing a sub-directory in a way that keeps what it
/// recorded (`subdir_at_mut`, `find_subdir_mut`), or adding the
/// directories on the way to a path (`find_or_add_subdir`). The whole run keeps what was recorded at
/// its start: every directory, at the same place, and every other object,
/// unchanged.
pub proof fn law_recording_keeps(states: Seq<DirectoryData>)
    requires
        states.len() > 0,
        forall|i: int| 0 <= i < states.len() - 1 ==> keeps_recorded(#[trigger] states[i], states[i + 1]),
    ensures
        keeps_recorded(states[0], states.last()),
    decreases states.len(),
{
    if states.len() > 1 {
        let init = states.drop_last();
        assert forall|i: int| 0 <= i < init.len() - 1 implies keeps_recorded(#[trigger] init[i], init[i + 1]) by {
            assert(init[i] == states[i] && init[i + 1] == states[i + 1]);
        }
        law_recording_keeps(init);
        let a = states[0];
        let b = init.last();
        let c = states.last();
        assert(b == states[states.len() - 2]);
        assert(keeps_recorded(b, c));
        lemma_entries_kept_trans(a, b, c);
        assert(dir_keeps(a, c)) by {
            assert forall|w: Seq<PathComponent>| #[trigger] a.walk(w) is Found implies c.walk(w) is Found
                && same_place(a.walk(w)->Found_0, c.walk(w)->Found_0) by {
                assert(b.walk(w) is Found);
            }
        }
    }
}

/// Every directory that `new` records and `old` does not was added for a
/// call of `stat`: its path is its parent's path joined with its name, and
/// `stat`, called with that path, gave its attributes.
pub open spec fn stat_made<F: Fn(&str) -> Result<Attributes, IoErrorKind>>(
    old: DirectoryData,
    new: DirectoryData,
    stat: F,
) -> bool {
    forall|q: Seq<PathComponent>| #[trigger] new.walk(q) is Found && !(old.walk(q) is Found) ==> {
        &&& q.len() > 0
        &&& q.last() is Normal
        &&& new.walk(q.drop_last()) is Found
        &&& (new.walk(q)->Found_0).spec_path()
            == spec_join((new.walk(q.drop_last())->Found_0).spec_path(), q.last()->Normal_0)
        &&& exists|p: &str| p@ == (new.walk(q)->Found_0).spec_path()
            && #[trigger] stat.ensures((p,), Ok::<Attributes, IoErrorKind>((new.walk(q)->Found_0).spec_attributes()))
    }
}

/// `p` is the path of a directory on the way down `rest` from `d` that
/// `d` does not record.
pub open spec fn missing_along(d: DirectoryData, p: Seq<char>, rest: Seq<PathComponent>) -> bool {
    &&& lies_below(p, d.spec_path())
    &&& rest_below(p, d.spec_path()).len() > 0
    &&& leads(rest_below(p, d.spec_path()), rest)
    &&& !(d.walk(rest_below(p, d.spec_path())) is Found)
}

/// Adding an empty sub-directory, made for a call of `stat` on its path,
/// adds only that directory.
proof fn lemma_add_empty_stat_made<F: Fn(&str) -> Result<Attributes, IoErrorKind>>(
    p: DirectoryData,
    q: DirectoryData,
    c: DirectoryData,
    stat: F,
    cp: &str,
)
    requires
        c.spec_contents().len() == 0,
        entry_named(p.spec_contents(), c.spec_name()) is None,
        q.spec_path() == p.spec_path(),
        forall|m: Seq<char>| #[trigger] entry_named(q.spec_contents(), m) == if m == c.spec_name() {
            Some(FileSystemObject::Directory(c))
        } else {
            entry_named(p.spec_contents(), m)
        },
        c.spec_path() == spec_join(p.spec_path(), c.spec_name()),
        cp@ == c.spec_path(),
        stat.ensures((cp,), Ok::<Attributes, IoErrorKind>(c.spec_attributes())),
    ensures
        stat_made(p, q, stat),
{
    assert forall|w: Seq<PathComponent>| #[trigger] q.walk(w) is Found && !(p.walk(w) is Found) implies {
        &&& w.len() > 0
        &&& w.last() is Normal
        &&& q.walk(w.drop_last()) is Found
        &&& (q.walk(w)->Found_0).spec_path()
            == spec_join((q.walk(w.drop_last())->Found_0).spec_path(), w.last()->Normal_0)
        &&& exists|pp: &str| pp@ == (q.walk(w)->Found_0).spec_path()
            && #[trigger] stat.ensures((pp,), Ok::<Attributes, IoErrorKind>((q.walk(w)->Found_0).spec_attributes()))
    } by {
        assert(w.len() > 0);
        let m = w[0]->Normal_0;
        assert(entry_named(q.spec_contents(), m) == if m == c.spec_name() {
            Some(FileSystemObject::Directory(c))
        } else {
            entry_named(p.spec_contents(), m)
        });
        if m != c.spec_name() {
            assert(q.walk(w) == p.walk(w));
        }
        assert(q.walk(w) == c.walk(w.drop_first()));
        if w.drop_first().len() > 0 {
            assert(entry_named(c.spec_contents(), w.drop_first()[0]->Normal_0) is None);
        }
        assert(w.len() == 1);
        assert(w.drop_last() =~= Seq::<PathComponent>::empty());
        assert(w.last() == w[0]);
        assert(q.walk(w) == DirWalk::Found(c));
    }
}

/// Putting a sub-directory grown by calls of `stat` in place of the one
/// at `idx` grows the parent only by those calls.
proof fn lemma_replace_stat_made<F: Fn(&str) -> Result<Attributes, IoErrorKind>>(
    p: DirectoryData,
    q: DirectoryData,
    idx: int,
    c_old: DirectoryData,
    c_new: DirectoryData,
    stat: F,
)
    requires
        names_ascending(p.spec_contents()),
        0 <= idx < p.spec_contents().len(),
        p.spec_contents()[idx] == FileSystemObject::Directory(c_old),
        c_new.spec_path() == c_old.spec_path(),
        q.spec_path() == p.spec_path(),
        q.spec_contents() == p.spec_contents().update(idx, FileSystemObject::Directory(c_new)),
        stat_made(c_old, c_new, stat),
    ensures
        stat_made(p, q, stat),
{
    let name = c_old.spec_name();
    lemma_update_same_name(p.spec_contents(), idx, FileSystemObject::Directory(c_new));
    lemma_entry_at(p.spec_contents(), idx);
    assert forall|w: Seq<PathComponent>| #[trigger] q.walk(w) is Found && !(p.walk(w) is Found) implies {
        &&& w.len() > 0
        &&& w.last() is Normal
        &&& q.walk(w.drop_last()) is Found
        &&& (q.walk(w)->Found_0).spec_path()
            == spec_join((q.walk(w.drop_last())->Found_0).spec_path(), w.last()->Normal_0)
        &&& exists|pp: &str| pp@ == (q.walk(w)->Found_0).spec_path()
            && #[trigger] stat.ensures((pp,), Ok::<Attributes, IoErrorKind>((q.walk(w)->Found_0).spec_attributes()))
    } by {
        assert(w.len() > 0);
        let m = w[0]->Normal_0;
        if m != name {
            assert(q.walk(w) == p.walk(w));
        }
        let w2 = w.drop_first();
        assert(q.walk(w) == c_new.walk(w2));
        assert(p.walk(w) == c_old.walk(w2));
        assert(c_new.walk(w2) is Found && !(c_old.walk(w2) is Found));
        assert(w2.len() > 0);
        assert(w.last() == w2.last());
        let wd = w.drop_last();
        assert(wd.len() > 0 && wd[0] == w[0]);
        assert(wd.drop_first() =~= w2.drop_last());
        assert(q.walk(wd) == c_new.walk(w2.drop_last()));
    }
}

/// A directory missing below a sub-directory is missing below its parent,
/// when the sub-directory is the one the parent records under its name or
/// the parent records nothing under that name.
proof fn lemma_missing_lifts(before: DirectoryData, c: DirectoryData, name: Seq<char>, p: Seq<char>, rest: Seq<PathComponent>)
    requires
        path_components(c.spec_path()) == path_components(before.spec_path()).push(PathComponent::Normal(name)),
        rest.len() > 0,
        rest[0] == PathComponent::Normal(name),
        missing_along(c, p, rest.drop_first()),
        entry_named(before.spec_contents(), name) is None
            || entry_named(before.spec_contents(), name) == Some(FileSystemObject::Directory(c)),
    ensures
        missing_along(before, p, rest),
{
    let pb = path_components(before.spec_path());
    let pc = path_components(c.spec_path());
    let pp = path_components(p);
    let r1 = pp.skip(pc.len() as int);
    assert(pp.take(pc.len() as int) == pc);
    assert(pp.take(pb.len() as int) =~= pb) by {
        assert(pp.take(pb.len() as int) =~= pp.take(pc.len() as int).take(pb.len() as int));
    }
    let w = pp.skip(pb.len() as int);
    assert(w =~= seq![PathComponent::Normal(name)] + r1) by {
        assert(pp[pb.len() as int] == pc[pb.len() as int]);
    }
    assert(w.drop_first() =~= r1);
    assert(rest.drop_first().take(r1.len() as int) == r1);
    assert(rest.take(w.len() as int) =~= w) by {
        assert(rest.take(w.len() as int) =~= seq![rest[0]] + rest.drop_first().take(r1.len() as int));
    }
    assert(w[0] == PathComponent::Normal(name));
}

/// Growing by calls of `stat` carries over from one change to the next.
proof fn lemma_stat_made_trans<F: Fn(&str) -> Result<Attributes, IoErrorKind>>(
    a: DirectoryData,
    b: DirectoryData,
    c: DirectoryData,
    stat: F,
)
    requires
        stat_made(a, b, stat),
        stat_made(b, c, stat),
        dir_keeps(b, c),
    ensures
        stat_made(a, c, stat),
{
    assert forall|w: Seq<PathComponent>| #[trigger] c.walk(w) is Found && !(a.walk(w) is Found) implies {
        &&& w.len() > 0
        &&& w.last() is Normal
        &&& c.walk(w.drop_last()) is Found
        &&& (c.walk(w)->Found_0).spec_path()
            == spec_join((c.walk(w.drop_last())->Found_0).spec_path(), w.last()->Normal_0)
        &&& exists|pp: &str| pp@ == (c.walk(w)->Found_0).spec_path()
            && #[trigger] stat.ensures((pp,), Ok::<Attributes, IoErrorKind>((c.walk(w)->Found_0).spec_attributes()))
    } by {
        if b.walk(w) is Found {
            assert(b.walk(w.drop_last()) is Found);
            assert(c.walk(w.drop_last()) is Found);
        }
    }
}

/// Along `rest`, no name is taken by an object that is not a directory.
pub open spec fn unblocked(d: DirectoryData, rest: Seq<PathComponent>) -> bool
    decreases rest.len(),
{
    if rest.len() == 0 {
        true
    } else {
        match rest[0] {
            PathComponent::Normal(n) => match entry_named(d.spec_contents(), n) {
                Some(FileSystemObject::Directory(c)) => unblocked(c, rest.drop_first()),
                Some(_) => false,
                None => true,
            },
            _ => true,
        }
    }
}

/// Replacing an object by one of the same name changes the lookup of
/// that name only.
proof fn lemma_update_same_name(contents: Seq<FileSystemObject>, idx: int, obj: FileSystemObject)
    requires
        names_ascending(contents),
        0 <= idx < contents.len(),
        obj.spec_name() == contents[idx].spec_name(),
    ensures
        names_ascending(contents.update(idx, obj)),
        forall|m: Seq<char>| #[trigger] entry_named(contents.update(idx, obj), m) == if m == obj.spec_name() {
            Some(obj)
        } else {
            entry_named(contents, m)
        },
{
    let ns = contents.update(idx, obj);
    assert forall|a: int, b: int| 0 <= a < b < ns.len() implies seq_lt(#[trigger] ns[a].spec_name(), #[trigger] ns[b].spec_name()) by {
        assert(ns[a].spec_name() == contents[a].spec_name());
        assert(ns[b].spec_name() == contents[b].spec_name());
    }
    assert forall|m: Seq<char>| #[trigger] entry_named(ns, m) == if m == obj.spec_name() {
        Some(obj)
    } else {
        entry_named(contents, m)
    } by {
        if m == obj.spec_name() {
            lemma_entry_at(ns, idx);
        } else if exists|k: int| 0 <= k < contents.len() && (#[trigger] contents[k]).spec_name() == m {
            let k = choose|k: int| 0 <= k < contents.len() && (#[trigger] contents[k]).spec_name() == m;
            lemma_entry_at(contents, k);
            assert(k != idx);
            assert(ns[k] == contents[k]);
            lemma_entry_at(ns, k);
        } else {
            assert forall|k: int| 0 <= k < ns.len() implies (#[trigger] ns[k]).spec_name() != m by {
                if k != idx {
                    assert(ns[k] == contents[k]);
                }
            }
        }
    }
}

/// Putting a grown sub-directory in place of the one at `idx` keeps the
/// parent and grows it only along `rest`.
proof fn lemma_replace_walks(
    p: DirectoryData,
    q: DirectoryData,
    idx: int,
    c_old: DirectoryData,
    c_new: DirectoryData,
    rest: Seq<PathComponent>,
)
    requires
        names_ascending(p.spec_contents()),
        0 <= idx < p.spec_contents().len(),
        p.spec_contents()[idx] == FileSystemObject::Directory(c_old),
        c_new.spec_path() == c_old.spec_path(),
        q.spec_path() == p.spec_path(),
        q.spec_attributes() == p.spec_attributes(),
        q.spec_contents() == p.spec_contents().update(idx, FileSystemObject::Directory(c_new)),
        rest.len() > 0,
        rest[0] == PathComponent::Normal(c_old.spec_name()),
        dir_keeps(c_old, c_new),
        dir_grows_along(c_old, c_new, rest.drop_first()),
        entries_kept(c_old, c_new),
    ensures
        dir_keeps(p, q),
        dir_grows_along(p, q, rest),
        entries_kept(p, q),
{
    let name = c_old.spec_name();
    lemma_update_same_name(p.spec_contents(), idx, FileSystemObject::Directory(c_new));
    lemma_entry_at(p.spec_contents(), idx);
    assert forall|w: Seq<PathComponent>, n: Seq<char>|
        p.walk(w) is Found
        && entry_named((p.walk(w)->Found_0).spec_contents(), n) is Some
        && !(entry_named((p.walk(w)->Found_0).spec_contents(), n)->Some_0 is Directory)
        implies q.walk(w) is Found
            && entry_named((q.walk(w)->Found_0).spec_contents(), n)
                == #[trigger] entry_named((p.walk(w)->Found_0).spec_contents(), n) by {
        if w.len() > 0 {
            let m = w[0]->Normal_0;
            if m == name {
                assert(p.walk(w) == c_old.walk(w.drop_first()));
                assert(q.walk(w) == c_new.walk(w.drop_first()));
                assert(entry_named((c_old.walk(w.drop_first())->Found_0).spec_contents(), n)
                    == entry_named((p.walk(w)->Found_0).spec_contents(), n));
            } else {
                assert(q.walk(w) == p.walk(w));
            }
        }
    }
    assert forall|w: Seq<PathComponent>| #[trigger] p.walk(w) is Found implies q.walk(w) is Found
        && same_place(p.walk(w)->Found_0, q.walk(w)->Found_0) by {
        if w.len() > 0 {
            let m = w[0]->Normal_0;
            if m == name {
                assert(p.walk(w) == c_old.walk(w.drop_first()));
                assert(c_old.walk(w.drop_first()) is Found);
            }
        }
    }
    assert forall|w: Seq<PathComponent>| #[trigger] q.walk(w) is Found implies p.walk(w) is Found || leads(w, rest) by {
        if w.len() > 0 {
            let m = w[0]->Normal_0;
            if m == name {
                assert(q.walk(w) == c_new.walk(w.drop_first()));
                assert(c_new.walk(w.drop_first()) is Found);
                if !(c_old.walk(w.drop_first()) is Found) {
                    assert(leads(w.drop_first(), rest.drop_first()));
                    assert(rest.take(w.len() as int) =~= seq![rest[0]] + rest.drop_first().take(w.len() - 1));
                    assert(w =~= seq![w[0]] + w.drop_first());
                }
            }
        } else {
            assert(rest.take(0) =~= w);
        }
    }
}

/// Adding an empty sub-directory called `n` keeps the parent and grows it
/// only along a `rest` that starts with `n`.
proof fn lemma_add_empty_walks(p: DirectoryData, q: DirectoryData, c: DirectoryData, rest: Seq<PathComponent>)
    requires
        c.spec_contents().len() == 0,
        entry_named(p.spec_contents(), c.spec_name()) is None,
        q.spec_path() == p.spec_path(),
        q.spec_attributes() == p.spec_attributes(),
        forall|m: Seq<char>| #[trigger] entry_named(q.spec_contents(), m) == if m == c.spec_name() {
            Some(FileSystemObject::Directory(c))
        } else {
            entry_named(p.spec_contents(), m)
        },
        rest.len() > 0,
        rest[0] == PathComponent::Normal(c.spec_name()),
    ensures
        dir_keeps(p, q),
        dir_grows_along(p, q, rest),
        entries_kept(p, q),
{
    assert forall|w: Seq<PathComponent>, n: Seq<char>|
        p.walk(w) is Found
        && entry_named((p.walk(w)->Found_0).spec_contents(), n) is Some
        && !(entry_named((p.walk(w)->Found_0).spec_contents(), n)->Some_0 is Directory)
        implies q.walk(w) is Found
            && entry_named((q.walk(w)->Found_0).spec_contents(), n)
                == #[trigger] entry_named((p.walk(w)->Found_0).spec_contents(), n) by {
        if w.len() > 0 {
            let m = w[0]->Normal_0;
            assert(entry_named(q.spec_contents(), m) == if m == c.spec_name() {
                Some(FileSystemObject::Directory(c))
            } else {
                entry_named(p.spec_contents(), m)
            });
            assert(q.walk(w) == p.walk(w));
        } else {
            assert(entry_named(q.spec_contents(), n) == if n == c.spec_name() {
                Some(FileSystemObject::Directory(c))
            } else {
                entry_named(p.spec_contents(), n)
            });
        }
    }
    assert forall|w: Seq<PathComponent>| #[trigger] p.walk(w) is Found implies q.walk(w) is Found
        && same_place(p.walk(w)->Found_0, q.walk(w)->Found_0) by {
        if w.len() > 0 {
            let m = w[0]->Normal_0;
            assert(entry_named(q.spec_contents(), m) == if m == c.spec_name() {
                Some(FileSystemObject::Directory(c))
            } else {
                entry_named(p.spec_contents(), m)
            });
        }
    }
    assert forall|w: Seq<PathComponent>| #[trigger] q.walk(w) is Found implies p.walk(w) is Found || leads(w, rest) by {
        if w.len() > 0 {
            let m = w[0]->Normal_0;
            assert(entry_named(q.spec_contents(), m) == if m == c.spec_name() {
                Some(FileSystemObject::Directory(c))
            } else {
                entry_named(p.spec_contents(), m)
            });
            if m == c.spec_name() {
                assert(q.walk(w) == c.walk(w.drop_first()));
                if w.drop_first().len() > 0 {
                    let m2 = w.drop_first()[0]->Normal_0;
                    assert(entry_named(c.spec_contents(), m2) is None);
                }
                assert(w.len() == 1);
                assert(rest.take(1) =~= w);
            }
        } else {
            assert(rest.take(0) =~= w);
        }
    }
}

impl DirectoryData {
    /// The directory at `path`, which lies at or below this one, adding
    /// the directories missing on the way down. The attributes of each
    /// added directory are found by calling `stat` with its path; when a
    /// call fails its failure is handed back and the directories added
    /// above it stay. A component that is not a name stops the way down.
    fn add_subdirs_along<F: Fn(&str) -> Result<Attributes, IoErrorKind>>(
        &mut self,
        path: &str,
        stat: &F,
    ) -> (r: Result<(), Error>)
        requires
            old(self).wf(),
            lies_below(path@, old(self).spec_path()),
            unblocked(*old(self), rest_below(path@, old(self).spec_path())),
            forall|p: &str| stat.requires((p,)),
        ensures
            final(self).wf(),
            same_place(*old(self), *final(self)),
            dir_keeps(*old(self), *final(self)),
            entries_kept(*old(self), *final(self)),
            stat_made(*old(self), *final(self), *stat),
            dir_grows_along(*old(self), *final(self), rest_below(path@, old(self).spec_path())),
            match r {
                Ok(()) => final(self).walk(rest_below(path@, old(self).spec_path())) is Found,
                Err(Error::IOError(k)) => exists|p: &str| #[trigger] stat.ensures((p,), Err::<Attributes, IoErrorKind>(k))
                    && missing_along(*old(self), p@, rest_below(path@, old(self).spec_path())),
                Err(Error::FSOMalformedPath(s)) => {
                    &&& final(self).walk(rest_below(path@, old(self).spec_path())) is Malformed
                    &&& s@ == render_rel(final(self).malformed_rest(rest_below(path@, old(self).spec_path())))
                },
                Err(_) => false,
            },
        decreases path_components(path@).len() - path_components(old(self).spec_path()).len(),
    {
        let ghost rest = rest_below(path@, self.spec_path());
        let comps = components(path);
        let base = components(self.path.as_str());
        let b = base.len();
        proof {
            lemma_components_plain(path@);
            assert(dir_keeps(*old(self), *old(self)));
            assert(dir_grows_along(*old(self), *old(self), rest));
            assert(entries_kept(*old(self), *old(self)));
            assert(stat_made(*old(self), *old(self), *stat));
        }
        if comps.len() == b {
            assert(rest.len() == 0);
            return Ok(());
        }
        assert(rest[0] == comps_view(comps@)[b as int]);
        let name: String = match &comps[b] {
            Component::Normal(n) => n.clone(),
            _ => {
                let tail = render_rel_range(&comps, b, comps.len());
                assert(comps_view(comps@).subrange(b as int, comps@.len() as int) =~= rest);
                return Err(Error::FSOMalformedPath(tail));
            },
        };
        assert(is_plain_name(name@)) by {
            assert(path_components(path@)[b as int] == rest[0]);
        }
        let ghost before = *self;
        let found = self.index_for(name.as_str());
        proof { self.lemma_index_for_entry(name@, found); }
        let idx: usize = match found {
            Ok(i) => i,
            Err(i) => {
                let child_path = join(self.path.as_str(), name.as_str());
                proof { lemma_join_plain_name(self.spec_path(), name@); }
                let cp = child_path.as_str();
                let attributes = match stat(cp) {
                    Ok(a) => a,
                    Err(k) => {
                        proof {
                            let pb = path_components(before.spec_path());
                            let w = rest_below(cp@, before.spec_path());
                            assert(path_components(cp@).take(pb.len() as int) =~= pb);
                            assert(w =~= seq![PathComponent::Normal(name@)]);
                            assert(rest.take(1) =~= w);
                            assert(before.walk(w) is Missing);
                        }
                        return Err(Error::IOError(k));
                    },
                };
                let child = match self.new_child(name.as_str(), attributes) {
                    Some(c) => c,
                    None => { return Ok(()); },
                };
                let ghost c = child;
                assert(c.spec_name() == name@);
                let added = self.insert_object(FileSystemObject::Directory(child));
                proof {
                    lemma_add_empty_walks(before, *self, c, rest);
                    lemma_add_empty_stat_made(before, *self, c, *stat, cp);
                    assert(entry_named(self.spec_contents(), name@) == Some(FileSystemObject::Directory(c)));
                }
                let again = self.index_for(name.as_str());
                proof { self.lemma_index_for_entry(name@, again); }
                match again {
                    Ok(j) => j,
                    Err(_) => { return Ok(()); },
                }
            },
        };
        let ghost mid = *self;
        proof {
            lemma_entry_at(mid.spec_contents(), idx as int);
            assert(entry_named(mid.spec_contents(), name@) == Some(mid.spec_contents()[idx as int]));
        }
        let ghost c_mid = match mid.spec_contents()[idx as int] {
            FileSystemObject::Directory(c) => c,
            _ => mid,
        };
        proof {
            assert(mid.spec_contents()[idx as int] is Directory);
            assert(mid.spec_contents()[idx as int] == FileSystemObject::Directory(c_mid));
            let pa = path_components(path@);
            let pb = path_components(self.spec_path());
            let pc = path_components(c_mid.spec_path());
            assert(pc == pb.push(pc.last()));
            assert(pc.last() == PathComponent::Normal(name@));
            assert(pa.take(b + 1) =~= pb.push(PathComponent::Normal(name@)));
            assert(rest_below(path@, c_mid.spec_path()) =~= rest.drop_first());
            assert(c_mid.spec_name() == name@);
            assert(stat_made(before, mid, *stat));
            assert(entry_named(before.spec_contents(), name@) is None
                || entry_named(before.spec_contents(), name@) == Some(FileSystemObject::Directory(c_mid)));
        }
        let r = match self.subdir_at_mut(idx) {
            Some(child) => child.add_subdirs_along(path, stat),
            None => Ok(()),
        };
        proof {
            let fin = *self;
            let c_fin = match fin.spec_contents()[idx as int] {
                FileSystemObject::Directory(c) => c,
                _ => fin,
            };
            assert(fin.spec_contents() == mid.spec_contents().update(idx as int, FileSystemObject::Directory(c_fin)));
            lemma_replace_walks(mid, fin, idx as int, c_mid, c_fin, rest);
            lemma_entries_kept_trans(before, mid, fin);
            lemma_replace_stat_made(mid, fin, idx as int, c_mid, c_fin, *stat);
            lemma_stat_made_trans(before, mid, fin, *stat);
            if let Err(Error::IOError(k)) = r {
                let p = choose|p: &str| #[trigger] stat.ensures((p,), Err::<Attributes, IoErrorKind>(k))
                    && missing_along(c_mid, p@, rest.drop_first());
                lemma_missing_lifts(before, c_mid, name@, p@, rest);
            }
            assert(dir_keeps(before, fin)) by {
                assert forall|w: Seq<PathComponent>| #[trigger] before.walk(w) is Found implies fin.walk(w) is Found
                    && same_place(before.walk(w)->Found_0, fin.walk(w)->Found_0) by {
                    assert(mid.walk(w) is Found);
                }
            }
            assert(dir_grows_along(before, fin, rest)) by {
                assert forall|w: Seq<PathComponent>| #[trigger] fin.walk(w) is Found implies before.walk(w) is Found
                    || leads(w, rest) by {
                    if !leads(w, rest) {
                        assert(mid.walk(w) is Found);
                    }
                }
            }
            lemma_update_same_name(mid.spec_contents(), idx as int, FileSystemObject::Directory(c_fin));
            assert(entry_named(fin.spec_contents(), name@) == Some(FileSystemObject::Directory(c_fin)));
        }
        r
    }

    /// The directory at `path`, which lies at or below this one, adding
    /// the directories missing on the way down; once it succeeds,
    /// `find_subdir` finds a directory at `path`. When the path is recorded
    /// already nothing changes and `stat` is not called. The attributes of
    /// each added directory are found by calling `stat` with its path (its
    /// parent's path joined with its name); when a call fails its failure
    /// is handed back and the directories added above it stay. A component
    /// that is not a name stops the way down.
    pub fn find_or_add_subdir<F: Fn(&str) -> Result<Attributes, IoErrorKind>>(
        &mut self,
        path: &str,
        stat: &F,
    ) -> (r: Result<(), Error>)
        requires
            old(self).wf(),
            lies_below(path@, old(self).spec_path()),
            unblocked(*old(self), rest_below(path@, old(self).spec_path())),
            forall|p: &str| stat.requires((p,)),
        ensures
            final(self).wf(),
            same_place(*old(self), *final(self)),
            dir_keeps(*old(self), *final(self)),
            entries_kept(*old(self), *final(self)),
            stat_made(*old(self), *final(self), *stat),
            dir_grows_along(*old(self), *final(self), rest_below(path@, old(self).spec_path())),
            match r {
                Ok(()) => final(self).walk(rest_below(path@, old(self).spec_path())) is Found,
                Err(Error::IOError(k)) => exists|p: &str| #[trigger] stat.ensures((p,), Err::<Attributes, IoErrorKind>(k))
                    && missing_along(*old(self), p@, rest_below(path@, old(self).spec_path())),
                Err(Error::FSOMalformedPath(s)) => {
                    &&& final(self).walk(rest_below(path@, old(self).spec_path())) is Malformed
                    &&& s@ == render_rel(final(self).malformed_rest(rest_below(path@, old(self).spec_path())))
                },
                Err(_) => false,
            },
            keeps_recorded(*old(self), *final(self)),
            old(self).walk(rest_below(path@, old(self).spec_path())) is Found ==> r is Ok && *final(self) == *old(self),
            r is Ok ==> final(self).lookup_subdir(path@) is Found
                && path_components((final(self).lookup_subdir(path@)->Found_0).spec_path()) == path_components(path@),
    {
        let recorded = match self.find_subdir(path) {
            Ok(_) => true,
            Err(_) => false,
        };
        if recorded {
            proof {
                assert(dir_keeps(*self, *self));
                assert(entries_kept(*self, *self));
                assert(dir_grows_along(*self, *self, rest_below(path@, self.spec_path())));
                assert(stat_made(*self, *self, *stat));
            }
            return Ok(());
        }
        let r = self.add_subdirs_along(path, stat);
        proof {
            if r is Ok {
                law_found_after_adding(*self, path@);
            }
        }
        r
    }
}

/// The sub-directories among `contents`, in order.
pub open spec fn direct_subdirs(contents: Seq<FileSystemObject>) -> Seq<DirectoryData>
    decreases contents.len(),
{
    if contents.len() == 0 {
        Seq::empty()
    } else {
        let prev = direct_subdirs(contents.drop_last());
        match contents.last() {
            FileSystemObject::Directory(c) => prev.push(c),
            _ => prev,
        }
    }
}

/// The files among `contents`, in order.
pub open spec fn direct_files(contents: Seq<FileSystemObject>) -> Seq<FileData>
    decreases contents.len(),
{
    if contents.len() == 0 {
        Seq::empty()
    } else {
        let prev = direct_files(contents.drop_last());
        match contents.last() {
            FileSystemObject::File(f) => prev.push(f),
            _ => prev,
        }
    }
}

/// The links among `contents` that lead to files (`to_file`) or to
/// directories, in order.
pub open spec fn direct_links(contents: Seq<FileSystemObject>, to_file: bool) -> Seq<SymLinkData>
    decreases contents.len(),
{
    if contents.len() == 0 {
        Seq::empty()
    } else {
        let prev = direct_links(contents.drop_last(), to_file);
        match contents.last() {
            FileSystemObject::SymLink(l, f) => if f == to_file {
                prev.push(l)
            } else {
                prev
            },
            _ => prev,
        }
    }
}

impl DirectoryData {
    /// The order in which a copy visits the directories below this one:
    /// first its own sub-directories in order, then, from the last
    /// sub-directory to the first, the directories below each.
    pub open spec fn copy_order(&self) -> Seq<DirectoryData>
        decreases self, 1int,
    {
        direct_subdirs(self.spec_contents()) + tail_orders(self.spec_contents())
    }
}

/// The copy orders below the sub-directories of `contents`, from the last
/// to the first.
pub open spec fn tail_orders(contents: Seq<FileSystemObject>) -> Seq<DirectoryData>
    decreases contents, 0int,
{
    if contents.len() == 0 {
        Seq::empty()
    } else {
        let here = match contents.last() {
            FileSystemObject::Directory(c) => c.copy_order(),
            _ => Seq::empty(),
        };
        here + tail_orders(contents.drop_last())
    }
}


/// The values behind a sequence of references.
pub open spec fn derefs<T>(v: Seq<&T>) -> Seq<T> {
    v.map_values(|x: &T| *x)
}
impl DirectoryData {
    /// The sub-directories, in order.
    pub fn subdirs(&self) -> (r: Vec<&DirectoryData>)
        ensures
            derefs(r@) == direct_subdirs(self.spec_contents()),
    {
        let mut r: Vec<&DirectoryData> = Vec::new();
        let mut i: usize = 0;
        while i < self.contents.len()
            invariant
                i <= self.spec_contents().len(),
                derefs(r@) == direct_subdirs(self.spec_contents().take(i as int)),
            decreases self.spec_contents().len() - i,
        {
            assert(self.spec_contents().take(i + 1).drop_last() =~= self.spec_contents().take(i as int));
            if let FileSystemObject::Directory(d) = &self.contents[i] {
                r.push(d);
            }
            i = i + 1;
        }
        assert(self.spec_contents().take(i as int) =~= self.spec_contents());
        r
    }

    /// The files, in order.
    pub fn files(&self) -> (r: Vec<&FileData>)
        ensures
            derefs(r@) == direct_files(self.spec_contents()),
    {
        let mut r: Vec<&FileData> = Vec::new();
        let mut i: usize = 0;
        while i < self.contents.len()
            invariant
                i <= self.spec_contents().len(),
                derefs(r@) == direct_files(self.spec_contents().take(i as int)),
            decreases self.spec_contents().len() - i,
        {
            assert(self.spec_contents().take(i + 1).drop_last() =~= self.spec_contents().take(i as int));
            if let FileSystemObject::File(f) = &self.contents[i] {
                r.push(f);
            }
            i = i + 1;
        }
        assert(self.spec_contents().take(i as int) =~= self.spec_contents());
        r
    }

    fn links(&self, to_file: bool) -> (r: Vec<&SymLinkData>)
        ensures
            derefs(r@) == direct_links(self.spec_contents(), to_file),
    {
        let mut r: Vec<&SymLinkData> = Vec::new();
        let mut i: usize = 0;
        while i < self.contents.len()
            invariant
                i <= self.spec_contents().len(),
                derefs(r@) == direct_links(self.spec_contents().take(i as int), to_file),
            decreases self.spec_contents().len() - i,
        {
            assert(self.spec_contents().take(i + 1).drop_last() =~= self.spec_contents().take(i as int));
            if let FileSystemObject::SymLink(l, f) = &self.contents[i] {
                if *f == to_file {
                    r.push(l);
                }
            }
            i = i + 1;
        }
        assert(self.spec_contents().take(i as int) =~= self.spec_contents());
        r
    }

    /// The links to directories, in order.
    pub fn dir_sym_links(&self) -> (r: Vec<&SymLinkData>)
        ensures
            derefs(r@) == direct_links(self.spec_contents(), false),
    {
        self.links(false)
    }

    /// The links to files, in order.
    pub fn file_sym_links(&self) -> (r: Vec<&SymLinkData>)
        ensures
            derefs(r@) == direct_links(self.spec_contents(), true),
    {
        self.links(true)
    }

    fn push_copy_order<'a>(&'a self, out: &mut Vec<&'a DirectoryData>)
        ensures
            derefs(final(out)@) == derefs(old(out)@) + self.copy_order(),
        decreases self,
    {
        let mut subs = self.subdirs();
        out.append(&mut subs);
        let ghost c = self.spec_contents();
        let ghost target = derefs(old(out)@) + self.copy_order();
        let mut k: usize = self.contents.len();
        assert(c.take(k as int) =~= c);
        while k > 0
            invariant
                c == self.spec_contents(),
                k <= c.len(),
                target == derefs(old(out)@) + self.copy_order(),
                derefs(out@) + tail_orders(c.take(k as int)) == target,
            decreases k,
        {
            let ghost before = derefs(out@);
            assert(c.take(k as int).drop_last() =~= c.take(k - 1));
            assert(c.take(k as int).last() == c[k - 1]);
            if let FileSystemObject::Directory(d) = &self.contents[k - 1] {
                d.push_copy_order(out);
                assert(derefs(out@) + tail_orders(c.take(k - 1)) =~= before + tail_orders(c.take(k as int)));
            } else {
                assert(tail_orders(c.take(k as int)) =~= tail_orders(c.take(k - 1)));
            }
            k = k - 1;
        }
        assert(c.take(0) =~= Seq::<FileSystemObject>::empty());
        assert(derefs(out@) =~= target);
    }

    /// The directories below this one: its own sub-directories in order,
    /// then, when `recursive`, the directories below each sub-directory,
    /// from the last sub-directory to the first.
    pub fn subdir_iter(&self, recursive: bool) -> (r: Vec<&DirectoryData>)
        ensures
            derefs(r@) == if recursive {
                self.copy_order()
            } else {
                direct_subdirs(self.spec_contents())
            },
    {
        if recursive {
            let mut out: Vec<&DirectoryData> = Vec::new();
            self.push_copy_order(&mut out);
            assert(derefs(out@) =~= self.copy_order());
            out
        } else {
            self.subdirs()
        }
    }
}

impl DirectoryData {
    /// Where a copy below this directory puts the directory at
    /// `subdir_path`: `to_dir_path` followed by the names that lead from
    /// this directory to it.
    pub fn copy_target_path(&self, subdir_path: &str, to_dir_path: &str) -> (r: String)
        requires
            lies_below(subdir_path@, self.spec_path()),
        ensures
            r@ == spec_join(to_dir_path@, render_rel(rest_below(subdir_path@, self.spec_path()))),
    {
        let comps = components(subdir_path);
        let base = components(self.path.as_str());
        let b = base.len();
        let tail = render_rel_range(&comps, b, comps.len());
        assert(comps_view(comps@).subrange(b as int, comps@.len() as int) =~= rest_below(subdir_path@, self.spec_path()));
        join(to_dir_path, tail.as_str())
    }
}

/// The directory found by following names down from a consistent
/// directory is consistent, and its path is that directory's path
/// followed by those names.
pub proof fn law_walk_path(d: DirectoryData, rest: Seq<PathComponent>)
    requires
        d.wf(),
        d.walk(rest) is Found,
    ensures
        path_components((d.walk(rest)->Found_0).spec_path()) == path_components(d.spec_path()) + rest,
        (d.walk(rest)->Found_0).wf(),
    decreases rest.len(),
{
    if rest.len() == 0 {
        assert(path_components(d.spec_path()) + rest =~= path_components(d.spec_path()));
    } else {
        let n = rest[0]->Normal_0;
        let cs = d.spec_contents();
        let k = choose|k: int| 0 <= k < cs.len() && (#[trigger] cs[k]).spec_name() == n;
        let c = match cs[k] {
            FileSystemObject::Directory(c) => c,
            _ => d,
        };
        assert(entry_named(cs, n) == Some(cs[k]));
        assert(cs[k] == FileSystemObject::Directory(c));
        let pc = path_components(c.spec_path());
        assert(pc == path_components(d.spec_path()).push(pc.last()));
        assert(pc.last() == PathComponent::Normal(n));
        law_walk_path(c, rest.drop_first());
        assert(path_components(d.spec_path()) + rest =~= pc + rest.drop_first());
    }
}

/// Looking up a path in a consistent directory finds a directory whose
/// path has the components of the path looked up.
pub proof fn law_lookup_path(d: DirectoryData, path: Seq<char>)
    requires
        d.wf(),
        d.lookup_subdir(path) is Found,
    ensures
        path_components((d.lookup_subdir(path)->Found_0).spec_path()) == path_components(path),
        (d.lookup_subdir(path)->Found_0).wf(),
{
    let rest = rest_below(path, d.spec_path());
    law_walk_path(d, rest);
    let pb = path_components(d.spec_path());
    let pa = path_components(path);
    assert(pa =~= pb + rest) by {
        assert(pa.take(pb.len() as int) == pb);
        assert(pa =~= pa.take(pb.len() as int) + pa.skip(pb.len() as int));
    }
}

/// What `find_or_add_subdir` makes sure of is what `find_subdir` finds:
/// once the walk down to a path below the directory succeeds, looking the
/// path up gives a directory at that path.
pub proof fn law_found_after_adding(d: DirectoryData, path: Seq<char>)
    requires
        d.wf(),
        lies_below(path, d.spec_path()),
        d.walk(rest_below(path, d.spec_path())) is Found,
    ensures
        d.lookup_subdir(path) is Found,
        path_components((d.lookup_subdir(path)->Found_0).spec_path()) == path_components(path),
{
    law_lookup_path(d, path);
}

impl FileSystemObject {
    /// How an object is shown: a file by its name, a directory by its
    /// name and a slash, a link by its name, an arrow and its target.
    pub open spec fn spec_display(&self) -> Seq<char> {
        match self {
            FileSystemObject::File(f) => f.spec_name(),
            FileSystemObject::Directory(_) => self.spec_name() + "/"@,
            FileSystemObject::SymLink(l, _) => l.spec_name() + " -> "@ + l.spec_target(),
        }
    }

    /// The text that shows the object.
    pub fn display_text(&self) -> (r: String)
        requires
            self.has_name(),
        ensures
            r@ == self.spec_display(),
    {
        match self {
            FileSystemObject::File(f) => f.name().to_owned(),
            FileSystemObject::Directory(d) => {
                let mut r = d.name();
                r.append("/");
                r
            },
            FileSystemObject::SymLink(l, _) => {
                let mut r = l.name().to_owned();
                r.append(" -> ");
                r.append(l.link_target());
                r
            },
        }
    }
}

/// Following `r` and then `s` is following `s` from where `r` leads.
pub proof fn lemma_walk_append(d: DirectoryData, r: Seq<PathComponent>, s: Seq<PathComponent>)
    requires
        d.walk(r) is Found,
    ensures
        d.walk(r + s) == (d.walk(r)->Found_0).walk(s),
    decreases r.len(),
{
    if r.len() == 0 {
        assert(r + s =~= s);
    } else {
        let n = r[0]->Normal_0;
        assert((r + s)[0] == r[0]);
        assert((r + s).drop_first() =~= r.drop_first() + s);
        match entry_named(d.spec_contents(), n) {
            Some(FileSystemObject::Directory(c)) => {
                lemma_walk_append(c, r.drop_first(), s);
            },
            _ => {},
        }
    }
}

/// A sub-directory of a directory found at a path is found at its own
/// path.
#[verifier::spinoff_prover]
#[verifier::rlimit(40)]
pub proof fn law_child_found(root: DirectoryData, path: Seq<char>, i: int)
    requires
        root.wf(),
        root.lookup_subdir(path) is Found,
        0 <= i < (root.lookup_subdir(path)->Found_0).spec_contents().len(),
        (root.lookup_subdir(path)->Found_0).spec_contents()[i] is Directory,
    ensures
        root.lookup_subdir(((root.lookup_subdir(path)->Found_0).spec_contents()[i]->Directory_0).spec_path())
            == DirLookup::Found((root.lookup_subdir(path)->Found_0).spec_contents()[i]->Directory_0),
{
    let x = root.lookup_subdir(path)->Found_0;
    let c = x.spec_contents()[i]->Directory_0;
    law_lookup_path(root, path);
    let base = path_components(root.spec_path());
    let rest = rest_below(path, root.spec_path());
    let pcx = path_components(x.spec_path());
    let pcc = path_components(c.spec_path());
    assert(x.spec_contents()[i] == FileSystemObject::Directory(c));
    assert(pcc == pcx.push(pcc.last()));
    let n = c.spec_name();
    assert(pcc.last() == PathComponent::Normal(n));
    assert(path_components(path) =~= base + rest) by {
        assert(path_components(path) =~= path_components(path).take(base.len() as int) + path_components(path).skip(base.len() as int));
    }
    assert(pcc =~= base + rest.push(PathComponent::Normal(n)));
    assert(lies_below(c.spec_path(), root.spec_path())) by {
        assert(pcc.take(base.len() as int) =~= base);
    }
    assert(rest_below(c.spec_path(), root.spec_path()) =~= rest + seq![PathComponent::Normal(n)]);
    lemma_walk_append(root, rest, seq![PathComponent::Normal(n)]);
    lemma_entry_at(x.spec_contents(), i);
    let one = seq![PathComponent::Normal(n)];
    assert(one.drop_first() =~= Seq::<PathComponent>::empty());
    assert(root.walk(rest) == DirWalk::Found(x));
    assert(entry_named(x.spec_contents(), n) == Some(FileSystemObject::Directory(c)));
    assert(x.walk(one) == c.walk(one.drop_first()));
    assert(c.walk(Seq::<PathComponent>::empty()) == DirWalk::Found(c));
    assert(root.walk(rest + one) == DirWalk::Found(c));
}

impl DirectoryData {
    /// Whether no object other than a directory takes a name on the way
    /// down to `path`, which lies at or below this directory.
    pub fn path_is_unblocked(&self, path: &str) -> (r: bool)
        requires
            self.wf(),
            lies_below(path@, self.spec_path()),
        ensures
            r == unblocked(*self, rest_below(path@, self.spec_path())),
        decreases path_components(path@).len() - path_components(self.spec_path()).len(),
    {
        let ghost rest = rest_below(path@, self.spec_path());
        let comps = components(path);
        let base = components(self.path.as_str());
        let b = base.len();
        if comps.len() == b {
            assert(rest.len() == 0);
            return true;
        }
        assert(rest[0] == comps_view(comps@)[b as int]);
        match &comps[b] {
            Component::Normal(name) => {
                let found = self.index_for(name.as_str());
                proof { self.lemma_index_for_entry(name@, found); }
                match found {
                    Ok(i) => match &self.contents[i] {
                        FileSystemObject::Directory(child) => {
                            proof {
                                let pa = path_components(path@);
                                let pb = path_components(self.spec_path());
                                let pc = path_components(child.spec_path());
                                assert(self.spec_contents()[i as int] == FileSystemObject::Directory(*child));
                                assert(pc == pb.push(pc.last()));
                                assert(pc.last() == PathComponent::Normal(name@));
                                assert(pa.take(b + 1) =~= pb.push(PathComponent::Normal(name@)));
                                assert(rest_below(path@, child.spec_path()) =~= rest.drop_first());
                            }
                            child.path_is_unblocked(path)
                        },
                        _ => false,
                    },
                    Err(_) => true,
                }
            },
            _ => true,
        }
    }
}

impl FileSystemObject {
    /// The directory, if this object is one.
    pub fn get_dir_data(&self) -> (r: Option<&DirectoryData>)
        ensures
            match r {
                Some(d) => *self == FileSystemObject::Directory(*d),
                None => !(self is Directory),
            },
    {
        match self {
            FileSystemObject::Directory(dir_data) => Some(dir_data),
            _ => None,
        }
    }

    /// The directory, if this object is one, for changing.
    pub fn get_dir_data_mut(&mut self) -> (r: Option<&mut DirectoryData>)
        ensures
            match r {
                Some(d) => *old(self) == FileSystemObject::Directory(*d)
                    && *final(self) == FileSystemObject::Directory(*final(d)),
                None => !(*old(self) is Directory) && *final(self) == *old(self),
            },
    {
        match self {
            FileSystemObject::Directory(dir_data) => Some(dir_data),
            _ => None,
        }
    }

    /// The file, if this object is one.
    pub fn get_file_data(&self) -> (r: Option<&FileData>)
        ensures
            match r {
                Some(f) => *self == FileSystemObject::File(*f),
                None => !(self is File),
            },
    {
        match self {
            FileSystemObject::File(file_data) => Some(file_data),
            _ => None,
        }
    }

    /// The link, if this object is a link to a file.
    pub fn get_file_sym_link_data(&self) -> (r: Option<&SymLinkData>)
        ensures
            match r {
                Some(l) => *self == FileSystemObject::SymLink(*l, true),
                None => !(self matches FileSystemObject::SymLink(_, true)),
            },
    {
        match self {
            FileSystemObject::SymLink(link_data, true) => Some(link_data),
            _ => None,
        }
    }

    /// The link, if this object is a link to a directory.
    pub fn get_dir_sym_link_data(&self) -> (r: Option<&SymLinkData>)
        ensures
            match r {
                Some(l) => *self == FileSystemObject::SymLink(*l, false),
                None => !(self matches FileSystemObject::SymLink(_, false)),
            },
    {
        match self {
            FileSystemObject::SymLink(link_data, false) => Some(link_data),
            _ => None,
        }
    }
}

} // verus!
