//! Unix path text: splitting into components, classification, joining and
//! prefix stripping, all stated over the characters of the path.

use vstd::prelude::*;
use crate::names::{compare_names, NameOrder};

verus! {

/// The meaning of one component of a path.
pub enum PathComponent {
    RootDir,
    CurDir,
    ParentDir,
    Normal(Seq<char>),
}

/// One component of a path, as found by [`components`].
#[derive(Debug, Clone, PartialEq, Eq)]
pub enum Component {
    RootDir,
    CurDir,
    ParentDir,
    Normal(String),
}

impl View for Component {
    type V = PathComponent;

    open spec fn view(&self) -> PathComponent {
        match self {
            Component::RootDir => PathComponent::RootDir,
            Component::CurDir => PathComponent::CurDir,
            Component::ParentDir => PathComponent::ParentDir,
            Component::Normal(s) => PathComponent::Normal(s@),
        }
    }
}

/// The meanings of a sequence of components.
pub open spec fn comps_view(v: Seq<Component>) -> Seq<PathComponent> {
    v.map_values(|c: Component| c@)
}

pub open spec fn slash() -> char {
    '/'
}

pub open spec fn dot() -> Seq<char> {
    seq!['.']
}

pub open spec fn dot_dot() -> Seq<char> {
    seq!['.', '.']
}

/// The text between separators: `a//b/` splits into `a`, ``, `b`, ``.
pub open spec fn split_segments(s: Seq<char>) -> Seq<Seq<char>>
    decreases s.len(),
{
    if s.len() == 0 {
        seq![Seq::empty()]
    } else {
        let prev = split_segments(s.drop_last());
        if s.last() == slash() {
            prev.push(Seq::empty())
        } else {
            prev.update(prev.len() - 1, prev.last().push(s.last()))
        }
    }
}

/// What the segment at position `k` contributes: empty segments vanish,
/// `.` survives only as the very first segment, `..` is the parent.
pub open spec fn segment_component(seg: Seq<char>, k: int) -> Seq<PathComponent> {
    if seg.len() == 0 {
        Seq::empty()
    } else if seg == dot() {
        if k == 0 {
            seq![PathComponent::CurDir]
        } else {
            Seq::empty()
        }
    } else if seg == dot_dot() {
        seq![PathComponent::ParentDir]
    } else {
        seq![PathComponent::Normal(seg)]
    }
}

pub open spec fn segments_components(segs: Seq<Seq<char>>) -> Seq<PathComponent>
    decreases segs.len(),
{
    if segs.len() == 0 {
        Seq::empty()
    } else {
        segments_components(segs.drop_last()) + segment_component(segs.last(), segs.len() - 1)
    }
}

/// Whether the path starts at the root.
pub open spec fn spec_is_absolute(s: Seq<char>) -> bool {
    s.len() > 0 && s[0] == slash()
}

/// The components of a path, with the normalisation of `std::path`:
/// repeated and trailing separators are ignored and interior `.` vanish.
pub open spec fn path_components(s: Seq<char>) -> Seq<PathComponent> {
    let root = if spec_is_absolute(s) {
        seq![PathComponent::RootDir]
    } else {
        Seq::<PathComponent>::empty()
    };
    root + segments_components(split_segments(s))
}

proof fn lemma_split_len(s: Seq<char>)
    ensures
        split_segments(s).len() >= 1,
    decreases s.len(),
{
    if s.len() > 0 {
        lemma_split_len(s.drop_last());
    }
}

/// Splits a path into its components.
pub fn components(path: &str) -> (r: Vec<Component>)
    ensures
        comps_view(r@) == path_components(path@),
{
    let n = path.unicode_len();
    let mut r: Vec<Component> = Vec::new();
    let ghost s = path@;
    if n > 0 && path.get_char(0) == '/' {
        r.push(Component::RootDir);
    }
    let ghost root = if spec_is_absolute(s) {
        seq![PathComponent::RootDir]
    } else {
        Seq::<PathComponent>::empty()
    };
    let mut start: usize = 0;
    let mut k: usize = 0;
    let mut i: usize = 0;
    proof {
        assert(s.take(0) =~= Seq::<char>::empty());
        assert(comps_view(r@) =~= root);
        assert(segments_components(split_segments(s.take(0)).drop_last()) =~= Seq::empty());
    }
    while i < n
        invariant
            n == s.len(),
            s == path@,
            start <= i <= n,
            split_segments(s.take(i as int)).len() == k + 1,
            split_segments(s.take(i as int)).last() == s.subrange(start as int, i as int),
            comps_view(r@) == root + segments_components(split_segments(s.take(i as int)).drop_last()),
            root == (if spec_is_absolute(s) { seq![PathComponent::RootDir] } else { Seq::<PathComponent>::empty() }),
            k <= i,
        decreases n - i,
    {
        let c = path.get_char(i);
        let ghost segs = split_segments(s.take(i as int));
        proof {
            assert(s.take(i + 1).drop_last() =~= s.take(i as int));
            assert(s.take(i + 1).last() == c);
        }
        if c == '/' {
            let seg = path.substring_char(start, i);
            let comp = segment_to_components(seg, k);
            proof {
                assert(split_segments(s.take(i + 1)) == segs.push(Seq::empty()));
                assert(split_segments(s.take(i + 1)).drop_last() =~= segs);
                assert(segs.drop_last().push(segs.last()) =~= segs);
                assert(segments_components(segs) == segments_components(segs.drop_last()) + segment_component(segs.last(), segs.len() - 1));
            }
            let ghost before = comps_view(r@);
            let mut comp = comp;
            r.append(&mut comp);
            proof {
                assert(comps_view(r@) =~= before + segment_component(seg@, k as int));
                assert(comps_view(r@) =~= root + segments_components(split_segments(s.take(i + 1)).drop_last()));
                assert(s.subrange(i + 1, i + 1) =~= Seq::<char>::empty());
            }
            start = i + 1;
            k = k + 1;
        } else {
            proof {
                let nsegs = segs.update(segs.len() - 1, segs.last().push(c));
                assert(split_segments(s.take(i + 1)) == nsegs);
                assert(nsegs.drop_last() =~= segs.drop_last());
                assert(s.subrange(start as int, i + 1) =~= s.subrange(start as int, i as int).push(c));
            }
        }
        i = i + 1;
    }
    let seg = path.substring_char(start, n);
    let mut comp = segment_to_components(seg, k);
    let ghost before = comps_view(r@);
    r.append(&mut comp);
    proof {
        let segs = split_segments(s.take(n as int));
        assert(s.take(n as int) =~= s);
        lemma_split_len(s);
        assert(segs.drop_last().push(segs.last()) =~= segs);
        assert(segments_components(segs) == segments_components(segs.drop_last()) + segment_component(segs.last(), segs.len() - 1));
        assert(comps_view(r@) =~= before + segment_component(seg@, k as int));
    }
    r
}

/// The components that one segment contributes.
fn segment_to_components(seg: &str, k: usize) -> (r: Vec<Component>)
    ensures
        comps_view(r@) == segment_component(seg@, k as int),
{
    let len = seg.unicode_len();
    let mut r: Vec<Component> = Vec::new();
    if len == 0 {
        assert(comps_view(r@) =~= segment_component(seg@, k as int));
        return r;
    }
    let first = seg.get_char(0);
    if len == 1 && first == '.' {
        assert(seg@ =~= dot());
        if k == 0 {
            r.push(Component::CurDir);
        }
        assert(comps_view(r@) =~= segment_component(seg@, k as int));
        return r;
    }
    if len == 2 && first == '.' && seg.get_char(1) == '.' {
        assert(seg@ =~= dot_dot());
        r.push(Component::ParentDir);
        assert(comps_view(r@) =~= segment_component(seg@, k as int));
        return r;
    }
    assert(seg@ != dot()) by {
        if seg@ == dot() {
            assert(seg@.len() == 1);
        }
    }
    assert(seg@ != dot_dot()) by {
        if seg@ == dot_dot() {
            assert(seg@.len() == 2 && seg@[0] == '.' && seg@[1] == '.');
        }
    }
    r.push(Component::Normal(seg.to_owned()));
    assert(comps_view(r@) =~= segment_component(seg@, k as int));
    r
}


proof fn lemma_segments_no_root(segs: Seq<Seq<char>>)
    ensures
        forall|j: int|
            0 <= j < segments_components(segs).len() ==> !(#[trigger] segments_components(segs)[j] is RootDir),
    decreases segs.len(),
{
    if segs.len() > 0 {
        lemma_segments_no_root(segs.drop_last());
    }
}

/// Whether the path starts at the root (`Path::is_absolute` on Unix).
pub fn is_absolute(path: &str) -> (r: bool)
    ensures
        r == spec_is_absolute(path@),
{
    path.unicode_len() > 0 && path.get_char(0) == '/'
}

/// Whether the path is relative (`Path::is_relative` on Unix).
pub fn is_relative(path: &str) -> (r: bool)
    ensures
        r == !spec_is_absolute(path@),
{
    !is_absolute(path)
}

/// Compares two components.
pub fn same_component(a: &Component, b: &Component) -> (r: bool)
    ensures
        r == (a@ == b@),
{
    match (a, b) {
        (Component::RootDir, Component::RootDir) => true,
        (Component::CurDir, Component::CurDir) => true,
        (Component::ParentDir, Component::ParentDir) => true,
        (Component::Normal(x), Component::Normal(y)) => String::eq(x, y),
        _ => false,
    }
}

/// Whether `base` is a component-wise prefix of `path`.
pub open spec fn comps_have_prefix(path: Seq<PathComponent>, base: Seq<PathComponent>) -> bool {
    base.len() <= path.len() && path.take(base.len() as int) == base
}

/// Whether the components of `base` begin those of `path`
/// (`Path::starts_with`).
pub fn components_start_with(path: &Vec<Component>, base: &Vec<Component>) -> (r: bool)
    ensures
        r == comps_have_prefix(comps_view(path@), comps_view(base@)),
{
    if base.len() > path.len() {
        return false;
    }
    let mut i: usize = 0;
    while i < base.len()
        invariant
            base.len() <= path.len(),
            i <= base.len(),
            comps_view(path@).take(i as int) == comps_view(base@).take(i as int),
        decreases base.len() - i,
    {
        if !same_component(&path[i], &base[i]) {
            assert(comps_view(path@).take(base.len() as int)[i as int] != comps_view(base@)[i as int]);
            return false;
        }
        assert(comps_view(path@).take(i + 1) =~= comps_view(path@).take(i as int).push(path@[i as int]@));
        assert(comps_view(base@).take(i + 1) =~= comps_view(base@).take(i as int).push(base@[i as int]@));
        i = i + 1;
    }
    assert(comps_view(base@).take(base.len() as int) =~= comps_view(base@));
    true
}

/// The meaning of the path classification of `std::path`-style paths.
#[derive(Debug, PartialEq, Eq, Clone, Copy, Structural)]
pub enum PathType {
    Absolute,
    RelativeCurDir,
    RelativeCurDirImplicit,
    RelativeParentDir,
    RelativeHomeDir,
    Empty,
}

pub open spec fn tilde() -> Seq<char> {
    seq!['~']
}

/// The type of a path, decided by its first component.
pub open spec fn spec_path_type(s: Seq<char>) -> PathType {
    let comps = path_components(s);
    if comps.len() == 0 {
        PathType::Empty
    } else {
        match comps[0] {
            PathComponent::RootDir => PathType::Absolute,
            PathComponent::CurDir => PathType::RelativeCurDir,
            PathComponent::ParentDir => PathType::RelativeParentDir,
            PathComponent::Normal(n) => if n == tilde() {
                PathType::RelativeHomeDir
            } else {
                PathType::RelativeCurDirImplicit
            },
        }
    }
}

/// Whether a string is exactly `~`.
pub fn is_tilde(s: &str) -> (r: bool)
    ensures
        r == (s@ == tilde()),
{
    let r = s.unicode_len() == 1 && s.get_char(0) == '~';
    assert(r ==> s@ =~= tilde());
    r
}

impl PathType {
    /// Classifies a path by its first component.
    pub fn of(path: &str) -> (r: PathType)
        ensures
            r == spec_path_type(path@),
    {
        let comps = components(path);
        if comps.len() == 0 {
            return PathType::Empty;
        }
        assert(comps_view(comps@)[0] == comps@[0]@);
        match &comps[0] {
            Component::RootDir => PathType::Absolute,
            Component::CurDir => PathType::RelativeCurDir,
            Component::ParentDir => PathType::RelativeParentDir,
            Component::Normal(name) => {
                if is_tilde(name.as_str()) {
                    PathType::RelativeHomeDir
                } else {
                    PathType::RelativeCurDirImplicit
                }
            },
        }
    }
}

/// The last component of a path when it is a name (`Path::file_name`).
pub open spec fn spec_file_name(s: Seq<char>) -> Option<Seq<char>> {
    let comps = path_components(s);
    if comps.len() > 0 && comps.last() is Normal {
        Some(comps.last()->Normal_0)
    } else {
        None
    }
}

/// The final name of a path, if it ends in one.
pub fn file_name(path: &str) -> (r: Option<String>)
    ensures
        r matches Some(n) ==> spec_file_name(path@) == Some(n@),
        r is None ==> spec_file_name(path@) is None,
{
    let comps = components(path);
    let n = comps.len();
    if n == 0 {
        return None;
    }
    assert(comps_view(comps@).last() == comps@[n - 1]@);
    match &comps[n - 1] {
        Component::Normal(name) => Some(name.clone()),
        _ => None,
    }
}

/// Joins a relative path onto a base as `PathBuf::push` does: an absolute
/// tail replaces the base, otherwise a separator is put between them
/// unless the base is empty or already ends in one.
pub open spec fn spec_join(base: Seq<char>, tail: Seq<char>) -> Seq<char> {
    if spec_is_absolute(tail) {
        tail
    } else if base.len() > 0 && base.last() != slash() {
        base + seq![slash()] + tail
    } else {
        base + tail
    }
}

/// `base` joined with `tail`.
pub fn join(base: &str, tail: &str) -> (r: String)
    ensures
        r@ == spec_join(base@, tail@),
{
    if is_absolute(tail) {
        return tail.to_owned();
    }
    let n = base.unicode_len();
    let mut r = String::from_str(base);
    if n > 0 && base.get_char(n - 1) != '/' {
        r.append("/");
        proof { reveal_strlit("/"); }
        assert(r@ == base@ + seq![slash()]);
    }
    r.append(tail);
    r
}

/// A single name that stays one component when joined onto a path.
pub open spec fn is_plain_name(n: Seq<char>) -> bool {
    &&& n.len() > 0
    &&& n != dot()
    &&& n != dot_dot()
    &&& forall|j: int| 0 <= j < n.len() ==> n[j] != slash()
}


/// Whether `n` is a single plain name.
pub fn plain_name(n: &str) -> (r: bool)
    ensures
        r == is_plain_name(n@),
{
    let len = n.unicode_len();
    if len == 0 {
        return false;
    }
    if len == 1 && n.get_char(0) == '.' {
        assert(n@ =~= dot());
        return false;
    }
    if len == 2 && n.get_char(0) == '.' && n.get_char(1) == '.' {
        assert(n@ =~= dot_dot());
        return false;
    }
    assert(n@ != dot()) by {
        if n@ == dot() {
            assert(n@[0] == '.');
        }
    }
    assert(n@ != dot_dot()) by {
        if n@ == dot_dot() {
            assert(n@[0] == '.' && n@[1] == '.');
        }
    }
    let mut k: usize = 0;
    while k < len
        invariant
            len == n@.len(),
            k <= len,
            forall|j: int| 0 <= j < k ==> n@[j] != slash(),
        decreases len - k,
    {
        if n.get_char(k) == '/' {
            return false;
        }
        k = k + 1;
    }
    true
}

pub open spec fn no_slash(u: Seq<char>) -> bool {
    forall|j: int| 0 <= j < u.len() ==> u[j] != slash()
}

/// Appending text without separators only extends the last segment.
proof fn lemma_split_append_plain(t: Seq<char>, u: Seq<char>)
    requires
        no_slash(u),
    ensures
        split_segments(t + u) == split_segments(t).update(
            split_segments(t).len() - 1,
            split_segments(t).last() + u,
        ),
    decreases u.len(),
{
    lemma_split_len(t);
    if u.len() == 0 {
        assert(t + u =~= t);
        assert(split_segments(t).last() + u =~= split_segments(t).last());
        assert(split_segments(t).update(split_segments(t).len() - 1, split_segments(t).last())
            =~= split_segments(t));
    } else {
        let u2 = u.drop_last();
        let c = u.last();
        lemma_split_append_plain(t, u2);
        assert((t + u).drop_last() =~= t + u2);
        assert((t + u).last() == c);
        assert(split_segments(t).last() + u2 + seq![c] =~= split_segments(t).last() + u);
        let prev = split_segments(t + u2);
        assert(prev.last() == split_segments(t).last() + u2);
        assert(split_segments(t + u) == prev.update(prev.len() - 1, prev.last().push(c)));
        assert(prev.last().push(c) =~= split_segments(t).last() + u);
        assert(split_segments(t + u) =~= split_segments(t).update(
            split_segments(t).len() - 1,
            split_segments(t).last() + u,
        ));
    }
}

/// Appending text never changes the segments that are already complete.
proof fn lemma_split_append_keeps(t: Seq<char>, v: Seq<char>)
    ensures
        split_segments(t + v).len() >= split_segments(t).len(),
        forall|j: int|
            0 <= j < split_segments(t).len() - 1 ==> split_segments(t + v)[j] == split_segments(t)[j],
    decreases v.len(),
{
    lemma_split_len(t);
    if v.len() == 0 {
        assert(t + v =~= t);
    } else {
        let v2 = v.drop_last();
        lemma_split_append_keeps(t, v2);
        assert((t + v).drop_last() =~= t + v2);
        lemma_split_len(t + v2);
    }
}

/// Later segments never change the components of earlier ones.
proof fn lemma_segments_prefix(segs: Seq<Seq<char>>, j: int)
    requires
        0 <= j <= segs.len(),
    ensures
        comps_have_prefix(segments_components(segs), segments_components(segs.take(j))),
    decreases segs.len(),
{
    if j == segs.len() {
        assert(segs.take(j) =~= segs);
        let x = segments_components(segs);
        assert(x.take(x.len() as int) =~= x);
    } else {
        lemma_segments_prefix(segs.drop_last(), j);
        assert(segs.drop_last().take(j) =~= segs.take(j));
        let a = segments_components(segs.drop_last());
        let b = segments_components(segs.take(j));
        let x = segment_component(segs.last(), segs.len() - 1);
        assert(segments_components(segs) == a + x);
        assert((a + x).take(b.len() as int) =~= a.take(b.len() as int));
    }
}

/// The index of the first separator, or the length when there is none.
pub open spec fn first_slash_or_len(s: Seq<char>, p: int) -> bool {
    &&& 0 <= p <= s.len()
    &&& no_slash(s.take(p))
    &&& (p < s.len() ==> s[p] == slash())
}

/// The first component of a relative path is its first segment.
proof fn lemma_first_component(s: Seq<char>, p: int)
    requires
        !spec_is_absolute(s),
        s.len() > 0,
        first_slash_or_len(s, p),
    ensures
        p > 0,
        path_components(s).len() > 0,
        path_components(s)[0] == segment_component(s.take(p), 0)[0],
        segment_component(s.take(p), 0).len() == 1,
{
    let seg0 = s.take(p);
    assert(seg0.len() > 0) by {
        if p == 0 {
            assert(s[0] == slash());
        }
    }
    lemma_split_append_plain(Seq::empty(), seg0);
    assert(Seq::<char>::empty() + seg0 =~= seg0);
    assert(split_segments(Seq::<char>::empty()) =~= seq![Seq::<char>::empty()]);
    assert(Seq::<char>::empty() + seg0 =~= seg0);
    assert(split_segments(seg0) =~= seq![seg0]);
    let segs = split_segments(s);
    if p < s.len() {
        let t = s.take(p + 1);
        assert(t.drop_last() =~= seg0);
        assert(split_segments(t) == seq![seg0].push(Seq::<char>::empty()));
        lemma_split_append_keeps(t, s.skip(p + 1));
        assert(t + s.skip(p + 1) =~= s);
        assert(split_segments(t)[0] == seg0);
        assert(split_segments(t + s.skip(p + 1))[0] == split_segments(t)[0]);
        assert(segs[0] == seg0);
        lemma_split_len(s);
    } else {
        assert(seg0 =~= s);
        assert(segs[0] == seg0);
    }
    lemma_segments_prefix(segs, 1);
    assert(segs.take(1) =~= seq![seg0]);
    assert(seq![seg0].drop_last() =~= Seq::<Seq<char>>::empty());
    assert(segments_components(Seq::<Seq<char>>::empty()) =~= Seq::<PathComponent>::empty());
    assert(seq![seg0].last() == seg0);
    assert(segments_components(seq![seg0]) =~= segment_component(seg0, 0));
    assert(path_components(s) =~= segments_components(segs));
}

/// The name that a relative path starts with. The path must be relative
/// and its first component must be a name.
pub fn first_component_name(path: &str) -> (r: &str)
    requires
        !spec_is_absolute(path@),
        path_components(path@).len() > 0,
        path_components(path@)[0] is Normal,
    ensures
        path_components(path@)[0] == PathComponent::Normal(r@),
{
    let n = path.unicode_len();
    let mut p: usize = 0;
    while p < n
        invariant
            n == path@.len(),
            p <= n,
            no_slash(path@.take(p as int)),
        ensures
            p <= n,
            no_slash(path@.take(p as int)),
            p < n ==> path@[p as int] == slash(),
        decreases n - p,
    {
        if path.get_char(p) == '/' {
            break;
        }
        assert(path@.take(p + 1) =~= path@.take(p as int).push(path@[p as int]));
        p = p + 1;
    }
    proof {
        if path@.len() == 0 {
            assert(split_segments(path@) =~= seq![Seq::<char>::empty()]);
            assert(seq![Seq::<char>::empty()].drop_last() =~= Seq::<Seq<char>>::empty());
            assert(segments_components(Seq::<Seq<char>>::empty()) =~= Seq::<PathComponent>::empty());
            assert(segments_components(seq![Seq::<char>::empty()]) =~= Seq::<PathComponent>::empty());
            assert(path_components(path@).len() == 0);
        }
        lemma_first_component(path@, p as int);
        let seg0 = path@.take(p as int);
        if seg0 == dot() {
            assert(segment_component(seg0, 0)[0] == PathComponent::CurDir);
        }
        if seg0 == dot_dot() {
            assert(segment_component(seg0, 0)[0] == PathComponent::ParentDir);
        }
    }
    path.substring_char(0, p)
}

/// Joining a plain name onto an absolute path adds exactly that name as a
/// last component.
pub proof fn lemma_join_plain_name(base: Seq<char>, name: Seq<char>)
    requires
        spec_is_absolute(base),
        is_plain_name(name),
    ensures
        path_components(spec_join(base, name)) == path_components(base).push(PathComponent::Normal(name)),
{
    assert(!spec_is_absolute(name)) by {
        assert(name[0] != slash());
    }
    let segs = split_segments(base);
    lemma_split_len(base);
    let joined = spec_join(base, name);
    assert(no_slash(name));
    assert(segment_component(name, segs.len() as int - 1) =~= seq![PathComponent::Normal(name)]);
    if base.last() != slash() {
        let b2 = base.push(slash());
        assert(b2.drop_last() =~= base);
        assert(split_segments(b2) == segs.push(Seq::<char>::empty()));
        lemma_split_append_plain(b2, name);
        assert(joined =~= b2 + name);
        let jsegs = split_segments(joined);
        assert(jsegs =~= segs.push(name));
        assert(jsegs.drop_last() =~= segs);
        assert(segment_component(name, jsegs.len() - 1) =~= seq![PathComponent::Normal(name)]);
        assert(spec_is_absolute(joined));
        assert(path_components(joined) =~= path_components(base).push(PathComponent::Normal(name)));
    } else {
        assert(joined =~= base + name);
        assert(base.drop_last().push(slash()) =~= base);
        assert(segs == split_segments(base.drop_last()).push(Seq::<char>::empty()));
        assert(segs.last() =~= Seq::<char>::empty());
        lemma_split_append_plain(base, name);
        let jsegs = split_segments(joined);
        assert(segs.last() + name =~= name);
        assert(jsegs =~= segs.update(segs.len() - 1, name));
        assert(jsegs.drop_last() =~= segs.drop_last());
        assert(segs.drop_last().push(segs.last()) =~= segs);
        assert(segments_components(segs) =~= segments_components(segs.drop_last()));
        assert(spec_is_absolute(joined));
        assert(path_components(joined) =~= path_components(base).push(PathComponent::Normal(name)));
    }
}


proof fn lemma_split_no_slash(s: Seq<char>)
    ensures
        forall|j: int| 0 <= j < split_segments(s).len() ==> no_slash(#[trigger] split_segments(s)[j]),
    decreases s.len(),
{
    if s.len() > 0 {
        lemma_split_no_slash(s.drop_last());
        lemma_split_len(s.drop_last());
        let prev = split_segments(s.drop_last());
        if s.last() != slash() {
            let l = prev.last().push(s.last());
            assert(no_slash(prev[prev.len() - 1]));
            assert(no_slash(l)) by {
                assert forall|k: int| 0 <= k < l.len() implies l[k] != slash() by {
                    if k < l.len() - 1 {
                        assert(l[k] == prev[prev.len() - 1][k]);
                    }
                }
            }
        } else {
            assert(no_slash(Seq::<char>::empty()));
        }
    }
}

proof fn lemma_segments_plain(segs: Seq<Seq<char>>)
    requires
        forall|j: int| 0 <= j < segs.len() ==> no_slash(#[trigger] segs[j]),
    ensures
        forall|j: int| 0 <= j < segments_components(segs).len() && (#[trigger] segments_components(segs)[j]) is Normal
            ==> is_plain_name(segments_components(segs)[j]->Normal_0),
    decreases segs.len(),
{
    if segs.len() > 0 {
        lemma_segments_plain(segs.drop_last());
        assert(no_slash(segs[segs.len() - 1]));
    }
}

/// Every name among the components of a path is a plain name.
pub proof fn lemma_components_plain(s: Seq<char>)
    ensures
        forall|j: int| 0 <= j < path_components(s).len() && (#[trigger] path_components(s)[j]) is Normal
            ==> is_plain_name(path_components(s)[j]->Normal_0),
{
    lemma_split_no_slash(s);
    lemma_segments_plain(split_segments(s));
    let sc = segments_components(split_segments(s));
    let pc = path_components(s);
    assert forall|j: int| 0 <= j < pc.len() && (#[trigger] pc[j]) is Normal implies is_plain_name(pc[j]->Normal_0) by {
        if spec_is_absolute(s) {
            if j > 0 {
                assert(pc[j] == sc[j - 1]);
            }
        } else {
            assert(pc[j] == sc[j]);
        }
    }
}


/// The text of one component.
pub open spec fn component_text(c: PathComponent) -> Seq<char> {
    match c {
        PathComponent::RootDir => seq![slash()],
        PathComponent::CurDir => dot(),
        PathComponent::ParentDir => dot_dot(),
        PathComponent::Normal(n) => n,
    }
}

/// Components written out with a separator between them.
pub open spec fn render_rel(cs: Seq<PathComponent>) -> Seq<char>
    decreases cs.len(),
{
    if cs.len() == 0 {
        Seq::empty()
    } else if cs.len() == 1 {
        component_text(cs[0])
    } else {
        render_rel(cs.drop_last()) + seq![slash()] + component_text(cs.last())
    }
}

/// Components written out as a path: a leading root is written as the
/// leading separator.
pub open spec fn render(cs: Seq<PathComponent>) -> Seq<char> {
    if cs.len() > 0 && cs[0] is RootDir {
        seq![slash()] + render_rel(cs.drop_first())
    } else {
        render_rel(cs)
    }
}

fn component_text_exec(c: &Component) -> (r: String)
    ensures
        r@ == component_text(c@),
{
    proof {
        reveal_strlit("/");
        reveal_strlit(".");
        reveal_strlit("..");
    }
    match c {
        Component::RootDir => String::from_str("/"),
        Component::CurDir => String::from_str("."),
        Component::ParentDir => String::from_str(".."),
        Component::Normal(n) => n.clone(),
    }
}

/// The components `comps[lo..hi]` written out as a relative path.
pub fn render_rel_range(comps: &Vec<Component>, lo: usize, hi: usize) -> (r: String)
    requires
        lo <= hi <= comps@.len(),
    ensures
        r@ == render_rel(comps_view(comps@).subrange(lo as int, hi as int)),
{
    let mut r = String::new();
    let mut k: usize = lo;
    let ghost cs = comps_view(comps@);
    assert(cs.subrange(lo as int, lo as int) =~= Seq::<PathComponent>::empty());
    while k < hi
        invariant
            lo <= k <= hi <= comps@.len(),
            cs == comps_view(comps@),
            r@ == render_rel(cs.subrange(lo as int, k as int)),
        decreases hi - k,
    {
        let t = component_text_exec(&comps[k]);
        let ghost prev = cs.subrange(lo as int, k as int);
        let ghost next = cs.subrange(lo as int, k + 1);
        assert(next.drop_last() =~= prev);
        assert(next.last() == comps@[k as int]@);
        if k > lo {
            proof { reveal_strlit("/"); }
            r.append("/");
        }
        r.append(t.as_str());
        proof {
            if k == lo {
                assert(next.len() == 1);
                assert(r@ =~= component_text(next[0]));
            } else {
                assert(r@ =~= render_rel(prev) + seq![slash()] + component_text(next.last()));
            }
        }
        k = k + 1;
    }
    r
}

/// The components `comps[lo..hi]` written out as a path.
pub fn render_range(comps: &Vec<Component>, lo: usize, hi: usize) -> (r: String)
    requires
        lo <= hi <= comps@.len(),
    ensures
        r@ == render(comps_view(comps@).subrange(lo as int, hi as int)),
{
    let ghost cs = comps_view(comps@).subrange(lo as int, hi as int);
    if lo < hi {
        if let Component::RootDir = &comps[lo] {
            let tail = render_rel_range(comps, lo + 1, hi);
            let mut r = String::from_str("/");
            proof { reveal_strlit("/"); }
            r.append(tail.as_str());
            assert(cs.drop_first() =~= comps_view(comps@).subrange(lo + 1, hi as int));
            return r;
        }
    }
    render_rel_range(comps, lo, hi)
}


/// A path is classified as absolute exactly when it starts at the root.
pub proof fn law_path_type_absolute(s: Seq<char>)
    ensures
        (spec_path_type(s) == PathType::Absolute) == spec_is_absolute(s),
        spec_is_absolute(s) ==> path_components(s).len() > 0 && path_components(s)[0] == PathComponent::RootDir,
{
    lemma_segments_no_root(split_segments(s));
    if !spec_is_absolute(s) {
        assert(path_components(s) =~= segments_components(split_segments(s)));
        if path_components(s).len() > 0 {
            assert(!(path_components(s)[0] is RootDir));
        }
    }
}

/// Rendering components that start with the root gives an absolute path.
pub proof fn law_render_absolute(cs: Seq<PathComponent>)
    requires
        cs.len() > 0,
        cs[0] is RootDir,
    ensures
        spec_is_absolute(render(cs)),
{
    assert((seq![slash()] + render_rel(cs.drop_first()))[0] == slash());
}

/// Joining onto an absolute base gives an absolute path.
pub proof fn law_join_absolute(base: Seq<char>, tail: Seq<char>)
    requires
        spec_is_absolute(base),
    ensures
        spec_is_absolute(spec_join(base, tail)),
{
    if !spec_is_absolute(tail) {
        if base.last() != slash() {
            assert((base + seq![slash()] + tail)[0] == base[0]);
        } else {
            assert((base + tail)[0] == base[0]);
        }
    }
}

} // verus!
