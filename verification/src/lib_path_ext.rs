//! Path helpers of the back-up library: the first name of a path, and
//! absolute forms of paths given relative to the home or current
//! directory, both handed in by the caller.

use vstd::prelude::*;
use crate::path_ext::tail_text;
use crate::paths::{
    components, comps_view, is_plain_name, join, lemma_components_plain, lemma_join_plain_name, law_join_absolute,
    law_path_type_absolute, path_components, render_rel, segment_component, segments_components, slash, spec_is_absolute, spec_join, split_segments,
    tilde, Component, PathComponent,
};

verus! {

/// The position of the first name among `cs` from `k` on, when no parent
/// component comes before it.
pub open spec fn first_name_from(cs: Seq<PathComponent>, k: int) -> Option<Seq<char>>
    decreases cs.len() - k,
{
    if k < 0 || k >= cs.len() {
        None
    } else {
        match cs[k] {
            PathComponent::Normal(n) => Some(n),
            _ => first_name_from(cs, k + 1),
        }
    }
}

/// No parent component comes before the first name among `cs` from `k`.
pub open spec fn no_parent_before_name(cs: Seq<PathComponent>, k: int) -> bool
    decreases cs.len() - k,
{
    if k < 0 || k >= cs.len() {
        true
    } else {
        match cs[k] {
            PathComponent::Normal(_) => true,
            PathComponent::ParentDir => false,
            _ => no_parent_before_name(cs, k + 1),
        }
    }
}

/// The first name in `path`, passing over the root and `.`; a `..` before
/// it is not allowed.
pub fn first_subpath_as_os_string(path: &str) -> (r: Option<String>)
    requires
        no_parent_before_name(path_components(path@), 0),
    ensures
        match r {
            Some(n) => first_name_from(path_components(path@), 0) == Some(n@),
            None => first_name_from(path_components(path@), 0) is None,
        },
{
    let comps = components(path);
    let ghost cs = path_components(path@);
    let mut k: usize = 0;
    while k < comps.len()
        invariant
            cs == comps_view(comps@),
            cs == path_components(path@),
            k <= comps@.len(),
            no_parent_before_name(cs, k as int),
            first_name_from(cs, 0) == first_name_from(cs, k as int),
        decreases comps@.len() - k,
    {
        assert(cs[k as int] == comps@[k as int]@);
        match &comps[k] {
            Component::Normal(n) => {
                assert(cs[k as int] == PathComponent::Normal(n@));
                assert(first_name_from(cs, k as int) == Some(n@));
                let name = n.clone();
                assert(name@ == n@);
                return Some(name);
            },
            _ => {},
        }
        k = k + 1;
    }
    None
}

/// What `expand_home_dir` gives for `path`.
pub open spec fn spec_expand_home_dir(path: Seq<char>, exists: bool, home_dir: Option<&str>) -> Option<Seq<char>> {
    if spec_is_absolute(path) {
        Some(path)
    } else if !exists && path_components(path).len() > 0
        && path_components(path)[0] == PathComponent::Normal(tilde()) && home_dir is Some {
        Some(spec_join(home_dir->Some_0@, tail_text(path)))
    } else {
        None
    }
}

/// `path` with a leading `~` replaced by the home directory: an absolute
/// path is kept; a relative one is expanded only when nothing exists at
/// it, it starts with `~` and the home directory is known.
pub fn expand_home_dir(path: &str, exists: bool, home_dir: Option<&str>) -> (r: Option<String>)
    ensures
        match r {
            Some(p) => spec_expand_home_dir(path@, exists, home_dir) == Some(p@),
            None => spec_expand_home_dir(path@, exists, home_dir) is None,
        },
{
    if crate::paths::is_absolute(path) {
        return Some(path.to_owned());
    }
    if !exists {
        let comps = components(path);
        if comps.len() > 0 {
            assert(path_components(path@)[0] == comps@[0]@);
            if let Component::Normal(first) = &comps[0] {
                if crate::paths::is_tilde(first.as_str()) {
                    if let Some(home) = home_dir {
                        let tail = crate::paths::render_rel_range(&comps, 1, comps.len());
                        assert(comps_view(comps@).subrange(1, comps@.len() as int) =~= path_components(path@).drop_first());
                        return Some(join(home, tail.as_str()));
                    }
                }
            }
        }
    }
    None
}

/// What `absolute_path_buf` gives for `path`.
pub open spec fn spec_absolute_path_buf(path: Seq<char>, current_dir: Seq<char>) -> Seq<char> {
    if spec_is_absolute(path) {
        path
    } else if path_components(path).len() == 0 {
        current_dir
    } else if path_components(path)[0] == PathComponent::CurDir {
        spec_join(current_dir, tail_text(path))
    } else {
        spec_join(current_dir, path)
    }
}

/// `path` made absolute against `current_dir`, with a leading `.` dropped.
pub fn absolute_path_buf(path: &str, current_dir: &str) -> (r: String)
    ensures
        r@ == spec_absolute_path_buf(path@, current_dir@),
{
    if crate::paths::is_absolute(path) {
        return path.to_owned();
    }
    let comps = components(path);
    if comps.len() == 0 {
        return current_dir.to_owned();
    }
    assert(path_components(path@)[0] == comps@[0]@);
    match &comps[0] {
        Component::CurDir => {
            let tail = crate::paths::render_rel_range(&comps, 1, comps.len());
            assert(comps_view(comps@).subrange(1, comps@.len() as int) =~= path_components(path@).drop_first());
            join(current_dir, tail.as_str())
        },
        _ => join(current_dir, path),
    }
}

/// Components that are all plain names.
pub open spec fn all_plain_names(cs: Seq<PathComponent>) -> bool {
    forall|j: int| 0 <= j < cs.len() ==> (#[trigger] cs[j]) is Normal && is_plain_name(cs[j]->Normal_0)
}

/// Plain names written out neither start nor end with a separator.
proof fn lemma_render_names(cs: Seq<PathComponent>)
    requires
        cs.len() > 0,
        all_plain_names(cs),
    ensures
        render_rel(cs).len() > 0,
        render_rel(cs)[0] != slash(),
        render_rel(cs).last() != slash(),
    decreases cs.len(),
{
    assert(cs[0] is Normal && is_plain_name(cs[0]->Normal_0));
    assert(cs.last() == cs[cs.len() - 1]);
    let n = cs.last()->Normal_0;
    assert(n[n.len() - 1] != slash());
    if cs.len() > 1 {
        let init = cs.drop_last();
        assert(all_plain_names(init)) by {
            assert forall|j: int| 0 <= j < init.len() implies (#[trigger] init[j]) is Normal && is_plain_name(init[j]->Normal_0) by {
                assert(init[j] == cs[j]);
            }
        }
        lemma_render_names(init);
        let r = render_rel(init) + seq![slash()] + n;
        assert(render_rel(cs) == r);
        assert(r[0] == render_rel(init)[0]);
        assert(r.last() == n.last());
    } else {
        assert(render_rel(cs) == n);
        assert(n[0] != slash());
    }
}

/// Joining plain names onto an absolute path adds exactly those names as
/// components.
proof fn lemma_join_names(h: Seq<char>, cs: Seq<PathComponent>)
    requires
        spec_is_absolute(h),
        all_plain_names(cs),
    ensures
        path_components(spec_join(h, render_rel(cs))) == path_components(h) + cs,
    decreases cs.len(),
{
    if cs.len() == 0 {
        assert(render_rel(cs) == Seq::<char>::empty());
        if h.last() != slash() {
            let j = h + seq![slash()];
            assert(spec_join(h, render_rel(cs)) =~= j);
            assert(j.drop_last() =~= h);
            let segs = split_segments(h);
            let sj = split_segments(j);
            assert(sj == segs.push(Seq::empty()));
            assert(sj.drop_last() =~= segs);
            assert(segment_component(sj.last(), sj.len() - 1) =~= Seq::<PathComponent>::empty());
            assert(segments_components(sj) =~= segments_components(segs));
            assert(spec_is_absolute(j) && j[0] == h[0]);
            assert(path_components(j) =~= path_components(h));
        } else {
            assert(spec_join(h, render_rel(cs)) =~= h);
        }
        assert(path_components(h) + cs =~= path_components(h));
    } else {
        let init = cs.drop_last();
        let n = cs.last()->Normal_0;
        assert(cs.last() == cs[cs.len() - 1]);
        assert(all_plain_names(init)) by {
            assert forall|j: int| 0 <= j < init.len() implies (#[trigger] init[j]) is Normal && is_plain_name(init[j]->Normal_0) by {
                assert(init[j] == cs[j]);
            }
        }
        lemma_join_names(h, init);
        let jn = spec_join(h, render_rel(init));
        law_join_absolute(h, render_rel(init));
        lemma_join_plain_name(jn, n);
        assert(n[0] != slash());
        if init.len() == 0 {
            assert(render_rel(cs) == n);
            assert(render_rel(init) == Seq::<char>::empty());
            if h.last() != slash() {
                assert(jn =~= h + seq![slash()]);
                assert(jn.last() == slash());
                assert(spec_join(jn, n) =~= h + seq![slash()] + n);
            } else {
                assert(jn =~= h);
            }
        } else {
            lemma_render_names(init);
            let a = render_rel(init);
            assert(render_rel(cs) == a + seq![slash()] + n);
            assert((a + seq![slash()] + n)[0] == a[0]);
            if h.last() != slash() {
                assert(jn == h + seq![slash()] + a);
                assert(jn.last() == a.last());
                assert(spec_join(h, render_rel(cs)) =~= spec_join(jn, n));
            } else {
                assert(jn == h + a);
                assert(jn.last() == a.last());
                assert(spec_join(h, render_rel(cs)) =~= spec_join(jn, n));
            }
        }
        assert(path_components(h) + cs =~= (path_components(h) + init).push(PathComponent::Normal(n)));
    }
}

/// Expanding `~` replaces the first component by the home directory and
/// keeps every other one: the components of the result are those of the
/// home directory followed by the rest of the path's.
pub proof fn law_home_expansion(path: Seq<char>, home: &str)
    requires
        spec_is_absolute(home@),
        path_components(path).len() > 0,
        path_components(path)[0] == PathComponent::Normal(tilde()),
        all_plain_names(path_components(path).drop_first()),
    ensures
        spec_expand_home_dir(path, false, Some(home)) is Some,
        path_components(spec_expand_home_dir(path, false, Some(home))->Some_0)
            == path_components(home@) + path_components(path).drop_first(),
{
    law_path_type_absolute(path);
    lemma_join_names(home@, path_components(path).drop_first());
}

/// An absolute path is its own absolute form; against an absolute current
/// directory every path's absolute form is absolute.
pub proof fn law_absolute_path_buf(path: Seq<char>, current_dir: Seq<char>)
    ensures
        spec_is_absolute(path) ==> spec_absolute_path_buf(path, current_dir) == path,
        spec_is_absolute(current_dir) ==> spec_is_absolute(spec_absolute_path_buf(path, current_dir)),
{
    if spec_is_absolute(current_dir) {
        law_join_absolute(current_dir, tail_text(path));
        law_join_absolute(current_dir, path);
    }
}

} // verus!
