//! Turning relative paths into absolute ones. The current directory and
//! the home directory are handed in by the caller, as it found them.

use vstd::prelude::*;
use crate::errors::IoErrorKind;
use crate::paths::{
    law_join_absolute, law_path_type_absolute, law_render_absolute, spec_is_absolute,
    components, comps_view, join, path_components, render, render_range, render_rel, render_rel_range,
    spec_join, spec_path_type, tilde, Component, PathComponent, PathType,
};

verus! {

/// Why a path could not be made absolute.
#[derive(Debug, Clone, Copy, PartialEq, Eq, Structural)]
pub enum Error {
    CouldNotFindHome,
    CouldNotFindParent,
    IOError(IoErrorKind),
    StripPrefixError,
    UnexpectedPrefix,
}

/// Whether the first component of `path` is `c` (`Path::starts_with`).
pub open spec fn starts_with_component(path: Seq<char>, c: PathComponent) -> bool {
    path_components(path).len() > 0 && path_components(path)[0] == c
}

/// The text of `path` after its first component (`Path::strip_prefix`).
pub open spec fn tail_text(path: Seq<char>) -> Seq<char> {
    render_rel(path_components(path).drop_first())
}

/// The directory that holds `path` (`Path::parent`), if it has one.
pub open spec fn spec_parent(path: Seq<char>) -> Option<Seq<char>> {
    let pc = path_components(path);
    if pc.len() == 0 || pc.last() is RootDir {
        None
    } else {
        Some(render(pc.drop_last()))
    }
}

/// The first component of `path` and the text after it.
fn first_and_tail(path: &str) -> (r: (Option<Component>, String))
    ensures
        r.0 is None <==> path_components(path@).len() == 0,
        r.0 matches Some(c) ==> c@ == path_components(path@)[0],
        r.0 is Some ==> r.1@ == tail_text(path@),
{
    let comps = components(path);
    if comps.len() == 0 {
        return (None, String::new());
    }
    let tail = render_rel_range(&comps, 1, comps.len());
    assert(comps_view(comps@).subrange(1, comps@.len() as int) =~= path_components(path@).drop_first());
    let first = match &comps[0] {
        Component::RootDir => Component::RootDir,
        Component::CurDir => Component::CurDir,
        Component::ParentDir => Component::ParentDir,
        Component::Normal(n) => Component::Normal(n.clone()),
    };
    (Some(first), tail)
}

/// The parent of `path`, as `Path::parent` finds it.
pub fn parent(path: &str) -> (r: Option<String>)
    ensures
        r matches Some(p) ==> spec_parent(path@) == Some(p@),
        r is None ==> spec_parent(path@) is None,
{
    let comps = components(path);
    let n = comps.len();
    if n == 0 {
        return None;
    }
    assert(comps_view(comps@).last() == comps@[n - 1]@);
    if let Component::RootDir = &comps[n - 1] {
        return None;
    }
    let p = render_range(&comps, 0, n - 1);
    assert(comps_view(comps@).subrange(0, n - 1) =~= path_components(path@).drop_last());
    Some(p)
}

/// `path`, which starts with `.`, with the current directory in place of
/// the `.`.
pub fn expand_current_dir(path: &str, current_dir: Result<&str, IoErrorKind>) -> (r: Result<String, Error>)
    ensures
        !starts_with_component(path@, PathComponent::CurDir) ==> r == Err::<String, Error>(Error::UnexpectedPrefix),
        starts_with_component(path@, PathComponent::CurDir) ==> match current_dir {
            Ok(cd) => r matches Ok(p) && p@ == spec_join(cd@, tail_text(path@)),
            Err(k) => r == Err::<String, Error>(Error::IOError(k)),
        },
{
    let (first, tail) = first_and_tail(path);
    match first {
        Some(Component::CurDir) => match current_dir {
            Ok(cd) => Ok(join(cd, tail.as_str())),
            Err(k) => Err(Error::IOError(k)),
        },
        _ => Err(Error::UnexpectedPrefix),
    }
}

/// `path`, which starts with `..`, with the parent of the current
/// directory in place of the `..`.
pub fn expand_parent_dir(path: &str, current_dir: Result<&str, IoErrorKind>) -> (r: Result<String, Error>)
    ensures
        !starts_with_component(path@, PathComponent::ParentDir) ==> r == Err::<String, Error>(Error::UnexpectedPrefix),
        starts_with_component(path@, PathComponent::ParentDir) ==> match current_dir {
            Ok(cd) => match spec_parent(cd@) {
                Some(pd) => r matches Ok(p) && p@ == spec_join(pd, tail_text(path@)),
                None => r == Err::<String, Error>(Error::CouldNotFindParent),
            },
            Err(k) => r == Err::<String, Error>(Error::IOError(k)),
        },
{
    let (first, tail) = first_and_tail(path);
    match first {
        Some(Component::ParentDir) => match current_dir {
            Ok(cd) => match parent(cd) {
                Some(pd) => Ok(join(pd.as_str(), tail.as_str())),
                None => Err(Error::CouldNotFindParent),
            },
            Err(k) => Err(Error::IOError(k)),
        },
        _ => Err(Error::UnexpectedPrefix),
    }
}

/// `path`, which starts with `~`, with the home directory in place of the
/// `~`.
pub fn expand_home_dir(path: &str, home_dir: Option<&str>) -> (r: Result<String, Error>)
    ensures
        !starts_with_component(path@, PathComponent::Normal(tilde())) ==> r == Err::<String, Error>(Error::UnexpectedPrefix),
        starts_with_component(path@, PathComponent::Normal(tilde())) ==> match home_dir {
            Some(hd) => r matches Ok(p) && p@ == spec_join(hd@, tail_text(path@)),
            None => r == Err::<String, Error>(Error::CouldNotFindHome),
        },
{
    let (first, tail) = first_and_tail(path);
    match first {
        Some(Component::Normal(name)) => {
            if crate::paths::is_tilde(name.as_str()) {
                match home_dir {
                    Some(hd) => Ok(join(hd, tail.as_str())),
                    None => Err(Error::CouldNotFindHome),
                }
            } else {
                Err(Error::UnexpectedPrefix)
            }
        },
        _ => Err(Error::UnexpectedPrefix),
    }
}

/// `path`, a relative path that starts with a name other than `~`, put
/// below the current directory.
pub fn prepend_current_dir(path: &str, current_dir: Result<&str, IoErrorKind>) -> (r: Result<String, Error>)
    ensures
        path_components(path@).len() == 0 ==> match current_dir {
            Ok(cd) => r matches Ok(p) && p@ == cd@,
            Err(k) => r == Err::<String, Error>(Error::IOError(k)),
        },
        path_components(path@).len() > 0 ==> if spec_path_type(path@) == PathType::RelativeCurDirImplicit {
            match current_dir {
                Ok(cd) => r matches Ok(p) && p@ == spec_join(cd@, path@),
                Err(k) => r == Err::<String, Error>(Error::IOError(k)),
            }
        } else {
            r == Err::<String, Error>(Error::UnexpectedPrefix)
        },
{
    match PathType::of(path) {
        PathType::Empty => match current_dir {
            Ok(cd) => Ok(cd.to_owned()),
            Err(k) => Err(Error::IOError(k)),
        },
        PathType::RelativeCurDirImplicit => match current_dir {
            Ok(cd) => Ok(join(cd, path)),
            Err(k) => Err(Error::IOError(k)),
        },
        _ => Err(Error::UnexpectedPrefix),
    }
}

/// What making `path` absolute gives, according to how it starts.
pub open spec fn spec_absolute_path(path: Seq<char>, current_dir: Result<&str, IoErrorKind>, home_dir: Option<&str>) -> Result<Seq<char>, Error> {
    match spec_path_type(path) {
        PathType::Absolute => Ok(path),
        PathType::RelativeCurDir => match current_dir {
            Ok(cd) => Ok(spec_join(cd@, tail_text(path))),
            Err(k) => Err(Error::IOError(k)),
        },
        PathType::RelativeParentDir => match current_dir {
            Ok(cd) => match spec_parent(cd@) {
                Some(pd) => Ok(spec_join(pd, tail_text(path))),
                None => Err(Error::CouldNotFindParent),
            },
            Err(k) => Err(Error::IOError(k)),
        },
        PathType::RelativeHomeDir => match home_dir {
            Some(hd) => Ok(spec_join(hd@, tail_text(path))),
            None => Err(Error::CouldNotFindHome),
        },
        PathType::RelativeCurDirImplicit => match current_dir {
            Ok(cd) => Ok(spec_join(cd@, path)),
            Err(k) => Err(Error::IOError(k)),
        },
        PathType::Empty => match current_dir {
            Ok(cd) => Ok(cd@),
            Err(k) => Err(Error::IOError(k)),
        },
    }
}

/// `path` made absolute according to how it starts.
pub fn absolute_path_buf(path: &str, current_dir: Result<&str, IoErrorKind>, home_dir: Option<&str>) -> (r: Result<String, Error>)
    ensures
        match r {
            Ok(p) => spec_absolute_path(path@, current_dir, home_dir) == Ok::<Seq<char>, Error>(p@),
            Err(e) => spec_absolute_path(path@, current_dir, home_dir) == Err::<Seq<char>, Error>(e),
        },
{
    match PathType::of(path) {
        PathType::Absolute => Ok(path.to_owned()),
        PathType::RelativeCurDir => expand_current_dir(path, current_dir),
        PathType::RelativeParentDir => expand_parent_dir(path, current_dir),
        PathType::RelativeHomeDir => expand_home_dir(path, home_dir),
        PathType::RelativeCurDirImplicit => prepend_current_dir(path, current_dir),
        PathType::Empty => match current_dir {
            Ok(cd) => Ok(cd.to_owned()),
            Err(k) => Err(Error::IOError(k)),
        },
    }
}


/// Making a path absolute with an absolute current directory and an
/// absolute home directory gives an absolute path.
pub proof fn law_absolute_path_is_absolute(path: Seq<char>, current_dir: Result<&str, IoErrorKind>, home_dir: Option<&str>)
    requires
        current_dir matches Ok(cd) ==> spec_is_absolute(cd@),
        home_dir matches Some(hd) ==> spec_is_absolute(hd@),
        spec_absolute_path(path, current_dir, home_dir) is Ok,
    ensures
        spec_is_absolute(spec_absolute_path(path, current_dir, home_dir)->Ok_0),
{
    law_path_type_absolute(path);
    match spec_path_type(path) {
        PathType::Absolute => {},
        PathType::RelativeParentDir => {
            let cd = current_dir->Ok_0;
            let pc = path_components(cd@);
            law_path_type_absolute(cd@);
            let pd = spec_parent(cd@)->Some_0;
            assert(pc.drop_last()[0] == PathComponent::RootDir);
            law_render_absolute(pc.drop_last());
            law_join_absolute(pd, tail_text(path));
        },
        PathType::RelativeHomeDir => {
            law_join_absolute(home_dir->Some_0@, tail_text(path));
        },
        PathType::Empty => {},
        PathType::RelativeCurDir => {
            law_join_absolute(current_dir->Ok_0@, tail_text(path));
        },
        PathType::RelativeCurDirImplicit => {
            law_join_absolute(current_dir->Ok_0@, path);
        },
    }
}

} // verus!
