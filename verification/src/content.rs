//! Where content repositories and their specifications live.

use vstd::prelude::*;
use crate::config::{config_known, get_repo_config_dir_path, spec_config_dir, ConfigEnv};
use crate::paths::{join, spec_join};

verus! {

/// The path of the specification of the repository `repo_name`.
pub open spec fn spec_repo_spec_file_path(env: ConfigEnv, repo_name: Seq<char>) -> Seq<char> {
    spec_join(spec_join(spec_config_dir(env), "repos"@), repo_name)
}

/// The path of the specification of the repository `repo_name`.
pub fn get_repo_spec_file_path(env: &ConfigEnv, repo_name: &str) -> (r: String)
    requires
        config_known(*env),
    ensures
        r@ == spec_repo_spec_file_path(*env, repo_name@),
{
    join(get_repo_config_dir_path(env).as_str(), repo_name)
}

/// Whether the repository `repo_name` exists: whether `file_exists` finds its
/// specification file.
pub fn content_repo_exists<F: Fn(&str) -> bool>(env: &ConfigEnv, repo_name: &str, file_exists: &F) -> (r: bool)
    requires
        config_known(*env),
        forall|p: &str| file_exists.requires((p,)),
    ensures
        exists|p: &str| p@ == spec_repo_spec_file_path(*env, repo_name@) && file_exists.ensures((p,), r),
{
    let path = get_repo_spec_file_path(env, repo_name);
    file_exists(path.as_str())
}

/// The directory that holds the repository `name` created at `location`.
pub fn repo_dir_path(location: &str, name: &str) -> (r: String)
    ensures
        r@ == spec_join(spec_join(spec_join(location@, "ergibus"@), "repos"@), name@),
{
    let p = join(location, "ergibus");
    let p = join(p.as_str(), "repos");
    join(p.as_str(), name)
}

} // verus!
