//! Where the configuration of archives, repositories and the interface
//! is kept.

use vstd::prelude::*;
use crate::path_ext::{expand_home_dir, tail_text};
use crate::paths::{join, path_components, spec_join, tilde, PathComponent, PathType};

verus! {

/// What the place of the configuration depends on, as found in the
/// environment: the value of `ERGIBUS_CONFIG_DIR` if it is set, the
/// user's configuration directory and home directory if they are known.
#[derive(Debug, Clone)]
pub struct ConfigEnv {
    pub override_dir: Option<String>,
    pub config_dir: Option<String>,
    pub home_dir: Option<String>,
}

/// The environment variable that overrides the configuration directory.
pub const DCDP_OVERRIDE_ENVAR: &'static str = "ERGIBUS_CONFIG_DIR";

/// The configuration directory when the user's one is not known: this,
/// below the home directory.
pub const DEFAULT_CONFIG_DIR_TAIL: &'static str = ".config/ergibus";

/// The default configuration directory.
pub open spec fn spec_default_config_dir(env: ConfigEnv) -> Seq<char> {
    match env.config_dir {
        Some(c) => spec_join(c@, "ergibus"@),
        None => spec_join(env.home_dir->Some_0@, DEFAULT_CONFIG_DIR_TAIL@),
    }
}

/// The default can be found: the configuration or the home directory is
/// known.
pub open spec fn default_known(env: ConfigEnv) -> bool {
    env.config_dir is Some || env.home_dir is Some
}

/// The override starts with the character `~`.
pub open spec fn starts_with_tilde(s: Seq<char>) -> bool {
    s.len() > 0 && s[0] == '~'
}

/// The configuration directory can be found: an override that starts
/// with `~` starts with the component `~` and the home directory is
/// known; without an override, the default can be found.
pub open spec fn config_known(env: ConfigEnv) -> bool {
    match env.override_dir {
        Some(v) => if v@.len() == 0 {
            default_known(env)
        } else if starts_with_tilde(v@) {
            path_components(v@).len() > 0 && path_components(v@)[0] == PathComponent::Normal(tilde()) && env.home_dir is Some
        } else {
            true
        },
        None => default_known(env),
    }
}

/// The configuration directory.
pub open spec fn spec_config_dir(env: ConfigEnv) -> Seq<char> {
    match env.override_dir {
        Some(v) => if v@.len() == 0 {
            spec_default_config_dir(env)
        } else if starts_with_tilde(v@) {
            spec_join(env.home_dir->Some_0@, tail_text(v@))
        } else {
            v@
        },
        None => spec_default_config_dir(env),
    }
}

/// The default configuration directory: `ergibus` in the user's
/// configuration directory, or `.config/ergibus` in the home directory.
pub fn abs_default_config_dir_path(env: &ConfigEnv) -> (r: String)
    requires
        default_known(*env),
    ensures
        r@ == spec_default_config_dir(*env),
{
    match &env.config_dir {
        Some(c) => join(c.as_str(), "ergibus"),
        None => match &env.home_dir {
            Some(h) => join(h.as_str(), DEFAULT_CONFIG_DIR_TAIL),
            None => String::new(),
        },
    }
}

/// Whether the configuration directory can be found in `env`.
pub fn is_config_known(env: &ConfigEnv) -> (r: bool)
    ensures
        r == config_known(*env),
{
    let default = env.config_dir.is_some() || env.home_dir.is_some();
    match &env.override_dir {
        Some(v) => {
            if v.unicode_len() == 0 {
                default
            } else if v.get_char(0) == '~' {
                let home_relative = match PathType::of(v.as_str()) {
                    PathType::RelativeHomeDir => true,
                    _ => false,
                };
                home_relative && env.home_dir.is_some()
            } else {
                true
            }
        },
        None => default,
    }
}

/// The configuration directory: the override when it is set and not
/// empty (a leading `~` standing for the home directory), else the
/// default.
pub fn get_config_dir_path(env: &ConfigEnv) -> (r: String)
    requires
        config_known(*env),
    ensures
        r@ == spec_config_dir(*env),
{
    match &env.override_dir {
        Some(v) => {
            if v.unicode_len() == 0 {
                abs_default_config_dir_path(env)
            } else if v.get_char(0) == '~' {
                let home = match &env.home_dir {
                    Some(h) => Some(h.as_str()),
                    None => None,
                };
                match expand_home_dir(v.as_str(), home) {
                    Ok(p) => p,
                    Err(_) => String::new(),
                }
            } else {
                v.clone()
            }
        },
        None => abs_default_config_dir_path(env),
    }
}

/// The directory of the archives' specifications.
pub fn get_archive_config_dir_path(env: &ConfigEnv) -> (r: String)
    requires
        config_known(*env),
    ensures
        r@ == spec_join(spec_config_dir(*env), "archives"@),
{
    join(get_config_dir_path(env).as_str(), "archives")
}

/// The directory of the interface's settings.
pub fn get_gui_config_dir_path(env: &ConfigEnv) -> (r: String)
    requires
        config_known(*env),
    ensures
        r@ == spec_join(spec_config_dir(*env), "gui"@),
{
    join(get_config_dir_path(env).as_str(), "gui")
}

/// The directory of the content repositories' specifications.
pub fn get_repo_config_dir_path(env: &ConfigEnv) -> (r: String)
    requires
        config_known(*env),
    ensures
        r@ == spec_join(spec_config_dir(*env), "repos"@),
{
    join(get_config_dir_path(env).as_str(), "repos")
}

} // verus!
