//! The configuration of a run, and how it is read from the variables of the environment.

use vstd::prelude::*;
use vstd::string::*;
use crate::error::{Error, Failure};
use crate::text::{split_words, str_equal, views, whitespace_words};
use crate::world::option_view;

verus! {

/// The variables a run is configured by, each with its value if it is set.
#[derive(Debug)]
pub struct Vars {
    pub out: Option<String>,
    pub extra_prefix: Option<String>,
    pub paths_to_link: Option<String>,
    pub ignore_collisions: Option<String>,
    pub check_collision_contents: Option<String>,
    pub ignore_single_file_outputs: Option<String>,
    pub pkgs: Option<String>,
    pub pkgs_path: Option<String>,
    pub extra_paths_from: Option<String>,
    pub manifest: Option<String>,
    pub store_dir: Option<String>,
}

/// The configuration of a run.
#[derive(Debug)]
pub struct Config {
    /// The root of the environment to build.
    pub out: String,
    /// A path put between the root and every relative path.
    pub extra_prefix: String,
    /// The paths that are linked; `/` asks for everything.
    pub paths_to_link: Vec<String>,
    /// Keep the earlier contributor on a collision, with a warning.
    pub ignore_collisions: bool,
    /// Accept a collision of two equivalent objects silently.
    pub check_collision_contents: bool,
    /// Leave out a package that is a plain file, with a warning.
    pub ignore_single_file_outputs: bool,
    /// The list of packages, as JSON text.
    pub pkgs: Option<String>,
    /// The file that holds the list of packages; it goes before `pkgs`.
    pub pkgs_path: Option<String>,
    /// The file that lists further package roots, one per line.
    pub extra_paths_from: Option<String>,
    /// Where the `manifest` link of the environment points; empty for none.
    pub manifest: String,
    /// The directory whose immediate children are store paths.
    pub store_dir: String,
}

/// The mathematical content of a [`Config`].
pub struct Settings {
    pub out: Seq<char>,
    pub extra_prefix: Seq<char>,
    pub paths_to_link: Seq<Seq<char>>,
    pub ignore_collisions: bool,
    pub check_collision_contents: bool,
    pub ignore_single_file_outputs: bool,
    pub pkgs: Option<Seq<char>>,
    pub pkgs_path: Option<Seq<char>>,
    pub extra_paths_from: Option<Seq<char>>,
    pub manifest: Seq<char>,
    pub store_dir: Seq<char>,
}

impl View for Config {
    type V = Settings;

    open spec fn view(&self) -> Settings {
        Settings {
            out: self.out@,
            extra_prefix: self.extra_prefix@,
            paths_to_link: views(self.paths_to_link@),
            ignore_collisions: self.ignore_collisions,
            check_collision_contents: self.check_collision_contents,
            ignore_single_file_outputs: self.ignore_single_file_outputs,
            pkgs: option_view(self.pkgs),
            pkgs_path: option_view(self.pkgs_path),
            extra_paths_from: option_view(self.extra_paths_from),
            manifest: self.manifest@,
            store_dir: self.store_dir@,
        }
    }
}

/// The value of a text variable, or `default` where it is not set.
pub open spec fn text_or(v: Option<String>, default: Seq<char>) -> Seq<char> {
    match v {
        Some(s) => s@,
        None => default,
    }
}

/// A switch is on when its variable is `1`; where the variable is not set, `default` decides.
pub open spec fn switch(v: Option<String>, default: bool) -> bool {
    match v {
        Some(s) => s@ == "1"@,
        None => default,
    }
}

/// The configuration that the variables describe, where `out` and `paths_to_link` are set.
pub open spec fn settings_of(vars: Vars) -> Settings {
    Settings {
        out: text_or(vars.out, Seq::empty()),
        extra_prefix: text_or(vars.extra_prefix, Seq::empty()),
        paths_to_link: whitespace_words(text_or(vars.paths_to_link, Seq::empty())),
        ignore_collisions: switch(vars.ignore_collisions, false),
        check_collision_contents: switch(vars.check_collision_contents, true),
        ignore_single_file_outputs: switch(vars.ignore_single_file_outputs, false),
        pkgs: option_view(vars.pkgs),
        pkgs_path: option_view(vars.pkgs_path),
        extra_paths_from: option_view(vars.extra_paths_from),
        manifest: text_or(vars.manifest, Seq::empty()),
        store_dir: text_or(vars.store_dir, "/nix/store"@),
    }
}

/// What reading the variables gives: a configuration, or the first required variable that
/// is not set.
pub open spec fn read_vars(vars: Vars) -> Result<Settings, Failure> {
    if vars.out is None {
        Err(Failure::Env { var: "out"@ })
    } else if vars.paths_to_link is None {
        Err(Failure::Env { var: "pathsToLink"@ })
    } else {
        Ok(settings_of(vars))
    }
}

fn switch_value(v: &Option<String>, default: bool) -> (r: bool)
    ensures
        r == switch(*v, default),
{
    match v {
        Some(s) => str_equal(s.as_str(), "1"),
        None => default,
    }
}

fn text_value(v: Option<String>, default: &str) -> (r: String)
    ensures
        r@ == text_or(v, default@),
{
    match v {
        Some(s) => s,
        None => String::from_str(default),
    }
}

impl Config {
    /// Reads the configuration from the variables. `out` and `pathsToLink` are required;
    /// the paths to link are the words of `pathsToLink`.
    pub fn from_env(vars: Vars) -> (r: Result<Config, Error>)
        ensures
            match read_vars(vars) {
                Ok(s) => r matches Ok(c) && c@ == s,
                Err(e) => r matches Err(x) && x@ == e,
            },
    {
        let ignore_collisions = switch_value(&vars.ignore_collisions, false);
        let check_collision_contents = switch_value(&vars.check_collision_contents, true);
        let ignore_single_file_outputs = switch_value(&vars.ignore_single_file_outputs, false);
        let out = match vars.out {
            Some(s) => s,
            None => {
                return Err(Error::Env { var: String::from_str("out") });
            },
        };
        let paths_to_link = match vars.paths_to_link {
            Some(s) => split_words(s.as_str()),
            None => {
                return Err(Error::Env { var: String::from_str("pathsToLink") });
            },
        };
        proof {
            assert("" @ =~= Seq::<char>::empty()) by {
                reveal_strlit("");
            }
        }
        Ok(
            Config {
                out,
                extra_prefix: text_value(vars.extra_prefix, ""),
                paths_to_link,
                ignore_collisions,
                check_collision_contents,
                ignore_single_file_outputs,
                pkgs: vars.pkgs,
                pkgs_path: vars.pkgs_path,
                extra_paths_from: vars.extra_paths_from,
                manifest: text_value(vars.manifest, ""),
                store_dir: text_value(vars.store_dir, "/nix/store"),
            },
        )
    }
}

} // verus!
