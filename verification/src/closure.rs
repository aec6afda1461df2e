//! Whole packages: folding one in, and what it asks to be folded in after it.

use vstd::prelude::*;
use vstd::string::*;
use crate::error::{Error, Failure};
use crate::config::Settings;
use crate::merge::{fold_node, left_by_node, Env};
use crate::paths::{child_path, join_child};
use crate::planner::BuildEnv;
use crate::text::{contains_text, decode_text, split_words, views, whitespace_words};
use crate::world::World;

verus! {

/// The file in which the package at `root` names the packages it asks for.
pub open spec fn propagated_file(root: Seq<char>) -> Seq<char> {
    child_path(root, "nix-support/propagated-user-env-packages"@)
}

/// The text of the file at `path`, or the failure to read it, told with `context`. A file
/// that is not well-formed UTF-8 cannot be read as text.
pub open spec fn read_text(world: &World, path: Seq<char>, context: Seq<char>) -> Result<
    Seq<char>,
    Failure,
> {
    match world.facts(path).content {
        Err(e) => Err(Failure::Io { path, source: e, context }),
        Ok(bytes) => if vstd::utf8::valid_utf8(bytes) {
            Ok(vstd::utf8::decode_utf8(bytes))
        } else {
            Err(Failure::Io { path, source: "stream did not contain valid UTF-8"@, context })
        },
    }
}

/// The roots that wait once each of `words`, in order, was postponed unless it was folded in
/// or waits already.
pub open spec fn postpone(postponed: Seq<Seq<char>>, done: Set<Seq<char>>, words: Seq<Seq<char>>)
    -> Seq<Seq<char>>
    decreases words.len(),
{
    if words.len() == 0 {
        postponed
    } else {
        let w = words[0];
        let next = if done.contains(w) || postponed.contains(w) {
            postponed
        } else {
            postponed.push(w)
        };
        postpone(next, done, words.skip(1))
    }
}

/// The state after the package at `root` was folded in with `priority`, or the failure that
/// ends the run. A package that was folded in before is not folded in again. The packages
/// that it names in its file of propagated packages are postponed.
pub open spec fn add_package(
    world: &World,
    cfg: Settings,
    env: Env,
    root: Seq<char>,
    priority: i32,
) -> Result<Env, Failure> {
    if env.done.contains(root) {
        Ok(env)
    } else {
        let marked = Env { done: env.done.insert(root), ..env };
        match fold_node(world, cfg, marked, Seq::empty(), root, Seq::empty(), priority) {
            Err(e) => Err(e),
            Ok(folded) => if !world.facts(propagated_file(root)).resolves() {
                Ok(folded)
            } else {
                match read_text(
                    world,
                    propagated_file(root),
                    "Failed to read propagated packages"@,
                ) {
                    Err(e) => Err(e),
                    Ok(text) => Ok(
                        Env {
                            postponed: postpone(
                                folded.postponed,
                                folded.done,
                                whitespace_words(text),
                            ),
                            ..folded
                        },
                    ),
                }
            },
        }
    }
}

/// The state that folding a package in leaves behind, whether it fails or not. A failure
/// leaves the package marked as folded in, the plan as far as its tree was folded in, and
/// the roots that wait as they were.
pub open spec fn left_by_package(
    world: &World,
    cfg: Settings,
    env: Env,
    root: Seq<char>,
    priority: i32,
) -> Env {
    match add_package(world, cfg, env, root, priority) {
        Ok(after) => after,
        Err(_) => {
            let marked = Env { done: env.done.insert(root), ..env };
            left_by_node(world, cfg, marked, Seq::empty(), root, Seq::empty(), priority)
        },
    }
}

/// Reads the file at `path` as text.
pub fn read_file_text(world: &World, path: &str, context: &str) -> (r: Result<String, Error>)
    ensures
        match read_text(world, path@, context@) {
            Ok(t) => r matches Ok(s) && s@ == t,
            Err(e) => r matches Err(x) && x@ == e,
        },
{
    match &world.get(path).content {
        Err(e) => Err(
            Error::Io {
                path: String::from_str(path),
                source: e.clone(),
                context: String::from_str(context),
            },
        ),
        Ok(bytes) => match decode_text(bytes) {
            Some(text) => Ok(text),
            None => Err(
                Error::Io {
                    path: String::from_str(path),
                    source: String::from_str("stream did not contain valid UTF-8"),
                    context: String::from_str(context),
                },
            ),
        },
    }
}

impl BuildEnv {
    fn mark_done(&mut self, root: &str)
        ensures
            final(self)@ == (Env { done: old(self)@.done.insert(root@), ..old(self)@ }),
            final(self).config == old(self).config,
    {
        self.done.insert(String::from_str(root), true);
        assert(self.done@.dom() =~= old(self).done@.dom().insert(root@));
    }

    fn postpone_all(&mut self, words: &Vec<String>)
        ensures
            final(self)@ == (Env {
                postponed: postpone(old(self)@.postponed, old(self)@.done, views(words@)),
                ..old(self)@
            }),
            final(self).config == old(self).config,
    {
        let ghost goal = postpone(old(self)@.postponed, old(self)@.done, views(words@));
        let mut i: usize = 0;
        assert(views(words@).skip(0) =~= views(words@));
        while i < words.len()
            invariant
                i <= words.len(),
                self.config == old(self).config,
                self@.plan == old(self)@.plan,
                self@.done == old(self)@.done,
                self@.warnings == old(self)@.warnings,
                goal == postpone(self@.postponed, self@.done, views(words@).skip(i as int)),
            decreases words.len() - i,
        {
            let word = &words[i];
            assert(views(words@).skip(i as int)[0] == word@);
            assert(views(words@).skip(i as int).skip(1) =~= views(words@).skip(i as int + 1));
            let ghost waiting = views(self.postponed@);
            if !self.done.contains_key(word.as_str()) && !contains_text(
                &self.postponed,
                word.as_str(),
            ) {
                self.postponed.push(word.clone());
                assert(views(self.postponed@) =~= waiting.push(word@));
            }
            i += 1;
        }
    }

    /// Folds the package at `pkg_dir` into the plan with `priority`, unless it was folded in
    /// before, and postpones the packages it asks for.
    pub fn add_pkg(&mut self, world: &World, pkg_dir: &str, priority: i32) -> (r: Result<
        (),
        Error,
    >)
        ensures
            final(self).config == old(self).config,
            final(self)@.done == old(self)@.done.insert(pkg_dir@),
            match add_package(world, old(self).config@, old(self)@, pkg_dir@, priority) {
                Ok(env) => r is Ok && final(self)@ == env,
                Err(e) => (r matches Err(x) && x@ == e) && final(self)@ == left_by_package(
                    world,
                    old(self).config@,
                    old(self)@,
                    pkg_dir@,
                    priority,
                ),
            },
    {
        proof {
            crate::failure::law_left_by_package_marks(
                world,
                self.config@,
                self@,
                pkg_dir@,
                priority,
            );
        }
        if self.done.contains_key(pkg_dir) {
            return Ok(());
        }
        self.mark_done(pkg_dir);
        proof {
            reveal_strlit("");
            assert(""@ =~= Seq::<char>::empty());
        }
        match self.find_files(world, "", pkg_dir, "", priority) {
            Err(e) => {
                return Err(e);
            },
            Ok(()) => {},
        }
        let path = join_child(pkg_dir, "nix-support/propagated-user-env-packages");
        if world.get(path.as_str()).resolves() {
            match read_file_text(world, path.as_str(), "Failed to read propagated packages") {
                Err(e) => {
                    return Err(e);
                },
                Ok(text) => {
                    let words = split_words(text.as_str());
                    self.postpone_all(&words);
                },
            }
        }
        Ok(())
    }
}

} // verus!
