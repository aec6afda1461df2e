//! A whole run: the packages that were asked for, the packages that those ask for, the extra
//! roots, and the environment that results.

use vstd::prelude::*;
use vstd::string::*;
use crate::closure::{add_package, left_by_package, propagated_file, read_file_text, read_text};
use crate::config::{read_vars, Config, Settings, Vars};
use crate::error::{Error, Failure};
use crate::json::{
    is_parse_failure, json_value, package_views, packages_of, parse_json, parse_packages, Package,
    PackageSpec,
};
use crate::merge::{initial, Env};
use crate::paths::{child_path, child_path_is_injective, join_child};
use crate::planner::BuildEnv;
use crate::realize::{deeds, realized, wanted_links, Action, Deed};
use crate::text::{split_lines, text_lines, trim_text, trimmed, views};
use crate::world::World;

verus! {

/// The priority after `c`: one more, as long as there is one more.
pub open spec fn next_priority(c: i32) -> i32 {
    if c < i32::MAX {
        (c + 1) as i32
    } else {
        c
    }
}

/// The state after the roots from the `i`-th on were folded in, the first with the priority
/// `counter` and each further one with the next, together with the priority that comes after
/// the last; or the failure that ends the run.
pub open spec fn fold_roots(
    world: &World,
    cfg: Settings,
    env: Env,
    roots: Seq<Seq<char>>,
    i: nat,
    counter: i32,
) -> Result<(Env, i32), Failure>
    decreases roots.len() - i,
{
    if i >= roots.len() {
        Ok((env, counter))
    } else {
        match add_package(world, cfg, env, roots[i as int], counter) {
            Err(e) => Err(e),
            Ok(next) => fold_roots(world, cfg, next, roots, i + 1, next_priority(counter)),
        }
    }
}

/// The state after those of the paths from the `i`-th on that resolve to something were
/// folded in with `priority`.
pub open spec fn fold_paths(
    world: &World,
    cfg: Settings,
    env: Env,
    paths: Seq<Seq<char>>,
    i: nat,
    priority: i32,
) -> Result<Env, Failure>
    decreases paths.len() - i,
{
    if i >= paths.len() {
        Ok(env)
    } else if !world.facts(paths[i as int]).resolves() {
        fold_paths(world, cfg, env, paths, i + 1, priority)
    } else {
        match add_package(world, cfg, env, paths[i as int], priority) {
            Err(e) => Err(e),
            Ok(next) => fold_paths(world, cfg, next, paths, i + 1, priority),
        }
    }
}

/// The state after the packages from the `i`-th on were folded in, in order, each path of a
/// package with the priority of the package.
pub open spec fn fold_packages(
    world: &World,
    cfg: Settings,
    env: Env,
    packages: Seq<PackageSpec>,
    i: nat,
) -> Result<Env, Failure>
    decreases packages.len() - i,
{
    if i >= packages.len() {
        Ok(env)
    } else {
        match fold_paths(world, cfg, env, packages[i as int].paths, 0, packages[i as int].priority) {
            Err(e) => Err(e),
            Ok(next) => fold_packages(world, cfg, next, packages, i + 1),
        }
    }
}

/// The priority of the extra roots, and the first priority of a propagated package.
pub const PROPAGATED_PRIORITY: i32 = 1000;

/// The state after those of the lines from the `i`-th on that name a directory, once
/// trimmed, were folded in with the priority 1000.
pub open spec fn fold_extra(
    world: &World,
    cfg: Settings,
    env: Env,
    lines: Seq<Seq<char>>,
    i: nat,
) -> Result<Env, Failure>
    decreases lines.len() - i,
{
    if i >= lines.len() {
        Ok(env)
    } else if !world.facts(trimmed(lines[i as int])).is_dir() {
        fold_extra(world, cfg, env, lines, i + 1)
    } else {
        match add_package(world, cfg, env, trimmed(lines[i as int]), PROPAGATED_PRIORITY) {
            Err(e) => Err(e),
            Ok(next) => fold_extra(world, cfg, next, lines, i + 1),
        }
    }
}

/// The recorded files of propagated packages whose package was not folded in yet.
pub open spec fn unread_files(world: &World, done: Set<Seq<char>>) -> Set<Seq<char>> {
    world.recorded().dom().filter(
        |k: Seq<char>| exists|r: Seq<char>| k == propagated_file(r) && !done.contains(r),
    )
}

/// How many there are of them.
pub open spec fn unread(world: &World, done: Set<Seq<char>>) -> nat {
    unread_files(world, done).len()
}

/// The configuration with collisions ignored.
pub open spec fn ignoring(cfg: Settings) -> Settings {
    Settings { ignore_collisions: true, ..cfg }
}

/// The state once no package waits any more. The packages that wait are folded in round by
/// round: a round takes the roots that wait, in the order in which they were postponed, and
/// folds them in with collisions ignored, each with the next priority from `counter` on.
/// What they ask for waits for the next round.
pub open spec fn propagate(world: &World, cfg: Settings, env: Env, counter: i32) -> Result<
    Env,
    Failure,
>
    decreases unread(world, env.done),
    when world.recorded().dom().finite()
    via propagate_decreases
{
    if env.postponed.len() == 0 {
        Ok(env)
    } else {
        match fold_roots(
            world,
            ignoring(cfg),
            Env { postponed: Seq::empty(), ..env },
            env.postponed,
            0,
            counter,
        ) {
            Err(e) => Err(e),
            Ok((next, c)) => if next.postponed.len() == 0 {
                Ok(next)
            } else {
                propagate(world, cfg, next, c)
            },
        }
    }
}

#[via_fn]
proof fn propagate_decreases(world: &World, cfg: Settings, env: Env, counter: i32) {
    if env.postponed.len() != 0 {
        let start = Env { postponed: Seq::empty(), ..env };
        match fold_roots(world, ignoring(cfg), start, env.postponed, 0, counter) {
            Err(e) => {},
            Ok((next, c)) => {
                if next.postponed.len() != 0 {
                    lemma_fold_roots_progress(world, ignoring(cfg), start, env.postponed, 0, counter);
                }
            },
        }
    }
}

/// Folding a package in marks at most its own root, and asks for more only where its file of
/// propagated packages is recorded and its root was not folded in before.
pub proof fn lemma_add_package_marks(
    world: &World,
    cfg: Settings,
    env: Env,
    root: Seq<char>,
    priority: i32,
)
    ensures
        add_package(world, cfg, env, root, priority) matches Ok(after) ==> {
            &&& after.done == env.done.insert(root)
            &&& after.postponed != env.postponed ==> !env.done.contains(root)
                && world.recorded().dom().contains(propagated_file(root))
        },
{
    if env.done.contains(root) {
        assert(env.done.insert(root) =~= env.done);
    } else {
        let marked = Env { done: env.done.insert(root), ..env };
        crate::laws::law_fold_node_grows(
            world,
            cfg,
            marked,
            Seq::empty(),
            root,
            Seq::empty(),
            priority,
        );
    }
}

/// The more roots were folded in, the fewer files are unread; and one file fewer for a root
/// that is new and whose file is recorded.
pub proof fn lemma_unread_shrinks(world: &World, done: Set<Seq<char>>, root: Seq<char>)
    requires
        world.recorded().dom().finite(),
    ensures
        unread(world, done.insert(root)) <= unread(world, done),
        !done.contains(root) && world.recorded().dom().contains(propagated_file(root)) ==> unread(
            world,
            done.insert(root),
        ) < unread(world, done),
{
    let before = unread_files(world, done);
    let after = unread_files(world, done.insert(root));
    assert(before.finite()) by {
        vstd::set_lib::lemma_len_subset(before, world.recorded().dom());
    }
    assert(after.subset_of(before)) by {
        assert forall|k: Seq<char>| after.contains(k) implies before.contains(k) by {
            let r = choose|r: Seq<char>| k == propagated_file(r) && !done.insert(root).contains(r);
            assert(k == propagated_file(r) && !done.contains(r));
        }
    }
    vstd::set_lib::lemma_len_subset(after, before);
    if !done.contains(root) && world.recorded().dom().contains(propagated_file(root)) {
        let k = propagated_file(root);
        assert(before.contains(k));
        assert(!after.contains(k)) by {
            if after.contains(k) {
                let r = choose|r: Seq<char>|
                    k == propagated_file(r) && !done.insert(root).contains(r);
                child_path_is_injective(r, root, "nix-support/propagated-user-env-packages"@);
            }
        }
        assert(after.subset_of(before.remove(k)));
        vstd::set_lib::lemma_len_subset(after, before.remove(k));
    }
}

/// A round leaves no more files unread than there were, and fewer if anything waits after it
/// that did not wait before.
pub proof fn lemma_fold_roots_progress(
    world: &World,
    cfg: Settings,
    env: Env,
    roots: Seq<Seq<char>>,
    i: nat,
    counter: i32,
)
    requires
        world.recorded().dom().finite(),
    ensures
        fold_roots(world, cfg, env, roots, i, counter) matches Ok((after, c)) ==> {
            &&& unread(world, after.done) <= unread(world, env.done)
            &&& after.postponed != env.postponed ==> unread(world, after.done) < unread(
                world,
                env.done,
            )
        },
    decreases roots.len() - i,
{
    if i < roots.len() {
        lemma_add_package_marks(world, cfg, env, roots[i as int], counter);
        lemma_unread_shrinks(world, env.done, roots[i as int]);
        match add_package(world, cfg, env, roots[i as int], counter) {
            Err(e) => {},
            Ok(next) => {
                lemma_fold_roots_progress(world, cfg, next, roots, i + 1, next_priority(counter));
            },
        }
    }
}

/// The state that folding the roots in, from the `i`-th on, leaves behind, whether it fails
/// or not: a failure leaves what the package that failed leaves, after those before it.
pub open spec fn left_by_roots(
    world: &World,
    cfg: Settings,
    env: Env,
    roots: Seq<Seq<char>>,
    i: nat,
    counter: i32,
) -> Env
    decreases roots.len() - i,
{
    if i >= roots.len() {
        env
    } else {
        match add_package(world, cfg, env, roots[i as int], counter) {
            Err(_) => left_by_package(world, cfg, env, roots[i as int], counter),
            Ok(next) => left_by_roots(world, cfg, next, roots, i + 1, next_priority(counter)),
        }
    }
}

/// The state that folding the paths in, from the `i`-th on, leaves behind, whether it fails
/// or not.
pub open spec fn left_by_paths(
    world: &World,
    cfg: Settings,
    env: Env,
    paths: Seq<Seq<char>>,
    i: nat,
    priority: i32,
) -> Env
    decreases paths.len() - i,
{
    if i >= paths.len() {
        env
    } else if !world.facts(paths[i as int]).resolves() {
        left_by_paths(world, cfg, env, paths, i + 1, priority)
    } else {
        match add_package(world, cfg, env, paths[i as int], priority) {
            Err(_) => left_by_package(world, cfg, env, paths[i as int], priority),
            Ok(next) => left_by_paths(world, cfg, next, paths, i + 1, priority),
        }
    }
}

/// The state that folding the packages in, from the `i`-th on, leaves behind, whether it
/// fails or not.
pub open spec fn left_by_packages(
    world: &World,
    cfg: Settings,
    env: Env,
    packages: Seq<PackageSpec>,
    i: nat,
) -> Env
    decreases packages.len() - i,
{
    if i >= packages.len() {
        env
    } else {
        match fold_paths(world, cfg, env, packages[i as int].paths, 0, packages[i as int].priority) {
            Err(_) => left_by_paths(
                world,
                cfg,
                env,
                packages[i as int].paths,
                0,
                packages[i as int].priority,
            ),
            Ok(next) => left_by_packages(world, cfg, next, packages, i + 1),
        }
    }
}

/// The state that folding the extra roots in, from the `i`-th line on, leaves behind,
/// whether it fails or not.
pub open spec fn left_by_extra(
    world: &World,
    cfg: Settings,
    env: Env,
    lines: Seq<Seq<char>>,
    i: nat,
) -> Env
    decreases lines.len() - i,
{
    if i >= lines.len() {
        env
    } else if !world.facts(trimmed(lines[i as int])).is_dir() {
        left_by_extra(world, cfg, env, lines, i + 1)
    } else {
        match add_package(world, cfg, env, trimmed(lines[i as int]), PROPAGATED_PRIORITY) {
            Err(_) => left_by_package(
                world,
                cfg,
                env,
                trimmed(lines[i as int]),
                PROPAGATED_PRIORITY,
            ),
            Ok(next) => left_by_extra(world, cfg, next, lines, i + 1),
        }
    }
}

/// The state that folding the propagated packages in leaves behind, whether it fails or
/// not: a failure leaves what the round that failed leaves, and the roots of that round
/// wait no more.
pub open spec fn left_by_propagate(world: &World, cfg: Settings, env: Env, counter: i32) -> Env
    decreases unread(world, env.done),
    when world.recorded().dom().finite()
    via left_by_propagate_decreases
{
    if env.postponed.len() == 0 {
        env
    } else {
        match fold_roots(
            world,
            ignoring(cfg),
            Env { postponed: Seq::empty(), ..env },
            env.postponed,
            0,
            counter,
        ) {
            Err(_) => left_by_roots(
                world,
                ignoring(cfg),
                Env { postponed: Seq::empty(), ..env },
                env.postponed,
                0,
                counter,
            ),
            Ok((next, c)) => if next.postponed.len() == 0 {
                next
            } else {
                left_by_propagate(world, cfg, next, c)
            },
        }
    }
}

#[via_fn]
proof fn left_by_propagate_decreases(world: &World, cfg: Settings, env: Env, counter: i32) {
    if env.postponed.len() != 0 {
        let start = Env { postponed: Seq::empty(), ..env };
        match fold_roots(world, ignoring(cfg), start, env.postponed, 0, counter) {
            Err(e) => {},
            Ok((next, c)) => {
                if next.postponed.len() != 0 {
                    lemma_fold_roots_progress(world, ignoring(cfg), start, env.postponed, 0, counter);
                }
            },
        }
    }
}

/// The state that a whole run of planning leaves behind, whether it fails or not: a failure
/// leaves what the part that failed leaves, after the parts before it.
pub open spec fn left_by_planned(
    world: &World,
    cfg: Settings,
    env: Env,
    packages: Seq<PackageSpec>,
) -> Env {
    match fold_packages(world, cfg, env, packages, 0) {
        Err(_) => left_by_packages(world, cfg, env, packages, 0),
        Ok(asked) => match propagate(world, cfg, asked, PROPAGATED_PRIORITY) {
            Err(_) => left_by_propagate(world, cfg, asked, PROPAGATED_PRIORITY),
            Ok(closed) => match cfg.extra_paths_from {
                None => closed,
                Some(path) => if path.len() == 0 {
                    closed
                } else {
                    match read_text(world, path, "Failed to read extra paths"@) {
                        Err(_) => closed,
                        Ok(text) => left_by_extra(world, cfg, closed, text_lines(text), 0),
                    }
                },
            },
        },
    }
}

/// The state after a whole run of planning: the packages are folded in, in order; then what
/// they ask for, round by round, from the priority 1000 on; then the extra roots, which are
/// the lines of the file that the configuration names.
pub open spec fn planned(world: &World, cfg: Settings, env: Env, packages: Seq<PackageSpec>)
    -> Result<Env, Failure> {
    match fold_packages(world, cfg, env, packages, 0) {
        Err(e) => Err(e),
        Ok(asked) => match propagate(world, cfg, asked, PROPAGATED_PRIORITY) {
            Err(e) => Err(e),
            Ok(closed) => match cfg.extra_paths_from {
                None => Ok(closed),
                Some(path) => if path.len() == 0 {
                    Ok(closed)
                } else {
                    match read_text(world, path, "Failed to read extra paths"@) {
                        Err(e) => Err(e),
                        Ok(text) => fold_extra(world, cfg, closed, text_lines(text), 0),
                    }
                },
            },
        },
    }
}

/// The link to the manifest, where the configuration names one.
pub open spec fn manifest_deeds(cfg: Settings) -> Seq<Deed> {
    if cfg.manifest.len() == 0 {
        Seq::empty()
    } else {
        seq![Deed::Symlink { target: cfg.manifest, link: child_path(cfg.out, "manifest"@) }]
    }
}

/// The JSON text that lists the packages: the text of the file that the configuration names,
/// or else the text that it holds; without either, there are no packages.
pub open spec fn packages_text(world: &World, cfg: Settings) -> Result<Seq<char>, Failure> {
    match cfg.pkgs_path {
        Some(path) => read_text(world, path, "Failed to read packages from file"@),
        None => match cfg.pkgs {
            Some(text) => Ok(text),
            None => Err(Failure::MissingPackages),
        },
    }
}

/// What a run hands out: what has to be done to the file system, in order, and how many
/// links that creates, the link to the manifest not counted.
#[derive(Debug)]
pub struct Outcome {
    pub actions: Vec<Action>,
    pub nr_links: usize,
}

impl BuildEnv {
    fn fold_round(&mut self, world: &World, roots: &Vec<String>, counter: i32) -> (r: Result<
        i32,
        Error,
    >)
        ensures
            match fold_roots(world, old(self).config@, old(self)@, views(roots@), 0, counter) {
                Ok((env, c)) => r == Ok::<i32, Error>(c) && final(self)@ == env,
                Err(e) => (r matches Err(x) && x@ == e) && final(self)@ == left_by_roots(
                    world,
                    old(self).config@,
                    old(self)@,
                    views(roots@),
                    0,
                    counter,
                ),
            },
            final(self).config == old(self).config,
    {
        let ghost left = left_by_roots(world, old(self).config@, old(self)@, views(roots@), 0, counter);
        let ghost goal = fold_roots(world, old(self).config@, old(self)@, views(roots@), 0, counter);
        let mut priority = counter;
        let mut i: usize = 0;
        while i < roots.len()
            invariant
                i <= roots.len(),
                self.config == old(self).config,
                goal == fold_roots(world, old(self).config@, old(self)@, views(roots@), 0, counter),
                goal == fold_roots(world, self.config@, self@, views(roots@), i as nat, priority),
                left == left_by_roots(world, old(self).config@, old(self)@, views(roots@), 0, counter),
                left == left_by_roots(world, self.config@, self@, views(roots@), i as nat, priority),
            decreases roots.len() - i,
        {
            assert(views(roots@)[i as int] == roots@[i as int]@);
            match self.add_pkg(world, roots[i].as_str(), priority) {
                Err(e) => {
                    return Err(e);
                },
                Ok(()) => {},
            }
            if priority < i32::MAX {
                priority += 1;
            }
            i += 1;
        }
        Ok(priority)
    }

    fn fold_all_paths(&mut self, world: &World, paths: &Vec<String>, priority: i32) -> (r: Result<
        (),
        Error,
    >)
        ensures
            match fold_paths(world, old(self).config@, old(self)@, views(paths@), 0, priority) {
                Ok(env) => r is Ok && final(self)@ == env,
                Err(e) => (r matches Err(x) && x@ == e) && final(self)@ == left_by_paths(world, old(self).config@, old(self)@, views(paths@), 0, priority),
            },
            final(self).config == old(self).config,
    {
        let ghost left = left_by_paths(world, old(self).config@, old(self)@, views(paths@), 0, priority);
        let ghost goal = fold_paths(world, old(self).config@, old(self)@, views(paths@), 0, priority);
        let mut i: usize = 0;
        while i < paths.len()
            invariant
                i <= paths.len(),
                self.config == old(self).config,
                goal == fold_paths(world, old(self).config@, old(self)@, views(paths@), 0, priority),
                goal == fold_paths(world, self.config@, self@, views(paths@), i as nat, priority),
                left == left_by_paths(world, old(self).config@, old(self)@, views(paths@), 0, priority),
                left == left_by_paths(world, self.config@, self@, views(paths@), i as nat, priority),
            decreases paths.len() - i,
        {
            assert(views(paths@)[i as int] == paths@[i as int]@);
            if world.get(paths[i].as_str()).resolves() {
                match self.add_pkg(world, paths[i].as_str(), priority) {
                    Err(e) => {
                        return Err(e);
                    },
                    Ok(()) => {},
                }
            }
            i += 1;
        }
        Ok(())
    }

    fn fold_all_packages(&mut self, world: &World, packages: &Vec<Package>) -> (r: Result<
        (),
        Error,
    >)
        ensures
            match fold_packages(world, old(self).config@, old(self)@, package_views(packages@), 0) {
                Ok(env) => r is Ok && final(self)@ == env,
                Err(e) => (r matches Err(x) && x@ == e) && final(self)@ == left_by_packages(
                    world,
                    old(self).config@,
                    old(self)@,
                    package_views(packages@),
                    0,
                ),
            },
            final(self).config == old(self).config,
    {
        let ghost left = left_by_packages(
            world,
            old(self).config@,
            old(self)@,
            package_views(packages@),
            0,
        );
        let ghost goal = fold_packages(
            world,
            old(self).config@,
            old(self)@,
            package_views(packages@),
            0,
        );
        let mut i: usize = 0;
        while i < packages.len()
            invariant
                i <= packages.len(),
                self.config == old(self).config,
                goal == fold_packages(
                    world,
                    old(self).config@,
                    old(self)@,
                    package_views(packages@),
                    0,
                ),
                goal == fold_packages(world, self.config@, self@, package_views(packages@), i as nat),
                left == left_by_packages(
                    world,
                    old(self).config@,
                    old(self)@,
                    package_views(packages@),
                    0,
                ),
                left == left_by_packages(
                    world,
                    self.config@,
                    self@,
                    package_views(packages@),
                    i as nat,
                ),
            decreases packages.len() - i,
        {
            assert(package_views(packages@)[i as int] == packages@[i as int]@);
            match self.fold_all_paths(world, &packages[i].paths, packages[i].priority) {
                Err(e) => {
                    return Err(e);
                },
                Ok(()) => {},
            }
            i += 1;
        }
        Ok(())
    }

    fn fold_extra_lines(&mut self, world: &World, lines: &Vec<String>) -> (r: Result<(), Error>)
        ensures
            match fold_extra(world, old(self).config@, old(self)@, views(lines@), 0) {
                Ok(env) => r is Ok && final(self)@ == env,
                Err(e) => (r matches Err(x) && x@ == e) && final(self)@ == left_by_extra(world, old(self).config@, old(self)@, views(lines@), 0),
            },
            final(self).config == old(self).config,
    {
        let ghost left = left_by_extra(world, old(self).config@, old(self)@, views(lines@), 0);
        let ghost goal = fold_extra(world, old(self).config@, old(self)@, views(lines@), 0);
        let mut i: usize = 0;
        while i < lines.len()
            invariant
                i <= lines.len(),
                self.config == old(self).config,
                goal == fold_extra(world, old(self).config@, old(self)@, views(lines@), 0),
                goal == fold_extra(world, self.config@, self@, views(lines@), i as nat),
                left == left_by_extra(world, old(self).config@, old(self)@, views(lines@), 0),
                left == left_by_extra(world, self.config@, self@, views(lines@), i as nat),
            decreases lines.len() - i,
        {
            assert(views(lines@)[i as int] == lines@[i as int]@);
            let path = trim_text(lines[i].as_str());
            if world.get(path.as_str()).is_dir() {
                match self.add_pkg(world, path.as_str(), PROPAGATED_PRIORITY) {
                    Err(e) => {
                        return Err(e);
                    },
                    Ok(()) => {},
                }
            }
            i += 1;
        }
        Ok(())
    }

    /// Folds in the packages that wait, and those that they ask for, until none waits.
    /// Collisions are ignored meanwhile, whatever the configuration says.
    pub fn propagate_all(&mut self, world: &World) -> (r: Result<(), Error>)
        ensures
            world.recorded().dom().finite(),
            final(self).config@ == old(self).config@,
            old(self)@.done.subset_of(final(self)@.done),
            match propagate(world, old(self).config@, old(self)@, PROPAGATED_PRIORITY) {
                Ok(env) => r is Ok && final(self)@ == env,
                Err(e) => (r matches Err(x) && x@ == e) && final(self)@ == left_by_propagate(
                    world,
                    old(self).config@,
                    old(self)@,
                    PROPAGATED_PRIORITY,
                ),
            },
    {
        let _ = world.len();
        proof {
            crate::failure::law_left_by_propagate_keeps(
                world,
                self.config@,
                self@,
                PROPAGATED_PRIORITY,
            );
            crate::laws::law_propagate_leaves_none(
                world,
                self.config@,
                self@,
                PROPAGATED_PRIORITY,
            );
        }
        let ghost cfg = self.config@;
        let ghost goal = propagate(world, cfg, self@, PROPAGATED_PRIORITY);
        let ghost left = left_by_propagate(world, cfg, self@, PROPAGATED_PRIORITY);
        let wanted = self.config.ignore_collisions;
        let mut counter: i32 = PROPAGATED_PRIORITY;
        while self.postponed.len() > 0
            invariant
                world.recorded().dom().finite(),
                self.config@ == cfg,
                cfg == old(self).config@,
                wanted == cfg.ignore_collisions,
                goal == propagate(world, cfg, old(self)@, PROPAGATED_PRIORITY),
                goal == propagate(world, cfg, self@, counter),
                left == left_by_propagate(world, cfg, old(self)@, PROPAGATED_PRIORITY),
                left == left_by_propagate(world, cfg, self@, counter),
                old(self)@.done.subset_of(left.done),
                goal matches Ok(env) ==> old(self)@.done.subset_of(env.done),
            decreases
                    unread(world, self@.done),
                    (if self.postponed.len() > 0 {
                        1nat
                    } else {
                        0nat
                    }),
        {
            let mut roots: Vec<String> = Vec::new();
            std::mem::swap(&mut roots, &mut self.postponed);
            self.config.ignore_collisions = true;
            let ghost start = self@;
            assert(start.postponed =~= Seq::<Seq<char>>::empty());
            assert(self.config@ == ignoring(cfg));
            proof {
                lemma_fold_roots_progress(world, ignoring(cfg), start, views(roots@), 0, counter);
            }
            match self.fold_round(world, &roots, counter) {
                Err(e) => {
                    self.config.ignore_collisions = wanted;
                    return Err(e);
                },
                Ok(c) => {
                    counter = c;
                },
            }
            self.config.ignore_collisions = wanted;
        }
        Ok(())
    }

    /// Plans the environment from the packages and lists what has to be done to the file
    /// system to realize it.
    pub fn run_packages(&mut self, world: &World, packages: &Vec<Package>) -> (r: Result<
        Outcome,
        Error,
    >)
        ensures
            world.recorded().dom().finite(),
            old(self)@.done.subset_of(final(self)@.done),
            match planned(world, old(self).config@, old(self)@, package_views(packages@)) {
                Ok(env) => r matches Ok(out) && final(self)@ == env && final(self).config@ == old(self).config@ && deeds(out.actions@) == realized(
                    final(self).config@,
                    env.plan,
                    final(self).symlinks.keys(),
                    final(self).symlinks.keys().len(),
                ) + manifest_deeds(final(self).config@) && out.nr_links == wanted_links(
                    final(self).config@,
                    env.plan,
                ).len(),
                Err(e) => (r matches Err(x) && x@ == e) && final(self)@ == left_by_planned(
                    world,
                    old(self).config@,
                    old(self)@,
                    package_views(packages@),
                ) && final(self).config@ == old(self).config@,
            },
    {
        let _ = world.len();
        proof {
            crate::failure::law_done_only_grows(
                world,
                self.config@,
                self@,
                package_views(packages@),
            );
        }
        match self.fold_all_packages(world, packages) {
            Err(e) => {
                return Err(e);
            },
            Ok(()) => {},
        }
        match self.propagate_all(world) {
            Err(e) => {
                return Err(e);
            },
            Ok(()) => {},
        }
        let lines = match &self.config.extra_paths_from {
            None => Vec::new(),
            Some(path) => {
                if path.as_str().unicode_len() == 0 {
                    Vec::new()
                } else {
                    match read_file_text(world, path.as_str(), "Failed to read extra paths") {
                        Err(e) => {
                            return Err(e);
                        },
                        Ok(text) => split_lines(text.as_str()),
                    }
                }
            },
        };
        match self.fold_extra_lines(world, &lines) {
            Err(e) => {
                return Err(e);
            },
            Ok(()) => {},
        }
        let (mut actions, nr_links) = self.create_symlinks();
        let ghost listed = deeds(actions@);
        if self.config.manifest.as_str().unicode_len() > 0 {
            let link = join_child(self.config.out.as_str(), "manifest");
            actions.push(Action::Symlink { target: self.config.manifest.clone(), link });
            assert(deeds(actions@) =~= listed + manifest_deeds(self.config@));
        } else {
            assert(deeds(actions@) =~= listed + manifest_deeds(self.config@));
        }
        Ok(Outcome { actions, nr_links })
    }

    /// Reads the JSON text that lists the packages.
    pub fn read_packages_text(&self, world: &World) -> (r: Result<String, Error>)
        ensures
            match packages_text(world, self.config@) {
                Ok(t) => r matches Ok(s) && s@ == t,
                Err(e) => r matches Err(x) && x@ == e,
            },
    {
        match &self.config.pkgs_path {
            Some(path) => read_file_text(world, path.as_str(), "Failed to read packages from file"),
            None => match &self.config.pkgs {
                Some(text) => Ok(text.clone()),
                None => Err(Error::MissingPackages),
            },
        }
    }

    /// Runs the planner: reads the list of packages, plans the environment and lists what
    /// has to be done to the file system to realize it.
    ///
    /// The run fails where the list of packages cannot be had, where its text does not parse
    /// as JSON, where the packages cannot be read from what it parses to, and where planning
    /// these packages fails. Else it hands out what [`BuildEnv::run_packages`] hands out for
    /// them.
    pub fn run(&mut self, world: &World) -> (r: Result<Outcome, Error>)
        ensures
            final(self).config@ == old(self).config@,
            old(self)@.done.subset_of(final(self)@.done),
            match packages_text(world, old(self).config@) {
                Err(e) => (r matches Err(x) && x@ == e) && final(self)@ == old(self)@,
                Ok(text) => match json_value(text) {
                    None => (r matches Err(x) && is_parse_failure(x@)) && final(self)@ == old(self)@,
                    Some(tree) => match packages_of(tree) {
                        Err(e) => (r matches Err(x) && x@ == e) && final(self)@ == old(self)@,
                        Ok(packages) => match planned(
                            world,
                            old(self).config@,
                            old(self)@,
                            packages,
                        ) {
                            Err(e) => (r matches Err(x) && x@ == e) && final(self)@
                                == left_by_planned(
                                world,
                                old(self).config@,
                                old(self)@,
                                packages,
                            ),
                            Ok(env) => r matches Ok(out) && final(self)@ == env && final(self).config@ == old(self).config@ && deeds(out.actions@) == realized(
                                old(self).config@,
                                env.plan,
                                final(self).symlinks.keys(),
                                final(self).symlinks.keys().len(),
                            ) + manifest_deeds(old(self).config@) && out.nr_links == wanted_links(
                                old(self).config@,
                                env.plan,
                            ).len(),
                        },
                    },
                },
            },
    {
        let text = match self.read_packages_text(world) {
            Err(e) => {
                return Err(e);
            },
            Ok(text) => text,
        };
        let json = match parse_json(text.as_str()) {
            Err(e) => {
                return Err(e);
            },
            Ok(json) => json,
        };
        let packages = match parse_packages(&json) {
            Err(e) => {
                return Err(e);
            },
            Ok(packages) => packages,
        };
        self.run_packages(world, &packages)
    }
}

/// A run from the variables of the environment: the outcome, and the planner with its plan
/// and its warnings.
///
/// The run fails where a required variable is not set, and where a run of the planner that
/// is made from the variables fails; see [`BuildEnv::run`]. Else it hands out what that run
/// hands out.
pub fn run(vars: Vars, world: &World) -> (r: Result<(Outcome, BuildEnv), Error>)
    ensures
        match read_vars(vars) {
            Err(e) => r matches Err(x) && x@ == e,
            Ok(cfg) => match packages_text(world, cfg) {
                Err(e) => r matches Err(x) && x@ == e,
                Ok(text) => match json_value(text) {
                    None => r matches Err(x) && is_parse_failure(x@),
                    Some(tree) => match packages_of(tree) {
                        Err(e) => r matches Err(x) && x@ == e,
                        Ok(packages) => match planned(world, cfg, initial(cfg), packages) {
                            Err(e) => r matches Err(x) && x@ == e,
                            Ok(env) => r matches Ok(done) && done.1@ == env && done.1.config@
                                == cfg && deeds(done.0.actions@) == realized(
                                cfg,
                                env.plan,
                                done.1.symlinks.keys(),
                                done.1.symlinks.keys().len(),
                            ) + manifest_deeds(cfg) && done.0.nr_links == wanted_links(
                                cfg,
                                env.plan,
                            ).len(),
                        },
                    },
                },
            },
        },
{
    let config = match Config::from_env(vars) {
        Err(e) => {
            return Err(e);
        },
        Ok(config) => config,
    };
    let mut build_env = BuildEnv::new(config);
    match build_env.run(world) {
        Err(e) => Err(e),
        Ok(out) => Ok((out, build_env)),
    }
}

} // verus!
