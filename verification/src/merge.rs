//! What folding a package tree into the plan means.
//!
//! These are the definitions that the contracts of the planner speak of: which paths are
//! never planned, when two objects are equivalent, and the plan that results when one
//! candidate, or a whole directory of candidates, is folded in.

use vstd::prelude::*;
use crate::config::Settings;
use crate::error::{Failure, Notice};
use crate::paths::{child_path, is_absolute, is_visited, parent_of, paths_agree};
use crate::plan::Entry;
use crate::world::{Facts, FileStatus, World};

verus! {

/// The state that planning works on.
pub struct Env {
    /// The plan so far.
    pub plan: Map<Seq<char>, Entry>,
    /// The package roots that were folded in.
    pub done: Set<Seq<char>>,
    /// The package roots that folded packages ask for and that wait to be folded in.
    pub postponed: Seq<Seq<char>>,
    /// The warnings so far, oldest first.
    pub warnings: Seq<Notice>,
}

impl Env {
    /// The state with `entry` at `rel`.
    pub open spec fn put(self, rel: Seq<char>, entry: Entry) -> Env {
        Env { plan: self.plan.insert(rel, entry), ..self }
    }

    /// The state with one more warning.
    pub open spec fn warn(self, notice: Notice) -> Env {
        Env { warnings: self.warnings.push(notice), ..self }
    }

    /// What the plan holds at `rel`.
    pub open spec fn entry(self, rel: Seq<char>) -> Option<Entry> {
        if self.plan.contains_key(rel) {
            Some(self.plan[rel])
        } else {
            None
        }
    }
}

/// The entry of a directory that no package has touched.
pub open spec fn untouched() -> Entry {
    Entry::Directory { priority: 0 }
}

/// The plan and the path so far, once the piece `part` of a path to link is closed: an empty
/// piece changes nothing, any other is one level more and a directory of the plan.
pub open spec fn close_piece(plan: Map<Seq<char>, Entry>, cur: Seq<char>, part: Seq<char>) -> (
    Map<Seq<char>, Entry>,
    Seq<char>,
) {
    if part.len() == 0 {
        (plan, cur)
    } else {
        (plan.insert(child_path(cur, part), untouched()), child_path(cur, part))
    }
}

/// The plan with a directory for each level of the path to link `s`, read from its `i`-th
/// character on; the piece that is being read starts at `start`, and `cur` is the path of
/// the levels before it. The pieces of a path are what stands between its slashes.
pub open spec fn seed_from(
    plan: Map<Seq<char>, Entry>,
    s: Seq<char>,
    i: nat,
    start: nat,
    cur: Seq<char>,
) -> Map<Seq<char>, Entry>
    decreases s.len() - i,
{
    if i >= s.len() {
        close_piece(plan, cur, s.subrange(start as int, s.len() as int)).0
    } else if s[i as int] == '/' {
        let closed = close_piece(plan, cur, s.subrange(start as int, i as int));
        seed_from(closed.0, s, i + 1, i + 1, closed.1)
    } else {
        seed_from(plan, s, i + 1, start, cur)
    }
}

/// The plan before any package is folded in: a directory for the root, and one for each
/// level of each of the first `n` paths to link.
pub open spec fn seeded(paths: Seq<Seq<char>>, n: nat) -> Map<Seq<char>, Entry>
    decreases n,
{
    if n == 0 {
        Map::<Seq<char>, Entry>::empty().insert(Seq::empty(), untouched())
    } else {
        seed_from(seeded(paths, (n - 1) as nat), paths[n - 1], 0, 0, Seq::empty())
    }
}

/// The state before any package is folded in.
pub open spec fn initial(cfg: Settings) -> Env {
    Env {
        plan: seeded(cfg.paths_to_link, cfg.paths_to_link.len()),
        done: Set::empty(),
        postponed: Seq::empty(),
        warnings: Seq::empty(),
    }
}

/// A store path is an absolute path whose parent is the store directory.
pub open spec fn is_store_path(store_dir: Seq<char>, p: Seq<char>) -> bool {
    is_absolute(p) && (parent_of(p) matches Some(parent) && paths_agree(parent, store_dir))
}

/// The paths that are never planned, whatever their priority.
pub open spec fn excluded(rel: Seq<char>, base: Seq<char>) -> bool {
    ||| rel == "/propagated-build-inputs"@
    ||| rel == "/nix-support"@
    ||| "/info/dir"@.is_suffix_of(rel)
    ||| ("/share/mime/"@.is_prefix_of(rel) && !"/share/mime/packages"@.is_prefix_of(rel))
    ||| base == "perllocal.pod"@
    ||| base == "log"@
}

/// A path as it is quoted in messages; a dangling symbolic link is called so.
pub open spec fn quoted(p: Seq<char>, dangling: bool) -> Seq<char> {
    if dangling {
        "dangling symlink `"@ + p + "'"@
    } else {
        "`"@ + p + "'"@
    }
}

/// The permission bits of a status.
pub open spec fn permissions(s: FileStatus) -> u32 {
    s.mode & 0o7777
}

/// Both paths resolve and their permission bits differ.
pub open spec fn permissions_differ(a: Facts, b: Facts) -> bool {
    a.resolves() && b.resolves() && permissions(a.status->Some_0) != permissions(
        b.status->Some_0,
    )
}

/// Whether the objects at `pa` and `pb` are equivalent. They are not where one of them does
/// not resolve or their permission bits differ. Two regular files are equivalent when they
/// hold the same bytes, and reading them may fail. Any other two objects are equivalent when
/// they are of the same kind: where two links point is not compared.
pub open spec fn equivalent(pa: Seq<char>, a: Facts, pb: Seq<char>, b: Facts) -> Result<
    bool,
    Failure,
> {
    if !a.resolves() || !b.resolves() {
        Ok(false)
    } else if permissions_differ(a, b) {
        Ok(false)
    } else if a.is_file() && b.is_file() {
        match a.content {
            Err(e) => Err(Failure::Io { path: pa, source: e, context: "Failed to read file"@ }),
            Ok(ca) => match b.content {
                Err(e) => Err(
                    Failure::Io { path: pb, source: e, context: "Failed to read file"@ },
                ),
                Ok(cb) => Ok(ca == cb),
            },
        }
    } else {
        Ok(a.status->Some_0.kind == b.status->Some_0.kind)
    }
}

/// The candidate and the object behind an existing link are one and the same: the candidate
/// is no directory and both have the same canonical path.
pub open spec fn same_object(candidate: Facts, existing: Facts) -> bool {
    !candidate.is_dir() && candidate.canonical is Some && candidate.canonical
        == existing.canonical
}

/// The state after the candidate was installed as a link. A candidate that is a dangling
/// symbolic link is installed all the same, with a warning if the link could be read.
pub open spec fn install(
    cfg: Settings,
    env: Env,
    rel: Seq<char>,
    target: Seq<char>,
    f: Facts,
    priority: i32,
) -> Env {
    let warned = if f.dangling() && f.link_text is Some {
        env.warn(
            Notice::DanglingSymlink {
                link: cfg.out + cfg.extra_prefix + rel,
                target,
                points_to: f.link_text->Some_0,
            },
        )
    } else {
        env
    };
    warned.put(rel, Entry::Leaf { target, priority })
}

/// How a collision between the candidate and what the plan holds ends: ignored with a
/// warning, accepted silently because both are equivalent, or the failure of the run.
/// `old` is the target of the existing link, or empty where the plan holds a directory.
pub open spec fn collide(
    cfg: Settings,
    env: Env,
    target: Seq<char>,
    f: Facts,
    old: Seq<char>,
    g: Facts,
) -> Result<Env, Failure> {
    let new_ref = quoted(target, f.dangling());
    let old_ref = quoted(old, g.dangling());
    if cfg.ignore_collisions {
        Ok(env.warn(Notice::Collision { new: new_ref, old: old_ref }))
    } else if cfg.check_collision_contents {
        match equivalent(old, g, target, f) {
            Err(e) => Err(e),
            Ok(true) => Ok(env),
            Ok(false) => Err(Failure::Collision { old: old_ref, new: new_ref }),
        }
    } else {
        Err(Failure::Collision { old: old_ref, new: new_ref })
    }
}

/// How deep a walk can still go below `p`: no recorded path is longer than the world's limit.
pub open spec fn depth_left(world: &World, p: Seq<char>) -> nat {
    if p.len() <= world.limit() {
        (world.limit() - p.len() + 1) as nat
    } else {
        0
    }
}

/// The names that a directory listing is never asked to yield.
pub open spec fn is_dot_name(name: Seq<char>) -> bool {
    name == "."@ || name == ".."@
}

/// The state after the candidate `target`, of name `base`, was folded in at the relative
/// path `rel` with `priority`, or the failure that ends the run.
///
/// A plain file that is a store path is no package: it fails the run, or is left out with a
/// warning. An excluded path, and one that is neither wanted nor leads to anything wanted,
/// is passed over. Otherwise the candidate meets what the plan holds at `rel`:
/// - nothing: a directory is merged, anything else is installed;
/// - a directory: a directory is merged, anything else collides;
/// - a link: a candidate that is no directory and has the lower priority number is
///   installed; one that is the same object replaces a symbolic link if it is none itself;
///   one with the higher priority number is dropped; any other collides.
/// A link never points to a directory, so an existing directory has been walked when it was
/// marked and only the candidate is walked now. A merged directory is marked with the
/// candidate's priority, whatever it was marked with before.
pub open spec fn fold_node(
    world: &World,
    cfg: Settings,
    env: Env,
    rel: Seq<char>,
    target: Seq<char>,
    base: Seq<char>,
    priority: i32,
) -> Result<Env, Failure>
    decreases depth_left(world, target), 2nat, 0nat,
{
    let f = world.facts(target);
    if f.is_file() && is_store_path(cfg.store_dir, target) {
        if cfg.ignore_single_file_outputs {
            Ok(env.warn(Notice::SingleFileOutput { path: target }))
        } else {
            Err(Failure::StorePath { path: target })
        }
    } else if excluded(rel, base) || !is_visited(cfg.paths_to_link, rel) {
        Ok(env)
    } else {
        match env.entry(rel) {
            None => if f.is_dir() {
                merge_dir(world, cfg, env, rel, target, priority)
            } else {
                Ok(install(cfg, env, rel, target, f, priority))
            },
            Some(Entry::Directory { .. }) => if f.is_dir() {
                merge_dir(world, cfg, env, rel, target, priority)
            } else {
                collide(cfg, env, target, f, Seq::empty(), Facts::absent())
            },
            Some(Entry::Leaf { target: old, priority: old_priority }) => {
                let g = world.facts(old);
                if priority < old_priority && !f.is_dir() {
                    Ok(install(cfg, env, rel, target, f, priority))
                } else if same_object(f, g) {
                    if g.symlink && !f.symlink {
                        Ok(env.put(rel, Entry::Leaf { target, priority }))
                    } else {
                        Ok(env)
                    }
                } else if priority > old_priority {
                    Ok(env)
                } else {
                    collide(cfg, env, target, f, old, g)
                }
            },
        }
    }
}

/// The state after the directory `target` was merged in at `rel`: its entries are folded in,
/// in the order listed, and `rel` is marked as a directory of `priority`.
pub open spec fn merge_dir(
    world: &World,
    cfg: Settings,
    env: Env,
    rel: Seq<char>,
    target: Seq<char>,
    priority: i32,
) -> Result<Env, Failure>
    decreases depth_left(world, target), 1nat, 0nat,
{
    match fold_dir(world, cfg, env, rel, target, 0, priority) {
        Err(e) => Err(e),
        Ok(after) => Ok(after.put(rel, Entry::Directory { priority })),
    }
}

/// The state after the entries of the directory `dir`, from the `i`-th on, were folded in
/// below `rel`, each with `priority`, or the failure that ends the run. A directory that
/// cannot be listed fails the run; one whose listing breaks off fails it after the entries
/// that were listed are folded in.
pub open spec fn fold_dir(
    world: &World,
    cfg: Settings,
    env: Env,
    rel: Seq<char>,
    dir: Seq<char>,
    i: nat,
    priority: i32,
) -> Result<Env, Failure>
    decreases depth_left(world, dir), 0nat, listing_len(world, dir) - i,
{
    match world.facts(dir).entries {
        Err(e) => Err(Failure::Io { path: dir, source: e, context: "Failed to read directory"@ }),
        Ok(names) => if i >= names.len() {
            match world.facts(dir).broken {
                Some(e) => Err(
                    Failure::Io { path: dir, source: e, context: "Failed to read directory entry"@ },
                ),
                None => Ok(env),
            }
        } else if is_dot_name(names[i as int]) {
            fold_dir(world, cfg, env, rel, dir, i + 1, priority)
        } else {
            let name = names[i as int];
            match fold_node(
                world,
                cfg,
                env,
                child_path(rel, name),
                child_path(dir, name),
                name,
                priority,
            ) {
                Err(e) => Err(e),
                Ok(next) => fold_dir(world, cfg, next, rel, dir, i + 1, priority),
            }
        },
    }
}

/// How many names the listing of `dir` holds.
pub open spec fn listing_len(world: &World, dir: Seq<char>) -> nat {
    match world.facts(dir).entries {
        Ok(names) => names.len(),
        Err(_) => 0,
    }
}

/// The state that a collision leaves behind when it fails the run: the state as it was,
/// with a warning where the two objects were compared and differ in their permission bits.
pub open spec fn left_by_collision(
    cfg: Settings,
    env: Env,
    target: Seq<char>,
    f: Facts,
    old: Seq<char>,
    g: Facts,
) -> Env {
    if !cfg.ignore_collisions && cfg.check_collision_contents && permissions_differ(g, f) {
        env.warn(
            Notice::DifferentPermissions {
                first: old,
                second: target,
                first_mode: permissions(g.status->Some_0),
                second_mode: permissions(f.status->Some_0),
            },
        )
    } else {
        env
    }
}

/// The candidate is a directory that is merged: it is looked at, and the plan holds no link
/// where it comes.
pub open spec fn is_merged(
    world: &World,
    cfg: Settings,
    env: Env,
    rel: Seq<char>,
    target: Seq<char>,
    base: Seq<char>,
) -> bool {
    &&& world.facts(target).is_dir()
    &&& !(world.facts(target).is_file() && is_store_path(cfg.store_dir, target))
    &&& !excluded(rel, base)
    &&& is_visited(cfg.paths_to_link, rel)
    &&& !(env.entry(rel) matches Some(Entry::Leaf { .. }))
}

/// The state that folding a candidate in leaves behind, whether it fails or not. A failure
/// at the candidate itself leaves the plan as it was; a failure below a directory that is
/// merged leaves what was folded in before it.
pub open spec fn left_by_node(
    world: &World,
    cfg: Settings,
    env: Env,
    rel: Seq<char>,
    target: Seq<char>,
    base: Seq<char>,
    priority: i32,
) -> Env
    decreases depth_left(world, target), 2nat, 0nat,
{
    match fold_node(world, cfg, env, rel, target, base, priority) {
        Ok(after) => after,
        Err(_) => if world.facts(target).is_file() && is_store_path(cfg.store_dir, target) {
            env
        } else if is_merged(world, cfg, env, rel, target, base) {
            left_by_dir(world, cfg, env, rel, target, 0, priority)
        } else {
            match env.entry(rel) {
                Some(Entry::Leaf { target: old, .. }) => left_by_collision(
                    cfg,
                    env,
                    target,
                    world.facts(target),
                    old,
                    world.facts(old),
                ),
                _ => env,
            }
        },
    }
}

/// The state that folding the entries of a directory in, from the `i`-th on, leaves behind,
/// whether it fails or not: a failure leaves what was folded in before it.
pub open spec fn left_by_dir(
    world: &World,
    cfg: Settings,
    env: Env,
    rel: Seq<char>,
    dir: Seq<char>,
    i: nat,
    priority: i32,
) -> Env
    decreases depth_left(world, dir), 0nat, listing_len(world, dir) - i,
{
    match world.facts(dir).entries {
        Err(_) => env,
        Ok(names) => if i >= names.len() {
            env
        } else if is_dot_name(names[i as int]) {
            left_by_dir(world, cfg, env, rel, dir, i + 1, priority)
        } else {
            let name = names[i as int];
            match fold_node(
                world,
                cfg,
                env,
                child_path(rel, name),
                child_path(dir, name),
                name,
                priority,
            ) {
                Err(_) => left_by_node(
                    world,
                    cfg,
                    env,
                    child_path(rel, name),
                    child_path(dir, name),
                    name,
                    priority,
                ),
                Ok(next) => left_by_dir(world, cfg, next, rel, dir, i + 1, priority),
            }
        },
    }
}

} // verus!
