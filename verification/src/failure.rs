//! What a failure leaves behind: the laws of the state after a run that failed.
//!
//! A failure never takes anything away. The plan holds what it held, and more only at and
//! below the path where a tree was being folded in; the roots that were folded in stay so.

use vstd::prelude::*;
use crate::closure::{add_package, left_by_package, read_text};
use crate::config::Settings;
use crate::json::PackageSpec;
use crate::laws::{grown, law_fold_node_grows};
use crate::merge::{
    depth_left, fold_node, is_dot_name, is_merged, left_by_dir, left_by_node, listing_len, Env,
};
use crate::paths::child_path;
use crate::run::{
    fold_extra, fold_packages, fold_paths, fold_roots, ignoring, left_by_extra,
    left_by_packages, left_by_paths, left_by_planned, left_by_propagate, left_by_roots,
    lemma_add_package_marks, lemma_fold_roots_progress, next_priority, propagate, unread,
    PROPAGATED_PRIORITY,
};
use crate::text::{text_lines, trimmed};
use crate::world::World;

verus! {

/// A failure at the candidate itself leaves the plan, the roots that were folded in and the
/// roots that wait as they were.
pub proof fn law_failure_at_candidate(
    world: &World,
    cfg: Settings,
    env: Env,
    rel: Seq<char>,
    target: Seq<char>,
    base: Seq<char>,
    priority: i32,
)
    requires
        fold_node(world, cfg, env, rel, target, base, priority) is Err,
        !is_merged(world, cfg, env, rel, target, base),
    ensures
        left_by_node(world, cfg, env, rel, target, base, priority).plan == env.plan,
        left_by_node(world, cfg, env, rel, target, base, priority).done == env.done,
        left_by_node(world, cfg, env, rel, target, base, priority).postponed == env.postponed,
{
}

/// Whatever folding a candidate in at `rel` leaves behind, it changed the plan at `rel` and
/// below only, took no entry away, and left the roots that were folded in and the roots that
/// wait as they were.
pub proof fn law_left_by_node_grows(
    world: &World,
    cfg: Settings,
    env: Env,
    rel: Seq<char>,
    target: Seq<char>,
    base: Seq<char>,
    priority: i32,
)
    ensures
        grown(env, left_by_node(world, cfg, env, rel, target, base, priority), rel, priority),
        left_by_node(world, cfg, env, rel, target, base, priority).done == env.done,
        left_by_node(world, cfg, env, rel, target, base, priority).postponed == env.postponed,
    decreases depth_left(world, target), 2nat, 0nat,
{
    let left = left_by_node(world, cfg, env, rel, target, base, priority);
    law_fold_node_grows(world, cfg, env, rel, target, base, priority);
    if fold_node(world, cfg, env, rel, target, base, priority) is Err {
        if is_merged(world, cfg, env, rel, target, base) {
            law_left_by_dir_grows(world, cfg, env, rel, target, 0, priority);
        } else {
            assert forall|k: Seq<char>| #[trigger] left.entry(k) == env.entry(k) by {}
        }
    }
}

/// Whatever folding the entries of a directory in at `rel` leaves behind, it changed the plan
/// below `rel` only, took no entry away, and left the roots that were folded in and the
/// roots that wait as they were.
pub proof fn law_left_by_dir_grows(
    world: &World,
    cfg: Settings,
    env: Env,
    rel: Seq<char>,
    dir: Seq<char>,
    i: nat,
    priority: i32,
)
    ensures
        grown(env, left_by_dir(world, cfg, env, rel, dir, i, priority), rel, priority),
        left_by_dir(world, cfg, env, rel, dir, i, priority).done == env.done,
        left_by_dir(world, cfg, env, rel, dir, i, priority).postponed == env.postponed,
    decreases depth_left(world, dir), 0nat, listing_len(world, dir) - i,
{
    let left = left_by_dir(world, cfg, env, rel, dir, i, priority);
    match world.facts(dir).entries {
        Err(e) => {},
        Ok(names) => {
            if i < names.len() {
                if is_dot_name(names[i as int]) {
                    law_left_by_dir_grows(world, cfg, env, rel, dir, i + 1, priority);
                } else {
                    let name = names[i as int];
                    let child = child_path(rel, name);
                    let target = child_path(dir, name);
                    assert forall|k: Seq<char>| child.is_prefix_of(k) implies rel.is_prefix_of(
                        k,
                    ) by {
                        assert(rel =~= child.subrange(0, rel.len() as int));
                        assert(rel =~= k.subrange(0, rel.len() as int));
                    }
                    law_left_by_node_grows(world, cfg, env, child, target, name, priority);
                    match fold_node(world, cfg, env, child, target, name, priority) {
                        Err(e) => {
                            let at = left_by_node(world, cfg, env, child, target, name, priority);
                            assert forall|k: Seq<char>|
                                #![trigger at.entry(k)]
                                #![trigger env.entry(k)]
                                at.entry(k) == env.entry(k) || rel.is_prefix_of(k) by {}
                        },
                        Ok(next) => {
                            law_left_by_dir_grows(world, cfg, next, rel, dir, i + 1, priority);
                            crate::laws::law_grown_twice(env, next, left, rel, child, priority);
                        },
                    }
                }
            }
        },
    }
}

/// Whatever folding a package in leaves behind, the package is marked as folded in, and
/// every root that was folded in before still is.
pub proof fn law_left_by_package_marks(
    world: &World,
    cfg: Settings,
    env: Env,
    root: Seq<char>,
    priority: i32,
)
    ensures
        left_by_package(world, cfg, env, root, priority).done == env.done.insert(root),
        add_package(world, cfg, env, root, priority) is Err ==> left_by_package(
            world,
            cfg,
            env,
            root,
            priority,
        ).postponed == env.postponed,
        grown(env, left_by_package(world, cfg, env, root, priority), Seq::empty(), priority),
{
    let marked = Env { done: env.done.insert(root), ..env };
    let left = left_by_package(world, cfg, env, root, priority);
    lemma_add_package_marks(world, cfg, env, root, priority);
    crate::laws::law_add_package_grows(world, cfg, env, root, priority);
    law_left_by_node_grows(world, cfg, marked, Seq::empty(), root, Seq::empty(), priority);
    if add_package(world, cfg, env, root, priority) is Err {
        let at = left_by_node(world, cfg, marked, Seq::empty(), root, Seq::empty(), priority);
        assert forall|k: Seq<char>| marked.entry(k) == env.entry(k) by {}
        assert forall|k: Seq<char>|
            #![trigger at.entry(k)]
            #![trigger env.entry(k)]
            at.entry(k) == env.entry(k) || at.entry(k) != marked.entry(k) by {}
    }
}

/// Whatever a round leaves behind, every root that was folded in before still is.
pub proof fn law_left_by_roots_keeps(
    world: &World,
    cfg: Settings,
    env: Env,
    roots: Seq<Seq<char>>,
    i: nat,
    counter: i32,
)
    ensures
        env.done.subset_of(left_by_roots(world, cfg, env, roots, i, counter).done),
    decreases roots.len() - i,
{
    if i < roots.len() {
        law_left_by_package_marks(world, cfg, env, roots[i as int], counter);
        lemma_add_package_marks(world, cfg, env, roots[i as int], counter);
        match add_package(world, cfg, env, roots[i as int], counter) {
            Err(e) => {},
            Ok(next) => {
                law_left_by_roots_keeps(world, cfg, next, roots, i + 1, next_priority(counter));
            },
        }
    }
}

/// Whatever folding paths in leaves behind, every root that was folded in before still is.
pub proof fn law_left_by_paths_keeps(
    world: &World,
    cfg: Settings,
    env: Env,
    paths: Seq<Seq<char>>,
    i: nat,
    priority: i32,
)
    ensures
        env.done.subset_of(left_by_paths(world, cfg, env, paths, i, priority).done),
        fold_paths(world, cfg, env, paths, i, priority) matches Ok(after) ==> env.done.subset_of(
            after.done,
        ),
    decreases paths.len() - i,
{
    if i < paths.len() {
        if !world.facts(paths[i as int]).resolves() {
            law_left_by_paths_keeps(world, cfg, env, paths, i + 1, priority);
        } else {
            law_left_by_package_marks(world, cfg, env, paths[i as int], priority);
            lemma_add_package_marks(world, cfg, env, paths[i as int], priority);
            match add_package(world, cfg, env, paths[i as int], priority) {
                Err(e) => {},
                Ok(next) => {
                    law_left_by_paths_keeps(world, cfg, next, paths, i + 1, priority);
                },
            }
        }
    }
}

/// Whatever folding packages in leaves behind, every root that was folded in before still is.
pub proof fn law_left_by_packages_keeps(
    world: &World,
    cfg: Settings,
    env: Env,
    packages: Seq<PackageSpec>,
    i: nat,
)
    ensures
        env.done.subset_of(left_by_packages(world, cfg, env, packages, i).done),
        fold_packages(world, cfg, env, packages, i) matches Ok(after) ==> env.done.subset_of(
            after.done,
        ),
    decreases packages.len() - i,
{
    if i < packages.len() {
        let p = packages[i as int];
        law_left_by_paths_keeps(world, cfg, env, p.paths, 0, p.priority);
        match fold_paths(world, cfg, env, p.paths, 0, p.priority) {
            Err(e) => {},
            Ok(next) => {
                law_left_by_packages_keeps(world, cfg, next, packages, i + 1);
            },
        }
    }
}

/// Whatever folding the extra roots in leaves behind, every root that was folded in before
/// still is.
pub proof fn law_left_by_extra_keeps(
    world: &World,
    cfg: Settings,
    env: Env,
    lines: Seq<Seq<char>>,
    i: nat,
)
    ensures
        env.done.subset_of(left_by_extra(world, cfg, env, lines, i).done),
        fold_extra(world, cfg, env, lines, i) matches Ok(after) ==> env.done.subset_of(after.done),
    decreases lines.len() - i,
{
    if i < lines.len() {
        let root = trimmed(lines[i as int]);
        if !world.facts(root).is_dir() {
            law_left_by_extra_keeps(world, cfg, env, lines, i + 1);
        } else {
            law_left_by_package_marks(world, cfg, env, root, PROPAGATED_PRIORITY);
            lemma_add_package_marks(world, cfg, env, root, PROPAGATED_PRIORITY);
            match add_package(world, cfg, env, root, PROPAGATED_PRIORITY) {
                Err(e) => {},
                Ok(next) => {
                    law_left_by_extra_keeps(world, cfg, next, lines, i + 1);
                },
            }
        }
    }
}

/// Whatever folding the propagated packages in leaves behind, every root that was folded in
/// before still is.
pub proof fn law_left_by_propagate_keeps(world: &World, cfg: Settings, env: Env, counter: i32)
    requires
        world.recorded().dom().finite(),
    ensures
        env.done.subset_of(left_by_propagate(world, cfg, env, counter).done),
    decreases unread(world, env.done),
{
    if env.postponed.len() != 0 {
        let start = Env { postponed: Seq::empty(), ..env };
        law_left_by_roots_keeps(world, ignoring(cfg), start, env.postponed, 0, counter);
        crate::laws::law_round_marks_all(world, ignoring(cfg), start, env.postponed, 0, counter);
        match fold_roots(world, ignoring(cfg), start, env.postponed, 0, counter) {
            Err(e) => {},
            Ok((next, c)) => {
                if next.postponed.len() != 0 {
                    lemma_fold_roots_progress(world, ignoring(cfg), start, env.postponed, 0, counter);
                    law_left_by_propagate_keeps(world, cfg, next, c);
                }
            },
        }
    }
}

/// The roots that were folded in only ever become more: whatever a run of planning leaves
/// behind, whether it fails or not, every root that was folded in before it still is.
pub proof fn law_done_only_grows(
    world: &World,
    cfg: Settings,
    env: Env,
    packages: Seq<PackageSpec>,
)
    requires
        world.recorded().dom().finite(),
    ensures
        env.done.subset_of(left_by_planned(world, cfg, env, packages).done),
        crate::run::planned(world, cfg, env, packages) matches Ok(after) ==> env.done.subset_of(
            after.done,
        ),
{
    law_left_by_packages_keeps(world, cfg, env, packages, 0);
    match fold_packages(world, cfg, env, packages, 0) {
        Err(e) => {},
        Ok(asked) => {
            law_left_by_propagate_keeps(world, cfg, asked, PROPAGATED_PRIORITY);
            crate::laws::law_propagate_leaves_none(world, cfg, asked, PROPAGATED_PRIORITY);
            match propagate(world, cfg, asked, PROPAGATED_PRIORITY) {
                Err(e) => {},
                Ok(closed) => {
                    match cfg.extra_paths_from {
                        None => {},
                        Some(path) => {
                            if path.len() != 0 {
                                match read_text(world, path, "Failed to read extra paths"@) {
                                    Err(e) => {},
                                    Ok(text) => {
                                        law_left_by_extra_keeps(
                                            world,
                                            cfg,
                                            closed,
                                            text_lines(text),
                                            0,
                                        );
                                    },
                                }
                            }
                        },
                    }
                },
            }
        },
    }
}

} // verus!
