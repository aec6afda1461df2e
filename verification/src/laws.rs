//! What holds of planning as a whole: the laws that the definitions obey.

use vstd::prelude::*;
use crate::closure::{add_package, postpone, propagated_file};
use crate::config::Settings;
use crate::error::{Failure, Notice};
use crate::merge::{
    depth_left, excluded, fold_dir, fold_node, is_dot_name, is_store_path, listing_len, merge_dir,
    permissions, quoted, same_object, Env,
};
use crate::paths::{child_path, is_visited};
use crate::plan::Entry;
use crate::run::{fold_roots, ignoring, next_priority, propagate};
use crate::world::World;

verus! {

/// The candidate `target` at `rel` is one that planning looks at: its path is visited and
/// not excluded, and it is no plain file among the store paths.
pub open spec fn considered(
    world: &World,
    cfg: Settings,
    rel: Seq<char>,
    base: Seq<char>,
    target: Seq<char>,
) -> bool {
    &&& !excluded(rel, base)
    &&& is_visited(cfg.paths_to_link, rel)
    &&& !(world.facts(target).is_file() && is_store_path(cfg.store_dir, target))
}

/// Of two candidates for one free path that are no directories and not one and the same
/// object, the one with the lower priority number is linked, whichever of them comes first.
pub proof fn law_lower_priority_wins(
    world: &World,
    cfg: Settings,
    env: Env,
    rel: Seq<char>,
    base: Seq<char>,
    winner: Seq<char>,
    a: i32,
    loser: Seq<char>,
    b: i32,
)
    requires
        a < b,
        env.entry(rel) is None,
        considered(world, cfg, rel, base, winner),
        considered(world, cfg, rel, base, loser),
        !world.facts(winner).is_dir(),
        !world.facts(loser).is_dir(),
        !same_object(world.facts(loser), world.facts(winner)),
    ensures
        fold_node(world, cfg, env, rel, winner, base, a) matches Ok(first) && (fold_node(
            world,
            cfg,
            first,
            rel,
            loser,
            base,
            b,
        ) matches Ok(both) && both.entry(rel) == Some(Entry::Leaf { target: winner, priority: a })),
        fold_node(world, cfg, env, rel, loser, base, b) matches Ok(first) && (fold_node(
            world,
            cfg,
            first,
            rel,
            winner,
            base,
            a,
        ) matches Ok(both) && both.entry(rel) == Some(Entry::Leaf { target: winner, priority: a })),
{
}

/// A regular file that meets a link to a regular file with the same bytes and the same
/// permission bits, and does not outrank it, is accepted where contents are checked: nothing
/// fails and the link stays as it was.
pub proof fn law_equal_files_keep_first(
    world: &World,
    cfg: Settings,
    env: Env,
    rel: Seq<char>,
    base: Seq<char>,
    old: Seq<char>,
    old_priority: i32,
    target: Seq<char>,
    priority: i32,
)
    requires
        cfg.check_collision_contents,
        env.entry(rel) == Some(Entry::Leaf { target: old, priority: old_priority }),
        old_priority <= priority,
        considered(world, cfg, rel, base, target),
        world.facts(old).is_file(),
        world.facts(target).is_file(),
        !world.facts(old).symlink,
        world.facts(old).content is Ok,
        world.facts(old).content == world.facts(target).content,
        permissions(world.facts(old).status->Some_0) == permissions(
            world.facts(target).status->Some_0,
        ),
    ensures
        fold_node(world, cfg, env, rel, target, base, priority) matches Ok(after) && after.plan
            == env.plan,
        !cfg.ignore_collisions ==> fold_node(world, cfg, env, rel, target, base, priority) == Ok::<
            Env,
            Failure,
        >(env),
{
}

/// A regular file that meets a link of the same priority to a regular file with other bytes
/// collides with it: the run fails and names both, unless collisions are ignored, in which
/// case the link stays as it was and a warning names both.
pub proof fn law_differing_files_collide(
    world: &World,
    cfg: Settings,
    env: Env,
    rel: Seq<char>,
    base: Seq<char>,
    old: Seq<char>,
    target: Seq<char>,
    priority: i32,
)
    requires
        env.entry(rel) == Some(Entry::Leaf { target: old, priority }),
        considered(world, cfg, rel, base, target),
        world.facts(old).is_file(),
        world.facts(target).is_file(),
        world.facts(old).content is Ok,
        world.facts(target).content is Ok,
        world.facts(old).content != world.facts(target).content,
        !same_object(world.facts(target), world.facts(old)),
    ensures
        cfg.ignore_collisions ==> fold_node(world, cfg, env, rel, target, base, priority) == Ok::<
            Env,
            Failure,
        >(
            env.warn(
                Notice::Collision { new: quoted(target, false), old: quoted(old, false) },
            ),
        ),
        !cfg.ignore_collisions ==> fold_node(world, cfg, env, rel, target, base, priority) == Err::<
            Env,
            Failure,
        >(Failure::Collision { old: quoted(old, false), new: quoted(target, false) }),
{
}

/// A package that is a plain file among the store paths fails the run; where such packages
/// are ignored, it is marked as folded in and warned of, once, and the plan and the roots
/// that wait stay as they were.
pub proof fn law_single_file_package(
    world: &World,
    cfg: Settings,
    env: Env,
    root: Seq<char>,
    priority: i32,
)
    requires
        world.consistent(),
        !env.done.contains(root),
        world.facts(root).is_file(),
        is_store_path(cfg.store_dir, root),
    ensures
        !cfg.ignore_single_file_outputs ==> add_package(world, cfg, env, root, priority) == Err::<
            Env,
            Failure,
        >(Failure::StorePath { path: root }),
        cfg.ignore_single_file_outputs ==> add_package(world, cfg, env, root, priority) == Ok::<
            Env,
            Failure,
        >(
            Env {
                done: env.done.insert(root),
                warnings: env.warnings.push(Notice::SingleFileOutput { path: root }),
                ..env
            },
        ),
        !cfg.ignore_single_file_outputs ==> crate::closure::left_by_package(
            world,
            cfg,
            env,
            root,
            priority,
        ) == (Env { done: env.done.insert(root), ..env }),
{
    assert(!world.facts(propagated_file(root)).resolves());
}

/// A package is folded in once: folding it in again changes nothing.
pub proof fn law_folded_once(
    world: &World,
    cfg: Settings,
    env: Env,
    root: Seq<char>,
    first: i32,
    second: i32,
)
    ensures
        add_package(world, cfg, env, root, first) matches Ok(after) ==> add_package(
            world,
            cfg,
            after,
            root,
            second,
        ) == Ok::<Env, Failure>(after),
{
    crate::run::lemma_add_package_marks(world, cfg, env, root, first);
}

/// Postponing keeps the list of the roots that wait free of repetitions and of roots that
/// were folded in.
pub proof fn law_postponed_once(postponed: Seq<Seq<char>>, done: Set<Seq<char>>, words: Seq<Seq<char>>)
    requires
        postponed.no_duplicates(),
        forall|i: int| 0 <= i < postponed.len() ==> !done.contains(#[trigger] postponed[i]),
    ensures
        postpone(postponed, done, words).no_duplicates(),
        forall|i: int|
            0 <= i < postpone(postponed, done, words).len() ==> !done.contains(
                #[trigger] postpone(postponed, done, words)[i],
            ),
    decreases words.len(),
{
    if words.len() > 0 {
        let w = words[0];
        let next = if done.contains(w) || postponed.contains(w) {
            postponed
        } else {
            postponed.push(w)
        };
        law_postponed_once(next, done, words.skip(1));
    }
}

/// There is a link.
pub open spec fn holds_link(o: Option<Entry>) -> bool {
    o matches Some(Entry::Leaf { .. })
}

/// There is a directory.
pub open spec fn holds_directory(o: Option<Entry>) -> bool {
    o matches Some(Entry::Directory { .. })
}

/// There is an entry, and it carries `priority`.
pub open spec fn carries(o: Option<Entry>, priority: i32) -> bool {
    o matches Some(e) && e.priority() == priority
}

/// What folding below `rel` with `priority` may do to a plan: an entry stays as it is, or it
/// lies at `rel` or below, carries `priority` afterwards, and is a link if it was one and a
/// directory if it was one. No entry is ever taken away.
pub open spec fn grown(before: Env, after: Env, rel: Seq<char>, priority: i32) -> bool {
    forall|k: Seq<char>|
        #![trigger after.entry(k)]
        #![trigger before.entry(k)]
        after.entry(k) == before.entry(k) || {
            &&& rel.is_prefix_of(k)
            &&& carries(after.entry(k), priority)
            &&& holds_link(before.entry(k)) ==> holds_link(after.entry(k))
            &&& holds_directory(before.entry(k)) ==> holds_directory(after.entry(k))
        }
}

/// Folding a candidate in at `rel` changes the plan at `rel` and below only, and every entry
/// that it adds or changes carries the candidate's priority.
pub proof fn law_fold_node_grows(
    world: &World,
    cfg: Settings,
    env: Env,
    rel: Seq<char>,
    target: Seq<char>,
    base: Seq<char>,
    priority: i32,
)
    ensures
        fold_node(world, cfg, env, rel, target, base, priority) matches Ok(after) ==> grown(
            env,
            after,
            rel,
            priority,
        ) && after.done == env.done && after.postponed == env.postponed,
    decreases depth_left(world, target), 2nat, 0nat,
{
    assert(rel.is_prefix_of(rel));
    if world.facts(target).is_dir() && !holds_link(env.entry(rel)) {
        lemma_merge_dir_grows(world, cfg, env, rel, target, priority);
    }
}

proof fn lemma_merge_dir_grows(
    world: &World,
    cfg: Settings,
    env: Env,
    rel: Seq<char>,
    target: Seq<char>,
    priority: i32,
)
    requires
        !holds_link(env.entry(rel)),
    ensures
        merge_dir(world, cfg, env, rel, target, priority) matches Ok(after) ==> grown(
            env,
            after,
            rel,
            priority,
        ) && after.done == env.done && after.postponed == env.postponed,
    decreases depth_left(world, target), 1nat, 0nat,
{
    law_fold_dir_grows(world, cfg, env, rel, target, 0, priority);
    assert(rel.is_prefix_of(rel));
    match fold_dir(world, cfg, env, rel, target, 0, priority) {
        Err(e) => {},
        Ok(inner) => {
            let after = inner.put(rel, Entry::Directory { priority });
            assert forall|k: Seq<char>|
                #![trigger after.entry(k)]
                #![trigger env.entry(k)]
                after.entry(k) == env.entry(k) || {
                    &&& rel.is_prefix_of(k)
                    &&& carries(after.entry(k), priority)
                    &&& holds_link(env.entry(k)) ==> holds_link(after.entry(k))
                    &&& holds_directory(env.entry(k)) ==> holds_directory(after.entry(k))
                } by {
                let x = inner.entry(k);
            }
        },
    }
}

/// Folding the entries of a directory in at `rel` changes the plan below `rel` only, and
/// every entry that it adds or changes carries the priority.
pub proof fn law_fold_dir_grows(
    world: &World,
    cfg: Settings,
    env: Env,
    rel: Seq<char>,
    dir: Seq<char>,
    i: nat,
    priority: i32,
)
    ensures
        fold_dir(world, cfg, env, rel, dir, i, priority) matches Ok(after) ==> grown(
            env,
            after,
            rel,
            priority,
        ) && after.entry(rel) == env.entry(rel) && after.done == env.done && after.postponed
            == env.postponed,
    decreases depth_left(world, dir), 0nat, listing_len(world, dir) - i,
{
    match world.facts(dir).entries {
        Err(e) => {},
        Ok(names) => {
            if i < names.len() {
                if is_dot_name(names[i as int]) {
                    law_fold_dir_grows(world, cfg, env, rel, dir, i + 1, priority);
                } else {
                    let name = names[i as int];
                    let child = child_path(rel, name);
                    law_fold_node_grows(
                        world,
                        cfg,
                        env,
                        child,
                        child_path(dir, name),
                        name,
                        priority,
                    );
                    match fold_node(world, cfg, env, child, child_path(dir, name), name, priority) {
                        Err(e) => {},
                        Ok(next) => {
                            law_fold_dir_grows(world, cfg, next, rel, dir, i + 1, priority);
                            match fold_dir(world, cfg, next, rel, dir, i + 1, priority) {
                                Err(e) => {},
                                Ok(after) => {
                                    assert(!child.is_prefix_of(rel));
                                    assert forall|k: Seq<char>| child.is_prefix_of(k) implies rel
                                        .is_prefix_of(k) by {
                                        assert(rel =~= child.subrange(0, rel.len() as int));
                                        assert(rel =~= k.subrange(0, rel.len() as int));
                                    }
                                    law_grown_twice(env, next, after, rel, child, priority);
                                },
                            }
                        },
                    }
                }
            }
        },
    }
}

/// What grew twice, at a path and then at or above it, grew.
pub proof fn law_grown_twice(
    before: Env,
    between: Env,
    after: Env,
    rel: Seq<char>,
    child: Seq<char>,
    priority: i32,
)
    requires
        grown(before, between, child, priority),
        grown(between, after, rel, priority),
        forall|k: Seq<char>| child.is_prefix_of(k) ==> rel.is_prefix_of(k),
    ensures
        grown(before, after, rel, priority),
{
    assert forall|k: Seq<char>|
        #![trigger after.entry(k)]
        #![trigger before.entry(k)]
        after.entry(k) == before.entry(k) || {
            &&& rel.is_prefix_of(k)
            &&& carries(after.entry(k), priority)
            &&& holds_link(before.entry(k)) ==> holds_link(after.entry(k))
            &&& holds_directory(before.entry(k)) ==> holds_directory(after.entry(k))
        } by {
        let x = between.entry(k);
    }
}

/// Every entry that was added or changed carries a priority of `low` or more.
pub open spec fn changed_from(before: Env, after: Env, low: i32) -> bool {
    forall|k: Seq<char>|
        #![trigger after.entry(k)]
        #![trigger before.entry(k)]
        after.entry(k) == before.entry(k) || (after.entry(k) matches Some(e) && e.priority() >= low)
}

/// Folding a package in changes the plan only to entries that carry its priority.
pub proof fn law_add_package_grows(
    world: &World,
    cfg: Settings,
    env: Env,
    root: Seq<char>,
    priority: i32,
)
    ensures
        add_package(world, cfg, env, root, priority) matches Ok(after) ==> grown(
            env,
            after,
            Seq::empty(),
            priority,
        ),
{
    if !env.done.contains(root) {
        let marked = Env { done: env.done.insert(root), ..env };
        law_fold_node_grows(world, cfg, marked, Seq::empty(), root, Seq::empty(), priority);
        match fold_node(world, cfg, marked, Seq::empty(), root, Seq::empty(), priority) {
            Err(e) => {},
            Ok(folded) => {
                assert forall|k: Seq<char>| folded.entry(k) == marked.entry(k) || #[trigger] carries(
                    folded.entry(k),
                    priority,
                ) by {}
            },
        }
    }
}

/// A round changes the plan only to entries that carry the priority it started with or a
/// later one, and the priority that comes after the round is no earlier one.
pub proof fn law_round_priorities(
    world: &World,
    cfg: Settings,
    env: Env,
    roots: Seq<Seq<char>>,
    i: nat,
    counter: i32,
)
    ensures
        fold_roots(world, cfg, env, roots, i, counter) matches Ok((after, c)) ==> changed_from(
            env,
            after,
            counter,
        ) && c >= counter,
    decreases roots.len() - i,
{
    if i < roots.len() {
        law_add_package_grows(world, cfg, env, roots[i as int], counter);
        match add_package(world, cfg, env, roots[i as int], counter) {
            Err(e) => {},
            Ok(next) => {
                law_round_priorities(world, cfg, next, roots, i + 1, next_priority(counter));
                match fold_roots(world, cfg, next, roots, i + 1, next_priority(counter)) {
                    Err(e) => {},
                    Ok((after, c)) => {
                        assert forall|k: Seq<char>|
                            #![trigger after.entry(k)]
                            #![trigger env.entry(k)]
                            after.entry(k) == env.entry(k) || (after.entry(k) matches Some(e)
                                && e.priority() >= counter) by {
                            let x = next.entry(k);
                        }
                    },
                }
            },
        }
    }
}

/// Whatever the propagated packages add to the plan or change in it carries a priority of
/// `counter` or more: of 1000 or more, where the rounds start at 1000.
pub proof fn law_propagated_priorities(world: &World, cfg: Settings, env: Env, counter: i32)
    requires
        world.recorded().dom().finite(),
    ensures
        propagate(world, cfg, env, counter) matches Ok(after) ==> changed_from(
            env,
            after,
            counter,
        ),
    decreases crate::run::unread(world, env.done),
{
    if env.postponed.len() != 0 {
        let start = Env { postponed: Seq::empty(), ..env };
        law_round_priorities(world, ignoring(cfg), start, env.postponed, 0, counter);
        match fold_roots(world, ignoring(cfg), start, env.postponed, 0, counter) {
            Err(e) => {},
            Ok((next, c)) => {
                assert forall|k: Seq<char>| start.entry(k) == env.entry(k) by {}
                if next.postponed.len() != 0 {
                    crate::run::lemma_fold_roots_progress(
                        world,
                        ignoring(cfg),
                        start,
                        env.postponed,
                        0,
                        counter,
                    );
                    law_propagated_priorities(world, cfg, next, c);
                    match propagate(world, cfg, next, c) {
                        Err(e) => {},
                        Ok(after) => {
                            assert forall|k: Seq<char>|
                                #![trigger after.entry(k)]
                                #![trigger env.entry(k)]
                                after.entry(k) == env.entry(k) || (after.entry(k) matches Some(e)
                                    && e.priority() >= counter) by {
                                let x = next.entry(k);
                            }
                        },
                    }
                }
            },
        }
    }
}

/// What the plan holds at one path is no link to a directory.
pub open spec fn is_plain(world: &World, o: Option<Entry>) -> bool {
    o matches Some(Entry::Leaf { target, .. }) ==> !world.facts(target).is_dir()
}

/// No link of the plan points to a directory.
pub open spec fn links_are_plain(world: &World, env: Env) -> bool {
    forall|k: Seq<char>| is_plain(world, #[trigger] env.entry(k))
}

/// Folding a candidate in never makes a link that points to a directory.
pub proof fn law_links_stay_plain(
    world: &World,
    cfg: Settings,
    env: Env,
    rel: Seq<char>,
    target: Seq<char>,
    base: Seq<char>,
    priority: i32,
)
    requires
        links_are_plain(world, env),
    ensures
        fold_node(world, cfg, env, rel, target, base, priority) matches Ok(after)
            ==> links_are_plain(world, after),
    decreases depth_left(world, target), 2nat, 0nat,
{
    lemma_merged_links_stay_plain(world, cfg, env, rel, target, priority);
    match fold_node(world, cfg, env, rel, target, base, priority) {
        Err(e) => {},
        Ok(after) => {
            if merge_dir(world, cfg, env, rel, target, priority) != Ok::<Env, Failure>(after) {
                assert forall|k: Seq<char>| is_plain(world, #[trigger] after.entry(k)) by {
                    assert(is_plain(world, env.entry(k)));
                }
            }
        },
    }
}

proof fn lemma_merged_links_stay_plain(
    world: &World,
    cfg: Settings,
    env: Env,
    rel: Seq<char>,
    target: Seq<char>,
    priority: i32,
)
    requires
        links_are_plain(world, env),
    ensures
        merge_dir(world, cfg, env, rel, target, priority) matches Ok(after) ==> links_are_plain(
            world,
            after,
        ),
    decreases depth_left(world, target), 1nat, 0nat,
{
    lemma_listed_links_stay_plain(world, cfg, env, rel, target, 0, priority);
    match fold_dir(world, cfg, env, rel, target, 0, priority) {
        Err(e) => {},
        Ok(inner) => {
            let after = inner.put(rel, Entry::Directory { priority });
            assert forall|k: Seq<char>| is_plain(world, #[trigger] after.entry(k)) by {
                assert(is_plain(world, inner.entry(k)));
            }
        },
    }
}

proof fn lemma_listed_links_stay_plain(
    world: &World,
    cfg: Settings,
    env: Env,
    rel: Seq<char>,
    dir: Seq<char>,
    i: nat,
    priority: i32,
)
    requires
        links_are_plain(world, env),
    ensures
        fold_dir(world, cfg, env, rel, dir, i, priority) matches Ok(after) ==> links_are_plain(
            world,
            after,
        ),
    decreases depth_left(world, dir), 0nat, listing_len(world, dir) - i,
{
    match world.facts(dir).entries {
        Err(e) => {},
        Ok(names) => {
            if i < names.len() {
                if is_dot_name(names[i as int]) {
                    lemma_listed_links_stay_plain(world, cfg, env, rel, dir, i + 1, priority);
                } else {
                    let name = names[i as int];
                    law_links_stay_plain(
                        world,
                        cfg,
                        env,
                        child_path(rel, name),
                        child_path(dir, name),
                        name,
                        priority,
                    );
                    match fold_node(
                        world,
                        cfg,
                        env,
                        child_path(rel, name),
                        child_path(dir, name),
                        name,
                        priority,
                    ) {
                        Err(e) => {},
                        Ok(next) => {
                            lemma_listed_links_stay_plain(
                                world,
                                cfg,
                                next,
                                rel,
                                dir,
                                i + 1,
                                priority,
                            );
                        },
                    }
                }
            }
        },
    }
}

/// The plan of `top` is the plan of `base` laid over the plan of `other`: at each path it
/// holds what `base` holds, or else what `other` holds where `base` holds nothing there or
/// both hold a directory.
pub open spec fn overlays(base: Env, top: Env, other: Env) -> bool {
    forall|k: Seq<char>|
        #![trigger top.entry(k)]
        #![trigger base.entry(k)]
        top.entry(k) == base.entry(k) || (top.entry(k) == other.entry(k) && (base.entry(k) is None
            || (holds_directory(base.entry(k)) && holds_directory(other.entry(k)))))
}

/// Two plans are apart when, wherever one of them holds a link, the other holds nothing.
pub open spec fn apart(one: Env, other: Env) -> bool {
    &&& forall|k: Seq<char>| holds_link(#[trigger] one.entry(k)) ==> other.entry(k) is None
    &&& forall|k: Seq<char>| holds_link(#[trigger] other.entry(k)) ==> one.entry(k) is None
}

proof fn lemma_apart_before(other: Env, before: Env, after: Env, rel: Seq<char>, priority: i32)
    requires
        grown(before, after, rel, priority),
        apart(other, after),
    ensures
        apart(other, before),
{
    assert forall|k: Seq<char>| holds_link(#[trigger] other.entry(k)) implies before.entry(
        k,
    ) is None by {
        let x = after.entry(k);
    }
    assert forall|k: Seq<char>| holds_link(#[trigger] before.entry(k)) implies other.entry(
        k,
    ) is None by {
        let x = after.entry(k);
        assert(holds_link(after.entry(k)));
    }
}

proof fn lemma_sim_node(
    world: &World,
    cfg: Settings,
    base: Env,
    top: Env,
    other: Env,
    rel: Seq<char>,
    target: Seq<char>,
    name: Seq<char>,
    priority: i32,
)
    requires
        overlays(base, top, other),
        fold_node(world, cfg, base, rel, target, name, priority) matches Ok(r) && apart(other, r),
    ensures
        fold_node(world, cfg, top, rel, target, name, priority) matches Ok(r2) && overlays(
            fold_node(world, cfg, base, rel, target, name, priority)->Ok_0,
            r2,
            other,
        ),
    decreases depth_left(world, target), 2nat, 0nat,
{
    let r = fold_node(world, cfg, base, rel, target, name, priority)->Ok_0;
    let f = world.facts(target);
    let b = base.entry(rel);
    let t = top.entry(rel);
    let o = other.entry(rel);
    assert(t == b || (t == o && (b is None || (holds_directory(b) && holds_directory(o)))));
    assert(holds_link(o) ==> r.entry(rel) is None);
    assert(holds_link(r.entry(rel)) ==> o is None);
    if f.is_file() && is_store_path(cfg.store_dir, target) {
        let r2 = fold_node(world, cfg, top, rel, target, name, priority)->Ok_0;
        assert forall|k: Seq<char>|
            #![trigger r2.entry(k)]
            #![trigger r.entry(k)]
            r2.entry(k) == r.entry(k) || (r2.entry(k) == other.entry(k) && (r.entry(k) is None || (
            holds_directory(r.entry(k)) && holds_directory(other.entry(k))))) by {
            let x = base.entry(k);
            let y = top.entry(k);
        }
    } else if excluded(rel, name) || !is_visited(cfg.paths_to_link, rel) {
    } else if f.is_dir() && !holds_link(b) {
        lemma_merge_dir_grows(world, cfg, base, rel, target, priority);
        assert(!holds_link(t));
        lemma_sim_merge(world, cfg, base, top, other, rel, target, priority);
    } else {
        let r2 = fold_node(world, cfg, top, rel, target, name, priority)->Ok_0;
        assert(fold_node(world, cfg, top, rel, target, name, priority) is Ok);
        assert forall|k: Seq<char>|
            #![trigger r2.entry(k)]
            #![trigger r.entry(k)]
            r2.entry(k) == r.entry(k) || (r2.entry(k) == other.entry(k) && (r.entry(k) is None || (
            holds_directory(r.entry(k)) && holds_directory(other.entry(k))))) by {
            let x = base.entry(k);
            let y = top.entry(k);
        }
    }
}

proof fn lemma_sim_merge(
    world: &World,
    cfg: Settings,
    base: Env,
    top: Env,
    other: Env,
    rel: Seq<char>,
    target: Seq<char>,
    priority: i32,
)
    requires
        overlays(base, top, other),
        !holds_link(base.entry(rel)),
        merge_dir(world, cfg, base, rel, target, priority) matches Ok(r) && apart(other, r),
    ensures
        merge_dir(world, cfg, top, rel, target, priority) matches Ok(r2) && overlays(
            merge_dir(world, cfg, base, rel, target, priority)->Ok_0,
            r2,
            other,
        ),
    decreases depth_left(world, target), 1nat, 0nat,
{
    let r = merge_dir(world, cfg, base, rel, target, priority)->Ok_0;
    let u = fold_dir(world, cfg, base, rel, target, 0, priority)->Ok_0;
    law_fold_dir_grows(world, cfg, base, rel, target, 0, priority);
    assert(r == u.put(rel, Entry::Directory { priority }));
    assert(apart(other, u)) by {
        assert forall|k: Seq<char>| holds_link(#[trigger] other.entry(k)) implies u.entry(
            k,
        ) is None by {
            let x = r.entry(k);
        }
        assert forall|k: Seq<char>| holds_link(#[trigger] u.entry(k)) implies other.entry(
            k,
        ) is None by {
            let x = r.entry(k);
            assert(k != rel);
            assert(holds_link(r.entry(k)));
        }
    }
    lemma_sim_dir(world, cfg, base, top, other, rel, target, 0, priority);
    let u2 = fold_dir(world, cfg, top, rel, target, 0, priority)->Ok_0;
    let r2 = u2.put(rel, Entry::Directory { priority });
    assert forall|k: Seq<char>|
        #![trigger r2.entry(k)]
        #![trigger r.entry(k)]
        r2.entry(k) == r.entry(k) || (r2.entry(k) == other.entry(k) && (r.entry(k) is None || (
        holds_directory(r.entry(k)) && holds_directory(other.entry(k))))) by {
        let x = u.entry(k);
        let y = u2.entry(k);
    }
}

proof fn lemma_sim_dir(
    world: &World,
    cfg: Settings,
    base: Env,
    top: Env,
    other: Env,
    rel: Seq<char>,
    dir: Seq<char>,
    i: nat,
    priority: i32,
)
    requires
        overlays(base, top, other),
        fold_dir(world, cfg, base, rel, dir, i, priority) matches Ok(r) && apart(other, r),
    ensures
        fold_dir(world, cfg, top, rel, dir, i, priority) matches Ok(r2) && overlays(
            fold_dir(world, cfg, base, rel, dir, i, priority)->Ok_0,
            r2,
            other,
        ),
    decreases depth_left(world, dir), 0nat, listing_len(world, dir) - i,
{
    let names = world.facts(dir).entries->Ok_0;
    if i < names.len() {
        if is_dot_name(names[i as int]) {
            lemma_sim_dir(world, cfg, base, top, other, rel, dir, i + 1, priority);
        } else {
            let name = names[i as int];
            let child = child_path(rel, name);
            let next = fold_node(world, cfg, base, child, child_path(dir, name), name, priority)->Ok_0;
            let r = fold_dir(world, cfg, next, rel, dir, i + 1, priority)->Ok_0;
            law_fold_dir_grows(world, cfg, next, rel, dir, i + 1, priority);
            lemma_apart_before(other, next, r, rel, priority);
            lemma_sim_node(world, cfg, base, top, other, child, child_path(dir, name), name, priority);
            let next2 = fold_node(
                world,
                cfg,
                top,
                child,
                child_path(dir, name),
                name,
                priority,
            )->Ok_0;
            lemma_sim_dir(world, cfg, next, next2, other, rel, dir, i + 1, priority);
        }
    }
}

/// The links of a plan.
pub open spec fn links(env: Env) -> Map<Seq<char>, Entry> {
    Map::new(|k: Seq<char>| holds_link(env.entry(k)), |k: Seq<char>| env.plan[k])
}

/// The plan holds no link.
pub open spec fn without_links(env: Env) -> bool {
    forall|k: Seq<char>| !holds_link(#[trigger] env.entry(k))
}

proof fn lemma_overlays_itself(env: Env, after: Env, rel: Seq<char>, priority: i32)
    requires
        without_links(env),
        grown(env, after, rel, priority),
    ensures
        overlays(env, after, after),
{
    assert forall|k: Seq<char>|
        #![trigger after.entry(k)]
        #![trigger env.entry(k)]
        after.entry(k) == env.entry(k) || (after.entry(k) == after.entry(k) && (env.entry(k) is None
            || (holds_directory(env.entry(k)) && holds_directory(after.entry(k))))) by {
        assert(!holds_link(env.entry(k)));
    }
}

proof fn lemma_links_add_up(one: Env, other: Env, both: Env, rel: Seq<char>, priority: i32)
    requires
        apart(one, other),
        overlays(other, both, one),
        grown(one, both, rel, priority),
    ensures
        links(both) == links(one).union_prefer_right(links(other)),
{
    assert forall|k: Seq<char>| #[trigger]
        links(both).contains_key(k) <==> links(one).union_prefer_right(links(other)).contains_key(
            k,
        ) by {
        let x = one.entry(k);
        let y = other.entry(k);
        let z = both.entry(k);
    }
    assert forall|k: Seq<char>| #[trigger] links(both).contains_key(k) implies links(both)[k]
        == links(one).union_prefer_right(links(other))[k] by {
        let x = one.entry(k);
        let y = other.entry(k);
        let z = both.entry(k);
    }
    assert(links(both) =~= links(one).union_prefer_right(links(other)));
}

proof fn lemma_union_commutes(one: Env, other: Env)
    requires
        apart(one, other),
    ensures
        links(one).union_prefer_right(links(other)) == links(other).union_prefer_right(links(one)),
{
    assert forall|k: Seq<char>| !(#[trigger] links(one).contains_key(k) && links(other).contains_key(
        k,
    )) by {
        let x = one.entry(k);
        let y = other.entry(k);
    }
    assert(links(one).union_prefer_right(links(other)) =~= links(other).union_prefer_right(
        links(one),
    ));
}

/// Two plans hold the same at a path, but for the priority of a directory.
pub open spec fn alike(x: Option<Entry>, y: Option<Entry>) -> bool {
    x == y || (holds_directory(x) && holds_directory(y))
}

/// Two plans hold the same links and directories at the same paths; their directories may
/// differ in priority.
pub open spec fn same_shape(one: Env, other: Env) -> bool {
    forall|k: Seq<char>| alike(#[trigger] one.entry(k), other.entry(k))
}

/// What two plans hold together at a path: what the first holds, or else what the second
/// holds.
pub open spec fn together(x: Option<Entry>, y: Option<Entry>) -> Option<Entry> {
    if x is Some {
        x
    } else {
        y
    }
}

proof fn lemma_shapes_add_up(one: Env, other: Env, both: Env, rel: Seq<char>, priority: i32)
    requires
        apart(one, other),
        overlays(other, both, one),
        grown(one, both, rel, priority),
    ensures
        forall|k: Seq<char>|
            alike(#[trigger] both.entry(k), together(one.entry(k), other.entry(k))),
{
    assert forall|k: Seq<char>|
        alike(#[trigger] both.entry(k), together(one.entry(k), other.entry(k))) by {
        let x = one.entry(k);
        let y = other.entry(k);
    }
}

/// Two trees that are folded into a plan without links, and whose plans are apart, can be
/// folded in one after the other in either order: nothing fails, and either way the links of
/// the plan are the links of the one tree together with the links of the other, and the
/// directories are the same but for their priorities.
pub proof fn law_disjoint_trees_commute(
    world: &World,
    cfg: Settings,
    env: Env,
    a: Seq<char>,
    a_priority: i32,
    b: Seq<char>,
    b_priority: i32,
)
    requires
        without_links(env),
        fold_node(world, cfg, env, Seq::empty(), a, Seq::empty(), a_priority) is Ok,
        fold_node(world, cfg, env, Seq::empty(), b, Seq::empty(), b_priority) is Ok,
        apart(
            fold_node(world, cfg, env, Seq::empty(), a, Seq::empty(), a_priority)->Ok_0,
            fold_node(world, cfg, env, Seq::empty(), b, Seq::empty(), b_priority)->Ok_0,
        ),
    ensures
        ({
            let ea = fold_node(world, cfg, env, Seq::empty(), a, Seq::empty(), a_priority)->Ok_0;
            let eb = fold_node(world, cfg, env, Seq::empty(), b, Seq::empty(), b_priority)->Ok_0;
            let ab = fold_node(world, cfg, ea, Seq::empty(), b, Seq::empty(), b_priority);
            let ba = fold_node(world, cfg, eb, Seq::empty(), a, Seq::empty(), a_priority);
            &&& ab is Ok
            &&& ba is Ok
            &&& links(ab->Ok_0) == links(ea).union_prefer_right(links(eb))
            &&& links(ba->Ok_0) == links(ab->Ok_0)
            &&& same_shape(ab->Ok_0, ba->Ok_0)
        }),
{
    let root = Seq::<char>::empty();
    let ea = fold_node(world, cfg, env, root, a, root, a_priority)->Ok_0;
    let eb = fold_node(world, cfg, env, root, b, root, b_priority)->Ok_0;
    law_fold_node_grows(world, cfg, env, root, a, root, a_priority);
    law_fold_node_grows(world, cfg, env, root, b, root, b_priority);
    lemma_overlays_itself(env, ea, root, a_priority);
    lemma_overlays_itself(env, eb, root, b_priority);
    lemma_sim_node(world, cfg, env, ea, ea, root, b, root, b_priority);
    lemma_sim_node(world, cfg, env, eb, eb, root, a, root, a_priority);
    let ab = fold_node(world, cfg, ea, root, b, root, b_priority)->Ok_0;
    let ba = fold_node(world, cfg, eb, root, a, root, a_priority)->Ok_0;
    law_fold_node_grows(world, cfg, ea, root, b, root, b_priority);
    law_fold_node_grows(world, cfg, eb, root, a, root, a_priority);
    lemma_links_add_up(ea, eb, ab, root, b_priority);
    lemma_links_add_up(eb, ea, ba, root, a_priority);
    lemma_union_commutes(ea, eb);
    lemma_shapes_add_up(ea, eb, ab, root, b_priority);
    lemma_shapes_add_up(eb, ea, ba, root, a_priority);
    assert forall|k: Seq<char>| alike(#[trigger] ab.entry(k), ba.entry(k)) by {
        let x = ea.entry(k);
        let y = eb.entry(k);
        assert(alike(ab.entry(k), together(x, y)));
        assert(alike(ba.entry(k), together(y, x)));
    }
}

proof fn lemma_second_package(
    world: &World,
    cfg: Settings,
    env: Env,
    a: Seq<char>,
    a_priority: i32,
    b: Seq<char>,
    b_priority: i32,
)
    requires
        without_links(env),
        a != b,
        !env.done.contains(a),
        !env.done.contains(b),
        add_package(world, cfg, env, a, a_priority) is Ok,
        add_package(world, cfg, env, b, b_priority) is Ok,
        apart(
            add_package(world, cfg, env, a, a_priority)->Ok_0,
            add_package(world, cfg, env, b, b_priority)->Ok_0,
        ),
    ensures
        ({
            let ea = add_package(world, cfg, env, a, a_priority)->Ok_0;
            let eb = add_package(world, cfg, env, b, b_priority)->Ok_0;
            let ab = add_package(world, cfg, ea, b, b_priority);
            &&& ab is Ok
            &&& links(ab->Ok_0) == links(ea).union_prefer_right(links(eb))
            &&& ab->Ok_0.done == env.done.insert(a).insert(b)
            &&& forall|k: Seq<char>|
                alike(#[trigger] ab->Ok_0.entry(k), together(ea.entry(k), eb.entry(k)))
        }),
{
    let root = Seq::<char>::empty();
    let ea = add_package(world, cfg, env, a, a_priority)->Ok_0;
    let eb = add_package(world, cfg, env, b, b_priority)->Ok_0;
    let env_a = Env { done: env.done.insert(a), ..env };
    let env_b = Env { done: env.done.insert(b), ..env };
    let fa = fold_node(world, cfg, env_a, root, a, root, a_priority)->Ok_0;
    let fb = fold_node(world, cfg, env_b, root, b, root, b_priority)->Ok_0;
    assert(fa.plan == ea.plan);
    assert(fb.plan == eb.plan);
    law_fold_node_grows(world, cfg, env_a, root, a, root, a_priority);
    law_fold_node_grows(world, cfg, env_b, root, b, root, b_priority);
    assert(ea.done == env.done.insert(a));
    let marked = Env { done: ea.done.insert(b), ..ea };
    assert(overlays(env_b, marked, ea)) by {
        assert forall|k: Seq<char>|
            #![trigger marked.entry(k)]
            #![trigger env_b.entry(k)]
            marked.entry(k) == env_b.entry(k) || (marked.entry(k) == ea.entry(k) && (env_b.entry(
                k,
            ) is None || (holds_directory(env_b.entry(k)) && holds_directory(ea.entry(k))))) by {
            assert(!holds_link(env.entry(k)));
            assert(env_a.entry(k) == env.entry(k));
            assert(fa.entry(k) == ea.entry(k));
        }
    }
    assert(apart(ea, fb)) by {
        assert forall|k: Seq<char>| holds_link(#[trigger] ea.entry(k)) implies fb.entry(
            k,
        ) is None by {
            assert(fb.entry(k) == eb.entry(k));
        }
        assert forall|k: Seq<char>| holds_link(#[trigger] fb.entry(k)) implies ea.entry(
            k,
        ) is None by {
            assert(fb.entry(k) == eb.entry(k));
        }
    }
    lemma_sim_node(world, cfg, env_b, marked, ea, root, b, root, b_priority);
    let fab = fold_node(world, cfg, marked, root, b, root, b_priority)->Ok_0;
    law_fold_node_grows(world, cfg, marked, root, b, root, b_priority);
    let ab = add_package(world, cfg, ea, b, b_priority)->Ok_0;
    assert(ab.plan == fab.plan);
    assert(links(fab) == links(ea).union_prefer_right(links(eb))) by {
        assert forall|k: Seq<char>|
            #![trigger fab.entry(k)]
            #![trigger ea.entry(k)]
            fab.entry(k) == ea.entry(k) || {
                &&& root.is_prefix_of(k)
                &&& carries(fab.entry(k), b_priority)
                &&& holds_link(ea.entry(k)) ==> holds_link(fab.entry(k))
                &&& holds_directory(ea.entry(k)) ==> holds_directory(fab.entry(k))
            } by {
            assert(marked.entry(k) == ea.entry(k));
        }
        assert(grown(ea, fab, root, b_priority));
        lemma_links_add_up(ea, fb, fab, root, b_priority);
        assert(links(fb) =~= links(eb)) by {
            assert forall|k: Seq<char>| fb.entry(k) == eb.entry(k) by {}
        }
    }
    assert(links(ab) =~= links(fab)) by {
        assert forall|k: Seq<char>| ab.entry(k) == fab.entry(k) by {}
    }
    lemma_shapes_add_up(ea, fb, fab, root, b_priority);
    assert forall|k: Seq<char>|
        alike(#[trigger] ab.entry(k), together(ea.entry(k), eb.entry(k))) by {
        assert(ab.entry(k) == fab.entry(k));
        assert(fb.entry(k) == eb.entry(k));
        assert(alike(fab.entry(k), together(ea.entry(k), fb.entry(k))));
    }
}

/// Two packages that are folded into a plan without links, and whose plans are apart, can be
/// folded in one after the other in either order: nothing fails, and either way the same
/// packages are marked as folded in, the links of the plan are the links of the one package
/// together with the links of the other, and the directories are the same but for their
/// priorities.
pub proof fn law_disjoint_packages_commute(
    world: &World,
    cfg: Settings,
    env: Env,
    a: Seq<char>,
    a_priority: i32,
    b: Seq<char>,
    b_priority: i32,
)
    requires
        without_links(env),
        a != b,
        !env.done.contains(a),
        !env.done.contains(b),
        add_package(world, cfg, env, a, a_priority) is Ok,
        add_package(world, cfg, env, b, b_priority) is Ok,
        apart(
            add_package(world, cfg, env, a, a_priority)->Ok_0,
            add_package(world, cfg, env, b, b_priority)->Ok_0,
        ),
    ensures
        ({
            let ea = add_package(world, cfg, env, a, a_priority)->Ok_0;
            let eb = add_package(world, cfg, env, b, b_priority)->Ok_0;
            let ab = add_package(world, cfg, ea, b, b_priority);
            let ba = add_package(world, cfg, eb, a, a_priority);
            &&& ab is Ok
            &&& ba is Ok
            &&& links(ab->Ok_0) == links(ea).union_prefer_right(links(eb))
            &&& links(ba->Ok_0) == links(ab->Ok_0)
            &&& same_shape(ab->Ok_0, ba->Ok_0)
            &&& ba->Ok_0.done == ab->Ok_0.done
        }),
{
    let ea = add_package(world, cfg, env, a, a_priority)->Ok_0;
    let eb = add_package(world, cfg, env, b, b_priority)->Ok_0;
    lemma_second_package(world, cfg, env, a, a_priority, b, b_priority);
    lemma_second_package(world, cfg, env, b, b_priority, a, a_priority);
    lemma_union_commutes(ea, eb);
    assert(env.done.insert(a).insert(b) =~= env.done.insert(b).insert(a));
    let ab = add_package(world, cfg, ea, b, b_priority)->Ok_0;
    let ba = add_package(world, cfg, eb, a, a_priority)->Ok_0;
    assert forall|k: Seq<char>| alike(#[trigger] ab.entry(k), ba.entry(k)) by {
        let x = ea.entry(k);
        let y = eb.entry(k);
        assert(alike(ab.entry(k), together(x, y)));
        assert(alike(ba.entry(k), together(y, x)));
    }
}

/// Every entry of the plan is a directory.
pub open spec fn only_directories(plan: Map<Seq<char>, Entry>) -> bool {
    forall|k: Seq<char>| plan.contains_key(k) ==> #[trigger] plan[k] is Directory
}

proof fn lemma_seed_from_directories(
    plan: Map<Seq<char>, Entry>,
    s: Seq<char>,
    i: nat,
    start: nat,
    cur: Seq<char>,
)
    requires
        only_directories(plan),
    ensures
        only_directories(crate::merge::seed_from(plan, s, i, start, cur)),
    decreases s.len() - i,
{
    if i < s.len() {
        if s[i as int] == '/' {
            let closed = crate::merge::close_piece(plan, cur, s.subrange(start as int, i as int));
            lemma_seed_from_directories(closed.0, s, i + 1, i + 1, closed.1);
        } else {
            lemma_seed_from_directories(plan, s, i + 1, start, cur);
        }
    }
}

proof fn lemma_seeded_directories(paths: Seq<Seq<char>>, n: nat)
    ensures
        only_directories(crate::merge::seeded(paths, n)),
    decreases n,
{
    if n > 0 {
        lemma_seeded_directories(paths, (n - 1) as nat);
        lemma_seed_from_directories(
            crate::merge::seeded(paths, (n - 1) as nat),
            paths[n - 1],
            0,
            0,
            Seq::empty(),
        );
    }
}

/// Before any package is folded in, the plan holds no link.
pub proof fn law_initial_without_links(cfg: Settings)
    ensures
        without_links(crate::merge::initial(cfg)),
        {
    lemma_seeded_directories(cfg.paths_to_link, cfg.paths_to_link.len());
    let env = crate::merge::initial(cfg);
    assert forall|k: Seq<char>| !holds_link(#[trigger] env.entry(k)) by {
        if env.plan.contains_key(k) {
            assert(env.plan[k] is Directory);
        }
    }
}

/// The roots that were folded in stay so, and a round leaves each of its roots folded in.
pub proof fn law_round_marks_all(
    world: &World,
    cfg: Settings,
    env: Env,
    roots: Seq<Seq<char>>,
    i: nat,
    counter: i32,
)
    ensures
        fold_roots(world, cfg, env, roots, i, counter) matches Ok((after, c)) ==> {
            &&& env.done.subset_of(after.done)
            &&& forall|j: int| i <= j < roots.len() ==> after.done.contains(#[trigger] roots[j])
        },
    decreases roots.len() - i,
{
    if i < roots.len() {
        crate::run::lemma_add_package_marks(world, cfg, env, roots[i as int], counter);
        match add_package(world, cfg, env, roots[i as int], counter) {
            Err(e) => {},
            Ok(next) => {
                law_round_marks_all(world, cfg, next, roots, i + 1, next_priority(counter));
            },
        }
    }
}

/// Once the propagated packages are folded in, none waits, every root that waited before is
/// folded in, and every root that was folded in before still is.
pub proof fn law_propagate_leaves_none(world: &World, cfg: Settings, env: Env, counter: i32)
    requires
        world.recorded().dom().finite(),
    ensures
        propagate(world, cfg, env, counter) matches Ok(after) ==> {
            &&& after.postponed.len() == 0
            &&& env.done.subset_of(after.done)
            &&& forall|j: int|
                0 <= j < env.postponed.len() ==> after.done.contains(#[trigger] env.postponed[j])
        },
    decreases crate::run::unread(world, env.done),
{
    if env.postponed.len() != 0 {
        let start = Env { postponed: Seq::empty(), ..env };
        law_round_marks_all(world, ignoring(cfg), start, env.postponed, 0, counter);
        match fold_roots(world, ignoring(cfg), start, env.postponed, 0, counter) {
            Err(e) => {},
            Ok((next, c)) => {
                if next.postponed.len() != 0 {
                    crate::run::lemma_fold_roots_progress(
                        world,
                        ignoring(cfg),
                        start,
                        env.postponed,
                        0,
                        counter,
                    );
                    law_propagate_leaves_none(world, cfg, next, c);
                }
            },
        }
    }
}

/// The priority of the `k`-th turn after a turn of priority `start`: `start + k`, as long
/// as there is such a priority.
pub open spec fn turn_priority(start: i32, k: nat) -> i32 {
    if start + k <= i32::MAX {
        (start + k) as i32
    } else {
        i32::MAX
    }
}

/// Each root of a round takes one turn, whether it is folded in or was folded in before: the
/// priority that comes after a round that started with `counter` is `counter` and as many
/// more as roots had their turn.
pub proof fn law_round_counts(
    world: &World,
    cfg: Settings,
    env: Env,
    roots: Seq<Seq<char>>,
    i: nat,
    counter: i32,
)
    requires
        i <= roots.len(),
    ensures
        fold_roots(world, cfg, env, roots, i, counter) matches Ok((after, c)) ==> c
            == turn_priority(counter, (roots.len() - i) as nat),
    decreases roots.len() - i,
{
    if i < roots.len() {
        match add_package(world, cfg, env, roots[i as int], counter) {
            Err(e) => {},
            Ok(next) => {
                law_round_counts(world, cfg, next, roots, i + 1, next_priority(counter));
            },
        }
    }
}

/// What the plan holds at one path is as before, or a directory, or a link that points at
/// `target` or below it and carries `priority`.
pub open spec fn placed_at(
    before: Option<Entry>,
    after: Option<Entry>,
    target: Seq<char>,
    priority: i32,
) -> bool {
    ||| after == before
    ||| holds_directory(after)
    ||| (after matches Some(Entry::Leaf { target: t, priority: p }) && target.is_prefix_of(t) && p
        == priority)
}

/// Every link that was added or changed points at `target` or below it and carries
/// `priority`.
pub open spec fn placed(before: Env, after: Env, target: Seq<char>, priority: i32) -> bool {
    forall|k: Seq<char>|
        #![trigger after.entry(k)]
        #![trigger before.entry(k)]
        placed_at(before.entry(k), after.entry(k), target, priority)
}

/// A link that folding a candidate in adds or changes points at the candidate or below it
/// and carries its priority.
pub proof fn law_fold_node_places(
    world: &World,
    cfg: Settings,
    env: Env,
    rel: Seq<char>,
    target: Seq<char>,
    base: Seq<char>,
    priority: i32,
)
    ensures
        fold_node(world, cfg, env, rel, target, base, priority) matches Ok(after) ==> placed(
            env,
            after,
            target,
            priority,
        ),
    decreases depth_left(world, target), 2nat, 0nat,
{
    assert(target.is_prefix_of(target));
    lemma_merge_dir_places(world, cfg, env, rel, target, priority);
    match fold_node(world, cfg, env, rel, target, base, priority) {
        Err(e) => {},
        Ok(after) => {
            if merge_dir(world, cfg, env, rel, target, priority) != Ok::<Env, Failure>(after) {
                assert forall|k: Seq<char>|
                    #![trigger after.entry(k)]
                    #![trigger env.entry(k)]
                    placed_at(env.entry(k), after.entry(k), target, priority) by {}
            }
        },
    }
}

proof fn lemma_merge_dir_places(
    world: &World,
    cfg: Settings,
    env: Env,
    rel: Seq<char>,
    target: Seq<char>,
    priority: i32,
)
    ensures
        merge_dir(world, cfg, env, rel, target, priority) matches Ok(after) ==> placed(
            env,
            after,
            target,
            priority,
        ),
    decreases depth_left(world, target), 1nat, 0nat,
{
    lemma_fold_dir_places(world, cfg, env, rel, target, 0, priority);
    match fold_dir(world, cfg, env, rel, target, 0, priority) {
        Err(e) => {},
        Ok(inner) => {
            let after = inner.put(rel, Entry::Directory { priority });
            assert forall|k: Seq<char>|
                #![trigger after.entry(k)]
                #![trigger env.entry(k)]
                placed_at(env.entry(k), after.entry(k), target, priority) by {
                assert(placed_at(env.entry(k), inner.entry(k), target, priority));
            }
        },
    }
}

proof fn lemma_fold_dir_places(
    world: &World,
    cfg: Settings,
    env: Env,
    rel: Seq<char>,
    dir: Seq<char>,
    i: nat,
    priority: i32,
)
    ensures
        fold_dir(world, cfg, env, rel, dir, i, priority) matches Ok(after) ==> placed(
            env,
            after,
            dir,
            priority,
        ),
    decreases depth_left(world, dir), 0nat, listing_len(world, dir) - i,
{
    match world.facts(dir).entries {
        Err(e) => {},
        Ok(names) => {
            if i < names.len() {
                if is_dot_name(names[i as int]) {
                    lemma_fold_dir_places(world, cfg, env, rel, dir, i + 1, priority);
                } else {
                    let name = names[i as int];
                    let child = child_path(dir, name);
                    law_fold_node_places(
                        world,
                        cfg,
                        env,
                        child_path(rel, name),
                        child,
                        name,
                        priority,
                    );
                    match fold_node(world, cfg, env, child_path(rel, name), child, name, priority) {
                        Err(e) => {},
                        Ok(next) => {
                            lemma_fold_dir_places(world, cfg, next, rel, dir, i + 1, priority);
                            match fold_dir(world, cfg, next, rel, dir, i + 1, priority) {
                                Err(e) => {},
                                Ok(after) => {
                                    assert forall|t: Seq<char>| child.is_prefix_of(t) implies dir
                                        .is_prefix_of(t) by {
                                        assert(dir =~= child.subrange(0, dir.len() as int));
                                        assert(dir =~= t.subrange(0, dir.len() as int));
                                    }
                                    assert forall|k: Seq<char>|
                                        #![trigger after.entry(k)]
                                        #![trigger env.entry(k)]
                                        placed_at(env.entry(k), after.entry(k), dir, priority) by {
                                        assert(placed_at(
                                            env.entry(k),
                                            next.entry(k),
                                            child,
                                            priority,
                                        ));
                                        assert(placed_at(
                                            next.entry(k),
                                            after.entry(k),
                                            dir,
                                            priority,
                                        ));
                                    }
                                },
                            }
                        },
                    }
                }
            }
        },
    }
}

/// A link that folding a package in adds or changes points at the root of the package or
/// below it and carries the priority of the package. So a link that points below the root of
/// a propagated package and was made by folding that package in carries the priority of its
/// turn, which is 1000 or more.
pub proof fn law_add_package_places(
    world: &World,
    cfg: Settings,
    env: Env,
    root: Seq<char>,
    priority: i32,
)
    ensures
        add_package(world, cfg, env, root, priority) matches Ok(after) ==> placed(
            env,
            after,
            root,
            priority,
        ),
{
    if !env.done.contains(root) {
        let marked = Env { done: env.done.insert(root), ..env };
        law_fold_node_places(world, cfg, marked, Seq::empty(), root, Seq::empty(), priority);
        match add_package(world, cfg, env, root, priority) {
            Err(e) => {},
            Ok(after) => {
                let folded = fold_node(
                    world,
                    cfg,
                    marked,
                    Seq::empty(),
                    root,
                    Seq::empty(),
                    priority,
                )->Ok_0;
                assert forall|k: Seq<char>|
                    #![trigger after.entry(k)]
                    #![trigger env.entry(k)]
                    placed_at(env.entry(k), after.entry(k), root, priority) by {
                    assert(marked.entry(k) == env.entry(k));
                    assert(after.entry(k) == folded.entry(k));
                    assert(placed_at(marked.entry(k), folded.entry(k), root, priority));
                }
            },
        }
    } else {
        assert forall|k: Seq<char>|
            #![trigger env.entry(k)]
            placed_at(env.entry(k), env.entry(k), root, priority) by {}
    }
}

} // verus!
