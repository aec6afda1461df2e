//! The shape of the plan: what lies above what.
//!
//! A plan can be realized when no link lies above another entry, for the path of a link is
//! a link in the file system and nothing can be created below it. Planning keeps plans so,
//! as long as the names in the listings of the world are names: texts without `/`.

use vstd::prelude::*;
use crate::closure::add_package;
use crate::config::Settings;
use crate::laws::{holds_directory, holds_link};
use crate::merge::{
    close_piece, depth_left, fold_dir, fold_node, initial, is_dot_name, listing_len, merge_dir,
    seed_from, seeded, Env,
};
use crate::paths::child_path;
use crate::plan::Entry;
use crate::world::World;

verus! {

/// The path `a` lies above the path `j`: `j` is `a`, a slash, and more.
pub open spec fn above(a: Seq<char>, j: Seq<char>) -> bool {
    (a + seq!['/']).is_prefix_of(j)
}

/// The `i`-th name in the listing of `dir`, if there is one, holds no slash.
pub open spec fn plain_name_at(world: &World, dir: Seq<char>, i: int) -> bool {
    world.facts(dir).entries matches Ok(names) ==> (0 <= i < names.len() ==> !names[i].contains(
        '/',
    ))
}

/// The names in the listings of the world are names: none of them holds a slash.
pub open spec fn plain_listings(world: &World) -> bool {
    forall|dir: Seq<char>, i: int| #[trigger] plain_name_at(world, dir, i)
}

/// No link of the plan lies above another entry of the plan.
pub open spec fn nothing_below_links(env: Env) -> bool {
    forall|k: Seq<char>, j: Seq<char>|
        holds_link(#[trigger] env.entry(k)) && #[trigger] env.plan.contains_key(j) ==> !above(k, j)
}

/// What lies above an entry of the plan is an entry of the plan.
pub open spec fn closed_upward(env: Env) -> bool {
    forall|a: Seq<char>, j: Seq<char>|
        env.plan.contains_key(j) && #[trigger] above(a, j) ==> env.plan.contains_key(a)
}

/// A plan that can be realized: what lies above an entry is an entry, and it is no link.
pub open spec fn tidy(env: Env) -> bool {
    nothing_below_links(env) && closed_upward(env)
}

/// The path `a` is one of those that are being merged while a candidate is folded in at
/// `rel`: it lies above `rel`, or is `rel` itself where the entries of `rel` are folded in.
pub open spec fn pending(a: Seq<char>, rel: Seq<char>, inside: bool) -> bool {
    above(a, rel) || (inside && a == rel)
}

/// What holds of the plan while a candidate is folded in at `rel`: no link lies above
/// another entry, what lies above an entry is an entry or is being merged, and what is being
/// merged is no link.
pub open spec fn tidy_within(env: Env, rel: Seq<char>, inside: bool) -> bool {
    &&& nothing_below_links(env)
    &&& forall|a: Seq<char>, j: Seq<char>|
        env.plan.contains_key(j) && #[trigger] above(a, j) ==> env.plan.contains_key(a) || pending(
            a,
            rel,
            inside,
        )
    &&& forall|a: Seq<char>| #[trigger] pending(a, rel, inside) ==> !holds_link(env.entry(a))
}

proof fn lemma_above_child(a: Seq<char>, rel: Seq<char>, name: Seq<char>)
    ensures
        above(rel, child_path(rel, name)),
        !above(child_path(rel, name), rel),
        !above(rel, rel),
        above(a, rel) ==> above(a, child_path(rel, name)),
        !name.contains('/') && above(a, child_path(rel, name)) ==> a == rel || above(a, rel),
{
    let child = child_path(rel, name);
    let slash = seq!['/'];
    assert(rel + slash =~= child.subrange(0, rel.len() as int + 1));
    if above(a, rel) {
        assert(a + slash =~= rel.subrange(0, a.len() as int + 1));
        assert(a + slash =~= child.subrange(0, a.len() as int + 1));
    }
    if !name.contains('/') && above(a, child) {
        assert(a + slash =~= child.subrange(0, a.len() as int + 1));
        assert(child[a.len() as int] == (a + slash)[a.len() as int]);
        assert(child[a.len() as int] == '/');
        if a.len() < rel.len() {
            assert(a + slash =~= rel.subrange(0, a.len() as int + 1)) by {
                assert forall|i: int| 0 <= i < a.len() + 1 implies (a + slash)[i] == rel[i] by {
                    assert((a + slash)[i] == child.subrange(0, a.len() as int + 1)[i]);
                }
            }
        } else if a.len() == rel.len() {
            assert(a =~= rel) by {
                assert forall|i: int| 0 <= i < a.len() implies a[i] == rel[i] by {
                    assert((a + slash)[i] == child.subrange(0, a.len() as int + 1)[i]);
                }
            }
        } else {
            let at = a.len() - rel.len() - 1;
            assert(name[at] == child[a.len() as int]);
            assert(name.contains('/'));
        }
    }
}

proof fn lemma_tidy_node(
    world: &World,
    cfg: Settings,
    env: Env,
    rel: Seq<char>,
    target: Seq<char>,
    base: Seq<char>,
    priority: i32,
)
    requires
        plain_listings(world),
        tidy_within(env, rel, false),
    ensures
        fold_node(world, cfg, env, rel, target, base, priority) matches Ok(after) ==> tidy_within(
            after,
            rel,
            false,
        ),
    decreases depth_left(world, target), 2nat, 0nat,
{
    match fold_node(world, cfg, env, rel, target, base, priority) {
        Err(e) => {},
        Ok(after) => {
            if merge_dir(world, cfg, env, rel, target, priority) == Ok::<
                Env,
                crate::error::Failure,
            >(after) && !holds_link(env.entry(rel)) {
                lemma_tidy_merge(world, cfg, env, rel, target, priority);
            } else {
                lemma_above_child(rel, rel, rel);
                assert forall|k: Seq<char>| #[trigger] after.entry(k) == env.entry(k) || (k == rel
                    && holds_link(after.entry(k)) && !holds_directory(env.entry(k))) by {}
                lemma_tidy_link(env, after, rel);
            }
        },
    }
}

proof fn lemma_tidy_link(env: Env, after: Env, rel: Seq<char>)
    requires
        tidy_within(env, rel, false),
        !above(rel, rel),
        forall|k: Seq<char>| #[trigger]
            after.entry(k) == env.entry(k) || (k == rel && holds_link(after.entry(k))
                && !holds_directory(env.entry(k))),
    ensures
        tidy_within(after, rel, false),
{
    assert forall|k: Seq<char>, j: Seq<char>|
        holds_link(#[trigger] after.entry(k)) && #[trigger] after.plan.contains_key(j) implies !above(
        k,
        j,
    ) by {
        let x = env.entry(k);
        let y = env.entry(j);
        let z = after.entry(j);
        if above(k, j) {
            if j == rel {
                assert(pending(k, rel, false));
            } else {
                assert(env.plan.contains_key(j));
                if k == rel && !holds_link(env.entry(k)) {
                    assert(env.plan.contains_key(k) || pending(k, rel, false));
                }
            }
        }
    }
    assert forall|a: Seq<char>, j: Seq<char>|
        after.plan.contains_key(j) && #[trigger] above(a, j) implies after.plan.contains_key(a)
        || pending(a, rel, false) by {
        let x = env.entry(a);
        let y = env.entry(j);
        let z = after.entry(j);
        let w = after.entry(a);
        if j == rel {
            assert(pending(a, rel, false));
        } else {
            assert(env.plan.contains_key(j));
        }
    }
    assert forall|a: Seq<char>| #[trigger] pending(a, rel, false) implies !holds_link(
        after.entry(a),
    ) by {
        let x = env.entry(a);
    }
}

proof fn lemma_tidy_merge(
    world: &World,
    cfg: Settings,
    env: Env,
    rel: Seq<char>,
    target: Seq<char>,
    priority: i32,
)
    requires
        plain_listings(world),
        tidy_within(env, rel, false),
        !holds_link(env.entry(rel)),
    ensures
        merge_dir(world, cfg, env, rel, target, priority) matches Ok(after) ==> tidy_within(
            after,
            rel,
            false,
        ),
    decreases depth_left(world, target), 1nat, 0nat,
{
    assert(tidy_within(env, rel, true)) by {
        assert forall|a: Seq<char>| #[trigger] pending(a, rel, true) implies !holds_link(
            env.entry(a),
        ) by {
            if a != rel {
                assert(pending(a, rel, false));
            }
        }
        assert forall|a: Seq<char>, j: Seq<char>|
            env.plan.contains_key(j) && #[trigger] above(a, j) implies env.plan.contains_key(a)
            || pending(a, rel, true) by {
            if !env.plan.contains_key(a) {
                assert(pending(a, rel, false));
            }
        }
    }
    lemma_tidy_dir(world, cfg, env, rel, target, 0, priority);
    crate::laws::law_fold_dir_grows(world, cfg, env, rel, target, 0, priority);
    match fold_dir(world, cfg, env, rel, target, 0, priority) {
        Err(e) => {},
        Ok(inner) => {
            let after = inner.put(rel, Entry::Directory { priority });
            lemma_above_child(rel, rel, rel);
            assert forall|k: Seq<char>, j: Seq<char>|
                holds_link(#[trigger] after.entry(k)) && #[trigger] after.plan.contains_key(
                    j,
                ) implies !above(k, j) by {
                let x = inner.entry(k);
                let y = inner.entry(j);
                if above(k, j) && j == rel {
                    assert(pending(k, rel, true));
                }
            }
            assert forall|a: Seq<char>, j: Seq<char>|
                after.plan.contains_key(j) && #[trigger] above(a, j) implies after.plan.contains_key(
                a,
            ) || pending(a, rel, false) by {
                let x = inner.entry(a);
                let y = inner.entry(j);
                if j == rel {
                    assert(pending(a, rel, false));
                } else {
                    assert(inner.plan.contains_key(j));
                    assert(inner.plan.contains_key(a) || pending(a, rel, true));
                }
            }
            assert forall|a: Seq<char>| #[trigger] pending(a, rel, false) implies !holds_link(
                after.entry(a),
            ) by {
                assert(pending(a, rel, true));
                let x = inner.entry(a);
            }
        },
    }
}

proof fn lemma_tidy_dir(
    world: &World,
    cfg: Settings,
    env: Env,
    rel: Seq<char>,
    dir: Seq<char>,
    i: nat,
    priority: i32,
)
    requires
        plain_listings(world),
        tidy_within(env, rel, true),
    ensures
        fold_dir(world, cfg, env, rel, dir, i, priority) matches Ok(after) ==> tidy_within(
            after,
            rel,
            true,
        ),
    decreases depth_left(world, dir), 0nat, listing_len(world, dir) - i,
{
    match world.facts(dir).entries {
        Err(e) => {},
        Ok(names) => {
            if i < names.len() {
                if is_dot_name(names[i as int]) {
                    lemma_tidy_dir(world, cfg, env, rel, dir, i + 1, priority);
                } else {
                    let name = names[i as int];
                    let child = child_path(rel, name);
                    assert(plain_name_at(world, dir, i as int));
                    assert(!name.contains('/'));
                    assert(tidy_within(env, child, false)) by {
                        assert forall|a: Seq<char>| #[trigger]
                            pending(a, child, false) implies !holds_link(env.entry(a)) by {
                            lemma_above_child(a, rel, name);
                            assert(pending(a, rel, true));
                        }
                        assert forall|a: Seq<char>, j: Seq<char>|
                            env.plan.contains_key(j) && #[trigger] above(
                                a,
                                j,
                            ) implies env.plan.contains_key(a) || pending(a, child, false) by {
                            lemma_above_child(a, rel, name);
                            if !env.plan.contains_key(a) {
                                assert(pending(a, rel, true));
                            }
                        }
                    }
                    lemma_tidy_node(world, cfg, env, child, child_path(dir, name), name, priority);
                    match fold_node(world, cfg, env, child, child_path(dir, name), name, priority) {
                        Err(e) => {},
                        Ok(next) => {
                            assert(tidy_within(next, rel, true)) by {
                                assert forall|a: Seq<char>| #[trigger]
                                    pending(a, rel, true) implies !holds_link(next.entry(a)) by {
                                    lemma_above_child(a, rel, name);
                                    assert(pending(a, child, false));
                                }
                                assert forall|a: Seq<char>, j: Seq<char>|
                                    next.plan.contains_key(j) && #[trigger] above(
                                        a,
                                        j,
                                    ) implies next.plan.contains_key(a) || pending(a, rel, true) by {
                                    lemma_above_child(a, rel, name);
                                    if !next.plan.contains_key(a) {
                                        assert(pending(a, child, false));
                                    }
                                }
                            }
                            lemma_tidy_dir(world, cfg, next, rel, dir, i + 1, priority);
                        },
                    }
                }
            }
        },
    }
}

/// Folding a tree into a plan that can be realized gives a plan that can be realized.
pub proof fn law_fold_keeps_tidy(
    world: &World,
    cfg: Settings,
    env: Env,
    root: Seq<char>,
    priority: i32,
)
    requires
        plain_listings(world),
        tidy(env),
    ensures
        fold_node(world, cfg, env, Seq::empty(), root, Seq::empty(), priority) matches Ok(after)
            ==> tidy(after),
{
    let top = Seq::<char>::empty();
    assert(forall|a: Seq<char>| !above(a, top));
    assert(tidy_within(env, top, false));
    lemma_tidy_node(world, cfg, env, top, root, top, priority);
}

/// Folding a package into a plan that can be realized gives a plan that can be realized.
pub proof fn law_add_package_keeps_tidy(
    world: &World,
    cfg: Settings,
    env: Env,
    root: Seq<char>,
    priority: i32,
)
    requires
        plain_listings(world),
        tidy(env),
    ensures
        add_package(world, cfg, env, root, priority) matches Ok(after) ==> tidy(after),
{
    if !env.done.contains(root) {
        let marked = Env { done: env.done.insert(root), ..env };
        assert(tidy(marked)) by {
            assert forall|k: Seq<char>| marked.entry(k) == env.entry(k) by {}
        }
        law_fold_keeps_tidy(world, cfg, marked, root, priority);
        match add_package(world, cfg, env, root, priority) {
            Err(e) => {},
            Ok(after) => {
                let folded = fold_node(
                    world,
                    cfg,
                    marked,
                    Seq::empty(),
                    root,
                    Seq::empty(),
                    priority,
                )->Ok_0;
                assert forall|k: Seq<char>| after.entry(k) == folded.entry(k) by {}
            },
        }
    }
}

proof fn lemma_seed_from_closed(
    plan: Map<Seq<char>, Entry>,
    s: Seq<char>,
    i: nat,
    start: nat,
    cur: Seq<char>,
)
    requires
        start <= i <= s.len(),
        forall|x: int| start <= x < i ==> s[x] != '/',
        plan.contains_key(cur),
        forall|a: Seq<char>, j: Seq<char>|
            plan.contains_key(j) && #[trigger] above(a, j) ==> plan.contains_key(a),
    ensures
        forall|a: Seq<char>, j: Seq<char>|
            seed_from(plan, s, i, start, cur).contains_key(j) && #[trigger] above(a, j)
                ==> seed_from(plan, s, i, start, cur).contains_key(a),
    decreases s.len() - i,
{
    let end = if i >= s.len() {
        s.len() as int
    } else {
        i as int
    };
    let part = s.subrange(start as int, end);
    let closed = close_piece(plan, cur, part);
    assert(closed.0.contains_key(closed.1));
    assert(!part.contains('/')) by {
        if part.contains('/') {
            let x = choose|x: int| 0 <= x < part.len() && part[x] == '/';
            assert(s[start + x] == '/');
        }
    }
    assert forall|a: Seq<char>, j: Seq<char>|
        closed.0.contains_key(j) && #[trigger] above(a, j) implies closed.0.contains_key(a) by {
        if !plan.contains_key(j) {
            lemma_above_child(a, cur, part);
        }
    }
    if i < s.len() {
        if s[i as int] == '/' {
            lemma_seed_from_closed(closed.0, s, i + 1, i + 1, closed.1);
        } else {
            lemma_seed_from_closed(plan, s, i + 1, start, cur);
        }
    }
}

proof fn lemma_seeded_closed(paths: Seq<Seq<char>>, n: nat)
    ensures
        seeded(paths, n).contains_key(Seq::empty()),
        forall|a: Seq<char>, j: Seq<char>|
            seeded(paths, n).contains_key(j) && #[trigger] above(a, j) ==> seeded(
                paths,
                n,
            ).contains_key(a),
    decreases n,
{
    if n == 0 {
        assert forall|a: Seq<char>| !above(a, Seq::<char>::empty()) by {}
    } else {
        let before = seeded(paths, (n - 1) as nat);
        lemma_seeded_closed(paths, (n - 1) as nat);
        lemma_seed_from_closed(before, paths[n - 1], 0, 0, Seq::empty());
        lemma_seed_from_keeps(before, paths[n - 1], 0, 0, Seq::empty(), Seq::empty());
    }
}

proof fn lemma_seed_from_keeps(
    plan: Map<Seq<char>, Entry>,
    s: Seq<char>,
    i: nat,
    start: nat,
    cur: Seq<char>,
    k: Seq<char>,
)
    requires
        plan.contains_key(k),
    ensures
        seed_from(plan, s, i, start, cur).contains_key(k),
    decreases s.len() - i,
{
    if i < s.len() {
        if s[i as int] == '/' {
            let closed = close_piece(plan, cur, s.subrange(start as int, i as int));
            lemma_seed_from_keeps(closed.0, s, i + 1, i + 1, closed.1, k);
        } else {
            lemma_seed_from_keeps(plan, s, i + 1, start, cur, k);
        }
    }
}

/// Before any package is folded in, the plan can be realized.
pub proof fn law_initial_tidy(cfg: Settings)
    ensures
        tidy(initial(cfg)),
{
    let env = initial(cfg);
    crate::laws::law_initial_without_links(cfg);
    lemma_seeded_closed(cfg.paths_to_link, cfg.paths_to_link.len());
    assert forall|k: Seq<char>, j: Seq<char>|
        holds_link(#[trigger] env.entry(k)) && #[trigger] env.plan.contains_key(j) implies !above(
        k,
        j,
    ) by {}
}

} // verus!
