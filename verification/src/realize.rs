//! From the finished plan to the directories and links that make up the environment.

use vstd::prelude::*;
use vstd::string::*;
use crate::config::{Config, Settings};
use crate::paths::{child_path, is_wanted, strip_leading_slashes, strip_slashes};
use crate::plan::{Entry, PlanEntry};
use crate::planner::BuildEnv;

verus! {

/// One thing to do in the file system.
#[derive(Debug)]
pub enum Action {
    /// Create the directory `path`, and its parents, unless they are there.
    CreateDir { path: String },
    /// Create the symbolic link `link` that points to `target`; the parents of `link` are
    /// created first.
    Symlink { target: String, link: String },
}

/// The mathematical content of an [`Action`].
pub enum Deed {
    CreateDir { path: Seq<char> },
    Symlink { target: Seq<char>, link: Seq<char> },
}

impl View for Action {
    type V = Deed;

    open spec fn view(&self) -> Deed {
        match *self {
            Action::CreateDir { path } => Deed::CreateDir { path: path@ },
            Action::Symlink { target, link } => Deed::Symlink { target: target@, link: link@ },
        }
    }
}

/// The views of a sequence of actions, in order.
pub open spec fn deeds(a: Seq<Action>) -> Seq<Deed> {
    a.map_values(|x: Action| x@)
}

/// `base` extended by `part` without its leading slashes; `base` itself where nothing is left
/// of `part`.
pub open spec fn extend(base: Seq<char>, part: Seq<char>) -> Seq<char> {
    if strip_slashes(part).len() == 0 {
        base
    } else {
        child_path(base, strip_slashes(part))
    }
}

/// Where the relative path `rel` lies in the environment: below the root and the extra
/// prefix.
pub open spec fn output_path(cfg: Settings, rel: Seq<char>) -> Seq<char> {
    extend(extend(cfg.out, cfg.extra_prefix), rel)
}

/// What the entry at `rel` asks for: nothing if the path is not wanted or is the root of the
/// environment itself, a directory, or a link.
pub open spec fn deeds_of(cfg: Settings, rel: Seq<char>, entry: Entry) -> Seq<Deed> {
    if !is_wanted(cfg.paths_to_link, rel) {
        Seq::empty()
    } else {
        match entry {
            Entry::Directory { .. } => if output_path(cfg, rel) == cfg.out {
                Seq::empty()
            } else {
                seq![Deed::CreateDir { path: output_path(cfg, rel) }]
            },
            Entry::Leaf { target, .. } => seq![
                Deed::Symlink { target, link: output_path(cfg, rel) },
            ],
        }
    }
}

/// The root of the environment is created first; then comes what the first `n` paths of the
/// plan ask for, in their order.
pub open spec fn realized(
    cfg: Settings,
    plan: Map<Seq<char>, Entry>,
    keys: Seq<Seq<char>>,
    n: nat,
) -> Seq<Deed>
    decreases n,
{
    if n == 0 {
        seq![Deed::CreateDir { path: cfg.out }]
    } else {
        realized(cfg, plan, keys, (n - 1) as nat) + deeds_of(
            cfg,
            keys[n - 1],
            plan[keys[n - 1]],
        )
    }
}

/// How many of the deeds are links.
pub open spec fn count_links(d: Seq<Deed>) -> nat
    decreases d.len(),
{
    if d.len() == 0 {
        0
    } else {
        count_links(d.drop_last()) + if d.last() is Symlink {
            1nat
        } else {
            0nat
        }
    }
}

/// The paths of the plan that are wanted and hold a link.
pub open spec fn wanted_links(cfg: Settings, plan: Map<Seq<char>, Entry>) -> Set<Seq<char>> {
    plan.dom().filter(|k: Seq<char>| is_wanted(cfg.paths_to_link, k) && plan[k] is Leaf)
}

/// The first `n` of the paths that are wanted and hold a link.
pub open spec fn wanted_links_among(
    cfg: Settings,
    plan: Map<Seq<char>, Entry>,
    keys: Seq<Seq<char>>,
    n: nat,
) -> Set<Seq<char>> {
    Set::new(
        |k: Seq<char>|
            exists|i: int|
                0 <= i < n && i < keys.len() && keys[i] == k && is_wanted(cfg.paths_to_link, k)
                    && plan[k] is Leaf,
    )
}

proof fn lemma_links_add(a: Seq<Deed>, b: Seq<Deed>)
    ensures
        count_links(a + b) == count_links(a) + count_links(b),
    decreases b.len(),
{
    if b.len() == 0 {
        assert(a + b =~= a);
    } else {
        assert((a + b).drop_last() =~= a + b.drop_last());
        lemma_links_add(a, b.drop_last());
    }
}

proof fn lemma_links_counted_among(
    cfg: Settings,
    plan: Map<Seq<char>, Entry>,
    keys: Seq<Seq<char>>,
    n: nat,
)
    requires
        keys.no_duplicates(),
        n <= keys.len(),
    ensures
        wanted_links_among(cfg, plan, keys, n).finite(),
        count_links(realized(cfg, plan, keys, n)) == wanted_links_among(cfg, plan, keys, n).len(),
    decreases n,
{
    let among = wanted_links_among(cfg, plan, keys, n);
    if n == 0 {
        assert(among =~= Set::<Seq<char>>::empty());
        assert(realized(cfg, plan, keys, 0).drop_last() =~= Seq::<Deed>::empty());
        reveal_with_fuel(count_links, 2);
    } else {
        let m = (n - 1) as nat;
        let before = wanted_links_among(cfg, plan, keys, m);
        let k = keys[n - 1];
        lemma_links_counted_among(cfg, plan, keys, m);
        lemma_links_add(realized(cfg, plan, keys, m), deeds_of(cfg, k, plan[k]));
        let step = deeds_of(cfg, k, plan[k]);
        if step.len() > 0 {
            assert(step.drop_last() =~= Seq::<Deed>::empty());
        }
        reveal_with_fuel(count_links, 2);
        if is_wanted(cfg.paths_to_link, k) && plan[k] is Leaf {
            assert(!before.contains(k));
            assert(among =~= before.insert(k)) by {
                assert forall|x: Seq<char>| among.contains(x) implies before.contains(x) || x
                    == k by {
                    let i = choose|i: int|
                        0 <= i < n && i < keys.len() && keys[i] == x && is_wanted(
                            cfg.paths_to_link,
                            x,
                        ) && plan[x] is Leaf;
                    if i < m {
                        assert(before.contains(x));
                    }
                }
                assert(among.contains(k));
                assert forall|x: Seq<char>| before.contains(x) implies among.contains(x) by {
                    let i = choose|i: int|
                        0 <= i < m && i < keys.len() && keys[i] == x && is_wanted(
                            cfg.paths_to_link,
                            x,
                        ) && plan[x] is Leaf;
                    assert(0 <= i < n);
                }
            }
        } else {
            assert(among =~= before) by {
                assert forall|x: Seq<char>| among.contains(x) implies before.contains(x) by {
                    let i = choose|i: int|
                        0 <= i < n && i < keys.len() && keys[i] == x && is_wanted(
                            cfg.paths_to_link,
                            x,
                        ) && plan[x] is Leaf;
                    assert(i < m);
                }
                assert forall|x: Seq<char>| before.contains(x) implies among.contains(x) by {
                    let i = choose|i: int|
                        0 <= i < m && i < keys.len() && keys[i] == x && is_wanted(
                            cfg.paths_to_link,
                            x,
                        ) && plan[x] is Leaf;
                    assert(0 <= i < n);
                }
            }
        }
    }
}

/// Realizing a plan creates one link for each of its paths that is wanted and holds a link,
/// in whatever order the paths come.
pub proof fn law_links_counted(cfg: Settings, plan: Map<Seq<char>, Entry>, keys: Seq<Seq<char>>)
    requires
        keys.no_duplicates(),
        keys.to_set() == plan.dom(),
    ensures
        wanted_links(cfg, plan).finite(),
        count_links(realized(cfg, plan, keys, keys.len())) == wanted_links(cfg, plan).len(),
{
    lemma_links_counted_among(cfg, plan, keys, keys.len());
    assert(wanted_links_among(cfg, plan, keys, keys.len()) =~= wanted_links(cfg, plan)) by {
        assert forall|k: Seq<char>| wanted_links(cfg, plan).contains(k) implies wanted_links_among(
            cfg,
            plan,
            keys,
            keys.len(),
        ).contains(k) by {
            assert(keys.to_set().contains(k));
            let i = choose|i: int| 0 <= i < keys.len() && keys[i] == k;
            assert(keys[i] == k);
        }
        assert forall|k: Seq<char>|
            wanted_links_among(cfg, plan, keys, keys.len()).contains(k) implies wanted_links(
            cfg,
            plan,
        ).contains(k) by {
            let i = choose|i: int|
                0 <= i < keys.len() && i < keys.len() && keys[i] == k && is_wanted(
                    cfg.paths_to_link,
                    k,
                ) && plan[k] is Leaf;
            assert(keys.to_set().contains(keys[i]));
        }
    }
}

/// Extends `base` by `part` without its leading slashes.
pub fn extend_path(base: &str, part: &str) -> (r: String)
    ensures
        r@ == extend(base@, part@),
{
    let stripped = strip_leading_slashes(part);
    if stripped.as_str().unicode_len() == 0 {
        String::from_str(base)
    } else {
        crate::paths::join_child(base, stripped.as_str())
    }
}

/// Where the relative path `rel` lies in the environment.
pub fn output_path_of(config: &Config, rel: &str) -> (r: String)
    ensures
        r@ == output_path(config@, rel@),
{
    let base = extend_path(config.out.as_str(), config.extra_prefix.as_str());
    extend_path(base.as_str(), rel)
}

impl BuildEnv {
    /// Lists what has to be done to the file system to realize the plan, and how many links
    /// that creates: the root of the environment first, then, for each wanted path of the
    /// plan in the order in which the paths came, its directory or its link.
    pub fn create_symlinks(&self) -> (r: (Vec<Action>, usize))
        ensures
            deeds(r.0@) == realized(
                self.config@,
                self@.plan,
                self.symlinks.keys(),
                self.symlinks.keys().len(),
            ),
            r.1 == count_links(deeds(r.0@)),
            r.1 == wanted_links(self.config@, self@.plan).len(),
    {
        let mut actions: Vec<Action> = Vec::new();
        actions.push(Action::CreateDir { path: self.config.out.clone() });
        let mut nr_links: usize = 0;
        let n = self.symlinks.len();
        let ghost keys = self.symlinks.keys();
        assert(deeds(actions@) =~= realized(self.config@, self@.plan, keys, 0));
        assert(count_links(deeds(actions@)) == 0) by {
            assert(deeds(actions@).drop_last() =~= Seq::<Deed>::empty());
            reveal_with_fuel(count_links, 2);
        }
        let mut i: usize = 0;
        while i < n
            invariant
                i <= n,
                n == keys.len(),
                keys == self.symlinks.keys(),
                keys.no_duplicates(),
                keys.to_set() == self@.plan.dom(),
                deeds(actions@) == realized(self.config@, self@.plan, keys, i as nat),
                nr_links == count_links(deeds(actions@)),
                nr_links <= i,
            decreases n - i,
        {
            let ghost before = deeds(actions@);
            match self.symlinks.at(i) {
                None => {},
                Some((rel, entry)) => {
                    if self.is_in_paths_to_link(rel.as_str()) {
                        let abs_path = output_path_of(&self.config, rel.as_str());
                        match entry {
                            PlanEntry::Directory { .. } => {
                                if !abs_path.eq(&self.config.out) {
                                    actions.push(Action::CreateDir { path: abs_path });
                                    assert(deeds(actions@).drop_last() =~= before);
                                }
                            },
                            PlanEntry::Leaf { target, .. } => {
                                actions.push(
                                    Action::Symlink { target: target.clone(), link: abs_path },
                                );
                                assert(deeds(actions@).drop_last() =~= before);
                                nr_links += 1;
                            },
                        }
                    }
                },
            }
            assert(deeds(actions@) =~= before + deeds_of(
                self.config@,
                keys[i as int],
                self@.plan[keys[i as int]],
            ));
            i += 1;
        }
        proof {
            law_links_counted(self.config@, self@.plan, keys);
        }
        (actions, nr_links)
    }
}

} // verus!
