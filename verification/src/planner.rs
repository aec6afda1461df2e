//! The planner: it folds package trees into the plan, one candidate at a time.

use vstd::prelude::*;
use vstd::string::*;
use vstd::hash_map::StringHashMap;
use crate::config::Config;
use crate::error::{notices, Error, Notice, Warning};
use crate::merge::{
    collide, depth_left, equivalent, excluded, fold_dir, fold_node, initial, install,
    is_store_path, left_by_collision, left_by_dir, left_by_node, merge_dir, permissions,
    permissions_differ, quoted, same_object, seed_from, seeded, Env,
};
use crate::paths::{join_child, leads_to, path_parent, same_path, starts_at_root, wanted};
use crate::paths::{is_wanted, leads_to_wanted};
use crate::plan::{Plan, PlanEntry};
use crate::text::{bytes_equal, chars_of, str_ends_with, str_equal, str_starts_with, views};
use crate::world::{FileFacts, FileKind, FileStatus, World};

verus! {

/// The planner: its configuration and the state it works on.
pub struct BuildEnv {
    pub config: Config,
    /// The plan so far.
    pub symlinks: Plan,
    /// The package roots that were folded in.
    pub done: StringHashMap<bool>,
    /// The package roots that wait to be folded in, in the order in which they were found.
    pub postponed: Vec<String>,
    /// The warnings so far, oldest first.
    pub warnings: Vec<Warning>,
}

impl View for BuildEnv {
    type V = Env;

    open spec fn view(&self) -> Env {
        Env {
            plan: self.symlinks@,
            done: self.done@.dom(),
            postponed: views(self.postponed@),
            warnings: notices(self.warnings@),
        }
    }
}

/// Whether a path is never planned, whatever its priority.
pub fn is_excluded(rel_name: &str, base_name: &str) -> (r: bool)
    ensures
        r == excluded(rel_name@, base_name@),
{
    str_equal(rel_name, "/propagated-build-inputs") || str_equal(rel_name, "/nix-support")
        || str_ends_with(rel_name, "/info/dir") || (str_starts_with(rel_name, "/share/mime/")
        && !str_starts_with(rel_name, "/share/mime/packages")) || str_equal(
        base_name,
        "perllocal.pod",
    ) || str_equal(base_name, "log")
}

/// The permission bits of a status: the low twelve bits of its mode.
pub fn permission_bits(s: &FileStatus) -> (r: u32)
    ensures
        r == permissions(*s),
{
    s.mode & 0o7777
}

fn same_kind(a: &FileKind, b: &FileKind) -> (r: bool)
    ensures
        r == (*a == *b),
{
    match (a, b) {
        (FileKind::File, FileKind::File) => true,
        (FileKind::Dir, FileKind::Dir) => true,
        (FileKind::Other(x), FileKind::Other(y)) => *x == *y,
        _ => false,
    }
}

fn io_error(path: &str, source: &String, context: &str) -> (r: Error)
    ensures
        r@ == (crate::error::Failure::Io { path: path@, source: source@, context: context@ }),
{
    Error::Io {
        path: String::from_str(path),
        source: source.clone(),
        context: String::from_str(context),
    }
}

/// Whether the candidate and the object behind an existing link are one and the same.
pub fn is_same_object(candidate: &FileFacts, existing: &FileFacts) -> (r: bool)
    ensures
        r == same_object(candidate@, existing@),
{
    if candidate.is_dir() {
        return false;
    }
    match &candidate.canonical {
        Some(c) => match &existing.canonical {
            Some(d) => c.eq(d),
            None => false,
        },
        None => false,
    }
}

fn seed_path(plan: &mut Plan, path: &str)
    ensures
        final(plan)@ == seed_from(old(plan)@, path@, 0, 0, Seq::empty()),
{
    let chars = chars_of(path);
    let n = chars.len();
    let ghost goal = seed_from(old(plan)@, path@, 0, 0, Seq::empty());
    let mut cur = String::new();
    let mut start: usize = 0;
    let mut i: usize = 0;
    while i < n
        invariant
            chars@ == path@,
            n == chars.len(),
            start <= i <= n,
            goal == seed_from(plan@, path@, i as nat, start as nat, cur@),
        decreases n - i,
    {
        if chars[i] == '/' {
            if start < i {
                cur = join_child(cur.as_str(), path.substring_char(start, i));
                plan.insert(cur.clone(), PlanEntry::Directory { priority: 0 });
            }
            start = i + 1;
        }
        i += 1;
    }
    if start < n {
        cur = join_child(cur.as_str(), path.substring_char(start, n));
        plan.insert(cur, PlanEntry::Directory { priority: 0 });
    }
}

impl BuildEnv {
    /// The planner before any package is folded in. Its plan holds a directory for the root
    /// and for each level of each path to link.
    pub fn new(config: Config) -> (r: BuildEnv)
        ensures
            r@ == initial(config@),
            r.config == config,
    {
        let mut symlinks = Plan::new();
        symlinks.insert(String::new(), PlanEntry::Directory { priority: 0 });
        let n = config.paths_to_link.len();
        let mut i: usize = 0;
        while i < n
            invariant
                i <= n,
                n == config.paths_to_link.len(),
                symlinks@ == seeded(config@.paths_to_link, i as nat),
            decreases n - i,
        {
            assert(config@.paths_to_link[i as int] == config.paths_to_link@[i as int]@);
            seed_path(&mut symlinks, config.paths_to_link[i].as_str());
            i += 1;
        }
        let env = BuildEnv {
            config,
            symlinks,
            done: StringHashMap::new(),
            postponed: Vec::new(),
            warnings: Vec::new(),
        };
        assert(env@.done =~= Set::<Seq<char>>::empty());
        assert(env@.postponed =~= Seq::<Seq<char>>::empty());
        assert(env@.warnings =~= Seq::<Notice>::empty());
        env
    }

    /// Whether `path` is one of the paths to link or lies below one.
    pub fn is_in_paths_to_link(&self, path: &str) -> (r: bool)
        ensures
            r == is_wanted(self.config@.paths_to_link, path@),
    {
        wanted(&self.config.paths_to_link, path)
    }

    /// Whether `path` is the root or leads to one of the paths to link.
    pub fn has_paths_to_link(&self, path: &str) -> (r: bool)
        ensures
            r == leads_to_wanted(self.config@.paths_to_link, path@),
    {
        leads_to(&self.config.paths_to_link, path)
    }

    /// Whether `path` is a store path: an absolute path whose parent is the store directory.
    pub fn is_store_path(&self, path: &str) -> (r: bool)
        ensures
            r == is_store_path(self.config@.store_dir, path@),
    {
        match path_parent(path) {
            Some(parent) => starts_at_root(path) && same_path(
                parent.as_str(),
                self.config.store_dir.as_str(),
            ),
            None => false,
        }
    }

    /// Quotes a path for a message and says so if it is a dangling symbolic link.
    pub fn prepend_dangling(&self, world: &World, path: &str) -> (r: String)
        ensures
            r@ == quoted(path@, world.facts(path@).dangling()),
    {
        Self::quote(path, world.get(path))
    }

    fn quote(path: &str, facts: &FileFacts) -> (r: String)
        ensures
            r@ == quoted(path@, facts@.dangling()),
    {
        let mut out = if facts.dangling() {
            String::from_str("dangling symlink `")
        } else {
            String::from_str("`")
        };
        out.append(path);
        out.append("'");
        out
    }

    fn warn(&mut self, warning: Warning)
        ensures
            final(self)@ == old(self)@.warn(warning@),
            final(self).config == old(self).config,
    {
        self.warnings.push(warning);
        assert(notices(self.warnings@) =~= notices(old(self).warnings@).push(warning@));
    }

    fn put(&mut self, rel: &str, entry: PlanEntry)
        ensures
            final(self)@ == old(self)@.put(rel@, entry@),
            final(self).config == old(self).config,
    {
        self.symlinks.insert(String::from_str(rel), entry);
    }

    fn equivalent_facts(&mut self, pa: &str, a: &FileFacts, pb: &str, b: &FileFacts) -> (r: Result<
        bool,
        Error,
    >)
        ensures
            final(self).config == old(self).config,
            final(self)@.plan == old(self)@.plan,
            final(self)@.done == old(self)@.done,
            final(self)@.postponed == old(self)@.postponed,
            match equivalent(pa@, a@, pb@, b@) {
                Ok(e) => r == Ok::<bool, Error>(e) && final(self)@.warnings == if permissions_differ(
                    a@,
                    b@,
                ) {
                    old(self)@.warnings.push(
                        Notice::DifferentPermissions {
                            first: pa@,
                            second: pb@,
                            first_mode: permissions(a@.status->Some_0),
                            second_mode: permissions(b@.status->Some_0),
                        },
                    )
                } else {
                    old(self)@.warnings
                },
                Err(e) => (r matches Err(x) && x@ == e) && final(self)@.warnings == old(self)@.warnings,
            },
    {
        let (sa, sb) = match (&a.status, &b.status) {
            (Some(sa), Some(sb)) => (sa, sb),
            _ => {
                return Ok(false);
            },
        };
        let ma = permission_bits(sa);
        let mb = permission_bits(sb);
        if ma != mb {
            self.warn(
                Warning::DifferentPermissions {
                    first: String::from_str(pa),
                    second: String::from_str(pb),
                    first_mode: ma,
                    second_mode: mb,
                },
            );
            return Ok(false);
        }
        if a.is_file() && b.is_file() {
            let ca = match &a.content {
                Ok(c) => c,
                Err(e) => {
                    return Err(io_error(pa, e, "Failed to read file"));
                },
            };
            let cb = match &b.content {
                Ok(c) => c,
                Err(e) => {
                    return Err(io_error(pb, e, "Failed to read file"));
                },
            };
            Ok(bytes_equal(ca, cb))
        } else {
            Ok(same_kind(&sa.kind, &sb.kind))
        }
    }

    /// Whether the objects at the two paths are equivalent: both resolve, their permission
    /// bits agree, and they hold the same bytes if both are regular files, or are of the same
    /// kind if not. Differing permission bits are worth a warning.
    pub fn check_collision(&mut self, world: &World, path1: &str, path2: &str) -> (r: Result<
        bool,
        Error,
    >)
        ensures
            final(self).config == old(self).config,
            final(self)@.plan == old(self)@.plan,
            final(self)@.done == old(self)@.done,
            final(self)@.postponed == old(self)@.postponed,
            match equivalent(path1@, world.facts(path1@), path2@, world.facts(path2@)) {
                Ok(e) => r == Ok::<bool, Error>(e) && final(self)@.warnings == if permissions_differ(
                    world.facts(path1@),
                    world.facts(path2@),
                ) {
                    old(self)@.warnings.push(
                        Notice::DifferentPermissions {
                            first: path1@,
                            second: path2@,
                            first_mode: permissions(world.facts(path1@).status->Some_0),
                            second_mode: permissions(world.facts(path2@).status->Some_0),
                        },
                    )
                } else {
                    old(self)@.warnings
                },
                Err(e) => (r matches Err(x) && x@ == e) && final(self)@.warnings == old(self)@.warnings,
            },
    {
        self.equivalent_facts(path1, world.get(path1), path2, world.get(path2))
    }

    fn install_leaf(&mut self, rel_name: &str, target: &str, f: &FileFacts, priority: i32)
        ensures
            final(self)@ == install(old(self).config@, old(self)@, rel_name@, target@, f@, priority),
            final(self).config == old(self).config,
    {
        if f.dangling() {
            match &f.link_text {
                Some(points_to) => {
                    let mut link = self.config.out.clone();
                    link.append(self.config.extra_prefix.as_str());
                    link.append(rel_name);
                    self.warn(
                        Warning::DanglingSymlink {
                            link,
                            target: String::from_str(target),
                            points_to: points_to.clone(),
                        },
                    );
                },
                None => {},
            }
        }
        self.put(rel_name, PlanEntry::Leaf { target: String::from_str(target), priority });
    }

    fn collision(&mut self, target: &str, f: &FileFacts, old_target: &str, g: &FileFacts) -> (r:
        Result<(), Error>)
        ensures
            final(self).config == old(self).config,
            match collide(old(self).config@, old(self)@, target@, f@, old_target@, g@) {
                Ok(env) => r is Ok && final(self)@ == env,
                Err(e) => (r matches Err(x) && x@ == e) && final(self)@ == left_by_collision(
                    old(self).config@,
                    old(self)@,
                    target@,
                    f@,
                    old_target@,
                    g@,
                ),
            },
    {
        let new_ref = Self::quote(target, f);
        let old_ref = Self::quote(old_target, g);
        if self.config.ignore_collisions {
            self.warn(Warning::Collision { new: new_ref, old: old_ref });
            Ok(())
        } else if self.config.check_collision_contents {
            match self.equivalent_facts(old_target, g, target, f) {
                Err(e) => Err(e),
                Ok(true) => Ok(()),
                Ok(false) => Err(Error::Collision { old: old_ref, new: new_ref }),
            }
        } else {
            Err(Error::Collision { old: old_ref, new: new_ref })
        }
    }

    /// Folds the candidate `target`, of name `base_name`, into the plan at the relative path
    /// `rel_name` with `priority`.
    pub fn find_files(
        &mut self,
        world: &World,
        rel_name: &str,
        target: &str,
        base_name: &str,
        priority: i32,
    ) -> (r: Result<(), Error>)
        ensures
            match fold_node(
                world,
                old(self).config@,
                old(self)@,
                rel_name@,
                target@,
                base_name@,
                priority,
            ) {
                Ok(env) => r is Ok && final(self)@ == env,
                Err(e) => (r matches Err(x) && x@ == e) && final(self)@ == left_by_node(
                    world,
                    old(self).config@,
                    old(self)@,
                    rel_name@,
                    target@,
                    base_name@,
                    priority,
                ),
            },
            final(self).config == old(self).config,
            final(self)@.done == old(self)@.done,
            final(self)@.postponed == old(self)@.postponed,
        decreases depth_left(world, target@), 2nat, 0nat,
    {
        proof {
            crate::failure::law_left_by_node_grows(
                world,
                self.config@,
                self@,
                rel_name@,
                target@,
                base_name@,
                priority,
            );
        }
        let f = world.get(target);
        if f.is_file() && self.is_store_path(target) {
            if self.config.ignore_single_file_outputs {
                self.warn(Warning::SingleFileOutput { path: String::from_str(target) });
                return Ok(());
            } else {
                return Err(Error::StorePath { path: String::from_str(target) });
            }
        }
        if is_excluded(rel_name, base_name) || !(self.has_paths_to_link(rel_name)
            || self.is_in_paths_to_link(rel_name)) {
            return Ok(());
        }
        let existing = match self.symlinks.get(rel_name) {
            Some(e) => Some(e.duplicate()),
            None => None,
        };
        match existing {
            None => {
                if f.is_dir() {
                    self.merge_directory(world, rel_name, target, priority)
                } else {
                    self.install_leaf(rel_name, target, f, priority);
                    Ok(())
                }
            },
            Some(PlanEntry::Directory { .. }) => {
                if f.is_dir() {
                    self.merge_directory(world, rel_name, target, priority)
                } else {
                    let nothing = FileFacts::missing();
                    proof {
                        reveal_strlit("");
                        assert(""@ =~= Seq::<char>::empty());
                    }
                    self.collision(target, f, "", &nothing)
                }
            },
            Some(PlanEntry::Leaf { target: old_target, priority: old_priority }) => {
                let g = world.get(old_target.as_str());
                if priority < old_priority && !f.is_dir() {
                    self.install_leaf(rel_name, target, f, priority);
                    Ok(())
                } else if is_same_object(f, g) {
                    if g.symlink && !f.symlink {
                        self.put(
                            rel_name,
                            PlanEntry::Leaf { target: String::from_str(target), priority },
                        );
                    }
                    Ok(())
                } else if priority > old_priority {
                    Ok(())
                } else {
                    self.collision(target, f, old_target.as_str(), g)
                }
            },
        }
    }

    fn merge_directory(&mut self, world: &World, rel_name: &str, target: &str, priority: i32) -> (r:
        Result<(), Error>)
        ensures
            final(self).config == old(self).config,
            match merge_dir(world, old(self).config@, old(self)@, rel_name@, target@, priority) {
                Ok(env) => r is Ok && final(self)@ == env,
                Err(e) => (r matches Err(x) && x@ == e) && final(self)@ == left_by_dir(
                    world,
                    old(self).config@,
                    old(self)@,
                    rel_name@,
                    target@,
                    0,
                    priority,
                ),
            },
        decreases depth_left(world, target@), 1nat, 0nat,
    {
        match self.find_files_in_dir(world, rel_name, target, priority) {
            Err(e) => Err(e),
            Ok(()) => {
                self.put(rel_name, PlanEntry::Directory { priority });
                Ok(())
            },
        }
    }

    /// Folds the entries of the directory `target` into the plan below `rel_name`, in the
    /// order listed, each with `priority`.
    pub fn find_files_in_dir(
        &mut self,
        world: &World,
        rel_name: &str,
        target: &str,
        priority: i32,
    ) -> (r: Result<(), Error>)
        ensures
            final(self).config == old(self).config,
            match fold_dir(world, old(self).config@, old(self)@, rel_name@, target@, 0, priority) {
                Ok(env) => r is Ok && final(self)@ == env,
                Err(e) => (r matches Err(x) && x@ == e) && final(self)@ == left_by_dir(
                    world,
                    old(self).config@,
                    old(self)@,
                    rel_name@,
                    target@,
                    0,
                    priority,
                ),
            },
        decreases depth_left(world, target@), 0nat, 1nat,
    {
        let names = match &world.get(target).entries {
            Ok(names) => names,
            Err(e) => {
                return Err(io_error(target, e, "Failed to read directory"));
            },
        };
        let ghost goal = fold_dir(
            world,
            old(self).config@,
            old(self)@,
            rel_name@,
            target@,
            0,
            priority,
        );
        let ghost left = left_by_dir(
            world,
            old(self).config@,
            old(self)@,
            rel_name@,
            target@,
            0,
            priority,
        );
        let mut i: usize = 0;
        while i < names.len()
            invariant
                i <= names.len(),
                world.facts(target@).entries == Ok::<Seq<Seq<char>>, Seq<char>>(views(names@)),
                self.config == old(self).config,
                goal == fold_dir(
                    world,
                    old(self).config@,
                    old(self)@,
                    rel_name@,
                    target@,
                    0,
                    priority,
                ),
                goal == fold_dir(world, self.config@, self@, rel_name@, target@, i as nat, priority),
                left == left_by_dir(
                    world,
                    old(self).config@,
                    old(self)@,
                    rel_name@,
                    target@,
                    0,
                    priority,
                ),
                left == left_by_dir(world, self.config@, self@, rel_name@, target@, i as nat, priority),
            decreases names.len() - i,
        {
            let name = names[i].as_str();
            assert(views(names@)[i as int] == name@);
            if !(str_equal(name, ".") || str_equal(name, "..")) {
                let child_rel = join_child(rel_name, name);
                let child = join_child(target, name);
                match self.find_files(world, child_rel.as_str(), child.as_str(), name, priority) {
                    Err(e) => {
                        return Err(e);
                    },
                    Ok(()) => {},
                }
            }
            i += 1;
        }
        match &world.get(target).broken {
            Some(e) => Err(io_error(target, e, "Failed to read directory entry")),
            None => Ok(()),
        }
    }
}

} // verus!
