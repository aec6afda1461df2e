//! The plan: for each relative path of the environment, a directory to create or a single
//! object to link to.

use vstd::prelude::*;
use vstd::hash_map::StringHashMap;
use crate::text::views;

verus! {

/// What the plan holds for one relative path.
#[derive(Debug)]
pub enum PlanEntry {
    /// The path is a directory into which packages are merged. The priority is that of the
    /// package that touched it last.
    Directory { priority: i32 },
    /// The path is a link to `target`, contributed at `priority`.
    Leaf { target: String, priority: i32 },
}

/// The mathematical content of a [`PlanEntry`].
pub enum Entry {
    Directory { priority: i32 },
    Leaf { target: Seq<char>, priority: i32 },
}

impl Entry {
    /// The priority recorded with the entry.
    pub open spec fn priority(self) -> i32 {
        match self {
            Entry::Directory { priority } => priority,
            Entry::Leaf { priority, .. } => priority,
        }
    }
}

impl View for PlanEntry {
    type V = Entry;

    open spec fn view(&self) -> Entry {
        match *self {
            PlanEntry::Directory { priority } => Entry::Directory { priority },
            PlanEntry::Leaf { target, priority } => Entry::Leaf { target: target@, priority },
        }
    }
}

impl PlanEntry {
    /// A copy of the entry.
    pub fn duplicate(&self) -> (r: PlanEntry)
        ensures
            r@ == self@,
    {
        match self {
            PlanEntry::Directory { priority } => PlanEntry::Directory { priority: *priority },
            PlanEntry::Leaf { target, priority } => PlanEntry::Leaf {
                target: target.clone(),
                priority: *priority,
            },
        }
    }
}

/// A plan: entries by relative path, and the paths in the order in which they first came.
pub struct Plan {
    map: StringHashMap<PlanEntry>,
    order: Vec<String>,
}

impl View for Plan {
    type V = Map<Seq<char>, Entry>;

    closed spec fn view(&self) -> Map<Seq<char>, Entry> {
        self.map@.map_values(|e: PlanEntry| e@)
    }
}

impl Plan {
    #[verifier::type_invariant]
    spec fn order_lists_the_keys(self) -> bool {
        &&& views(self.order@).no_duplicates()
        &&& forall|i: int|
            0 <= i < self.order@.len() ==> self.map@.contains_key(#[trigger] self.order@[i]@)
        &&& forall|k: Seq<char>| self.map@.contains_key(k) ==> views(self.order@).contains(k)
    }

    /// The paths of the plan, each once, in the order in which they first came.
    pub closed spec fn keys(&self) -> Seq<Seq<char>> {
        views(self.order@)
    }

    /// The plan without entries.
    pub fn new() -> (r: Plan)
        ensures
            r@ == Map::<Seq<char>, Entry>::empty(),
            r.keys() == Seq::<Seq<char>>::empty(),
    {
        let p = Plan { map: StringHashMap::new(), order: Vec::new() };
        assert(p@ =~= Map::<Seq<char>, Entry>::empty());
        assert(p.keys() =~= Seq::<Seq<char>>::empty());
        p
    }

    /// The entry at `key`, if there is one.
    pub fn get(&self, key: &str) -> (r: Option<&PlanEntry>)
        ensures
            match r {
                Some(e) => self@.contains_key(key@) && e@ == self@[key@],
                None => !self@.contains_key(key@),
            },
    {
        self.map.get(key)
    }

    /// Puts `entry` at `key`, replacing what was there. A new key goes to the end of the order.
    pub fn insert(&mut self, key: String, entry: PlanEntry)
        ensures
            final(self)@ == old(self)@.insert(key@, entry@),
            final(self).keys() == if old(self)@.contains_key(key@) {
                old(self).keys()
            } else {
                old(self).keys().push(key@)
            },
    {
        proof {
            use_type_invariant(&*self);
        }
        let ghost before = self.map@;
        let ghost keys = views(self.order@);
        let ghost listed = self.order@;
        let mut taken = Plan { map: StringHashMap::new(), order: Vec::new() };
        std::mem::swap(&mut taken, self);
        let Plan { mut map, mut order } = taken;
        let present = map.contains_key(key.as_str());
        if !present {
            order.push(key.clone());
            assert(views(order@) =~= keys.push(key@));
            assert(!keys.contains(key@)) by {
                if keys.contains(key@) {
                    let i = choose|i: int| 0 <= i < keys.len() && keys[i] == key@;
                    assert(before.contains_key(listed[i]@));
                }
            }
        }
        map.insert(key, entry);
        assert(map@.map_values(|e: PlanEntry| e@) =~= before.map_values(|e: PlanEntry| e@).insert(
            key@,
            entry@,
        ));
        assert forall|k: Seq<char>| map@.contains_key(k) implies views(order@).contains(k) by {
            if k == key@ {
                if present {
                    assert(keys.contains(k));
                } else {
                    assert(views(order@)[keys.len() as int] == k);
                }
            } else {
                assert(before.contains_key(k));
                let i = choose|i: int| 0 <= i < keys.len() && keys[i] == k;
                assert(views(order@)[i] == k);
            }
        }
        assert forall|i: int| 0 <= i < order@.len() implies map@.contains_key(
            #[trigger] order@[i]@,
        ) by {
            if i < keys.len() {
                assert(order@[i]@ == views(order@)[i]);
                assert(views(order@)[i] == keys[i]);
                assert(keys[i] == listed[i]@);
                assert(before.contains_key(listed[i]@));
            } else {
                assert(order@[i]@ == key@);
            }
        }
        *self = Plan { map, order };
    }

    /// How many paths the plan holds.
    pub fn len(&self) -> (r: usize)
        ensures
            r == self.keys().len(),
            self.keys().no_duplicates(),
            self.keys().to_set() == self@.dom(),
    {
        proof {
            use_type_invariant(self);
            assert(self.keys().to_set() =~= self@.dom()) by {
                assert forall|k: Seq<char>| self.keys().to_set().contains(k) implies self@.dom()
                    .contains(k) by {
                    let i = choose|i: int| 0 <= i < self.keys().len() && self.keys()[i] == k;
                    assert(self.map@.contains_key(self.order@[i]@));
                }
            }
        }
        self.order.len()
    }

    /// The `i`-th path of the plan and its entry, if the plan holds that many.
    pub fn at(&self, i: usize) -> (r: Option<(&String, &PlanEntry)>)
        ensures
            match r {
                Some(found) => i < self.keys().len() && found.0@ == self.keys()[i as int]
                    && self@.contains_key(found.0@) && found.1@ == self@[found.0@],
                None => i >= self.keys().len(),
            },
    {
        proof {
            use_type_invariant(self);
        }
        if i >= self.order.len() {
            return None;
        }
        let key = &self.order[i];
        assert(self.map@.contains_key(self.order@[i as int]@));
        match self.map.get(key.as_str()) {
            Some(entry) => Some((key, entry)),
            None => None,
        }
    }
}

} // verus!
