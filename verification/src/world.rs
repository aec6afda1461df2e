//! A snapshot of the file system: what is known of each path that planning may ask about.
//!
//! Planning never touches the file system. Whoever calls it records beforehand, for each path
//! of the package trees, what the file system says of it, and planning reads that record. A
//! path that was not recorded counts as one that does not exist.

use vstd::prelude::*;
use vstd::hash_map::StringHashMap;
use crate::text::views;

verus! {

/// What kind of object a path resolves to, symbolic links followed.
#[derive(Clone, Copy, Debug, PartialEq, Eq, Structural)]
pub enum FileKind {
    /// A regular file.
    File,
    /// A directory.
    Dir,
    /// Anything else, told apart by the file-type bits of its mode.
    Other(u32),
}

/// The status of the object a path resolves to.
#[derive(Clone, Copy, Debug, PartialEq, Eq, Structural)]
pub struct FileStatus {
    pub kind: FileKind,
    /// The mode as the file system reports it; only its low twelve bits are permissions.
    pub mode: u32,
}

/// What the file system says of one path.
#[derive(Debug)]
pub struct FileFacts {
    /// The path itself is a symbolic link.
    pub symlink: bool,
    /// Where the link points, if the path is a link that could be read.
    pub link_text: Option<String>,
    /// The status of what the path resolves to; `None` when it resolves to nothing.
    pub status: Option<FileStatus>,
    /// The canonical form of the path, if it has one.
    pub canonical: Option<String>,
    /// The names in the directory, in the order listed, or why it could not be listed.
    pub entries: Result<Vec<String>, String>,
    /// Why the listing broke off after these names, if it did.
    pub broken: Option<String>,
    /// The bytes of the file, or why it could not be read.
    pub content: Result<Vec<u8>, String>,
}

/// The mathematical content of a [`FileFacts`].
pub struct Facts {
    pub symlink: bool,
    pub link_text: Option<Seq<char>>,
    pub status: Option<FileStatus>,
    pub canonical: Option<Seq<char>>,
    pub entries: Result<Seq<Seq<char>>, Seq<char>>,
    pub broken: Option<Seq<char>>,
    pub content: Result<Seq<u8>, Seq<char>>,
}

impl Facts {
    /// The facts of a path that does not exist.
    pub open spec fn absent() -> Facts {
        Facts {
            symlink: false,
            link_text: None,
            status: None,
            canonical: None,
            entries: Err(Seq::empty()),
            broken: None,
            content: Err(Seq::empty()),
        }
    }

    /// The path resolves to something.
    pub open spec fn resolves(self) -> bool {
        self.status is Some
    }

    /// The path resolves to a directory.
    pub open spec fn is_dir(self) -> bool {
        self.status matches Some(s) && s.kind is Dir
    }

    /// The path resolves to a regular file.
    pub open spec fn is_file(self) -> bool {
        self.status matches Some(s) && s.kind is File
    }

    /// The path is a symbolic link that resolves to nothing.
    pub open spec fn dangling(self) -> bool {
        self.symlink && !self.resolves()
    }
}

/// The view of an optional string.
pub open spec fn option_view(o: Option<String>) -> Option<Seq<char>> {
    match o {
        Some(s) => Some(s@),
        None => None,
    }
}

impl View for FileFacts {
    type V = Facts;

    open spec fn view(&self) -> Facts {
        Facts {
            symlink: self.symlink,
            link_text: option_view(self.link_text),
            status: self.status,
            canonical: option_view(self.canonical),
            entries: match self.entries {
                Ok(v) => Ok(views(v@)),
                Err(e) => Err(e@),
            },
            broken: option_view(self.broken),
            content: match self.content {
                Ok(v) => Ok(v@),
                Err(e) => Err(e@),
            },
        }
    }
}

impl FileFacts {
    /// The facts of a path that does not exist.
    pub fn missing() -> (r: FileFacts)
        ensures
            r@ == Facts::absent(),
    {
        FileFacts {
            symlink: false,
            link_text: None,
            status: None,
            canonical: None,
            entries: Err(String::new()),
            broken: None,
            content: Err(String::new()),
        }
    }

    /// The facts of a regular file with the given mode and bytes, reached without a link.
    pub fn regular(canonical: String, mode: u32, bytes: Vec<u8>) -> (r: FileFacts)
        ensures
            r@ == (Facts {
                symlink: false,
                link_text: None,
                status: Some(FileStatus { kind: FileKind::File, mode }),
                canonical: Some(canonical@),
                entries: Err(Seq::empty()),
                broken: None,
                content: Ok(bytes@),
            }),
    {
        FileFacts {
            symlink: false,
            link_text: None,
            status: Some(FileStatus { kind: FileKind::File, mode }),
            canonical: Some(canonical),
            entries: Err(String::new()),
            broken: None,
            content: Ok(bytes),
        }
    }

    /// The facts of a directory with the given mode and entry names, reached without a link.
    pub fn directory(canonical: String, mode: u32, names: Vec<String>) -> (r: FileFacts)
        ensures
            r@ == (Facts {
                symlink: false,
                link_text: None,
                status: Some(FileStatus { kind: FileKind::Dir, mode }),
                canonical: Some(canonical@),
                entries: Ok(views(names@)),
                broken: None,
                content: Err(Seq::empty()),
            }),
    {
        FileFacts {
            symlink: false,
            link_text: None,
            status: Some(FileStatus { kind: FileKind::Dir, mode }),
            canonical: Some(canonical),
            entries: Ok(names),
            broken: None,
            content: Err(String::new()),
        }
    }

    /// The facts of a symbolic link that resolves to nothing.
    pub fn dangling_link(link_text: String) -> (r: FileFacts)
        ensures
            r@ == (Facts { symlink: true, link_text: Some(link_text@), ..Facts::absent() }),
    {
        FileFacts {
            symlink: true,
            link_text: Some(link_text),
            status: None,
            canonical: None,
            entries: Err(String::new()),
            broken: None,
            content: Err(String::new()),
        }
    }

    /// The path resolves to something.
    pub fn resolves(&self) -> (r: bool)
        ensures
            r == self@.resolves(),
    {
        self.status.is_some()
    }

    /// The path resolves to a directory.
    pub fn is_dir(&self) -> (r: bool)
        ensures
            r == self@.is_dir(),
    {
        match self.status {
            Some(s) => match s.kind {
                FileKind::Dir => true,
                _ => false,
            },
            None => false,
        }
    }

    /// The path resolves to a regular file.
    pub fn is_file(&self) -> (r: bool)
        ensures
            r == self@.is_file(),
    {
        match self.status {
            Some(s) => match s.kind {
                FileKind::File => true,
                _ => false,
            },
            None => false,
        }
    }

    /// The path is a symbolic link that resolves to nothing.
    pub fn dangling(&self) -> (r: bool)
        ensures
            r == self@.dangling(),
    {
        self.symlink && self.status.is_none()
    }
}

/// A snapshot of the file system, keyed by path.
pub struct World {
    map: StringHashMap<FileFacts>,
    limit: usize,
    missing: FileFacts,
}

impl World {
    #[verifier::type_invariant]
    spec fn recorded_paths_are_short(self) -> bool {
        &&& forall|p: Seq<char>| self.map@.contains_key(p) ==> p.len() <= self.limit
        &&& self.missing@ == Facts::absent()
        &&& self.map@.dom().finite()
    }

    /// What was recorded, by path.
    pub closed spec fn recorded(&self) -> Map<Seq<char>, Facts> {
        self.map@.map_values(|f: FileFacts| f@)
    }

    /// No recorded path is longer than this.
    pub closed spec fn limit(&self) -> nat {
        self.limit as nat
    }

    /// What is known of the path `p`: what was recorded, or that it does not exist.
    pub open spec fn facts(&self, p: Seq<char>) -> Facts {
        if self.recorded().contains_key(p) && p.len() <= self.limit() {
            self.recorded()[p]
        } else {
            Facts::absent()
        }
    }

    /// The snapshot is one that a file system can give: below what is no directory, nothing
    /// resolves.
    pub open spec fn consistent(&self) -> bool {
        forall|dir: Seq<char>, name: Seq<char>|
            !self.facts(dir).is_dir() ==> !(#[trigger] self.facts(
                crate::paths::child_path(dir, name),
            )).resolves()
    }

    /// A snapshot in which no path exists.
    pub fn new() -> (r: World)
        ensures
            r.recorded() == Map::<Seq<char>, Facts>::empty(),
            forall|p: Seq<char>| r.facts(p) == Facts::absent(),
    {
        let w = World { map: StringHashMap::new(), limit: 0, missing: FileFacts::missing() };
        assert(w.recorded() =~= Map::<Seq<char>, Facts>::empty());
        w
    }

    /// Records the facts of one path, replacing what was recorded of it before.
    pub fn insert(&mut self, path: String, facts: FileFacts)
        ensures
            final(self).recorded() == old(self).recorded().insert(path@, facts@),
            forall|p: Seq<char>|
                #[trigger] final(self).facts(p) == if p == path@ {
                    facts@
                } else {
                    old(self).facts(p)
                },
    {
        proof {
            use_type_invariant(&*self);
        }
        let n = path.as_str().unicode_len();
        let limit = if n > self.limit { n } else { self.limit };
        let ghost before = self.map@;
        let mut taken = World::new();
        std::mem::swap(&mut taken, self);
        let World { mut map, limit: _, missing } = taken;
        map.insert(path, facts);
        assert(map@ == before.insert(path@, facts));
        assert(map@.map_values(|f: FileFacts| f@) =~= before.map_values(|f: FileFacts| f@).insert(
            path@,
            facts@,
        ));
        *self = World { map, limit, missing };
    }

    /// How many paths were recorded. There are finitely many.
    pub fn len(&self) -> (r: usize)
        ensures
            r == self.recorded().len(),
            self.recorded().dom().finite(),
    {
        proof {
            use_type_invariant(self);
            assert(self.recorded().dom() =~= self.map@.dom());
        }
        self.map.len()
    }

    /// What was recorded of `path`, if anything.
    pub fn lookup(&self, path: &str) -> (r: Option<&FileFacts>)
        ensures
            match r {
                Some(f) => self.recorded().contains_key(path@) && f@ == self.facts(path@),
                None => !self.recorded().contains_key(path@) && self.facts(path@)
                    == Facts::absent(),
            },
    {
        proof {
            use_type_invariant(self);
        }
        self.map.get(path)
    }

    /// What is known of `path`: what was recorded, or that it does not exist.
    pub fn get(&self, path: &str) -> (r: &FileFacts)
        ensures
            r@ == self.facts(path@),
    {
        proof {
            use_type_invariant(self);
        }
        match self.map.get(path) {
            Some(f) => f,
            None => &self.missing,
        }
    }
}

} // verus!
