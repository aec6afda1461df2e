//! Paths as text, and the two questions asked of a relative path against the paths to link.
//!
//! A relative path is the empty text for the root of the environment, and otherwise starts
//! with `/` and has no trailing `/`. The child `name` of a directory `dir` is always written
//! `dir/name`.

use vstd::prelude::*;
use vstd::string::*;
use crate::text::{str_equal, str_starts_with, views};
use crate::world::option_view;

verus! {

/// The path of the entry `name` inside the directory `dir`.
pub open spec fn child_path(dir: Seq<char>, name: Seq<char>) -> Seq<char> {
    dir + seq!['/'] + name
}

/// `p` is `base` itself or lies below it.
pub open spec fn descends(p: Seq<char>, base: Seq<char>) -> bool {
    p == base || (base.is_prefix_of(p) && base.len() < p.len() && p[base.len() as int] == '/')
}

/// `p`, with the root written as `/`.
pub open spec fn rooted(p: Seq<char>) -> Seq<char> {
    if p.len() == 0 {
        seq!['/']
    } else {
        p
    }
}

/// `p` is one of the paths to link or lies below one; the path `/` asks for everything.
pub open spec fn is_wanted(paths: Seq<Seq<char>>, p: Seq<char>) -> bool {
    exists|i: int|
        0 <= i < paths.len() && (#[trigger] paths[i] == seq!['/'] || descends(rooted(p), paths[i]))
}

/// `p` is the root, or one of the paths to link is `p` itself or lies below `p`.
pub open spec fn leads_to_wanted(paths: Seq<Seq<char>>, p: Seq<char>) -> bool {
    p.len() == 0 || exists|i: int| 0 <= i < paths.len() && descends(#[trigger] paths[i], p)
}

/// A path is visited when it is wanted or leads to something wanted.
pub open spec fn is_visited(paths: Seq<Seq<char>>, p: Seq<char>) -> bool {
    is_wanted(paths, p) || leads_to_wanted(paths, p)
}

/// `s` without its leading `/` characters.
pub open spec fn strip_slashes(s: Seq<char>) -> Seq<char>
    decreases s.len(),
{
    if s.len() > 0 && s[0] == '/' {
        strip_slashes(s.skip(1))
    } else {
        s
    }
}

/// A path is absolute when it starts at the root `/`.
pub open spec fn is_absolute(p: Seq<char>) -> bool {
    p.len() > 0 && p[0] == '/'
}

/// The parent of a path, as `std::path::Path::parent` gives it: the path without its last
/// component, or `None` where it has none or ends in a root.
pub uninterp spec fn parent_of(p: Seq<char>) -> Option<Seq<char>>;

/// Whether two paths are equal as `std::path::Path` compares them, component by component.
pub uninterp spec fn paths_agree(a: Seq<char>, b: Seq<char>) -> bool;

/// Calls `std::path::Path::parent` on the path and returns the parent as an owned string.
#[verifier::external_body]
pub(crate) fn path_parent(p: &str) -> (r: Option<String>)
    ensures
        option_view(r) == parent_of(p@),
{
    std::path::Path::new(p).parent().and_then(|q| q.to_str()).map(String::from)
}

/// Compares two paths with `std::path::Path`'s `==`.
#[verifier::external_body]
pub(crate) fn same_path(a: &str, b: &str) -> (r: bool)
    ensures
        r == paths_agree(a@, b@),
{
    std::path::Path::new(a) == std::path::Path::new(b)
}

/// Builds the path of the entry `name` inside the directory `dir`.
pub fn join_child(dir: &str, name: &str) -> (r: String)
    ensures
        r@ == child_path(dir@, name@),
{
    let mut out = String::from_str(dir);
    out.append("/");
    out.append(name);
    proof {
        reveal_strlit("/");
        assert("/"@ =~= seq!['/']);
    }
    out
}

/// Whether `p` is `base` itself or lies below it.
pub fn path_descends(p: &str, base: &str) -> (r: bool)
    ensures
        r == descends(p@, base@),
{
    if str_equal(p, base) {
        return true;
    }
    if !str_starts_with(p, base) {
        return false;
    }
    let n = base.unicode_len();
    if n < p.unicode_len() {
        p.get_char(n) == '/'
    } else {
        false
    }
}

/// Whether `path` is one of `paths` or lies below one; the entry `/` asks for everything.
pub fn wanted(paths: &Vec<String>, path: &str) -> (r: bool)
    ensures
        r == is_wanted(views(paths@), path@),
{
    proof {
        reveal_strlit("/");
        assert("/"@ =~= seq!['/']);
    }
    let q: &str = if path.unicode_len() == 0 { "/" } else { path };
    assert(q@ == rooted(path@));
    let mut i: usize = 0;
    while i < paths.len()
        invariant
            i <= paths.len(),
            q@ == rooted(path@),
            "/"@ == seq!['/'],
            forall|j: int|
                0 <= j < i ==> !(paths@[j]@ == seq!['/'] || descends(rooted(path@), paths@[j]@)),
        decreases paths.len() - i,
    {
        let elem = paths[i].as_str();
        if str_equal(elem, "/") || path_descends(q, elem) {
            assert(views(paths@)[i as int] == paths@[i as int]@);
            return true;
        }
        i += 1;
    }
    assert forall|j: int| 0 <= j < views(paths@).len() implies !(#[trigger] views(paths@)[j]
        == seq!['/'] || descends(rooted(path@), views(paths@)[j])) by {
        assert(views(paths@)[j] == paths@[j]@);
    }
    false
}

/// Whether `path` is the root or one of `paths` is `path` itself or lies below it.
pub fn leads_to(paths: &Vec<String>, path: &str) -> (r: bool)
    ensures
        r == leads_to_wanted(views(paths@), path@),
{
    if path.unicode_len() == 0 {
        return true;
    }
    let mut i: usize = 0;
    while i < paths.len()
        invariant
            i <= paths.len(),
            forall|j: int| 0 <= j < i ==> !descends(paths@[j]@, path@),
        decreases paths.len() - i,
    {
        if path_descends(paths[i].as_str(), path) {
            assert(views(paths@)[i as int] == paths@[i as int]@);
            return true;
        }
        i += 1;
    }
    assert forall|j: int| 0 <= j < views(paths@).len() implies !descends(
        #[trigger] views(paths@)[j],
        path@,
    ) by {
        assert(views(paths@)[j] == paths@[j]@);
    }
    false
}

/// Removes the leading `/` characters of `s`.
pub fn strip_leading_slashes(s: &str) -> (r: String)
    ensures
        r@ == strip_slashes(s@),
{
    let n = s.unicode_len();
    let mut i: usize = 0;
    assert(s@.skip(0) =~= s@);
    while i < n && s.get_char(i) == '/'
        invariant
            n == s@.len(),
            i <= n,
            strip_slashes(s@) == strip_slashes(s@.skip(i as int)),
        decreases n - i,
    {
        assert(s@.skip(i as int).skip(1) =~= s@.skip(i as int + 1));
        i += 1;
    }
    assert(s@.skip(i as int) =~= s@.subrange(i as int, n as int));
    String::from_str(s.substring_char(i, n))
}

/// Whether `p` starts at the root `/`.
pub fn starts_at_root(p: &str) -> (r: bool)
    ensures
        r == is_absolute(p@),
{
    p.unicode_len() > 0 && p.get_char(0) == '/'
}

/// A child lies strictly deeper than its directory.
pub proof fn child_path_is_longer(dir: Seq<char>, name: Seq<char>)
    ensures
        child_path(dir, name).len() == dir.len() + 1 + name.len(),
{
}

/// Distinct directories have distinct children of the same name.
pub proof fn child_path_is_injective(a: Seq<char>, b: Seq<char>, name: Seq<char>)
    requires
        child_path(a, name) == child_path(b, name),
    ensures
        a == b,
{
    child_path_is_longer(a, name);
    child_path_is_longer(b, name);
    assert(a.len() == b.len());
    assert(a =~= child_path(a, name).subrange(0, a.len() as int));
    assert(b =~= child_path(b, name).subrange(0, b.len() as int));
}

} // verus!
