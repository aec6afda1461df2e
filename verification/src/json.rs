//! The list of packages: a JSON array of objects, each with its `paths` and its `priority`.
//!
//! The JSON text is parsed by the `tinyjson` crate. What it parsed is copied into [`Json`],
//! and reading the packages out of a [`Json`] is verified. What a text parses to goes by the
//! name [`json_value`]: a tree in which an object is a map by the names of its fields.

use vstd::prelude::*;
use vstd::string::*;
use crate::error::{Error, Failure};
use crate::text::str_equal;

verus! {

broadcast use {vstd::std_specs::vec::group_vec_axioms, vstd::seq::group_seq_axioms};

/// A value that `tinyjson` parsed.
#[verifier::external_type_specification]
#[verifier::external_body]
pub struct ExJsonValue(tinyjson::JsonValue);

/// A JSON value. A number is kept as the integer it is cut to; the fields of an object are
/// kept in no particular order, each name once.
#[derive(Debug)]
pub enum Json {
    Null,
    Boolean(bool),
    Number(i32),
    Text(String),
    Array(Vec<Json>),
    Object(Vec<(String, Json)>),
}

/// A package: the roots that make it up and its priority, where the lower number wins.
#[derive(Debug)]
pub struct Package {
    pub paths: Vec<String>,
    pub priority: i32,
}

/// The mathematical content of a [`Package`].
pub struct PackageSpec {
    pub paths: Seq<Seq<char>>,
    pub priority: i32,
}

impl View for Package {
    type V = PackageSpec;

    open spec fn view(&self) -> PackageSpec {
        PackageSpec { paths: crate::text::views(self.paths@), priority: self.priority }
    }
}

/// The views of a sequence of packages, in order.
pub open spec fn package_views(p: Seq<Package>) -> Seq<PackageSpec> {
    p.map_values(|x: Package| x@)
}

/// What a JSON value says: the tree of its values, in which an object is a map by the names
/// of its fields, whatever their order.
pub enum JsonTree {
    Null,
    Boolean(bool),
    Number(i32),
    Text(Seq<char>),
    Array(Seq<JsonTree>),
    Object(Map<Seq<char>, JsonTree>),
}

/// What a [`Json`] says.
pub open spec fn json_view(j: Json) -> JsonTree
    decreases j, 0nat,
{
    match j {
        Json::Null => JsonTree::Null,
        Json::Boolean(b) => JsonTree::Boolean(b),
        Json::Number(n) => JsonTree::Number(n),
        Json::Text(s) => JsonTree::Text(s@),
        Json::Array(items) => JsonTree::Array(items_view(items, items@.len())),
        Json::Object(fields) => JsonTree::Object(fields_view(fields, fields@.len())),
    }
}

/// What the first `n` items say, in order.
pub open spec fn items_view(items: Vec<Json>, n: nat) -> Seq<JsonTree>
    decreases items, n,
{
    if n == 0 || n > items@.len() {
        Seq::empty()
    } else {
        items_view(items, (n - 1) as nat).push(json_view(items@[n - 1]))
    }
}

/// What the first `n` fields say, by name. Of two fields of one name the first counts.
pub open spec fn fields_view(fields: Vec<(String, Json)>, n: nat) -> Map<Seq<char>, JsonTree>
    decreases fields, n,
{
    if n == 0 || n > fields@.len() {
        Map::empty()
    } else {
        let before = fields_view(fields, (n - 1) as nat);
        let name = fields@[n - 1].0@;
        if before.contains_key(name) {
            before
        } else {
            before.insert(name, json_view(fields@[n - 1].1))
        }
    }
}

/// What a text parses to: what the value says that `str::parse` for `tinyjson::JsonValue`
/// gives for the text, each number cut to an `i32` as a cast does; nothing where the text
/// does not parse.
pub uninterp spec fn json_value(text: Seq<char>) -> Option<JsonTree>;

/// Copies a `tinyjson::JsonValue` into a [`Json`], variant by variant. A number is cut to
/// an `i32` as a cast does.
#[verifier::external_body]
fn copy_value(v: &tinyjson::JsonValue) -> (r: Json) {
    match v {
        tinyjson::JsonValue::Null => Json::Null,
        tinyjson::JsonValue::Boolean(b) => Json::Boolean(*b),
        tinyjson::JsonValue::Number(n) => Json::Number(*n as i32),
        tinyjson::JsonValue::String(s) => Json::Text(s.clone()),
        tinyjson::JsonValue::Array(a) => Json::Array(a.iter().map(copy_value).collect()),
        tinyjson::JsonValue::Object(o) => Json::Object(
            o.iter().map(|(k, x)| (k.clone(), copy_value(x))).collect(),
        ),
    }
}

/// Calls `str::parse` for `tinyjson::JsonValue`, which runs `tinyjson`'s parser over the
/// characters of the text, and copies the value it gives. The parser reads nothing but the
/// text, so whether the text parses, and what the value says, depends on the text alone; the
/// order in which the fields of an object are copied does not, and the tree leaves it out.
/// A parse error is handed out as the words that its `Display` writes; nothing is claimed of
/// them.
#[verifier::external_body]
fn parse_text(text: &str) -> (r: Result<Json, String>)
    ensures
        match r {
            Ok(j) => json_value(text@) == Some(json_view(j)),
            Err(_) => json_value(text@) is None,
        },
{
    match text.parse::<tinyjson::JsonValue>() {
        Ok(v) => Ok(copy_value(&v)),
        Err(e) => Err(format!("{}", e)),
    }
}

/// The failure to make sense of the list of packages.
pub open spec fn json_failure(message: Seq<char>) -> Failure {
    Failure::Json { message }
}

/// The field of that name, if the object has one.
pub open spec fn field(fields: Map<Seq<char>, JsonTree>, name: Seq<char>) -> Option<JsonTree> {
    if fields.contains_key(name) {
        Some(fields[name])
    } else {
        None
    }
}

/// The first `n` of the items as texts, or the failure at the first that is none.
pub open spec fn texts_of(items: Seq<JsonTree>, n: nat) -> Result<Seq<Seq<char>>, Failure>
    decreases n,
{
    if n == 0 {
        Ok(Seq::empty())
    } else {
        match texts_of(items, (n - 1) as nat) {
            Err(e) => Err(e),
            Ok(texts) => match items[n - 1] {
                JsonTree::Text(s) => Ok(texts.push(s)),
                _ => Err(json_failure("Path must be a string"@)),
            },
        }
    }
}

/// The priority that an object gives: its `priority` if that is a number, else 0.
pub open spec fn priority_of(fields: Map<Seq<char>, JsonTree>) -> i32 {
    match field(fields, "priority"@) {
        Some(JsonTree::Number(n)) => n,
        _ => 0,
    }
}

/// The package that an item of the list describes: an object whose `paths` is an array of
/// texts.
pub open spec fn package_of(item: JsonTree) -> Result<PackageSpec, Failure> {
    match item {
        JsonTree::Object(fields) => match field(fields, "paths"@) {
            None => Err(json_failure("Missing 'paths' field"@)),
            Some(JsonTree::Array(paths)) => match texts_of(paths, paths.len()) {
                Err(e) => Err(e),
                Ok(texts) => Ok(PackageSpec { paths: texts, priority: priority_of(fields) }),
            },
            Some(_) => Err(json_failure("'paths' must be an array"@)),
        },
        _ => Err(json_failure("Expected package object"@)),
    }
}

/// The packages that the first `n` items describe, or the failure at the first that
/// describes none.
pub open spec fn packages_from(items: Seq<JsonTree>, n: nat) -> Result<Seq<PackageSpec>, Failure>
    decreases n,
{
    if n == 0 {
        Ok(Seq::empty())
    } else {
        match packages_from(items, (n - 1) as nat) {
            Err(e) => Err(e),
            Ok(packages) => match package_of(items[n - 1]) {
                Err(e) => Err(e),
                Ok(p) => Ok(packages.push(p)),
            },
        }
    }
}

/// The packages that a JSON value lists: it has to be an array of packages.
pub open spec fn packages_of(tree: JsonTree) -> Result<Seq<PackageSpec>, Failure> {
    match tree {
        JsonTree::Array(items) => packages_from(items, items.len()),
        _ => Err(json_failure("Expected JSON array of packages"@)),
    }
}

fn json_error(message: &str) -> (r: Error)
    ensures
        r@ == json_failure(message@),
{
    Error::Json { message: String::from_str(message) }
}

/// The first `n` items say what each of them says, in order.
pub proof fn lemma_items_view(items: Vec<Json>, n: nat)
    requires
        n <= items@.len(),
    ensures
        items_view(items, n).len() == n,
        forall|k: int| 0 <= k < n ==> #[trigger] items_view(items, n)[k] == json_view(items@[k]),
    decreases n,
{
    if n > 0 {
        lemma_items_view(items, (n - 1) as nat);
    }
}

/// Among the first `n` fields, the first of a name is the one that counts.
pub proof fn lemma_field_found(fields: Vec<(String, Json)>, n: nat, i: int, name: Seq<char>)
    requires
        0 <= i < n <= fields@.len(),
        fields@[i].0@ == name,
        forall|j: int| 0 <= j < i ==> fields@[j].0@ != name,
    ensures
        field(fields_view(fields, n), name) == Some(json_view(fields@[i].1)),
    decreases n,
{
    if n - 1 > i {
        lemma_field_found(fields, (n - 1) as nat, i, name);
    } else {
        lemma_field_missing(fields, (n - 1) as nat, name);
    }
}

/// Where none of the first `n` fields has a name, the object has no field of that name.
pub proof fn lemma_field_missing(fields: Vec<(String, Json)>, n: nat, name: Seq<char>)
    requires
        n <= fields@.len(),
        forall|j: int| 0 <= j < n ==> fields@[j].0@ != name,
    ensures
        field(fields_view(fields, n), name) is None,
    decreases n,
{
    if n > 0 {
        lemma_field_missing(fields, (n - 1) as nat, name);
    }
}

/// Finds the field of that name: the first, where there are several.
pub fn find_field<'a>(fields: &'a Vec<(String, Json)>, name: &str) -> (r: Option<&'a Json>)
    ensures
        match r {
            Some(v) => field(fields_view(*fields, fields@.len()), name@) == Some(json_view(*v)),
            None => field(fields_view(*fields, fields@.len()), name@) is None,
        },
{
    let mut i: usize = 0;
    while i < fields.len()
        invariant
            i <= fields.len(),
            forall|j: int| 0 <= j < i ==> fields@[j].0@ != name@,
        decreases fields.len() - i,
    {
        if str_equal(fields[i].0.as_str(), name) {
            proof {
                lemma_field_found(*fields, fields@.len(), i as int, name@);
            }
            return Some(&fields[i].1);
        }
        i += 1;
    }
    proof {
        lemma_field_missing(*fields, fields@.len(), name@);
    }
    None
}

#[verifier::loop_isolation(false)]
fn read_package(item: &Json) -> (r: Result<Package, Error>)
    ensures
        match package_of(json_view(*item)) {
            Ok(p) => r matches Ok(x) && x@ == p,
            Err(e) => r matches Err(x) && x@ == e,
        },
{
    let fields = match item {
        Json::Object(fields) => fields,
        _ => {
            return Err(json_error("Expected package object"));
        },
    };
    let items = match find_field(fields, "paths") {
        None => {
            return Err(json_error("Missing 'paths' field"));
        },
        Some(Json::Array(items)) => items,
        Some(_) => {
            return Err(json_error("'paths' must be an array"));
        },
    };
    let ghost said = items_view(*items, items@.len());
    proof {
        lemma_items_view(*items, items@.len());
    }
    let mut paths: Vec<String> = Vec::new();
    let mut i: usize = 0;
    assert(crate::text::views(paths@) =~= Seq::<Seq<char>>::empty());
    while i < items.len()
        invariant
            i <= items.len(),
            texts_of(said, i as nat) == Ok::<Seq<Seq<char>>, Failure>(crate::text::views(paths@)),
        decreases items.len() - i,
    {
        let ghost before = crate::text::views(paths@);
        assert(said[i as int] == json_view(items@[i as int]));
        match &items[i] {
            Json::Text(s) => {
                paths.push(s.clone());
                assert(crate::text::views(paths@) =~= before.push(s@));
            },
            _ => {
                proof {
                    lemma_texts_fail(said, (i + 1) as nat, said.len());
                }
                return Err(json_error("Path must be a string"));
            },
        }
        i += 1;
    }
    let priority = match find_field(fields, "priority") {
        Some(Json::Number(n)) => *n,
        _ => 0,
    };
    Ok(Package { paths, priority })
}

/// A failure among the first items stays the failure of the whole.
proof fn lemma_texts_fail(items: Seq<JsonTree>, m: nat, n: nat)
    requires
        m <= n,
        texts_of(items, m) is Err,
    ensures
        texts_of(items, n) == texts_of(items, m),
    decreases n,
{
    if m < n {
        lemma_texts_fail(items, m, (n - 1) as nat);
    }
}

/// A failure among the first items stays the failure of the whole.
proof fn lemma_packages_fail(items: Seq<JsonTree>, m: nat, n: nat)
    requires
        m <= n,
        packages_from(items, m) is Err,
    ensures
        packages_from(items, n) == packages_from(items, m),
    decreases n,
{
    if m < n {
        lemma_packages_fail(items, m, (n - 1) as nat);
    }
}

/// Reads the packages that a JSON value lists.
#[verifier::loop_isolation(false)]
pub fn parse_packages(json: &Json) -> (r: Result<Vec<Package>, Error>)
    ensures
        match packages_of(json_view(*json)) {
            Ok(p) => r matches Ok(x) && package_views(x@) == p,
            Err(e) => r matches Err(x) && x@ == e,
        },
{
    let items = match json {
        Json::Array(items) => items,
        _ => {
            return Err(json_error("Expected JSON array of packages"));
        },
    };
    let ghost said = items_view(*items, items@.len());
    proof {
        lemma_items_view(*items, items@.len());
    }
    let mut packages: Vec<Package> = Vec::new();
    let mut i: usize = 0;
    assert(package_views(packages@) =~= Seq::<PackageSpec>::empty());
    while i < items.len()
        invariant
            i <= items.len(),
            packages_from(said, i as nat) == Ok::<Seq<PackageSpec>, Failure>(
                package_views(packages@),
            ),
        decreases items.len() - i,
    {
        let ghost before = package_views(packages@);
        assert(said[i as int] == json_view(items@[i as int]));
        match read_package(&items[i]) {
            Ok(p) => {
                packages.push(p);
                assert(package_views(packages@) =~= before.push(p@));
            },
            Err(e) => {
                proof {
                    lemma_packages_fail(said, (i + 1) as nat, said.len());
                }
                return Err(e);
            },
        }
        i += 1;
    }
    Ok(packages)
}

/// The message of a failure tells that a text did not parse as JSON.
pub open spec fn is_parse_failure(failure: Failure) -> bool {
    failure matches Failure::Json { message } && "Failed to parse JSON: "@.is_prefix_of(message)
}

/// Parses a JSON text. A text that parses gives a value that says what the text parses to;
/// a text that does not parse gives a failure whose message begins with
/// `Failed to parse JSON: ` and goes on with the words of the parser.
pub fn parse_json(text: &str) -> (r: Result<Json, Error>)
    ensures
        match json_value(text@) {
            Some(tree) => r matches Ok(j) && json_view(j) == tree,
            None => r matches Err(x) && is_parse_failure(x@),
        },
{
    match parse_text(text) {
        Ok(json) => Ok(json),
        Err(words) => {
            let mut message = String::from_str("Failed to parse JSON: ");
            message.append(words.as_str());
            Err(Error::Json { message })
        },
    }
}

} // verus!
