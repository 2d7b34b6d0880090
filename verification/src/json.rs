//! JSON documents as plain trees.
//!
//! The `serde_json` crate reads the text; this library takes the value that it read apart, level
//! by level, into a [`Json`] of its own.

use crate::double::Double;
use crate::text;
use vstd::prelude::*;

verus! {

/// A value of the `serde_json` crate.
#[verifier::external_type_specification]
#[verifier::external_body]
pub struct ExJsonValue(serde_json::Value);

/// What a JSON value holds. The entries of an object have distinct keys.
#[verifier::ext_equal]
pub enum JsonTree {
    Null,
    Bool(bool),
    /// A number as a float, and as an unsigned or a signed integer where it is one.
    Number(Option<Double>, Option<u64>, Option<i64>),
    Text(Seq<char>),
    Array(Seq<JsonTree>),
    Object(Seq<(Seq<char>, JsonTree)>),
}

/// What a value of the `serde_json` crate holds.
pub uninterp spec fn json_tree(v: serde_json::Value) -> JsonTree;

/// What `serde_json::from_slice` reads; none where it returns an error.
pub uninterp spec fn json_document(bytes: Seq<u8>) -> Option<JsonTree>;

/// `serde_json::from_slice` into a value: whether there is one, and what it holds, rests on the
/// bytes alone.
#[verifier::external_body]
fn json_read(bytes: &[u8]) -> (r: Option<serde_json::Value>)
    ensures
        r is Some <==> json_document(bytes@) is Some,
        r matches Some(v) ==> json_document(bytes@) == Some(json_tree(v)),
{
    serde_json::from_slice(bytes).ok()
}

/// The top level of a value of the `serde_json` crate.
pub enum JsonParts<'a> {
    Null,
    Bool(bool),
    Number(Option<u64>, Option<u64>, Option<i64>),
    Text(String),
    Array(Vec<&'a serde_json::Value>),
    Object(Vec<(String, &'a serde_json::Value)>),
}

impl<'a> JsonParts<'a> {
    /// The parts are the top level of the tree.
    pub open spec fn shows(self, tree: JsonTree) -> bool {
        match (self, tree) {
            (JsonParts::Null, JsonTree::Null) => true,
            (JsonParts::Bool(a), JsonTree::Bool(b)) => a == b,
            (JsonParts::Number(bits, n, i), JsonTree::Number(value, m, j)) => n == m && i == j
                && value == double_of(bits),
            (JsonParts::Text(a), JsonTree::Text(b)) => a@ == b,
            (JsonParts::Array(a), JsonTree::Array(b)) => a@.len() == b.len() && forall|i: int|
                0 <= i < b.len() ==> json_tree(*(#[trigger] a@[i])) == b[i],
            (JsonParts::Object(a), JsonTree::Object(b)) => a@.len() == b.len() && forall|i: int|
                0 <= i < b.len() ==> (#[trigger] a@[i]).0@ == b[i].0 && json_tree(*a@[i].1)
                    == b[i].1,
            _ => false,
        }
    }
}

/// The number with these bits.
pub open spec fn double_of(bits: Option<u64>) -> Option<Double> {
    match bits {
        Some(b) => Some(Double { bits: b }),
        None => None,
    }
}

/// The variants of `serde_json::Value` told apart: a number through `Number::as_f64` (as bits),
/// `Number::as_u64` and `Number::as_i64`, an array by its items, an object by the entries that
/// `Map::iter` gives.
#[verifier::external_body]
fn json_parts<'a>(v: &'a serde_json::Value) -> (r: JsonParts<'a>)
    ensures
        r.shows(json_tree(*v)),
{
    match v {
        serde_json::Value::Null => JsonParts::Null,
        serde_json::Value::Bool(b) => JsonParts::Bool(*b),
        serde_json::Value::Number(n) => {
            JsonParts::Number(n.as_f64().map(|x| x.to_bits()), n.as_u64(), n.as_i64())
        },
        serde_json::Value::String(s) => JsonParts::Text(s.clone()),
        serde_json::Value::Array(a) => JsonParts::Array(a.iter().collect()),
        serde_json::Value::Object(m) => {
            JsonParts::Object(m.iter().map(|(k, x)| (k.clone(), x)).collect())
        },
    }
}

/// A JSON value.
#[derive(Debug)]
pub enum Json {
    Null,
    Bool(bool),
    /// A number as a float, and as an unsigned or a signed integer where it is one.
    Number(Option<Double>, Option<u64>, Option<i64>),
    Text(String),
    Array(Vec<Json>),
    Object(Vec<(String, Json)>),
}

impl View for Json {
    type V = JsonTree;

    open spec fn view(&self) -> JsonTree {
        tree_of(*self)
    }
}

/// What a JSON value holds.
pub open spec fn tree_of(v: Json) -> JsonTree
    decreases v,
{
    match v {
        Json::Null => JsonTree::Null,
        Json::Bool(b) => JsonTree::Bool(b),
        Json::Number(value, n, i) => JsonTree::Number(value, n, i),
        Json::Text(s) => JsonTree::Text(s@),
        Json::Array(a) => JsonTree::Array(
            Seq::new(
                a@.len(),
                |i: int|
                    if 0 <= i < a@.len() {
                        tree_of(a@[i])
                    } else {
                        JsonTree::Null
                    },
            ),
        ),
        Json::Object(m) => JsonTree::Object(
            Seq::new(
                m@.len(),
                |i: int|
                    if 0 <= i < m@.len() {
                        (m@[i].0@, tree_of(m@[i].1))
                    } else {
                        (Seq::empty(), JsonTree::Null)
                    },
            ),
        ),
    }
}

/// Takes a value of the `serde_json` crate apart.
pub fn convert(v: &serde_json::Value) -> (r: Json)
    ensures
        r@ == json_tree(*v),
    decreases json_tree(*v),
{
    let ghost tree = json_tree(*v);
    match json_parts(v) {
        JsonParts::Null => Json::Null,
        JsonParts::Bool(b) => Json::Bool(b),
        JsonParts::Number(bits, n, signed) => Json::Number(
            match bits {
                Some(b) => Some(Double { bits: b }),
                None => None,
            },
            n,
            signed,
        ),
        JsonParts::Text(s) => Json::Text(s),
        JsonParts::Array(items) => {
            let mut out: Vec<Json> = Vec::new();
            let mut i: usize = 0;
            while i < items.len()
                invariant
                    0 <= i <= items@.len(),
                    tree == json_tree(*v),
                    JsonParts::Array(items).shows(tree),
                    out@.len() == i,
                    forall|j: int| 0 <= j < i ==> (#[trigger] out@[j])@ == tree->Array_0[j],
                decreases items@.len() - i,
            {
                proof {
                    assert(json_tree(*items@[i as int]) == tree->Array_0[i as int]);
                    assert(decreases_to!(tree => tree->Array_0[i as int]));
                }
                out.push(convert(items[i]));
                i += 1;
            }
            let r = Json::Array(out);
            proof {
                assert(r@->Array_0 =~= tree->Array_0);
            }
            r
        },
        JsonParts::Object(entries) => {
            let mut out: Vec<(String, Json)> = Vec::new();
            let mut i: usize = 0;
            while i < entries.len()
                invariant
                    0 <= i <= entries@.len(),
                    tree == json_tree(*v),
                    JsonParts::Object(entries).shows(tree),
                    out@.len() == i,
                    forall|j: int|
                        0 <= j < i ==> (#[trigger] out@[j]).0@ == tree->Object_0[j].0 && out@[j].1@
                            == tree->Object_0[j].1,
                decreases entries@.len() - i,
            {
                proof {
                    assert(json_tree(*entries@[i as int].1) == tree->Object_0[i as int].1);
                    assert(decreases_to!(tree => tree->Object_0[i as int].1));
                }
                let value = convert(entries[i].1);
                out.push((entries[i].0.clone(), value));
                i += 1;
            }
            let r = Json::Object(out);
            proof {
                assert(r@->Object_0 =~= tree->Object_0);
            }
            r
        },
    }
}

/// Reads a JSON document; none where it is not one.
pub fn parse(bytes: &[u8]) -> (r: Option<Json>)
    ensures
        r is Some <==> json_document(bytes@) is Some,
        r matches Some(v) ==> json_document(bytes@) == Some(v@),
{
    match json_read(bytes) {
        Some(v) => Some(convert(&v)),
        None => None,
    }
}

impl JsonTree {
    /// The value of a key of an object.
    pub open spec fn get(self, key: Seq<char>) -> Option<JsonTree> {
        match self {
            JsonTree::Object(m) => entry(m, key),
            _ => None,
        }
    }

    pub open spec fn as_str(self) -> Option<Seq<char>> {
        match self {
            JsonTree::Text(s) => Some(s),
            _ => None,
        }
    }

    pub open spec fn as_array(self) -> Option<Seq<JsonTree>> {
        match self {
            JsonTree::Array(a) => Some(a),
            _ => None,
        }
    }

    /// The value as a float.
    pub open spec fn as_double(self) -> Option<Double> {
        match self {
            JsonTree::Number(value, _, _) => value,
            _ => None,
        }
    }

    pub open spec fn as_u64(self) -> Option<u64> {
        match self {
            JsonTree::Number(_, n, _) => n,
            _ => None,
        }
    }
}

/// The value of a key.
pub open spec fn entry(m: Seq<(Seq<char>, JsonTree)>, key: Seq<char>) -> Option<JsonTree>
    decreases m.len(),
{
    if m.len() == 0 {
        None
    } else if m.last().0 == key {
        Some(m.last().1)
    } else {
        entry(m.drop_last(), key)
    }
}

/// The text of a key that is one.
pub open spec fn text_at(v: JsonTree, key: Seq<char>) -> Option<Seq<char>> {
    match v.get(key) {
        Some(x) => x.as_str(),
        None => None,
    }
}

/// The float of a key that is one.
pub open spec fn double_at(v: JsonTree, key: Seq<char>) -> Option<Double> {
    match v.get(key) {
        Some(x) => x.as_double(),
        None => None,
    }
}

/// The items of a key that is an array.
pub open spec fn array_at(v: JsonTree, key: Seq<char>) -> Option<Seq<JsonTree>> {
    match v.get(key) {
        Some(x) => x.as_array(),
        None => None,
    }
}

impl Json {
    /// The value of a key of an object.
    pub fn get(&self, key: &str) -> (r: Option<&Json>)
        ensures
            r is Some <==> self@.get(key@) is Some,
            r matches Some(v) ==> self@.get(key@) == Some(v@),
    {
        match self {
            Json::Object(m) => {
                let ghost all = self@->Object_0;
                let mut i: usize = m.len();
                proof {
                    assert(all.take(i as int) =~= all);
                }
                while i > 0
                    invariant
                        0 <= i <= m@.len(),
                        *self == Json::Object(*m),
                        all == self@->Object_0,
                        all.len() == m@.len(),
                        self@.get(key@) == entry(all.take(i as int), key@),
                    decreases i,
                {
                    proof {
                        assert(all.take(i as int).drop_last() =~= all.take(i - 1));
                        assert(all[i - 1] == (m@[i - 1].0@, m@[i - 1].1@));
                    }
                    if text::same_text(m[i - 1].0.as_str(), key) {
                        return Some(&m[i - 1].1);
                    }
                    i -= 1;
                }
                None
            },
            _ => None,
        }
    }

    pub fn as_str(&self) -> (r: Option<&String>)
        ensures
            r is Some <==> self@.as_str() is Some,
            r matches Some(s) ==> self@.as_str() == Some(s@),
    {
        match self {
            Json::Text(s) => Some(s),
            _ => None,
        }
    }

    pub fn as_array(&self) -> (r: Option<&Vec<Json>>)
        ensures
            r is Some <==> self@.as_array() is Some,
            r matches Some(a) ==> self@.as_array()->0.len() == a@.len() && forall|i: int|
                0 <= i < a@.len() ==> (#[trigger] a@[i])@ == self@.as_array()->0[i],
    {
        match self {
            Json::Array(a) => Some(a),
            _ => None,
        }
    }

    /// The value as a float.
    pub fn as_double(&self) -> (r: Option<Double>)
        ensures
            r == self@.as_double(),
    {
        match self {
            Json::Number(value, _, _) => *value,
            _ => None,
        }
    }

    pub fn as_u64(&self) -> (r: Option<u64>)
        ensures
            r == self@.as_u64(),
    {
        match self {
            Json::Number(_, n, _) => *n,
            _ => None,
        }
    }

    /// The text of a key that is one.
    pub fn text_at(&self, key: &str) -> (r: Option<&String>)
        ensures
            r is Some <==> text_at(self@, key@) is Some,
            r matches Some(s) ==> text_at(self@, key@) == Some(s@),
    {
        match self.get(key) {
            Some(v) => v.as_str(),
            None => None,
        }
    }

    /// The float of a key that is one.
    pub fn double_at(&self, key: &str) -> (r: Option<Double>)
        ensures
            r == double_at(self@, key@),
    {
        match self.get(key) {
            Some(v) => v.as_double(),
            None => None,
        }
    }

    /// The items of a key that is an array.
    pub fn array_at(&self, key: &str) -> (r: Option<&Vec<Json>>)
        ensures
            r is Some <==> array_at(self@, key@) is Some,
            r matches Some(a) ==> array_at(self@, key@)->0.len() == a@.len() && forall|i: int|
                0 <= i < a@.len() ==> (#[trigger] a@[i])@ == array_at(self@, key@)->0[i],
    {
        match self.get(key) {
            Some(v) => v.as_array(),
            None => None,
        }
    }
}

/// What `serde_json::to_vec` writes for a value that holds this tree; none where it returns an
/// error.
pub uninterp spec fn json_bytes(tree: JsonTree) -> Option<Seq<u8>>;

/// `Clone` of `serde_json::Value`: the copy holds the same tree.
#[verifier::external_body]
fn json_copy(v: &serde_json::Value) -> (r: serde_json::Value)
    ensures
        json_tree(r) == json_tree(*v),
{
    v.clone()
}

/// The items of an array as trees.
pub open spec fn trees(items: Seq<serde_json::Value>) -> Seq<JsonTree> {
    Seq::new(items.len(), |i: int| json_tree(items[i]))
}

/// `serde_json::to_vec` on an object with one key, whose value is the array of the items: the bytes
/// rest on the key and on what the items hold.
#[verifier::external_body]
fn json_write_array(key: &str, items: Vec<serde_json::Value>) -> (r: Option<Vec<u8>>)
    ensures
        ({
            let tree = JsonTree::Object(seq![(key@, JsonTree::Array(trees(items@)))]);
            match r {
                Some(b) => json_bytes(tree) == Some(b@),
                None => json_bytes(tree) is None,
            }
        }),
{
    let mut map = serde_json::Map::new();
    map.insert(key.to_string(), serde_json::Value::Array(items));
    serde_json::to_vec(&serde_json::Value::Object(map)).ok()
}

/// JSON values gathered from the arrays of several documents.
pub struct JsonItems {
    items: Vec<serde_json::Value>,
}

impl View for JsonItems {
    type V = Seq<JsonTree>;

    closed spec fn view(&self) -> Seq<JsonTree> {
        trees(self.items@)
    }
}

/// The items under a key of a document; none where it is no document or the key is no array.
pub open spec fn items_in(bytes: Seq<u8>, key: Seq<char>) -> Seq<JsonTree> {
    match json_document(bytes) {
        Some(v) => match array_at(v, key) {
            Some(a) => a,
            None => Seq::empty(),
        },
        None => Seq::empty(),
    }
}

impl JsonItems {
    pub fn new() -> (r: JsonItems)
        ensures
            r@ == Seq::<JsonTree>::empty(),
    {
        let r = JsonItems { items: Vec::new() };
        proof {
            assert(r@ =~= Seq::<JsonTree>::empty());
        }
        r
    }

    /// Adds the items under a key of a document.
    pub fn gather(&mut self, bytes: &[u8], key: &str)
        ensures
            final(self)@ == old(self)@ + items_in(bytes@, key@),
    {
        let ghost before = self@;
        proof {
            assert(before + Seq::<JsonTree>::empty() =~= before);
        }
        let doc = match json_read(bytes) {
            Some(v) => v,
            None => {
                return;
            },
        };
        let ghost tree = json_tree(doc);
        let entries = match json_parts(&doc) {
            JsonParts::Object(m) => m,
            _ => {
                return;
            },
        };
        let ghost all = tree->Object_0;
        let mut i: usize = entries.len();
        proof {
            assert(all.take(i as int) =~= all);
        }
        while i > 0
            invariant
                0 <= i <= entries@.len(),
                JsonParts::Object(entries).shows(tree),
                tree is Object,
                all == tree->Object_0,
                tree.get(key@) == entry(all.take(i as int), key@),
                self@ == before,
                json_document(bytes@) == Some(tree),
                before == old(self)@,
                before + Seq::<JsonTree>::empty() == before,
            decreases i,
        {
            proof {
                assert(all.take(i as int).drop_last() =~= all.take(i - 1));
                assert(entries@[i - 1].0@ == all[i - 1].0);
            }
            if text::same_text(entries[i - 1].0.as_str(), key) {
                let found = match json_parts(entries[i - 1].1) {
                    JsonParts::Array(a) => a,
                    _ => {
                        return;
                    },
                };
                let ghost items = items_in(bytes@, key@);
                let mut j: usize = 0;
                proof {
                    assert(items.take(0) =~= Seq::<JsonTree>::empty());
                }
                while j < found.len()
                    invariant
                        0 <= j <= found@.len(),
                        items.len() == found@.len(),
                        forall|k: int|
                            0 <= k < found@.len() ==> json_tree(*(#[trigger] found@[k]))
                                == items[k],
                        self@ == before + items.take(j as int),
                    decreases found@.len() - j,
                {
                    let ghost done = self@;
                    self.items.push(json_copy(found[j]));
                    proof {
                        assert(json_tree(*found@[j as int]) == items[j as int]);
                        assert(self@ =~= done.push(items[j as int]));
                        assert(before + items.take(j + 1) =~= done.push(items[j as int]));
                    }
                    j += 1;
                }
                proof {
                    assert(items.take(j as int) =~= items);
                }
                return;
            }
            i -= 1;
        }
    }

    /// A document with one key, whose value is the array of the items.
    pub fn to_document(self, key: &str) -> (r: Option<Vec<u8>>)
        ensures
            ({
                let tree = JsonTree::Object(seq![(key@, JsonTree::Array(self@))]);
                match r {
                    Some(b) => json_bytes(tree) == Some(b@),
                    None => json_bytes(tree) is None,
                }
            }),
    {
        json_write_array(key, self.items)
    }
}

/// The value of a key is that of the last entry with the key; there is none exactly where no entry
/// has it, and where the value is no object.
pub proof fn law_value_of_a_key(m: Seq<(Seq<char>, JsonTree)>, key: Seq<char>)
    ensures
        JsonTree::Object(m).get(key) is None <==> forall|i: int|
            0 <= i < m.len() ==> (#[trigger] m[i]).0 != key,
        JsonTree::Object(m).get(key) matches Some(v) ==> exists|k: int|
            0 <= k < m.len() && #[trigger] m[k] == (key, v) && forall|i: int|
                k < i < m.len() ==> (#[trigger] m[i]).0 != key,
    decreases m.len(),
{
    if m.len() > 0 {
        let front = m.drop_last();
        if m.last().0 == key {
            assert(m[m.len() - 1] == (key, m.last().1));
        } else {
            law_value_of_a_key(front, key);
            assert(JsonTree::Object(front).get(key) == JsonTree::Object(m).get(key));
            if let Some(v) = JsonTree::Object(front).get(key) {
                let k = choose|k: int|
                    0 <= k < front.len() && #[trigger] front[k] == (key, v) && forall|i: int|
                        k < i < front.len() ==> (#[trigger] front[i]).0 != key;
                assert(m[k] == (key, v));
                assert forall|i: int| k < i < m.len() implies (#[trigger] m[i]).0 != key by {
                    if i < front.len() {
                        assert(front[i] == m[i]);
                    }
                }
            } else {
                assert forall|i: int| 0 <= i < m.len() implies (#[trigger] m[i]).0 != key by {
                    if i < front.len() {
                        assert(front[i] == m[i]);
                    }
                }
            }
        }
    }
}

/// What a value can be read as: a text as a text, an array as its items, a number as a float and as an
/// unsigned integer, and none of them as another.
pub proof fn law_values_are_read_by_kind(v: JsonTree, key: Seq<char>)
    ensures
        match v {
            JsonTree::Text(s) => v.as_str() == Some(s) && v.as_array() is None && v.as_double() is None
                && v.as_u64() is None && v.get(key) is None,
            JsonTree::Array(a) => v.as_array() == Some(a) && v.as_str() is None && v.as_double()
                is None && v.as_u64() is None && v.get(key) is None,
            JsonTree::Number(x, n, _) => v.as_double() == x && v.as_u64() == n && v.as_str() is None
                && v.as_array() is None && v.get(key) is None,
            JsonTree::Object(_) => v.as_str() is None && v.as_array() is None && v.as_double() is None
                && v.as_u64() is None,
            _ => v.as_str() is None && v.as_array() is None && v.as_double() is None && v.as_u64()
                is None && v.get(key) is None,
        },
{
}

/// What stands under a key is read by its kind.
pub proof fn law_values_under_a_key(v: JsonTree, key: Seq<char>)
    ensures
        v.get(key) is None ==> text_at(v, key) is None && double_at(v, key) is None && array_at(v, key)
            is None,
        v.get(key) matches Some(JsonTree::Text(s)) ==> text_at(v, key) == Some(s),
        v.get(key) matches Some(JsonTree::Number(x, _, _)) ==> double_at(v, key) == x,
        v.get(key) matches Some(JsonTree::Array(a)) ==> array_at(v, key) == Some(a),
        text_at(v, key) is Some ==> v.get(key) matches Some(JsonTree::Text(_)),
        array_at(v, key) is Some ==> v.get(key) matches Some(JsonTree::Array(_)),
        double_at(v, key) is Some ==> v.get(key) matches Some(JsonTree::Number(_, _, _)),
{
}

/// The items under a key of a document are those of its array; there are none where the bytes are no
/// document, or nothing else stands there.
pub proof fn law_items_in_a_document(bytes: Seq<u8>, key: Seq<char>)
    ensures
        json_document(bytes) is None ==> items_in(bytes, key).len() == 0,
        json_document(bytes) matches Some(v) ==> match v.get(key) {
            Some(JsonTree::Array(a)) => items_in(bytes, key) == a,
            _ => items_in(bytes, key).len() == 0,
        },
{
}

/// A value holds what it is made of: a text its characters, a number its three readings, an array and
/// an object what their parts hold, each in its place.
pub proof fn law_tree_of_a_value(v: Json)
    ensures
        match v {
            Json::Null => v@ is Null,
            Json::Bool(b) => v@ == JsonTree::Bool(b),
            Json::Number(x, n, i) => v@ == JsonTree::Number(x, n, i),
            Json::Text(s) => v@ == JsonTree::Text(s@),
            Json::Array(a) => v@ matches JsonTree::Array(t) && t.len() == a@.len() && forall|i: int|
                0 <= i < a@.len() ==> #[trigger] t[i] == a@[i]@,
            Json::Object(m) => v@ matches JsonTree::Object(t) && t.len() == m@.len() && forall|i: int|
                0 <= i < m@.len() ==> (#[trigger] t[i]).0 == m@[i].0@ && t[i].1 == m@[i].1@,
        },
{
}

} // verus!
