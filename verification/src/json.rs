//! JSON documents.
//!
//! A model file is read with `serde_json` and then kept as a [`Json`] value,
//! whose mathematical content is a [`Tree`].

use vstd::prelude::*;
use vstd::string::*;
use vstd::utf8::{encode_utf8, encode_utf8_decode_utf8};

verus! {

// The content of a document ==================================================

/// The content of a JSON value.
pub enum Tree {
    /// `null`.
    Null,
    /// `true` or `false`.
    Bool(bool),
    /// A number.
    Number(NumberTree),
    /// A string.
    Text(Seq<char>),
    /// An array.
    Array(Seq<Tree>),
    /// An object: its keys with their values.
    Object(Seq<(Seq<char>, Tree)>),
}

/// The content of a JSON number.
pub struct NumberTree {
    /// The number, where it is written as a non-negative integer of 64 bits.
    pub whole: Option<u64>,
    /// The bit pattern of the nearest binary64 number.
    pub real: Option<u64>,
    /// The number in JSON notation.
    pub text: Seq<char>,
}

/// The first place of a key among the entries from `at` on.
pub open spec fn key_place(entries: Seq<(Seq<char>, Tree)>, key: Seq<char>, at: int) -> Option<int>
    decreases entries.len() - at,
{
    if 0 <= at < entries.len() {
        if entries[at].0 == key {
            Some(at)
        } else {
            key_place(entries, key, at + 1)
        }
    } else {
        None
    }
}

impl Tree {
    /// The value under a key of an object.
    pub open spec fn get(self, key: Seq<char>) -> Option<Tree> {
        match self {
            Tree::Object(entries) => match key_place(entries, key, 0) {
                Some(i) => Some(entries[i].1),
                None => None,
            },
            _ => None,
        }
    }

    /// The value under a key of an object, unless it is `null`.
    pub open spec fn field(self, key: Seq<char>) -> Option<Tree> {
        match self.get(key) {
            Some(Tree::Null) => None,
            v => v,
        }
    }

    /// The text of a string.
    pub open spec fn as_str(self) -> Option<Seq<char>> {
        match self {
            Tree::Text(s) => Some(s),
            _ => None,
        }
    }

    /// The value of a boolean.
    pub open spec fn as_bool(self) -> Option<bool> {
        match self {
            Tree::Bool(b) => Some(b),
            _ => None,
        }
    }

    /// The value of a non-negative integer of 64 bits.
    pub open spec fn as_u64(self) -> Option<u64> {
        match self {
            Tree::Number(n) => n.whole,
            _ => None,
        }
    }

    /// The bit pattern of a number.
    pub open spec fn as_real(self) -> Option<u64> {
        match self {
            Tree::Number(n) => n.real,
            _ => None,
        }
    }

    /// The elements of an array.
    pub open spec fn as_array(self) -> Option<Seq<Tree>> {
        match self {
            Tree::Array(items) => Some(items),
            _ => None,
        }
    }

    /// Whether this is an object.
    pub open spec fn is_object(self) -> bool {
        self is Object
    }
}

/// A key is found inside the object.
pub proof fn lemma_key_place(entries: Seq<(Seq<char>, Tree)>, key: Seq<char>, at: int)
    requires
        0 <= at,
    ensures
        key_place(entries, key, at) matches Some(i) ==> at <= i < entries.len() && entries[i].0
            == key,
    decreases entries.len() - at,
{
    if at < entries.len() && entries[at].0 != key {
        lemma_key_place(entries, key, at + 1);
    }
}

/// What is under a key is smaller than the object.
pub proof fn lemma_get_smaller(t: Tree, key: Seq<char>)
    ensures
        t.get(key) matches Some(v) ==> decreases_to!(t => v),
{
    if let Tree::Object(entries) = t {
        lemma_key_place(entries, key, 0);
        if let Some(i) = key_place(entries, key, 0) {
            assert(decreases_to!(t => t->Object_0));
            assert(decreases_to!(entries => entries[i]));
            assert(decreases_to!(entries[i] => entries[i].1));
        }
    }
}

// Values =====================================================================

/// A JSON value.
#[derive(Debug)]
pub enum Json {
    /// `null`.
    Null,
    /// `true` or `false`.
    Bool(bool),
    /// A number.
    Number(JsonNumber),
    /// A string.
    Text(String),
    /// An array.
    Array(Vec<Json>),
    /// An object: its keys with their values.
    Object(Vec<(String, Json)>),
}

/// A JSON number.
#[derive(Debug)]
pub struct JsonNumber {
    /// The number, where it is written as a non-negative integer of 64 bits.
    pub whole: Option<u64>,
    /// The bit pattern of the nearest binary64 number.
    pub real: Option<u64>,
    /// The number in JSON notation.
    pub text: String,
}

impl View for JsonNumber {
    type V = NumberTree;

    open spec fn view(&self) -> NumberTree {
        NumberTree { whole: self.whole, real: self.real, text: self.text@ }
    }
}

impl Json {
    /// The content of this value.
    pub open spec fn tree(self) -> Tree
        decreases self,
    {
        match self {
            Json::Null => Tree::Null,
            Json::Bool(b) => Tree::Bool(b),
            Json::Number(n) => Tree::Number(n@),
            Json::Text(s) => Tree::Text(s@),
            Json::Array(items) => Tree::Array(
                Seq::new(
                    items@.len(),
                    |i: int|
                        if 0 <= i < items@.len() {
                            items@[i].tree()
                        } else {
                            Tree::Null
                        },
                ),
            ),
            Json::Object(entries) => Tree::Object(
                Seq::new(
                    entries@.len(),
                    |i: int|
                        if 0 <= i < entries@.len() {
                            (entries@[i].0@, entries@[i].1.tree())
                        } else {
                            (Seq::empty(), Tree::Null)
                        },
                ),
            ),
        }
    }
}

impl View for Json {
    type V = Tree;

    open spec fn view(&self) -> Tree {
        self.tree()
    }
}

/// The contents of a list of values.
pub open spec fn trees(items: Seq<Json>) -> Seq<Tree> {
    Seq::new(items.len(), |i: int| items[i]@)
}

/// Whether two texts are the same.
pub fn same_text(a: &str, b: &str) -> (r: bool)
    ensures
        r == (a@ == b@),
{
    let x = a.as_bytes();
    let y = b.as_bytes();
    proof {
        encode_utf8_decode_utf8(a@);
        encode_utf8_decode_utf8(b@);
    }
    if x.len() != y.len() {
        return false;
    }
    let n = x.len();
    let mut i: usize = 0;
    while i < n
        invariant
            n == x@.len(),
            n == y@.len(),
            x@ == encode_utf8(a@),
            y@ == encode_utf8(b@),
            i <= n,
            forall|j: int| 0 <= j < i ==> x@[j] == y@[j],
        decreases n - i,
    {
        if x[i] != y[i] {
            return false;
        }
        i += 1;
    }
    assert(x@ =~= y@);
    true
}

impl Json {
    /// The value under a key of an object.
    pub fn get(&self, key: &str) -> (r: Option<&Json>)
        ensures
            match r {
                Some(v) => self@.get(key@) == Some(v@) && decreases_to!(*self => *v),
                None => self@.get(key@) is None,
            },
    {
        match self {
            Json::Object(entries) => {
                let ghost pairs = self@->Object_0;
                let n = entries.len();
                let mut i: usize = 0;
                while i < n
                    invariant
                        self@ == Tree::Object(pairs),
                        *self == Json::Object(*entries),
                        pairs.len() == entries@.len(),
                        n == entries@.len(),
                        i <= n,
                        forall|j: int|
                            0 <= j < n ==> #[trigger] pairs[j] == (
                                entries@[j].0@,
                                entries@[j].1@,
                            ),
                        key_place(pairs, key@, 0) == key_place(pairs, key@, i as int),
                    decreases n - i,
                {
                    if same_text(entries[i].0.as_str(), key) {
                        proof {
                            assert(decreases_to!(*self => self->Object_0));
                            assert(decreases_to!(*entries => entries@));
                            assert(decreases_to!(entries@ => entries@[i as int]));
                            assert(decreases_to!(entries@[i as int] => entries@[i as int].1));
                        }
                        return Some(&entries[i].1);
                    }
                    i += 1;
                }
                None
            },
            _ => None,
        }
    }

    /// The value under a key of an object, unless it is `null`.
    pub fn field(&self, key: &str) -> (r: Option<&Json>)
        ensures
            match r {
                Some(v) => self@.field(key@) == Some(v@) && decreases_to!(*self => *v),
                None => self@.field(key@) is None,
            },
    {
        match self.get(key) {
            Some(v) => match v {
                Json::Null => None,
                _ => Some(v),
            },
            None => None,
        }
    }

    /// The text of a string.
    pub fn as_str(&self) -> (r: Option<&str>)
        ensures
            match r {
                Some(s) => self@.as_str() == Some(s@),
                None => self@.as_str() is None,
            },
    {
        match self {
            Json::Text(s) => Some(s.as_str()),
            _ => None,
        }
    }

    /// The value of a boolean.
    pub fn as_bool(&self) -> (r: Option<bool>)
        ensures
            r == self@.as_bool(),
    {
        match self {
            Json::Bool(b) => Some(*b),
            _ => None,
        }
    }

    /// The value of a non-negative integer of 64 bits.
    pub fn as_u64(&self) -> (r: Option<u64>)
        ensures
            r == self@.as_u64(),
    {
        match self {
            Json::Number(n) => n.whole,
            _ => None,
        }
    }

    /// The bit pattern of a number.
    pub fn as_real(&self) -> (r: Option<u64>)
        ensures
            r == self@.as_real(),
    {
        match self {
            Json::Number(n) => n.real,
            _ => None,
        }
    }

    /// The elements of an array.
    pub fn as_array(&self) -> (r: Option<&Vec<Json>>)
        ensures
            match r {
                Some(items) => {
                    &&& self@.as_array() == Some(trees(items@))
                    &&& decreases_to!(*self => *items)
                },
                None => self@.as_array() is None,
            },
    {
        match self {
            Json::Array(items) => {
                assert(self@->Array_0 =~= trees(items@));
                Some(items)
            },
            _ => None,
        }
    }

    /// A value with the same content.
    pub fn duplicate(&self) -> (r: Json)
        ensures
            r@ == self@,
        decreases self,
    {
        match self {
            Json::Null => Json::Null,
            Json::Bool(b) => Json::Bool(*b),
            Json::Number(n) => Json::Number(
                JsonNumber { whole: n.whole, real: n.real, text: n.text.as_str().to_owned() },
            ),
            Json::Text(s) => Json::Text(s.as_str().to_owned()),
            Json::Array(items) => {
                let mut out: Vec<Json> = Vec::new();
                let mut i: usize = 0;
                while i < items.len()
                    invariant
                        *self == Json::Array(*items),
                        i <= items@.len(),
                        out@.len() == i,
                        forall|j: int| 0 <= j < i ==> (#[trigger] out@[j])@ == items@[j]@,
                    decreases items@.len() - i,
                {
                    proof {
                        assert(decreases_to!(*self => self->Array_0));
                        assert(decreases_to!(*items => items@));
                        assert(decreases_to!(items@ => items@[i as int]));
                    }
                    out.push(items[i].duplicate());
                    i += 1;
                }
                let r = Json::Array(out);
                assert(r@->Array_0 =~= self@->Array_0);
                r
            },
            Json::Object(entries) => {
                let mut out: Vec<(String, Json)> = Vec::new();
                let mut i: usize = 0;
                while i < entries.len()
                    invariant
                        *self == Json::Object(*entries),
                        i <= entries@.len(),
                        out@.len() == i,
                        forall|j: int|
                            0 <= j < i ==> {
                                &&& (#[trigger] out@[j]).0@ == entries@[j].0@
                                &&& out@[j].1@ == entries@[j].1@
                            },
                    decreases entries@.len() - i,
                {
                    proof {
                        assert(decreases_to!(*self => self->Object_0));
                        assert(decreases_to!(*entries => entries@));
                        assert(decreases_to!(entries@ => entries@[i as int]));
                        assert(decreases_to!(entries@[i as int] => entries@[i as int].1));
                    }
                    out.push((entries[i].0.as_str().to_owned(), entries[i].1.duplicate()));
                    i += 1;
                }
                let r = Json::Object(out);
                assert(r@->Object_0 =~= self@->Object_0);
                r
            },
        }
    }

    /// Whether this is an object.
    pub fn is_object(&self) -> (r: bool)
        ensures
            r == self@.is_object(),
    {
        match self {
            Json::Object(_) => true,
            _ => false,
        }
    }
}

// Reading a document =========================================================

/// The value type of `serde_json`.
#[verifier::external_type_specification]
#[verifier::external_body]
pub struct ExValue(serde_json::Value);

/// What a `serde_json` value holds.
pub uninterp spec fn value_tree(v: serde_json::Value) -> Tree;

/// What `serde_json` makes of a text: the content of the document, or the
/// words of its complaint.
pub uninterp spec fn json_of(text: Seq<char>) -> Result<Tree, Seq<char>>;

/// One level of a `serde_json` value.
pub enum Node<'a> {
    /// `null`.
    Null,
    /// `true` or `false`.
    Bool(bool),
    /// A number.
    Number(JsonNumber),
    /// A string.
    Text(&'a String),
    /// An array.
    Array(&'a Vec<serde_json::Value>),
    /// An object.
    Object(Vec<(&'a String, &'a serde_json::Value)>),
}

/// The content of a value of which one level is known.
pub open spec fn node_tree(n: Node) -> Tree {
    match n {
        Node::Null => Tree::Null,
        Node::Bool(b) => Tree::Bool(b),
        Node::Number(n) => Tree::Number(n@),
        Node::Text(s) => Tree::Text(s@),
        Node::Array(items) => Tree::Array(
            Seq::new(items@.len(), |i: int| value_tree(items@[i])),
        ),
        Node::Object(entries) => Tree::Object(
            Seq::new(entries@.len(), |i: int| (entries@[i].0@, value_tree(*entries@[i].1))),
        ),
    }
}

/// `serde_json::from_str` for a `serde_json::Value`: the value, or its error
/// in words. The contract claims that the outcome depends on the text alone.
#[verifier::external_body]
fn parse_value(text: &str) -> (r: Result<serde_json::Value, String>)
    ensures
        match r {
            Ok(v) => json_of(text@) == Ok::<Tree, Seq<char>>(value_tree(v)),
            Err(e) => json_of(text@) == Err::<Tree, Seq<char>>(e@),
        },
{
    serde_json::from_str(text).map_err(|e| e.to_string())
}

/// The variant of a `serde_json::Value`, with a number in plain values
/// (`Number::as_u64`, `Number::as_f64` and `Number::to_string`) and an object
/// as the list of its entries in the order of the map. The contract claims
/// that nothing of the value is lost.
#[verifier::external_body]
fn open_value<'a>(v: &'a serde_json::Value) -> (r: Node<'a>)
    ensures
        node_tree(r) == value_tree(*v),
{
    match v {
        serde_json::Value::Null => Node::Null,
        serde_json::Value::Bool(b) => Node::Bool(*b),
        serde_json::Value::Number(n) => Node::Number(JsonNumber {
            whole: n.as_u64(),
            real: n.as_f64().map(|x| x.to_bits()),
            text: n.to_string(),
        }),
        serde_json::Value::String(s) => Node::Text(s),
        serde_json::Value::Array(items) => Node::Array(items),
        serde_json::Value::Object(entries) => Node::Object(entries.iter().collect()),
    }
}

fn convert(v: &serde_json::Value) -> (r: Json)
    ensures
        r@ == value_tree(*v),
    decreases value_tree(*v),
{
    match open_value(v) {
        Node::Null => Json::Null,
        Node::Bool(b) => Json::Bool(b),
        Node::Number(n) => Json::Number(n),
        Node::Text(s) => Json::Text(s.clone()),
        Node::Array(items) => {
            let ghost want = value_tree(*v)->Array_0;
            let mut out: Vec<Json> = Vec::new();
            let n = items.len();
            let mut i: usize = 0;
            while i < n
                invariant
                    n == items@.len(),
                    i <= n,
                    out@.len() == i,
                    value_tree(*v) == Tree::Array(want),
                    want == Seq::new(items@.len(), |i: int| value_tree(items@[i])),
                    forall|j: int| 0 <= j < i ==> (#[trigger] out@[j])@ == want[j],
                decreases n - i,
            {
                assert(decreases_to!(value_tree(*v) => value_tree(*v)->Array_0));
                assert(decreases_to!(want => want[i as int]));
                out.push(convert(&items[i]));
                i += 1;
            }
            let r = Json::Array(out);
            assert(r@->Array_0 =~= want);
            r
        },
        Node::Object(entries) => {
            let ghost want = value_tree(*v)->Object_0;
            let mut out: Vec<(String, Json)> = Vec::new();
            let n = entries.len();
            let mut i: usize = 0;
            while i < n
                invariant
                    n == entries@.len(),
                    i <= n,
                    out@.len() == i,
                    value_tree(*v) == Tree::Object(want),
                    want == Seq::new(
                        entries@.len(),
                        |i: int| (entries@[i].0@, value_tree(*entries@[i].1)),
                    ),
                    forall|j: int|
                        0 <= j < i ==> ((#[trigger] out@[j]).0@, out@[j].1@) == want[j],
                decreases n - i,
            {
                assert(decreases_to!(value_tree(*v) => value_tree(*v)->Object_0));
                assert(decreases_to!(want => want[i as int]));
                assert(decreases_to!(want[i as int] => want[i as int].1));
                out.push((entries[i].0.clone(), convert(entries[i].1)));
                i += 1;
            }
            let r = Json::Object(out);
            assert(r@->Object_0 =~= want);
            r
        },
    }
}

/// Read a JSON document.
pub fn read_json(text: &str) -> (r: Result<Json, String>)
    ensures
        match r {
            Ok(j) => json_of(text@) == Ok::<Tree, Seq<char>>(j@),
            Err(e) => json_of(text@) == Err::<Tree, Seq<char>>(e@),
        },
{
    match parse_value(text) {
        Ok(v) => Ok(convert(&v)),
        Err(e) => Err(e),
    }
}

} // verus!
