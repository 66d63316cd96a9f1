//! JSON values: what they hold, how they are read and written.
use vstd::prelude::*;
use vstd::string::*;

use crate::table::{entry_of, find_key, key_at, pairs, push_entry, put, put_all};
use crate::text::{decimal, decimal_text, maybe, maybe_view, natural, parse_natural, same, views};

verus! {

/// A JSON value.
#[derive(Debug)]
pub enum Json {
    Null,
    Bool(bool),
    /// A number as it is written.
    Number(String),
    Str(String),
    List(Vec<Json>),
    Object(Vec<(String, Json)>),
}

/// The model of a [`Json`].
pub enum JsonView {
    Null,
    Bool(bool),
    Number(Seq<char>),
    Str(Seq<char>),
    List(Seq<JsonView>),
    Object(Seq<(Seq<char>, JsonView)>),
}

/// The model of a value.
pub open spec fn json_view(j: Json) -> JsonView
    decreases j,
{
    match j {
        Json::Null => JsonView::Null,
        Json::Bool(b) => JsonView::Bool(b),
        Json::Number(s) => JsonView::Number(s@),
        Json::Str(s) => JsonView::Str(s@),
        Json::List(items) => JsonView::List(
            Seq::new(
                items@.len(),
                |i: int|
                    if 0 <= i < items@.len() {
                        json_view(items@[i])
                    } else {
                        JsonView::Null
                    },
            ),
        ),
        Json::Object(entries) => JsonView::Object(
            Seq::new(
                entries@.len(),
                |i: int|
                    if 0 <= i < entries@.len() {
                        (entries@[i].0@, json_view(entries@[i].1))
                    } else {
                        (Seq::empty(), JsonView::Null)
                    },
            ),
        ),
    }
}

impl View for Json {
    type V = JsonView;

    open spec fn view(&self) -> JsonView {
        json_view(*self)
    }
}

/// The model of a list is the list of the models.
pub proof fn lemma_list_view(items: Vec<Json>)
    ensures
        Json::List(items)@ == JsonView::List(views(items@)),
{
    match Json::List(items)@ {
        JsonView::List(v) => {
            assert(v =~= views(items@));
        },
        _ => {},
    }
}

/// The model of an object holds the models of its entries.
pub proof fn lemma_object_view(entries: Vec<(String, Json)>)
    ensures
        Json::Object(entries)@ == JsonView::Object(pairs(entries@)),
{
    match Json::Object(entries)@ {
        JsonView::Object(v) => {
            assert(v =~= pairs(entries@));
        },
        _ => {},
    }
}

// ---------------------------------------------------------------------------
// Looking into a value

impl JsonView {
    /// The value under a key of an object.
    pub open spec fn get(self, key: Seq<char>) -> Option<JsonView> {
        match self {
            JsonView::Object(entries) => entry_of(entries, key),
            _ => None,
        }
    }

    /// What the token `0` of a pointer leads to: the first value of a list, or
    /// the value under that key of an object.
    pub open spec fn zeroth(self) -> Option<JsonView> {
        match self {
            JsonView::List(items) => if items.len() > 0 {
                Some(items[0])
            } else {
                None
            },
            _ => self.get("0"@),
        }
    }

    /// The text of a value that is a text.
    pub open spec fn as_text(self) -> Option<Seq<char>> {
        match self {
            JsonView::Str(s) => Some(s),
            _ => None,
        }
    }

    /// The number of a value that is a natural number of 64 bits.
    pub open spec fn as_natural(self) -> Option<u64> {
        match self {
            JsonView::Number(s) => match natural(s) {
                Some(n) => if n <= u64::MAX {
                    Some(n as u64)
                } else {
                    None
                },
                None => None,
            },
            _ => None,
        }
    }

    /// The values of a list; none if the value is no list.
    pub open spec fn items(self) -> Seq<JsonView> {
        match self {
            JsonView::List(items) => items,
            _ => Seq::empty(),
        }
    }

    /// The value under a key, or null.
    pub open spec fn field(self, key: Seq<char>) -> JsonView {
        match self.get(key) {
            Some(v) => v,
            None => JsonView::Null,
        }
    }

    /// The text under a key, if there is one.
    pub open spec fn text(self, key: Seq<char>) -> Option<Seq<char>> {
        match self.get(key) {
            Some(v) => v.as_text(),
            None => None,
        }
    }

    /// The text under a key; empty if there is none.
    pub open spec fn text_or_empty(self, key: Seq<char>) -> Seq<char> {
        match self.text(key) {
            Some(s) => s,
            None => Seq::empty(),
        }
    }

    /// The natural number under a key, if there is one.
    pub open spec fn natural(self, key: Seq<char>) -> Option<u64> {
        match self.get(key) {
            Some(v) => v.as_natural(),
            None => None,
        }
    }
}

/// The model of an optional reference to a value.
pub open spec fn seen(o: Option<&Json>) -> Option<JsonView> {
    match o {
        Some(j) => Some(j@),
        None => None,
    }
}

impl Json {
    /// The value under a key of an object.
    pub fn get(&self, key: &str) -> (r: Option<&Json>)
        ensures
            seen(r) == self@.get(key@),
    {
        match self {
            Json::Object(entries) => {
                proof {
                    lemma_object_view(*entries);
                }
                match find_key(entries, key) {
                    Some(i) => Some(&entries[i].1),
                    None => None,
                }
            },
            _ => None,
        }
    }

    /// What the token `0` of a pointer leads to.
    pub fn zeroth(&self) -> (r: Option<&Json>)
        ensures
            seen(r) == self@.zeroth(),
    {
        match self {
            Json::List(items) => {
                proof {
                    lemma_list_view(*items);
                }
                if items.len() > 0 {
                    Some(&items[0])
                } else {
                    None
                }
            },
            _ => self.get("0"),
        }
    }

    /// The text of a value that is a text.
    pub fn as_text(&self) -> (r: Option<String>)
        ensures
            maybe(r) == self@.as_text(),
    {
        match self {
            Json::Str(s) => Some(s.clone()),
            _ => None,
        }
    }

    /// Whether the value is the given text.
    pub fn is_text(&self, s: &str) -> (r: bool)
        ensures
            r == (self@.as_text() == Some(s@)),
    {
        match self {
            Json::Str(t) => same(t, s),
            _ => false,
        }
    }

    /// The number of a value that is a natural number of 64 bits.
    pub fn as_natural(&self) -> (r: Option<u64>)
        ensures
            r == self@.as_natural(),
    {
        match self {
            Json::Number(s) => parse_natural(s, u64::MAX),
            _ => None,
        }
    }

    /// The text under a key, if there is one.
    pub fn text(&self, key: &str) -> (r: Option<String>)
        ensures
            maybe(r) == self@.text(key@),
    {
        match self.get(key) {
            Some(v) => v.as_text(),
            None => None,
        }
    }

    /// The text under a key; empty if there is none.
    pub fn text_or_empty(&self, key: &str) -> (r: String)
        ensures
            r@ == self@.text_or_empty(key@),
    {
        match self.text(key) {
            Some(s) => s,
            None => String::new(),
        }
    }

    /// The natural number under a key, if there is one.
    pub fn natural(&self, key: &str) -> (r: Option<u64>)
        ensures
            r == self@.natural(key@),
    {
        match self.get(key) {
            Some(v) => v.as_natural(),
            None => None,
        }
    }
}

impl Clone for Json {
    fn clone(&self) -> (r: Json)
        ensures
            r@ == self@,
        decreases self,
    {
        match self {
            Json::Null => Json::Null,
            Json::Bool(b) => Json::Bool(*b),
            Json::Number(s) => Json::Number(s.clone()),
            Json::Str(s) => Json::Str(s.clone()),
            Json::List(items) => {
                let mut copies: Vec<Json> = Vec::new();
                let mut i: usize = 0;
                while i < items.len()
                    invariant
                        i <= items.len(),
                        *self == Json::List(*items),
                        views(copies@) == views(items@).take(i as int),
                    decreases items.len() - i,
                {
                    let ghost before = views(copies@);
                    assert(decreases_to!(*self => self->List_0));
                    assert(decreases_to!(items@ => items@[i as int]));
                    let copy = items[i].clone();
                    assert(copy@ == views(items@)[i as int]);
                    copies.push(copy);
                    assert(views(copies@) =~= before.push(copy@));
                    i += 1;
                }
                assert(views(items@).take(items@.len() as int) =~= views(items@));
                proof {
                    lemma_list_view(*items);
                    lemma_list_view(copies);
                }
                Json::List(copies)
            },
            Json::Object(entries) => {
                let mut copies: Vec<(String, Json)> = Vec::new();
                let mut i: usize = 0;
                while i < entries.len()
                    invariant
                        i <= entries.len(),
                        *self == Json::Object(*entries),
                        pairs(copies@) == pairs(entries@).take(i as int),
                    decreases entries.len() - i,
                {
                    let ghost before = pairs(copies@);
                    let key = entries[i].0.clone();
                    assert(decreases_to!(*self => self->Object_0));
                    assert(decreases_to!(entries@ => entries@[i as int]));
                    let copy = entries[i].1.clone();
                    assert((key@, copy@) == pairs(entries@)[i as int]);
                    copies.push((key, copy));
                    assert(pairs(copies@) =~= before.push((key@, copy@)));
                    i += 1;
                }
                assert(pairs(entries@).take(entries@.len() as int) =~= pairs(entries@));
                proof {
                    lemma_object_view(*entries);
                    lemma_object_view(copies);
                }
                Json::Object(copies)
            },
        }
    }
}

// ---------------------------------------------------------------------------
// Building a value

/// Whether there is a value under a key.
pub fn has_entry(entries: &Vec<(String, Json)>, key: &str) -> (r: bool)
    ensures
        r == (key_at(pairs(entries@), key@, 0) is Some),
{
    find_key(entries, key).is_some()
}

/// A text as a value.
pub fn text_json(s: &str) -> (r: Json)
    ensures
        r@ == JsonView::Str(s@),
{
    Json::Str(s.to_owned())
}

/// A natural number as a value.
pub fn natural_json(n: u64) -> (r: Json)
    ensures
        r@ == JsonView::Number(decimal(n as nat)),
{
    Json::Number(decimal_text(n))
}

/// Entries as a value.
pub fn object_json(entries: Vec<(String, Json)>) -> (r: Json)
    ensures
        r@ == JsonView::Object(pairs(entries@)),
{
    proof {
        lemma_object_view(entries);
    }
    Json::Object(entries)
}

/// Values as a value.
pub fn list_json(items: Vec<Json>) -> (r: Json)
    ensures
        r@ == JsonView::List(views(items@)),
{
    proof {
        lemma_list_view(items);
    }
    Json::List(items)
}

/// No entries yet.
pub fn no_entries() -> (r: Vec<(String, Json)>)
    ensures
        pairs(r@) == Seq::<(Seq<char>, JsonView)>::empty(),
{
    let r: Vec<(String, Json)> = Vec::new();
    assert(pairs(r@) =~= Seq::empty());
    r
}

/// An object with one entry.
pub fn object1(k1: &str, v1: Json) -> (r: Json)
    ensures
        r@ == JsonView::Object(seq![(k1@, v1@)]),
{
    let ghost all = seq![(k1@, v1@)];
    let mut e = no_entries();
    push_entry(&mut e, k1, v1);
    assert(pairs(e@) =~= all);
    object_json(e)
}

/// An object with two entries.
pub fn object2(k1: &str, v1: Json, k2: &str, v2: Json) -> (r: Json)
    ensures
        r@ == JsonView::Object(seq![(k1@, v1@), (k2@, v2@)]),
{
    let ghost all = seq![(k1@, v1@), (k2@, v2@)];
    let mut e = no_entries();
    push_entry(&mut e, k1, v1);
    push_entry(&mut e, k2, v2);
    assert(pairs(e@) =~= all);
    object_json(e)
}

/// An object with three entries.
pub fn object3(k1: &str, v1: Json, k2: &str, v2: Json, k3: &str, v3: Json) -> (r: Json)
    ensures
        r@ == JsonView::Object(seq![(k1@, v1@), (k2@, v2@), (k3@, v3@)]),
{
    let ghost all = seq![(k1@, v1@), (k2@, v2@), (k3@, v3@)];
    let mut e = no_entries();
    push_entry(&mut e, k1, v1);
    push_entry(&mut e, k2, v2);
    push_entry(&mut e, k3, v3);
    assert(pairs(e@) =~= all);
    object_json(e)
}

/// An object with four entries.
pub fn object4(k1: &str, v1: Json, k2: &str, v2: Json, k3: &str, v3: Json, k4: &str, v4: Json) -> (r: Json)
    ensures
        r@ == JsonView::Object(seq![(k1@, v1@), (k2@, v2@), (k3@, v3@), (k4@, v4@)]),
{
    let ghost all = seq![(k1@, v1@), (k2@, v2@), (k3@, v3@), (k4@, v4@)];
    let mut e = no_entries();
    push_entry(&mut e, k1, v1);
    push_entry(&mut e, k2, v2);
    push_entry(&mut e, k3, v3);
    push_entry(&mut e, k4, v4);
    assert(pairs(e@) =~= all);
    object_json(e)
}

// ---------------------------------------------------------------------------
// Reading and writing

#[verifier::external_type_specification]
#[verifier::external_body]
pub struct ExValue(serde_json::Value);

/// What a `serde_json::Value` holds: its variant with its contents, a number
/// as `serde_json` writes it, the entries of an object in the order in which
/// its map is walked.
pub uninterp spec fn value_held(v: serde_json::Value) -> JsonView;

/// What `serde_json` reads from a text, if the text is JSON.
pub uninterp spec fn value_read(text: Seq<char>) -> Option<JsonView>;

/// The text that `serde_json` writes for a value, without white space.
pub uninterp spec fn value_written(v: JsonView) -> Seq<char>;

/// The text that `serde_json` writes for a value, laid out on lines.
pub uninterp spec fn value_laid_out(v: JsonView) -> Seq<char>;

#[verifier::external_type_specification]
#[verifier::external_body]
#[verifier::reject_recursive_types(K)]
#[verifier::reject_recursive_types(V)]
pub struct ExMap<K, V>(serde_json::Map<K, V>);

/// The entries of a `serde_json::Map`, in the order in which it is walked.
pub uninterp spec fn map_held(m: serde_json::Map<String, serde_json::Value>) -> Seq<
    (Seq<char>, JsonView),
>;

/// One level of a value that is being read.
enum Level<'a> {
    Null,
    Bool(bool),
    Number(String),
    Str(String),
    List(Vec<&'a serde_json::Value>),
    Object(Vec<(&'a String, &'a serde_json::Value)>),
}

impl<'a> Level<'a> {
    spec fn holds(self, v: JsonView) -> bool {
        match self {
            Level::Null => v is Null,
            Level::Bool(b) => v == JsonView::Bool(b),
            Level::Number(s) => v == JsonView::Number(s@),
            Level::Str(s) => v == JsonView::Str(s@),
            Level::List(items) => v == JsonView::List(
                Seq::new(items@.len(), |i: int| value_held(*items@[i])),
            ),
            Level::Object(entries) => v == JsonView::Object(
                Seq::new(entries@.len(), |i: int| (entries@[i].0@, value_held(*entries@[i].1))),
            ),
        }
    }
}

/// Tells the variants of `serde_json::Value` apart: each gives its contents, a
/// number the text that `serde_json` displays it as.
#[verifier::external_body]
fn open_value<'a>(v: &'a serde_json::Value) -> (r: Level<'a>)
    ensures
        r.holds(value_held(*v)),
{
    match v {
        serde_json::Value::Null => Level::Null,
        serde_json::Value::Bool(b) => Level::Bool(*b),
        serde_json::Value::Number(n) => Level::Number(n.to_string()),
        serde_json::Value::String(s) => Level::Str(s.clone()),
        serde_json::Value::Array(items) => Level::List(items.iter().collect()),
        serde_json::Value::Object(entries) => Level::Object(entries.iter().collect()),
    }
}

/// `serde_json::from_str` gives the value that a text denotes, and none exactly
/// where the text is not JSON; which value that is, its name stands for.
#[verifier::external_body]
fn read_value(text: &str) -> (r: Option<serde_json::Value>)
    ensures
        match r {
            Some(v) => value_read(text@) == Some(value_held(v)),
            None => value_read(text@) is None,
        },
{
    serde_json::from_str::<serde_json::Value>(text).ok()
}

/// `serde_json::Value::to_string` writes a value without white space; its name
/// stands for the text.
#[verifier::external_body]
fn write_value(v: &serde_json::Value) -> (r: String)
    ensures
        r@ == value_written(value_held(*v)),
{
    v.to_string()
}

/// The alternate form of `serde_json::Value`'s display writes a value on
/// indented lines; its name stands for the text.
#[verifier::external_body]
fn lay_out_value(v: &serde_json::Value) -> (r: String)
    ensures
        r@ == value_laid_out(value_held(*v)),
{
    format!("{v:#}")
}

/// One level of a value that is being made, other than an object.
enum Parts {
    Null,
    Bool(bool),
    Str(String),
    List(Vec<serde_json::Value>),
}

impl Parts {
    spec fn made(self) -> JsonView {
        match self {
            Parts::Null => JsonView::Null,
            Parts::Bool(b) => JsonView::Bool(b),
            Parts::Str(s) => JsonView::Str(s@),
            Parts::List(items) => JsonView::List(held_list(items@)),
        }
    }
}

spec fn held_list(items: Seq<serde_json::Value>) -> Seq<JsonView> {
    Seq::new(items.len(), |i: int| value_held(items[i]))
}

/// Makes a variant of `serde_json::Value` from its contents.
#[verifier::external_body]
fn make_value(parts: Parts) -> (r: serde_json::Value)
    ensures
        value_held(r) == parts.made(),
{
    match parts {
        Parts::Null => serde_json::Value::Null,
        Parts::Bool(b) => serde_json::Value::Bool(b),
        Parts::Str(s) => serde_json::Value::String(s),
        Parts::List(items) => serde_json::Value::Array(items),
    }
}

/// `serde_json::Map::new` makes a map without entries.
#[verifier::external_body]
fn new_map() -> (r: serde_json::Map<String, serde_json::Value>)
    ensures
        map_held(r) == Seq::<(Seq<char>, JsonView)>::empty(),
{
    serde_json::Map::new()
}

/// `serde_json::Map::insert` puts a value under a key, in place of one that was
/// there. The map is the ordered one, which is walked in the order of its keys.
#[verifier::external_body]
fn insert_entry(
    m: &mut serde_json::Map<String, serde_json::Value>,
    key: String,
    value: serde_json::Value,
)
    ensures
        map_held(*final(m)) == put(map_held(*old(m)), key@, value_held(value)),
{
    m.insert(key, value);
}

/// Makes the object with the entries of a `serde_json::Map`.
#[verifier::external_body]
fn make_object(entries: serde_json::Map<String, serde_json::Value>) -> (r: serde_json::Value)
    ensures
        value_held(r) == JsonView::Object(map_held(entries)),
{
    serde_json::Value::Object(entries)
}

/// The value that a text denotes; one that is no JSON stands for itself.
pub open spec fn value_or_text(text: Seq<char>) -> JsonView {
    match value_read(text) {
        Some(v) => v,
        None => JsonView::Str(text),
    }
}

/// A value as `serde_json` holds it: numbers read from their texts, the entries
/// of objects in the order of their keys, the last one under each key.
pub open spec fn settled(v: JsonView) -> JsonView
    decreases v,
{
    match v {
        JsonView::Number(s) => value_or_text(s),
        JsonView::List(items) => JsonView::List(
            Seq::new(
                items.len(),
                |i: int|
                    if 0 <= i < items.len() {
                        settled(items[i])
                    } else {
                        JsonView::Null
                    },
            ),
        ),
        JsonView::Object(entries) => JsonView::Object(
            put_all(Seq::empty(), settled_entries(entries)),
        ),
        _ => v,
    }
}

/// The entries of an object with settled values.
pub open spec fn settled_entries(entries: Seq<(Seq<char>, JsonView)>) -> Seq<(Seq<char>, JsonView)>
    decreases entries,
{
    Seq::new(
        entries.len(),
        |i: int|
            if 0 <= i < entries.len() {
                (entries[i].0, settled(entries[i].1))
            } else {
                (Seq::empty(), JsonView::Null)
            },
    )
}

/// The compact text of a value.
pub open spec fn compact(v: JsonView) -> Seq<char> {
    value_written(settled(v))
}

fn from_value(v: &serde_json::Value) -> (r: Json)
    ensures
        r@ == value_held(*v),
    decreases value_held(*v),
{
    let ghost whole = value_held(*v);
    match open_value(v) {
        Level::Null => Json::Null,
        Level::Bool(b) => Json::Bool(b),
        Level::Number(s) => Json::Number(s),
        Level::Str(s) => Json::Str(s),
        Level::List(items) => {
            let ghost all = whole->List_0;
            let mut read: Vec<Json> = Vec::new();
            let mut i: usize = 0;
            while i < items.len()
                invariant
                    i <= items.len(),
                    whole == value_held(*v),
                    whole is List,
                    all == whole->List_0,
                    all == Seq::new(items@.len(), |i: int| value_held(*items@[i])),
                    views(read@) == all.take(i as int),
                decreases items.len() - i,
            {
                assert(all[i as int] == value_held(*items@[i as int]));
                assert(decreases_to!(whole => whole->List_0));
                assert(decreases_to!(all => all[i as int]));
                let ghost before = views(read@);
                let item = from_value(items[i]);
                read.push(item);
                assert(views(read@) =~= before.push(item@));
                i += 1;
            }
            assert(all.take(all.len() as int) =~= all);
            proof {
                lemma_list_view(read);
            }
            Json::List(read)
        },
        Level::Object(entries) => {
            let ghost all = whole->Object_0;
            let mut read: Vec<(String, Json)> = Vec::new();
            let mut i: usize = 0;
            while i < entries.len()
                invariant
                    i <= entries.len(),
                    whole == value_held(*v),
                    whole is Object,
                    all == whole->Object_0,
                    all == Seq::new(
                        entries@.len(),
                        |i: int| (entries@[i].0@, value_held(*entries@[i].1)),
                    ),
                    pairs(read@) == all.take(i as int),
                decreases entries.len() - i,
            {
                assert(all[i as int] == (
                    entries@[i as int].0@,
                    value_held(*entries@[i as int].1),
                ));
                assert(decreases_to!(whole => whole->Object_0));
                assert(decreases_to!(all => all[i as int]));
                let ghost before = pairs(read@);
                assert(decreases_to!(all[i as int] => all[i as int].1));
                let item = from_value(entries[i].1);
                let key = entries[i].0.clone();
                read.push((key, item));
                assert(pairs(read@) =~= before.push((key@, item@)));
                i += 1;
            }
            assert(all.take(all.len() as int) =~= all);
            proof {
                lemma_object_view(read);
            }
            Json::Object(read)
        },
    }
}

fn to_value(j: &Json) -> (r: serde_json::Value)
    ensures
        value_held(r) == settled(j@),
    decreases j,
{
    match j {
        Json::Null => make_value(Parts::Null),
        Json::Bool(b) => make_value(Parts::Bool(*b)),
        Json::Str(s) => make_value(Parts::Str(s.clone())),
        Json::Number(s) => match read_value(s) {
            Some(v) => v,
            None => make_value(Parts::Str(s.clone())),
        },
        Json::List(items) => {
            proof {
                lemma_list_view(*items);
            }
            let ghost all = settled(j@)->List_0;
            let mut made: Vec<serde_json::Value> = Vec::new();
            let mut i: usize = 0;
            while i < items.len()
                invariant
                    i <= items.len(),
                    *j is List,
                    j->List_0 == *items,
                    all.len() == items.len(),
                    forall|k: int| 0 <= k < items.len() ==> all[k] == settled(items@[k]@),
                    held_list(made@) == all.take(i as int),
                decreases items.len() - i,
            {
                assert(decreases_to!(*j => j->List_0));
                assert(decreases_to!(items@ => items@[i as int]));
                let ghost before = held_list(made@);
                let item = to_value(&items[i]);
                let ghost held = value_held(item);
                made.push(item);
                assert(held_list(made@) =~= before.push(held));
                i += 1;
            }
            assert(all.take(all.len() as int) =~= all);
            make_value(Parts::List(made))
        },
        Json::Object(entries) => {
            proof {
                lemma_object_view(*entries);
            }
            let ghost all = settled_entries(pairs(entries@));
            let mut made = new_map();
            let mut i: usize = 0;
            assert(all.take(0) =~= Seq::empty());
            while i < entries.len()
                invariant
                    i <= entries.len(),
                    *j is Object,
                    j->Object_0 == *entries,
                    all.len() == entries.len(),
                    forall|k: int|
                        0 <= k < entries.len() ==> all[k] == (
                            entries@[k].0@,
                            settled(entries@[k].1@),
                        ),
                    map_held(made) == put_all(Seq::empty(), all.take(i as int)),
                decreases entries.len() - i,
            {
                assert(decreases_to!(*j => j->Object_0));
                assert(decreases_to!(entries@ => entries@[i as int]));
                let item = to_value(&entries[i].1);
                assert(all.take(i + 1).drop_last() =~= all.take(i as int));
                insert_entry(&mut made, entries[i].0.clone(), item);
                i += 1;
            }
            assert(all.take(all.len() as int) =~= all);
            make_object(made)
        },
    }
}

/// Reads a JSON text.
pub fn parse_json(text: &str) -> (r: Option<Json>)
    ensures
        maybe_view(r) == value_read(text@),
{
    match read_value(text) {
        Some(v) => Some(from_value(&v)),
        None => None,
    }
}

/// The value that a text denotes; one that is no JSON stands for itself.
pub fn json_or_text(text: &str) -> (r: Json)
    ensures
        r@ == value_or_text(text@),
{
    match parse_json(text) {
        Some(v) => v,
        None => text_json(text),
    }
}

/// A JSON text laid out on lines; one that is no JSON stays as it is.
pub open spec fn laid_out(text: Seq<char>) -> Seq<char> {
    match value_read(text) {
        Some(v) => value_laid_out(v),
        None => text,
    }
}

/// Lays a JSON text out on lines; one that is no JSON stays as it is.
pub fn lay_out(text: &str) -> (r: String)
    ensures
        r@ == laid_out(text@),
{
    match read_value(text) {
        Some(v) => lay_out_value(&v),
        None => text.to_owned(),
    }
}

/// Writes a value without white space.
pub fn compact_text(j: &Json) -> (r: String)
    ensures
        r@ == compact(j@),
{
    write_value(&to_value(j))
}

} // verus!
