//! JSON values.
//!
//! Tool schemas and tool arguments arrive as JSON from servers nobody here
//! controls. What the rest of the library reads of them is this tree.

use vstd::prelude::*;

use crate::text;
use crate::text::{same_text, text_before};

verus! {

/// A JSON value.
///
/// The fields of an object are listed in the order they are walked in;
/// [`Json::object`] puts them in key order.
#[derive(Debug, PartialEq)]
pub enum Json {
    Null,
    Bool(bool),
    /// A number, kept as the text it is written with.
    Number(String),
    Str(String),
    Array(Vec<Json>),
    Object(Vec<(String, Json)>),
}

/// What a JSON value holds, with its strings as character sequences.
pub enum JsonTree {
    Null,
    Bool(bool),
    Number(Seq<char>),
    Str(Seq<char>),
    Array(Seq<JsonTree>),
    Object(Seq<(Seq<char>, JsonTree)>),
}

impl View for Json {
    type V = JsonTree;

    open spec fn view(&self) -> JsonTree {
        tree_of(*self)
    }
}

/// The tree a JSON value stands for.
pub open spec fn tree_of(value: Json) -> JsonTree
    decreases value,
{
    match value {
        Json::Null => JsonTree::Null,
        Json::Bool(b) => JsonTree::Bool(b),
        Json::Number(text) => JsonTree::Number(text@),
        Json::Str(text) => JsonTree::Str(text@),
        Json::Array(items) => JsonTree::Array(trees_of(items@)),
        Json::Object(fields) => JsonTree::Object(fields_of(fields@)),
    }
}

/// The trees a list of JSON values stands for.
pub open spec fn trees_of(items: Seq<Json>) -> Seq<JsonTree>
    decreases items,
{
    Seq::new(
        items.len(),
        |i: int|
            if 0 <= i < items.len() {
                tree_of(items[i])
            } else {
                JsonTree::Null
            },
    )
}

/// The keys and trees a list of object fields stands for.
pub open spec fn fields_of(fields: Seq<(String, Json)>) -> Seq<(Seq<char>, JsonTree)>
    decreases fields,
{
    Seq::new(
        fields.len(),
        |i: int|
            if 0 <= i < fields.len() {
                (fields[i].0@, tree_of(fields[i].1))
            } else {
                (seq![], JsonTree::Null)
            },
    )
}

/// The value of the first field called `key`.
pub open spec fn lookup(fields: Seq<(Seq<char>, JsonTree)>, key: Seq<char>) -> Option<JsonTree>
    decreases fields.len(),
{
    if fields.len() == 0 {
        None
    } else if fields[0].0 == key {
        Some(fields[0].1)
    } else {
        lookup(fields.drop_first(), key)
    }
}

/// The value of the last field called `key`.
pub open spec fn last_value(fields: Seq<(Seq<char>, JsonTree)>, key: Seq<char>) -> Option<JsonTree>
    decreases fields.len(),
{
    if fields.len() == 0 {
        None
    } else if fields.last().0 == key {
        Some(fields.last().1)
    } else {
        last_value(fields.drop_last(), key)
    }
}

/// Whether the keys stand in strictly ascending order, so that none occurs
/// twice.
pub open spec fn in_key_order(fields: Seq<(Seq<char>, JsonTree)>) -> bool {
    forall|i: int, j: int|
        0 <= i < j < fields.len() ==> text::before((#[trigger] fields[i]).0, (#[trigger] fields[j]).0)
}

impl JsonTree {
    /// The value under `key`, where this is an object that has one.
    pub open spec fn get(self, key: Seq<char>) -> Option<JsonTree> {
        match self {
            JsonTree::Object(fields) => lookup(fields, key),
            _ => None,
        }
    }

    /// The text, where this is a string.
    pub open spec fn as_str(self) -> Option<Seq<char>> {
        match self {
            JsonTree::Str(text) => Some(text),
            _ => None,
        }
    }
}

/// What an optional JSON value holds.
pub open spec fn optional_tree(value: Option<&Json>) -> Option<JsonTree> {
    match value {
        Some(value) => Some(value@),
        None => None,
    }
}

/// What [`lookup`] finds, when it is found at position `at`.
proof fn lemma_lookup_at(fields: Seq<(Seq<char>, JsonTree)>, key: Seq<char>, at: int)
    requires
        0 <= at <= fields.len(),
        forall|i: int| 0 <= i < at ==> (#[trigger] fields[i]).0 != key,
    ensures
        at < fields.len() && fields[at].0 == key ==> lookup(fields, key) == Some(fields[at].1),
        at == fields.len() ==> lookup(fields, key) is None,
    decreases at,
{
    if at > 0 {
        assert(fields[0].0 != key);
        lemma_lookup_at(fields.drop_first(), key, at - 1);
    }
}

/// Where the first field called `key` stands, or the number of fields.
pub proof fn first_field(fields: Seq<(Seq<char>, JsonTree)>, key: Seq<char>) -> (at: int)
    ensures
        0 <= at <= fields.len(),
        forall|i: int| 0 <= i < at ==> (#[trigger] fields[i]).0 != key,
        at < fields.len() ==> fields[at].0 == key && lookup(fields, key) == Some(fields[at].1),
        at == fields.len() ==> lookup(fields, key) is None,
    decreases fields.len(),
{
    if fields.len() == 0 || fields[0].0 == key {
        0
    } else {
        let at = 1 + first_field(fields.drop_first(), key);
        assert forall|i: int| 0 <= i < at implies (#[trigger] fields[i]).0 != key by {
            if i > 0 {
                assert(fields[i] == fields.drop_first()[i - 1]);
            }
        }
        at
    }
}

/// Putting a new field in front of some others changes the last value of its
/// own key only where the others have none.
proof fn lemma_last_value_prepend(
    field: (Seq<char>, JsonTree),
    rest: Seq<(Seq<char>, JsonTree)>,
    key: Seq<char>,
)
    ensures
        last_value(seq![field] + rest, key) == (if last_value(rest, key) is None && field.0 == key {
            Some(field.1)
        } else {
            last_value(rest, key)
        }),
    decreases rest.len(),
{
    let all = seq![field] + rest;
    if rest.len() == 0 {
        assert(all.drop_last().len() == 0);
        assert(all.last() == field);
        assert(last_value(all.drop_last(), key) is None);
    } else {
        assert(all.last() == rest.last());
        assert(all.drop_last() =~= seq![field] + rest.drop_last());
        lemma_last_value_prepend(field, rest.drop_last(), key);
    }
}

/// The fields of the value at `i` are smaller than the object that holds it.
pub proof fn lemma_field_smaller(value: Json, i: int)
    requires
        value is Object,
        0 <= i < value->Object_0@.len(),
    ensures
        decreases_to!(value => value->Object_0@[i].1),
        decreases_to!(value@ => value@->Object_0),
        value@->Object_0[i] == (value->Object_0@[i].0@, value->Object_0@[i].1@),
{
    let fields = value->Object_0;
    assert(decreases_to!(value => value->Object_0));
    assert(decreases_to!(fields => fields@));
    assert(decreases_to!(fields@ => fields@[i]));
    assert(decreases_to!(fields@[i] => fields@[i].1));
}

/// The items of an array are smaller than the array.
pub proof fn lemma_item_smaller(value: Json, i: int)
    requires
        value is Array,
        0 <= i < value->Array_0@.len(),
    ensures
        decreases_to!(value => value->Array_0@[i]),
{
    let items = value->Array_0;
    assert(decreases_to!(value => value->Array_0));
    assert(decreases_to!(items => items@));
    assert(decreases_to!(items@ => items@[i]));
}

impl Clone for Json {
    fn clone(&self) -> (copy: Self)
        ensures
            copy@ == self@,
        decreases *self,
    {
        match self {
            Json::Null => Json::Null,
            Json::Bool(b) => Json::Bool(*b),
            Json::Number(text) => Json::Number(text.clone()),
            Json::Str(text) => Json::Str(text.clone()),
            Json::Array(items) => {
                let mut copies: Vec<Json> = Vec::new();
                let mut i: usize = 0;
                while i < items.len()
                    invariant
                        *self == Json::Array(*items),
                        i <= items@.len(),
                        trees_of(copies@) =~= trees_of(items@).take(i as int),
                    decreases items@.len() - i,
                {
                    proof {
                        lemma_item_smaller(*self, i as int);
                    }
                    let ghost was = copies@;
                    let item = items[i].clone();
                    copies.push(item);
                    assert(trees_of(copies@) =~= trees_of(was).push(tree_of(item)));
                    assert(trees_of(items@)[i as int] == tree_of(items@[i as int]));
                    i += 1;
                }
                assert(trees_of(copies@) =~= trees_of(items@));
                Json::Array(copies)
            },
            Json::Object(fields) => {
                let mut copies: Vec<(String, Json)> = Vec::new();
                let mut i: usize = 0;
                while i < fields.len()
                    invariant
                        *self == Json::Object(*fields),
                        i <= fields@.len(),
                        fields_of(copies@) =~= fields_of(fields@).take(i as int),
                    decreases fields@.len() - i,
                {
                    proof {
                        lemma_field_smaller(*self, i as int);
                    }
                    let ghost was = copies@;
                    let field = (fields[i].0.clone(), fields[i].1.clone());
                    copies.push(field);
                    assert(fields_of(copies@) =~= fields_of(was).push((field.0@, field.1@)));
                    i += 1;
                }
                assert(fields_of(copies@) =~= fields_of(fields@));
                Json::Object(copies)
            },
        }
    }
}

/// The value of the first field called `key`.
pub fn find_field<'a>(fields: &'a Vec<(String, Json)>, key: &str) -> (found: Option<&'a Json>)
    ensures
        optional_tree(found) == lookup(fields_of(fields@), key@),
        found matches Some(value) ==> exists|i: int|
            0 <= i < fields@.len() && *value == (#[trigger] fields@[i]).1,
{
    let ghost trees = fields_of(fields@);
    let mut i: usize = 0;
    while i < fields.len()
        invariant
            i <= fields@.len(),
            trees == fields_of(fields@),
            forall|j: int| 0 <= j < i ==> (#[trigger] trees[j]).0 != key@,
        decreases fields@.len() - i,
    {
        if same_text(fields[i].0.as_str(), key) {
            proof {
                assert(trees[i as int].0 == key@);
                lemma_lookup_at(trees, key@, i as int);
            }
            return Some(&fields[i].1);
        }
        assert(trees[i as int].0 != key@);
        i += 1;
    }
    proof {
        lemma_lookup_at(trees, key@, i as int);
    }
    None
}

/// Add a field where its key belongs, unless the key is there already.
fn insert_field(fields: &mut Vec<(String, Json)>, field: (String, Json))
    requires
        in_key_order(fields_of(old(fields)@)),
    ensures
        in_key_order(fields_of(final(fields)@)),
        forall|key: Seq<char>| #[trigger]
            lookup(fields_of(final(fields)@), key) == (if key == field.0@ && lookup(
                fields_of(old(fields)@),
                key,
            ) is None {
                Some(field.1@)
            } else {
                lookup(fields_of(old(fields)@), key)
            }),
{
    let ghost start = fields_of(fields@);
    let mut at: usize = 0;
    while at < fields.len() && text_before(fields[at].0.as_str(), field.0.as_str())
        invariant
            at <= fields@.len(),
            start == fields_of(fields@),
            forall|i: int| 0 <= i < at ==> text::before((#[trigger] start[i]).0, field.0@),
        decreases fields@.len() - at,
    {
        assert(text::before(start[at as int].0, field.0@));
        at += 1;
    }
    proof {
        assert forall|i: int| 0 <= i < at implies (#[trigger] start[i]).0 != field.0@ by {
            text::lemma_before_total(start[i].0, field.0@);
        }
    }
    if at < fields.len() && same_text(fields[at].0.as_str(), field.0.as_str()) {
        proof {
            assert(start[at as int].0 == field.0@);
            lemma_lookup_at(start, field.0@, at as int);
        }
        return ;
    }
    let ghost added = (field.0@, field.1@);
    fields.insert(at, field);
    let ghost end = fields_of(fields@);
    proof {
        assert(end =~= start.insert(at as int, added));
        assert forall|i: int| at <= i < start.len() implies text::before(
            added.0,
            (#[trigger] start[i]).0,
        ) by {
            assert(start[at as int].0 != added.0);
            text::lemma_before_total(start[at as int].0, added.0);
            if i > at {
                text::lemma_before_transitive(added.0, start[at as int].0, start[i].0);
            }
        }
        assert forall|key: Seq<char>| #[trigger]
            lookup(end, key) == (if key == added.0 && lookup(start, key) is None {
                Some(added.1)
            } else {
                lookup(start, key)
            }) by {
            lemma_lookup_inserted(start, at as int, added, key);
        }
        assert forall|i: int, j: int| 0 <= i < j < end.len() implies text::before(
            (#[trigger] end[i]).0,
            (#[trigger] end[j]).0,
        ) by {
            if i < at && j > at {
                assert(end[i] == start[i] && end[j] == start[j - 1]);
            } else if i < at && j < at {
                assert(end[i] == start[i] && end[j] == start[j]);
            } else if i < at {
                assert(end[i] == start[i]);
            } else if i == at {
                assert(end[j] == start[j - 1]);
            } else {
                assert(end[i] == start[i - 1] && end[j] == start[j - 1]);
            }
        }
    }
}

/// How adding one field between fields with other keys changes what is
/// found.
proof fn lemma_lookup_inserted(
    fields: Seq<(Seq<char>, JsonTree)>,
    at: int,
    field: (Seq<char>, JsonTree),
    key: Seq<char>,
)
    requires
        0 <= at <= fields.len(),
        forall|i: int| 0 <= i < at ==> text::before((#[trigger] fields[i]).0, field.0),
        forall|i: int| at <= i < fields.len() ==> text::before(field.0, (#[trigger] fields[i]).0),
    ensures
        lookup(fields.insert(at, field), key) == (if key == field.0 && lookup(fields, key) is None {
            Some(field.1)
        } else {
            lookup(fields, key)
        }),
{
    let wider = fields.insert(at, field);
    let first = first_field(fields, key);
    if key == field.0 {
        assert forall|i: int| 0 <= i < fields.len() implies (#[trigger] fields[i]).0 != key by {
            text::lemma_before_total(fields[i].0, key);
        }
        lemma_lookup_at(fields, key, fields.len() as int);
        assert forall|i: int| 0 <= i < at implies (#[trigger] wider[i]).0 != key by {
            assert(wider[i] == fields[i]);
        }
        lemma_lookup_at(wider, key, at);
    } else {
        let moved = if first < at {
            first
        } else {
            first + 1
        };
        assert forall|i: int| 0 <= i < moved implies (#[trigger] wider[i]).0 != key by {
            if i < at {
                assert(wider[i] == fields[i]);
            } else if i > at {
                assert(wider[i] == fields[i - 1]);
            }
        }
        lemma_lookup_at(wider, key, moved);
    }
}

impl Json {
    /// The value under `key`, where this is an object that has one.
    pub fn get(&self, key: &str) -> (found: Option<&Json>)
        ensures
            optional_tree(found) == self@.get(key@),
    {
        match self {
            Json::Object(fields) => find_field(fields, key),
            _ => None,
        }
    }

    /// The text, where this is a string.
    pub fn as_str(&self) -> (text: Option<&str>)
        ensures
            text is Some <==> self@.as_str() is Some,
            text matches Some(text) ==> Some(text@) == self@.as_str(),
    {
        match self {
            Json::Str(text) => Some(text.as_str()),
            _ => None,
        }
    }

    /// An object with the given fields in key order. Where a key is given
    /// more than once, the last value stands.
    pub fn object(fields: Vec<(String, Json)>) -> (value: Json)
        ensures
            value@ is Object,
            in_key_order(value@->Object_0),
            forall|key: Seq<char>| #[trigger]
                lookup(value@->Object_0, key) == last_value(fields_of(fields@), key),
    {
        let ghost given = fields_of(fields@);
        let mut left = fields;
        let mut sorted: Vec<(String, Json)> = Vec::new();
        while left.len() > 0
            invariant
                left@.len() <= given.len(),
                fields_of(left@) =~= given.take(left@.len() as int),
                in_key_order(fields_of(sorted@)),
                forall|key: Seq<char>| #[trigger]
                    lookup(fields_of(sorted@), key) == last_value(
                        given.skip(left@.len() as int),
                        key,
                    ),
            decreases left@.len(),
        {
            let ghost was = left@;
            match left.pop() {
                Some(field) => {
                    let ghost added = given[left@.len() as int];
                    proof {
                        assert(fields_of(was)[left@.len() as int] == added);
                        assert(given.skip(left@.len() as int) =~= seq![added] + given.skip(
                            was.len() as int,
                        ));
                        assert forall|key: Seq<char>| #[trigger]
                            last_value(given.skip(left@.len() as int), key) == (if last_value(
                                given.skip(was.len() as int),
                                key,
                            ) is None && added.0 == key {
                                Some(added.1)
                            } else {
                                last_value(given.skip(was.len() as int), key)
                            }) by {
                            lemma_last_value_prepend(added, given.skip(was.len() as int), key);
                        }
                    }
                    insert_field(&mut sorted, field);
                },
                None => {},
            }
        }
        assert(given.skip(0) =~= given);
        Json::Object(sorted)
    }
}

// ── laws ─────────────────────────────────────────────────────────────

/// A key finds the value of the first field that goes by it, and nothing where
/// none does. Only an object has fields, and only a string is a text.
pub proof fn a_key_finds_its_first_field(
    fields: Seq<(Seq<char>, JsonTree)>,
    key: Seq<char>,
    i: int,
    other: JsonTree,
)
    ensures
        0 <= i < fields.len() && fields[i].0 == key && (forall|j: int|
            0 <= j < i ==> (#[trigger] fields[j]).0 != key) ==> lookup(fields, key) == Some(
            fields[i].1,
        ),
        (forall|j: int| 0 <= j < fields.len() ==> (#[trigger] fields[j]).0 != key) ==> lookup(
            fields,
            key,
        ) is None,
        JsonTree::Object(fields).get(key) == lookup(fields, key),
        !(other is Object) ==> other.get(key) is None,
        JsonTree::Str(key).as_str() == Some(key),
        !(other is Str) ==> other.as_str() is None,
    decreases fields.len(),
{
    if fields.len() > 0 {
        let rest = fields.drop_first();
        a_key_finds_its_first_field(rest, key, i - 1, other);
        if forall|j: int| 0 <= j < fields.len() ==> (#[trigger] fields[j]).0 != key {
            assert(fields[0].0 != key);
            assert forall|j: int| 0 <= j < rest.len() implies (#[trigger] rest[j]).0 != key by {
                assert(rest[j] == fields[j + 1]);
            }
        }
        if 0 < i < fields.len() && fields[i].0 == key && (forall|j: int|
            0 <= j < i ==> (#[trigger] fields[j]).0 != key) {
            assert(fields[0].0 != key);
            assert(rest[i - 1] == fields[i]);
            assert forall|j: int| 0 <= j < i - 1 implies (#[trigger] rest[j]).0 != key by {
                assert(rest[j] == fields[j + 1]);
            }
        }
    }
}

/// A value holds what it is made of, part for part.
pub proof fn values_hold_their_parts(
    text: String,
    flag: bool,
    items: Vec<Json>,
    fields: Vec<(String, Json)>,
)
    ensures
        Json::Null@ == JsonTree::Null,
        Json::Bool(flag)@ == JsonTree::Bool(flag),
        Json::Number(text)@ == JsonTree::Number(text@),
        Json::Str(text)@ == JsonTree::Str(text@),
        Json::Array(items)@ == JsonTree::Array(items@.map_values(|item: Json| item@)),
        Json::Object(fields)@ == JsonTree::Object(
            fields@.map_values(|field: (String, Json)| (field.0@, field.1@)),
        ),
{
    assert(trees_of(items@) =~= items@.map_values(|item: Json| item@));
    assert(fields_of(fields@) =~= fields@.map_values(
        |field: (String, Json)| (field.0@, field.1@),
    ));
}

/// Where several fields go by a key, the last of them counts.
pub proof fn the_last_of_a_key_counts(
    fields: Seq<(Seq<char>, JsonTree)>,
    field: (Seq<char>, JsonTree),
    key: Seq<char>,
)
    ensures
        last_value(seq![], key) is None,
        last_value(fields.push(field), key) == (if field.0 == key {
            Some(field.1)
        } else {
            last_value(fields, key)
        }),
{
    assert(fields.push(field).drop_last() =~= fields);
}

/// Fields in key order have their keys in dictionary order, none twice.
pub proof fn keys_stand_in_order(fields: Seq<(Seq<char>, JsonTree)>)
    ensures
        in_key_order(fields) <==> forall|i: int, j: int|
            0 <= i < j < fields.len() ==> text::before(
                (#[trigger] fields[i]).0,
                (#[trigger] fields[j]).0,
            ),
{
}

} // verus!
