//! Types that schemas share by name.
//!
//! A schema may bring definitions along and refer to them. Each is declared
//! once, above whatever refers to it, so that several tools can share it. What
//! two schemas call by the same name need not be the same: where it is not, the
//! later definitions are declared beside the earlier ones under names of their
//! own, so that a reference always reads as the shape that holds.

use vstd::prelude::*;

use super::declarations;
use super::declarations::{candidate_string, identifiers_for};
use super::schema_to_ts;
use super::schema_to_ts::{padding_string, render_at};
use crate::json;
use crate::json::{Json, JsonTree};
use crate::text;
use crate::text::{chars_of, same_text};

verus! {

// ── definitions ──────────────────────────────────────────────────────

/// The fields of the object under `key`, or none.
pub open spec fn entries_under(schema: JsonTree, key: Seq<char>) -> Seq<(Seq<char>, JsonTree)> {
    match schema.get(key) {
        Some(JsonTree::Object(fields)) => fields,
        _ => seq![],
    }
}

/// A definition a schema brings along: what a `$ref` to it says, what it is
/// called, and the schema it stands for.
pub struct DefinitionView {
    pub target: Seq<char>,
    pub name: Seq<char>,
    pub schema: JsonTree,
}

/// The definitions under one keyword, which a `$ref` reaches behind `prefix`.
pub open spec fn definitions_under(schema: JsonTree, key: Seq<char>, prefix: Seq<char>) -> Seq<
    DefinitionView,
> {
    entries_under(schema, key).map_values(
        |entry: (Seq<char>, JsonTree)|
            DefinitionView { target: prefix + entry.0, name: entry.0, schema: entry.1 },
    )
}

/// The definitions a schema brings along, under either dialect's keyword.
pub open spec fn definitions(schema: JsonTree) -> Seq<DefinitionView> {
    definitions_under(schema, "$defs"@, "#/$defs/"@) + definitions_under(
        schema,
        "definitions"@,
        "#/definitions/"@,
    )
}

/// The names that mean something in every declaration, so that no definition
/// can have one of them for itself.
pub open spec fn built_in() -> Seq<Seq<char>> {
    seq![
        "Promise"@,
        "Record"@,
        "boolean"@,
        "never"@,
        "null"@,
        "number"@,
        "string"@,
        "unknown"@,
    ]
}

/// What some definitions are called, behind the names that are not to be had.
pub open spec fn names_asked(definitions: Seq<DefinitionView>) -> Seq<Seq<char>> {
    built_in() + definitions.map_values(|definition: DefinitionView| definition.name)
}

/// The identifiers of a schema's own definitions, one each.
pub open spec fn own_identifiers(definitions: Seq<DefinitionView>) -> Seq<Seq<char>> {
    declarations::assigned_all(names_asked(definitions)).skip(built_in().len() as int)
}

/// The identifiers of a schema's own definitions in the `k`-th round: the plain
/// ones first, then all of them with a counter behind.
pub open spec fn identifiers_in_round(definitions: Seq<DefinitionView>, k: nat) -> Seq<Seq<char>> {
    own_identifiers(definitions).map_values(
        |identifier: Seq<char>| declarations::candidate(identifier, k),
    )
}

/// What a `$ref` to each definition stands for in the `k`-th round.
pub open spec fn named_in_round(definitions: Seq<DefinitionView>, k: nat) -> Seq<
    (Seq<char>, Seq<char>),
> {
    Seq::new(
        definitions.len(),
        |i: int| (definitions[i].target, identifiers_in_round(definitions, k)[i]),
    )
}

/// The types some definitions stand for in the `k`-th round, each under its
/// identifier.
pub open spec fn types_in_round(definitions: Seq<DefinitionView>, k: nat) -> Seq<
    (Seq<char>, Seq<char>),
> {
    Seq::new(
        definitions.len(),
        |i: int|
            (
                identifiers_in_round(definitions, k)[i],
                schema_to_ts::type_of(definitions[i].schema, seq![], named_in_round(definitions, k)),
            ),
    )
}

/// The declaration of the type `ty` under the name `identifier`: an interface
/// where the type is an object type, an alias otherwise.
pub open spec fn type_declaration(identifier: Seq<char>, ty: Seq<char>) -> Seq<char> {
    if ty.len() > 0 && ty[0] == '{' && ty.last() == '}' {
        "interface "@ + identifier + " "@ + ty + "\n"@
    } else {
        "type "@ + identifier + " = "@ + ty + ";\n"@
    }
}

/// The types declared so far, each under its identifier.
#[verifier::ext_equal]
pub struct DeclaredTypes {
    pub types: Seq<(Seq<char>, Seq<char>)>,
}

impl DeclaredTypes {
    /// Whether a type is declared under an identifier.
    pub open spec fn has(self, identifier: Seq<char>) -> bool {
        exists|i: int| 0 <= i < self.types.len() && (#[trigger] self.types[i]).0 == identifier
    }

    /// Whether nothing but this type is declared under its identifier.
    pub open spec fn admits(self, entry: (Seq<char>, Seq<char>)) -> bool {
        forall|i: int|
            0 <= i < self.types.len() && (#[trigger] self.types[i]).0 == entry.0
                ==> self.types[i].1 == entry.1
    }

    /// Whether nothing but these types is declared under their identifiers.
    pub open spec fn admits_all(self, entries: Seq<(Seq<char>, Seq<char>)>) -> bool {
        forall|i: int| 0 <= i < entries.len() ==> self.admits(#[trigger] entries[i])
    }

    /// With one more type declared, unless its identifier has one.
    pub open spec fn with(self, entry: (Seq<char>, Seq<char>)) -> DeclaredTypes {
        if self.has(entry.0) {
            self
        } else {
            DeclaredTypes { types: self.types.push(entry) }
        }
    }

    /// With each of some types declared in turn.
    pub open spec fn with_all(self, entries: Seq<(Seq<char>, Seq<char>)>) -> DeclaredTypes
        decreases entries.len(),
    {
        if entries.len() == 0 {
            self
        } else {
            self.with_all(entries.drop_last()).with(entries.last())
        }
    }

    /// Whether the `k`-th round is the first in which some definitions go with
    /// what is declared.
    pub open spec fn is_round(self, definitions: Seq<DefinitionView>, k: nat) -> bool {
        &&& k >= 1
        &&& self.admits_all(types_in_round(definitions, k))
        &&& forall|j: nat|
            1 <= j < k ==> !self.admits_all(#[trigger] types_in_round(definitions, j))
    }

    /// The first round in which some definitions go with what is declared.
    pub open spec fn round(self, definitions: Seq<DefinitionView>) -> nat {
        choose|k: nat| self.is_round(definitions, k)
    }

    /// What a `$ref` to each of some definitions stands for.
    pub open spec fn named(self, definitions: Seq<DefinitionView>) -> Seq<
        (Seq<char>, Seq<char>),
    > {
        named_in_round(definitions, self.round(definitions))
    }

    /// With some definitions declared. A type that is declared already is
    /// shared; where it is another that goes by the name, the definitions are
    /// declared beside it under names of their own.
    pub open spec fn with_definitions(self, definitions: Seq<DefinitionView>) -> DeclaredTypes {
        self.with_all(types_in_round(definitions, self.round(definitions)))
    }

    /// The text declaring the types.
    pub open spec fn text(self) -> Seq<char>
        decreases self.types.len(),
    {
        if self.types.len() == 0 {
            seq![]
        } else {
            DeclaredTypes { types: self.types.drop_last() }.text() + type_declaration(
                self.types.last().0,
                self.types.last().1,
            )
        }
    }
}

/// Some texts without as much of their beginning as `name` is long.
spec fn endings(name: Seq<char>, taken: Seq<Seq<char>>) -> Seq<Seq<char>> {
    taken.map_values(|text: Seq<char>| text.skip(name.len() as int))
}

/// Some texts without as much of their beginning as each of `names` is long.
spec fn all_endings(names: Seq<Seq<char>>, taken: Seq<Seq<char>>) -> Seq<Seq<char>>
    decreases names.len(),
{
    if names.len() == 0 {
        seq![]
    } else {
        all_endings(names.drop_last(), taken) + endings(names.last(), taken)
    }
}

/// How many endings there are, and that a spelling that is taken leaves its
/// counter among them.
proof fn lemma_all_endings(names: Seq<Seq<char>>, taken: Seq<Seq<char>>)
    ensures
        all_endings(names, taken).len() == names.len() * taken.len(),
        forall|i: int, j: nat|
            0 <= i < names.len() && taken.contains(#[trigger] declarations::candidate(names[i], j))
                ==> all_endings(names, taken).contains(declarations::candidate(seq![], j)),
    decreases names.len(),
{
    if names.len() > 0 {
        let fewer = names.drop_last();
        let earlier = all_endings(fewer, taken);
        let own = endings(names.last(), taken);
        let all = all_endings(names, taken);
        lemma_all_endings(fewer, taken);
        assert(names.len() * taken.len() == fewer.len() * taken.len() + taken.len())
            by (nonlinear_arith)
            requires
                names.len() == fewer.len() + 1,
        ;
        assert forall|i: int, j: nat|
            0 <= i < names.len() && taken.contains(
                #[trigger] declarations::candidate(names[i], j),
            ) implies all.contains(declarations::candidate(seq![], j)) by {
            let bare = declarations::candidate(seq![], j);
            if i < fewer.len() {
                assert(taken.contains(declarations::candidate(fewer[i], j)));
                let at = choose|at: int| 0 <= at < earlier.len() && earlier[at] == bare;
                assert(all[at] == bare);
            } else {
                let full = declarations::candidate(names[i], j);
                let at = choose|at: int| 0 <= at < taken.len() && taken[at] == full;
                assert(full.skip(names[i].len() as int) =~= bare);
                assert(own[at] == bare);
                assert(all[earlier.len() + at] == bare);
            }
        }
    }
}

/// Only so many rounds can fail: each of them fails on a name that is taken.
proof fn lemma_rounds_bound(types: DeclaredTypes, definitions: Seq<DefinitionView>, k: nat)
    requires
        k >= 1,
        forall|j: nat|
            1 <= j < k ==> !types.admits_all(#[trigger] types_in_round(definitions, j)),
    ensures
        k <= own_identifiers(definitions).len() * types.types.len() + 1,
{
    let names = own_identifiers(definitions);
    let taken = types.types.map_values(|entry: (Seq<char>, Seq<char>)| entry.0);
    let left = all_endings(names, taken);
    lemma_all_endings(names, taken);
    lemma_own_identifiers(definitions);
    assert forall|j: nat| 1 <= j < k implies left.contains(
        #[trigger] declarations::candidate(seq![], j),
    ) by {
        let tried = types_in_round(definitions, j);
        assert(!types.admits_all(tried));
        let i = choose|i: int| 0 <= i < tried.len() && !types.admits(#[trigger] tried[i]);
        let at = choose|at: int|
            0 <= at < types.types.len() && (#[trigger] types.types[at]).0 == tried[i].0
                && types.types[at].1 != tried[i].1;
        assert(taken[at] == declarations::candidate(names[i], j));
        assert(taken.contains(declarations::candidate(names[i], j)));
    }
    declarations::lemma_taken_bound(seq![], left, k);
}

/// Each definition has an identifier.
proof fn lemma_own_identifiers(definitions: Seq<DefinitionView>)
    ensures
        own_identifiers(definitions).len() == definitions.len(),
        declarations::assigned_all(names_asked(definitions)).len() == built_in().len()
            + definitions.len(),
{
    declarations::lemma_assigned_all(names_asked(definitions), 0);
}

/// The first round that succeeds is the only first one.
proof fn lemma_round_is(types: DeclaredTypes, definitions: Seq<DefinitionView>, k: nat)
    requires
        types.is_round(definitions, k),
    ensures
        types.round(definitions) == k,
{
    let chosen = types.round(definitions);
    assert(types.is_round(definitions, chosen));
    if chosen < k {
        assert(!types.admits_all(types_in_round(definitions, chosen)));
    } else if k < chosen {
        assert(!types.admits_all(types_in_round(definitions, k)));
    }
}

/// The first round that succeeds, where those before the `k`-th are known to
/// fail.
proof fn round_from(types: DeclaredTypes, definitions: Seq<DefinitionView>, k: nat) -> (found: nat)
    requires
        k >= 1,
        forall|j: nat|
            1 <= j < k ==> !types.admits_all(#[trigger] types_in_round(definitions, j)),
    ensures
        types.is_round(definitions, found),
    decreases own_identifiers(definitions).len() * types.types.len() + 2 - k,
{
    lemma_rounds_bound(types, definitions, k);
    if types.admits_all(types_in_round(definitions, k)) {
        k
    } else {
        round_from(types, definitions, k + 1)
    }
}

/// Some round always succeeds, so the first one is what it says.
pub proof fn a_round_succeeds(types: DeclaredTypes, definitions: Seq<DefinitionView>)
    ensures
        types.is_round(definitions, types.round(definitions)),
{
    let k = round_from(types, definitions, 1);
    lemma_round_is(types, definitions, k);
}

/// A schema without definitions declares nothing, and has nothing to refer to.
pub proof fn without_definitions_nothing_is_declared(types: DeclaredTypes)
    ensures
        types.named(seq![]) == Seq::<(Seq<char>, Seq<char>)>::empty(),
        types.with_definitions(seq![]) == types,
{
    let none = types_in_round(seq![], types.round(seq![]));
    assert(none =~= seq![]);
    assert(types.named(seq![]) =~= Seq::empty());
}

/// A definition a schema brings along.
struct Definition<'a> {
    target: String,
    name: &'a str,
    schema: &'a Json,
}

impl<'a> View for Definition<'a> {
    type V = DefinitionView;

    closed spec fn view(&self) -> DefinitionView {
        DefinitionView { target: self.target@, name: self.name@, schema: self.schema@ }
    }
}

/// What some definitions hold.
spec fn definition_views<'a>(definitions: Seq<Definition<'a>>) -> Seq<DefinitionView> {
    definitions.map_values(|definition: Definition<'a>| definition@)
}

/// Add the definitions under one keyword.
fn push_definitions<'a>(
    found: &mut Vec<Definition<'a>>,
    schema: &'a Json,
    key: &str,
    prefix: &str,
)
    ensures
        definition_views(final(found)@) == definition_views(old(found)@) + definitions_under(
            schema@,
            key@,
            prefix@,
        ),
{
    let ghost start = definition_views(found@);
    let ghost all = definitions_under(schema@, key@, prefix@);
    let entries: &'a Vec<(String, Json)> = match schema.get(key) {
        Some(Json::Object(entries)) => entries,
        _ => {
            assert(start + all =~= start);
            return;
        },
    };
    let mut i: usize = 0;
    assert(definition_views(found@) =~= start + all.take(0));
    while i < entries.len()
        invariant
            i <= entries@.len(),
            entries_under(schema@, key@) == json::fields_of(entries@),
            all == definitions_under(schema@, key@, prefix@),
            definition_views(found@) == start + all.take(i as int),
        decreases entries@.len() - i,
    {
        let ghost was = definition_views(found@);
        let name: &'a str = entries[i].0.as_str();
        let definition = Definition {
            target: prefix.to_string().concat(name),
            name,
            schema: &entries[i].1,
        };
        let ghost added = definition@;
        found.push(definition);
        proof {
            assert(json::fields_of(entries@)[i as int] == (name@, entries@[i as int].1@));
            assert(added == all[i as int]);
            assert(definition_views(found@) =~= was.push(added));
            assert(was.push(all[i as int]) =~= start + all.take(i + 1));
        }
        i += 1;
    }
    assert(all.take(i as int) =~= all);
}

/// The definitions a schema brings along.
fn definitions_of<'a>(schema: &'a Json) -> (found: Vec<Definition<'a>>)
    ensures
        definition_views(found@) == definitions(schema@),
{
    let mut found: Vec<Definition<'a>> = Vec::new();
    push_definitions(&mut found, schema, "$defs", "#/$defs/");
    push_definitions(&mut found, schema, "definitions", "#/definitions/");
    assert(definition_views(found@) =~= definitions(schema@));
    found
}

/// The identifiers of a schema's own definitions, one each.
fn own_identifiers_of<'a>(definitions: &Vec<Definition<'a>>) -> (identifiers: Vec<String>)
    ensures
        text::texts(identifiers@) == own_identifiers(definition_views(definitions@)),
        identifiers@.len() == definitions@.len(),
{
    let ghost views = definition_views(definitions@);
    let ghost asked = names_asked(views);
    let mut names: Vec<String> = Vec::new();
    names.push("Promise".to_string());
    names.push("Record".to_string());
    names.push("boolean".to_string());
    names.push("never".to_string());
    names.push("null".to_string());
    names.push("number".to_string());
    names.push("string".to_string());
    names.push("unknown".to_string());
    assert(text::texts(names@) =~= built_in());
    assert(asked.take(8) =~= built_in());
    let skipped: usize = names.len();
    let mut i: usize = 0;
    while i < definitions.len()
        invariant
            i <= definitions@.len(),
            skipped == 8,
            views == definition_views(definitions@),
            asked == names_asked(views),
            text::texts(names@) == asked.take(8 + i),
        decreases definitions@.len() - i,
    {
        let ghost was = text::texts(names@);
        names.push(definitions[i].name.to_string());
        proof {
            assert(asked[8 + i] == views[i as int].name);
            assert(text::texts(names@) =~= was.push(asked[8 + i]));
            assert(was.push(asked[8 + i]) =~= asked.take(8 + i + 1));
        }
        i += 1;
    }
    assert(asked.take(8 + i) =~= asked);
    let all = identifiers_for(&names);
    let ghost assigned = text::texts(all@);
    proof {
        lemma_own_identifiers(views);
        assert(names@.len() == text::texts(names@).len());
    }
    let mut identifiers: Vec<String> = Vec::new();
    let mut k: usize = skipped;
    assert(text::texts(identifiers@) =~= assigned.skip(8).take(0));
    while k < all.len()
        invariant
            8 <= k <= all@.len(),
            assigned == text::texts(all@),
            identifiers@.len() == k - 8,
            text::texts(identifiers@) == assigned.skip(8).take(k - 8),
        decreases all@.len() - k,
    {
        let ghost was = text::texts(identifiers@);
        identifiers.push(all[k].clone());
        proof {
            assert(assigned.skip(8)[k - 8] == all@[k as int]@);
            assert(text::texts(identifiers@) =~= was.push(all@[k as int]@));
            assert(was.push(all@[k as int]@) =~= assigned.skip(8).take(k - 7));
        }
        k += 1;
    }
    assert(assigned.skip(8).take(k - 8) =~= assigned.skip(8));
    identifiers
}

/// What a `$ref` to each definition stands for in the `k`-th round.
fn named_at<'a>(definitions: &Vec<Definition<'a>>, identifiers: &Vec<String>, k: u128) -> (named:
    Vec<(String, String)>)
    requires
        text::texts(identifiers@) == own_identifiers(definition_views(definitions@)),
        identifiers@.len() == definitions@.len(),
    ensures
        schema_to_ts::pairs(named@) == named_in_round(definition_views(definitions@), k as nat),
{
    let ghost views = definition_views(definitions@);
    let ghost all = named_in_round(views, k as nat);
    let mut named: Vec<(String, String)> = Vec::new();
    let mut i: usize = 0;
    assert(schema_to_ts::pairs(named@) =~= all.take(0));
    while i < definitions.len()
        invariant
            i <= definitions@.len(),
            views == definition_views(definitions@),
            text::texts(identifiers@) == own_identifiers(views),
            identifiers@.len() == definitions@.len(),
            all == named_in_round(views, k as nat),
            schema_to_ts::pairs(named@) == all.take(i as int),
        decreases definitions@.len() - i,
    {
        let ghost was = schema_to_ts::pairs(named@);
        let identifier = candidate_string(identifiers[i].as_str(), k);
        let ghost spelled = identifier@;
        named.push((definitions[i].target.clone(), identifier));
        proof {
            assert(own_identifiers(views)[i as int] == identifiers@[i as int]@);
            assert(views[i as int].target == definitions@[i as int].target@);
            assert(all[i as int] == (views[i as int].target, spelled));
            assert(schema_to_ts::pairs(named@) =~= was.push(all[i as int]));
            assert(was.push(all[i as int]) =~= all.take(i + 1));
        }
        i += 1;
    }
    assert(all.take(i as int) =~= all);
    named
}

/// The types some definitions stand for in the `k`-th round, each under its
/// identifier.
fn types_at<'a>(definitions: &Vec<Definition<'a>>, named: &Vec<(String, String)>, k: Ghost<nat>) -> (
    types: Vec<(String, String)>)
    requires
        schema_to_ts::pairs(named@) == named_in_round(definition_views(definitions@), k@),
    ensures
        schema_to_ts::pairs(types@) == types_in_round(definition_views(definitions@), k@),
{
    let ghost views = definition_views(definitions@);
    let ghost all = types_in_round(views, k@);
    let mut types: Vec<(String, String)> = Vec::new();
    let mut i: usize = 0;
    proof {
        assert(schema_to_ts::pairs(types@) =~= all.take(0));
        assert(schema_to_ts::pairs(named@).len() == named@.len());
        reveal_strlit("");
        assert(""@ =~= seq![]);
    }
    while i < definitions.len()
        invariant
            i <= definitions@.len(),
            named@.len() == definitions@.len(),
            views == definition_views(definitions@),
            all == types_in_round(views, k@),
            schema_to_ts::pairs(named@) == named_in_round(views, k@),
            schema_to_ts::pairs(types@) == all.take(i as int),
            ""@ == Seq::<char>::empty(),
        decreases definitions@.len() - i,
    {
        let ghost was = schema_to_ts::pairs(types@);
        let ty = render_at(definitions[i].schema, "", named);
        let ghost rendered = ty@;
        types.push((named[i].1.clone(), ty));
        proof {
            assert(schema_to_ts::pairs(named@)[i as int].1 == named@[i as int].1@);
            assert(views[i as int].schema == definitions@[i as int].schema@);
            assert(all[i as int] == (named@[i as int].1@, rendered));
            assert(schema_to_ts::pairs(types@) =~= was.push(all[i as int]));
            assert(was.push(all[i as int]) =~= all.take(i + 1));
        }
        i += 1;
    }
    assert(all.take(i as int) =~= all);
    types
}

/// Renders schemas that may share named types, and collects the declarations
/// of those types.
pub struct TypeRenderer {
    types: Vec<(String, String)>,
}

impl View for TypeRenderer {
    type V = DeclaredTypes;

    closed spec fn view(&self) -> DeclaredTypes {
        DeclaredTypes { types: schema_to_ts::pairs(self.types@) }
    }
}

impl TypeRenderer {
    /// A renderer that has declared nothing yet.
    pub fn new() -> (types: Self)
        ensures
            types@.types == Seq::<(Seq<char>, Seq<char>)>::empty(),
    {
        let types = TypeRenderer { types: Vec::new() };
        assert(types@.types =~= Seq::<(Seq<char>, Seq<char>)>::empty());
        types
    }

    /// Whether nothing but this type is declared under its identifier.
    fn admits(&self, identifier: &str, ty: &str) -> (yes: bool)
        ensures
            yes == self@.admits((identifier@, ty@)),
    {
        let ghost declared = self@.types;
        let mut i: usize = 0;
        while i < self.types.len()
            invariant
                i <= self.types@.len(),
                declared == self@.types,
                declared == schema_to_ts::pairs(self.types@),
                forall|j: int|
                    0 <= j < i && (#[trigger] declared[j]).0 == identifier@ ==> declared[j].1
                        == ty@,
            decreases self.types@.len() - i,
        {
            assert(declared[i as int] == (self.types@[i as int].0@, self.types@[i as int].1@));
            if same_text(self.types[i].0.as_str(), identifier) && !same_text(
                self.types[i].1.as_str(),
                ty,
            ) {
                return false;
            }
            i += 1;
        }
        true
    }

    /// Whether nothing but these types is declared under their identifiers.
    fn admits_all(&self, entries: &Vec<(String, String)>) -> (yes: bool)
        ensures
            yes == self@.admits_all(schema_to_ts::pairs(entries@)),
    {
        let ghost all = schema_to_ts::pairs(entries@);
        let mut i: usize = 0;
        while i < entries.len()
            invariant
                i <= entries@.len(),
                all == schema_to_ts::pairs(entries@),
                forall|j: int| 0 <= j < i ==> self@.admits(#[trigger] all[j]),
            decreases entries@.len() - i,
        {
            assert(all[i as int] == (entries@[i as int].0@, entries@[i as int].1@));
            if !self.admits(entries[i].0.as_str(), entries[i].1.as_str()) {
                return false;
            }
            i += 1;
        }
        true
    }

    /// Whether a type is declared under an identifier.
    fn has(&self, identifier: &str) -> (yes: bool)
        ensures
            yes == self@.has(identifier@),
    {
        let ghost declared = self@.types;
        let mut i: usize = 0;
        while i < self.types.len()
            invariant
                i <= self.types@.len(),
                declared == self@.types,
                declared == schema_to_ts::pairs(self.types@),
                forall|j: int| 0 <= j < i ==> (#[trigger] declared[j]).0 != identifier@,
            decreases self.types@.len() - i,
        {
            assert(declared[i as int].0 == self.types@[i as int].0@);
            if same_text(self.types[i].0.as_str(), identifier) {
                return true;
            }
            i += 1;
        }
        false
    }

    /// Declare each of some types, unless its identifier has one.
    fn add_all(&mut self, entries: &Vec<(String, String)>)
        ensures
            final(self)@ == old(self)@.with_all(schema_to_ts::pairs(entries@)),
    {
        let ghost start = self@;
        let ghost all = schema_to_ts::pairs(entries@);
        let mut i: usize = 0;
        while i < entries.len()
            invariant
                i <= entries@.len(),
                all == schema_to_ts::pairs(entries@),
                self@ == start.with_all(all.take(i as int)),
            decreases entries@.len() - i,
        {
            let ghost was = self@;
            assert(all.take(i + 1).drop_last() =~= all.take(i as int));
            assert(all[i as int] == (entries@[i as int].0@, entries@[i as int].1@));
            if !self.has(entries[i].0.as_str()) {
                self.types.push((entries[i].0.clone(), entries[i].1.clone()));
                assert(self@.types =~= was.types.push(all[i as int]));
            }
            i += 1;
        }
        assert(all.take(i as int) =~= all);
    }

    /// Render a schema `indent` levels deep, declaring the definitions it
    /// brings along so that it can refer to them by name.
    pub fn render_indented(&mut self, schema: &Json, indent: usize) -> (rendered: String)
        ensures
            final(self)@ == old(self)@.with_definitions(definitions(schema@)),
            rendered@ == schema_to_ts::type_of(
                schema@,
                schema_to_ts::padding(indent as nat),
                old(self)@.named(definitions(schema@)),
            ),
    {
        let own = definitions_of(schema);
        let ghost views = definitions(schema@);
        let identifiers = own_identifiers_of(&own);
        let count: usize = own.len();
        let declared: usize = self.types.len();
        let ghost known = self@;
        proof {
            lemma_own_identifiers(views);
            assert(known.types.len() == declared);
        }
        let mut k: u128 = 1;
        let mut named = named_at(&own, &identifiers, k);
        let mut types = types_at(&own, &named, Ghost(1nat));
        while !self.admits_all(&types)
            invariant
                views == definition_views(own@),
                text::texts(identifiers@) == own_identifiers(views),
                identifiers@.len() == own@.len(),
                own_identifiers(views).len() == count,
                known == self@,
                known.types.len() == declared,
                k >= 1,
                schema_to_ts::pairs(named@) == named_in_round(views, k as nat),
                schema_to_ts::pairs(types@) == types_in_round(views, k as nat),
                forall|j: nat|
                    1 <= j < k ==> !known.admits_all(#[trigger] types_in_round(views, j)),
            decreases count * declared + 2 - k,
        {
            proof {
                assert forall|j: nat| 1 <= j < k + 1 implies !known.admits_all(
                    #[trigger] types_in_round(views, j),
                ) by {}
                lemma_rounds_bound(known, views, (k + 1) as nat);
                assert(count * declared <= 0xffff_ffff_ffff_ffff * 0xffff_ffff_ffff_ffff)
                    by (nonlinear_arith)
                    requires
                        count <= 0xffff_ffff_ffff_ffff,
                        declared <= 0xffff_ffff_ffff_ffff,
                ;
            }
            k += 1;
            named = named_at(&own, &identifiers, k);
            types = types_at(&own, &named, Ghost(k as nat));
        }
        proof {
            assert(known.is_round(views, k as nat));
            lemma_round_is(known, views, k as nat);
        }
        self.add_all(&types);
        let pad = padding_string(indent);
        render_at(schema, pad.as_str(), &named)
    }

    /// The declarations of the types rendered so far.
    pub fn declarations(&self) -> (text: String)
        ensures
            text@ == self@.text(),
    {
        let ghost all = self@.types;
        let mut out = String::new();
        let mut i: usize = 0;
        assert(all.take(0) =~= seq![]);
        while i < self.types.len()
            invariant
                i <= self.types@.len(),
                all == schema_to_ts::pairs(self.types@),
                out@ == (DeclaredTypes { types: all.take(i as int) }).text(),
            decreases self.types@.len() - i,
        {
            assert(all.take(i + 1).drop_last() =~= all.take(i as int));
            assert(all[i as int] == (self.types@[i as int].0@, self.types@[i as int].1@));
            push_type(&mut out, self.types[i].0.as_str(), self.types[i].1.as_str());
            i += 1;
        }
        assert(all.take(i as int) =~= all);
        out
    }
}

/// Add the declaration of a type.
fn push_type(out: &mut String, identifier: &str, ty: &str)
    ensures
        final(out)@ == old(out)@ + type_declaration(identifier@, ty@),
{
    let ghost was = out@;
    let chars = chars_of(ty);
    if chars.len() > 0 && chars[0] == '{' && chars[chars.len() - 1] == '}' {
        out.append("interface ");
        out.append(identifier);
        out.append(" ");
        out.append(ty);
        out.append("\n");
    } else {
        out.append("type ");
        out.append(identifier);
        out.append(" = ");
        out.append(ty);
        out.append(";\n");
    }
    assert(out@ =~= was + type_declaration(identifier@, ty@));
}

// ── laws ─────────────────────────────────────────────────────────────

/// Whether a `$ref` can tell some definitions apart.
pub open spec fn targets_differ(definitions: Seq<DefinitionView>) -> bool {
    forall|i: int, j: int|
        0 <= i < j < definitions.len() ==> (#[trigger] definitions[i]).target != (
        #[trigger] definitions[j]).target
}

/// Whether some entries all have different names.
pub open spec fn keys_differ<A>(entries: Seq<(Seq<char>, A)>) -> bool {
    forall|i: int, j: int|
        0 <= i < j < entries.len() ==> (#[trigger] entries[i]).0 != (#[trigger] entries[j]).0
}

/// A schema's definitions can be told apart where no keyword holds two of the
/// same name.
pub proof fn definitions_can_be_told_apart(schema: JsonTree)
    requires
        keys_differ(entries_under(schema, "$defs"@)),
        keys_differ(entries_under(schema, "definitions"@)),
    ensures
        targets_differ(definitions(schema)),
{
    reveal_strlit("#/$defs/");
    reveal_strlit("#/definitions/");
    let all = definitions(schema);
    let first = entries_under(schema, "$defs"@);
    let second = entries_under(schema, "definitions"@);
    assert forall|i: int, j: int| 0 <= i < j < all.len() implies (#[trigger] all[i]).target != (
    #[trigger] all[j]).target by {
        if j < first.len() {
            assert(first[i].0 != first[j].0);
            lemma_behind_prefix("#/$defs/"@, first[i].0, first[j].0);
        } else if i >= first.len() {
            let (a, b) = (i - first.len(), j - first.len());
            assert(second[a].0 != second[b].0);
            lemma_behind_prefix("#/definitions/"@, second[a].0, second[b].0);
        } else {
            assert(all[i].target[2] == '$');
            assert(all[j].target[2] == 'd');
        }
    }
}

/// Different texts stay different behind a prefix.
proof fn lemma_behind_prefix(prefix: Seq<char>, a: Seq<char>, b: Seq<char>)
    requires
        a != b,
    ensures
        prefix + a != prefix + b,
{
    if prefix + a == prefix + b {
        assert((prefix + a).skip(prefix.len() as int) =~= a);
        assert((prefix + b).skip(prefix.len() as int) =~= b);
    }
}

/// What is declared stays where it is, and nothing else is declared under its
/// identifier later.
proof fn lemma_declared_stays(types: DeclaredTypes, entries: Seq<(Seq<char>, Seq<char>)>)
    ensures
        types.types.is_prefix_of(types.with_all(entries).types),
        forall|entry: (Seq<char>, Seq<char>)|
            types.has(entry.0) && #[trigger] types.admits(entry) ==> types.with_all(
                entries,
            ).admits(entry),
    decreases entries.len(),
{
    if entries.len() > 0 {
        let earlier = types.with_all(entries.drop_last());
        let after = types.with_all(entries);
        lemma_declared_stays(types, entries.drop_last());
        assert forall|entry: (Seq<char>, Seq<char>)|
            types.has(entry.0) && #[trigger] types.admits(entry) implies after.admits(entry) by {
            let at = choose|at: int|
                0 <= at < types.types.len() && (#[trigger] types.types[at]).0 == entry.0;
            assert(earlier.types[at] == types.types[at]);
            assert(earlier.has(entry.0));
            assert(earlier.admits(entry));
            if after.types != earlier.types {
                assert forall|i: int|
                    0 <= i < after.types.len() && (#[trigger] after.types[i]).0
                        == entry.0 implies after.types[i].1 == entry.1 by {
                    if i < earlier.types.len() {
                        assert(after.types[i] == earlier.types[i]);
                    }
                }
            }
        }
    }
}

/// Declaring types under other identifiers leaves room for a type.
proof fn lemma_room_stays(
    types: DeclaredTypes,
    entries: Seq<(Seq<char>, Seq<char>)>,
    entry: (Seq<char>, Seq<char>),
)
    requires
        types.admits(entry),
        forall|i: int| 0 <= i < entries.len() ==> (#[trigger] entries[i]).0 != entry.0,
    ensures
        types.with_all(entries).admits(entry),
    decreases entries.len(),
{
    if entries.len() > 0 {
        let earlier = types.with_all(entries.drop_last());
        let after = types.with_all(entries);
        lemma_room_stays(types, entries.drop_last(), entry);
        assert(entries[entries.len() - 1].0 != entry.0);
        assert forall|i: int|
            0 <= i < after.types.len() && (#[trigger] after.types[i]).0 == entry.0 implies
            after.types[i].1 == entry.1 by {
            if i < earlier.types.len() {
                assert(after.types[i] == earlier.types[i]);
            }
        }
    }
}

/// Types that go with what is declared, and with each other, are all declared.
proof fn lemma_all_declared(types: DeclaredTypes, entries: Seq<(Seq<char>, Seq<char>)>)
    requires
        types.admits_all(entries),
        keys_differ(entries),
    ensures
        forall|i: int|
            0 <= i < entries.len() ==> types.with_all(entries).types.contains(
                #[trigger] entries[i],
            ),
        types.with_all(entries).admits_all(entries),
    decreases entries.len(),
{
    if entries.len() > 0 {
        let fewer = entries.drop_last();
        let last = entries.last();
        let earlier = types.with_all(fewer);
        let after = types.with_all(entries);
        assert forall|i: int| 0 <= i < fewer.len() implies types.admits(#[trigger] fewer[i]) by {
            assert(types.admits(entries[i]));
        }
        lemma_all_declared(types, fewer);
        assert(types.admits(entries[entries.len() - 1]));
        assert forall|i: int| 0 <= i < fewer.len() implies (#[trigger] fewer[i]).0 != last.0 by {
            assert(entries[i].0 != entries[entries.len() - 1].0);
        }
        lemma_room_stays(types, fewer, last);
        assert forall|i: int| 0 <= i < entries.len() implies after.types.contains(
            #[trigger] entries[i],
        ) && after.admits(entries[i]) by {
            if i < fewer.len() {
                assert(entries[i] == fewer[i]);
                assert(earlier.types.contains(fewer[i]));
                assert(earlier.admits(fewer[i]));
                let at = choose|at: int|
                    0 <= at < earlier.types.len() && earlier.types[at] == fewer[i];
                assert(after.types[at] == fewer[i]);
                assert(entries[i].0 != entries[entries.len() - 1].0);
                assert forall|j: int|
                    0 <= j < after.types.len() && (#[trigger] after.types[j]).0
                        == entries[i].0 implies after.types[j].1 == entries[i].1 by {
                    if j < earlier.types.len() {
                        assert(after.types[j] == earlier.types[j]);
                    }
                }
            } else if earlier.has(last.0) {
                let at = choose|at: int|
                    0 <= at < earlier.types.len() && (#[trigger] earlier.types[at]).0 == last.0;
                assert(earlier.types[at].1 == last.1);
                assert(earlier.types[at] == last);
            } else {
                assert(after.types[earlier.types.len() as int] == last);
                assert forall|j: int|
                    0 <= j < after.types.len() && (#[trigger] after.types[j]).0
                        == last.0 implies after.types[j].1 == last.1 by {
                    if j < earlier.types.len() {
                        assert(after.types[j] == earlier.types[j]);
                    }
                }
            }
        }
    }
}

/// A schema's own definitions have different identifiers in every round.
proof fn lemma_identifiers_differ(definitions: Seq<DefinitionView>, k: nat)
    ensures
        keys_differ(types_in_round(definitions, k)),
{
    let all = declarations::assigned_all(names_asked(definitions));
    let own = own_identifiers(definitions);
    let types = types_in_round(definitions, k);
    lemma_own_identifiers(definitions);
    declarations::assigned_identifiers_are_distinct(names_asked(definitions));
    assert forall|i: int, j: int| 0 <= i < j < types.len() implies (#[trigger] types[i]).0 != (
    #[trigger] types[j]).0 by {
        let skipped = built_in().len();
        assert(own[i] == all[skipped + i]);
        assert(own[j] == all[skipped + j]);
        assert(own[i] != own[j]);
        let (a, b) = (declarations::candidate(own[i], k), declarations::candidate(own[j], k));
        if a == b && k > 1 {
            let counter = "_"@ + text::decimal(k);
            assert(a =~= own[i] + counter);
            assert(b =~= own[j] + counter);
            assert(own[i].len() == own[j].len());
            assert(a.take(own[i].len() as int) =~= own[i]);
            assert(b.take(own[j].len() as int) =~= own[j]);
        }
    }
}

/// What the first entry with a target says.
proof fn lemma_named_under(named: Seq<(Seq<char>, Seq<char>)>, i: int)
    requires
        0 <= i < named.len(),
        keys_differ(named),
    ensures
        schema_to_ts::named_under(named, named[i].0) == Some(named[i].1),
    decreases i,
{
    if i > 0 {
        let rest = named.drop_first();
        assert(named[0].0 != named[i].0);
        assert forall|a: int, b: int| 0 <= a < b < rest.len() implies (#[trigger] rest[a]).0 != (
        #[trigger] rest[b]).0 by {
            assert(named[a + 1].0 != named[b + 1].0);
        }
        lemma_named_under(rest, i - 1);
    }
}

/// A `$ref` to a definition is rendered as an identifier under which that
/// definition, and no other, is declared: whatever went by its name before.
pub proof fn references_name_their_own_definitions(
    types: DeclaredTypes,
    definitions: Seq<DefinitionView>,
    i: int,
)
    requires
        targets_differ(definitions),
        0 <= i < definitions.len(),
    ensures
        ({
            let named = types.named(definitions);
            let declared = (named[i].1, schema_to_ts::type_of(definitions[i].schema, seq![], named));
            &&& schema_to_ts::named_under(named, definitions[i].target) == Some(named[i].1)
            &&& types.with_definitions(definitions).types.contains(declared)
            &&& types.with_definitions(definitions).admits(declared)
        }),
{
    let k = types.round(definitions);
    a_round_succeeds(types, definitions);
    let named = types.named(definitions);
    let entries = types_in_round(definitions, k);
    lemma_identifiers_differ(definitions, k);
    lemma_all_declared(types, entries);
    assert(entries[i] == (named[i].1, schema_to_ts::type_of(definitions[i].schema, seq![], named)));
    assert forall|a: int, b: int| 0 <= a < b < named.len() implies (#[trigger] named[a]).0 != (
    #[trigger] named[b]).0 by {
        assert(definitions[a].target != definitions[b].target);
    }
    lemma_named_under(named, i);
}

/// What is declared stays declared, and alone under its identifier, whatever
/// definitions come later.
pub proof fn declared_types_stay(
    types: DeclaredTypes,
    definitions: Seq<DefinitionView>,
    entry: (Seq<char>, Seq<char>),
)
    requires
        types.types.contains(entry),
        types.admits(entry),
    ensures
        types.types.is_prefix_of(types.with_definitions(definitions).types),
        types.with_definitions(definitions).types.contains(entry),
        types.with_definitions(definitions).admits(entry),
{
    let k = types.round(definitions);
    let after = types.with_definitions(definitions);
    let at = choose|at: int| 0 <= at < types.types.len() && types.types[at] == entry;
    assert(types.types[at].0 == entry.0);
    assert(types.has(entry.0));
    lemma_declared_stays(types, types_in_round(definitions, k));
    assert(after.types[at] == entry);
}

/// However many tools bring the same definitions along, they are declared once
/// and all of the tools refer to the same types.
pub proof fn types_are_declared_once(types: DeclaredTypes, definitions: Seq<DefinitionView>)
    ensures
        types.with_definitions(definitions).with_definitions(definitions)
            == types.with_definitions(definitions),
        types.with_definitions(definitions).named(definitions) == types.named(definitions),
{
    let k = types.round(definitions);
    a_round_succeeds(types, definitions);
    let entries = types_in_round(definitions, k);
    let after = types.with_definitions(definitions);
    lemma_identifiers_differ(definitions, k);
    lemma_all_declared(types, entries);
    lemma_declared_stays(types, entries);
    assert forall|j: nat| 1 <= j < k implies !after.admits_all(
        #[trigger] types_in_round(definitions, j),
    ) by {
        let tried = types_in_round(definitions, j);
        assert(!types.admits_all(tried));
        let i = choose|i: int| 0 <= i < tried.len() && !types.admits(#[trigger] tried[i]);
        let at = choose|at: int|
            0 <= at < types.types.len() && (#[trigger] types.types[at]).0 == tried[i].0
                && types.types[at].1 != tried[i].1;
        assert(after.types[at] == types.types[at]);
        assert(!after.admits(tried[i]));
    }
    assert(after.is_round(definitions, k));
    lemma_round_is(after, definitions, k);
    assert forall|i: int| 0 <= i < entries.len() implies after.has((#[trigger] entries[i]).0) by {
        assert(after.types.contains(entries[i]));
    }
    lemma_nothing_to_add(after, entries);
}

/// Nothing is added where every identifier has a type.
proof fn lemma_nothing_to_add(types: DeclaredTypes, entries: Seq<(Seq<char>, Seq<char>)>)
    requires
        forall|i: int| 0 <= i < entries.len() ==> types.has((#[trigger] entries[i]).0),
    ensures
        types.with_all(entries) == types,
    decreases entries.len(),
{
    if entries.len() > 0 {
        lemma_nothing_to_add(types, entries.drop_last());
        assert(types.has(entries[entries.len() - 1].0));
    }
}

/// The built-in names are identifiers, all different, and none has a counter.
proof fn lemma_built_in()
    ensures
        declarations::assigned_all(built_in()) == built_in(),
        forall|i: int|
            0 <= i < built_in().len() ==> !(#[trigger] built_in()[i]).contains('_'),
{
    reveal_strlit("Promise");
    reveal_strlit("Record");
    reveal_strlit("boolean");
    reveal_strlit("never");
    reveal_strlit("null");
    reveal_strlit("number");
    reveal_strlit("string");
    reveal_strlit("unknown");
    let names = built_in();
    assert forall|i: int| 0 <= i < names.len() implies schema_to_ts::is_identifier(#[trigger] names[i]) by {}
    assert forall|i: int, j: int| 0 <= i < j < names.len() implies #[trigger] names[i]
        != #[trigger] names[j] by {
        assert(names[i].len() != names[j].len() || names[i][0] != names[j][0] || names[i][1]
            != names[j][1]);
    }
    declarations::different_wishes_are_granted(names);
    assert(names.map_values(|name: Seq<char>| declarations::wished(name)) =~= names);
}

/// No definition is declared under a name that means something else in every
/// declaration.
pub proof fn built_in_names_keep_their_meaning(
    types: DeclaredTypes,
    definitions: Seq<DefinitionView>,
    i: int,
)
    requires
        0 <= i < definitions.len(),
    ensures
        !built_in().contains(types.named(definitions)[i].1),
{
    let k = types.round(definitions);
    let asked = names_asked(definitions);
    let all = declarations::assigned_all(asked);
    let own = own_identifiers(definitions);
    let identifier = types.named(definitions)[i].1;
    lemma_built_in();
    lemma_own_identifiers(definitions);
    assert(asked.take(8) =~= built_in());
    declarations::lemma_assigned_all(asked, 8);
    declarations::assigned_identifiers_are_distinct(asked);
    assert(own[i] == all[8 + i]);
    assert(identifier == declarations::candidate(own[i], k));
    if built_in().contains(identifier) {
        let at = choose|at: int| 0 <= at < 8 && built_in()[at] == identifier;
        assert(all[at] == all.take(8)[at]);
        if k > 1 {
            reveal_strlit("_");
            assert(identifier[own[i].len() as int] == '_');
            assert(built_in()[at].contains('_'));
        } else {
            assert(all[at] != all[8 + i]);
        }
    }
}

/// Types are declared in the order they came, an object type as an interface
/// and anything else as an alias.
pub proof fn types_are_written_in_order(types: DeclaredTypes)
    ensures
        types.text() == text::concat(
            types.types.map_values(
                |entry: (Seq<char>, Seq<char>)|
                    if entry.1.len() > 0 && entry.1[0] == '{' && entry.1[entry.1.len() - 1] == '}' {
                        "interface "@ + entry.0 + " "@ + entry.1 + "\n"@
                    } else {
                        "type "@ + entry.0 + " = "@ + entry.1 + ";\n"@
                    },
            ),
        ),
    decreases types.types.len(),
{
    let written = |entry: (Seq<char>, Seq<char>)|
        if entry.1.len() > 0 && entry.1[0] == '{' && entry.1[entry.1.len() - 1] == '}' {
            "interface "@ + entry.0 + " "@ + entry.1 + "\n"@
        } else {
            "type "@ + entry.0 + " = "@ + entry.1 + ";\n"@
        };
    let all = types.types.map_values(written);
    if types.types.len() > 0 {
        let fewer = DeclaredTypes { types: types.types.drop_last() };
        types_are_written_in_order(fewer);
        assert(all.drop_last() =~= fewer.types.map_values(written));
        assert(all.last() == written(types.types.last()));
        assert(types.text() =~= text::concat(all));
    } else {
        assert(types.text() =~= text::concat(all));
    }
}

/// A schema brings along every entry of its `$defs`, and behind them every
/// entry of its `definitions`, each reached by a pointer to where it stands.
pub proof fn definitions_stand_under_their_keywords(schema: JsonTree)
    ensures
        ({
            let all = definitions(schema);
            let first = match schema.get("$defs"@) {
                Some(JsonTree::Object(entries)) => entries,
                _ => seq![],
            };
            let second = match schema.get("definitions"@) {
                Some(JsonTree::Object(entries)) => entries,
                _ => seq![],
            };
            &&& all.len() == first.len() + second.len()
            &&& forall|i: int|
                0 <= i < first.len() ==> #[trigger] all[i] == (DefinitionView {
                    target: "#/$defs/"@ + first[i].0,
                    name: first[i].0,
                    schema: first[i].1,
                })
            &&& forall|i: int|
                0 <= i < second.len() ==> all[first.len() + i] == (DefinitionView {
                    target: "#/definitions/"@ + (#[trigger] second[i]).0,
                    name: second[i].0,
                    schema: second[i].1,
                })
        }),
{
}

/// Definitions keep their own identifiers unless another type is declared under
/// one of them; then all of them get the smallest counter under which none is.
/// What a `$ref` reads as and what is declared go by the same identifiers.
pub proof fn definitions_are_renamed_only_on_conflict(
    types: DeclaredTypes,
    definitions: Seq<DefinitionView>,
) -> (k: nat)
    ensures
        ({
            let names = definitions.map_values(|definition: DefinitionView| definition.name);
            let own = declarations::assigned_all(built_in() + names);
            let named = types.named(definitions);
            let clear = forall|i: int, at: int|
                0 <= i < definitions.len() && 0 <= at < types.types.len() && (
                #[trigger] types.types[at]).0 == own[8 + i] ==> types.types[at].1
                    == #[trigger] schema_to_ts::type_of(
                    definitions[i].schema,
                    seq![],
                    named_in_round(definitions, 1),
                );
            &&& k >= 1
            &&& named.len() == definitions.len()
            &&& clear ==> k == 1
            &&& forall|i: int|
                0 <= i < definitions.len() ==> (#[trigger] named[i]).0 == definitions[i].target
                    && named[i].1 == (if k == 1 {
                    own[8 + i]
                } else {
                    own[8 + i] + seq!['_'] + text::decimal(k)
                })
        }),
{
    let k = types.round(definitions);
    a_round_succeeds(types, definitions);
    lemma_own_identifiers(definitions);
    reveal_strlit("_");
    assert("_"@ =~= seq!['_']);
    let names = definitions.map_values(|definition: DefinitionView| definition.name);
    let own = declarations::assigned_all(built_in() + names);
    let plain = types_in_round(definitions, 1);
    if k > 1 {
        assert(!types.admits_all(plain));
        let i = choose|i: int| 0 <= i < plain.len() && !types.admits(#[trigger] plain[i]);
        let at = choose|at: int|
            0 <= at < types.types.len() && (#[trigger] types.types[at]).0 == plain[i].0
                && types.types[at].1 != plain[i].1;
        assert(plain[i].0 == own[8 + i]);
        let ty = schema_to_ts::type_of(
            definitions[i].schema,
            seq![],
            named_in_round(definitions, 1),
        );
        assert(types.types[at].1 != ty);
    }
    k
}

} // verus!
