//! JSON Schema to TypeScript type expressions.
//!
//! Backing servers describe their tool parameters with JSON Schema, but the
//! agent writes JavaScript against those tools. Models read TypeScript
//! declarations far more reliably than raw JSON Schema, so schemas are
//! rendered as `.d.ts`-style type expressions.
//!
//! Two rules govern everything here:
//!
//! * **Never fail.** Schemas arrive from arbitrary third-party servers across
//!   several JSON Schema dialects. A construct that is not recognized renders
//!   as `unknown` and generation continues.
//! * **`unknown`, not `any`.** `unknown` forces the model to narrow the value
//!   rather than silently assuming a shape that may not hold.

use vstd::prelude::*;

pub use super::named_types::TypeRenderer;
use crate::json;
use crate::json::{find_field, Json, JsonTree};
use crate::text;
use crate::text::{
    alphanumeric, chars_of, contains_text, join_strings, letter, position_of, same_text,
    split_words, string_of,
};

verus! {

// ── names ────────────────────────────────────────────────────────────

/// Whether `c` may start a JavaScript identifier.
pub open spec fn starts_identifier(c: char) -> bool {
    text::is_letter(c) || c == '_' || c == '$'
}

/// Whether `c` may continue a JavaScript identifier.
pub open spec fn continues_identifier(c: char) -> bool {
    text::is_alphanumeric(c) || c == '_' || c == '$'
}

/// Whether a name is an ASCII JavaScript identifier.
pub open spec fn is_identifier(name: Seq<char>) -> bool {
    &&& name.len() > 0
    &&& starts_identifier(name[0])
    &&& forall|i: int| 0 < i < name.len() ==> continues_identifier(#[trigger] name[i])
}

/// Whether `name` can be written as a JavaScript identifier as it stands.
pub fn is_js_identifier(name: &str) -> (yes: bool)
    ensures
        yes == is_identifier(name@),
{
    let chars = chars_of(name);
    if chars.len() == 0 {
        return false;
    }
    if !(letter(chars[0]) || chars[0] == '_' || chars[0] == '$') {
        return false;
    }
    let mut i: usize = 1;
    while i < chars.len()
        invariant
            1 <= i <= chars@.len(),
            chars@ == name@,
            forall|j: int| 0 < j < i ==> continues_identifier(#[trigger] name@[j]),
        decreases chars@.len() - i,
    {
        if !(alphanumeric(chars[i]) || chars[i] == '_' || chars[i] == '$') {
            assert(!continues_identifier(name@[i as int]));
            return false;
        }
        i += 1;
    }
    true
}

/// A text as `{:?}` writes it: in double quotes, with what needs escaping
/// escaped.
pub uninterp spec fn quote(text: Seq<char>) -> Seq<char>;

/// `format!("{:?}")` on a `str`. The result depends on the text alone. Which
/// characters are escaped, and how, is the standard library's choice and is
/// not stated here.
#[verifier::external_body]
pub(crate) fn quoted(text: &str) -> (result: String)
    ensures
        result@ == quote(text@),
{
    format!("{text:?}")
}

/// A property's key: its name where that is an identifier, quoted otherwise.
pub open spec fn key_text(name: Seq<char>, quoted: Seq<char>) -> Seq<char> {
    if is_identifier(name) {
        name
    } else {
        quoted
    }
}

/// The key for a property called `name`, whose quoted spelling is `quoted`.
pub fn choose_key(name: &str, quoted: String) -> (key: String)
    ensures
        key@ == key_text(name@, quoted@),
{
    if is_js_identifier(name) {
        name.to_string()
    } else {
        quoted
    }
}

/// Quote a property name unless it is a valid JavaScript identifier.
///
/// Tool schemas routinely use names that are not identifiers
/// (`content-type`, `2fa`), and those are legal as quoted property keys.
pub fn property_key(name: &str) -> (key: String)
    ensures
        key@ == key_text(name@, quote(name@)),
{
    choose_key(name, quoted(name))
}

// ── documentation ────────────────────────────────────────────────────

/// The text with every `*/` written `* /`.
pub open spec fn break_comment_ends(s: Seq<char>) -> Seq<char>
    decreases s.len(),
{
    if s.len() < 2 {
        s
    } else if s[0] == '*' && s[1] == '/' {
        seq!['*', ' ', '/'] + break_comment_ends(s.skip(2))
    } else {
        seq![s[0]] + break_comment_ends(s.drop_first())
    }
}

/// Write every `*/` as `* /`.
fn without_comment_ends(chars: &[char]) -> (result: String)
    ensures
        result@ == break_comment_ends(chars@),
{
    let mut result = String::new();
    let mut i: usize = 0;
    assert(chars@.skip(0) =~= chars@);
    assert(result@ + break_comment_ends(chars@) =~= break_comment_ends(chars@));
    while i < chars.len()
        invariant
            i <= chars@.len(),
            result@ + break_comment_ends(chars@.skip(i as int)) == break_comment_ends(chars@),
        decreases chars@.len() - i,
    {
        let ghost rest = chars@.skip(i as int);
        let ghost was = result@;
        if chars.len() - i >= 2 && chars[i] == '*' && chars[i + 1] == '/' {
            result.push('*');
            result.push(' ');
            result.push('/');
            assert(rest.skip(2) =~= chars@.skip(i + 2));
            assert(result@ + break_comment_ends(rest.skip(2)) =~= was + break_comment_ends(rest));
            i += 2;
        } else {
            result.push(chars[i]);
            assert(rest.drop_first() =~= chars@.skip(i + 1));
            proof {
                if rest.len() < 2 {
                    assert(rest =~= seq![rest[0]] + rest.drop_first());
                }
            }
            assert(result@ + break_comment_ends(rest.drop_first()) =~= was + break_comment_ends(
                rest,
            ));
            i += 1;
        }
    }
    assert(result@ + break_comment_ends(chars@.skip(i as int)) =~= result@);
    result
}

/// A description collapsed to one line and made safe inside a JSDoc block, or
/// nothing where there is nothing but white space.
pub open spec fn doc_of(description: Seq<char>) -> Option<Seq<char>> {
    if text::words(description).len() == 0 {
        None
    } else {
        Some(break_comment_ends(text::join(text::words(description), seq![' '])))
    }
}

/// A description, collapsed to one line and safe inside a JSDoc block.
pub fn jsdoc_text(description: &str) -> (doc: Option<String>)
    ensures
        text::optional_text(doc) == doc_of(description@),
{
    let chars = chars_of(description);
    let parts = split_words(chars.as_slice());
    assert(text::texts(parts@).len() == parts@.len());
    if parts.len() == 0 {
        return None;
    }
    let separator = string_of(&[' ']);
    assert(separator@ =~= seq![' ']);
    let joined = join_strings(parts.as_slice(), separator.as_str());
    let flat = chars_of(joined.as_str());
    Some(without_comment_ends(flat.as_slice()))
}

/// A schema's `description` as documentation.
pub open spec fn schema_doc(schema: JsonTree) -> Option<Seq<char>> {
    match schema.get("description"@) {
        Some(JsonTree::Str(description)) => doc_of(description),
        _ => None,
    }
}

/// A property's `description`, collapsed to one line and safe inside a JSDoc
/// block.
pub fn doc_comment(schema: &Json) -> (doc: Option<String>)
    ensures
        text::optional_text(doc) == schema_doc(schema@),
{
    match schema.get("description") {
        Some(Json::Str(description)) => jsdoc_text(description.as_str()),
        _ => None,
    }
}

// ── types ────────────────────────────────────────────────────────────

/// The strings among `items`, in order.
pub open spec fn strings_in(items: Seq<JsonTree>) -> Seq<Seq<char>>
    decreases items.len(),
{
    if items.len() == 0 {
        seq![]
    } else {
        match items.last() {
            JsonTree::Str(text) => strings_in(items.drop_last()).push(text),
            _ => strings_in(items.drop_last()),
        }
    }
}

/// The strings among `items`, in order.
pub fn collect_strings(items: &Vec<Json>) -> (strings: Vec<String>)
    ensures
        text::texts(strings@) == strings_in(json::trees_of(items@)),
{
    let ghost trees = json::trees_of(items@);
    let mut strings: Vec<String> = Vec::new();
    let mut i: usize = 0;
    assert(text::texts(strings@) =~= strings_in(trees.take(0)));
    while i < items.len()
        invariant
            i <= items@.len(),
            trees == json::trees_of(items@),
            text::texts(strings@) == strings_in(trees.take(i as int)),
        decreases items@.len() - i,
    {
        assert(trees.take(i + 1).drop_last() =~= trees.take(i as int));
        assert(trees[i as int] == items@[i as int]@);
        match &items[i] {
            Json::Str(text) => {
                let ghost was = strings@;
                strings.push(text.clone());
                assert(text::texts(strings@) =~= text::texts(was).push(text@));
            },
            _ => {},
        }
        i += 1;
    }
    assert(trees.take(i as int) =~= trees);
    strings
}

/// The names an object schema lists under `required`.
pub open spec fn required_names(fields: Seq<(Seq<char>, JsonTree)>) -> Seq<Seq<char>> {
    match json::lookup(fields, "required"@) {
        Some(JsonTree::Array(names)) => strings_in(names),
        _ => seq![],
    }
}

/// A JSON value as a TypeScript literal type, given its quoted spelling where
/// it is a string.
pub open spec fn literal_text(value: JsonTree, quoted: Seq<char>) -> Seq<char> {
    match value {
        JsonTree::Str(_) => quoted,
        JsonTree::Number(digits) => digits,
        JsonTree::Bool(true) => "true"@,
        JsonTree::Bool(false) => "false"@,
        JsonTree::Null => "null"@,
        _ => "unknown"@,
    }
}

/// A JSON value as a TypeScript literal type.
pub open spec fn literal_of(value: JsonTree) -> Seq<char> {
    match value {
        JsonTree::Str(s) => literal_text(value, quote(s)),
        _ => literal_text(value, seq![]),
    }
}

/// The literal type for `value`, whose quoted spelling is `quoted` where it
/// is a string.
pub fn choose_literal(value: &Json, quoted: String) -> (literal: String)
    ensures
        literal@ == literal_text(value@, quoted@),
{
    match value {
        Json::Str(_) => quoted,
        Json::Number(digits) => digits.clone(),
        Json::Bool(b) => if *b {
            "true".to_string()
        } else {
            "false".to_string()
        },
        Json::Null => "null".to_string(),
        // An object or array literal has no TypeScript literal-type spelling.
        _ => "unknown".to_string(),
    }
}

/// Render a JSON value as a TypeScript literal type.
pub fn render_literal(value: &Json) -> (literal: String)
    ensures
        literal@ == literal_of(value@),
{
    match value {
        Json::Str(s) => choose_literal(value, quoted(s.as_str())),
        _ => choose_literal(value, String::new()),
    }
}

/// The sequence without the entries that repeat the one just before them.
pub open spec fn without_repeats(parts: Seq<Seq<char>>) -> Seq<Seq<char>>
    decreases parts.len(),
{
    if parts.len() == 0 {
        parts
    } else if parts.len() > 1 && parts.last() == parts[parts.len() - 2] {
        without_repeats(parts.drop_last())
    } else {
        without_repeats(parts.drop_last()).push(parts.last())
    }
}

/// The union of literal types an `enum` stands for.
pub open spec fn enum_type(values: Seq<JsonTree>) -> Seq<char> {
    if values.len() == 0 {
        "never"@
    } else {
        text::join(
            without_repeats(values.map_values(|value: JsonTree| literal_of(value))),
            " | "@,
        )
    }
}

/// The last entry that stays is the last entry.
proof fn lemma_without_repeats_last(parts: Seq<Seq<char>>)
    requires
        parts.len() > 0,
    ensures
        without_repeats(parts).len() > 0,
        without_repeats(parts).last() == parts.last(),
    decreases parts.len(),
{
    if parts.len() > 1 && parts.last() == parts[parts.len() - 2] {
        lemma_without_repeats_last(parts.drop_last());
    }
}

fn render_enum(values: &Vec<Json>) -> (rendered: String)
    ensures
        rendered@ == enum_type(json::trees_of(values@)),
{
    if values.len() == 0 {
        return "never".to_string();
    }
    let ghost trees = json::trees_of(values@);
    let ghost literals = trees.map_values(|value: JsonTree| literal_of(value));
    let mut parts: Vec<String> = Vec::new();
    let mut i: usize = 0;
    assert(text::texts(parts@) =~= without_repeats(literals.take(0)));
    while i < values.len()
        invariant
            i <= values@.len(),
            trees == json::trees_of(values@),
            literals == trees.map_values(|value: JsonTree| literal_of(value)),
            text::texts(parts@) == without_repeats(literals.take(i as int)),
        decreases values@.len() - i,
    {
        let literal = render_literal(&values[i]);
        let ghost next = literals.take(i + 1);
        proof {
            assert(trees[i as int] == values@[i as int]@);
            assert(next.drop_last() =~= literals.take(i as int));
            assert(next.last() == literal@);
            if i > 0 {
                lemma_without_repeats_last(literals.take(i as int));
                assert(text::texts(parts@).last() == parts@.last()@);
                assert(literals.take(i as int).last() == next[next.len() - 2]);
            }
        }
        if parts.len() == 0 || !same_text(parts[parts.len() - 1].as_str(), literal.as_str()) {
            let ghost was = parts@;
            parts.push(literal);
            assert(text::texts(parts@) =~= text::texts(was).push(literal@));
        }
        i += 1;
    }
    assert(literals.take(i as int) =~= literals);
    join_strings(parts.as_slice(), " | ")
}

/// What some pairs of texts hold.
pub open spec fn pairs(list: Seq<(String, String)>) -> Seq<(Seq<char>, Seq<char>)> {
    list.map_values(|pair: (String, String)| (pair.0@, pair.1@))
}

/// The identifier of the named type a `$ref` to `target` stands for.
pub open spec fn named_under(
    named: Seq<(Seq<char>, Seq<char>)>,
    target: Seq<char>,
) -> Option<Seq<char>>
    decreases named.len(),
{
    if named.len() == 0 {
        None
    } else if named[0].0 == target {
        Some(named[0].1)
    } else {
        named_under(named.drop_first(), target)
    }
}

/// The named type a schema refers to, where it refers to one of `named`.
pub open spec fn reference(
    fields: Seq<(Seq<char>, JsonTree)>,
    named: Seq<(Seq<char>, Seq<char>)>,
) -> Option<Seq<char>> {
    match json::lookup(fields, "$ref"@) {
        Some(JsonTree::Str(target)) => named_under(named, target),
        _ => None,
    }
}

/// What is found under a key is smaller than the fields it is found in.
pub proof fn lemma_found_smaller(fields: Seq<(Seq<char>, JsonTree)>, key: Seq<char>)
    ensures
        json::lookup(fields, key) matches Some(value) ==> decreases_to!(fields => value),
{
    let at = json::first_field(fields, key);
    if at < fields.len() {
        assert(decreases_to!(fields => fields[at]));
        assert(decreases_to!(fields[at] => fields[at].1));
    }
}

/// The TypeScript type a schema stands for.
///
/// `pad` is the indentation of the line the type starts on. `named` lists what
/// a `$ref` may point at, each with the identifier of the type declared for it.
pub open spec fn type_of(schema: JsonTree, pad: Seq<char>, named: Seq<(Seq<char>, Seq<char>)>) -> Seq<char>
    decreases schema, 0nat,
{
    match schema {
        JsonTree::Bool(false) => "never"@,
        JsonTree::Object(fields) => object_type(fields, pad, named),
        _ => "unknown"@,
    }
}

/// The type an object schema stands for. A reference to a named type comes
/// first; `enum` constrains the value whatever `type` says, so it comes
/// before `type`.
pub open spec fn object_type(
    fields: Seq<(Seq<char>, JsonTree)>,
    pad: Seq<char>,
    named: Seq<(Seq<char>, Seq<char>)>,
) -> Seq<char>
    decreases fields, 2nat,
{
    if reference(fields, named) is Some {
        reference(fields, named)->Some_0
    } else if let Some(JsonTree::Array(values)) = json::lookup(fields, "enum"@) {
        enum_type(values)
    } else if let Some(JsonTree::Str(ty)) = json::lookup(fields, "type"@) {
        if ty == "string"@ {
            "string"@
        } else if ty == "number"@ || ty == "integer"@ {
            "number"@
        } else if ty == "boolean"@ {
            "boolean"@
        } else if ty == "null"@ {
            "null"@
        } else if ty == "array"@ {
            array_type(fields, pad, named)
        } else if ty == "object"@ {
            struct_type(fields, pad, named)
        } else {
            "unknown"@
        }
    } else {
        "unknown"@
    }
}

/// An array of `inner`. `A | B[]` would read as `A | (B[])`, so a union
/// element is put in parentheses.
pub open spec fn array_of(inner: Seq<char>) -> Seq<char> {
    if inner.contains('|') && !(inner.len() > 0 && inner[0] == '(') {
        "("@ + inner + ")[]"@
    } else {
        inner + "[]"@
    }
}

/// The type of an array schema.
pub open spec fn array_type(
    fields: Seq<(Seq<char>, JsonTree)>,
    pad: Seq<char>,
    named: Seq<(Seq<char>, Seq<char>)>,
) -> Seq<char>
    decreases fields, 1nat,
{
    match json::lookup(fields, "items"@) {
        Some(items) => {
            proof {
                lemma_found_smaller(fields, "items"@);
            }
            array_of(type_of(items, pad, named))
        },
        None => "unknown[]"@,
    }
}

/// The type of an object schema with its properties spelled out. Without
/// declared properties it is an open map.
pub open spec fn struct_type(
    fields: Seq<(Seq<char>, JsonTree)>,
    pad: Seq<char>,
    named: Seq<(Seq<char>, Seq<char>)>,
) -> Seq<char>
    decreases fields, 1nat,
{
    match json::lookup(fields, "properties"@) {
        Some(JsonTree::Object(properties)) => {
            proof {
                lemma_found_smaller(fields, "properties"@);
                let value = json::lookup(fields, "properties"@)->Some_0;
                assert(decreases_to!(value => value->Object_0));
            }
            if properties.len() == 0 {
                "{}"@
            } else {
                "{\n"@ + properties_text(
                    properties,
                    properties.len(),
                    required_names(fields),
                    pad + "  "@,
                    named,
                ) + pad + "}"@
            }
        },
        _ => "Record<string, unknown>"@,
    }
}

/// The lines for the first `n` properties.
pub open spec fn properties_text(
    properties: Seq<(Seq<char>, JsonTree)>,
    n: nat,
    required: Seq<Seq<char>>,
    pad: Seq<char>,
    named: Seq<(Seq<char>, Seq<char>)>,
) -> Seq<char>
    decreases properties, n,
{
    if n == 0 || n > properties.len() {
        seq![]
    } else {
        proof {
            assert(decreases_to!(properties => properties[n - 1]));
            assert(decreases_to!(properties[n - 1] => properties[n - 1].1));
        }
        properties_text(properties, (n - 1) as nat, required, pad, named) + property_text(
            properties[n - 1],
            type_of(properties[n - 1].1, pad, named),
            required,
            pad,
        )
    }
}

/// The lines for one property whose type is `ty`: its documentation, where it
/// has any, and its declaration, optional unless it is required.
pub open spec fn property_text(
    property: (Seq<char>, JsonTree),
    ty: Seq<char>,
    required: Seq<Seq<char>>,
    pad: Seq<char>,
) -> Seq<char> {
    doc_line(pad, schema_doc(property.1)) + pad + key_text(property.0, quote(property.0)) + (
    if required.contains(property.0) {
        ""@
    } else {
        "?"@
    }) + ": "@ + ty + ";\n"@
}

/// The line a documentation text takes, if there is one.
pub open spec fn doc_line(pad: Seq<char>, doc: Option<Seq<char>>) -> Seq<char> {
    match doc {
        Some(doc) => pad + "/** "@ + doc + " */\n"@,
        None => seq![],
    }
}

/// The named type a schema refers to, where it refers to one of `named`.
fn find_reference(fields: &Vec<(String, Json)>, named: &Vec<(String, String)>) -> (name: Option<
    String,
>)
    ensures
        text::optional_text(name) == reference(json::fields_of(fields@), pairs(named@)),
{
    let ghost all = pairs(named@);
    let target: &str = match find_field(fields, "$ref") {
        Some(Json::Str(target)) => target.as_str(),
        _ => {
            return None;
        },
    };
    let mut i: usize = 0;
    assert(all.skip(0) =~= all);
    while i < named.len()
        invariant
            i <= named@.len(),
            all == pairs(named@),
            reference(json::fields_of(fields@), all) == named_under(all, target@),
            named_under(all, target@) == named_under(all.skip(i as int), target@),
        decreases named@.len() - i,
    {
        assert(all.skip(i as int)[0] == (named@[i as int].0@, named@[i as int].1@));
        assert(all.skip(i as int).drop_first() =~= all.skip(i + 1));
        if same_text(named[i].0.as_str(), target) {
            return Some(named[i].1.clone());
        }
        i += 1;
    }
    None
}

/// Render a JSON Schema as a TypeScript type expression.
pub fn render_type(schema: &Json) -> (rendered: String)
    ensures
        rendered@ == type_of(schema@, ""@, seq![]),
{
    let named: Vec<(String, String)> = Vec::new();
    assert(pairs(named@) =~= seq![]);
    render_at(schema, "", &named)
}

/// Render a schema whose type starts on a line indented by `pad`.
pub fn render_at(schema: &Json, pad: &str, named: &Vec<(String, String)>) -> (rendered: String)
    ensures
        rendered@ == type_of(schema@, pad@, pairs(named@)),
    decreases *schema, 0nat,
{
    match schema {
        // A schema may be a bare boolean: `true` accepts anything, `false`
        // accepts nothing.
        Json::Bool(b) => if *b {
            "unknown".to_string()
        } else {
            "never".to_string()
        },
        Json::Object(fields) => {
            proof {
                assert(decreases_to!(*schema => schema->Object_0));
                assert(decreases_to!(*fields => fields@));
            }
            render_object_schema(fields, pad, named)
        },
        // Anything else is malformed; degrade rather than fail.
        _ => "unknown".to_string(),
    }
}

fn render_object_schema(
    fields: &Vec<(String, Json)>,
    pad: &str,
    named: &Vec<(String, String)>,
) -> (rendered: String)
    ensures
        rendered@ == object_type(json::fields_of(fields@), pad@, pairs(named@)),
    decreases fields@, 2nat,
{
    if let Some(name) = find_reference(fields, named) {
        return name;
    }
    if let Some(Json::Array(values)) = find_field(fields, "enum") {
        return render_enum(values);
    }
    if let Some(Json::Str(ty)) = find_field(fields, "type") {
        let ty = ty.as_str();
        if same_text(ty, "string") {
            "string".to_string()
        } else if same_text(ty, "number") || same_text(ty, "integer") {
            // JSON Schema separates integers from other numbers; TypeScript
            // does not.
            "number".to_string()
        } else if same_text(ty, "boolean") {
            "boolean".to_string()
        } else if same_text(ty, "null") {
            "null".to_string()
        } else if same_text(ty, "array") {
            render_array(fields, pad, named)
        } else if same_text(ty, "object") {
            render_struct(fields, pad, named)
        } else {
            "unknown".to_string()
        }
    } else {
        "unknown".to_string()
    }
}

/// The type of an array whose elements have the type `inner`.
fn array_text(inner: String) -> (rendered: String)
    ensures
        rendered@ == array_of(inner@),
{
    let chars = chars_of(inner.as_str());
    let bar = position_of(chars.as_slice(), 0, '|');
    proof {
        text::lemma_length_before(inner@, '|');
        assert(chars@.skip(0) =~= inner@);
        assert(inner@.contains('|') <==> bar < chars@.len()) by {
            if bar < chars@.len() {
                assert(inner@[bar as int] == '|');
            }
        }
    }
    if bar < chars.len() && chars[0] != '(' {
        let mut rendered = String::new();
        rendered.append("(");
        rendered.append(inner.as_str());
        rendered.append(")[]");
        assert(rendered@ =~= "("@ + inner@ + ")[]"@);
        rendered
    } else {
        inner.concat("[]")
    }
}

fn render_array(
    fields: &Vec<(String, Json)>,
    pad: &str,
    named: &Vec<(String, String)>,
) -> (rendered: String)
    ensures
        rendered@ == array_type(json::fields_of(fields@), pad@, pairs(named@)),
    decreases fields@, 1nat,
{
    match find_field(fields, "items") {
        Some(items) => {
            proof {
                lemma_stored_smaller(fields@, *items);
            }
            array_text(render_at(items, pad, named))
        },
        None => "unknown[]".to_string(),
    }
}

/// A value stored in a list of fields is smaller than the list.
proof fn lemma_stored_smaller(fields: Seq<(String, Json)>, value: Json)
    requires
        exists|i: int| 0 <= i < fields.len() && value == (#[trigger] fields[i]).1,
    ensures
        decreases_to!(fields => value),
{
    let i = choose|i: int| 0 <= i < fields.len() && value == (#[trigger] fields[i]).1;
    assert(decreases_to!(fields => fields[i]));
    assert(decreases_to!(fields[i] => fields[i].1));
}

/// Render an object schema with its properties spelled out.
pub fn render_struct(
    fields: &Vec<(String, Json)>,
    pad: &str,
    named: &Vec<(String, String)>,
) -> (rendered: String)
    ensures
        rendered@ == struct_type(json::fields_of(fields@), pad@, pairs(named@)),
    decreases fields@, 1nat,
{
    let found = find_field(fields, "properties");
    let properties: &Vec<(String, Json)> = match found {
        Some(Json::Object(properties)) => properties,
        // An object with no declared properties is an open map. Note that
        // `additionalProperties: false` is deliberately ignored: it constrains
        // what may be *sent*, not the shape of what is described, and treating
        // it as unrecognized would degrade every ordinary object to `unknown`.
        _ => {
            return "Record<string, unknown>".to_string();
        },
    };
    if properties.len() == 0 {
        return "{}".to_string();
    }
    let required: Vec<String> = match find_field(fields, "required") {
        Some(Json::Array(names)) => collect_strings(names),
        _ => Vec::new(),
    };
    let ghost trees = json::fields_of(properties@);
    let ghost names = required_names(json::fields_of(fields@));
    proof {
        assert(text::texts(required@) =~= names);
        let holder = *found->Some_0;
        lemma_stored_smaller(fields@, holder);
        assert(decreases_to!(holder => holder->Object_0));
        assert(decreases_to!(*properties => properties@));
    }
    let inner = pad.to_string().concat("  ");
    let mut body = String::new();
    let mut i: usize = 0;
    while i < properties.len()
        invariant
            i <= properties@.len(),
            trees == json::fields_of(properties@),
            names == text::texts(required@),
            inner@ == pad@ + "  "@,
            decreases_to!(fields@ => properties@),
            body@ == properties_text(
                trees,
                i as nat,
                names,
                inner@,
                pairs(named@),
            ),
        decreases properties@.len() - i,
    {
        let name = properties[i].0.as_str();
        let subschema = &properties[i].1;
        let ghost was = body@;
        let ghost property = trees[i as int];
        proof {
            assert(property == (name@, subschema@));
            lemma_stored_smaller(properties@, *subschema);
        }
        let doc = doc_comment(subschema);
        push_doc_line(&mut body, inner.as_str(), &doc);
        let rendered = render_at(subschema, inner.as_str(), named);
        body.append(inner.as_str());
        body.append(property_key(name).as_str());
        if !contains_text(required.as_slice(), name) {
            body.append("?");
        }
        body.append(": ");
        body.append(rendered.as_str());
        body.append(";\n");
        proof {
            reveal_strlit("");
            assert(body@ =~= was + property_text(property, rendered@, names, inner@));
        }
        i += 1;
    }
    let mut out = String::new();
    out.append("{\n");
    out.append(body.as_str());
    out.append(pad);
    out.append("}");
    assert(out@ =~= "{\n"@ + body@ + pad@ + "}"@);
    out
}

/// Add the line a documentation text takes, if there is one.
pub fn push_doc_line(out: &mut String, pad: &str, doc: &Option<String>)
    ensures
        final(out)@ == old(out)@ + doc_line(pad@, text::optional_text(*doc)),
{
    let ghost was = out@;
    match doc {
        Some(doc) => {
            out.append(pad);
            out.append("/** ");
            out.append(doc.as_str());
            out.append(" */\n");
            assert(out@ =~= was + (pad@ + "/** "@ + doc@ + " */\n"@));
        },
        None => {
            assert(out@ =~= was + seq![]);
        },
    }
}

/// Two spaces for each level of indentation.
pub open spec fn padding(indent: nat) -> Seq<char>
    decreases indent,
{
    if indent == 0 {
        seq![]
    } else {
        padding((indent - 1) as nat) + "  "@
    }
}

/// Two spaces for each level of indentation.
pub fn padding_string(indent: usize) -> (pad: String)
    ensures
        pad@ == padding(indent as nat),
{
    let mut pad = String::new();
    let mut i: usize = 0;
    while i < indent
        invariant
            i <= indent,
            pad@ == padding(i as nat),
        decreases indent - i,
    {
        pad.append("  ");
        i += 1;
    }
    pad
}

// ── laws ─────────────────────────────────────────────────────────────

/// Where a text with its comment ends broken still holds a `*`, no `/`
/// follows.
proof fn lemma_comment_ends_broken(s: Seq<char>)
    ensures
        forall|i: int, j: int|
            0 <= i && j == i + 1 && j < break_comment_ends(s).len() && #[trigger] break_comment_ends(
                s,
            )[i] == '*' ==> #[trigger] break_comment_ends(s)[j] != '/',
        s.len() == 0 <==> break_comment_ends(s).len() == 0,
        s.len() > 0 ==> break_comment_ends(s)[0] == s[0],
        forall|c: char|
            c != ' ' && !s.contains(c) ==> !(#[trigger] break_comment_ends(s).contains(c)),
    decreases s.len(),
{
    let out = break_comment_ends(s);
    if s.len() >= 2 {
        let (head, rest) = if s[0] == '*' && s[1] == '/' {
            (seq!['*', ' ', '/'], s.skip(2))
        } else {
            (seq![s[0]], s.drop_first())
        };
        lemma_comment_ends_broken(rest);
        let tail = break_comment_ends(rest);
        assert(out =~= head + tail);
        assert forall|i: int, j: int|
            0 <= i && j == i + 1 && j < out.len() && #[trigger] out[i] == '*' implies #[trigger] out[j]
            != '/' by {
            if i >= head.len() {
                assert(out[i] == tail[i - head.len()]);
                assert(out[j] == tail[j - head.len()]);
            } else if j >= head.len() {
                assert(out[j] == tail[0]);
            }
        }
        assert forall|c: char| c != ' ' && !s.contains(c) implies !(#[trigger] out.contains(c)) by {
            if rest.contains(c) {
                let i = choose|i: int| 0 <= i < rest.len() && rest[i] == c;
                assert(s[i + (s.len() - rest.len())] == c);
            }
            if out.contains(c) {
                let i = choose|i: int| 0 <= i < out.len() && out[i] == c;
                if i >= head.len() {
                    assert(tail[i - head.len()] == c);
                    assert(tail.contains(c));
                } else {
                    assert(out[i] == head[i]);
                    assert(c == s[0] || c == s[1]);
                }
            }
        }
    }
}

/// No word holds white space.
proof fn lemma_words_hold_no_space(s: Seq<char>)
    ensures
        forall|i: int, j: int|
            0 <= i < text::words(s).len() && 0 <= j < text::words(s)[i].len() ==> !text::is_space(
                #[trigger] text::words(s)[i][j],
            ),
    decreases s.len(),
{
    if s.len() > 0 && text::is_space(s[0]) {
        lemma_words_hold_no_space(s.drop_first());
        assert(text::words(s) == text::words(s.drop_first()));
    } else if s.len() > 0 {
        text::lemma_word_len(s);
        let n = text::word_len(s) as int;
        lemma_words_hold_no_space(s.skip(n));
        let all = text::words(s);
        assert forall|i: int, j: int|
            0 <= i < all.len() && 0 <= j < all[i].len() implies !text::is_space(
            #[trigger] all[i][j],
        ) by {
            if i == 0 {
                assert(all[0] == s.take(n));
                assert(all[0][j] == s[j]);
            } else {
                assert(all[i] == text::words(s.skip(n))[i - 1]);
            }
        }
    }
}

/// Joining texts that do not hold `c` with a separator that does not gives a
/// text that does not.
proof fn lemma_join_without(parts: Seq<Seq<char>>, separator: Seq<char>, c: char)
    requires
        !separator.contains(c),
        forall|i: int| 0 <= i < parts.len() ==> !(#[trigger] parts[i]).contains(c),
    ensures
        !text::join(parts, separator).contains(c),
    decreases parts.len(),
{
    if parts.len() > 1 {
        lemma_join_without(parts.drop_last(), separator, c);
        let front = text::join(parts.drop_last(), separator);
        let all = text::join(parts, separator);
        assert(all =~= front + separator + parts.last());
        if all.contains(c) {
            let i = choose|i: int| 0 <= i < all.len() && all[i] == c;
            if i < front.len() {
                assert(front[i] == c);
            } else if i < front.len() + separator.len() {
                assert(separator[i - front.len()] == c);
            } else {
                assert(parts.last()[i - front.len() - separator.len()] == c);
            }
        }
    }
}

/// A documentation text never closes the comment it stands in, and never
/// breaks its line.
pub proof fn doc_stays_in_its_comment(description: Seq<char>)
    ensures
        doc_of(description) matches Some(doc) ==> {
            &&& !text::has_piece(doc, "*/"@)
            &&& !doc.contains('\n')
            &&& doc.len() > 0
        },
{
    reveal_strlit("*/");
    let parts = text::words(description);
    if parts.len() > 0 {
        let joined = text::join(parts, seq![' ']);
        let doc = break_comment_ends(joined);
        lemma_comment_ends_broken(joined);
        assert forall|at: int| !text::stands_at(doc, "*/"@, at) by {
            if text::stands_at(doc, "*/"@, at) {
                let piece = doc.subrange(at, at + 2);
                assert(piece[0] == '*' && piece[1] == '/');
                assert(doc[at] == '*' && doc[at + 1] == '/');
            }
        }
        lemma_words_hold_no_space(description);
        assert forall|i: int| 0 <= i < parts.len() implies !(#[trigger] parts[i]).contains('\n') by {
            if parts[i].contains('\n') {
                let j = choose|j: int| 0 <= j < parts[i].len() && parts[i][j] == '\n';
                assert(text::is_space(parts[i][j]));
            }
        }
        lemma_join_without(parts, seq![' '], '\n');
        lemma_words_nonempty(description);
        lemma_join_nonempty(parts, seq![' ']);
    }
}

/// No word is empty.
proof fn lemma_words_nonempty(s: Seq<char>)
    ensures
        forall|i: int| 0 <= i < text::words(s).len() ==> (#[trigger] text::words(s)[i]).len() > 0,
    decreases s.len(),
{
    if s.len() > 0 && text::is_space(s[0]) {
        lemma_words_nonempty(s.drop_first());
        assert(text::words(s) == text::words(s.drop_first()));
    } else if s.len() > 0 {
        text::lemma_word_len(s);
        let n = text::word_len(s) as int;
        lemma_words_nonempty(s.skip(n));
        assert forall|i: int| 0 <= i < text::words(s).len() implies (
        #[trigger] text::words(s)[i]).len() > 0 by {
            if i > 0 {
                assert(text::words(s)[i] == text::words(s.skip(n))[i - 1]);
            }
        }
    }
}

/// Joining texts that are not empty gives one that is not.
proof fn lemma_join_nonempty(parts: Seq<Seq<char>>, separator: Seq<char>)
    requires
        parts.len() > 0,
        forall|i: int| 0 <= i < parts.len() ==> (#[trigger] parts[i]).len() > 0,
    ensures
        text::join(parts, separator).len() > 0,
    decreases parts.len(),
{
    if parts.len() > 1 {
        assert(parts.last() == parts[parts.len() - 1]);
    }
}

/// An `enum` decides the type alone, whatever `type` the schema declares.
pub proof fn enum_wins_over_type(
    fields: Seq<(Seq<char>, JsonTree)>,
    values: Seq<JsonTree>,
    pad: Seq<char>,
    named: Seq<(Seq<char>, Seq<char>)>,
)
    requires
        json::lookup(fields, "enum"@) == Some(JsonTree::Array(values)),
        reference(fields, named) is None,
    ensures
        type_of(JsonTree::Object(fields), pad, named) == enum_type(values),
{
}

/// Nothing but `$ref`, `enum`, `type`, `items`, `properties` and `required`
/// has any say in the type of an object schema; `additionalProperties` and
/// every other keyword is passed over.
pub proof fn other_keywords_are_passed_over(
    a: Seq<(Seq<char>, JsonTree)>,
    b: Seq<(Seq<char>, JsonTree)>,
    pad: Seq<char>,
    named: Seq<(Seq<char>, Seq<char>)>,
)
    requires
        json::lookup(a, "$ref"@) == json::lookup(b, "$ref"@),
        json::lookup(a, "enum"@) == json::lookup(b, "enum"@),
        json::lookup(a, "type"@) == json::lookup(b, "type"@),
        json::lookup(a, "items"@) == json::lookup(b, "items"@),
        json::lookup(a, "properties"@) == json::lookup(b, "properties"@),
        json::lookup(a, "required"@) == json::lookup(b, "required"@),
    ensures
        type_of(JsonTree::Object(a), pad, named) == type_of(JsonTree::Object(b), pad, named),
{
}

/// The lines one property of an object type takes.
pub open spec fn member(
    property: (Seq<char>, JsonTree),
    required: Seq<Seq<char>>,
    pad: Seq<char>,
    named: Seq<(Seq<char>, Seq<char>)>,
) -> Seq<char> {
    property_text(property, type_of(property.1, pad, named), required, pad)
}

/// The lines each of some properties takes.
pub open spec fn members(
    properties: Seq<(Seq<char>, JsonTree)>,
    required: Seq<Seq<char>>,
    pad: Seq<char>,
    named: Seq<(Seq<char>, Seq<char>)>,
) -> Seq<Seq<char>> {
    properties.map_values(
        |property: (Seq<char>, JsonTree)| member(property, required, pad, named),
    )
}

/// The lines of the first properties are their members in turn.
proof fn lemma_members(
    properties: Seq<(Seq<char>, JsonTree)>,
    n: nat,
    required: Seq<Seq<char>>,
    pad: Seq<char>,
    named: Seq<(Seq<char>, Seq<char>)>,
)
    requires
        n <= properties.len(),
    ensures
        properties_text(properties, n, required, pad, named) == text::concat(
            members(properties, required, pad, named).take(n as int),
        ),
    decreases n,
{
    if n > 0 {
        let all = members(properties, required, pad, named);
        lemma_members(properties, (n - 1) as nat, required, pad, named);
        assert(all.take(n as int).drop_last() =~= all.take(n - 1));
    }
}

/// An object type has exactly one member for each property, in the order they
/// are walked in. A member's key is followed by `?` exactly where the name is
/// not among the strings of `required`, so all are optional where that is
/// absent or no array. Nothing else has a say: two schemas that declare and
/// require the same have the same type, whether `additionalProperties` is
/// there, absent or different.
pub proof fn each_property_is_one_member(
    fields: Seq<(Seq<char>, JsonTree)>,
    other: Seq<(Seq<char>, JsonTree)>,
    properties: Seq<(Seq<char>, JsonTree)>,
    pad: Seq<char>,
    named: Seq<(Seq<char>, Seq<char>)>,
)
    requires
        json::lookup(fields, "properties"@) == Some(JsonTree::Object(properties)),
        properties.len() > 0,
        json::lookup(other, "properties"@) == json::lookup(fields, "properties"@),
        json::lookup(other, "required"@) == json::lookup(fields, "required"@),
    ensures
        struct_type(fields, pad, named) == "{\n"@ + text::concat(
            members(properties, required_names(fields), pad + "  "@, named),
        ) + pad + "}"@,
        members(properties, required_names(fields), pad + "  "@, named).len()
            == properties.len(),
        forall|i: int|
            0 <= i < properties.len() ==> #[trigger] members(
                properties,
                required_names(fields),
                pad + "  "@,
                named,
            )[i] == doc_line(pad + "  "@, schema_doc(properties[i].1)) + (pad + "  "@) + key_text(
                properties[i].0,
                quote(properties[i].0),
            ) + (if required_names(fields).contains(properties[i].0) {
                ""@
            } else {
                "?"@
            }) + ": "@ + type_of(properties[i].1, pad + "  "@, named) + ";\n"@,
        !(json::lookup(fields, "required"@) matches Some(JsonTree::Array(_)))
            ==> required_names(fields).len() == 0,
        struct_type(other, pad, named) == struct_type(fields, pad, named),
{
    let required = required_names(fields);
    let all = members(properties, required, pad + "  "@, named);
    lemma_members(properties, properties.len(), required, pad + "  "@, named);
    assert(all.take(properties.len() as int) =~= all);
}

/// Whether a schema's own keywords decide its type: it refers to no named type.
pub open spec fn stands_alone(
    fields: Seq<(Seq<char>, JsonTree)>,
    named: Seq<(Seq<char>, Seq<char>)>,
) -> bool {
    forall|i: int|
        0 <= i < named.len() ==> json::lookup(fields, "$ref"@) != Some(
            JsonTree::Str((#[trigger] named[i]).0),
        )
}

/// A schema that refers to no named type is not rendered as one.
proof fn lemma_stands_alone(
    fields: Seq<(Seq<char>, JsonTree)>,
    named: Seq<(Seq<char>, Seq<char>)>,
)
    requires
        stands_alone(fields, named),
    ensures
        reference(fields, named) is None,
    decreases named.len(),
{
    if named.len() > 0 {
        let rest = named.drop_first();
        assert forall|i: int| 0 <= i < rest.len() implies json::lookup(fields, "$ref"@) != Some(
            JsonTree::Str((#[trigger] rest[i]).0),
        ) by {
            assert(rest[i] == named[i + 1]);
        }
        lemma_stands_alone(fields, rest);
        assert(json::lookup(fields, "$ref"@) != Some(JsonTree::Str(named[0].0)));
    }
}

/// A `$ref` to a named type reads as the identifier of the first type under
/// that target, whatever else the schema says.
pub proof fn a_reference_reads_as_its_identifier(
    fields: Seq<(Seq<char>, JsonTree)>,
    pad: Seq<char>,
    named: Seq<(Seq<char>, Seq<char>)>,
    i: int,
)
    requires
        0 <= i < named.len(),
        json::lookup(fields, "$ref"@) == Some(JsonTree::Str(named[i].0)),
        forall|j: int| 0 <= j < i ==> (#[trigger] named[j]).0 != named[i].0,
    ensures
        type_of(JsonTree::Object(fields), pad, named) == named[i].1,
{
    lemma_first_named(named, i);
}

proof fn lemma_first_named(named: Seq<(Seq<char>, Seq<char>)>, i: int)
    requires
        0 <= i < named.len(),
        forall|j: int| 0 <= j < i ==> (#[trigger] named[j]).0 != named[i].0,
    ensures
        named_under(named, named[i].0) == Some(named[i].1),
    decreases i,
{
    if i > 0 {
        let rest = named.drop_first();
        assert(named[0].0 != named[i].0);
        assert forall|j: int| 0 <= j < i - 1 implies (#[trigger] rest[j]).0 != rest[i - 1].0 by {
            assert(named[j + 1].0 != named[i].0);
        }
        lemma_first_named(rest, i - 1);
    }
}

/// What accepts anything, or is no schema, is `unknown`; what accepts nothing
/// is `never`.
pub proof fn what_constrains_nothing_is_unknown(
    pad: Seq<char>,
    named: Seq<(Seq<char>, Seq<char>)>,
    text: Seq<char>,
    items: Seq<JsonTree>,
)
    ensures
        type_of(JsonTree::Bool(true), pad, named) == "unknown"@,
        type_of(JsonTree::Bool(false), pad, named) == "never"@,
        type_of(JsonTree::Null, pad, named) == "unknown"@,
        type_of(JsonTree::Number(text), pad, named) == "unknown"@,
        type_of(JsonTree::Str(text), pad, named) == "unknown"@,
        type_of(JsonTree::Array(items), pad, named) == "unknown"@,
        type_of(JsonTree::Object(seq![]), pad, named) == "unknown"@,
{
    reveal_with_fuel(json::lookup, 2);
}

/// The type a schema without `enum` declares is rendered as what TypeScript
/// calls it, and anything it does not know as `unknown`.
pub proof fn scalars_keep_their_names(
    fields: Seq<(Seq<char>, JsonTree)>,
    pad: Seq<char>,
    named: Seq<(Seq<char>, Seq<char>)>,
)
    requires
        stands_alone(fields, named),
        !(json::lookup(fields, "enum"@) matches Some(JsonTree::Array(_))),
    ensures
        ({
            let rendered = type_of(JsonTree::Object(fields), pad, named);
            match json::lookup(fields, "type"@) {
                Some(JsonTree::Str(ty)) => {
                    &&& ty == "string"@ ==> rendered == "string"@
                    &&& ty == "number"@ ==> rendered == "number"@
                    &&& ty == "integer"@ ==> rendered == "number"@
                    &&& ty == "boolean"@ ==> rendered == "boolean"@
                    &&& ty == "null"@ ==> rendered == "null"@
                    &&& ty != "string"@ && ty != "number"@ && ty != "integer"@ && ty != "boolean"@
                        && ty != "null"@ && ty != "array"@ && ty != "object"@ ==> rendered
                        == "unknown"@
                },
                _ => rendered == "unknown"@,
            }
        }),
{
    lemma_stands_alone(fields, named);
    reveal_strlit("string");
    reveal_strlit("number");
    reveal_strlit("integer");
    reveal_strlit("boolean");
    reveal_strlit("null");
    assert("string"@[0] == 's' && "number"@[0] == 'n' && "integer"@[0] == 'i' && "boolean"@[0]
        == 'b' && "null"@.len() == 4 && "number"@.len() == 6 && "string"@.len() == 6);
}

/// An array is written as the type of its items with `[]` behind it. The type
/// is put in parentheses exactly where it is a union that has none around it,
/// so that the `[]` reads as belonging to all of it.
pub proof fn an_array_is_of_its_items(
    fields: Seq<(Seq<char>, JsonTree)>,
    pad: Seq<char>,
    named: Seq<(Seq<char>, Seq<char>)>,
)
    requires
        stands_alone(fields, named),
        !(json::lookup(fields, "enum"@) matches Some(JsonTree::Array(_))),
        json::lookup(fields, "type"@) == Some(JsonTree::Str("array"@)),
    ensures
        ({
            let rendered = type_of(JsonTree::Object(fields), pad, named);
            match json::lookup(fields, "items"@) {
                Some(items) => {
                    let inner = type_of(items, pad, named);
                    let union = inner.contains('|') && (inner.len() == 0 || inner[0] != '(');
                    &&& rendered.len() >= inner.len() + 2
                    &&& rendered[rendered.len() - 2] == '['
                    &&& rendered[rendered.len() - 1] == ']'
                    &&& !union ==> rendered == inner + seq!['[', ']']
                    &&& union ==> rendered == seq!['('] + inner + seq![')', '[', ']']
                },
                None => rendered == "unknown[]"@,
            }
        }),
{
    lemma_stands_alone(fields, named);
    reveal_strlit("array");
    reveal_strlit("string");
    reveal_strlit("number");
    reveal_strlit("integer");
    reveal_strlit("boolean");
    reveal_strlit("null");
    reveal_strlit("[]");
    reveal_strlit("(");
    reveal_strlit(")[]");
    assert("array"@.len() == 5 && "string"@.len() == 6 && "number"@.len() == 6 && "integer"@.len()
        == 7 && "boolean"@.len() == 7 && "null"@.len() == 4);
    let rendered = type_of(JsonTree::Object(fields), pad, named);
    match json::lookup(fields, "items"@) {
        Some(items) => {
            let inner = type_of(items, pad, named);
            if inner.contains('|') && !(inner.len() > 0 && inner[0] == '(') {
                assert(rendered =~= seq!['('] + inner + seq![')', '[', ']']);
            } else {
                assert(rendered =~= inner + seq!['[', ']']);
            }
        },
        None => {},
    }
}

/// An object type opens with a brace on its line, has one line for each
/// property with its documentation above it, and closes on a line of its own.
/// Without declared properties it is an open map, and with none at all it is
/// empty.
pub proof fn an_object_spells_out_its_properties(
    fields: Seq<(Seq<char>, JsonTree)>,
    pad: Seq<char>,
    named: Seq<(Seq<char>, Seq<char>)>,
)
    requires
        stands_alone(fields, named),
        !(json::lookup(fields, "enum"@) matches Some(JsonTree::Array(_))),
        json::lookup(fields, "type"@) == Some(JsonTree::Str("object"@)),
    ensures
        ({
            let rendered = type_of(JsonTree::Object(fields), pad, named);
            match json::lookup(fields, "properties"@) {
                Some(JsonTree::Object(properties)) => if properties.len() == 0 {
                    rendered == "{}"@
                } else {
                    rendered == "{\n"@ + text::concat(
                        Seq::new(
                            properties.len(),
                            |i: int|
                                (match schema_doc(properties[i].1) {
                                    Some(doc) => pad + "  "@ + "/** "@ + doc + " */\n"@,
                                    None => seq![],
                                }) + (pad + "  "@) + (if is_identifier(properties[i].0) {
                                    properties[i].0
                                } else {
                                    quote(properties[i].0)
                                }) + (if required_names(fields).contains(properties[i].0) {
                                    seq![]
                                } else {
                                    seq!['?']
                                }) + ": "@ + type_of(properties[i].1, pad + "  "@, named)
                                    + ";\n"@,
                        ),
                    ) + pad + "}"@
                },
                _ => rendered == "Record<string, unknown>"@,
            }
        }),
{
    lemma_stands_alone(fields, named);
    reveal_strlit("array");
    reveal_strlit("object");
    reveal_strlit("string");
    reveal_strlit("number");
    reveal_strlit("integer");
    reveal_strlit("boolean");
    reveal_strlit("null");
    reveal_strlit("");
    reveal_strlit("?");
    assert("object"@[0] == 'o' && "string"@[0] == 's' && "number"@[0] == 'n' && "array"@[0] == 'a'
        && "integer"@[0] == 'i' && "boolean"@[0] == 'b' && "null"@[0] == 'n');
    if let Some(JsonTree::Object(properties)) = json::lookup(fields, "properties"@) {
        if properties.len() > 0 {
            let required = required_names(fields);
            let inner = pad + "  "@;
            each_property_is_one_member(fields, fields, properties, pad, named);
            let lines = Seq::new(
                properties.len(),
                |i: int|
                    (match schema_doc(properties[i].1) {
                        Some(doc) => pad + "  "@ + "/** "@ + doc + " */\n"@,
                        None => seq![],
                    }) + (pad + "  "@) + (if is_identifier(properties[i].0) {
                        properties[i].0
                    } else {
                        quote(properties[i].0)
                    }) + (if required_names(fields).contains(properties[i].0) {
                        seq![]
                    } else {
                        seq!['?']
                    }) + ": "@ + type_of(properties[i].1, pad + "  "@, named) + ";\n"@,
            );
            let all = members(properties, required, inner, named);
            assert forall|i: int| 0 <= i < properties.len() implies #[trigger] all[i] == lines[i] by {
                assert(""@ =~= seq![]);
                assert("?"@ =~= seq!['?']);
                assert(all[i] =~= lines[i]);
            }
            assert(all =~= lines);
        }
    }
}

/// An `enum` is a union of its values: none makes `never`, one is its literal,
/// and a further value adds its literal, unless that repeats the one before.
pub proof fn an_enum_is_a_union_of_its_values(
    fields: Seq<(Seq<char>, JsonTree)>,
    longer: Seq<(Seq<char>, JsonTree)>,
    values: Seq<JsonTree>,
    value: JsonTree,
    pad: Seq<char>,
    named: Seq<(Seq<char>, Seq<char>)>,
)
    requires
        stands_alone(fields, named),
        stands_alone(longer, named),
        json::lookup(fields, "enum"@) == Some(JsonTree::Array(values)),
        json::lookup(longer, "enum"@) == Some(JsonTree::Array(values.push(value))),
    ensures
        ({
            let shorter = type_of(JsonTree::Object(fields), pad, named);
            let rendered = type_of(JsonTree::Object(longer), pad, named);
            if values.len() == 0 {
                shorter == "never"@ && rendered == literal_of(value)
            } else if literal_of(values.last()) == literal_of(value) {
                rendered == shorter
            } else {
                rendered == shorter + seq![' ', '|', ' '] + literal_of(value)
            }
        }),
{
    lemma_stands_alone(fields, named);
    lemma_stands_alone(longer, named);
    reveal_strlit(" | ");
    assert(" | "@ =~= seq![' ', '|', ' ']);
    let short = values.map_values(|value: JsonTree| literal_of(value));
    let long = values.push(value).map_values(|value: JsonTree| literal_of(value));
    assert(long =~= short.push(literal_of(value)));
    assert(long.drop_last() =~= short);
    reveal_with_fuel(without_repeats, 2);
    if values.len() > 0 {
        assert(short.last() == literal_of(values.last()));
        lemma_without_repeats_nonempty(short);
        let kept = without_repeats(short);
        assert(kept.push(literal_of(value)).drop_last() =~= kept);
    } else {
        assert(short =~= seq![]);
        assert(without_repeats(long) =~= seq![literal_of(value)]);
    }
}

proof fn lemma_without_repeats_nonempty(parts: Seq<Seq<char>>)
    requires
        parts.len() > 0,
    ensures
        without_repeats(parts).len() > 0,
    decreases parts.len(),
{
    if parts.len() > 1 {
        lemma_without_repeats_nonempty(parts.drop_last());
    }
}

/// A value is written as TypeScript spells its literal type, where it has one.
pub proof fn literals_are_spelled_as_values(
    text: Seq<char>,
    items: Seq<JsonTree>,
    entries: Seq<(Seq<char>, JsonTree)>,
)
    ensures
        literal_of(JsonTree::Str(text)) == quote(text),
        literal_of(JsonTree::Number(text)) == text,
        literal_of(JsonTree::Bool(true)) == "true"@,
        literal_of(JsonTree::Bool(false)) == "false"@,
        literal_of(JsonTree::Null) == "null"@,
        literal_of(JsonTree::Array(items)) == "unknown"@,
        literal_of(JsonTree::Object(entries)) == "unknown"@,
        literal_text(JsonTree::Str(text), quote(text)) == quote(text),
        literal_text(JsonTree::Number(text), quote(text)) == text,
        literal_text(JsonTree::Bool(true), text) == "true"@,
        literal_text(JsonTree::Bool(false), text) == "false"@,
        literal_text(JsonTree::Null, text) == "null"@,
        literal_text(JsonTree::Array(items), text) == "unknown"@,
        literal_text(JsonTree::Object(entries), text) == "unknown"@,
{
}

/// A comment end is broken by a space between its two characters, and nothing
/// else of a text changes.
pub proof fn only_comment_ends_are_broken(a: Seq<char>, b: Seq<char>)
    requires
        forall|i: int, j: int|
            0 <= i && j == i + 1 && j < a.len() && #[trigger] a[i] == '*' ==> #[trigger] a[j] != '/',
    ensures
        break_comment_ends(a) == a,
        break_comment_ends(a + seq!['*', '/'] + b) == a + seq!['*', ' ', '/']
            + break_comment_ends(b),
    decreases a.len(),
{
    let whole = a + seq!['*', '/'] + b;
    if a.len() == 0 {
        assert(whole.skip(2) =~= b);
        assert(break_comment_ends(whole) =~= a + seq!['*', ' ', '/'] + break_comment_ends(b));
    } else {
        let rest = a.drop_first();
        assert forall|i: int, j: int|
            0 <= i && j == i + 1 && j < rest.len() && #[trigger] rest[i] == '*' implies #[trigger] rest[j]
            != '/' by {
            assert(rest[i] == a[i + 1] && rest[j] == a[j + 1]);
        }
        only_comment_ends_are_broken(rest, b);
        assert(whole.drop_first() =~= rest + seq!['*', '/'] + b);
        assert(whole[0] == a[0]);
        if a.len() > 1 {
            assert(whole[1] == a[1]);
            assert(a =~= seq![a[0]] + rest);
        } else {
            assert(whole[1] == '*');
        }
        assert(break_comment_ends(whole) =~= a + seq!['*', ' ', '/'] + break_comment_ends(b));
    }
}

/// A documentation text says every word of the description in order, on one
/// line; a description without words is none. A schema is documented by its
/// `description`, where that is a string.
pub proof fn docs_say_every_word(description: Seq<char>, schema: JsonTree)
    ensures
        text::words(description).len() == 0 <==> doc_of(description) is None,
        doc_of(description) matches Some(doc) ==> doc == break_comment_ends(
            text::join(text::words(description), seq![' ']),
        ),
        schema.get("description"@) == Some(JsonTree::Str(description)) ==> schema_doc(schema)
            == doc_of(description),
        !(schema.get("description"@) matches Some(JsonTree::Str(_))) ==> schema_doc(schema) is None,
{
}

/// The strings of an array are all of its items that are strings, in order.
pub proof fn strings_are_what_is_a_string(items: Seq<JsonTree>, more: Seq<JsonTree>)
    ensures
        strings_in(items) == items.filter_map(
            |item: JsonTree|
                match item {
                    JsonTree::Str(text) => Some(text),
                    _ => None,
                },
        ),
        strings_in(items + more) == strings_in(items) + strings_in(more),
    decreases items.len(), more.len(),
{
    if more.len() > 0 {
        assert((items + more).drop_last() =~= items + more.drop_last());
        strings_are_what_is_a_string(items, more.drop_last());
        assert(strings_in(items + more) =~= strings_in(items) + strings_in(more));
    } else {
        assert(items + more =~= items);
        assert(strings_in(items + more) =~= strings_in(items) + strings_in(more));
    }
    if items.len() > 0 {
        strings_are_what_is_a_string(items.drop_last(), seq![]);
    }
}

/// What a schema requires: the strings of its `required` array, if it has one.
pub proof fn requirements_are_the_strings_of_required(fields: Seq<(Seq<char>, JsonTree)>)
    ensures
        match json::lookup(fields, "required"@) {
            Some(JsonTree::Array(names)) => forall|name: Seq<char>| #[trigger]
                required_names(fields).contains(name) <==> names.contains(JsonTree::Str(name)),
            _ => required_names(fields).len() == 0,
        },
{
    if let Some(JsonTree::Array(names)) = json::lookup(fields, "required"@) {
        assert forall|name: Seq<char>| #[trigger] required_names(fields).contains(
            name,
        ) <==> names.contains(JsonTree::Str(name)) by {
            lemma_string_among(names, name);
        }
    }
}

proof fn lemma_string_among(items: Seq<JsonTree>, text: Seq<char>)
    ensures
        strings_in(items).contains(text) <==> items.contains(JsonTree::Str(text)),
    decreases items.len(),
{
    if items.len() > 0 {
        let rest = items.drop_last();
        let earlier = strings_in(rest);
        let all = strings_in(items);
        lemma_string_among(rest, text);
        if earlier.contains(text) {
            let at = choose|at: int| 0 <= at < earlier.len() && earlier[at] == text;
            assert(all[at] == text);
        }
        if rest.contains(JsonTree::Str(text)) {
            let at = choose|at: int| 0 <= at < rest.len() && rest[at] == JsonTree::Str(text);
            assert(items[at] == JsonTree::Str(text));
        }
        if items.last() == JsonTree::Str(text) {
            assert(all[earlier.len() as int] == text);
            assert(items[items.len() - 1] == JsonTree::Str(text));
        }
        if all.contains(text) {
            let at = choose|at: int| 0 <= at < all.len() && all[at] == text;
            if at < earlier.len() {
                assert(earlier[at] == text);
            }
        }
        if items.contains(JsonTree::Str(text)) {
            let at = choose|at: int| 0 <= at < items.len() && items[at] == JsonTree::Str(text);
            if at < rest.len() {
                assert(rest[at] == JsonTree::Str(text));
            }
        }
    }
}

/// Whether a character is an ASCII letter or digit, `_` or `$`.
pub open spec fn is_ascii_word(c: char) -> bool {
    ||| 0x41 <= c as u32 <= 0x5a
    ||| 0x61 <= c as u32 <= 0x7a
    ||| 0x30 <= c as u32 <= 0x39
    ||| c == '_'
    ||| c == '$'
}

proof fn lemma_ascii_word(c: char)
    ensures
        is_ascii_word(c) <==> continues_identifier(c),
        is_ascii_word(c) && !(0x30 <= c as u32 <= 0x39) <==> starts_identifier(c),
{
}

/// An identifier is made of ASCII letters, digits, `_` and `$`, with no digit
/// in front; only such a name is written without quotes.
pub proof fn only_identifiers_go_unquoted(name: Seq<char>, quoted: Seq<char>)
    ensures
        is_identifier(name) <==> {
            &&& name.len() > 0
            &&& !(0x30 <= name[0] as u32 <= 0x39)
            &&& forall|i: int| 0 <= i < name.len() ==> is_ascii_word(#[trigger] name[i])
        },
        is_identifier(name) ==> key_text(name, quoted) == name,
        !is_identifier(name) ==> key_text(name, quoted) == quoted,
{
    if is_identifier(name) {
        lemma_ascii_word(name[0]);
        assert forall|i: int| 0 <= i < name.len() implies is_ascii_word(#[trigger] name[i]) by {
            lemma_ascii_word(name[i]);
            if i > 0 {
                assert(continues_identifier(name[i]));
            }
        }
    }
    let plain = forall|i: int| 0 <= i < name.len() ==> is_ascii_word(#[trigger] name[i]);
    if name.len() > 0 && !(0x30 <= name[0] as u32 <= 0x39) && plain {
        lemma_ascii_word(name[0]);
        assert forall|i: int| 0 < i < name.len() implies continues_identifier(
            #[trigger] name[i],
        ) by {
            lemma_ascii_word(name[i]);
        }
    }
}

/// A level of indentation is two spaces.
pub proof fn levels_are_two_spaces(indent: nat)
    ensures
        padding(indent).len() == 2 * indent,
        forall|i: int| 0 <= i < padding(indent).len() ==> #[trigger] padding(indent)[i] == ' ',
    decreases indent,
{
    reveal_strlit("  ");
    if indent > 0 {
        levels_are_two_spaces((indent - 1) as nat);
    }
}

} // verus!
