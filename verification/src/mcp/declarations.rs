//! Rendering a backing server's tools as TypeScript declarations.
//!
//! Each server becomes one object of methods, so a script reads as
//! `await sqlx.query({ sql: "..." })`. The object form, rather than a
//! `declare namespace`, is what lets a tool whose wire name is not a
//! JavaScript identifier still be declared, since an object type accepts
//! quoted method names.

use vstd::prelude::*;

use crate::json;
use crate::json::{Json, JsonTree};
use crate::mcp::named_types;
use crate::mcp::named_types::{DeclaredTypes, TypeRenderer};
use crate::mcp::schema_to_ts;
use crate::mcp::schema_to_ts::{
    collect_strings, is_js_identifier, jsdoc_text, push_doc_line, quoted,
};
use crate::text;
use crate::text::{alphanumeric, chars_of, contains_text, decimal_string};

verus! {

/// `c` where it is an ASCII letter or digit, an underscore otherwise.
pub open spec fn identifier_char(c: char) -> char {
    if text::is_alphanumeric(c) {
        c
    } else {
        '_'
    }
}

/// The JavaScript identifier a name is coerced into.
pub open spec fn identifier_for(name: Seq<char>) -> Seq<char> {
    let mapped = name.map_values(|c: char| identifier_char(c));
    if mapped.len() == 0 {
        "_"@
    } else if text::is_digit(mapped[0]) {
        "_"@ + mapped
    } else {
        mapped
    }
}

/// Coerce a wire name into a JavaScript identifier.
pub fn sanitize(name: &str) -> (identifier: String)
    ensures
        identifier@ == identifier_for(name@),
{
    let chars = chars_of(name);
    let ghost mapped = name@.map_values(|c: char| identifier_char(c));
    if chars.len() == 0 {
        return "_".to_string();
    }
    let mut identifier = String::new();
    if '0' <= chars[0] && chars[0] <= '9' {
        identifier.append("_");
    }
    let ghost head = identifier@;
    let mut i: usize = 0;
    while i < chars.len()
        invariant
            i <= chars@.len(),
            chars@ == name@,
            mapped == name@.map_values(|c: char| identifier_char(c)),
            identifier@ == head + mapped.take(i as int),
        decreases chars@.len() - i,
    {
        let c = chars[i];
        identifier.push(if alphanumeric(c) {
            c
        } else {
            '_'
        });
        assert(mapped.take(i + 1) =~= mapped.take(i as int).push(mapped[i as int]));
        i += 1;
    }
    assert(mapped.take(i as int) =~= mapped);
    identifier
}

/// An identifier coerced from a name is an identifier.
pub proof fn identifier_for_is_identifier(name: Seq<char>)
    ensures
        schema_to_ts::is_identifier(identifier_for(name)),
{
    reveal_strlit("_");
    let mapped = name.map_values(|c: char| identifier_char(c));
    let out = identifier_for(name);
    assert forall|i: int| 0 < i < out.len() implies schema_to_ts::continues_identifier(
        #[trigger] out[i],
    ) by {
        if mapped.len() > 0 && text::is_digit(mapped[0]) {
            assert(out[i] == mapped[i - 1]);
            assert(mapped[i - 1] == identifier_char(name[i - 1]));
        } else if mapped.len() > 0 {
            assert(mapped[i] == identifier_char(name[i]));
        }
    }
    if mapped.len() > 0 {
        assert(mapped[0] == identifier_char(name[0]));
    }
}

// ── keys ─────────────────────────────────────────────────────────────

/// The `k`-th spelling tried for a name: the name itself, then the name with
/// a counter behind it.
pub open spec fn candidate(name: Seq<char>, k: nat) -> Seq<char> {
    if k <= 1 {
        name
    } else {
        name + "_"@ + text::decimal(k)
    }
}

/// Whether the `k`-th spelling is the first one not taken.
pub open spec fn is_first_free(name: Seq<char>, used: Seq<Seq<char>>, k: nat) -> bool {
    &&& k >= 1
    &&& !used.contains(candidate(name, k))
    &&& forall|j: nat| 1 <= j < k ==> used.contains(#[trigger] candidate(name, j))
}

/// The first spelling of a name that is not taken.
pub open spec fn fresh(name: Seq<char>, used: Seq<Seq<char>>) -> Seq<char> {
    candidate(name, choose|k: nat| is_first_free(name, used, k))
}

/// Different spellings of a name are different.
proof fn lemma_candidates_differ(name: Seq<char>, j: nat, k: nat)
    requires
        1 <= j < k,
    ensures
        candidate(name, j) != candidate(name, k),
{
    reveal_strlit("_");
    text::lemma_decimal(j, k);
    text::lemma_decimal(k, j);
    if j > 1 {
        let from = name.len() + 1;
        assert(candidate(name, j).skip(from as int) =~= text::decimal(j));
        assert(candidate(name, k).skip(from as int) =~= text::decimal(k));
    } else {
        assert(candidate(name, k).len() > name.len());
    }
}

/// A list can hold no more different spellings than it is long.
pub proof fn lemma_taken_bound(name: Seq<char>, used: Seq<Seq<char>>, k: nat)
    requires
        k >= 1,
        forall|j: nat| 1 <= j < k ==> used.contains(#[trigger] candidate(name, j)),
    ensures
        k <= used.len() + 1,
    decreases k,
{
    if k > 1 {
        let last = (k - 1) as nat;
        assert(used.contains(candidate(name, last)));
        let at = choose|i: int| 0 <= i < used.len() && used[i] == candidate(name, last);
        let rest = used.remove(at);
        assert forall|j: nat| 1 <= j < last implies rest.contains(#[trigger] candidate(name, j)) by {
            lemma_candidates_differ(name, j, last);
            assert(used.contains(candidate(name, j)));
            let i = choose|i: int| 0 <= i < used.len() && used[i] == candidate(name, j);
            if i < at {
                assert(rest[i] == candidate(name, j));
            } else {
                assert(rest[i - 1] == candidate(name, j));
            }
        }
        lemma_taken_bound(name, rest, last);
    }
}

/// The first free spelling is the only first free spelling.
proof fn lemma_fresh_is(name: Seq<char>, used: Seq<Seq<char>>, k: nat)
    requires
        is_first_free(name, used, k),
    ensures
        fresh(name, used) == candidate(name, k),
{
    let chosen = choose|k: nat| is_first_free(name, used, k);
    assert(is_first_free(name, used, chosen));
    if chosen < k {
        assert(used.contains(candidate(name, chosen)));
    } else if k < chosen {
        assert(used.contains(candidate(name, k)));
    }
}

/// Some spelling of a name is always free, and it is the one [`fresh`] gives.
pub proof fn fresh_is_free(name: Seq<char>, used: Seq<Seq<char>>) -> (k: nat)
    ensures
        is_first_free(name, used, k),
        fresh(name, used) == candidate(name, k),
        !used.contains(fresh(name, used)),
{
    let k = first_free_from(name, used, 1);
    lemma_fresh_is(name, used, k);
    k
}

/// The first free spelling, where the first `k - 1` are known to be taken.
proof fn first_free_from(name: Seq<char>, used: Seq<Seq<char>>, k: nat) -> (found: nat)
    requires
        k >= 1,
        forall|j: nat| 1 <= j < k ==> used.contains(#[trigger] candidate(name, j)),
    ensures
        is_first_free(name, used, found),
    decreases used.len() + 2 - k,
{
    lemma_taken_bound(name, used, k);
    if used.contains(candidate(name, k)) {
        first_free_from(name, used, k + 1)
    } else {
        k
    }
}

/// The `k`-th spelling tried for a name.
pub fn candidate_string(name: &str, k: u128) -> (spelling: String)
    ensures
        spelling@ == candidate(name@, k as nat),
{
    if k <= 1 {
        name.to_string()
    } else {
        name.to_string().concat("_").concat(decimal_string(k).as_str())
    }
}

/// Keep names distinct. Two wire names differing only in punctuation coerce
/// to the same identifier; this is rare but must not silently drop a tool.
pub fn unique(name: String, used: &mut Vec<String>) -> (spelling: String)
    ensures
        spelling@ == fresh(name@, text::texts(old(used)@)),
        text::texts(final(used)@) == text::texts(old(used)@).push(spelling@),
{
    let ghost taken = text::texts(used@);
    let count: usize = used.len();
    let mut k: u128 = 1;
    let mut spelling = candidate_string(name.as_str(), k);
    while contains_text(used.as_slice(), spelling.as_str())
        invariant
            taken == text::texts(used@),
            taken.len() == count,
            k >= 1,
            spelling@ == candidate(name@, k as nat),
            forall|j: nat| 1 <= j < k ==> taken.contains(#[trigger] candidate(name@, j)),
        decreases taken.len() + 2 - k,
    {
        proof {
            assert forall|j: nat| 1 <= j < k + 1 implies taken.contains(
                #[trigger] candidate(name@, j),
            ) by {}
            lemma_taken_bound(name@, taken, (k + 1) as nat);
        }
        k += 1;
        spelling = candidate_string(name.as_str(), k);
    }
    proof {
        assert(is_first_free(name@, taken, k as nat));
        lemma_fresh_is(name@, taken, k as nat);
    }
    used.push(spelling.clone());
    assert(text::texts(used@) =~= taken.push(spelling@));
    spelling
}

/// The identifier a tool asks for: its own name where that is one, and what
/// the name is coerced into otherwise.
pub open spec fn wished(name: Seq<char>) -> Seq<char> {
    if schema_to_ts::is_identifier(name) {
        name
    } else {
        identifier_for(name)
    }
}

/// The identifier assigned to a tool: its own name where that is one, and
/// otherwise the name coerced into one, spelled so that it is not taken.
pub open spec fn assigned(name: Seq<char>, used: Seq<Seq<char>>) -> Seq<char> {
    fresh(wished(name), used)
}

/// The identifiers assigned to some tools, one each, in order.
pub open spec fn assigned_all(names: Seq<Seq<char>>) -> Seq<Seq<char>>
    decreases names.len(),
{
    if names.len() == 0 {
        seq![]
    } else {
        let used = assigned_all(names.drop_last());
        used.push(assigned(names.last(), used))
    }
}

/// The property names a tool is reached under, given the identifier assigned
/// to it. One whose wire name is not an identifier is reached under both
/// spellings.
pub open spec fn keys_of(name: Seq<char>, identifier: Seq<char>) -> Seq<Seq<char>> {
    if schema_to_ts::is_identifier(name) {
        seq![identifier]
    } else {
        seq![name, identifier]
    }
}

/// Assign the identifier for one more tool.
fn assign(name: &str, used: &mut Vec<String>) -> (identifier: String)
    ensures
        identifier@ == assigned(name@, text::texts(old(used)@)),
        text::texts(final(used)@) == text::texts(old(used)@).push(identifier@),
{
    if is_js_identifier(name) {
        unique(name.to_string(), used)
    } else {
        unique(sanitize(name), used)
    }
}

/// One identifier is assigned per tool.
pub proof fn lemma_assigned_all(names: Seq<Seq<char>>, n: int)
    requires
        0 <= n <= names.len(),
    ensures
        assigned_all(names).len() == names.len(),
        assigned_all(names).take(n) == assigned_all(names.take(n)),
        n < names.len() ==> assigned_all(names)[n] == assigned(
            names[n],
            assigned_all(names.take(n)),
        ),
    decreases names.len(),
{
    if names.len() > 0 {
        let shorter = names.drop_last();
        if n < names.len() {
            lemma_assigned_all(shorter, n);
            assert(shorter.take(n) =~= names.take(n));
            assert(assigned_all(names).take(n) =~= assigned_all(shorter).take(n));
            if n == names.len() - 1 {
                assert(names.take(n) =~= shorter);
            }
        } else {
            lemma_assigned_all(shorter, n - 1);
            assert(names.take(n) =~= names);
            assert(assigned_all(names).take(n) =~= assigned_all(names));
        }
    } else {
        assert(names.take(n) =~= names);
        assert(assigned_all(names).take(n) =~= assigned_all(names));
    }
}

/// How one tool is reached.
#[derive(Debug, Clone, PartialEq, Eq)]
pub struct ToolBinding {
    /// Property names the tool is reached under.
    pub keys: Vec<String>,
    /// Name to send to the backing server.
    pub wire_name: String,
}

/// Whether `binding` is the binding of the tool called `name` under the
/// identifier assigned to it.
pub open spec fn binds(binding: ToolBinding, name: Seq<char>, identifier: Seq<char>) -> bool {
    &&& binding.wire_name@ == name
    &&& text::texts(binding.keys@) == keys_of(name, identifier)
}

/// The identifiers assigned to some tools, one each, in order.
pub fn identifiers_for(names: &Vec<String>) -> (identifiers: Vec<String>)
    ensures
        text::texts(identifiers@) == assigned_all(text::texts(names@)),
        identifiers@.len() == names@.len(),
{
    let ghost all = text::texts(names@);
    let mut used: Vec<String> = Vec::new();
    let mut i: usize = 0;
    assert(text::texts(used@) =~= assigned_all(all.take(0)));
    while i < names.len()
        invariant
            i <= names@.len(),
            all == text::texts(names@),
            text::texts(used@) == assigned_all(all.take(i as int)),
        decreases names@.len() - i,
    {
        assert(all.take(i + 1).drop_last() =~= all.take(i as int));
        assert(all.take(i + 1).last() == names@[i as int]@);
        let identifier = assign(names[i].as_str(), &mut used);
        i += 1;
    }
    proof {
        assert(all.take(i as int) =~= all);
        lemma_assigned_all(all, 0);
        assert(text::texts(used@).len() == used@.len());
    }
    used
}

/// How each of some tools is reached: the table the declarations are rendered
/// from, so every name the model is shown dispatches.
pub fn binding_table(names: &Vec<String>) -> (table: Vec<ToolBinding>)
    ensures
        table@.len() == names@.len(),
        forall|i: int|
            0 <= i < names@.len() ==> binds(
                #[trigger] table@[i],
                names@[i]@,
                assigned_all(text::texts(names@))[i],
            ),
{
    let ghost all = text::texts(names@);
    let identifiers = identifiers_for(names);
    let mut table: Vec<ToolBinding> = Vec::new();
    let mut i: usize = 0;
    while i < names.len()
        invariant
            i <= names@.len(),
            all == text::texts(names@),
            identifiers@.len() == names@.len(),
            text::texts(identifiers@) == assigned_all(all),
            table@.len() == i,
            forall|j: int|
                0 <= j < i ==> binds(#[trigger] table@[j], names@[j]@, assigned_all(all)[j]),
        decreases names@.len() - i,
    {
        let name = &names[i];
        let identifier = identifiers[i].clone();
        assert(identifier@ == text::texts(identifiers@)[i as int]);
        let mut keys: Vec<String> = Vec::new();
        if !is_js_identifier(name.as_str()) {
            keys.push(name.clone());
        }
        keys.push(identifier);
        assert(text::texts(keys@) =~= keys_of(name@, identifier@));
        table.push(ToolBinding { keys, wire_name: name.clone() });
        i += 1;
    }
    table
}

// ── declarations ─────────────────────────────────────────────────────

/// One tool as advertised by a backing server.
#[derive(Debug, Clone, Copy)]
pub struct ToolDecl<'a> {
    /// The name used on the wire, which need not be a JavaScript identifier.
    pub name: &'a str,
    pub description: Option<&'a str>,
    pub input_schema: Option<&'a Json>,
}

/// What a tool declaration says.
pub struct ToolView {
    pub name: Seq<char>,
    pub description: Option<Seq<char>>,
    pub schema: Option<JsonTree>,
}

impl<'a> View for ToolDecl<'a> {
    type V = ToolView;

    open spec fn view(&self) -> ToolView {
        ToolView {
            name: self.name@,
            description: match self.description {
                Some(description) => Some(description@),
                None => None,
            },
            schema: json::optional_tree(self.input_schema),
        }
    }
}

/// What some tool declarations say.
pub open spec fn tool_views<'a>(tools: Seq<ToolDecl<'a>>) -> Seq<ToolView> {
    tools.map_values(|tool: ToolDecl<'a>| tool@)
}

/// The names of some tools.
pub open spec fn tool_names(tools: Seq<ToolView>) -> Seq<Seq<char>> {
    tools.map_values(|tool: ToolView| tool.name)
}

/// Whether a schema declares any property.
pub open spec fn declares_properties(schema: JsonTree) -> bool {
    match schema.get("properties"@) {
        Some(JsonTree::Object(properties)) => properties.len() > 0,
        _ => false,
    }
}

/// Whether any of some properties is among the required names.
pub open spec fn any_required(
    properties: Seq<(Seq<char>, JsonTree)>,
    required: Seq<Seq<char>>,
) -> bool {
    exists|i: int| 0 <= i < properties.len() && required.contains((#[trigger] properties[i]).0)
}

/// Whether a schema requires any of the properties it declares.
pub open spec fn declares_required(schema: JsonTree) -> bool {
    match schema {
        JsonTree::Object(fields) => match json::lookup(fields, "properties"@) {
            Some(JsonTree::Object(properties)) => any_required(
                properties,
                schema_to_ts::required_names(fields),
            ),
            _ => false,
        },
        _ => false,
    }
}

/// Whether a schema declares any property.
pub fn has_properties(schema: &Json) -> (yes: bool)
    ensures
        yes == declares_properties(schema@),
{
    match schema.get("properties") {
        Some(Json::Object(properties)) => properties.len() > 0,
        _ => false,
    }
}

/// Whether a schema requires any of the properties it declares.
pub fn has_required(schema: &Json) -> (yes: bool)
    ensures
        yes == declares_required(schema@),
{
    let properties = match schema.get("properties") {
        Some(Json::Object(properties)) => properties,
        _ => {
            return false;
        },
    };
    let required: Vec<String> = match schema.get("required") {
        Some(Json::Array(names)) => collect_strings(names),
        _ => Vec::new(),
    };
    let ghost names = text::texts(required@);
    let ghost trees = json::fields_of(properties@);
    assert(names =~= schema_to_ts::required_names(schema@->Object_0));
    let mut i: usize = 0;
    while i < properties.len()
        invariant
            i <= properties@.len(),
            names == text::texts(required@),
            trees == json::fields_of(properties@),
            declares_required(schema@) == any_required(trees, names),
            forall|k: int| 0 <= k < i ==> !names.contains((#[trigger] trees[k]).0),
        decreases properties@.len() - i,
    {
        assert(trees[i as int].0 == properties@[i as int].0@);
        if contains_text(required.as_slice(), properties[i].0.as_str()) {
            assert(any_required(trees, names));
            return true;
        }
        i += 1;
    }
    false
}

/// A tool's parameter list, where `types` are declared already. A tool with no
/// properties takes no argument, and one that requires none of them takes an
/// optional one. The parameter's shape is spelled out or left open.
pub open spec fn params_text(
    types: DeclaredTypes,
    schema: Option<JsonTree>,
    spelled: bool,
) -> Seq<char> {
    match schema {
        Some(schema) => if declares_properties(schema) {
            "params"@ + (if declares_required(schema) {
                ""@
            } else {
                "?"@
            }) + ": "@ + (if spelled {
                schema_to_ts::type_of(
                    schema,
                    schema_to_ts::padding(1),
                    types.named(named_types::definitions(schema)),
                )
            } else {
                "unknown"@
            })
        } else {
            seq![]
        },
        None => seq![],
    }
}

/// The types declared once a tool's parameter list has been rendered.
pub open spec fn types_with(
    types: DeclaredTypes,
    schema: Option<JsonTree>,
    spelled: bool,
) -> DeclaredTypes {
    match schema {
        Some(schema) => if spelled && declares_properties(schema) {
            types.with_definitions(named_types::definitions(schema))
        } else {
            types
        },
        None => types,
    }
}

/// Render a tool's parameter list.
///
/// A tool with no properties takes no argument at all, and one whose
/// properties are all optional takes an optional argument; both save the
/// model from passing an empty object.
pub fn render_params(types: &mut TypeRenderer, schema: Option<&Json>, spelled: bool) -> (params:
    String)
    ensures
        params@ == params_text(old(types)@, json::optional_tree(schema), spelled),
        final(types)@ == types_with(old(types)@, json::optional_tree(schema), spelled),
{
    let ghost known = types@;
    let schema = match schema {
        Some(schema) => schema,
        None => {
            return String::new();
        },
    };
    if !has_properties(schema) {
        return String::new();
    }
    // Indent one level: the type sits inside the server object's braces.
    let ty = if spelled {
        types.render_indented(schema, 1)
    } else {
        "unknown".to_string()
    };
    let mut params = String::new();
    params.append("params");
    if !has_required(schema) {
        params.append("?");
    }
    params.append(": ");
    params.append(ty.as_str());
    proof {
        reveal_strlit("");
        assert(params@ =~= params_text(known, Some(schema@), spelled));
    }
    params
}

/// One method declaration.
pub open spec fn method_text(key: Seq<char>, params: Seq<char>) -> Seq<char> {
    "  "@ + key + "("@ + params + "): Promise<unknown>;\n"@
}

/// A tool's documentation.
pub open spec fn tool_doc(tool: ToolView) -> Option<Seq<char>> {
    match tool.description {
        Some(description) => schema_to_ts::doc_of(description),
        None => None,
    }
}

/// The methods one tool is declared with. A name that is an identifier needs
/// no alias; one that is not is declared under its quoted wire name and under
/// the identifier assigned to it.
pub open spec fn methods_text(
    tool: ToolView,
    identifier: Seq<char>,
    params: Seq<char>,
) -> Seq<char> {
    let doc = schema_to_ts::doc_line("  "@, tool_doc(tool));
    if schema_to_ts::is_identifier(tool.name) {
        doc + method_text(identifier, params)
    } else {
        doc + method_text(schema_to_ts::quote(tool.name), params) + doc + "  /** Alias for "@
            + tool.name + ". */\n"@ + method_text(identifier, params)
    }
}

/// The methods all of some tools are declared with, each under the identifier
/// given for it.
pub open spec fn all_methods(
    tools: Seq<ToolView>,
    identifiers: Seq<Seq<char>>,
    spelled: bool,
) -> Seq<char>
    decreases tools.len(),
{
    if tools.len() == 0 {
        seq![]
    } else {
        all_methods(tools.drop_last(), identifiers.drop_last(), spelled) + methods_text(
            tools.last(),
            identifiers.last(),
            params_text(all_types(tools.drop_last(), spelled), tools.last().schema, spelled),
        )
    }
}

/// The types declared for some tools.
pub open spec fn all_types(tools: Seq<ToolView>, spelled: bool) -> DeclaredTypes
    decreases tools.len(),
{
    if tools.len() == 0 {
        DeclaredTypes { types: seq![] }
    } else {
        types_with(all_types(tools.drop_last(), spelled), tools.last().schema, spelled)
    }
}

/// The declaration block of some tools of a server, each under the identifier
/// given for it: the types the tools share, and one object with a method for
/// each way to reach a tool. Where parameters are not spelled out, they need no
/// types.
pub open spec fn text_under(
    server: Seq<char>,
    tools: Seq<ToolView>,
    identifiers: Seq<Seq<char>>,
    spelled: bool,
) -> Seq<char> {
    all_types(tools, spelled).text() + "declare const "@ + identifier_for(server) + ": {\n"@
        + all_methods(tools, identifiers, spelled) + "};\n"@
}

/// The declaration block of one server, its tools under the identifiers
/// assigned to them.
pub open spec fn server_text(server: Seq<char>, tools: Seq<ToolView>) -> Seq<char> {
    text_under(server, tools, assigned_all(tool_names(tools)), true)
}

/// Add one method declaration.
fn push_method(out: &mut String, key: &str, params: &str)
    ensures
        final(out)@ == old(out)@ + method_text(key@, params@),
{
    let ghost was = out@;
    out.append("  ");
    out.append(key);
    out.append("(");
    out.append(params);
    out.append("): Promise<unknown>;\n");
    assert(out@ =~= was + method_text(key@, params@));
}

/// Add the methods one tool is declared with.
fn push_methods(out: &mut String, tool: &ToolDecl, identifier: &str, params: &str)
    ensures
        final(out)@ == old(out)@ + methods_text(tool@, identifier@, params@),
{
    let ghost was = out@;
    let doc: Option<String> = match tool.description {
        Some(description) => jsdoc_text(description),
        None => None,
    };
    push_doc_line(out, "  ", &doc);
    if is_js_identifier(tool.name) {
        push_method(out, identifier, params);
    } else {
        push_method(out, quoted(tool.name).as_str(), params);
        push_doc_line(out, "  ", &doc);
        // The alias is the same tool reached by a different spelling; say so
        // rather than leaving the reader to infer it.
        out.append("  /** Alias for ");
        out.append(tool.name);
        out.append(". */\n");
        push_method(out, identifier, params);
    }
    assert(out@ =~= was + methods_text(tool@, identifier@, params@));
}

/// Render some tools of a server as a declaration block, each under the
/// identifier given for it. Where not all of a server's tools are rendered,
/// the identifiers still come from all of them, so they are the ones that
/// dispatch.
pub fn render_under(
    server: &str,
    tools: &[ToolDecl],
    identifiers: &[String],
    spelled: bool,
) -> (rendered: String)
    requires
        identifiers@.len() == tools@.len(),
    ensures
        rendered@ == text_under(server@, tool_views(tools@), text::texts(identifiers@), spelled),
{
    let ghost views = tool_views(tools@);
    let ghost ids = text::texts(identifiers@);
    let mut types = TypeRenderer::new();
    let mut methods = String::new();
    let mut i: usize = 0;
    assert(views.take(0) =~= seq![]);
    while i < tools.len()
        invariant
            i <= tools@.len(),
            identifiers@.len() == tools@.len(),
            views == tool_views(tools@),
            ids == text::texts(identifiers@),
            types@ == all_types(views.take(i as int), spelled),
            methods@ == all_methods(views.take(i as int), ids.take(i as int), spelled),
        decreases tools@.len() - i,
    {
        let tool = &tools[i];
        proof {
            assert(views[i as int] == tool@);
            assert(ids[i as int] == identifiers@[i as int]@);
            assert(views.take(i + 1).drop_last() =~= views.take(i as int));
            assert(ids.take(i + 1).drop_last() =~= ids.take(i as int));
        }
        let params = render_params(&mut types, tool.input_schema, spelled);
        push_methods(&mut methods, tool, identifiers[i].as_str(), params.as_str());
        i += 1;
    }
    assert(views.take(i as int) =~= views);
    assert(ids.take(i as int) =~= ids);
    let mut out = types.declarations();
    out.append("declare const ");
    out.append(sanitize(server).as_str());
    out.append(": {\n");
    out.append(methods.as_str());
    out.append("};\n");
    out
}

/// Render one server's tools as a declaration block.
pub fn render_server(server: &str, tools: &[ToolDecl]) -> (rendered: String)
    ensures
        rendered@ == server_text(server@, tool_views(tools@)),
{
    let ghost all = tool_names(tool_views(tools@));
    let mut names: Vec<String> = Vec::new();
    let mut i: usize = 0;
    while i < tools.len()
        invariant
            i <= tools@.len(),
            all == tool_names(tool_views(tools@)),
            text::texts(names@) == all.take(i as int),
            names@.len() == i,
        decreases tools@.len() - i,
    {
        let ghost earlier = text::texts(names@);
        names.push(tools[i].name.to_string());
        assert(text::texts(names@) =~= earlier.push(all[i as int]));
        i += 1;
    }
    assert(all.take(i as int) =~= all);
    render_under(server, tools, identifiers_for(&names).as_slice(), true)
}

// ── laws ─────────────────────────────────────────────────────────────

/// No two tools are assigned the same identifier, so that no tool is silently
/// dropped.
pub proof fn assigned_identifiers_are_distinct(names: Seq<Seq<char>>)
    ensures
        assigned_all(names).len() == names.len(),
        forall|i: int, j: int|
            0 <= i < j < names.len() ==> #[trigger] assigned_all(names)[i] != #[trigger] assigned_all(
                names,
            )[j],
    decreases names.len(),
{
    if names.len() > 0 {
        let used = assigned_all(names.drop_last());
        let all = assigned_all(names);
        assigned_identifiers_are_distinct(names.drop_last());
        fresh_is_free(wished(names.last()), used);
        assert forall|i: int, j: int| 0 <= i < j < names.len() implies #[trigger] all[i]
            != #[trigger] all[j] by {
            assert(all[i] == used[i]);
            if j == names.len() - 1 {
                assert(used.contains(used[i]));
            } else {
                assert(all[j] == used[j]);
            }
        }
    }
}

/// Every spelling of an identifier is an identifier.
proof fn lemma_candidate_is_identifier(name: Seq<char>, k: nat)
    requires
        schema_to_ts::is_identifier(name),
    ensures
        schema_to_ts::is_identifier(candidate(name, k)),
{
    reveal_strlit("_");
    text::lemma_decimal(k, k);
    let out = candidate(name, k);
    assert forall|i: int| 0 < i < out.len() implies schema_to_ts::continues_identifier(
        #[trigger] out[i],
    ) by {
        if i < name.len() {
            assert(out[i] == name[i]);
        } else if i > name.len() {
            assert(out[i] == text::decimal(k)[i - name.len() - 1]);
        }
    }
}

/// What is assigned to a tool is an identifier.
pub proof fn assigned_is_identifier(name: Seq<char>, used: Seq<Seq<char>>)
    ensures
        schema_to_ts::is_identifier(assigned(name, used)),
{
    identifier_for_is_identifier(name);
    let k = fresh_is_free(wished(name), used);
    lemma_candidate_is_identifier(wished(name), k);
}

/// Where no two tools share a wire name, no two property names of a server
/// are the same: every tool stays reachable under every name it has.
pub proof fn bound_keys_are_distinct(names: Seq<Seq<char>>, i: int, j: int, a: int, b: int)
    requires
        forall|p: int, q: int| 0 <= p < q < names.len() ==> names[p] != names[q],
        0 <= i < names.len(),
        0 <= j < names.len(),
        0 <= a < keys_of(names[i], assigned_all(names)[i]).len(),
        0 <= b < keys_of(names[j], assigned_all(names)[j]).len(),
        i != j || a != b,
    ensures
        keys_of(names[i], assigned_all(names)[i])[a] != keys_of(names[j], assigned_all(names)[j])[b],
{
    assigned_identifiers_are_distinct(names);
    lemma_assigned_all(names, i);
    lemma_assigned_all(names, j);
    assigned_is_identifier(names[i], assigned_all(names.take(i)));
    assigned_is_identifier(names[j], assigned_all(names.take(j)));
    if i < j {
        assert(assigned_all(names)[i] != assigned_all(names)[j]);
        assert(names[i] != names[j]);
    } else if j < i {
        assert(assigned_all(names)[j] != assigned_all(names)[i]);
        assert(names[j] != names[i]);
    }
}

/// A property name as it is written in a declaration.
pub open spec fn shown_key(key: Seq<char>) -> Seq<char> {
    schema_to_ts::key_text(key, schema_to_ts::quote(key))
}

/// The lines one property name of a tool is declared with; `n` is its place
/// among the tool's names.
pub open spec fn key_lines(
    tool: ToolView,
    key: Seq<char>,
    n: int,
    params: Seq<char>,
) -> Seq<char> {
    schema_to_ts::doc_line("  "@, tool_doc(tool)) + (if n == 1 {
        "  /** Alias for "@ + tool.name + ". */\n"@
    } else {
        seq![]
    }) + method_text(shown_key(key), params)
}

/// A tool is declared under exactly the names it is bound to, so every name
/// the model is shown dispatches and every name that dispatches is shown.
/// `names` are those of all the tools it is bound among.
pub proof fn declared_keys_are_the_bound_keys(
    names: Seq<Seq<char>>,
    k: int,
    tool: ToolView,
    params: Seq<char>,
)
    requires
        0 <= k < names.len(),
        tool.name == names[k],
    ensures
        ({
            let identifier = assigned_all(names)[k];
            let keys = keys_of(tool.name, identifier);
            &&& 1 <= keys.len() <= 2
            &&& methods_text(tool, identifier, params) == key_lines(tool, keys[0], 0, params) + (
            if keys.len() == 2 {
                key_lines(tool, keys[1], 1, params)
            } else {
                seq![]
            })
        }),
{
    let identifier = assigned_all(names)[k];
    lemma_assigned_all(names, k);
    assigned_is_identifier(names[k], assigned_all(names.take(k)));
    let keys = keys_of(tool.name, identifier);
    assert(shown_key(identifier) == identifier);
    if keys.len() == 2 {
        assert(methods_text(tool, identifier, params) =~= key_lines(tool, keys[0], 0, params)
            + key_lines(tool, keys[1], 1, params));
    } else {
        assert(methods_text(tool, identifier, params) =~= key_lines(tool, keys[0], 0, params)
            + seq![]);
    }
}

/// The declaration of the tools ends with the last tool's methods, behind
/// those of the tools before it.
pub proof fn methods_are_declared_in_order(
    tools: Seq<ToolView>,
    identifiers: Seq<Seq<char>>,
    spelled: bool,
    n: int,
)
    requires
        identifiers.len() == tools.len(),
        0 <= n < tools.len(),
    ensures
        all_methods(tools.take(n + 1), identifiers.take(n + 1), spelled) == all_methods(
            tools.take(n),
            identifiers.take(n),
            spelled,
        ) + methods_text(
            tools[n],
            identifiers[n],
            params_text(all_types(tools.take(n), spelled), tools[n].schema, spelled),
        ),
{
    assert(tools.take(n + 1).drop_last() =~= tools.take(n));
    assert(identifiers.take(n + 1).drop_last() =~= identifiers.take(n));
}

/// A signature takes a parameter exactly where the full declaration does, and
/// an optional one exactly where that is; it only leaves the shape open, and so
/// needs no types.
pub proof fn signatures_name_the_parameter(
    tools: Seq<ToolView>,
    types: DeclaredTypes,
    schema: JsonTree,
)
    ensures
        ({
            let head = "params"@ + (if declares_required(schema) {
                ""@
            } else {
                "?"@
            }) + ": "@;
            if declares_properties(schema) {
                &&& params_text(types, Some(schema), false) == head + "unknown"@
                &&& head.is_prefix_of(params_text(types, Some(schema), true))
            } else {
                &&& params_text(types, Some(schema), false).len() == 0
                &&& params_text(types, Some(schema), true).len() == 0
            }
        }),
        all_types(tools, false).types.len() == 0,
    decreases tools.len(),
{
    if tools.len() > 0 {
        signatures_name_the_parameter(tools.drop_last(), types, schema);
    }
}

/// A parameter list is optional exactly where every property it declares is.
pub proof fn an_optional_list_has_optional_members(schema: JsonTree)
    requires
        declares_properties(schema),
    ensures
        !declares_required(schema) <==> forall|i: int|
            0 <= i < schema.get("properties"@)->Some_0->Object_0.len()
                ==> !schema_to_ts::required_names(schema->Object_0).contains(
                (#[trigger] schema.get("properties"@)->Some_0->Object_0[i]).0,
            ),
{
    let properties = schema.get("properties"@)->Some_0->Object_0;
    let required = schema_to_ts::required_names(schema->Object_0);
    assert(declares_required(schema) == any_required(properties, required));
}

/// Whether no two of some tools ask for the same identifier.
pub open spec fn wishes_differ(names: Seq<Seq<char>>) -> bool {
    forall|i: int, j: int|
        0 <= i < j < names.len() ==> wished(#[trigger] names[i]) != wished(#[trigger] names[j])
}

/// Tools that ask for different identifiers all get what they ask for.
pub proof fn different_wishes_are_granted(names: Seq<Seq<char>>)
    requires
        wishes_differ(names),
    ensures
        assigned_all(names) == names.map_values(|name: Seq<char>| wished(name)),
    decreases names.len(),
{
    if names.len() > 0 {
        let earlier = names.drop_last();
        let used = assigned_all(earlier);
        let wish = wished(names.last());
        different_wishes_are_granted(earlier);
        if used.contains(wish) {
            let at = choose|at: int| 0 <= at < used.len() && used[at] == wish;
            assert(wished(names[at]) == wished(names[names.len() - 1]));
        }
        assert(candidate(wish, 1) == wish);
        assert(is_first_free(wish, used, 1));
        lemma_fresh_is(wish, used, 1);
        assert(assigned_all(names) =~= names.map_values(|name: Seq<char>| wished(name)));
    } else {
        assert(assigned_all(names) =~= names.map_values(|name: Seq<char>| wished(name)));
    }
}

/// A name is coerced into an identifier character by character: ASCII letters
/// and digits stay, everything else becomes `_`, and `_` goes in front where
/// that leaves a digit there, or nothing.
pub proof fn coercion_keeps_letters_and_digits(name: Seq<char>)
    ensures
        ({
            let identifier = identifier_for(name);
            let front: int = if name.len() == 0 || 0x30 <= name[0] as u32 <= 0x39 {
                1
            } else {
                0
            };
            &&& identifier.len() == name.len() + front
            &&& front == 1 ==> identifier[0] == '_'
            &&& forall|i: int|
                0 <= i < name.len() ==> {
                    let c = #[trigger] name[i];
                    let kept = 0x41 <= c as u32 <= 0x5a || 0x61 <= c as u32 <= 0x7a || 0x30
                        <= c as u32 <= 0x39;
                    identifier[i + front] == (if kept {
                        c
                    } else {
                        '_'
                    })
                }
        }),
{
    reveal_strlit("_");
    if name.len() > 0 {
        text::characters_are_told_by_their_code(name[0]);
    }
    assert forall|i: int| 0 <= i < name.len() implies ({
        let c = #[trigger] name[i];
        let kept = 0x41 <= c as u32 <= 0x5a || 0x61 <= c as u32 <= 0x7a || 0x30 <= c as u32 <= 0x39;
        identifier_char(c) == (if kept {
            c
        } else {
            '_'
        })
    }) by {
        text::characters_are_told_by_their_code(name[i]);
    }
}

/// A name that is free is given as it is; one that is taken is given with the
/// smallest counter, from two on, that makes it free.
pub proof fn taken_names_are_counted_on(name: Seq<char>, used: Seq<Seq<char>>) -> (k: nat)
    ensures
        k >= 1,
        !used.contains(fresh(name, used)),
        k == 1 ==> fresh(name, used) == name,
        k > 1 ==> used.contains(name) && fresh(name, used) == name + seq!['_'] + text::decimal(k),
        forall|j: nat|
            1 < j < k ==> used.contains(name + seq!['_'] + #[trigger] text::decimal(j)),
{
    let k = fresh_is_free(name, used);
    reveal_strlit("_");
    assert("_"@ =~= seq!['_']);
    if k > 1 {
        assert(used.contains(candidate(name, 1)));
    }
    assert forall|j: nat| 1 < j < k implies used.contains(
        name + seq!['_'] + #[trigger] text::decimal(j),
    ) by {
        assert(used.contains(candidate(name, j)));
    }
    k
}

/// Tools are given identifiers one after the other, each its own name or what
/// that is coerced into, counted on where an earlier tool has it. A tool is
/// reached under its identifier, and under its own name where that is another.
pub proof fn identifiers_are_assigned_in_order(names: Seq<Seq<char>>, n: int)
    requires
        0 <= n < names.len(),
    ensures
        ({
            let identifier = assigned_all(names)[n];
            let wish = if schema_to_ts::is_identifier(names[n]) {
                names[n]
            } else {
                identifier_for(names[n])
            };
            &&& assigned_all(names).len() == names.len()
            &&& identifier == fresh(wish, assigned_all(names).take(n))
            &&& schema_to_ts::is_identifier(names[n]) ==> keys_of(names[n], identifier)
                == seq![identifier]
            &&& !schema_to_ts::is_identifier(names[n]) ==> keys_of(names[n], identifier)
                == seq![names[n], identifier]
        }),
{
    lemma_assigned_all(names, n);
}

/// A tool takes an argument exactly where its schema declares properties, and
/// the argument has the type of the schema.
pub proof fn parameters_have_the_type_of_the_schema(types: DeclaredTypes, schema: JsonTree)
    ensures
        params_text(types, None, true).len() == 0,
        params_text(types, None, false).len() == 0,
        declares_properties(schema) <==> (schema.get("properties"@) matches Some(
            JsonTree::Object(properties),
        ) && properties.len() > 0),
        declares_properties(schema) ==> params_text(types, Some(schema), true) == "params"@ + (
        if declares_required(schema) {
            seq![]
        } else {
            seq!['?']
        }) + ": "@ + schema_to_ts::type_of(
            schema,
            seq![' ', ' '],
            types.named(named_types::definitions(schema)),
        ),
        !declares_properties(schema) ==> params_text(types, Some(schema), true).len() == 0,
{
    reveal_strlit("");
    reveal_strlit("?");
    assert(""@ =~= seq![]);
    assert("?"@ =~= seq!['?']);
    schema_to_ts::levels_are_two_spaces(1);
    assert(schema_to_ts::padding(1) =~= seq![' ', ' ']);
}

/// What one tool is declared with, word for word.
pub proof fn a_method_is_written_out(tool: ToolView, identifier: Seq<char>, params: Seq<char>)
    ensures
        ({
            let said = match tool.description {
                Some(description) => schema_to_ts::doc_of(description),
                None => None,
            };
            let doc = match said {
                Some(doc) => "  /** "@ + doc + " */\n"@,
                None => seq![],
            };
            let method = identifier + "("@ + params + "): Promise<unknown>;\n"@;
            if schema_to_ts::is_identifier(tool.name) {
                methods_text(tool, identifier, params) == doc + "  "@ + method
            } else {
                methods_text(tool, identifier, params) == doc + "  "@ + schema_to_ts::quote(
                    tool.name,
                ) + "("@ + params + "): Promise<unknown>;\n"@ + doc + "  /** Alias for "@
                    + tool.name + ". */\n"@ + "  "@ + method
            }
        }),
{
    reveal_strlit("  /** ");
    reveal_strlit("  ");
    reveal_strlit("/** ");
    assert("  /** "@ =~= "  "@ + "/** "@);
    let said = match tool.description {
        Some(description) => schema_to_ts::doc_of(description),
        None => None,
    };
    let doc = match said {
        Some(doc) => "  /** "@ + doc + " */\n"@,
        None => seq![],
    };
    assert(schema_to_ts::doc_line("  "@, tool_doc(tool)) =~= doc);
    let method = identifier + "("@ + params + "): Promise<unknown>;\n"@;
    if schema_to_ts::is_identifier(tool.name) {
        assert(methods_text(tool, identifier, params) =~= doc + "  "@ + method);
    } else {
        assert(methods_text(tool, identifier, params) =~= doc + "  "@ + schema_to_ts::quote(
            tool.name,
        ) + "("@ + params + "): Promise<unknown>;\n"@ + doc + "  /** Alias for "@ + tool.name
            + ". */\n"@ + "  "@ + method);
    }
}

/// A server is declared as the types its tools brought along and one constant
/// with the methods of each tool in order, every tool's own and no others.
pub proof fn every_tool_is_declared(
    server: Seq<char>,
    tools: Seq<ToolView>,
    identifiers: Seq<Seq<char>>,
    spelled: bool,
)
    requires
        identifiers.len() == tools.len(),
    ensures
        text_under(server, tools, identifiers, spelled) == all_types(tools, spelled).text()
            + "declare const "@ + identifier_for(server) + ": {\n"@ + text::concat(
            Seq::new(
                tools.len(),
                |i: int|
                    methods_text(
                        tools[i],
                        identifiers[i],
                        params_text(
                            all_types(tools.take(i), spelled),
                            tools[i].schema,
                            spelled,
                        ),
                    ),
            ),
        ) + "};\n"@,
{
    let all = Seq::new(
        tools.len(),
        |i: int|
            methods_text(
                tools[i],
                identifiers[i],
                params_text(all_types(tools.take(i), spelled), tools[i].schema, spelled),
            ),
    );
    lemma_methods_concatenated(tools, identifiers, spelled, all, tools.len() as int);
    assert(tools.take(tools.len() as int) =~= tools);
    assert(identifiers.take(tools.len() as int) =~= identifiers);
    assert(all.take(tools.len() as int) =~= all);
}

proof fn lemma_methods_concatenated(
    tools: Seq<ToolView>,
    identifiers: Seq<Seq<char>>,
    spelled: bool,
    all: Seq<Seq<char>>,
    n: int,
)
    requires
        identifiers.len() == tools.len(),
        all.len() == tools.len(),
        0 <= n <= tools.len(),
        forall|i: int|
            0 <= i < tools.len() ==> #[trigger] all[i] == methods_text(
                tools[i],
                identifiers[i],
                params_text(all_types(tools.take(i), spelled), tools[i].schema, spelled),
            ),
    ensures
        all_methods(tools.take(n), identifiers.take(n), spelled) == text::concat(all.take(n)),
    decreases n,
{
    if n > 0 {
        lemma_methods_concatenated(tools, identifiers, spelled, all, n - 1);
        assert(tools.take(n).drop_last() =~= tools.take(n - 1));
        assert(identifiers.take(n).drop_last() =~= identifiers.take(n - 1));
        assert(all.take(n).drop_last() =~= all.take(n - 1));
        assert(all.take(n).last() == all[n - 1]);
    }
}

/// Each tool in turn adds the definitions its schema brings along, where its
/// parameter is spelled out.
pub proof fn types_are_gathered_in_order(tools: Seq<ToolView>, spelled: bool, n: int)
    requires
        0 <= n < tools.len(),
    ensures
        all_types(seq![], spelled).types.len() == 0,
        ({
            let earlier = all_types(tools.take(n), spelled);
            let after = all_types(tools.take(n + 1), spelled);
            match tools[n].schema {
                Some(schema) => if spelled && declares_properties(schema) {
                    after == earlier.with_definitions(named_types::definitions(schema))
                } else {
                    after == earlier
                },
                None => after == earlier,
            }
        }),
{
    assert(tools.take(n + 1).drop_last() =~= tools.take(n));
}

/// A tool is declared with its name, its description and its schema; a binding
/// holds every key it is reached under and the name that goes on the wire.
pub proof fn tools_hold_their_parts<'a>(
    tools: Seq<ToolDecl<'a>>,
    i: int,
    binding: ToolBinding,
    name: Seq<char>,
    identifier: Seq<char>,
)
    ensures
        tool_views(tools).len() == tools.len(),
        0 <= i < tools.len() ==> tool_names(tool_views(tools))[i] == tools[i].name@,
        0 <= i < tools.len() ==> tool_views(tools)[i].name == tools[i].name@,
        0 <= i < tools.len() ==> (match tools[i].description {
            Some(description) => tool_views(tools)[i].description == Some(description@),
            None => tool_views(tools)[i].description is None,
        }),
        0 <= i < tools.len() ==> tool_views(tools)[i].schema == json::optional_tree(
            tools[i].input_schema,
        ),
        binds(binding, name, identifier) ==> binding.wire_name@ == name && binding.keys@.map_values(
            |key: String| key@,
        ) == keys_of(name, identifier),
{
}

/// A server rendered as a whole has its parameters spelled out and its tools
/// under the identifiers assigned to them among all of them.
pub proof fn a_server_is_declared_as_a_whole(server: Seq<char>, tools: Seq<ToolView>)
    ensures
        server_text(server, tools) == text_under(
            server,
            tools,
            assigned_all(tools.map_values(|tool: ToolView| tool.name)),
            true,
        ),
{
}

} // verus!
