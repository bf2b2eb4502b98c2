//! The [Agent Plugins 1.0.0](https://agent-plugins.org/) manifest.
//!
//! Only the fields symposium emits are modelled. The name grammar is the
//! format's, not ours: agent plugin names are narrower than symposium plugin
//! names (which are crate names or free-form manifest strings), so a name has
//! to be slugged before it can be written.

use vstd::prelude::*;

use crate::json;
use crate::json::JsonTree;
use crate::json_text;
use crate::json_text::{array_value, document, object_value, string_value};
use crate::text;
use crate::text::{chars_of, slice_of};

verus! {

pub const SCHEMA_URL: &'static str = "https://agent-plugins.org/schemas/1.0.0/plugin.schema.json";

/// The longest name the format allows.
pub const MAX_NAME_LEN: usize = 64;

// ── documents ────────────────────────────────────────────────────────

/// A plugin's identity, as every agent but one reads it.
#[derive(Debug, Clone, PartialEq, Eq)]
pub struct Manifest {
    pub schema: &'static str,
    pub name: String,
    /// Always written, even though the format allows omitting it: Codex keys
    /// its plugin cache directory on the version, and defaults a version-less
    /// plugin to `1.0.0` of its own accord. Emitting one ourselves means the
    /// cache path is the value we wrote rather than another tool's default.
    pub version: String,
    pub description: Option<String>,
}

/// Gemini CLI reads its own manifest name, carrying just the identity. The
/// directory is otherwise the same, so this is a second file rather than a
/// second layout.
#[derive(Debug, Clone, PartialEq, Eq)]
pub struct GeminiExtension {
    pub name: String,
    /// Required here, unlike in the Agent Plugins manifest.
    pub version: String,
}

/// The marketplace manifest at a staging root: the index agents read to
/// discover the plugins under it, written at the one path all of them accept.
#[derive(Debug, Clone, PartialEq, Eq)]
pub struct Marketplace {
    pub name: String,
    pub owner: MarketplaceOwner,
    pub plugins: Vec<MarketplaceEntry>,
}

#[derive(Debug, Clone, PartialEq, Eq)]
pub struct MarketplaceOwner {
    pub name: String,
}

#[derive(Debug, Clone, PartialEq, Eq)]
pub struct MarketplaceEntry {
    pub name: String,
    /// Relative to the marketplace root.
    pub source: String,
    pub description: Option<String>,
}

/// A field that holds a text.
pub open spec fn text_entry(key: Seq<char>, value: Seq<char>) -> (Seq<char>, JsonTree) {
    (key, JsonTree::Str(value))
}

/// The description field, where there is a description.
pub open spec fn description_entry(description: Option<String>) -> Seq<(Seq<char>, JsonTree)> {
    match description {
        Some(description) => seq![text_entry("description"@, description@)],
        None => seq![],
    }
}

/// What a plugin manifest says. An absent description is left out.
pub open spec fn manifest_tree(manifest: Manifest) -> JsonTree {
    JsonTree::Object(
        seq![
            text_entry("$schema"@, manifest.schema@),
            text_entry("name"@, manifest.name@),
            text_entry("version"@, manifest.version@),
        ] + description_entry(manifest.description),
    )
}

/// What Gemini's manifest says.
pub open spec fn gemini_tree(extension: GeminiExtension) -> JsonTree {
    JsonTree::Object(
        seq![text_entry("name"@, extension.name@), text_entry("version"@, extension.version@)],
    )
}

/// What an index says of one plugin.
pub open spec fn entry_tree(entry: MarketplaceEntry) -> JsonTree {
    JsonTree::Object(
        seq![text_entry("name"@, entry.name@), text_entry("source"@, entry.source@)]
            + description_entry(entry.description),
    )
}

/// What an index says of some plugins.
pub open spec fn entry_trees(plugins: Seq<MarketplaceEntry>) -> Seq<JsonTree> {
    plugins.map_values(|entry: MarketplaceEntry| entry_tree(entry))
}

/// What an index says.
pub open spec fn marketplace_tree(market: Marketplace) -> JsonTree {
    JsonTree::Object(
        seq![
            text_entry("name"@, market.name@),
            (
                "owner"@,
                JsonTree::Object(seq![text_entry("name"@, market.owner.name@)]),
            ),
            ("plugins"@, JsonTree::Array(entry_trees(market.plugins@))),
        ],
    )
}

/// The field names these documents use are different from one another.
proof fn lemma_field_names()
    ensures
        "$schema"@ != "name"@,
        "$schema"@ != "version"@,
        "$schema"@ != "description"@,
        "name"@ != "version"@,
        "name"@ != "description"@,
        "name"@ != "source"@,
        "name"@ != "owner"@,
        "name"@ != "plugins"@,
        "version"@ != "description"@,
        "source"@ != "description"@,
        "owner"@ != "plugins"@,
{
    reveal_strlit("$schema");
    reveal_strlit("name");
    reveal_strlit("version");
    reveal_strlit("description");
    reveal_strlit("source");
    reveal_strlit("owner");
    reveal_strlit("plugins");
    assert("$schema"@[0] == '$');
    assert("name"@.len() == 4);
    assert("version"@.len() == 7 && "version"@[0] == 'v');
    assert("description"@.len() == 11);
    assert("source"@.len() == 6);
    assert("owner"@.len() == 5);
    assert("plugins"@.len() == 7);
}

impl Manifest {
    pub fn new(name: String, version: String, description: Option<String>) -> (manifest: Self)
        ensures
            manifest.schema@ == SCHEMA_URL@,
            manifest.name == name,
            manifest.version == version,
            manifest.description == description,
    {
        Manifest { schema: SCHEMA_URL, name, version, description }
    }

    /// The manifest file.
    pub fn to_json(&self) -> (file: String)
        ensures
            file@ == json_text::pretty_text(manifest_tree(*self)).push('\n'),
    {
        let mut fields: Vec<(String, serde_json::Value)> = Vec::new();
        fields.push(("$schema".to_string(), string_value(self.schema)));
        fields.push(("name".to_string(), string_value(self.name.as_str())));
        fields.push(("version".to_string(), string_value(self.version.as_str())));
        if let Some(description) = &self.description {
            fields.push(("description".to_string(), string_value(description.as_str())));
        }
        proof {
            lemma_field_names();
            assert(json_text::field_trees(fields@) =~= manifest_tree(*self)->Object_0);
        }
        document(&object_value(fields))
    }
}

impl GeminiExtension {
    pub fn new(name: String, version: String) -> (extension: Self)
        ensures
            extension.name == name,
            extension.version == version,
    {
        GeminiExtension { name, version }
    }

    /// The extension file.
    pub fn to_json(&self) -> (file: String)
        ensures
            file@ == json_text::pretty_text(gemini_tree(*self)).push('\n'),
    {
        let mut fields: Vec<(String, serde_json::Value)> = Vec::new();
        fields.push(("name".to_string(), string_value(self.name.as_str())));
        fields.push(("version".to_string(), string_value(self.version.as_str())));
        proof {
            lemma_field_names();
            assert(json_text::field_trees(fields@) =~= gemini_tree(*self)->Object_0);
        }
        document(&object_value(fields))
    }
}

impl MarketplaceEntry {
    /// The entry as an index holds it.
    fn to_value(&self) -> (value: serde_json::Value)
        ensures
            json_text::value_tree(value) == entry_tree(*self),
    {
        let mut fields: Vec<(String, serde_json::Value)> = Vec::new();
        fields.push(("name".to_string(), string_value(self.name.as_str())));
        fields.push(("source".to_string(), string_value(self.source.as_str())));
        if let Some(description) = &self.description {
            fields.push(("description".to_string(), string_value(description.as_str())));
        }
        proof {
            lemma_field_names();
            assert(json_text::field_trees(fields@) =~= entry_tree(*self)->Object_0);
        }
        object_value(fields)
    }
}

impl Marketplace {
    pub fn new(name: String, plugins: Vec<MarketplaceEntry>) -> (market: Self)
        ensures
            market.name == name,
            market.owner.name@ == "symposium"@,
            market.plugins == plugins,
    {
        Marketplace { name, owner: MarketplaceOwner { name: "symposium".to_string() }, plugins }
    }

    /// The index file.
    pub fn to_json(&self) -> (file: String)
        ensures
            file@ == json_text::pretty_text(marketplace_tree(*self)).push('\n'),
    {
        let mut plugins: Vec<serde_json::Value> = Vec::new();
        let mut i: usize = 0;
        while i < self.plugins.len()
            invariant
                i <= self.plugins@.len(),
                json_text::item_trees(plugins@) == entry_trees(self.plugins@).take(i as int),
            decreases self.plugins@.len() - i,
        {
            let ghost earlier = json_text::item_trees(plugins@);
            plugins.push(self.plugins[i].to_value());
            assert(json_text::item_trees(plugins@) =~= earlier.push(
                entry_trees(self.plugins@)[i as int],
            ));
            i += 1;
        }
        assert(entry_trees(self.plugins@).take(i as int) =~= entry_trees(self.plugins@));
        let mut owner: Vec<(String, serde_json::Value)> = Vec::new();
        owner.push(("name".to_string(), string_value(self.owner.name.as_str())));
        assert(json_text::field_trees(owner@) =~= seq![text_entry("name"@, self.owner.name@)]);
        let mut fields: Vec<(String, serde_json::Value)> = Vec::new();
        fields.push(("name".to_string(), string_value(self.name.as_str())));
        fields.push(("owner".to_string(), object_value(owner)));
        fields.push(("plugins".to_string(), array_value(plugins)));
        proof {
            lemma_field_names();
            assert(json_text::field_trees(fields@) =~= marketplace_tree(*self)->Object_0);
        }
        document(&object_value(fields))
    }
}

// ── names ────────────────────────────────────────────────────────────

/// The characters a name begins and ends with: `a` to `z` and `0` to `9`.
pub open spec fn is_name_edge(c: char) -> bool {
    text::is_lowercase(c) || text::is_digit(c)
}

/// The characters a name is made of: those it may begin with, `.` and `-`.
pub open spec fn is_name_char(c: char) -> bool {
    is_name_edge(c) || c == '.' || c == '-'
}

/// `^[a-z0-9]([a-z0-9.-]*[a-z0-9])?$`, 1 to 64 characters.
pub open spec fn valid_name(name: Seq<char>) -> bool {
    &&& 1 <= name.len() <= MAX_NAME_LEN
    &&& is_name_edge(name[0])
    &&& is_name_edge(name.last())
    &&& forall|i: int| 0 <= i < name.len() ==> is_name_char(#[trigger] name[i])
}

/// Whether a name may begin or end with `c`.
fn name_edge(c: char) -> (yes: bool)
    ensures
        yes == is_name_edge(c),
{
    ('a' <= c && c <= 'z') || ('0' <= c && c <= '9')
}

/// Whether a name is one the format accepts.
pub fn is_valid_name(name: &str) -> (yes: bool)
    ensures
        yes == valid_name(name@),
{
    let chars = chars_of(name);
    if chars.len() == 0 || chars.len() > MAX_NAME_LEN {
        return false;
    }
    if !name_edge(chars[0]) || !name_edge(chars[chars.len() - 1]) {
        return false;
    }
    let mut i: usize = 0;
    while i < chars.len()
        invariant
            i <= chars@.len(),
            chars@ == name@,
            forall|k: int| 0 <= k < i ==> is_name_char(#[trigger] name@[k]),
        decreases chars@.len() - i,
    {
        let c = chars[i];
        if !(name_edge(c) || c == '.' || c == '-') {
            assert(!is_name_char(name@[i as int]));
            return false;
        }
        i += 1;
    }
    true
}

/// The character a name's character becomes: its lower case, where a name may
/// hold that, and `-` otherwise.
pub open spec fn slug_char(c: char) -> char {
    if text::is_uppercase(c) {
        (c as int + 32) as char
    } else if is_name_char(c) {
        c
    } else {
        '-'
    }
}

/// What is left of a text without the characters in front that no name begins
/// with.
pub open spec fn trim_front(s: Seq<char>) -> Seq<char>
    decreases s.len(),
{
    if s.len() > 0 && !is_name_edge(s[0]) {
        trim_front(s.drop_first())
    } else {
        s
    }
}

/// What is left of a text without the characters behind that no name ends
/// with.
pub open spec fn trim_back(s: Seq<char>) -> Seq<char>
    decreases s.len(),
{
    if s.len() > 0 && !is_name_edge(s.last()) {
        trim_back(s.drop_last())
    } else {
        s
    }
}

/// What is left of a text between the first and the last character a name may
/// begin and end with.
pub open spec fn trimmed_to_edges(s: Seq<char>) -> Seq<char> {
    trim_back(trim_front(s))
}

/// The name a text becomes, which is empty where nothing legal survives.
pub open spec fn slug_text(name: Seq<char>) -> Seq<char> {
    let trimmed = trimmed_to_edges(name.map_values(|c: char| slug_char(c)));
    if trimmed.len() > MAX_NAME_LEN {
        trimmed_to_edges(trimmed.take(MAX_NAME_LEN as int))
    } else {
        trimmed
    }
}

/// The name a text becomes, where anything legal survives.
pub open spec fn slug_of(name: Seq<char>) -> Option<Seq<char>> {
    if slug_text(name).len() > 0 {
        Some(slug_text(name))
    } else {
        None
    }
}

/// The character a name's character becomes.
fn slugged(c: char) -> (out: char)
    ensures
        out == slug_char(c),
{
    if 'A' <= c && c <= 'Z' {
        (c as u8 + 32) as char
    } else if name_edge(c) || c == '.' || c == '-' {
        c
    } else {
        '-'
    }
}

/// Where the characters of `chars` before `to` that a name may begin and end
/// with start and stop.
fn trim_to_alnum(chars: &Vec<char>, to: usize) -> (edges: (usize, usize))
    requires
        to <= chars@.len(),
    ensures
        edges.0 <= edges.1 <= to,
        chars@.subrange(edges.0 as int, edges.1 as int) == trimmed_to_edges(
            chars@.subrange(0, to as int),
        ),
{
    let ghost whole = chars@.subrange(0, to as int);
    let mut start: usize = 0;
    while start < to && !name_edge(chars[start])
        invariant
            start <= to <= chars@.len(),
            trim_front(whole) == trim_front(chars@.subrange(start as int, to as int)),
        decreases to - start,
    {
        assert(chars@.subrange(start as int, to as int).drop_first() =~= chars@.subrange(
            start + 1,
            to as int,
        ));
        start += 1;
    }
    let ghost front = trim_front(whole);
    assert(front == chars@.subrange(start as int, to as int));
    let mut end: usize = to;
    while end > start && !name_edge(chars[end - 1])
        invariant
            start <= end <= to <= chars@.len(),
            trim_back(front) == trim_back(chars@.subrange(start as int, end as int)),
        decreases end - start,
    {
        assert(chars@.subrange(start as int, end as int).drop_last() =~= chars@.subrange(
            start as int,
            end - 1,
        ));
        end -= 1;
    }
    (start, end)
}

/// Convert a symposium plugin name into a valid manifest name, or `None` when
/// nothing legal survives.
///
/// Two distinct names can slug to the same result (`foo_bar` and `foo-bar`),
/// which is why callers disambiguate the *slug* rather than the original name.
pub fn slug(name: &str) -> (slugged: Option<String>)
    ensures
        text::optional_text(slugged) == slug_of(name@),
{
    let given = chars_of(name);
    let ghost mapped = name@.map_values(|c: char| slug_char(c));
    let mut lowered: Vec<char> = Vec::new();
    let mut i: usize = 0;
    while i < given.len()
        invariant
            i <= given@.len(),
            given@ == name@,
            mapped == name@.map_values(|c: char| slug_char(c)),
            lowered@ == mapped.take(i as int),
        decreases given@.len() - i,
    {
        lowered.push(self::slugged(given[i]));
        assert(lowered@ =~= mapped.take(i + 1));
        i += 1;
    }
    assert(mapped.take(i as int) =~= mapped);
    let (start, end) = trim_to_alnum(&lowered, lowered.len());
    assert(lowered@.subrange(0, lowered@.len() as int) =~= mapped);
    let ghost trimmed = trimmed_to_edges(mapped);
    if end - start <= MAX_NAME_LEN {
        if start == end {
            return None;
        }
        return Some(slice_of(lowered.as_slice(), start, end));
    }
    let mut kept: Vec<char> = Vec::new();
    let mut k: usize = 0;
    while k < MAX_NAME_LEN
        invariant
            k <= MAX_NAME_LEN,
            MAX_NAME_LEN < end - start,
            start <= end <= lowered@.len(),
            trimmed == lowered@.subrange(start as int, end as int),
            kept@ == trimmed.take(k as int),
        decreases MAX_NAME_LEN - k,
    {
        kept.push(lowered[start + k]);
        assert(kept@ =~= trimmed.take(k + 1));
        k += 1;
    }
    let (first, last) = trim_to_alnum(&kept, kept.len());
    assert(kept@.subrange(0, kept@.len() as int) =~= trimmed.take(MAX_NAME_LEN as int));
    if first == last {
        return None;
    }
    Some(slice_of(kept.as_slice(), first, last))
}

// ── laws ─────────────────────────────────────────────────────────────

/// What slugging does to one character.
proof fn lemma_slug_char(c: char)
    ensures
        is_name_char(slug_char(c)),
        is_name_edge(slug_char(c)) <==> text::is_alphanumeric(c),
        is_name_char(c) ==> slug_char(c) == c,
{
}

/// What trimming in front leaves: an end of the text that begins as a name
/// may, with nothing a name may begin with before it.
proof fn lemma_trim_front(s: Seq<char>)
    ensures
        trim_front(s).len() <= s.len(),
        trim_front(s) == s.skip(s.len() - trim_front(s).len()),
        trim_front(s).len() > 0 ==> is_name_edge(trim_front(s)[0]),
        forall|i: int|
            0 <= i < s.len() - trim_front(s).len() ==> !is_name_edge(#[trigger] s[i]),
    decreases s.len(),
{
    if s.len() > 0 && !is_name_edge(s[0]) {
        let rest = s.drop_first();
        lemma_trim_front(rest);
        let cut = s.len() - trim_front(s).len();
        assert(rest.skip(cut - 1) =~= s.skip(cut));
        assert forall|i: int| 0 <= i < cut implies !is_name_edge(#[trigger] s[i]) by {
            if i > 0 {
                assert(s[i] == rest[i - 1]);
            }
        }
    } else {
        assert(s.skip(0) =~= s);
    }
}

/// What trimming behind leaves: a beginning of the text that ends as a name
/// may, with nothing a name may end with after it.
proof fn lemma_trim_back(s: Seq<char>)
    ensures
        trim_back(s).len() <= s.len(),
        trim_back(s) == s.take(trim_back(s).len() as int),
        trim_back(s).len() > 0 ==> is_name_edge(trim_back(s).last()),
        forall|i: int| trim_back(s).len() <= i < s.len() ==> !is_name_edge(#[trigger] s[i]),
    decreases s.len(),
{
    if s.len() > 0 && !is_name_edge(s.last()) {
        let rest = s.drop_last();
        lemma_trim_back(rest);
        let kept = trim_back(s).len() as int;
        assert(rest.take(kept) =~= s.take(kept));
        assert forall|i: int| kept <= i < s.len() implies !is_name_edge(#[trigger] s[i]) by {
            if i < rest.len() {
                assert(s[i] == rest[i]);
            }
        }
    } else {
        assert(s.take(s.len() as int) =~= s);
    }
}

/// What trimming leaves of a text made of name characters: nothing where no
/// character may stand at an edge, and a text that may be a name otherwise.
proof fn lemma_trimmed(s: Seq<char>)
    requires
        forall|i: int| 0 <= i < s.len() ==> is_name_char(#[trigger] s[i]),
    ensures
        ({
            let t = trimmed_to_edges(s);
            &&& t.len() <= s.len()
            &&& forall|i: int| 0 <= i < t.len() ==> is_name_char(#[trigger] t[i])
            &&& t.len() > 0 ==> is_name_edge(t[0]) && is_name_edge(t.last())
            &&& t.len() == 0 <==> forall|i: int|
                0 <= i < s.len() ==> !is_name_edge(#[trigger] s[i])
            &&& s.len() > 0 && is_name_edge(s[0]) && is_name_edge(s.last()) ==> t == s
        }),
{
    let f = trim_front(s);
    let t = trimmed_to_edges(s);
    lemma_trim_front(s);
    lemma_trim_back(f);
    let cut = s.len() - f.len();
    assert forall|i: int| 0 <= i < t.len() implies #[trigger] t[i] == s[cut + i] by {
        assert(t[i] == f[i]);
    }
    if t.len() == 0 {
        assert forall|i: int| 0 <= i < s.len() implies !is_name_edge(#[trigger] s[i]) by {
            if i >= cut {
                assert(f[i - cut] == s[i]);
            }
        }
    } else {
        assert(t[0] == s[cut]);
        assert(f[0] == t[0]);
        assert(is_name_edge(s[cut]));
    }
}

/// A slug is always a name the format accepts.
pub proof fn slugs_are_valid_names(name: Seq<char>)
    ensures
        slug_of(name) matches Some(slugged) ==> valid_name(slugged),
{
    let mapped = name.map_values(|c: char| slug_char(c));
    assert forall|i: int| 0 <= i < mapped.len() implies is_name_char(#[trigger] mapped[i]) by {
        lemma_slug_char(name[i]);
    }
    lemma_trimmed(mapped);
    let trimmed = trimmed_to_edges(mapped);
    if trimmed.len() > MAX_NAME_LEN {
        lemma_trimmed(trimmed.take(MAX_NAME_LEN as int));
    }
}

/// A name the format accepts is its own slug, so slugging twice changes
/// nothing more.
pub proof fn valid_names_are_their_own_slugs(name: Seq<char>)
    requires
        valid_name(name),
    ensures
        slug_of(name) == Some(name),
{
    let mapped = name.map_values(|c: char| slug_char(c));
    assert forall|i: int| 0 <= i < name.len() implies #[trigger] mapped[i] == name[i] by {
        lemma_slug_char(name[i]);
    }
    assert(mapped =~= name);
    lemma_trimmed(name);
}

/// Nothing survives slugging exactly where the name holds no ASCII letter or
/// digit.
pub proof fn only_letters_and_digits_survive(name: Seq<char>)
    ensures
        slug_of(name) is None <==> forall|i: int|
            0 <= i < name.len() ==> !text::is_alphanumeric(#[trigger] name[i]),
{
    let mapped = name.map_values(|c: char| slug_char(c));
    assert forall|i: int| 0 <= i < mapped.len() implies is_name_char(#[trigger] mapped[i])
        && is_name_edge(mapped[i]) == text::is_alphanumeric(name[i]) by {
        lemma_slug_char(name[i]);
    }
    lemma_trimmed(mapped);
    let trimmed = trimmed_to_edges(mapped);
    if trimmed.len() > MAX_NAME_LEN {
        let kept = trimmed.take(MAX_NAME_LEN as int);
        lemma_trimmed(kept);
        assert(is_name_edge(kept[0]));
    }
    if slug_of(name) is None {
        assert forall|i: int| 0 <= i < name.len() implies !text::is_alphanumeric(
            #[trigger] name[i],
        ) by {
            assert(!is_name_edge(mapped[i]));
        }
    } else {
        let at = choose|at: int| 0 <= at < mapped.len() && is_name_edge(#[trigger] mapped[at]);
        assert(text::is_alphanumeric(name[at]));
    }
}

/// A manifest says exactly what it was made of; an absent description is not
/// written at all, and Gemini's manifest carries its own fields only.
pub proof fn manifests_say_what_they_were_made_of(manifest: Manifest, extension: GeminiExtension)
    ensures
        manifest_tree(manifest).get("$schema"@) == Some(JsonTree::Str(manifest.schema@)),
        manifest_tree(manifest).get("name"@) == Some(JsonTree::Str(manifest.name@)),
        manifest_tree(manifest).get("version"@) == Some(JsonTree::Str(manifest.version@)),
        manifest_tree(manifest).get("description"@) == (match manifest.description {
            Some(description) => Some(JsonTree::Str(description@)),
            None => None,
        }),
        gemini_tree(extension).get("name"@) == Some(JsonTree::Str(extension.name@)),
        gemini_tree(extension).get("version"@) == Some(JsonTree::Str(extension.version@)),
        gemini_tree(extension).get("$schema"@) is None,
{
    lemma_field_names();
    reveal_with_fuel(json::lookup, 5);
    let fields = manifest_tree(manifest)->Object_0;
    assert(fields.drop_first().drop_first().drop_first() =~= description_entry(
        manifest.description,
    ));
    let own = gemini_tree(extension)->Object_0;
    assert(own.drop_first().drop_first().len() == 0);
}

/// What one character of a name becomes in a slug: letters in lower case,
/// digits, dots and hyphens as they are, and a hyphen for anything else.
pub open spec fn slugs_to(c: char, out: char) -> bool {
    if 0x41 <= c as u32 <= 0x5a {
        out as u32 == c as u32 + 0x20
    } else if 0x61 <= c as u32 <= 0x7a || 0x30 <= c as u32 <= 0x39 || c == '.' || c == '-' {
        out == c
    } else {
        out == '-'
    }
}

/// A slug is the name from its first letter or digit on, character by
/// character, as far as its last letter or digit within the longest name the
/// format accepts.
pub proof fn slugs_are_spelled_like_their_names(name: Seq<char>) -> (edges: (int, int))
    ensures
        ({
            let (from, to) = edges;
            let slugged = slug_text(name);
            &&& 0 <= from <= to <= name.len()
            &&& to - from <= 64
            &&& slugged.len() == to - from
            &&& forall|i: int|
                0 <= i < to - from ==> slugs_to(name[from + i], #[trigger] slugged[i])
            &&& forall|i: int| 0 <= i < from ==> !text::is_alphanumeric(#[trigger] name[i])
            &&& forall|i: int|
                to <= i < name.len() && i < from + 64 ==> !text::is_alphanumeric(
                    #[trigger] name[i],
                )
            &&& from < to ==> text::is_alphanumeric(name[from]) && text::is_alphanumeric(
                name[to - 1],
            )
        }),
        slug_of(name) is Some <==> edges.0 < edges.1,
        slug_of(name) matches Some(slugged) ==> slugged == slug_text(name),
{
    let mapped = name.map_values(|c: char| slug_char(c));
    assert forall|i: int| 0 <= i < mapped.len() implies is_name_char(#[trigger] mapped[i])
        && is_name_edge(mapped[i]) == text::is_alphanumeric(name[i]) && slugs_to(
        name[i],
        mapped[i],
    ) by {
        lemma_slug_char(name[i]);
        lemma_slugs_to(name[i]);
    }
    let front = trim_front(mapped);
    let trimmed = trimmed_to_edges(mapped);
    lemma_trim_front(mapped);
    lemma_trim_back(front);
    let from = mapped.len() - front.len();
    let end = from + trimmed.len();
    assert(trimmed =~= mapped.subrange(from, end));
    assert forall|i: int| end <= i < mapped.len() implies !is_name_edge(#[trigger] mapped[i]) by {
        assert(front[i - from] == mapped[i]);
    }
    assert forall|i: int| 0 <= i < from implies !text::is_alphanumeric(#[trigger] name[i]) by {
        assert(!is_name_edge(mapped[i]));
    }
    if trimmed.len() > 0 {
        assert(trimmed[0] == front[0]);
    }
    if trimmed.len() > 64 {
        let kept = trimmed.take(64);
        let inner = trim_front(kept);
        lemma_trim_front(kept);
        assert(kept[0] == trimmed[0]);
        assert(inner.len() == kept.len());
        assert(inner =~= kept);
        lemma_trim_back(kept);
        let slugged = slug_text(name);
        let to = from + slugged.len();
        assert forall|i: int| to <= i < name.len() && i < from + 64 implies !text::is_alphanumeric(
            #[trigger] name[i],
        ) by {
            assert(kept[i - from] == mapped[i]);
        }
        assert forall|i: int| 0 <= i < to - from implies slugs_to(
            name[from + i],
            #[trigger] slugged[i],
        ) by {
            assert(slugged[i] == mapped[from + i]);
        }
        if slugged.len() > 0 {
            assert(slugged[0] == kept[0]);
            assert(slugged.last() == mapped[to - 1]);
            assert(mapped[from] == kept[0]);
        } else {
            assert(kept[0] == mapped[from]);
            assert(is_name_edge(kept[0]));
        }
        (from, to)
    } else {
        assert forall|i: int| 0 <= i < end - from implies slugs_to(
            name[from + i],
            #[trigger] trimmed[i],
        ) by {
            assert(trimmed[i] == mapped[from + i]);
        }
        assert forall|i: int| end <= i < name.len() && i < from + 64 implies !text::is_alphanumeric(
            #[trigger] name[i],
        ) by {
            assert(!is_name_edge(mapped[i]));
        }
        if trimmed.len() > 0 {
            assert(mapped[from] == trimmed[0]);
            assert(mapped[end - 1] == trimmed.last());
        }
        (from, end)
    }
}

proof fn lemma_slugs_to(c: char)
    ensures
        slugs_to(c, slug_char(c)),
{
}

/// The names the format accepts: one to sixty-four lower-case letters, digits,
/// dots and hyphens, with a letter or digit at either end.
pub proof fn valid_names_are_short_and_lower_case(name: Seq<char>)
    ensures
        valid_name(name) <==> {
            &&& 1 <= name.len() <= 64
            &&& name[0] != '.' && name[0] != '-'
            &&& name[name.len() - 1] != '.' && name[name.len() - 1] != '-'
            &&& forall|i: int|
                0 <= i < name.len() ==> {
                    let c = #[trigger] name[i];
                    is_name_edge(c) || c == '.' || c == '-'
                }
        },
        forall|c: char| #[trigger]
            is_name_edge(c) <==> text::is_lowercase(c) || text::is_digit(c),
{
    if valid_name(name) {
        assert forall|i: int| 0 <= i < name.len() implies ({
            let c = #[trigger] name[i];
            is_name_edge(c) || c == '.' || c == '-'
        }) by {
            assert(is_name_char(name[i]));
        }
    }
}

/// A marketplace says what it is called, who owns it, and of each plugin, in
/// order, what it is called, where it lies and, where it has one, how it is
/// described.
pub proof fn a_marketplace_lists_each_plugin(market: Marketplace, i: int)
    ensures
        marketplace_tree(market).get("name"@) == Some(JsonTree::Str(market.name@)),
        marketplace_tree(market).get("owner"@) == Some(
            JsonTree::Object(seq![("name"@, JsonTree::Str(market.owner.name@))]),
        ),
        marketplace_tree(market).get("plugins"@) is Some,
        marketplace_tree(market).get("plugins"@)->Some_0 is Array,
        marketplace_tree(market).get("plugins"@)->Some_0->Array_0.len() == market.plugins@.len(),
        0 <= i < market.plugins@.len() ==> {
            let entry = marketplace_tree(market).get("plugins"@)->Some_0->Array_0[i];
            let plugin = market.plugins@[i];
            &&& entry.get("name"@) == Some(JsonTree::Str(plugin.name@))
            &&& entry.get("source"@) == Some(JsonTree::Str(plugin.source@))
            &&& entry.get("description"@) == (match plugin.description {
                Some(description) => Some(JsonTree::Str(description@)),
                None => None,
            })
        },
{
    lemma_field_names();
    reveal_strlit("source");
    reveal_strlit("description");
    reveal_strlit("owner");
    reveal_strlit("plugins");
    reveal_strlit("name");
    reveal_with_fuel(json::lookup, 5);
    let fields = marketplace_tree(market)->Object_0;
    assert(fields.len() == 3);
    if 0 <= i < market.plugins@.len() {
        let plugin = market.plugins@[i];
        let own = entry_tree(plugin)->Object_0;
        assert(own.drop_first().drop_first() =~= description_entry(plugin.description));
    }
}

/// The documents written, field for field and in that order: nothing but what
/// belongs in them.
pub proof fn documents_hold_their_fields_only(
    manifest: Manifest,
    extension: GeminiExtension,
    market: Marketplace,
)
    ensures
        ({
            let own = seq![
                ("$schema"@, JsonTree::Str(manifest.schema@)),
                ("name"@, JsonTree::Str(manifest.name@)),
                ("version"@, JsonTree::Str(manifest.version@)),
            ];
            match manifest.description {
                Some(description) => manifest_tree(manifest) == JsonTree::Object(
                    own.push(("description"@, JsonTree::Str(description@))),
                ),
                None => manifest_tree(manifest) == JsonTree::Object(own),
            }
        }),
        gemini_tree(extension) == JsonTree::Object(
            seq![
                ("name"@, JsonTree::Str(extension.name@)),
                ("version"@, JsonTree::Str(extension.version@)),
            ],
        ),
        marketplace_tree(market) == JsonTree::Object(
            seq![
                ("name"@, JsonTree::Str(market.name@)),
                (
                    "owner"@,
                    JsonTree::Object(seq![("name"@, JsonTree::Str(market.owner.name@))]),
                ),
                (
                    "plugins"@,
                    JsonTree::Array(
                        market.plugins@.map_values(
                            |plugin: MarketplaceEntry|
                                JsonTree::Object(
                                    seq![
                                        ("name"@, JsonTree::Str(plugin.name@)),
                                        ("source"@, JsonTree::Str(plugin.source@)),
                                    ] + (match plugin.description {
                                        Some(description) => seq![
                                            ("description"@, JsonTree::Str(description@)),
                                        ],
                                        None => seq![],
                                    }),
                                ),
                        ),
                    ),
                ),
            ],
        ),
{
    let own = seq![
        ("$schema"@, JsonTree::Str(manifest.schema@)),
        ("name"@, JsonTree::Str(manifest.name@)),
        ("version"@, JsonTree::Str(manifest.version@)),
    ];
    match manifest.description {
        Some(description) => {
            assert(manifest_tree(manifest)->Object_0 =~= own.push(
                ("description"@, JsonTree::Str(description@)),
            ));
        },
        None => {
            assert(manifest_tree(manifest)->Object_0 =~= own);
        },
    }
    assert(gemini_tree(extension)->Object_0 =~= seq![
        ("name"@, JsonTree::Str(extension.name@)),
        ("version"@, JsonTree::Str(extension.version@)),
    ]);
    let listed = market.plugins@.map_values(
        |plugin: MarketplaceEntry|
            JsonTree::Object(
                seq![
                    ("name"@, JsonTree::Str(plugin.name@)),
                    ("source"@, JsonTree::Str(plugin.source@)),
                ] + (match plugin.description {
                    Some(description) => seq![("description"@, JsonTree::Str(description@))],
                    None => seq![],
                }),
            ),
    );
    assert(entry_trees(market.plugins@) =~= listed);
}

} // verus!
