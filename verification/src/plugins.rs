//! Plugins as the registry loads them, and what the user has switched on.

use vstd::prelude::*;

use crate::predicate::PredicateSet;
use crate::text;
use crate::text::{chars_of, same_text};

verus! {

/// The package manager crates come from.
pub const CARGO_PM: &'static str = "cargo";

/// The version of a package that has none of its own.
pub const ANY_VERSION: &'static str = "*";

// ── packages ─────────────────────────────────────────────────────────

/// Where a plugin comes from: a package of a package manager or of a registry.
#[derive(Debug, Clone, PartialEq, Eq)]
pub struct PackageId {
    pub pm: String,
    pub name: String,
    pub version: String,
}

/// What identifies a package.
#[verifier::ext_equal]
pub struct PackageView {
    pub pm: Seq<char>,
    pub name: Seq<char>,
    pub version: Seq<char>,
}

impl View for PackageId {
    type V = PackageView;

    open spec fn view(&self) -> PackageView {
        PackageView { pm: self.pm@, name: self.name@, version: self.version@ }
    }
}

/// A package's identity as one text.
pub open spec fn package_text(id: PackageView) -> Seq<char> {
    id.pm + ":"@ + id.name + "@"@ + id.version
}

impl PackageId {
    pub fn new(pm: &str, name: &str, version: &str) -> (id: Self)
        ensures
            id@ == (PackageView { pm: pm@, name: name@, version: version@ }),
    {
        PackageId { pm: pm.to_string(), name: name.to_string(), version: version.to_string() }
    }

    /// Whether two identities are the same.
    pub fn is(&self, other: &PackageId) -> (same: bool)
        ensures
            same == (self@ == other@),
    {
        same_text(self.pm.as_str(), other.pm.as_str()) && same_text(
            self.name.as_str(),
            other.name.as_str(),
        ) && same_text(self.version.as_str(), other.version.as_str())
    }

    /// The identity as one text.
    pub fn text(&self) -> (text: String)
        ensures
            text@ == package_text(self@),
    {
        let mut text = self.pm.clone();
        text.append(":");
        text.append(self.name.as_str());
        text.append("@");
        text.append(self.version.as_str());
        text
    }
}

// ── plugins ──────────────────────────────────────────────────────────

/// Some of a plugin's skills under a gate of their own.
#[derive(Debug, Clone, PartialEq, Eq)]
pub struct SkillGroup {
    pub predicates: PredicateSet,
}

/// What a plugin declares of itself.
#[derive(Debug, Clone, PartialEq, Eq)]
pub struct Plugin {
    pub name: String,
    pub version: Option<String>,
    pub description: Option<String>,
    pub predicates: PredicateSet,
    /// Whether the plugin sleeps until the user names it.
    pub requires_use: bool,
    pub skills: Vec<SkillGroup>,
}

impl Default for Plugin {
    fn default() -> (plugin: Self)
        ensures
            plugin.name@.len() == 0,
            plugin.version is None,
            plugin.description is None,
            plugin.predicates.predicates@.len() == 0,
            !plugin.requires_use,
            plugin.skills@.len() == 0,
    {
        Plugin {
            name: String::new(),
            version: None,
            description: None,
            predicates: PredicateSet::default(),
            requires_use: false,
            skills: Vec::new(),
        }
    }
}

/// A plugin and where it was found.
#[derive(Debug, Clone, PartialEq, Eq)]
pub struct ParsedPlugin {
    pub plugin: Plugin,
    /// Whether it was found in a member of the workspace.
    pub workspace_member: bool,
    pub canonical: PackageId,
}

// ── what is in use ───────────────────────────────────────────────────

/// A plugin the user asked for by name.
#[derive(Debug, Clone, PartialEq, Eq)]
pub enum UseEntry {
    /// Everywhere.
    Global(String),
    /// In one workspace.
    Workspace { name: String, workspace: String },
}

/// The user's configuration of plugins.
#[derive(Debug, Clone, PartialEq, Eq)]
pub struct PluginsConfig {
    pub used: Vec<UseEntry>,
}

impl Default for PluginsConfig {
    fn default() -> (config: Self)
        ensures
            config.used@.len() == 0,
    {
        PluginsConfig { used: Vec::new() }
    }
}

/// A name with its underscores taken for hyphens.
pub open spec fn folded(name: Seq<char>) -> Seq<char> {
    name.map_values(
        |c: char|
            if c == '_' {
                '-'
            } else {
                c
            },
    )
}

/// Whether an entry asks for a plugin everywhere.
pub open spec fn asks_everywhere(entry: UseEntry, name: Seq<char>) -> bool {
    entry matches UseEntry::Global(asked) && folded(asked@) == folded(name)
}

/// Whether a plugin is asked for everywhere.
pub open spec fn used_everywhere(config: PluginsConfig, name: Seq<char>) -> bool {
    exists|i: int| 0 <= i < config.used@.len() && asks_everywhere(#[trigger] config.used@[i], name)
}

/// Whether two characters are the same once underscores are taken for hyphens.
fn folds_alike(a: char, b: char) -> (same: bool)
    ensures
        same == (folded(seq![a]) == folded(seq![b])),
{
    let x = if a == '_' {
        '-'
    } else {
        a
    };
    let y = if b == '_' {
        '-'
    } else {
        b
    };
    assert(folded(seq![a]) =~= seq![x]);
    assert(folded(seq![b]) =~= seq![y]);
    assert(seq![x][0] == x && seq![y][0] == y);
    x == y
}

/// Whether two names are the same once underscores are taken for hyphens.
pub fn same_name(a: &str, b: &str) -> (same: bool)
    ensures
        same == (folded(a@) == folded(b@)),
{
    let left = chars_of(a);
    let right = chars_of(b);
    let ghost l = folded(a@);
    let ghost r = folded(b@);
    if left.len() != right.len() {
        assert(l.len() != r.len());
        return false;
    }
    let mut i: usize = 0;
    while i < left.len()
        invariant
            i <= left@.len(),
            left@ == a@,
            right@ == b@,
            left@.len() == right@.len(),
            l == folded(a@),
            r == folded(b@),
            l.take(i as int) == r.take(i as int),
        decreases left@.len() - i,
    {
        proof {
            assert(folded(seq![left@[i as int]])[0] == l[i as int]);
            assert(folded(seq![right@[i as int]])[0] == r[i as int]);
            assert(folded(seq![left@[i as int]]) =~= seq![l[i as int]]);
            assert(folded(seq![right@[i as int]]) =~= seq![r[i as int]]);
        }
        if !folds_alike(left[i], right[i]) {
            return false;
        }
        assert(l.take(i + 1) =~= l.take(i as int).push(l[i as int]));
        assert(r.take(i + 1) =~= r.take(i as int).push(r[i as int]));
        i += 1;
    }
    assert(l.take(i as int) =~= l);
    assert(r.take(i as int) =~= r);
    true
}

impl PluginsConfig {
    /// Whether the user asked for a plugin everywhere. Names match whether
    /// they are written with hyphens or with underscores.
    pub fn is_used_globally(&self, name: &str) -> (yes: bool)
        ensures
            yes == used_everywhere(*self, name@),
    {
        let mut i: usize = 0;
        while i < self.used.len()
            invariant
                i <= self.used@.len(),
                forall|k: int| 0 <= k < i ==> !asks_everywhere(#[trigger] self.used@[k], name@),
            decreases self.used@.len() - i,
        {
            if let UseEntry::Global(asked) = &self.used[i] {
                if same_name(asked.as_str(), name) {
                    assert(asks_everywhere(self.used@[i as int], name@));
                    return true;
                }
            }
            i += 1;
        }
        false
    }
}

// ── laws ─────────────────────────────────────────────────────────────

/// Names are the same where they differ in nothing but hyphens and underscores.
pub proof fn hyphens_and_underscores_are_the_same(a: Seq<char>, b: Seq<char>)
    ensures
        folded(a) == folded(b) <==> a.len() == b.len() && forall|i: int|
            0 <= i < a.len() ==> {
                ||| #[trigger] a[i] == b[i]
                ||| (a[i] == '-' || a[i] == '_') && (b[i] == '-' || b[i] == '_')
            },
{
    if folded(a) == folded(b) {
        assert(folded(a).len() == a.len() && folded(b).len() == b.len());
        assert forall|i: int| 0 <= i < a.len() implies ({
            ||| #[trigger] a[i] == b[i]
            ||| (a[i] == '-' || a[i] == '_') && (b[i] == '-' || b[i] == '_')
        }) by {
            assert(folded(a)[i] == folded(b)[i]);
        }
    }
    let alike = forall|i: int|
        0 <= i < a.len() ==> {
            ||| #[trigger] a[i] == b[i]
            ||| (a[i] == '-' || a[i] == '_') && (b[i] == '-' || b[i] == '_')
        };
    if a.len() == b.len() && alike {
        assert forall|i: int| 0 <= i < a.len() implies folded(a)[i] == folded(b)[i] by {
            assert(a[i] == b[i] || (a[i] == '-' || a[i] == '_') && (b[i] == '-' || b[i] == '_'));
        }
        assert(folded(a) =~= folded(b));
    }
}

/// A plugin is used everywhere where an entry for everywhere names it; an entry
/// for one workspace does not count.
pub proof fn only_global_entries_count_everywhere(config: PluginsConfig, name: Seq<char>)
    ensures
        used_everywhere(config, name) <==> exists|i: int|
            0 <= i < config.used@.len() && (#[trigger] config.used@[i]) is Global && folded(
                config.used@[i]->Global_0@,
            ) == folded(name),
{
    if used_everywhere(config, name) {
        let i = choose|i: int|
            0 <= i < config.used@.len() && asks_everywhere(#[trigger] config.used@[i], name);
        assert(config.used@[i] is Global && folded(config.used@[i]->Global_0@) == folded(name));
    }
    if exists|i: int|
        0 <= i < config.used@.len() && (#[trigger] config.used@[i]) is Global && folded(
            config.used@[i]->Global_0@,
        ) == folded(name) {
        let i = choose|i: int|
            0 <= i < config.used@.len() && (#[trigger] config.used@[i]) is Global && folded(
                config.used@[i]->Global_0@,
            ) == folded(name);
        assert(asks_everywhere(config.used@[i], name));
    }
}

/// A package is told by its package manager, its name and its version, and its
/// text names all three.
pub proof fn packages_are_told_by_all_their_parts(a: PackageId, b: PackageId)
    ensures
        a@ == b@ <==> a.pm@ == b.pm@ && a.name@ == b.name@ && a.version@ == b.version@,
        package_text(a@) == a.pm@ + seq![':'] + a.name@ + seq!['@'] + a.version@,
{
    reveal_strlit(":");
    reveal_strlit("@");
    assert(":"@ =~= seq![':']);
    assert("@"@ =~= seq!['@']);
}

} // verus!
