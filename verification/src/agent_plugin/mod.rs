//! Compiling a gated symposium plugin into an agent plugin directory.
//!
//! The directory is the unit agents themselves use: a manifest beside a
//! `skills/` folder. Compilation happens after every predicate has been
//! evaluated, so what lands on disk is only what applies: an agent never
//! receives a gate and never resolves one.

use vstd::prelude::*;

use crate::paths;
use crate::paths::{parent, standing, Standing};
use crate::plugins;
use crate::plugins::{PackageView, ParsedPlugin, PluginsConfig, ANY_VERSION, CARGO_PM};
use crate::predicate;
use crate::skills;
use crate::skills::{hash_origin_key, SkillWithGroupContext};
use crate::text;
use crate::text::{contains_text, copy_optional_string, same_text};
use manifest::Manifest;

pub mod manifest;

verus! {

/// The directory under a project root that symposium owns outright, so one
/// `.gitignore` at its root covers everything below it.
pub const PROJECT_OWNED_DIR: &'static str = ".symposium";

/// Staging directory for compiled plugins within [`PROJECT_OWNED_DIR`].
pub const PROJECT_STAGING_SUBDIR: &'static str = "plugins";

/// Staging directory under the user configuration directory.
///
/// Deliberately not `plugins/`, which is the builtin `user-plugins` *registry*:
/// a directory symposium reads entries from. Compiling into it would make
/// symposium ingest its own output as registry plugins on the next load.
pub const GLOBAL_STAGING_DIR: &'static str = "installed";

/// The version a manifest carries where a plugin has none.
pub const NO_VERSION: &'static str = "0.0.0";

// ── scope ────────────────────────────────────────────────────────────

/// For whom a compiled plugin is installed.
#[derive(Debug, Clone, Copy, PartialEq, Eq, Structural)]
pub enum Scope {
    Project,
    Global,
}

/// Whether some skills' gates all hold alike in every workspace.
pub open spec fn skills_independent(contributed: Seq<&SkillWithGroupContext>) -> bool {
    forall|i: int|
        0 <= i < contributed.len() ==> predicate::independent(
            (#[trigger] contributed[i]).skill.predicates,
        )
}

/// Whether the gates of a plugin and of its skill groups all hold alike in
/// every workspace.
pub open spec fn gates_independent(parsed: ParsedPlugin) -> bool {
    &&& predicate::independent(parsed.plugin.predicates)
    &&& forall|i: int|
        0 <= i < parsed.plugin.skills@.len() ==> predicate::independent(
            (#[trigger] parsed.plugin.skills@[i]).predicates,
        )
}

/// Whether a plugin's activation and content follow from user configuration
/// alone: it comes from no workspace and no crate, no gate on the way to its
/// skills looks at the workspace, and where it sleeps until it is named, it is
/// named everywhere.
pub open spec fn same_everywhere(
    parsed: ParsedPlugin,
    contributed: Seq<&SkillWithGroupContext>,
    config: PluginsConfig,
) -> bool {
    &&& !parsed.workspace_member
    &&& parsed.canonical.pm@ != CARGO_PM@
    &&& gates_independent(parsed)
    &&& parsed.plugin.requires_use ==> plugins::used_everywhere(config, parsed.plugin.name@)
    &&& skills_independent(contributed)
}

/// The scope of a plugin.
pub open spec fn scope_of(
    parsed: ParsedPlugin,
    contributed: Seq<&SkillWithGroupContext>,
    config: PluginsConfig,
) -> Scope {
    if same_everywhere(parsed, contributed, config) {
        Scope::Global
    } else {
        Scope::Project
    }
}

/// Whether every group of a plugin is gated alike in every workspace.
fn groups_independent(parsed: &ParsedPlugin) -> (yes: bool)
    ensures
        yes == (forall|i: int|
            0 <= i < parsed.plugin.skills@.len() ==> predicate::independent(
                (#[trigger] parsed.plugin.skills@[i]).predicates,
            )),
{
    let groups = &parsed.plugin.skills;
    let mut i: usize = 0;
    while i < groups.len()
        invariant
            i <= groups@.len(),
            groups@ == parsed.plugin.skills@,
            forall|k: int|
                0 <= k < i ==> predicate::independent((#[trigger] groups@[k]).predicates),
        decreases groups@.len() - i,
    {
        if !groups[i].predicates.is_workspace_independent() {
            assert(!predicate::independent(parsed.plugin.skills@[i as int].predicates));
            return false;
        }
        i += 1;
    }
    true
}

/// Whether every skill is gated alike in every workspace.
fn contributions_independent(contributed: &[&SkillWithGroupContext]) -> (yes: bool)
    ensures
        yes == skills_independent(contributed@),
{
    let mut i: usize = 0;
    while i < contributed.len()
        invariant
            i <= contributed@.len(),
            forall|k: int|
                0 <= k < i ==> predicate::independent(
                    (#[trigger] contributed@[k]).skill.predicates,
                ),
        decreases contributed@.len() - i,
    {
        if !contributed[i].skill.predicates.is_workspace_independent() {
            assert(!predicate::independent(contributed@[i as int].skill.predicates));
            return false;
        }
        i += 1;
    }
    true
}

impl Scope {
    /// Where a plugin's compiled directory belongs.
    ///
    /// Global installation requires the decision to be reproducible from user
    /// config alone: a user-level directory is visible from every workspace,
    /// and cleanup reaps whatever it did not install this run, so a global set
    /// that varied by workspace would have two projects undoing each other.
    /// Anything whose activation *or content* depends on this workspace is
    /// therefore project-scoped, even when a global `use` entry named it.
    ///
    /// Content matters as much as activation: a plugin gated `depends-on(*)`
    /// whose skill group is gated `depends-on(serde)` would compile to
    /// different directories in different projects, which is the same churn by
    /// another route. So every gate in the chain has to hold
    /// workspace-independently: the plugin's, each declared group's, and each
    /// contributed skill's.
    pub fn of(
        parsed: &ParsedPlugin,
        contributed: &[&SkillWithGroupContext],
        plugins: &PluginsConfig,
    ) -> (scope: Scope)
        ensures
            scope == scope_of(*parsed, contributed@, *plugins),
    {
        let workspace_bound = parsed.workspace_member || same_text(
            parsed.canonical.pm.as_str(),
            CARGO_PM,
        ) || !parsed.plugin.predicates.is_workspace_independent() || (parsed.plugin.requires_use
            && !plugins.is_used_globally(parsed.plugin.name.as_str()))
            || !groups_independent(parsed) || !contributions_independent(contributed);
        if workspace_bound {
            Scope::Project
        } else {
            Scope::Global
        }
    }

    pub fn as_str(&self) -> (name: &'static str)
        ensures
            name@ == (match *self {
                Scope::Project => "project"@,
                Scope::Global => "global"@,
            }),
    {
        match self {
            Scope::Project => "project",
            Scope::Global => "global",
        }
    }
}

// ── what is compiled ─────────────────────────────────────────────────

/// A skill on its way into a plugin directory. Two are equal where they come
/// from and go to the same directory, however the path is spelled.
#[derive(Debug, Clone)]
pub struct CompiledSkill {
    pub dir_name: String,
    /// Directory holding the skill's `SKILL.md`, copied verbatim.
    pub source_dir: String,
}

impl PartialEq for CompiledSkill {
    fn eq(&self, other: &Self) -> (same: bool) {
        same_text(self.dir_name.as_str(), other.dir_name.as_str()) && standing(
            self.source_dir.as_str(),
            other.source_dir.as_str(),
        ) == Standing::Same
    }
}

impl vstd::std_specs::cmp::PartialEqSpecImpl for CompiledSkill {
    open spec fn obeys_eq_spec() -> bool {
        true
    }

    open spec fn eq_spec(&self, other: &Self) -> bool {
        self.dir_name@ == other.dir_name@ && paths::parts(self.source_dir@) == paths::parts(
            other.source_dir@,
        )
    }
}

impl Eq for CompiledSkill {}

/// A plugin directory to be written.
#[derive(Debug, Clone, PartialEq, Eq)]
pub struct CompiledPlugin {
    pub dir_name: String,
    pub manifest: Manifest,
    pub scope: Scope,
    pub skills: Vec<CompiledSkill>,
}

/// The directories some compiled skills go to and come from.
pub open spec fn skill_views(skills: Seq<CompiledSkill>) -> Seq<(Seq<char>, Seq<char>)> {
    skills.map_values(|skill: CompiledSkill| (skill.dir_name@, skill.source_dir@))
}

/// What a compiled plugin holds.
#[verifier::ext_equal]
pub struct CompiledView {
    pub dir_name: Seq<char>,
    pub schema: Seq<char>,
    pub name: Seq<char>,
    pub version: Seq<char>,
    pub description: Option<Seq<char>>,
    pub scope: Scope,
    pub skills: Seq<(Seq<char>, Seq<char>)>,
}

impl View for CompiledPlugin {
    type V = CompiledView;

    open spec fn view(&self) -> CompiledView {
        CompiledView {
            dir_name: self.dir_name@,
            schema: self.manifest.schema@,
            name: self.manifest.name@,
            version: self.manifest.version@,
            description: text::optional_text(self.manifest.description),
            scope: self.scope,
            skills: skill_views(self.skills@),
        }
    }
}

/// What some compiled plugins hold.
pub open spec fn compiled_views(compiled: Seq<CompiledPlugin>) -> Seq<CompiledView> {
    compiled.map_values(|plugin: CompiledPlugin| plugin@)
}

// ── versions ─────────────────────────────────────────────────────────

/// A plugin's version: what its manifest declares, or else what its package
/// resolved to, where that is a version at all.
pub open spec fn declared_version(parsed: ParsedPlugin) -> Option<Seq<char>> {
    match parsed.plugin.version {
        Some(version) => Some(version@),
        None => if parsed.canonical.version@ != ANY_VERSION@ {
            Some(parsed.canonical.version@)
        } else {
            None
        },
    }
}

/// The manifest's version wins; otherwise a crate plugin's resolved version
/// stands in. A registry or workspace plugin has no real package identity, so
/// its placeholder `*` is not a version and is dropped.
pub fn version_of(parsed: &ParsedPlugin) -> (version: Option<String>)
    ensures
        text::optional_text(version) == declared_version(*parsed),
{
    match &parsed.plugin.version {
        Some(version) => Some(version.clone()),
        None => if same_text(parsed.canonical.version.as_str(), ANY_VERSION) {
            None
        } else {
            Some(parsed.canonical.version.clone())
        },
    }
}

/// The version a manifest carries.
pub open spec fn written_version(parsed: ParsedPlugin) -> Seq<char> {
    match declared_version(parsed) {
        Some(version) => version,
        None => NO_VERSION@,
    }
}

// ── skills ───────────────────────────────────────────────────────────

/// Whether some skills hold one from this origin.
pub open spec fn has_origin(found: Seq<&SkillWithGroupContext>, origin: Seq<char>) -> bool {
    exists|i: int| 0 <= i < found.len() && (#[trigger] found[i]).origin_hash@ == origin
}

/// The first skill from each origin, in order.
pub open spec fn distinct(found: Seq<&SkillWithGroupContext>) -> Seq<&SkillWithGroupContext>
    decreases found.len(),
{
    if found.len() == 0 {
        seq![]
    } else {
        let earlier = distinct(found.drop_last());
        if has_origin(earlier, found.last().origin_hash@) {
            earlier
        } else {
            earlier.push(found.last())
        }
    }
}

/// How many of some skills go by a name.
pub open spec fn named(found: Seq<&SkillWithGroupContext>, name: Seq<char>) -> nat
    decreases found.len(),
{
    if found.len() == 0 {
        0
    } else {
        named(found.drop_last(), name) + (if found.last().skill.name@ == name {
            1nat
        } else {
            0nat
        })
    }
}

/// The directory a skill gets among others: its name, told apart by where it
/// comes from where the name is shared.
pub open spec fn skill_dir(
    entry: SkillWithGroupContext,
    all: Seq<&SkillWithGroupContext>,
) -> Seq<char> {
    if named(all, entry.skill.name@) == 1 {
        entry.skill.name@
    } else {
        entry.skill.name@ + "-"@ + entry.origin_hash@
    }
}

/// The directories the first `n` of some skills go to and come from. A skill
/// whose path has no directory is left out.
pub open spec fn skill_dirs(all: Seq<&SkillWithGroupContext>, n: int) -> Seq<
    (Seq<char>, Seq<char>),
>
    decreases n,
{
    if n <= 0 {
        seq![]
    } else {
        let earlier = skill_dirs(all, n - 1);
        let entry = *all[n - 1];
        match paths::parent_of(entry.skill.path@) {
            Some(source) => earlier.push((skill_dir(entry, all), source)),
            None => earlier,
        }
    }
}

/// What some skills compile to.
pub open spec fn compiled_skills(found: Seq<&SkillWithGroupContext>) -> Seq<
    (Seq<char>, Seq<char>),
> {
    skill_dirs(distinct(found), distinct(found).len() as int)
}

/// Whether some skills hold one from this origin.
fn origin_seen(found: &Vec<&SkillWithGroupContext>, origin: &str) -> (yes: bool)
    ensures
        yes == has_origin(found@, origin@),
{
    let mut i: usize = 0;
    while i < found.len()
        invariant
            i <= found@.len(),
            forall|k: int| 0 <= k < i ==> (#[trigger] found@[k]).origin_hash@ != origin@,
        decreases found@.len() - i,
    {
        if same_text(found[i].origin_hash.as_str(), origin) {
            assert(found@[i as int].origin_hash@ == origin@);
            return true;
        }
        i += 1;
    }
    false
}

/// Whether exactly one of some skills goes by a name.
fn named_once(found: &Vec<&SkillWithGroupContext>, name: &str) -> (yes: bool)
    ensures
        yes == (named(found@, name@) == 1),
{
    let mut count: u64 = 0;
    let mut i: usize = 0;
    while i < found.len()
        invariant
            i <= found@.len(),
            count <= 2,
            count < 2 ==> count == named(found@.take(i as int), name@),
            count == 2 ==> named(found@.take(i as int), name@) >= 2,
        decreases found@.len() - i,
    {
        assert(found@.take(i + 1).drop_last() =~= found@.take(i as int));
        assert(found@.take(i + 1).last() == found@[i as int]);
        if same_text(found[i].skill.name(), name) && count < 2 {
            count += 1;
        }
        i += 1;
    }
    assert(found@.take(i as int) =~= found@);
    count == 1
}

/// One skill directory per distinct origin. Skills sharing a name within one
/// plugin take the origin-hash suffix; across plugins they do not collide,
/// because the agent namespaces a plugin's skills under the plugin.
pub fn compile_skills(skills: &Vec<&SkillWithGroupContext>) -> (compiled: Vec<CompiledSkill>)
    ensures
        skill_views(compiled@) == compiled_skills(skills@),
{
    let mut kept: Vec<&SkillWithGroupContext> = Vec::new();
    let mut i: usize = 0;
    assert(kept@ =~= distinct(skills@.take(0)));
    while i < skills.len()
        invariant
            i <= skills@.len(),
            kept@ == distinct(skills@.take(i as int)),
        decreases skills@.len() - i,
    {
        assert(skills@.take(i + 1).drop_last() =~= skills@.take(i as int));
        assert(skills@.take(i + 1).last() == skills@[i as int]);
        if !origin_seen(&kept, skills[i].origin_hash.as_str()) {
            kept.push(skills[i]);
        }
        i += 1;
    }
    assert(skills@.take(i as int) =~= skills@);
    let mut compiled: Vec<CompiledSkill> = Vec::new();
    let mut k: usize = 0;
    assert(skill_views(compiled@) =~= skill_dirs(kept@, 0));
    while k < kept.len()
        invariant
            k <= kept@.len(),
            skill_views(compiled@) == skill_dirs(kept@, k as int),
        decreases kept@.len() - k,
    {
        let entry = kept[k];
        let ghost earlier = skill_views(compiled@);
        if let Some(source_dir) = parent(entry.skill.path.as_str()) {
            let mut dir_name = entry.skill.name().to_string();
            if !named_once(&kept, entry.skill.name()) {
                dir_name.append("-");
                dir_name.append(entry.origin_hash.as_str());
            }
            assert(dir_name@ =~= skill_dir(*entry, kept@));
            let skill = CompiledSkill { dir_name, source_dir };
            compiled.push(skill);
            assert(skill_views(compiled@) =~= earlier.push((skill.dir_name@, skill.source_dir@)));
        }
        k += 1;
    }
    compiled
}

// ── plugins ──────────────────────────────────────────────────────────

/// The skills one package contributed, in order.
pub open spec fn contributed_to<'a>(
    skills: Seq<SkillWithGroupContext>,
    package: PackageView,
) -> Seq<&'a SkillWithGroupContext>
    decreases skills.len(),
{
    if skills.len() == 0 {
        seq![]
    } else {
        let earlier = contributed_to(skills.drop_last(), package);
        if skills.last().plugin_id@ == package {
            earlier.push(&skills.last())
        } else {
            earlier
        }
    }
}

/// What a plugin compiles to before names are told apart: nothing where it
/// contributed no skill or its name leaves no valid one. Version one carries
/// only the format's skills component, so a directory without skills would be
/// empty.
pub open spec fn compiled_one(
    parsed: ParsedPlugin,
    skills: Seq<SkillWithGroupContext>,
    config: PluginsConfig,
) -> Option<CompiledView> {
    let mine = contributed_to(skills, parsed.canonical@);
    if mine.len() == 0 {
        None
    } else {
        match manifest::slug_of(parsed.plugin.name@) {
            Some(name) => Some(
                CompiledView {
                    dir_name: name,
                    schema: manifest::SCHEMA_URL@,
                    name,
                    version: written_version(parsed),
                    description: text::optional_text(parsed.plugin.description),
                    scope: scope_of(parsed, mine, config),
                    skills: compiled_skills(mine),
                },
            ),
            None => None,
        }
    }
}

/// What some plugins compile to before names are told apart.
pub open spec fn compiled_all(
    active: Seq<ParsedPlugin>,
    skills: Seq<SkillWithGroupContext>,
    config: PluginsConfig,
) -> Seq<CompiledView>
    decreases active.len(),
{
    if active.len() == 0 {
        seq![]
    } else {
        let earlier = compiled_all(active.drop_last(), skills, config);
        match compiled_one(active.last(), skills, config) {
            Some(plugin) => earlier.push(plugin),
            None => earlier,
        }
    }
}

/// The short names of where the plugins that compile to anything come from.
pub open spec fn origins_of(
    active: Seq<ParsedPlugin>,
    skills: Seq<SkillWithGroupContext>,
    config: PluginsConfig,
) -> Seq<Seq<char>>
    decreases active.len(),
{
    if active.len() == 0 {
        seq![]
    } else {
        let earlier = origins_of(active.drop_last(), skills, config);
        if compiled_one(active.last(), skills, config) is Some {
            earlier.push(skills::origin_name(plugins::package_text(active.last().canonical@)))
        } else {
            earlier
        }
    }
}

/// How many of some plugins claim a directory name.
pub open spec fn claims(compiled: Seq<CompiledView>, dir_name: Seq<char>) -> nat
    decreases compiled.len(),
{
    if compiled.len() == 0 {
        0
    } else {
        claims(compiled.drop_last(), dir_name) + (if compiled.last().dir_name == dir_name {
            1nat
        } else {
            0nat
        })
    }
}

/// The directory a plugin gets among others: its name, told apart by where it
/// comes from where more than one plugin claims the name or something else has
/// taken it.
pub open spec fn directory(
    plugin: CompiledView,
    origin: Seq<char>,
    all: Seq<CompiledView>,
    taken: Seq<Seq<char>>,
) -> Seq<char> {
    if claims(all, plugin.dir_name) > 1 || taken.contains(plugin.dir_name) {
        plugin.dir_name + "-"@ + origin
    } else {
        plugin.dir_name
    }
}

/// Plugins with their directory names told apart. Nothing but the directory
/// moves.
pub open spec fn told_apart(
    compiled: Seq<CompiledView>,
    origins: Seq<Seq<char>>,
    taken: Seq<Seq<char>>,
) -> Seq<CompiledView> {
    Seq::new(
        compiled.len(),
        |i: int|
            CompiledView {
                dir_name: directory(compiled[i], origins[i], compiled, taken),
                ..compiled[i]
            },
    )
}

/// The skills one plugin contributed.
fn contributions<'a>(
    skills: &'a [SkillWithGroupContext],
    parsed: &ParsedPlugin,
) -> (mine: Vec<&'a SkillWithGroupContext>)
    ensures
        mine@ == contributed_to(skills@, parsed.canonical@),
{
    let mut mine: Vec<&'a SkillWithGroupContext> = Vec::new();
    let mut i: usize = 0;
    assert(mine@ =~= contributed_to(skills@.take(0), parsed.canonical@));
    while i < skills.len()
        invariant
            i <= skills@.len(),
            mine@ == contributed_to(skills@.take(i as int), parsed.canonical@),
        decreases skills@.len() - i,
    {
        assert(skills@.take(i + 1).drop_last() =~= skills@.take(i as int));
        assert(skills@.take(i + 1).last() == skills@[i as int]);
        if skills[i].plugin_id.is(&parsed.canonical) {
            mine.push(&skills[i]);
        }
        i += 1;
    }
    assert(skills@.take(i as int) =~= skills@);
    mine
}

/// Compile one plugin, leaving its directory name as it is.
fn compile_one(
    parsed: &ParsedPlugin,
    skills: &[SkillWithGroupContext],
    plugins: &PluginsConfig,
) -> (compiled: Option<CompiledPlugin>)
    ensures
        match compiled {
            Some(plugin) => compiled_one(*parsed, skills@, *plugins) == Some(plugin@),
            None => compiled_one(*parsed, skills@, *plugins) is None,
        },
{
    let mine = contributions(skills, parsed);
    if mine.len() == 0 {
        return None;
    }
    let name = match manifest::slug(parsed.plugin.name.as_str()) {
        Some(name) => name,
        None => {
            return None;
        },
    };
    let version = match version_of(parsed) {
        Some(version) => version,
        None => NO_VERSION.to_string(),
    };
    let plugin = CompiledPlugin {
        dir_name: name.clone(),
        manifest: Manifest::new(name, version, copy_optional_string(&parsed.plugin.description)),
        scope: Scope::of(parsed, mine.as_slice(), plugins),
        skills: compile_skills(&mine),
    };
    assert(Some(plugin@) == compiled_one(*parsed, skills@, *plugins));
    Some(plugin)
}

/// Whether more than one of some plugins claims a directory name.
fn contested(compiled: &Vec<CompiledPlugin>, dir_name: &str) -> (yes: bool)
    ensures
        yes == (claims(compiled_views(compiled@), dir_name@) > 1),
{
    let ghost views = compiled_views(compiled@);
    let mut once = false;
    let mut i: usize = 0;
    while i < compiled.len()
        invariant
            i <= compiled@.len(),
            views == compiled_views(compiled@),
            claims(views.take(i as int), dir_name@) == (if once {
                1nat
            } else {
                0nat
            }),
        decreases compiled@.len() - i,
    {
        assert(views.take(i + 1).drop_last() =~= views.take(i as int));
        assert(views.take(i + 1).last() == compiled@[i as int]@);
        if same_text(compiled[i].dir_name.as_str(), dir_name) {
            if once {
                proof {
                    lemma_claims_grow(views, i + 1, dir_name@);
                }
                return true;
            }
            once = true;
        }
        i += 1;
    }
    assert(views.take(i as int) =~= views);
    false
}

/// More plugins make no fewer claims.
proof fn lemma_claims_grow(compiled: Seq<CompiledView>, n: int, dir_name: Seq<char>)
    requires
        0 <= n <= compiled.len(),
    ensures
        claims(compiled.take(n), dir_name) <= claims(compiled, dir_name),
    decreases compiled.len() - n,
{
    if n < compiled.len() {
        assert(compiled.take(n + 1).drop_last() =~= compiled.take(n));
        lemma_claims_grow(compiled, n + 1, dir_name);
    } else {
        assert(compiled.take(n) =~= compiled);
    }
}

/// Two plugin names can slug to the same directory name, so whenever more than
/// one plugin claims a slug, every claimant takes the suffixed form. Suffixing
/// all of them rather than all-but-one keeps a name stable when an unrelated
/// plugin appears or disappears.
pub fn disambiguate(
    compiled: Vec<CompiledPlugin>,
    origins: &Vec<String>,
    taken: &[String],
) -> (apart: Vec<CompiledPlugin>)
    requires
        origins@.len() == compiled@.len(),
    ensures
        compiled_views(apart@) == told_apart(
            compiled_views(compiled@),
            text::texts(origins@),
            text::texts(taken@),
        ),
{
    let ghost views = compiled_views(compiled@);
    let ghost whole = told_apart(views, text::texts(origins@), text::texts(taken@));
    let mut names: Vec<String> = Vec::new();
    let mut i: usize = 0;
    while i < compiled.len()
        invariant
            i <= compiled@.len(),
            names@.len() == i,
            origins@.len() == compiled@.len(),
            views == compiled_views(compiled@),
            whole == told_apart(views, text::texts(origins@), text::texts(taken@)),
            forall|k: int| 0 <= k < i ==> (#[trigger] names@[k])@ == whole[k].dir_name,
        decreases compiled@.len() - i,
    {
        let mut dir_name = compiled[i].dir_name.clone();
        assert(views[i as int] == compiled@[i as int]@);
        if contested(&compiled, compiled[i].dir_name.as_str()) || contains_text(
            taken,
            compiled[i].dir_name.as_str(),
        ) {
            dir_name.append("-");
            dir_name.append(origins[i].as_str());
        }
        assert(dir_name@ =~= whole[i as int].dir_name);
        names.push(dir_name);
        i += 1;
    }
    let count: usize = compiled.len();
    let mut apart = compiled;
    let mut k: usize = 0;
    while k < count
        invariant
            k <= count,
            count == apart@.len(),
            count == names@.len(),
            count == compiled@.len(),
            views == compiled_views(compiled@),
            whole == told_apart(views, text::texts(origins@), text::texts(taken@)),
            forall|j: int| 0 <= j < count ==> (#[trigger] names@[j])@ == whole[j].dir_name,
            forall|j: int| 0 <= j < k ==> (#[trigger] apart@[j])@ == whole[j],
            forall|j: int| k <= j < count ==> (#[trigger] apart@[j]) == compiled@[j],
        decreases count - k,
    {
        apart[k].dir_name = names[k].clone();
        assert(views[k as int] == compiled@[k as int]@);
        assert(apart@[k as int]@ =~= whole[k as int]);
        k += 1;
    }
    assert(compiled_views(apart@) =~= whole);
    apart
}

/// Group already-gated skills into one compiled plugin per contributing plugin.
///
/// A plugin with no applicable skills compiles to nothing: version one carries
/// only the format's skills component, so such a directory would be empty.
pub fn compile(
    active: &[ParsedPlugin],
    skills: &[SkillWithGroupContext],
    plugins: &PluginsConfig,
) -> (compiled: Vec<CompiledPlugin>)
    ensures
        compiled_views(compiled@) == told_apart(
            compiled_all(active@, skills@, *plugins),
            origins_of(active@, skills@, *plugins),
            seq![],
        ),
{
    let taken: Vec<String> = Vec::new();
    assert(text::texts(taken@) =~= seq![]);
    compile_beside(active, skills, plugins, taken.as_slice())
}

/// Compile plugins into a place where directories of the user's own have taken
/// some names already. A plugin whose name is taken gets the suffixed form.
pub fn compile_beside(
    active: &[ParsedPlugin],
    skills: &[SkillWithGroupContext],
    plugins: &PluginsConfig,
    taken: &[String],
) -> (compiled: Vec<CompiledPlugin>)
    ensures
        compiled_views(compiled@) == told_apart(
            compiled_all(active@, skills@, *plugins),
            origins_of(active@, skills@, *plugins),
            text::texts(taken@),
        ),
{
    let mut compiled: Vec<CompiledPlugin> = Vec::new();
    let mut origins: Vec<String> = Vec::new();
    let mut i: usize = 0;
    proof {
        assert(compiled_views(compiled@) =~= compiled_all(active@.take(0), skills@, *plugins));
        assert(text::texts(origins@) =~= origins_of(active@.take(0), skills@, *plugins));
    }
    while i < active.len()
        invariant
            i <= active@.len(),
            origins@.len() == compiled@.len(),
            compiled_views(compiled@) == compiled_all(
                active@.take(i as int),
                skills@,
                *plugins,
            ),
            text::texts(origins@) == origins_of(active@.take(i as int), skills@, *plugins),
        decreases active@.len() - i,
    {
        let parsed = &active[i];
        let ghost earlier = compiled_views(compiled@);
        let ghost known = text::texts(origins@);
        assert(active@.take(i + 1).drop_last() =~= active@.take(i as int));
        assert(active@.take(i + 1).last() == *parsed);
        if let Some(plugin) = compile_one(parsed, skills, plugins) {
            let origin = hash_origin_key(parsed.canonical.text().as_str());
            compiled.push(plugin);
            origins.push(origin);
            assert(compiled_views(compiled@) =~= earlier.push(plugin@));
            assert(text::texts(origins@) =~= known.push(origin@));
        }
        i += 1;
    }
    assert(active@.take(i as int) =~= active@);
    disambiguate(compiled, &origins, taken)
}

/// What is said of a plugin that cannot be compiled for its name.
pub open spec fn unnamed_text(name: Seq<char>) -> Seq<char> {
    "cannot compile plugin `"@ + name + "`: no valid agent plugin name"@
}

/// What is said of the plugins whose skills apply and whose names leave no
/// valid one.
pub open spec fn unnamed_of(
    active: Seq<ParsedPlugin>,
    skills: Seq<SkillWithGroupContext>,
) -> Seq<Seq<char>>
    decreases active.len(),
{
    if active.len() == 0 {
        seq![]
    } else {
        let earlier = unnamed_of(active.drop_last(), skills);
        let parsed = active.last();
        if contributed_to(skills, parsed.canonical@).len() > 0 && manifest::slug_of(
            parsed.plugin.name@,
        ) is None {
            earlier.push(unnamed_text(parsed.plugin.name@))
        } else {
            earlier
        }
    }
}

/// Warn of the plugins that [`compile`] passes over for want of a name.
pub fn unnamed(active: &[ParsedPlugin], skills: &[SkillWithGroupContext]) -> (warnings: Vec<
    String,
>)
    ensures
        text::texts(warnings@) == unnamed_of(active@, skills@),
{
    let mut warnings: Vec<String> = Vec::new();
    let mut i: usize = 0;
    assert(text::texts(warnings@) =~= unnamed_of(active@.take(0), skills@));
    while i < active.len()
        invariant
            i <= active@.len(),
            text::texts(warnings@) == unnamed_of(active@.take(i as int), skills@),
        decreases active@.len() - i,
    {
        let parsed = &active[i];
        let ghost earlier = text::texts(warnings@);
        assert(active@.take(i + 1).drop_last() =~= active@.take(i as int));
        assert(active@.take(i + 1).last() == *parsed);
        let mine = contributions(skills, parsed);
        let name = parsed.plugin.name.as_str();
        if mine.len() > 0 && manifest::slug(name).is_none() {
            let mut warning = "cannot compile plugin `".to_string();
            warning.append(name);
            warning.append("`: no valid agent plugin name");
            warnings.push(warning);
            assert(text::texts(warnings@) =~= earlier.push(unnamed_text(name@)));
        }
        i += 1;
    }
    assert(active@.take(i as int) =~= active@);
    warnings
}

// ── cleanup ──────────────────────────────────────────────────────────

/// Whether one of some paths names what `path` does.
pub open spec fn among(written: Seq<String>, path: Seq<char>) -> bool {
    exists|i: int|
        0 <= i < written.len() && paths::parts((#[trigger] written[i])@) == paths::parts(path)
}

/// Whether a compiled directory is to be removed: it is one, it carries the
/// ownership marker and this sync did not write it. Keyed on the marker, so a
/// directory the user put there is left alone.
pub fn reaps(path: &str, is_dir: bool, marked: bool, written: &Vec<String>) -> (yes: bool)
    ensures
        yes == (is_dir && marked && !among(written@, path@)),
{
    if !is_dir || !marked {
        return false;
    }
    let mut i: usize = 0;
    while i < written.len()
        invariant
            i <= written@.len(),
            forall|k: int|
                0 <= k < i ==> paths::parts((#[trigger] written@[k])@) != paths::parts(path@),
        decreases written@.len() - i,
    {
        if standing(written[i].as_str(), path) == Standing::Same {
            assert(paths::parts(written@[i as int]@) == paths::parts(path@));
            return false;
        }
        i += 1;
    }
    true
}

// ── laws ─────────────────────────────────────────────────────────────

/// Every skill compiled into a plugin was contributed by it, and none it
/// contributed is passed over.
pub proof fn skills_stay_with_their_plugin(
    skills: Seq<SkillWithGroupContext>,
    package: PackageView,
    skill: SkillWithGroupContext,
)
    ensures
        contributed_to(skills, package).contains(&skill) <==> skills.contains(skill)
            && skill.plugin_id@ == package,
    decreases skills.len(),
{
    if skills.len() > 0 {
        let shorter = skills.drop_last();
        let earlier = contributed_to(shorter, package);
        let all = contributed_to(skills, package);
        skills_stay_with_their_plugin(shorter, package, skill);
        if skills.contains(skill) {
            let at = choose|at: int| 0 <= at < skills.len() && skills[at] == skill;
            if at < shorter.len() {
                assert(shorter[at] == skill);
            }
        }
        if shorter.contains(skill) {
            let at = choose|at: int| 0 <= at < shorter.len() && shorter[at] == skill;
            assert(skills[at] == skill);
        }
        if earlier.contains(&skill) {
            let at = choose|at: int| 0 <= at < earlier.len() && *earlier[at] == skill;
            assert(all[at] == &skill);
        }
        if all.contains(&skill) {
            let at = choose|at: int| 0 <= at < all.len() && *all[at] == skill;
            if at < earlier.len() {
                assert(earlier[at] == &skill);
            } else {
                assert(skills[skills.len() - 1] == skill);
            }
        }
        if skills.last() == skill && skill.plugin_id@ == package {
            assert(all[earlier.len() as int] == &skill);
        }
    }
}

/// Plugins without applicable skills compile to nothing.
pub proof fn no_skills_compile_to_nothing(active: Seq<ParsedPlugin>, config: PluginsConfig)
    ensures
        compiled_all(active, seq![], config).len() == 0,
    decreases active.len(),
{
    if active.len() > 0 {
        no_skills_compile_to_nothing(active.drop_last(), config);
    }
}

/// Each compiled plugin comes from one of the active ones, and carries its
/// origin's short name.
proof fn lemma_compiled_from(
    active: Seq<ParsedPlugin>,
    skills: Seq<SkillWithGroupContext>,
    config: PluginsConfig,
    i: int,
) -> (from: int)
    requires
        0 <= i < compiled_all(active, skills, config).len(),
    ensures
        origins_of(active, skills, config).len() == compiled_all(active, skills, config).len(),
        0 <= from < active.len(),
        compiled_one(active[from], skills, config) == Some(
            compiled_all(active, skills, config)[i],
        ),
        origins_of(active, skills, config)[i] == skills::origin_name(
            plugins::package_text(active[from].canonical@),
        ),
    decreases active.len(),
{
    let shorter = active.drop_last();
    let earlier = compiled_all(shorter, skills, config);
    lemma_origins_len(shorter, skills, config);
    if i < earlier.len() {
        let from = lemma_compiled_from(shorter, skills, config, i);
        from
    } else {
        active.len() - 1
    }
}

/// There is an origin for each compiled plugin.
proof fn lemma_origins_len(
    active: Seq<ParsedPlugin>,
    skills: Seq<SkillWithGroupContext>,
    config: PluginsConfig,
)
    ensures
        origins_of(active, skills, config).len() == compiled_all(active, skills, config).len(),
    decreases active.len(),
{
    if active.len() > 0 {
        lemma_origins_len(active.drop_last(), skills, config);
    }
}

/// Every manifest written carries a name the format accepts, whether or not
/// its directory had to be told apart.
pub proof fn manifests_carry_valid_names(
    active: Seq<ParsedPlugin>,
    skills: Seq<SkillWithGroupContext>,
    config: PluginsConfig,
    taken: Seq<Seq<char>>,
    i: int,
)
    requires
        0 <= i < compiled_all(active, skills, config).len(),
    ensures
        ({
            let all = compiled_all(active, skills, config);
            let written = told_apart(all, origins_of(active, skills, config), taken)[i];
            &&& manifest::valid_name(written.name)
            &&& written.name == all[i].dir_name
            &&& written.skills == all[i].skills
        }),
{
    let from = lemma_compiled_from(active, skills, config, i);
    manifest::slugs_are_valid_names(active[from].plugin.name@);
}

/// How often a name is claimed, at least.
proof fn lemma_claimed_twice(compiled: Seq<CompiledView>, i: int, j: int)
    requires
        0 <= i < j < compiled.len(),
        compiled[i].dir_name == compiled[j].dir_name,
    ensures
        claims(compiled, compiled[i].dir_name) >= 2,
{
    let name = compiled[i].dir_name;
    lemma_claims_grow(compiled, j + 1, name);
    assert(compiled.take(j + 1).drop_last() =~= compiled.take(j));
    lemma_claims_grow(compiled.take(j), i + 1, name);
    assert(compiled.take(j).take(i + 1) =~= compiled.take(i + 1));
    assert(compiled.take(i + 1).last().dir_name == name);
}

/// Plugins whose names slug alike all take the suffixed form, and get
/// different directories where they come from different places.
pub proof fn plugins_that_slug_alike_are_told_apart(
    compiled: Seq<CompiledView>,
    origins: Seq<Seq<char>>,
    taken: Seq<Seq<char>>,
    i: int,
    j: int,
)
    requires
        origins.len() == compiled.len(),
        0 <= i < j < compiled.len(),
        compiled[i].dir_name == compiled[j].dir_name,
    ensures
        told_apart(compiled, origins, taken)[i].dir_name == compiled[i].dir_name + "-"@ + origins[i],
        told_apart(compiled, origins, taken)[j].dir_name == compiled[j].dir_name + "-"@ + origins[j],
        origins[i] != origins[j] ==> told_apart(compiled, origins, taken)[i].dir_name != told_apart(
            compiled,
            origins,
            taken,
        )[j].dir_name,
{
    lemma_claimed_twice(compiled, i, j);
    let head = compiled[i].dir_name + "-"@;
    let a = head + origins[i];
    let b = head + origins[j];
    if a == b {
        assert(origins[i] =~= a.skip(head.len() as int));
        assert(origins[j] =~= b.skip(head.len() as int));
    }
}

/// How often a name is claimed once one more plugin appears.
proof fn lemma_claims_insert(
    compiled: Seq<CompiledView>,
    at: int,
    extra: CompiledView,
    dir_name: Seq<char>,
)
    requires
        0 <= at <= compiled.len(),
    ensures
        claims(compiled.insert(at, extra), dir_name) == claims(compiled, dir_name) + (
        if extra.dir_name == dir_name {
            1nat
        } else {
            0nat
        }),
    decreases compiled.len() - at,
{
    let more = compiled.insert(at, extra);
    if at == compiled.len() {
        assert(more.drop_last() =~= compiled);
    } else {
        lemma_claims_insert(compiled.drop_last(), at, extra, dir_name);
        assert(more.drop_last() =~= compiled.drop_last().insert(at, extra));
    }
}

/// A plugin keeps its directory when one with another name appears or
/// disappears.
pub proof fn unrelated_plugins_do_not_move_a_directory(
    compiled: Seq<CompiledView>,
    plugin: CompiledView,
    origin: Seq<char>,
    taken: Seq<Seq<char>>,
    at: int,
    extra: CompiledView,
)
    requires
        0 <= at <= compiled.len(),
        extra.dir_name != plugin.dir_name,
    ensures
        directory(plugin, origin, compiled.insert(at, extra), taken) == directory(
            plugin,
            origin,
            compiled,
            taken,
        ),
{
    lemma_claims_insert(compiled, at, extra, plugin.dir_name);
}

/// A name is claimed by whoever has it.
proof fn lemma_claimed_once(compiled: Seq<CompiledView>, i: int)
    requires
        0 <= i < compiled.len(),
    ensures
        claims(compiled, compiled[i].dir_name) >= 1,
{
    lemma_claims_grow(compiled, i + 1, compiled[i].dir_name);
    assert(compiled.take(i + 1).last() == compiled[i]);
}

/// One more plugin renames nobody, wherever it stands, unless it is the second
/// to claim a name that was free: an unrelated one leaves all names alone, and
/// a further claimant finds the others told apart already.
pub proof fn a_further_plugin_renames_nobody(
    compiled: Seq<CompiledView>,
    origins: Seq<Seq<char>>,
    taken: Seq<Seq<char>>,
    at: int,
    extra: CompiledView,
    origin: Seq<char>,
)
    requires
        origins.len() == compiled.len(),
        0 <= at <= compiled.len(),
        claims(compiled, extra.dir_name) != 1 || taken.contains(extra.dir_name),
    ensures
        told_apart(compiled.insert(at, extra), origins.insert(at, origin), taken).remove(at)
            == told_apart(compiled, origins, taken),
{
    let more = compiled.insert(at, extra);
    let before = told_apart(compiled, origins, taken);
    let after = told_apart(more, origins.insert(at, origin), taken).remove(at);
    assert forall|i: int| 0 <= i < compiled.len() implies #[trigger] after[i] == before[i] by {
        lemma_claims_insert(compiled, at, extra, compiled[i].dir_name);
        lemma_claimed_once(compiled, i);
    }
    assert(after =~= before);
}

/// Whether `order` lists each of the first `n` places once.
pub open spec fn is_reordering(order: Seq<int>, n: nat) -> bool {
    &&& order.len() == n
    &&& forall|i: int| 0 <= i < n ==> 0 <= #[trigger] order[i] < n
    &&& forall|i: int, j: int| 0 <= i < j < n ==> #[trigger] order[i] != #[trigger] order[j]
}

/// What stands at the places `order` lists, in that order.
pub open spec fn reordered<A>(s: Seq<A>, order: Seq<int>) -> Seq<A> {
    Seq::new(order.len(), |i: int| s[order[i]])
}

/// The order in which claims are counted does not matter.
proof fn lemma_claims_reordered(
    compiled: Seq<CompiledView>,
    order: Seq<int>,
    dir_name: Seq<char>,
)
    requires
        is_reordering(order, compiled.len()),
    ensures
        claims(reordered(compiled, order), dir_name) == claims(compiled, dir_name),
    decreases compiled.len(),
{
    let n = compiled.len();
    let mixed = reordered(compiled, order);
    if n == 0 {
        assert(mixed =~= compiled);
    } else {
        let k = order.last();
        assert(0 <= order[n - 1] < n);
        let fewer = compiled.remove(k);
        let rest = Seq::new(
            (n - 1) as nat,
            |i: int|
                if order[i] > k {
                    order[i] - 1
                } else {
                    order[i]
                },
        );
        assert forall|i: int| 0 <= i < n - 1 implies 0 <= #[trigger] rest[i] < n - 1 by {
            assert(order[i] != order[n - 1]);
            assert(0 <= order[i] < n);
        }
        assert forall|i: int, j: int| 0 <= i < j < n - 1 implies #[trigger] rest[i]
            != #[trigger] rest[j] by {
            assert(order[i] != order[j]);
            assert(order[i] != order[n - 1]);
            assert(order[j] != order[n - 1]);
        }
        lemma_claims_reordered(fewer, rest, dir_name);
        assert forall|i: int| 0 <= i < n - 1 implies #[trigger] mixed.drop_last()[i] == reordered(
            fewer,
            rest,
        )[i] by {
            assert(order[i] != order[n - 1]);
            assert(0 <= order[i] < n);
            assert(0 <= rest[i] < n - 1);
        }
        assert(mixed.drop_last() =~= reordered(fewer, rest));
        lemma_claims_insert(fewer, k, compiled[k], dir_name);
        assert(fewer.insert(k, compiled[k]) =~= compiled);
    }
}

/// Compiling the same plugins in another order gives the same directories in
/// that order.
pub proof fn reordering_plugins_only_reorders_directories(
    compiled: Seq<CompiledView>,
    origins: Seq<Seq<char>>,
    taken: Seq<Seq<char>>,
    order: Seq<int>,
)
    requires
        origins.len() == compiled.len(),
        is_reordering(order, compiled.len()),
    ensures
        told_apart(reordered(compiled, order), reordered(origins, order), taken) == reordered(
            told_apart(compiled, origins, taken),
            order,
        ),
{
    let mixed = told_apart(reordered(compiled, order), reordered(origins, order), taken);
    let expected = reordered(told_apart(compiled, origins, taken), order);
    assert forall|i: int| 0 <= i < compiled.len() implies #[trigger] mixed[i] == expected[i] by {
        assert(0 <= order[i] < compiled.len());
        lemma_claims_reordered(compiled, order, compiled[order[i]].dir_name);
    }
    assert(mixed =~= expected);
}

/// A name that is told apart is still one the format accepts, where the suffix
/// fits.
pub proof fn suffixed_names_stay_valid(name: Seq<char>, key: Seq<char>)
    requires
        manifest::valid_name(name),
        name.len() + 9 <= manifest::MAX_NAME_LEN,
    ensures
        manifest::valid_name(name + "-"@ + skills::origin_name(key)),
{
    reveal_strlit("-");
    let origin = skills::origin_name(key);
    let whole = name + "-"@ + origin;
    skills::lemma_hex(skills::hash_of(key), 8);
    assert forall|i: int| 0 <= i < whole.len() implies manifest::is_name_char(
        #[trigger] whole[i],
    ) by {
        if i < name.len() {
            assert(whole[i] == name[i]);
        } else if i > name.len() {
            assert(whole[i] == origin[i - name.len() - 1]);
        }
    }
    assert(whole[0] == name[0]);
    assert(whole.last() == origin[7]);
}

/// One skill is kept of each origin: none twice, and none lost.
pub proof fn one_skill_is_kept_of_each_origin(found: Seq<&SkillWithGroupContext>)
    ensures
        forall|i: int, j: int|
            0 <= i < j < distinct(found).len() ==> (#[trigger] distinct(found)[i]).origin_hash@ != (
            #[trigger] distinct(found)[j]).origin_hash@,
        forall|origin: Seq<char>| #[trigger]
            has_origin(distinct(found), origin) <==> has_origin(found, origin),
    decreases found.len(),
{
    if found.len() > 0 {
        let shorter = found.drop_last();
        let earlier = distinct(shorter);
        let all = distinct(found);
        let last = found.last().origin_hash@;
        one_skill_is_kept_of_each_origin(shorter);
        assert forall|i: int, j: int| 0 <= i < j < all.len() implies (
        #[trigger] all[i]).origin_hash@ != (#[trigger] all[j]).origin_hash@ by {
            assert(all[i] == earlier[i]);
            if j < earlier.len() {
                assert(all[j] == earlier[j]);
            }
        }
        assert forall|origin: Seq<char>| #[trigger]
            has_origin(all, origin) <==> has_origin(found, origin) by {
            assert(has_origin(earlier, origin) <==> has_origin(shorter, origin));
            if has_origin(shorter, origin) {
                let i = choose|i: int|
                    0 <= i < shorter.len() && (#[trigger] shorter[i]).origin_hash@ == origin;
                assert(found[i].origin_hash@ == origin);
                let k = choose|k: int|
                    0 <= k < earlier.len() && (#[trigger] earlier[k]).origin_hash@ == origin;
                assert(all[k].origin_hash@ == origin);
            }
            if has_origin(found, origin) {
                let i = choose|i: int|
                    0 <= i < found.len() && (#[trigger] found[i]).origin_hash@ == origin;
                if i < shorter.len() {
                    assert(shorter[i].origin_hash@ == origin);
                } else if !has_origin(earlier, last) {
                    assert(all[earlier.len() as int].origin_hash@ == origin);
                }
            }
            if has_origin(all, origin) && !has_origin(earlier, origin) {
                let k = choose|k: int|
                    0 <= k < all.len() && (#[trigger] all[k]).origin_hash@ == origin;
                if k < earlier.len() {
                    assert(earlier[k].origin_hash@ == origin);
                } else {
                    assert(found[found.len() - 1].origin_hash@ == origin);
                }
            }
        }
    }
}

/// Two skills of one plugin that share a name and come from different places
/// both survive, under different directories.
pub proof fn same_named_skills_get_different_directories(
    found: Seq<&SkillWithGroupContext>,
    i: int,
    j: int,
)
    requires
        0 <= i < j < distinct(found).len(),
        distinct(found)[i].skill.name@ == distinct(found)[j].skill.name@,
    ensures
        skill_dir(*distinct(found)[i], distinct(found)) != skill_dir(
            *distinct(found)[j],
            distinct(found),
        ),
{
    let all = distinct(found);
    let name = all[i].skill.name@;
    one_skill_is_kept_of_each_origin(found);
    lemma_named_twice(all, i, j);
    let head = name + "-"@;
    let a = skill_dir(*all[i], all);
    let b = skill_dir(*all[j], all);
    if a == b {
        assert(all[i].origin_hash@ =~= a.skip(head.len() as int));
        assert(all[j].origin_hash@ =~= b.skip(head.len() as int));
        assert(all[i].origin_hash@ != all[j].origin_hash@);
    }
}

/// More skills go by a name no less often.
proof fn lemma_named_grow(found: Seq<&SkillWithGroupContext>, n: int, name: Seq<char>)
    requires
        0 <= n <= found.len(),
    ensures
        named(found.take(n), name) <= named(found, name),
    decreases found.len() - n,
{
    if n < found.len() {
        assert(found.take(n + 1).drop_last() =~= found.take(n));
        lemma_named_grow(found, n + 1, name);
    } else {
        assert(found.take(n) =~= found);
    }
}

/// A name that two skills go by.
proof fn lemma_named_twice(found: Seq<&SkillWithGroupContext>, i: int, j: int)
    requires
        0 <= i < j < found.len(),
        found[i].skill.name@ == found[j].skill.name@,
    ensures
        named(found, found[i].skill.name@) >= 2,
{
    let name = found[i].skill.name@;
    lemma_named_grow(found, j + 1, name);
    assert(found.take(j + 1).drop_last() =~= found.take(j));
    lemma_named_grow(found.take(j), i + 1, name);
    assert(found.take(j).take(i + 1) =~= found.take(i + 1));
    assert(found.take(i + 1).last().skill.name@ == name);
}

/// A plugin installed for the user looks the same from every workspace: any
/// gate on the way to its skills that looks at the workspace keeps it in the
/// project.
pub proof fn global_plugins_do_not_look_at_the_workspace(
    parsed: ParsedPlugin,
    contributed: Seq<&SkillWithGroupContext>,
    config: PluginsConfig,
)
    requires
        scope_of(parsed, contributed, config) == Scope::Global,
    ensures
        !parsed.workspace_member,
        predicate::independent(parsed.plugin.predicates),
        forall|i: int|
            0 <= i < parsed.plugin.skills@.len() ==> predicate::independent(
                (#[trigger] parsed.plugin.skills@[i]).predicates,
            ),
        forall|i: int|
            0 <= i < contributed.len() ==> predicate::independent(
                (#[trigger] contributed[i]).skill.predicates,
            ),
{
}

/// How many of some skills go by a name.
pub open spec fn namesakes(kept: Seq<&SkillWithGroupContext>, name: Seq<char>) -> nat {
    kept.filter(|entry: &SkillWithGroupContext| entry.skill.name@ == name).len()
}

/// Each kept skill that lies in a directory is compiled, in order, and copied
/// from the directory its own file lies in. Its directory goes by its name,
/// with its origin behind where another kept skill goes by the same.
pub proof fn each_skill_is_copied_from_its_own_directory(found: Seq<&SkillWithGroupContext>)
    ensures
        ({
            let kept = distinct(found);
            compiled_skills(found) == kept.filter_map(
                |entry: &SkillWithGroupContext|
                    match paths::parent_of(entry.skill.path@) {
                        Some(source) => Some(
                            (
                                if namesakes(kept, entry.skill.name@) == 1 {
                                    entry.skill.name@
                                } else {
                                    entry.skill.name@ + seq!['-'] + entry.origin_hash@
                                },
                                source,
                            ),
                        ),
                        None => None,
                    },
            )
        }),
{
    let kept = distinct(found);
    lemma_skill_dirs_mapped(kept, kept.len() as int);
    assert(kept.take(kept.len() as int) =~= kept);
}

proof fn lemma_skill_dirs_mapped(kept: Seq<&SkillWithGroupContext>, n: int)
    requires
        0 <= n <= kept.len(),
    ensures
        skill_dirs(kept, n) == kept.take(n).filter_map(
            |entry: &SkillWithGroupContext|
                match paths::parent_of(entry.skill.path@) {
                    Some(source) => Some(
                        (
                            if namesakes(kept, entry.skill.name@) == 1 {
                                entry.skill.name@
                            } else {
                                entry.skill.name@ + seq!['-'] + entry.origin_hash@
                            },
                            source,
                        ),
                    ),
                    None => None,
                },
        ),
    decreases n,
{
    reveal_strlit("-");
    assert("-"@ =~= seq!['-']);
    if n > 0 {
        lemma_skill_dirs_mapped(kept, n - 1);
        assert(kept.take(n).drop_last() =~= kept.take(n - 1));
        assert(kept.take(n).last() == kept[n - 1]);
        let name = kept[n - 1].skill.name@;
        names_are_counted(kept, name);
        assert(namesakes(kept, name) == named(kept, name));
    }
}

/// How often a name occurs among some skills.
pub proof fn names_are_counted(found: Seq<&SkillWithGroupContext>, name: Seq<char>)
    ensures
        named(found, name) == namesakes(found, name),
    decreases found.len(),
{
    reveal(Seq::filter);
    if found.len() > 0 {
        names_are_counted(found.drop_last(), name);
    }
}

/// Where every kept skill lies in a directory there is one entry for each, in
/// order; each is copied from where its own file lies, and its directory's name
/// begins with its own.
pub proof fn skills_compile_one_for_one(found: Seq<&SkillWithGroupContext>, i: int)
    requires
        forall|k: int|
            0 <= k < distinct(found).len() ==> paths::parent_of(
                (#[trigger] distinct(found)[k]).skill.path@,
            ) is Some,
        0 <= i < distinct(found).len(),
    ensures
        compiled_skills(found).len() == distinct(found).len(),
        Some(compiled_skills(found)[i].1) == paths::parent_of(distinct(found)[i].skill.path@),
        distinct(found)[i].skill.name@.is_prefix_of(compiled_skills(found)[i].0),
{
    lemma_one_for_one(distinct(found), distinct(found).len() as int, i);
}

proof fn lemma_one_for_one(kept: Seq<&SkillWithGroupContext>, n: int, i: int)
    requires
        forall|k: int|
            0 <= k < kept.len() ==> paths::parent_of((#[trigger] kept[k]).skill.path@) is Some,
        0 <= n <= kept.len(),
    ensures
        skill_dirs(kept, n).len() == n,
        0 <= i < n ==> Some(skill_dirs(kept, n)[i].1) == paths::parent_of(kept[i].skill.path@)
            && kept[i].skill.name@.is_prefix_of(skill_dirs(kept, n)[i].0),
    decreases n,
{
    if n > 0 {
        lemma_one_for_one(kept, n - 1, i);
        assert(paths::parent_of(kept[n - 1].skill.path@) is Some);
    }
}

/// Of the skills found, each is kept unless one found before it has the same
/// origin.
pub proof fn the_first_of_each_origin_is_kept(
    found: Seq<&SkillWithGroupContext>,
    next: &SkillWithGroupContext,
)
    ensures
        distinct(seq![]).len() == 0,
        (forall|i: int|
            0 <= i < found.len() ==> (#[trigger] found[i]).origin_hash@ != next.origin_hash@)
            ==> distinct(found.push(next)) == distinct(found).push(next),
        (exists|i: int|
            0 <= i < found.len() && (#[trigger] found[i]).origin_hash@ == next.origin_hash@)
            ==> distinct(found.push(next)) == distinct(found),
{
    assert(found.push(next).drop_last() =~= found);
    one_skill_is_kept_of_each_origin(found);
    assert(has_origin(distinct(found), next.origin_hash@) <==> has_origin(
        found,
        next.origin_hash@,
    ));
}

/// The skills a plugin contributes are those that came from its package, in
/// order.
pub proof fn skills_are_contributed_by_their_package(
    skills: Seq<SkillWithGroupContext>,
    package: PackageView,
)
    ensures
        ({
            let mine = skills.filter(
                |skill: SkillWithGroupContext|
                    skill.plugin_id.pm@ == package.pm && skill.plugin_id.name@ == package.name
                        && skill.plugin_id.version@ == package.version,
            );
            &&& contributed_to(skills, package).len() == mine.len()
            &&& forall|i: int|
                0 <= i < mine.len() ==> *(#[trigger] contributed_to(skills, package)[i]) == mine[i]
        }),
    decreases skills.len(),
{
    reveal(Seq::filter);
    if skills.len() > 0 {
        let rest = skills.drop_last();
        let id = skills.last().plugin_id@;
        skills_are_contributed_by_their_package(rest, package);
        assert(id == package <==> id.pm == package.pm && id.name == package.name && id.version
            == package.version);
    }
}

/// A plugin compiles where skills come from it and its name leaves something
/// legal. Its directory and its manifest go by that, and carry its version,
/// description and scope, and its skills.
pub proof fn a_plugin_compiles_to_what_it_declares(
    parsed: ParsedPlugin,
    skills: Seq<SkillWithGroupContext>,
    config: PluginsConfig,
)
    ensures
        ({
            let mine = contributed_to(skills, parsed.canonical@);
            let slug = manifest::slug_of(parsed.plugin.name@);
            match compiled_one(parsed, skills, config) {
                Some(plugin) => {
                    &&& mine.len() > 0
                    &&& slug == Some(plugin.dir_name)
                    &&& slug == Some(plugin.name)
                    &&& plugin.schema
                        == "https://agent-plugins.org/schemas/1.0.0/plugin.schema.json"@
                    &&& parsed.plugin.version matches Some(version) ==> plugin.version == version@
                    &&& parsed.plugin.version is None && parsed.canonical.version@ != "*"@
                        ==> plugin.version == parsed.canonical.version@
                    &&& parsed.plugin.version is None && parsed.canonical.version@ == "*"@
                        ==> plugin.version == "0.0.0"@
                    &&& parsed.plugin.description matches Some(description) ==> plugin.description
                        == Some(description@)
                    &&& parsed.plugin.description is None ==> plugin.description is None
                    &&& plugin.scope == scope_of(parsed, mine, config)
                    &&& plugin.skills == compiled_skills(mine)
                },
                None => mine.len() == 0 || slug is None,
            }
        }),
        declared_version(parsed) == (if parsed.plugin.version is Some {
            Some(parsed.plugin.version->Some_0@)
        } else if parsed.canonical.version@ == "*"@ {
            None
        } else {
            Some(parsed.canonical.version@)
        }),
{
}

/// What some plugins compile to is what each compiles to, in order, and each
/// comes with the short name of its own package.
pub proof fn plugins_compile_one_by_one(
    active: Seq<ParsedPlugin>,
    skills: Seq<SkillWithGroupContext>,
    config: PluginsConfig,
)
    ensures
        compiled_all(active, skills, config) == active.filter_map(
            |parsed: ParsedPlugin| compiled_one(parsed, skills, config),
        ),
        origins_of(active, skills, config) == active.filter_map(
            |parsed: ParsedPlugin|
                if compiled_one(parsed, skills, config) is Some {
                    Some(
                        skills::origin_name(
                            parsed.canonical.pm@ + ":"@ + parsed.canonical.name@ + "@"@
                                + parsed.canonical.version@,
                        ),
                    )
                } else {
                    None
                },
        ),
        unnamed_of(active, skills) == active.filter_map(
            |parsed: ParsedPlugin|
                if contributed_to(skills, parsed.canonical@).len() > 0 && manifest::slug_of(
                    parsed.plugin.name@,
                ) is None {
                    Some(
                        "cannot compile plugin `"@ + parsed.plugin.name@
                            + "`: no valid agent plugin name"@,
                    )
                } else {
                    None
                },
        ),
    decreases active.len(),
{
    if active.len() > 0 {
        plugins_compile_one_by_one(active.drop_last(), skills, config);
    }
}

/// Telling plugins apart changes nothing but the directories of those whose
/// name another has, or is taken: those get their origin behind.
pub proof fn only_contested_directories_change(
    compiled: Seq<CompiledView>,
    origins: Seq<Seq<char>>,
    taken: Seq<Seq<char>>,
    i: int,
)
    requires
        origins.len() == compiled.len(),
        0 <= i < compiled.len(),
    ensures
        ({
            let apart = told_apart(compiled, origins, taken);
            let contested = exists|j: int|
                0 <= j < compiled.len() && j != i && (#[trigger] compiled[j]).dir_name
                    == compiled[i].dir_name;
            let owned = exists|j: int|
                0 <= j < taken.len() && #[trigger] taken[j] == compiled[i].dir_name;
            &&& apart.len() == compiled.len()
            &&& contested || owned ==> apart[i].dir_name == compiled[i].dir_name + seq!['-']
                + origins[i]
            &&& !contested && !owned ==> apart[i].dir_name == compiled[i].dir_name
            &&& apart[i].schema == compiled[i].schema
            &&& apart[i].name == compiled[i].name
            &&& apart[i].version == compiled[i].version
            &&& apart[i].description == compiled[i].description
            &&& apart[i].scope == compiled[i].scope
            &&& apart[i].skills == compiled[i].skills
        }),
{
    reveal_strlit("-");
    assert("-"@ =~= seq!['-']);
    lemma_contested(compiled, i);
}

proof fn lemma_contested(compiled: Seq<CompiledView>, i: int)
    requires
        0 <= i < compiled.len(),
    ensures
        claims(compiled, compiled[i].dir_name) > 1 <==> exists|j: int|
            0 <= j < compiled.len() && j != i && (#[trigger] compiled[j]).dir_name
                == compiled[i].dir_name,
{
    let name = compiled[i].dir_name;
    let others = compiled.remove(i);
    lemma_claims_insert(others, i, compiled[i], name);
    assert(others.insert(i, compiled[i]) =~= compiled);
    lemma_claims_positive(others, name);
    if claims(others, name) > 0 {
        let k = choose|k: int| 0 <= k < others.len() && (#[trigger] others[k]).dir_name == name;
        let j = if k < i {
            k
        } else {
            k + 1
        };
        assert(compiled[j] == others[k]);
    }
    if exists|j: int|
        0 <= j < compiled.len() && j != i && (#[trigger] compiled[j]).dir_name == name {
        let j = choose|j: int|
            0 <= j < compiled.len() && j != i && (#[trigger] compiled[j]).dir_name == name;
        let k = if j < i {
            j
        } else {
            j - 1
        };
        assert(others[k] == compiled[j]);
    }
}

proof fn lemma_claims_positive(compiled: Seq<CompiledView>, name: Seq<char>)
    ensures
        claims(compiled, name) > 0 <==> exists|k: int|
            0 <= k < compiled.len() && (#[trigger] compiled[k]).dir_name == name,
    decreases compiled.len(),
{
    if compiled.len() > 0 {
        let rest = compiled.drop_last();
        lemma_claims_positive(rest, name);
        if compiled.last().dir_name == name {
            assert(compiled[compiled.len() - 1].dir_name == name);
        }
        if claims(rest, name) > 0 {
            let k = choose|k: int| 0 <= k < rest.len() && (#[trigger] rest[k]).dir_name == name;
            assert(compiled[k].dir_name == name);
        }
        if exists|k: int| 0 <= k < compiled.len() && (#[trigger] compiled[k]).dir_name == name {
            let k = choose|k: int|
                0 <= k < compiled.len() && (#[trigger] compiled[k]).dir_name == name;
            if k < rest.len() {
                assert(rest[k].dir_name == name);
            }
        }
    }
}

/// A plugin is global exactly where nothing about it depends on the workspace:
/// it is no member of one and no crate, it and its groups and the skills it
/// contributes are gated on nothing but any workspace at all, and where it
/// waits to be named, it is named for everywhere.
pub proof fn scopes_follow_from_gates(
    parsed: ParsedPlugin,
    contributed: Seq<&SkillWithGroupContext>,
    config: PluginsConfig,
)
    ensures
        scope_of(parsed, contributed, config) == Scope::Global <==> {
            &&& !parsed.workspace_member
            &&& parsed.canonical.pm@ != "cargo"@
            &&& predicate::independent(parsed.plugin.predicates)
            &&& forall|i: int|
                0 <= i < parsed.plugin.skills@.len() ==> predicate::independent(
                    (#[trigger] parsed.plugin.skills@[i]).predicates,
                )
            &&& parsed.plugin.requires_use ==> plugins::used_everywhere(
                config,
                parsed.plugin.name@,
            )
            &&& forall|i: int|
                0 <= i < contributed.len() ==> predicate::independent(
                    (#[trigger] contributed[i]).skill.predicates,
                )
        },
{
}

/// A directory is among those written where one of them is the same path,
/// however it is spelled.
pub proof fn written_directories_are_found(written: Seq<String>, path: Seq<char>)
    ensures
        among(written, path) <==> exists|i: int|
            0 <= i < written.len() && paths::parts((#[trigger] written[i])@) == paths::parts(path),
{
}

/// A compiled plugin holds all of its parts, and its skills in order.
pub proof fn compiled_plugins_hold_their_parts(plugins: Seq<CompiledPlugin>, i: int, k: int)
    requires
        0 <= i < plugins.len(),
    ensures
        ({
            let plugin = plugins[i];
            let seen = compiled_views(plugins)[i];
            &&& compiled_views(plugins).len() == plugins.len()
            &&& seen.dir_name == plugin.dir_name@
            &&& seen.schema == plugin.manifest.schema@
            &&& seen.name == plugin.manifest.name@
            &&& seen.version == plugin.manifest.version@
            &&& seen.description == text::optional_text(plugin.manifest.description)
            &&& seen.scope == plugin.scope
            &&& seen.skills.len() == plugin.skills@.len()
            &&& 0 <= k < plugin.skills@.len() ==> seen.skills[k] == (
                plugin.skills@[k].dir_name@,
                plugin.skills@[k].source_dir@,
            )
        }),
{
}

} // verus!
