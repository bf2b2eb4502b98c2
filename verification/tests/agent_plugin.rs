//! Compiling gated plugins into agent plugin directories.

use symposium::agent_plugin::manifest::is_valid_name;
use symposium::agent_plugin::{
    compile, compile_beside, compile_skills, reaps, unnamed, version_of, CompiledSkill, Scope,
    GLOBAL_STAGING_DIR, PROJECT_OWNED_DIR, PROJECT_STAGING_SUBDIR,
};
use symposium::plugins::{
    same_name, PackageId, ParsedPlugin, Plugin, PluginsConfig, SkillGroup, UseEntry, ANY_VERSION,
};
use symposium::predicate::{Predicate, PredicateSet};
use symposium::skills::{hash_origin_key, Skill, SkillWithGroupContext};

fn wildcard() -> PredicateSet {
    PredicateSet::from_depends_on("*").expect("wildcard")
}

fn on_serde() -> PredicateSet {
    PredicateSet::from_depends_on("serde").expect("serde")
}

fn registry_plugin(name: &str, predicates: PredicateSet) -> ParsedPlugin {
    ParsedPlugin {
        plugin: Plugin {
            name: name.to_string(),
            predicates,
            ..Default::default()
        },
        workspace_member: false,
        canonical: PackageId::new("user-plugins", name, ANY_VERSION),
    }
}

fn skill_of(plugin: &ParsedPlugin, name: &str, path: &str) -> SkillWithGroupContext {
    SkillWithGroupContext {
        skill: Skill {
            name: name.to_string(),
            predicates: PredicateSet::default(),
            path: path.to_string(),
        },
        origin_hash: hash_origin_key(path),
        plugin: plugin.plugin.name.clone(),
        plugin_id: plugin.canonical.clone(),
    }
}

fn no_config() -> PluginsConfig {
    PluginsConfig::default()
}

// ── scope ────────────────────────────────────────────────────────────

#[test]
fn wildcard_registry_plugin_is_global() {
    let plugin = registry_plugin("pdf-tools", wildcard());
    assert_eq!(Scope::of(&plugin, &[], &no_config()), Scope::Global);
}

#[test]
fn a_concrete_dependency_gate_keeps_a_plugin_project_scoped() {
    let plugin = registry_plugin("pdf-tools", on_serde());
    assert_eq!(Scope::of(&plugin, &[], &no_config()), Scope::Project);
}

#[test]
fn workspace_members_and_crate_plugins_are_project_scoped() {
    let mut member = registry_plugin("house-style", wildcard());
    member.workspace_member = true;
    assert_eq!(Scope::of(&member, &[], &no_config()), Scope::Project);

    let mut from_crate = registry_plugin("widget", wildcard());
    from_crate.canonical = PackageId::new("cargo", "widget", "1.0.0");
    assert_eq!(Scope::of(&from_crate, &[], &no_config()), Scope::Project);
}

#[test]
fn a_dormant_plugin_goes_global_only_when_used_globally() {
    let mut dormant = registry_plugin("pdf-tools", PredicateSet::default());
    dormant.plugin.requires_use = true;

    assert_eq!(Scope::of(&dormant, &[], &no_config()), Scope::Project);

    let workspace_scoped = PluginsConfig {
        used: vec![UseEntry::Workspace {
            name: "pdf-tools".into(),
            workspace: "/work/reporter".to_string(),
        }],
    };
    assert_eq!(
        Scope::of(&dormant, &[], &workspace_scoped),
        Scope::Project,
        "a workspace `use` entry is workspace-dependent by definition"
    );

    let globally = PluginsConfig {
        used: vec![UseEntry::Global("pdf_tools".into())],
    };
    assert_eq!(
        Scope::of(&dormant, &[], &globally),
        Scope::Global,
        "global `use` names match hyphen/underscore-insensitively"
    );
}

#[test]
fn a_dependency_gated_group_or_skill_keeps_the_plugin_project_scoped() {
    let mut grouped = registry_plugin("pdf-tools", wildcard());
    grouped.plugin.skills = vec![SkillGroup {
        predicates: on_serde(),
    }];
    assert_eq!(Scope::of(&grouped, &[], &no_config()), Scope::Project);

    let plugin = registry_plugin("pdf-tools", wildcard());
    let mut gated = skill_of(&plugin, "extract-tables", "/reg/pdf/skills/x/SKILL.md");
    gated.skill.predicates = on_serde();
    assert_eq!(
        Scope::of(&plugin, &[&gated], &no_config()),
        Scope::Project,
        "a dep-gated skill makes the compiled content vary by workspace"
    );
}

#[test]
fn shell_and_path_predicates_are_treated_as_workspace_dependent() {
    let set = PredicateSet {
        predicates: vec![Predicate::Shell("true".into())],
    };
    assert!(!set.is_workspace_independent());

    assert!(wildcard().is_workspace_independent());
    assert!(PredicateSet::default().is_workspace_independent());
    assert!(!on_serde().is_workspace_independent());
}

// ── compile ──────────────────────────────────────────────────────────

#[test]
fn skills_are_grouped_under_the_plugin_that_contributed_them() {
    let one = registry_plugin("pdf-tools", wildcard());
    let two = registry_plugin("csv-tools", wildcard());
    let skills = vec![
        skill_of(&one, "extract-tables", "/reg/pdf/skills/extract/SKILL.md"),
        skill_of(&one, "read-forms", "/reg/pdf/skills/forms/SKILL.md"),
        skill_of(&two, "split-rows", "/reg/csv/skills/split/SKILL.md"),
    ];

    let compiled = compile(&[one, two], &skills, &no_config());
    let names: Vec<(&str, usize)> = compiled
        .iter()
        .map(|p| (p.dir_name.as_str(), p.skills.len()))
        .collect();
    assert_eq!(names, vec![("pdf-tools", 2), ("csv-tools", 1)]);
}

#[test]
fn a_plugin_with_no_applicable_skills_compiles_to_nothing() {
    let plugin = registry_plugin("pdf-tools", wildcard());
    assert!(compile(&[plugin], &[], &no_config()).is_empty());
}

#[test]
fn names_that_slug_alike_are_both_suffixed() {
    let underscored = registry_plugin("pdf_tools", wildcard());
    let hyphenated = registry_plugin("pdf-tools", wildcard());
    let skills = vec![
        skill_of(&underscored, "a", "/reg/one/skills/a/SKILL.md"),
        skill_of(&hyphenated, "b", "/reg/two/skills/b/SKILL.md"),
    ];

    let compiled = compile(&[underscored, hyphenated], &skills, &no_config());
    assert_eq!(compiled.len(), 2);
    for plugin in &compiled {
        assert!(
            plugin.dir_name.starts_with("pdf-tools-"),
            "expected a suffixed name, got {}",
            plugin.dir_name
        );
        assert!(is_valid_name(&plugin.dir_name));
    }
    assert_ne!(compiled[0].dir_name, compiled[1].dir_name);
    assert_eq!(
        compiled[0].manifest.name, "pdf-tools",
        "the manifest keeps the undisambiguated name; only the directory moves"
    );
}

#[test]
fn one_skill_reached_twice_through_a_plugin_is_compiled_once() {
    let plugin = registry_plugin("pdf-tools", wildcard());
    let once = skill_of(&plugin, "extract", "/reg/pdf/skills/extract/SKILL.md");
    let twice = skill_of(&plugin, "extract", "/reg/pdf/skills/extract/SKILL.md");
    let compiled = compile(&[plugin], &[once, twice], &no_config());
    assert_eq!(compiled[0].skills.len(), 1);
}

#[test]
fn same_named_skills_from_different_paths_both_survive_with_suffixes() {
    let plugin = registry_plugin("pdf-tools", wildcard());
    let skills = vec![
        skill_of(&plugin, "extract", "/reg/pdf/a/SKILL.md"),
        skill_of(&plugin, "extract", "/reg/pdf/b/SKILL.md"),
    ];
    let compiled = compile(&[plugin], &skills, &no_config());
    let dirs: Vec<&str> = compiled[0]
        .skills
        .iter()
        .map(|s| s.dir_name.as_str())
        .collect();
    assert_eq!(dirs.len(), 2);
    assert!(dirs.iter().all(|d| d.starts_with("extract-")), "{dirs:?}");
    assert_ne!(dirs[0], dirs[1]);
}

#[test]
fn the_version_comes_from_the_manifest_then_the_resolved_crate() {
    let mut declared = registry_plugin("pdf-tools", wildcard());
    declared.plugin.version = Some("1.2.0".into());
    assert_eq!(version_of(&declared).as_deref(), Some("1.2.0"));

    let mut from_crate = registry_plugin("widget", wildcard());
    from_crate.canonical = PackageId::new("cargo", "widget", "0.3.1");
    assert_eq!(version_of(&from_crate).as_deref(), Some("0.3.1"));

    let placeholder = registry_plugin("pdf-tools", wildcard());
    assert_eq!(
        version_of(&placeholder),
        None,
        "the `*` placeholder is not a version"
    );
}

#[test]
fn a_plugin_without_a_version_is_written_with_a_placeholder() {
    let plugin = registry_plugin("pdf-tools", wildcard());
    let skills = vec![skill_of(&plugin, "a", "/reg/a/SKILL.md")];
    let compiled = compile(&[plugin], &skills, &no_config());
    assert_eq!(compiled[0].manifest.version, "0.0.0");
    assert_eq!(compiled[0].manifest.description, None);
}

#[test]
fn a_compiled_plugin_says_where_it_goes_and_what_it_holds() {
    let mut plugin = registry_plugin("PDF Tools", wildcard());
    plugin.plugin.version = Some("1.2.0".into());
    plugin.plugin.description = Some("Tables".into());
    let skills = vec![skill_of(&plugin, "extract", "/reg/pdf/skills/extract/SKILL.md")];
    let compiled = compile(&[plugin], &skills, &no_config());
    assert_eq!(compiled[0].dir_name, "pdf-tools");
    assert_eq!(compiled[0].manifest.name, "pdf-tools");
    assert_eq!(compiled[0].manifest.version, "1.2.0");
    assert_eq!(compiled[0].manifest.description.as_deref(), Some("Tables"));
    assert_eq!(compiled[0].scope, Scope::Global);
    assert_eq!(compiled[0].skills[0].dir_name, "extract");
    assert_eq!(compiled[0].skills[0].source_dir, "/reg/pdf/skills/extract");
}

/// A plugin whose name leaves nothing legal is passed over, and said so.
#[test]
fn a_nameless_plugin_is_passed_over_with_a_warning() {
    let plugin = registry_plugin("日本", wildcard());
    let idle = registry_plugin("___", wildcard());
    let skills = vec![skill_of(&plugin, "a", "/reg/a/SKILL.md")];
    let active = vec![plugin, idle];
    assert!(compile(&active, &skills, &no_config()).is_empty());
    assert_eq!(
        unnamed(&active, &skills),
        vec!["cannot compile plugin `日本`: no valid agent plugin name".to_string()]
    );
}

/// An unrelated plugin moves nothing; one that slugs alike moves both.
#[test]
fn a_directory_is_stable_while_its_name_is_uncontested() {
    let one = registry_plugin("pdf-tools", wildcard());
    let other = registry_plugin("csv-tools", wildcard());
    let rival = registry_plugin("pdf_tools", wildcard());
    let skills = vec![
        skill_of(&one, "a", "/reg/a/SKILL.md"),
        skill_of(&other, "b", "/reg/b/SKILL.md"),
        skill_of(&rival, "c", "/reg/c/SKILL.md"),
    ];
    let alone = compile(std::slice::from_ref(&one), &skills, &no_config());
    let beside = compile(&[one.clone(), other], &skills, &no_config());
    assert_eq!(alone[0].dir_name, beside[0].dir_name);
    let suffix = hash_origin_key(&one.canonical.text());
    let against = compile(&[one, rival], &skills, &no_config());
    assert_eq!(against[0].dir_name, format!("pdf-tools-{suffix}"));
    assert_eq!(against[0].manifest.name, "pdf-tools");
}

/// Rivals are told apart already, so a third one moves neither.
#[test]
fn a_third_rival_moves_nobody() {
    let one = registry_plugin("pdf-tools", wildcard());
    let two = registry_plugin("pdf_tools", wildcard());
    let three = registry_plugin("PDF Tools", wildcard());
    let skills = vec![
        skill_of(&one, "a", "/reg/a/SKILL.md"),
        skill_of(&two, "b", "/reg/b/SKILL.md"),
        skill_of(&three, "c", "/reg/c/SKILL.md"),
    ];
    let pair = compile(&[one.clone(), two.clone()], &skills, &no_config());
    let trio = compile(&[one, three, two], &skills, &no_config());
    assert_eq!(pair[0], trio[0]);
    assert_eq!(pair[1], trio[2]);
}

/// The order plugins are compiled in decides the order of what comes out, and
/// nothing else.
#[test]
fn another_order_gives_the_same_directories() {
    let one = registry_plugin("pdf-tools", wildcard());
    let two = registry_plugin("pdf_tools", wildcard());
    let three = registry_plugin("csv-tools", wildcard());
    let skills = vec![
        skill_of(&one, "a", "/reg/a/SKILL.md"),
        skill_of(&two, "b", "/reg/b/SKILL.md"),
        skill_of(&three, "c", "/reg/c/SKILL.md"),
    ];
    let forth = compile(&[one.clone(), two.clone(), three.clone()], &skills, &no_config());
    let back = compile(&[three, one, two], &skills, &no_config());
    assert_eq!(back[0], forth[2]);
    assert_eq!(back[1], forth[0]);
    assert_eq!(back[2], forth[1]);
}

/// A directory of the user's own keeps its name.
#[test]
fn a_taken_name_is_left_to_whoever_has_it() {
    let plugin = registry_plugin("pdf-tools", wildcard());
    let skills = vec![skill_of(&plugin, "a", "/reg/a/SKILL.md")];
    let suffix = hash_origin_key(&plugin.canonical.text());
    let active = vec![plugin];
    let free = compile_beside(&active, &skills, &no_config(), &["other".to_string()]);
    assert_eq!(free, compile(&active, &skills, &no_config()));
    let taken = compile_beside(&active, &skills, &no_config(), &["pdf-tools".to_string()]);
    assert_eq!(taken[0].dir_name, format!("pdf-tools-{suffix}"));
    assert_eq!(taken[0].manifest.name, "pdf-tools");
}

/// A skill at the root of the file system has no directory to copy.
#[test]
fn a_skill_without_a_directory_is_left_out() {
    let plugin = registry_plugin("pdf-tools", wildcard());
    let rootless = skill_of(&plugin, "a", "/");
    let kept = skill_of(&plugin, "b", "/reg/b/SKILL.md");
    let compiled = compile_skills(&vec![&rootless, &kept]);
    assert_eq!(compiled.len(), 1);
    assert_eq!(compiled[0].dir_name, "b");
}

/// Skills are the same where they come from the same directory.
#[test]
fn how_a_directory_is_spelled_does_not_tell_skills_apart() {
    let skill = |dir_name: &str, source_dir: &str| CompiledSkill {
        dir_name: dir_name.to_string(),
        source_dir: source_dir.to_string(),
    };
    assert_eq!(skill("a", "/reg/a"), skill("a", "/reg//a/"));
    assert_ne!(skill("a", "/reg/a"), skill("a", "/reg/b"));
    assert_ne!(skill("a", "/reg/a"), skill("a/", "/reg/a"));
}

#[test]
fn scopes_have_names() {
    assert_eq!(Scope::Project.as_str(), "project");
    assert_eq!(Scope::Global.as_str(), "global");
}

#[test]
fn staging_directories_are_apart() {
    assert_eq!(PROJECT_OWNED_DIR, ".symposium");
    assert_eq!(PROJECT_STAGING_SUBDIR, "plugins");
    assert_eq!(GLOBAL_STAGING_DIR, "installed");
}

// ── predicates and names ─────────────────────────────────────────────

#[test]
fn a_gate_needs_a_crate_name() {
    assert_eq!(
        PredicateSet::from_depends_on(""),
        Err("depends-on needs a crate name".to_string())
    );
}

/// Only `depends-on(*)` holds alike everywhere.
#[test]
fn every_other_predicate_looks_at_the_workspace() {
    for predicate in [
        Predicate::WorkspaceMember,
        Predicate::PathExists("/etc/hosts".into()),
        Predicate::Custom("check".into()),
        Predicate::DependsOn("**".into()),
    ] {
        let set = PredicateSet {
            predicates: vec![Predicate::DependsOn("*".into()), predicate],
        };
        assert!(!set.is_workspace_independent(), "{set:?}");
    }
}

#[test]
fn names_match_across_hyphens_and_underscores() {
    assert!(same_name("a-b_c", "a_b-c"));
    assert!(!same_name("a-b", "ab"));
    assert!(!same_name("a-b", "a.b"));
}

#[test]
fn package_identities_are_told_apart() {
    let one = PackageId::new("cargo", "widget", "1.0.0");
    assert!(one.is(&PackageId::new("cargo", "widget", "1.0.0")));
    assert!(!one.is(&PackageId::new("cargo", "widget", "1.0.1")));
    assert_eq!(one.text(), "cargo:widget@1.0.0");
}

/// The published test vectors of the 32-bit FNV-1a hash.
#[test]
fn origin_hashes_are_fnv() {
    assert_eq!(hash_origin_key(""), "811c9dc5");
    assert_eq!(hash_origin_key("a"), "e40c292c");
    assert_eq!(hash_origin_key("foobar"), "bf9cf968");
}

// ── cleanup ──────────────────────────────────────────────────────────

#[test]
fn only_marked_directories_not_written_are_reaped() {
    let written = vec!["/staging/kept".to_string()];
    assert!(!reaps("/staging/kept", true, true, &written));
    assert!(!reaps("/staging//kept/", true, true, &written));
    assert!(reaps("/staging/stale", true, true, &written));
    assert!(!reaps("/staging/user-authored", true, false, &written));
    assert!(!reaps("/staging/file", false, true, &written));
}
