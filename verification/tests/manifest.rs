//! Agent plugin manifests and the names they carry.

use symposium::agent_plugin::manifest::{
    is_valid_name, slug, GeminiExtension, Manifest, Marketplace, MarketplaceEntry, MAX_NAME_LEN,
    SCHEMA_URL,
};
use symposium::json_text::ended;

#[test]
fn slug_normalizes_symposium_names() {
    assert_eq!(slug("pdf-tools").as_deref(), Some("pdf-tools"));
    assert_eq!(slug("my_crate").as_deref(), Some("my-crate"));
    assert_eq!(slug("Serde Guidance").as_deref(), Some("serde-guidance"));
    assert_eq!(
        slug("dev.symposium.tools").as_deref(),
        Some("dev.symposium.tools")
    );
    assert_eq!(
        slug("-leading-and-trailing-").as_deref(),
        Some("leading-and-trailing")
    );
    assert_eq!(slug("_"), None);
    assert_eq!(slug(""), None);
}

#[test]
fn slug_output_is_always_a_valid_name() {
    for name in [
        "pdf-tools",
        "my_crate",
        "Serde Guidance",
        "-leading-",
        "UPPER",
        "a",
        &"x".repeat(200),
        &format!("{}_", "y".repeat(70)),
    ] {
        let slugged = slug(name).expect("slug");
        assert!(
            is_valid_name(&slugged),
            "slug({name:?}) produced invalid name {slugged:?}"
        );
    }
}

#[test]
fn name_grammar_rejects_what_the_format_rejects() {
    assert!(is_valid_name("a"));
    assert!(is_valid_name("pdf-tools"));
    assert!(is_valid_name("a.b-c9"));
    assert!(!is_valid_name(""));
    assert!(!is_valid_name("-lead"));
    assert!(!is_valid_name("trail-"));
    assert!(!is_valid_name("Upper"));
    assert!(!is_valid_name("has space"));
    assert!(!is_valid_name("under_score"));
    assert!(!is_valid_name(&"x".repeat(MAX_NAME_LEN + 1)));
}

#[test]
fn the_gemini_manifest_carries_only_its_own_fields() {
    let json: serde_json::Value = serde_json::from_str(
        &GeminiExtension::new("pdf-tools".into(), "1.2.0".into()).to_json(),
    )
    .expect("json");
    assert_eq!(json["name"], "pdf-tools");
    assert_eq!(json["version"], "1.2.0");
    assert!(json.get("$schema").is_none(), "gemini has its own manifest");
}

#[test]
fn marketplace_indexes_each_plugin_by_relative_path() {
    let market = Marketplace::new(
        "symposium".into(),
        vec![MarketplaceEntry {
            name: "pdf-tools".into(),
            source: "./pdf-tools".into(),
            description: Some("Table extraction guidance".into()),
        }],
    );
    let json: serde_json::Value = serde_json::from_str(&market.to_json()).expect("json");
    assert_eq!(json["name"], "symposium");
    assert_eq!(json["owner"]["name"], "symposium");
    assert_eq!(json["plugins"][0]["name"], "pdf-tools");
    assert_eq!(json["plugins"][0]["source"], "./pdf-tools");
    assert_eq!(
        json["plugins"][0]["description"],
        "Table extraction guidance"
    );
}

#[test]
fn manifest_omits_absent_optional_fields() {
    let bare = Manifest::new("pdf-tools".into(), "0.0.0".into(), None).to_json();
    assert!(bare.contains(SCHEMA_URL));
    assert!(!bare.contains("description"));

    let full = Manifest::new("pdf-tools".into(), "1.2.0".into(), Some("d".into()));
    let json: serde_json::Value = serde_json::from_str(&full.to_json()).expect("json");
    assert_eq!(json["$schema"], SCHEMA_URL);
    assert_eq!(json["name"], "pdf-tools");
    assert_eq!(json["version"], "1.2.0");
    assert_eq!(json["description"], "d");
}

/// The fields stand in the order they are declared in, and the file ends in a
/// line break.
#[test]
fn documents_are_laid_out_in_declared_order() {
    let manifest = Manifest::new("pdf-tools".into(), "1.2.0".into(), Some("a \"d\"".into()));
    assert_eq!(
        manifest.to_json(),
        "{\n  \"$schema\": \"https://agent-plugins.org/schemas/1.0.0/plugin.schema.json\",\n  \"name\": \"pdf-tools\",\n  \"version\": \"1.2.0\",\n  \"description\": \"a \\\"d\\\"\"\n}\n"
    );
    assert_eq!(
        GeminiExtension::new("a".into(), "1".into()).to_json(),
        "{\n  \"name\": \"a\",\n  \"version\": \"1\"\n}\n"
    );
    let market = Marketplace::new(
        "m".into(),
        vec![
            MarketplaceEntry {
                name: "b".into(),
                source: "./b".into(),
                description: None,
            },
            MarketplaceEntry {
                name: "a".into(),
                source: "./a".into(),
                description: Some("d".into()),
            },
        ],
    );
    assert_eq!(
        market.to_json(),
        "{\n  \"name\": \"m\",\n  \"owner\": {\n    \"name\": \"symposium\"\n  },\n  \"plugins\": [\n    {\n      \"name\": \"b\",\n      \"source\": \"./b\"\n    },\n    {\n      \"name\": \"a\",\n      \"source\": \"./a\",\n      \"description\": \"d\"\n    }\n  ]\n}\n"
    );
}

#[test]
fn an_empty_marketplace_lists_no_plugins() {
    let json: serde_json::Value =
        serde_json::from_str(&Marketplace::new("m".into(), vec![]).to_json()).expect("json");
    assert_eq!(json["plugins"].as_array().map(|p| p.len()), Some(0));
}

#[test]
fn a_file_ends_in_a_line_break() {
    assert_eq!(ended("{}".to_string()), "{}\n");
    assert_eq!(ended(String::new()), "\n");
}

#[test]
fn a_valid_name_is_its_own_slug() {
    for name in ["a", "a.b-c9", "0", &"x".repeat(64)] {
        assert!(is_valid_name(name));
        assert_eq!(slug(name).as_deref(), Some(name));
    }
}

/// Cutting a long name can leave a character behind that no name ends with.
#[test]
fn a_long_name_is_cut_and_trimmed_again() {
    let name = format!("{}--{}", "a".repeat(63), "b".repeat(10));
    assert_eq!(slug(&name), Some("a".repeat(63)));
    assert_eq!(slug(&"A".repeat(65)), Some("a".repeat(64)));
}

#[test]
fn nothing_survives_without_letters_or_digits() {
    assert_eq!(slug("..--..").as_deref(), None);
    assert_eq!(slug("日本").as_deref(), None);
    assert_eq!(slug("日本9").as_deref(), Some("9"));
    assert_eq!(slug("É.a").as_deref(), Some("a"));
}
