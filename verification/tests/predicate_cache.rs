//! Watch sets and fingerprints.

use symposium::predicate::CustomPredicateEvent;
use symposium::predicate_cache::{
    CacheTtl, FileFingerprint, FileStatus, Fingerprints, Modified, WatchSet,
};

#[test]
fn watch_time_zero_produces_never_ttl() {
    let events = vec![
        CustomPredicateEvent::WatchTime(60_000),
        CustomPredicateEvent::WatchTime(0),
    ];
    let set = WatchSet::from_events(&events);
    assert_eq!(set.cache_ttl, CacheTtl::Never);
}

fn file(path: &str) -> CustomPredicateEvent {
    CustomPredicateEvent::WatchFile(path.to_string())
}

fn env(name: &str) -> CustomPredicateEvent {
    CustomPredicateEvent::WatchEnv(name.to_string())
}

#[test]
fn no_events_watch_nothing() {
    assert_eq!(WatchSet::from_events(&[]), WatchSet::default());
    assert_eq!(
        WatchSet::from_events(&[CustomPredicateEvent::Other]),
        WatchSet::default()
    );
    assert_eq!(WatchSet::default().cache_ttl, CacheTtl::Forever);
}

#[test]
fn the_shortest_time_wins() {
    let set = WatchSet::from_events(&[
        CustomPredicateEvent::WatchTime(500),
        CustomPredicateEvent::WatchTime(20),
        CustomPredicateEvent::WatchTime(300),
    ]);
    assert_eq!(set.cache_ttl, CacheTtl::For(20));
}

/// Zero wins wherever it stands.
#[test]
fn no_later_time_brings_caching_back() {
    let set = WatchSet::from_events(&[
        CustomPredicateEvent::WatchTime(0),
        CustomPredicateEvent::WatchTime(20),
    ]);
    assert_eq!(set.cache_ttl, CacheTtl::Never);
}

#[test]
fn inputs_are_united_in_order() {
    let set = WatchSet::from_events(&[
        file("b/c"),
        env("PATH"),
        file("a"),
        env("HOME"),
        file("b"),
        file("a"),
        env("PATH"),
    ]);
    assert_eq!(set.files, vec!["a", "b", "b/c"]);
    assert_eq!(set.env, vec!["HOME", "PATH"]);
}

/// The same paths as a standard set of paths keeps, in the same order.
#[test]
fn files_are_kept_as_a_set_of_paths() {
    let paths = [
        "a/b", "a-b", "a//b", "a/./b", "/a", "./a", "../a", "a", "a/", "", ".", "/", "A", "é",
    ];
    let set = WatchSet::from_events(&paths.iter().map(|p| file(p)).collect::<Vec<_>>());
    let mut expected = std::collections::BTreeSet::new();
    for path in paths {
        expected.insert(std::path::PathBuf::from(path));
    }
    let expected: Vec<String> = expected
        .iter()
        .map(|p| p.to_str().expect("utf-8").to_string())
        .collect();
    assert_eq!(set.files, expected);
}

#[test]
fn event_order_does_not_matter() {
    let mut events = vec![
        file("b"),
        env("X"),
        CustomPredicateEvent::WatchTime(7),
        file("a"),
        CustomPredicateEvent::WatchTime(9),
    ];
    let one = WatchSet::from_events(&events);
    events.reverse();
    assert_eq!(WatchSet::from_events(&events), one);
}

/// Sets are equal where they watch the same files, as paths are.
#[test]
fn how_a_path_is_spelled_does_not_tell_sets_apart() {
    let plain = WatchSet::from_events(&[file("a/b"), env("X")]);
    let spelled = WatchSet::from_events(&[file("a//b/"), env("X")]);
    assert_eq!(plain, spelled);
    assert_eq!(std::path::PathBuf::from("a/b"), std::path::PathBuf::from("a//b/"));
    assert!(plain.matches(&spelled));
    assert_ne!(plain, WatchSet::from_events(&[file("a/c"), env("X")]));
    assert_ne!(plain, WatchSet::from_events(&[file("a/b"), env("Y")]));
    assert_ne!(
        plain,
        WatchSet::from_events(&[file("a/b"), env("X"), CustomPredicateEvent::WatchTime(1)])
    );
    let seen = vec![FileFingerprint::of(None)];
    let one = Fingerprints::capture(&plain, &seen, &vec![None]);
    let other = Fingerprints::capture(&spelled, &seen, &vec![None]);
    assert_eq!(one, other);
    assert_eq!(one.files[0].0, "a/b");
    assert_eq!(other.files[0].0, "a//b/", "a path is kept as it was given");
}

// -- fingerprints --

fn status(size: u64, secs: u64) -> FileStatus {
    FileStatus {
        size,
        modified: Some(Modified::SinceEpoch { secs, nanos: 5 }),
    }
}

#[test]
fn a_fingerprint_is_a_time_and_a_size() {
    let seen = FileFingerprint::of(Some(status(4, 2)));
    assert_eq!(seen.size, Some(4));
    assert_eq!(seen.mtime_ns, Some(2_000_000_005));
    let before = FileFingerprint::of(Some(FileStatus {
        size: 0,
        modified: Some(Modified::BeforeEpoch { secs: 1, nanos: 1 }),
    }));
    assert_eq!(before.mtime_ns, Some(-1_000_000_001));
    let timeless = FileFingerprint::of(Some(FileStatus {
        size: 3,
        modified: None,
    }));
    assert_eq!(timeless, FileFingerprint::default());
    assert_eq!(FileFingerprint::of(None), FileFingerprint::default());
    assert_eq!(
        FileFingerprint::of(Some(status(0, u64::MAX))).mtime_ns,
        Some(i128::from(u64::MAX) * 1_000_000_000 + 5)
    );
}

#[test]
fn a_snapshot_changes_with_what_is_seen() {
    let set = WatchSet::from_events(&[file("a"), env("X")]);
    let absent = Fingerprints::capture(&set, &vec![FileFingerprint::of(None)], &vec![None]);
    let small = Fingerprints::capture(
        &set,
        &vec![FileFingerprint::of(Some(status(4, 2)))],
        &vec![None],
    );
    let grown = Fingerprints::capture(
        &set,
        &vec![FileFingerprint::of(Some(status(8, 2)))],
        &vec![None],
    );
    let named = Fingerprints::capture(
        &set,
        &vec![FileFingerprint::of(Some(status(8, 2)))],
        &vec![Some("v".to_string())],
    );
    let emptied = Fingerprints::capture(
        &set,
        &vec![FileFingerprint::of(Some(status(8, 2)))],
        &vec![Some(String::new())],
    );
    let all = [&absent, &small, &grown, &named, &emptied];
    for (i, one) in all.iter().enumerate() {
        for (j, other) in all.iter().enumerate() {
            assert_eq!(one.matches(other), i == j, "{one:?} {other:?}");
        }
    }
    assert_eq!(named.files[0].0, "a");
    assert_eq!(named.env[0], ("X".to_string(), Some("v".to_string())));
}
