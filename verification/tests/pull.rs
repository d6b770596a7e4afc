use evemoddl::models::{DependencyEntry, ModEntry, ModInfo, ModState};
use evemoddl::pull::{pull_action, pull_targets, record_pull, FetchSource, PullAction};
use evemoddl::table::ModTable;

fn dep(name: &str) -> DependencyEntry {
    DependencyEntry {
        name: name.to_string(),
        version: "1.0.0".to_string(),
    }
}

fn info(version: &str, file_id: Option<u32>, hashes: &[&str]) -> ModInfo {
    ModInfo {
        version: version.to_string(),
        game_banana_id: 7,
        game_banana_file_id: file_id,
        xxhash: hashes.iter().map(|h| h.to_string()).collect(),
    }
}

fn state_entry(version: &str, is_explicit: bool, loaded: bool) -> ModState {
    ModState {
        version: version.to_string(),
        is_explicit,
        loaded,
    }
}

fn sample_graph() -> ModTable<ModEntry> {
    let mut graph = ModTable::new();
    graph.insert(
        "App".to_string(),
        ModEntry {
            dependencies: vec![dep("Lib"), dep("Everest")],
            optional_dependencies: vec![dep("Extra")],
            url: String::new(),
        },
    );
    graph
}

#[test]
fn targets_include_recorded_explicit_mods_and_dependencies() {
    let mut state = ModTable::new();
    state.insert("Old".to_string(), state_entry("1", true, false));
    state.insert("OldDep".to_string(), state_entry("1", false, false));

    let targets = pull_targets(&state, &sample_graph(), &["App".to_string()]);

    assert_eq!(targets, ["App", "Lib", "Old"]);
}

#[test]
fn unknown_mods_are_not_listed() {
    let state = ModTable::new();
    let updates: ModTable<ModInfo> = ModTable::new();

    assert!(matches!(
        pull_action(&state, &sample_graph(), &updates, &[], "App"),
        PullAction::NotListed
    ));
}

#[test]
fn up_to_date_requested_mods_become_explicit() {
    let mut state = ModTable::new();
    state.insert("Lib".to_string(), state_entry("2.0", false, true));
    let mut updates = ModTable::new();
    updates.insert("Lib".to_string(), info("2.0", Some(1), &["h"]));

    match pull_action(&state, &sample_graph(), &updates, &["Lib".to_string()], "Lib") {
        PullAction::UpToDate { version, mark_explicit } => {
            assert_eq!(version, "2.0");
            assert!(mark_explicit);
        }
        _ => panic!("expected up to date"),
    }
    match pull_action(&state, &sample_graph(), &updates, &[], "Lib") {
        PullAction::UpToDate { mark_explicit, .. } => assert!(!mark_explicit),
        _ => panic!("expected up to date"),
    }
}

#[test]
fn outdated_mods_are_fetched_from_the_listed_file() {
    let mut state = ModTable::new();
    state.insert("App".to_string(), state_entry("1.0", true, true));
    let mut updates = ModTable::new();
    updates.insert("App".to_string(), info("1.1", Some(42), &["abc", "def"]));

    match pull_action(&state, &sample_graph(), &updates, &[], "App") {
        PullAction::Fetch {
            current_version,
            version,
            optional_dependencies,
            source: FetchSource::Download { file_id, hashes },
        } => {
            assert_eq!(current_version, Some("1.0".to_string()));
            assert_eq!(version, "1.1");
            assert_eq!(optional_dependencies, ["Extra"]);
            assert_eq!(file_id, 42);
            assert_eq!(hashes, ["abc", "def"]);
        }
        _ => panic!("expected a download"),
    }
}

#[test]
fn fetch_needs_file_id_and_hashes() {
    let state = ModTable::new();
    let mut updates = ModTable::new();
    updates.insert("NoFile".to_string(), info("1", None, &["h"]));
    updates.insert("NoHash".to_string(), info("1", Some(3), &[]));

    assert!(matches!(
        pull_action(&state, &sample_graph(), &updates, &[], "NoFile"),
        PullAction::Fetch { current_version: None, source: FetchSource::NoFileId, .. }
    ));
    assert!(matches!(
        pull_action(&state, &sample_graph(), &updates, &[], "NoHash"),
        PullAction::Fetch { source: FetchSource::NoHash, .. }
    ));
}

#[test]
fn recorded_pull_keeps_flags() {
    let mut state = ModTable::new();
    state.insert("A".to_string(), state_entry("1", true, true));

    record_pull(&mut state, "A", "2", &[]);
    record_pull(&mut state, "B", "5", &["B".to_string()]);
    record_pull(&mut state, "C", "6", &[]);

    let a = state.get("A").unwrap();
    assert_eq!(a.version, "2");
    assert!(a.is_explicit && a.loaded);
    let b = state.get("B").unwrap();
    assert!(b.is_explicit && !b.loaded);
    let c = state.get("C").unwrap();
    assert!(!c.is_explicit && !c.loaded);
}
