use evemoddl::graph::sorted_closure;
use evemoddl::load::{is_pulled, missing_mods};
use evemoddl::models::{DependencyEntry, ModEntry, ModState};
use evemoddl::remove::{remove_explicit, remove_orphans, RemoveOutcome};
use evemoddl::state::{set_explicit, set_loaded};
use evemoddl::table::ModTable;

fn mod_entry(dependencies: &[&str]) -> ModEntry {
    ModEntry {
        dependencies: dependencies
            .iter()
            .map(|name| DependencyEntry {
                name: (*name).to_string(),
                version: "1.0.0".to_string(),
            })
            .collect(),
        optional_dependencies: Vec::new(),
        url: String::new(),
    }
}

fn graph_of(entries: &[(&str, &[&str])]) -> ModTable<ModEntry> {
    let mut graph = ModTable::new();
    for (name, deps) in entries {
        graph.insert(name.to_string(), mod_entry(deps));
    }
    graph
}

fn state_entry(loaded: bool, is_explicit: bool) -> ModState {
    ModState {
        version: "1.0.0".to_string(),
        is_explicit,
        loaded,
    }
}

#[test]
fn table_keeps_insertion_order_and_replaces_values() {
    let mut t: ModTable<u32> = ModTable::new();
    t.insert("b".to_string(), 1);
    t.insert("a".to_string(), 2);
    t.insert("b".to_string(), 3);

    assert_eq!(t.keys(), ["b", "a"]);
    assert_eq!(t.get("b"), Some(&3));
    assert_eq!(t.len(), 2);

    t.remove("b");
    assert_eq!(t.keys(), ["a"]);
    assert!(!t.contains_key("b"));
    t.remove("missing");
    assert_eq!(t.len(), 1);
}

#[test]
fn flags_are_updated_in_place() {
    let mut state = ModTable::new();
    state.insert("A".to_string(), state_entry(false, false));

    set_loaded(&mut state, "A", true);
    set_explicit(&mut state, "A", true);
    set_loaded(&mut state, "Missing", true);

    let a = state.get("A").unwrap();
    assert!(a.loaded && a.is_explicit);
    assert_eq!(a.version, "1.0.0");
    assert_eq!(state.len(), 1);
}

#[test]
fn pulled_needs_record_and_archive() {
    let mut state = ModTable::new();
    state.insert("A".to_string(), state_entry(false, true));

    assert!(is_pulled(&state, "A", true));
    assert!(!is_pulled(&state, "A", false));
    assert!(!is_pulled(&state, "B", true));
}

#[test]
fn missing_mods_keep_target_order() {
    let mut state = ModTable::new();
    state.insert("A".to_string(), state_entry(false, true));
    state.insert("B".to_string(), state_entry(false, false));

    let missing = missing_mods(
        &state,
        &["A".to_string(), "B".to_string(), "C".to_string()],
        &[true, false, true],
    );

    assert_eq!(missing, ["B", "C"]);
}

#[test]
fn load_targets_are_the_sorted_closure() {
    let graph = graph_of(&[("Root", &["Zed", "Everest", "Lib"]), ("Lib", &["Zed"])]);

    let targets = sorted_closure(vec!["Root".to_string()], &graph);

    assert_eq!(targets, ["Lib", "Root", "Zed"]);
}

#[test]
fn remove_explicit_reports_each_name() {
    let mut state = ModTable::new();
    state.insert("A".to_string(), state_entry(true, true));
    state.insert("Dep".to_string(), state_entry(true, false));

    let outcomes = remove_explicit(
        &mut state,
        &["A".to_string(), "Dep".to_string(), "A".to_string(), "Ghost".to_string()],
    );

    assert_eq!(
        outcomes,
        vec![
            RemoveOutcome::Removed { was_loaded: true },
            RemoveOutcome::Dependency,
            RemoveOutcome::NotInstalled,
            RemoveOutcome::NotInstalled,
        ]
    );
    assert!(!state.contains_key("A"));
    assert!(state.contains_key("Dep"));
}

#[test]
fn orphans_are_the_mods_no_explicit_mod_needs() {
    let graph = graph_of(&[("Keep", &["Shared"]), ("Gone", &["Shared", "OnlyGone"])]);
    let mut state = ModTable::new();
    state.insert("Keep".to_string(), state_entry(false, true));
    state.insert("Shared".to_string(), state_entry(true, false));
    state.insert("OnlyGone".to_string(), state_entry(true, false));
    state.insert("Loose".to_string(), state_entry(false, false));

    let orphans = remove_orphans(&mut state, &graph);

    assert_eq!(
        orphans,
        vec![("OnlyGone".to_string(), true), ("Loose".to_string(), false)]
    );
    assert_eq!(state.keys(), ["Keep", "Shared"]);
}

#[test]
fn second_orphan_pass_removes_nothing() {
    let graph = graph_of(&[("Root", &["Dep"]), ("Dep", &[]), ("Old", &["OldDep"])]);
    let mut state = ModTable::new();
    state.insert("Root".to_string(), state_entry(true, true));
    state.insert("Dep".to_string(), state_entry(true, false));
    state.insert("Old".to_string(), state_entry(false, false));
    state.insert("OldDep".to_string(), state_entry(true, false));

    let first = remove_orphans(&mut state, &graph);
    assert_eq!(first.len(), 2);
    let second = remove_orphans(&mut state, &graph);
    assert!(second.is_empty());
    assert_eq!(state.keys(), ["Root", "Dep"]);
}
