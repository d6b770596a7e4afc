use evemoddl::graph::collect_needed_mods;
use evemoddl::models::{DependencyEntry, ModEntry, ModState};
use evemoddl::table::ModTable;
use evemoddl::unload::{unload_from_state, unload_requests, UnloadError, UnloadSkip};

fn mod_entry(dependencies: &[&str]) -> ModEntry {
    ModEntry {
        dependencies: dependencies
            .iter()
            .map(|name| DependencyEntry {
                name: (*name).to_string(),
                version: "1.0.0".to_string(),
            })
            .collect(),
        optional_dependencies: Vec::new(),
        url: String::new(),
    }
}

fn graph_of(entries: &[(&str, &[&str])]) -> ModTable<ModEntry> {
    let mut graph = ModTable::new();
    for (name, deps) in entries {
        graph.insert(name.to_string(), mod_entry(deps));
    }
    graph
}

fn state_entry(loaded: bool, is_explicit: bool) -> ModState {
    ModState {
        version: "1.0.0".to_string(),
        is_explicit,
        loaded,
    }
}

fn has(v: &[String], name: &str) -> bool {
    v.iter().any(|s| s == name)
}

#[test]
fn keeps_transitive_dependencies_for_remaining_loaded_explicit_mods() {
    let graph = graph_of(&[
        ("A", &["Shared", "OnlyA"]),
        ("B", &["Shared", "OnlyB"]),
        ("Shared", &[]),
        ("OnlyA", &[]),
        ("OnlyB", &[]),
    ]);

    let needed = collect_needed_mods(vec!["B".to_string()], &graph);

    assert!(has(&needed, "B"));
    assert!(has(&needed, "Shared"));
    assert!(has(&needed, "OnlyB"));
    assert!(!has(&needed, "A"));
    assert!(!has(&needed, "OnlyA"));
}

#[test]
fn skips_core_mod_dependencies() {
    let graph = graph_of(&[("A", &["Celeste", "Everest", "EverestCore", "RealDep"])]);

    let needed = collect_needed_mods(vec!["A".to_string()], &graph);

    assert!(has(&needed, "A"));
    assert!(has(&needed, "RealDep"));
    assert!(!has(&needed, "Celeste"));
    assert!(!has(&needed, "Everest"));
    assert!(!has(&needed, "EverestCore"));
}

#[test]
fn closure_follows_long_chains_and_cycles_once() {
    let graph = graph_of(&[("A", &["B"]), ("B", &["C"]), ("C", &["A", "D"])]);

    let mut needed = collect_needed_mods(vec!["A".to_string(), "A".to_string()], &graph);
    needed.sort();

    assert_eq!(needed, ["A", "B", "C", "D"]);
}

#[test]
fn unload_requests_sort_names_with_reasons() {
    let mut state = ModTable::new();
    state.insert("Exp".to_string(), state_entry(true, true));
    state.insert("Dep".to_string(), state_entry(true, false));
    state.insert("Idle".to_string(), state_entry(false, true));

    let req = unload_requests(
        &state,
        &[
            "Dep".to_string(),
            "Exp".to_string(),
            "Idle".to_string(),
            "Ghost".to_string(),
            "Exp".to_string(),
        ],
    )
    .ok()
    .unwrap();

    assert_eq!(req.accepted, ["Exp"]);
    assert_eq!(
        req.skipped,
        vec![
            ("Dep".to_string(), UnloadSkip::Dependency),
            ("Idle".to_string(), UnloadSkip::NotLoaded),
            ("Ghost".to_string(), UnloadSkip::NotInstalled),
        ]
    );
}

#[test]
fn unload_request_without_names_is_an_error() {
    let state: ModTable<ModState> = ModTable::new();

    assert!(matches!(unload_requests(&state, &[]), Err(UnloadError::NoModIds)));
}

#[test]
fn unload_keeps_what_remaining_explicit_mods_need() {
    let graph = graph_of(&[
        ("A", &["Shared", "OnlyA"]),
        ("B", &["Shared", "OnlyB"]),
    ]);
    let mut state = ModTable::new();
    for name in ["A", "B"] {
        state.insert(name.to_string(), state_entry(true, true));
    }
    for name in ["Shared", "OnlyA", "OnlyB"] {
        state.insert(name.to_string(), state_entry(true, false));
    }

    let unloaded = unload_from_state(&mut state, &graph, &["A".to_string()]).unwrap();

    assert_eq!(unloaded, ["A", "OnlyA"]);
    assert!(!state.get("A").unwrap().loaded);
    assert!(!state.get("OnlyA").unwrap().loaded);
    assert!(state.get("B").unwrap().loaded);
    assert!(state.get("Shared").unwrap().loaded);
    assert!(state.get("OnlyB").unwrap().loaded);
}

#[test]
fn unload_also_drops_stray_loaded_dependencies() {
    let graph = graph_of(&[("A", &[])]);
    let mut state = ModTable::new();
    state.insert("A".to_string(), state_entry(true, true));
    state.insert("Stray".to_string(), state_entry(true, false));

    let unloaded = unload_from_state(&mut state, &graph, &["A".to_string()]).unwrap();

    assert_eq!(unloaded, ["A", "Stray"]);
}

#[test]
fn unload_twice_with_same_request_unloads_nothing_more() {
    let graph = graph_of(&[("A", &["Shared"]), ("B", &["Shared", "OnlyB"])]);
    let mut state = ModTable::new();
    state.insert("A".to_string(), state_entry(true, true));
    state.insert("B".to_string(), state_entry(true, true));
    state.insert("Shared".to_string(), state_entry(true, false));
    state.insert("OnlyB".to_string(), state_entry(true, false));

    let first = unload_from_state(&mut state, &graph, &["B".to_string()]).unwrap();
    assert_eq!(first, ["B", "OnlyB"]);
    let second = unload_from_state(&mut state, &graph, &["B".to_string()]).unwrap();
    assert!(second.is_empty());
    assert!(state.get("Shared").unwrap().loaded);
    assert!(state.get("A").unwrap().loaded);
}

#[test]
fn unload_of_empty_request_is_an_error() {
    let graph = graph_of(&[("A", &[])]);
    let mut state = ModTable::new();
    state.insert("A".to_string(), state_entry(true, true));

    let result = unload_from_state(&mut state, &graph, &[]);

    assert!(matches!(result, Err(UnloadError::NoModIds)));
    assert!(state.get("A").unwrap().loaded);
}

#[test]
fn unload_naming_only_a_dependency_changes_nothing() {
    let graph = graph_of(&[("A", &[])]);
    let mut state = ModTable::new();
    state.insert("Dep".to_string(), state_entry(true, false));
    state.insert("Stray".to_string(), state_entry(true, false));

    let unloaded = unload_from_state(&mut state, &graph, &["Dep".to_string()]).unwrap();

    assert!(unloaded.is_empty());
    assert!(state.get("Dep").unwrap().loaded);
    assert!(state.get("Stray").unwrap().loaded);
}
