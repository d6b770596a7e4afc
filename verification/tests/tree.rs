use evemoddl::models::{DependencyEntry, ModEntry, ModState};
use evemoddl::table::ModTable;
use evemoddl::tree::{filtered_dependencies, render_forest, render_tree, tree_roots, TreeFilter};

fn mod_entry(dependencies: &[&str]) -> ModEntry {
    ModEntry {
        dependencies: dependencies
            .iter()
            .map(|name| DependencyEntry {
                name: (*name).to_string(),
                version: "1.0.0".to_string(),
            })
            .collect(),
        optional_dependencies: Vec::new(),
        url: String::new(),
    }
}

fn graph_of(entries: &[(&str, &[&str])]) -> ModTable<ModEntry> {
    let mut graph = ModTable::new();
    for (name, deps) in entries {
        graph.insert(name.to_string(), mod_entry(deps));
    }
    graph
}

fn state_entry(loaded: bool, is_explicit: bool) -> ModState {
    ModState {
        version: "1.0.0".to_string(),
        is_explicit,
        loaded,
    }
}

#[test]
fn filters_core_dependencies() {
    let graph = graph_of(&[("Root", &["Celeste", "Everest", "EverestCore", "RealDep"])]);

    let dependencies = filtered_dependencies("Root", &graph, &TreeFilter::All);

    assert_eq!(dependencies, vec!["RealDep".to_string()]);
}

#[test]
fn filters_local_tree_by_loaded_state() {
    let graph = graph_of(&[("Root", &["LoadedDep", "UnloadedDep"])]);
    let mut state = ModTable::new();
    state.insert("LoadedDep".to_string(), state_entry(true, false));
    state.insert("UnloadedDep".to_string(), state_entry(false, false));

    let dependencies = filtered_dependencies(
        "Root",
        &graph,
        &TreeFilter::Recorded {
            state: &state,
            loaded_only: true,
        },
    );

    assert_eq!(dependencies, vec!["LoadedDep".to_string()]);
}

#[test]
fn dependencies_are_sorted_and_unknown_mods_have_none() {
    let graph = graph_of(&[("Root", &["Zeta", "Alpha", "Mid"])]);

    assert_eq!(
        filtered_dependencies("Root", &graph, &TreeFilter::All),
        vec!["Alpha".to_string(), "Mid".to_string(), "Zeta".to_string()]
    );
    assert!(filtered_dependencies("Nobody", &graph, &TreeFilter::All).is_empty());
}

#[test]
fn renders_branches_and_indentation() {
    let graph = graph_of(&[("Root", &["B", "A"]), ("A", &["C"]), ("B", &[])]);

    let lines = render_tree("Root", &graph, &TreeFilter::All);

    assert_eq!(
        lines,
        vec![
            "Root".to_string(),
            "├── A".to_string(),
            "│   └── C".to_string(),
            "└── B".to_string(),
        ]
    );
}

#[test]
fn marks_cycles_without_expanding_them() {
    let graph = graph_of(&[("A", &["B"]), ("B", &["A"])]);

    let lines = render_tree("A", &graph, &TreeFilter::All);

    assert_eq!(
        lines,
        vec![
            "A".to_string(),
            "└── B".to_string(),
            "    └── A (cycle)".to_string(),
        ]
    );
}

#[test]
fn forest_renders_each_root_in_turn() {
    let graph = graph_of(&[("A", &["C"]), ("B", &[])]);

    let lines = render_forest(&["A".to_string(), "B".to_string()], &graph, &TreeFilter::All);

    assert_eq!(
        lines,
        vec!["A".to_string(), "└── C".to_string(), "B".to_string()]
    );
}

#[test]
fn forest_roots_are_sorted_explicit_mods() {
    let mut state = ModTable::new();
    state.insert("Zed".to_string(), state_entry(true, true));
    state.insert("Dep".to_string(), state_entry(true, false));
    state.insert("Alpha".to_string(), state_entry(false, true));

    assert_eq!(tree_roots(&state, false), vec!["Alpha".to_string(), "Zed".to_string()]);
    assert_eq!(tree_roots(&state, true), vec!["Zed".to_string()]);
}
