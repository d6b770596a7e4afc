use evemoddl::models::ModInfo;
use evemoddl::search::{has_substring, search_mods, SearchOutcome};
use evemoddl::table::ModTable;

fn info(version: &str, id: u32) -> ModInfo {
    ModInfo {
        version: version.to_string(),
        game_banana_id: id,
        game_banana_file_id: None,
        xxhash: Vec::new(),
    }
}

fn update_list(names: &[&str]) -> ModTable<ModInfo> {
    let mut t = ModTable::new();
    for (i, name) in names.iter().enumerate() {
        t.insert(name.to_string(), info("1.0", i as u32));
    }
    t
}

#[test]
fn substring_search() {
    assert!(has_substring("SpringCollab", "Collab"));
    assert!(has_substring("abc", ""));
    assert!(!has_substring("ab", "abc"));
    assert!(!has_substring("abc", "ac"));
}

#[test]
fn search_matches_ignore_case() {
    let list = update_list(&["SpringCollab2020", "ÄrgerMod", "Other"]);

    match search_mods(&list, "COLLAB") {
        SearchOutcome::Matches(hits) => {
            assert_eq!(hits.len(), 1);
            assert_eq!(hits[0].mod_id, "SpringCollab2020");
            assert_eq!(hits[0].version, "1.0");
            assert_eq!(hits[0].game_banana_id, 0);
        }
        _ => panic!("expected matches"),
    }
    match search_mods(&list, "ärger") {
        SearchOutcome::Matches(hits) => assert_eq!(hits[0].mod_id, "ÄrgerMod"),
        _ => panic!("expected matches"),
    }
}

#[test]
fn suggestions_rank_by_similarity() {
    let list = update_list(&["kitten", "sitting", "mitten", "written", "zzzzzzzzzz"]);

    match search_mods(&list, "sittign") {
        SearchOutcome::Suggestions(names) => {
            assert_eq!(names, ["sitting", "kitten", "mitten"]);
        }
        _ => panic!("expected suggestions"),
    }
}

#[test]
fn fewer_than_three_mods_are_all_suggested() {
    let list = update_list(&["abc"]);

    match search_mods(&list, "xyz") {
        SearchOutcome::Suggestions(names) => assert_eq!(names, ["abc"]),
        _ => panic!("expected suggestions"),
    }
}
