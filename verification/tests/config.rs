use evemoddl::config::{config_field_line, print_config, select_mirror, Config, ConfigField};
use evemoddl::order::{sorted_strings, str_le};

fn empty_config() -> Config {
    Config {
        mods_dir: None,
        update_mirror: None,
        gamebanana_mirror: None,
    }
}

#[test]
fn get_after_set_and_unset() {
    let mut config = empty_config();
    ConfigField::UpdateMirror.set(&mut config, "https://m".to_string());

    assert_eq!(ConfigField::UpdateMirror.get(&config), Some("https://m".to_string()));
    assert_eq!(ConfigField::ModsDir.get(&config), None);

    ConfigField::UpdateMirror.unset(&mut config);
    assert_eq!(ConfigField::UpdateMirror.get(&config), None);
}

#[test]
fn field_lines_quote_values() {
    let mut config = empty_config();
    ConfigField::ModsDir.set(&mut config, "/games/say \"hi\"".to_string());

    assert_eq!(
        config_field_line(&config, ConfigField::ModsDir),
        "mods_dir = \"/games/say \\\"hi\\\"\""
    );
    assert_eq!(
        print_config(&config),
        vec![
            "mods_dir = \"/games/say \\\"hi\\\"\"".to_string(),
            "update_mirror = None".to_string(),
            "gamebanana_mirror = None".to_string(),
        ]
    );
    assert_eq!(ConfigField::GamebananaMirror.name(), "gamebanana_mirror");
}

#[test]
fn mirror_selection_prefers_command_line_then_environment_then_config() {
    let d = "https://default/";
    assert_eq!(select_mirror(Some("a".into()), Some("b".into()), Some("c".into()), d), "a");
    assert_eq!(select_mirror(None, Some("b".into()), Some("c".into()), d), "b");
    assert_eq!(select_mirror(None, None, Some("c".into()), d), "c");
    assert_eq!(select_mirror(None, None, None, d), d);
}

#[test]
fn strings_sort_like_rust_strings() {
    let v = vec!["b".to_string(), "B".to_string(), "ab".to_string(), "a".to_string(), "é".to_string()];
    let mut expected = v.clone();
    expected.sort();

    assert_eq!(sorted_strings(&v), expected);
    assert!(str_le("a", "ab"));
    assert!(!str_le("b", "ab"));
    assert!(str_le("", ""));
}
