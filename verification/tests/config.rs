use ikigai_core::config::{config_home_from, data_home_from, data_path_in, join_path, layered_paths_in};

#[test]
fn layering_orders_shared_before_the_app_override() {
    assert_eq!(
        layered_paths_in("/cfg/ikigai", "a11y.toml", Some("cms-web")),
        vec!["/cfg/ikigai/a11y.toml".to_string(), "/cfg/ikigai/cms-web.a11y.toml".to_string()]
    );
}

#[test]
fn no_app_yields_the_shared_file_alone() {
    assert_eq!(
        layered_paths_in("/cfg/ikigai", "llm.json", None),
        vec!["/cfg/ikigai/llm.json".to_string()]
    );
    assert_eq!(
        layered_paths_in("/cfg/ikigai", "llm.json", Some("")),
        layered_paths_in("/cfg/ikigai", "llm.json", None)
    );
}

#[test]
fn an_empty_stem_names_no_file() {
    assert!(layered_paths_in("/cfg/ikigai", "", Some("cms-web")).is_empty());
    // The ambient form roots the same rule at the config home of the environment.
    let home = config_home_from(None, Some("/home/b")).unwrap();
    assert!(layered_paths_in(&home, "", None).is_empty());
}

#[test]
fn a_stem_names_one_entry_in_the_data_home() {
    assert_eq!(
        data_path_in("/home/b/.ikigai", "cms-tags-approved.ttl"),
        Some("/home/b/.ikigai/cms-tags-approved.ttl".to_string())
    );
    assert_eq!(
        data_path_in("/home/b/.ikigai", "health/plasma.txt"),
        Some("/home/b/.ikigai/health/plasma.txt".to_string())
    );
}

#[test]
fn an_empty_stem_names_no_entry() {
    assert_eq!(data_path_in("/home/b/.ikigai", ""), None);
    let home = data_home_from(Some("/home/b")).unwrap();
    assert_eq!(data_path_in(&home, ""), None);
}

#[test]
fn the_data_home_is_dot_ikigai_under_home() {
    assert_eq!(data_home_from(Some("/home/b")), Some("/home/b/.ikigai".to_string()));
}

#[test]
fn an_unknown_or_empty_home_has_no_data_home() {
    assert_eq!(data_home_from(None), None);
    assert_eq!(data_home_from(Some("")), None);
}

#[test]
fn the_config_home_prefers_xdg_then_home() {
    assert_eq!(config_home_from(Some("/x"), Some("/home/b")), Some("/x/ikigai".to_string()));
    assert_eq!(config_home_from(Some(""), Some("/home/b")), Some("/home/b/.config/ikigai".to_string()));
    assert_eq!(config_home_from(None, None), None);
    assert_eq!(config_home_from(None, Some("")), None);
}

#[test]
fn joining_adds_exactly_one_separator() {
    assert_eq!(join_path("/a", "b"), "/a/b");
    assert_eq!(join_path("/a/", "b"), "/a/b");
}

#[test]
fn xdg_config_home_decides_the_config_home_when_set() {
    assert_eq!(config_home_from(Some("/xdg"), Some("/home/b")), Some("/xdg/ikigai".to_string()));
    assert_eq!(config_home_from(Some("/xdg"), None), Some("/xdg/ikigai".to_string()));
}

#[test]
fn an_unset_or_empty_xdg_falls_back_to_home_config() {
    assert_eq!(config_home_from(None, Some("/home/b")), Some("/home/b/.config/ikigai".to_string()));
    assert_eq!(config_home_from(Some(""), Some("/home/b")), Some("/home/b/.config/ikigai".to_string()));
}

#[test]
fn no_base_directory_at_all_is_none() {
    assert_eq!(config_home_from(None, None), None);
    assert_eq!(config_home_from(None, Some("")), None);
    assert_eq!(config_home_from(Some(""), Some("")), None);
}
