use stork_asset::paths::has_yaml_extension;

#[test]
fn yaml_and_yml_extensions_are_accepted() {
    assert!(has_yaml_extension("config.yaml"));
    assert!(has_yaml_extension("config.yml"));
    assert!(has_yaml_extension("dir/sub/config.yaml"));
}

#[test]
fn extension_check_ignores_case() {
    assert!(has_yaml_extension("config.YAML"));
    assert!(has_yaml_extension("config.Yml"));
}

#[test]
fn other_extensions_are_rejected() {
    assert!(!has_yaml_extension("config.txt"));
    assert!(!has_yaml_extension("config.yaml.bak"));
    assert!(!has_yaml_extension("configyaml"));
    assert!(!has_yaml_extension(""));
}
