use crev_repo::config::{
    is_prunable, prune_directory_source_replacements, ConfigTable, ConfigValue, Definition,
};

fn table(entries: Vec<(&str, ConfigValue)>) -> ConfigTable {
    let mut table = ConfigTable::new();
    for (key, value) in entries {
        table.insert(key.to_string(), value);
    }
    table
}

fn text(value: &str) -> ConfigValue {
    ConfigValue::String(value.to_string(), Definition::Cli)
}

fn table_value(entries: Vec<(&str, ConfigValue)>) -> ConfigValue {
    ConfigValue::Table(table(entries), Definition::Cli)
}

fn replaced_with(name: &str) -> ConfigValue {
    table_value(vec![("replace-with", text(name))])
}

fn directory(path: &str) -> ConfigValue {
    table_value(vec![("directory", text(path))])
}

fn registry(path: &str) -> ConfigValue {
    table_value(vec![("registry", text(path))])
}

fn source_names(config: &ConfigTable) -> Vec<String> {
    match config.get("source") {
        Some(ConfigValue::Table(sources, _)) => {
            let mut names = Vec::new();
            for name in ["a", "b", "c", "d", "e"] {
                if sources.get(name).is_some() {
                    names.push(name.to_string());
                }
            }
            names
        }
        _ => panic!("no sources"),
    }
}

fn pruned(sources: Vec<(&str, ConfigValue)>) -> Vec<String> {
    let mut config = table(vec![("source", table_value(sources))]);
    assert!(is_prunable(&config));
    prune_directory_source_replacements(&mut config).unwrap();
    source_names(&config)
}

#[test]
fn test_prune_directory_source_replacement() {
    let source_table = table_value(vec![
        ("crates-io", replaced_with("my-vendor-source")),
        ("my-vendor-source", directory("vendor")),
        ("another-source", registry("path/to/registry")),
    ]);
    let mut config_table = table(vec![("source", source_table)]);

    let expected_source_table = table_value(vec![("another-source", registry("path/to/registry"))]);
    let expected_config_table = table(vec![("source", expected_source_table)]);

    prune_directory_source_replacements(&mut config_table).unwrap();
    assert_eq!(config_table, expected_config_table);
}

#[test]
fn test_prune_directory_source_replacement_nested() {
    let source_table = table_value(vec![
        ("crates-io", replaced_with("my-vendor-source")),
        ("my-vendor-source", replaced_with("nested-vendor-source")),
        ("nested-vendor-source", directory("vendor")),
        ("another-source", registry("path/to/registry")),
    ]);
    let mut config_table = table(vec![("source", source_table)]);

    let expected_source_table = table_value(vec![("another-source", registry("path/to/registry"))]);
    let expected_config_table = table(vec![("source", expected_source_table)]);

    prune_directory_source_replacements(&mut config_table).unwrap();
    assert_eq!(config_table, expected_config_table);
}

#[test]
fn pruning_keeps_a_replacement_that_is_no_directory() {
    let kept = pruned(vec![("a", replaced_with("b")), ("b", registry("r")), ("c", directory("v"))]);
    assert_eq!(kept, vec!["a", "b"]);
}

#[test]
fn pruning_follows_every_source_that_ends_in_the_same_directory() {
    let kept = pruned(vec![
        ("a", replaced_with("c")),
        ("b", replaced_with("c")),
        ("c", directory("v")),
        ("d", registry("r")),
        ("e", replaced_with("a")),
    ]);
    assert_eq!(kept, vec!["d"]);
}

#[test]
fn pruning_removes_a_directory_that_is_itself_replaced() {
    let both = || table_value(vec![("directory", text("v")), ("replace-with", text("b"))]);
    let kept = pruned(vec![("a", both()), ("b", registry("r")), ("c", replaced_with("a"))]);
    assert_eq!(kept, vec!["b"]);

    let mut config = table(vec![(
        "source",
        table_value(vec![("a", both()), ("b", registry("r"))]),
    )]);
    prune_directory_source_replacements(&mut config).unwrap();
    assert_eq!(config, table(vec![("source", table_value(vec![("b", registry("r"))]))]));
}

#[test]
fn pruning_removes_a_circle_that_holds_a_directory() {
    let both = table_value(vec![("directory", text("v")), ("replace-with", text("b"))]);
    let kept = pruned(vec![("a", both), ("b", replaced_with("a")), ("c", registry("r"))]);
    assert_eq!(kept, vec!["c"]);
}

#[test]
fn pruning_keeps_a_circle_of_replacements() {
    let kept = pruned(vec![("a", replaced_with("b")), ("b", replaced_with("a"))]);
    assert_eq!(kept, vec!["a", "b"]);
}

#[test]
fn pruning_goes_by_texts_only() {
    let kept = pruned(vec![
        ("a", table_value(vec![("directory", ConfigValue::Boolean(true, Definition::Cli))])),
        ("b", ConfigValue::Integer(3, Definition::Environment("B".to_string()))),
        ("c", table_value(vec![("replace-with", ConfigValue::List(vec![], Definition::Cli))])),
    ]);
    assert_eq!(kept, vec!["a", "b", "c"]);
}

#[test]
fn pruning_twice_changes_nothing_more() {
    let sources = || {
        table_value(vec![
            ("a", replaced_with("b")),
            ("b", directory("v")),
            ("c", replaced_with("d")),
            ("d", registry("r")),
        ])
    };
    let mut once = table(vec![("source", sources())]);
    prune_directory_source_replacements(&mut once).unwrap();
    let mut twice = table(vec![("source", sources())]);
    prune_directory_source_replacements(&mut twice).unwrap();
    assert!(is_prunable(&twice));
    prune_directory_source_replacements(&mut twice).unwrap();
    assert_eq!(once, twice);
    assert_eq!(source_names(&once), vec!["c", "d"]);
}

#[test]
fn pruning_leaves_the_rest_of_the_configuration() {
    let rest = || {
        (
            ConfigValue::Table(table(vec![("jobs", text("4"))]), Definition::Path("p".to_string())),
            ConfigValue::Boolean(true, Definition::Cli),
        )
    };
    let (build, offline) = rest();
    let mut config = table(vec![
        ("build", build),
        ("source", table_value(vec![("a", directory("v"))])),
        ("offline", offline),
    ]);
    prune_directory_source_replacements(&mut config).unwrap();
    let (build, offline) = rest();
    let expected =
        table(vec![("build", build), ("source", table_value(vec![])), ("offline", offline)]);
    assert_eq!(config, expected);
}

#[test]
fn a_configuration_without_a_source_table_stays() {
    let mut config = table(vec![("source", text("directory")), ("directory", text("v"))]);
    assert!(is_prunable(&config));
    prune_directory_source_replacements(&mut config).unwrap();
    assert_eq!(config, table(vec![("source", text("directory")), ("directory", text("v"))]));
    let mut empty = ConfigTable::new();
    prune_directory_source_replacements(&mut empty).unwrap();
    assert_eq!(empty, ConfigTable::new());
}

#[test]
fn a_replacement_that_is_not_defined_is_noticed() {
    let config = table(vec![("source", table_value(vec![("a", replaced_with("b"))]))]);
    assert!(!is_prunable(&config));
}

#[test]
fn inserting_keeps_the_place_of_a_key() {
    let mut config = table(vec![("a", text("1")), ("b", text("2"))]);
    config.insert("a".to_string(), text("3"));
    let entries = config.into_entries();
    assert_eq!(
        entries,
        vec![("a".to_string(), text("3")), ("b".to_string(), text("2"))]
    );
}

#[test]
fn tables_are_equal_in_whatever_order() {
    let ab = || table(vec![("a", text("1")), ("b", text("2"))]);
    assert_eq!(ab(), table(vec![("b", text("2")), ("a", text("1"))]));
    assert_ne!(ab(), table(vec![("a", text("1"))]));
    assert_ne!(table(vec![("a", text("1"))]), ab());
    assert_ne!(ab(), table(vec![("a", text("1")), ("b", text("3"))]));
    assert_ne!(ab(), table(vec![("a", text("1")), ("c", text("2"))]));
    let nested = |first: &str, second: &str| {
        table_value(vec![(first, registry(first)), (second, directory(second))])
    };
    assert_ne!(nested("a", "b"), nested("b", "a"));
    let turned = table_value(vec![("b", directory("b")), ("a", registry("a"))]);
    assert_eq!(nested("a", "b"), turned);
}

#[test]
fn definitions_are_equal_by_their_kind() {
    let path = |path: &str| Definition::Path(path.to_string());
    let environment = |name: &str| Definition::Environment(name.to_string());
    assert_eq!(path("a"), path("b"));
    assert_eq!(environment("a"), environment("b"));
    assert_eq!(Definition::Cli, Definition::Cli);
    assert_ne!(path("a"), environment("a"));
    assert_ne!(Definition::Cli, path("a"));
    assert_eq!(ConfigValue::Integer(1, path("a")), ConfigValue::Integer(1, path("b")));
    assert_ne!(ConfigValue::Integer(1, path("a")), ConfigValue::Integer(1, Definition::Cli));
    assert_ne!(ConfigValue::Integer(1, path("a")), ConfigValue::Integer(2, path("a")));
    let list = |item: &str, at: Definition| {
        ConfigValue::List(vec![(item.to_string(), at)], Definition::Cli)
    };
    assert_eq!(list("x", path("a")), list("x", path("b")));
    assert_ne!(list("x", path("a")), list("x", Definition::Cli));
    assert_ne!(list("x", path("a")), list("y", path("a")));
    assert_ne!(
        ConfigValue::Boolean(true, Definition::Cli),
        ConfigValue::Boolean(false, Definition::Cli)
    );
}
