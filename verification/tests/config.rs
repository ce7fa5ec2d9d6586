use goto::config::{expand_home_path, IgnoreConfig, IgnoreSection};

fn strings(v: &[&str]) -> Vec<String> {
    v.iter().map(|s| s.to_string()).collect()
}

/// Reads the `[ignore]` section of a TOML text the way the application does.
fn section_from_toml(text: &str) -> IgnoreSection {
    let table: toml::Table = toml::from_str(text).expect("parses TOML");
    let ignore = table.get("ignore").and_then(|v| v.as_table());
    let list = |key: &str| {
        ignore.and_then(|t| t.get(key)).and_then(|v| v.as_array()).map(|a| {
            a.iter().map(|x| x.as_str().expect("string").to_string()).collect::<Vec<String>>()
        })
    };
    IgnoreSection {
        use_defaults: ignore.and_then(|t| t.get("use_defaults")).and_then(|v| v.as_bool()),
        names: list("names"),
        paths: list("paths"),
    }
}

#[test]
fn default_rules_ignore_common_large_or_generated_paths() {
    let cfg = IgnoreConfig::from_section(None, None);

    assert!(cfg.is_ignored("/project/__pycache__"));
    assert!(cfg.is_ignored("/project/target"));
    assert!(!cfg.is_ignored("/tmp/something"));
    assert!(!cfg.is_ignored("/project/src"));
}

#[test]
fn file_rules_extend_default_ignores() {
    let section =
        section_from_toml("[ignore]\nnames = [\"vendor\"]\npaths = [\"/opt/big-monorepo\"]\n");
    let cfg = IgnoreConfig::from_section(Some(&section), None);

    assert!(cfg.is_ignored("/code/vendor"));
    assert!(cfg.is_ignored("/opt/big-monorepo/app"));
    assert!(cfg.is_ignored("/project/node_modules"));
}

#[test]
fn file_rules_can_disable_defaults() {
    let section =
        section_from_toml("[ignore]\nuse_defaults = false\npaths = [\"/var/tmp/custom\"]\n");
    let cfg = IgnoreConfig::from_section(Some(&section), None);

    assert!(!cfg.is_ignored("/project/node_modules"));
    assert!(cfg.is_ignored("/var/tmp/custom/service"));
}

#[test]
fn names_are_matched_without_case() {
    let section = IgnoreSection { use_defaults: Some(false), names: Some(strings(&["Vendor"])), paths: None };
    let cfg = IgnoreConfig::from_section(Some(&section), None);
    assert!(cfg.matches_name("VENDOR"));
    assert!(cfg.matches_name("vendor"));
    assert!(!cfg.matches_name("vendors"));
    assert!(cfg.is_ignored("/x/VeNdOr"));
}

#[test]
fn home_prefix_is_expanded() {
    assert_eq!(expand_home_path("~/Downloads", Some("/home/u")), "/home/u/Downloads");
    assert_eq!(expand_home_path("~/Downloads", None), "~/Downloads");
    assert_eq!(expand_home_path("/opt/x", Some("/home/u")), "/opt/x");
    assert_eq!(expand_home_path("~user/x", Some("/home/u")), "~user/x");
    let section = IgnoreSection { use_defaults: None, names: None, paths: Some(strings(&["~/Downloads"])) };
    let cfg = IgnoreConfig::from_section(Some(&section), Some("/home/u"));
    assert!(cfg.matches_path_prefix("/home/u/Downloads/big"));
    assert!(!cfg.matches_path_prefix("/home/u/Down"));
    assert!(cfg.is_ignored("/x/.git"));
}

#[test]
fn loading_without_a_file_gives_defaults() {
    let cfg = IgnoreConfig::load_from_section(None);
    assert!(cfg.is_ignored("/a/node_modules"));
    assert!(!cfg.matches_path_prefix("/a"));
}

#[test]
fn membership_follows_the_section() {
    let section = IgnoreSection {
        use_defaults: None,
        names: Some(strings(&["Third_Party"])),
        paths: Some(strings(&["~/Downloads", "/mnt/huge"])),
    };
    let cfg = IgnoreConfig::from_section(Some(&section), Some("/home/u"));
    assert!(cfg.matches_name("third_party"));
    assert!(cfg.matches_name("node_modules"));
    assert!(!cfg.matches_name("src"));
    assert!(cfg.matches_path_prefix("/home/u/Downloads/x"));
    assert!(cfg.matches_path_prefix("/mnt/huge"));
    assert!(!cfg.matches_path_prefix("/mnt/huge2"));
    let off = IgnoreSection { use_defaults: Some(false), names: None, paths: None };
    let cfg = IgnoreConfig::from_section(Some(&off), None);
    assert!(!cfg.matches_name("node_modules"));
    assert!(!cfg.matches_path_prefix("/"));
}
