use goto::config::IgnoreConfig;
use goto::workspace::{check_new_workspace, is_root_path, should_descend, WorkspaceRejection};

#[test]
fn rejects_root_workspace_without_force() {
    let rules = IgnoreConfig::defaults();
    let result = check_new_workspace("/", false, &rules, "/");

    assert!(result.is_err(), "root workspace should be rejected without force");
}

#[test]
fn workspace_admission_rules() {
    let rules = IgnoreConfig::defaults();
    assert_eq!(check_new_workspace("//", false, &rules, "/"), Err(WorkspaceRejection::RootWithoutForce));
    assert_eq!(check_new_workspace("/", true, &rules, "/"), Ok(()));
    assert_eq!(
        check_new_workspace("/p/node_modules", false, &rules, "/p/node_modules"),
        Err(WorkspaceRejection::Ignored)
    );
    assert_eq!(check_new_workspace("/p/node_modules", true, &rules, "/p/node_modules"), Ok(()));
    assert_eq!(check_new_workspace("/home/me/code", false, &rules, "/home/me/code"), Ok(()));
    assert!(is_root_path("/"));
    assert!(!is_root_path("/a"));
}

#[test]
fn index_skips_generated_and_hidden_directories() {
    assert!(should_descend(".git", 0));
    assert!(!should_descend(".git", 1));
    assert!(!should_descend("node_modules", 2));
    assert!(!should_descend("target", 1));
    assert!(!should_descend("build", 1));
    assert!(!should_descend(".config", 1));
    assert!(should_descend("src", 1));
    assert!(should_descend("dist", 1));
}
