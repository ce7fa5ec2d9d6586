use goto::paths::{
    component_count, directory_name, file_name, is_direct_path_query, normalize_path, path_join,
    path_starts_with, resolve_input_path_from_base,
};

#[test]
fn detects_relative_and_absolute_path_queries() {
    assert!(is_direct_path_query("./abc/x"));
    assert!(is_direct_path_query("..//abc/y"));
    assert!(is_direct_path_query("/tmp"));
    assert!(is_direct_path_query("."));
    assert!(is_direct_path_query(".."));
    assert!(!is_direct_path_query("my-project"));
    assert!(!is_direct_path_query("@infra"));
}

#[test]
fn resolves_parent_traversal_to_root_for_workspace_paths() {
    let resolved = resolve_input_path_from_base("/home/abc", "../../");
    assert_eq!(resolved, "/");
}

#[test]
fn normalizes_dots_and_parents() {
    assert_eq!(normalize_path("/a/./b/../c"), "/a/c");
    assert_eq!(normalize_path("/../.."), "/");
    assert_eq!(normalize_path("a/../.."), "..");
    assert_eq!(normalize_path("../.."), ".");
    assert_eq!(normalize_path(""), ".");
    assert_eq!(normalize_path("./"), ".");
    assert_eq!(normalize_path("//a//b/"), "/a/b");
}

#[test]
fn resolves_relative_and_absolute_inputs() {
    assert_eq!(resolve_input_path_from_base("/home/abc", "code"), "/home/abc/code");
    assert_eq!(resolve_input_path_from_base("/home/abc", "/opt/x/../y"), "/opt/y");
    assert_eq!(resolve_input_path_from_base("/home/abc/", "./p"), "/home/abc/p");
}

#[test]
fn joins_like_pathbuf_push() {
    assert_eq!(path_join("/home", "x"), "/home/x");
    assert_eq!(path_join("/home/", "x"), "/home/x");
    assert_eq!(path_join("", "x"), "x");
    assert_eq!(path_join("/home", "/etc"), "/etc");
}

#[test]
fn prefixes_compare_whole_components() {
    assert!(path_starts_with("/opt/big-monorepo/app", "/opt/big-monorepo"));
    assert!(!path_starts_with("/opt/big-monorepo2", "/opt/big-monorepo"));
    assert!(path_starts_with("/a/b/", "/a/b"));
    assert!(path_starts_with("/a/b", "/"));
    assert!(!path_starts_with("a/b", "/a"));
}

#[test]
fn names_and_depths() {
    assert_eq!(file_name("/a/b"), Some("b".to_string()));
    assert_eq!(file_name("/a/b/."), Some("b".to_string()));
    assert_eq!(file_name("/a/.."), None);
    assert_eq!(file_name("/"), None);
    assert_eq!(directory_name("/"), "/");
    assert_eq!(directory_name("/srv/www"), "www");
    assert_eq!(component_count("/srv/www"), 3);
    assert_eq!(component_count("./a"), 2);
    assert_eq!(component_count(""), 0);
}

#[test]
fn normalizing_twice_changes_nothing() {
    for p in ["/a/./b/../c", "a/../..", "../..", "../a/b/..", "", ".", "..", "//x//y/", "/..", "a/./b", "./../c/"] {
        let once = normalize_path(p);
        assert_eq!(normalize_path(&once), once);
    }
    assert_eq!(normalize_path("../a/b/.."), "../a");
}

#[test]
fn absolute_paths_normalize_to_names_only() {
    assert_eq!(normalize_path("/home/abc/../../"), "/");
    assert_eq!(normalize_path("/a/./b/../c"), "/a/c");
    assert_eq!(normalize_path("/.."), "/");
    for p in ["/x/../../y/./z/..", "/./.", "/a/b/c/../../.."] {
        let n = normalize_path(p);
        assert!(n.starts_with('/'));
        assert!(n.split('/').all(|part| part != "." && part != ".."));
    }
}
