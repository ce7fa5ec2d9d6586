use goto::models::{Directory, ProjectType, QueryMapping, Tag, VisitEvent};
use goto::project_detect::{detect_project_type, ProjectMarkers};
use goto::search::{has_project_bonus, picker_candidates, search_candidates, split_tag_query};

fn dir(id: u64, path: &str) -> Directory {
    Directory {
        id,
        path: path.to_string(),
        name: path.rsplit('/').next().unwrap_or("/").to_string(),
        depth: path.split('/').count(),
        last_seen: 0,
        project_type: ProjectType::Unknown,
    }
}

#[test]
fn tag_queries_are_split() {
    assert_eq!(split_tag_query("my-project"), (None, "my-project".to_string()));
    assert_eq!(split_tag_query("@infra"), (Some("infra".to_string()), String::new()));
    assert_eq!(split_tag_query("@infra  web  "), (Some("infra".to_string()), "web".to_string()));
    assert_eq!(split_tag_query("@@x y"), (Some("x".to_string()), "y".to_string()));
    assert_eq!(split_tag_query("@ web"), (None, "web".to_string()));
    assert_eq!(split_tag_query(" @x"), (None, " @x".to_string()));
}

#[test]
fn search_keeps_matching_directories_with_features() {
    let dirs = vec![dir(1, "/code/web"), dir(2, "/code/api"), dir(3, "/other/web")];
    let visits = vec![
        VisitEvent { path_id: 1, timestamp: 10 },
        VisitEvent { path_id: 1, timestamp: 30 },
        VisitEvent { path_id: 3, timestamp: 20 },
        VisitEvent { path_id: 1, timestamp: 5 },
    ];
    let mappings = vec![
        QueryMapping { query: "web".to_string(), path_id: 3, count: 4 },
        QueryMapping { query: "api".to_string(), path_id: 2, count: 7 },
    ];
    let tags: Vec<Tag> = vec![];
    let f = search_candidates(&dirs, &visits, &mappings, &tags, "web");
    assert_eq!(f.max_visit_count, 3);
    assert_eq!(f.max_learned_count, 7);
    assert_eq!(f.candidates.len(), 2);
    let c0 = &f.candidates[0];
    assert_eq!((c0.dir_index, c0.visit_count, c0.last_visit, c0.learned_count, c0.is_tag_match), (0, 3, Some(30), None, false));
    let c1 = &f.candidates[1];
    assert_eq!((c1.dir_index, c1.visit_count, c1.last_visit, c1.learned_count), (2, 1, Some(20), Some(4)));
}

#[test]
fn empty_history_scales_by_one() {
    let dirs = vec![dir(1, "/a")];
    let f = search_candidates(&dirs, &vec![], &vec![], &vec![], "");
    assert_eq!(f.max_visit_count, 1);
    assert_eq!(f.max_learned_count, 1);
    assert_eq!(f.candidates.len(), 1);
    assert_eq!(f.candidates[0].visit_count, 0);
    assert_eq!(f.candidates[0].last_visit, None);
}

#[test]
fn tag_search_keeps_only_tagged_directories() {
    let dirs = vec![dir(1, "/code/infra"), dir(2, "/code/infra-web"), dir(3, "/ops/web")];
    let tags = vec![
        Tag { name: "infra".to_string(), path_id: 2 },
        Tag { name: "infra".to_string(), path_id: 3 },
        Tag { name: "other".to_string(), path_id: 1 },
    ];
    let f = search_candidates(&dirs, &vec![], &vec![], &tags, "@infra");
    let kept: Vec<usize> = f.candidates.iter().map(|c| c.dir_index).collect();
    assert_eq!(kept, vec![1, 2]);
    assert!(f.candidates.iter().all(|c| c.is_tag_match));

    let f = search_candidates(&dirs, &vec![], &vec![], &tags, "@infra ops");
    let kept: Vec<usize> = f.candidates.iter().map(|c| c.dir_index).collect();
    assert_eq!(kept, vec![2]);
}

#[test]
fn picker_matches_the_whole_query() {
    let dirs = vec![dir(1, "/code/infra"), dir(2, "/@infra/x")];
    let tags = vec![Tag { name: "infra".to_string(), path_id: 1 }];
    let f = picker_candidates(&dirs, &vec![], &vec![], &tags, "@infra");
    let kept: Vec<usize> = f.candidates.iter().map(|c| c.dir_index).collect();
    assert_eq!(kept, vec![1]);
    assert!(!f.candidates[0].is_tag_match);
}

#[test]
fn project_bonus_and_detection() {
    assert!(!has_project_bonus(ProjectType::Unknown));
    assert!(has_project_bonus(ProjectType::Docker));
    let none = ProjectMarkers { git: false, cargo_toml: false, package_json: false, pyproject_toml: false, requirements_txt: false, dockerfile: false };
    assert_eq!(detect_project_type(&none), ProjectType::Unknown);
    let both = ProjectMarkers { git: true, cargo_toml: true, ..none };
    assert_eq!(detect_project_type(&both), ProjectType::Git);
    let py = ProjectMarkers { requirements_txt: true, dockerfile: true, ..none };
    assert_eq!(detect_project_type(&py), ProjectType::Python);
    let dk = ProjectMarkers { dockerfile: true, ..none };
    assert_eq!(detect_project_type(&dk), ProjectType::Docker);
    let node = ProjectMarkers { package_json: true, pyproject_toml: true, ..none };
    assert_eq!(detect_project_type(&node), ProjectType::Node);
}

#[test]
fn searching_twice_gives_the_same_features() {
    let dirs = vec![dir(1, "/code/web"), dir(2, "/code/api"), dir(3, "/web")];
    let visits = vec![VisitEvent { path_id: 3, timestamp: 4 }, VisitEvent { path_id: 1, timestamp: 9 }];
    let mappings = vec![QueryMapping { query: "web".to_string(), path_id: 1, count: 2 }];
    let tags = vec![Tag { name: "w".to_string(), path_id: 3 }];
    let view = |f: &goto::search::SearchFeatures| {
        let cs: Vec<(usize, u64, Option<i128>, Option<u64>, bool)> = f
            .candidates
            .iter()
            .map(|c| (c.dir_index, c.visit_count, c.last_visit, c.learned_count, c.is_tag_match))
            .collect();
        (cs, f.max_visit_count, f.max_learned_count)
    };
    for q in ["web", "@w", "", "code"] {
        let a = search_candidates(&dirs, &visits, &mappings, &tags, q);
        let b = search_candidates(&dirs, &visits, &mappings, &tags, q);
        assert_eq!(view(&a), view(&b));
    }
}

#[test]
fn tag_queries_with_any_tag_name_split_the_same_way() {
    for t in ["infra", "a", "web-1"] {
        assert_eq!(split_tag_query(&format!("@{t}")), (Some(t.to_string()), String::new()));
        assert_eq!(split_tag_query(&format!("@{t}\t  rest of it ")), (Some(t.to_string()), "rest of it".to_string()));
    }
    let dirs = vec![dir(1, "/code/infrastructure"), dir(2, "/other")];
    let tags = vec![Tag { name: "infra".to_string(), path_id: 1 }];
    let f = search_candidates(&dirs, &vec![], &vec![], &tags, "@infra");
    let kept: Vec<usize> = f.candidates.iter().map(|c| c.dir_index).collect();
    assert_eq!(kept, vec![0]);
}
