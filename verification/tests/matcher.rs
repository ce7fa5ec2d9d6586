use goto::matcher::match_path;

#[test]
fn test_ordered_matching() {
    assert!(match_path("/foo/bar", "fo ba"));
    assert!(!match_path("/bar/foo", "fo ba"));
}

#[test]
fn test_slash_matching() {
    assert!(match_path("/foo/bar", "fo / ba"));
    assert!(!match_path("/foobar", "fo / ba"));
}

#[test]
fn test_anchors() {
    assert!(match_path("/abc/foooooo/bbbbar", "^fo bar$"));
    assert!(!match_path("/foo/barrr", "^fo bar$"));
    assert!(match_path("/foo/bar", "^foo bar$"));
}

#[test]
fn test_case_insensitivity() {
    assert!(match_path("/FOO/BAR", "foo bar"));
}

#[test]
fn blank_query_matches_every_path() {
    assert!(match_path("/any/where", ""));
    assert!(match_path("/any/where", "   \t "));
    assert!(match_path("", ""));
}

#[test]
fn tokens_may_not_overlap() {
    assert!(match_path("/aaa", "aa a"));
    assert!(!match_path("/aa", "aa a"));
}

#[test]
fn exact_segment_anchor() {
    assert!(match_path("/home/web/app", "^web$"));
    assert!(!match_path("/home/website/app", "^web$"));
}

#[test]
fn end_anchor_moves_to_segment_end() {
    // After `rc$` matches `src`, the next token must come after that segment.
    assert!(match_path("/src/main", "rc$ main"));
    assert!(!match_path("/main/src", "rc$ main"));
}

#[test]
fn anchored_token_may_use_segment_around_position() {
    // The first token ends inside `foobar`; the anchored token still sees
    // that whole segment because it does not end before the position.
    assert!(match_path("/foobar", "foo ^foob"));
}

#[test]
fn lone_caret_matches_any_remaining_segment() {
    assert!(match_path("/a/b", "^"));
    assert!(match_path("/a/b", "$"));
}

#[test]
fn unicode_case_folding() {
    assert!(match_path("/Über/Straße", "über straße"));
}

#[test]
fn single_anchored_tokens_name_segments() {
    assert!(goto::matcher::match_path("/abc/Foo/bar", "^foo$"));
    assert!(!goto::matcher::match_path("/abc/foox/bar", "^foo$"));
    assert!(goto::matcher::match_path("/abc/foox/bar", "^foo"));
    assert!(!goto::matcher::match_path("/abc/xfoo/bar", "^foo"));
    assert!(goto::matcher::match_path("/abc/xfoo/bar", "foo$"));
    assert!(!goto::matcher::match_path("/abc/foox/bar", "foo$"));
}

#[test]
fn adding_words_never_turns_a_miss_into_a_match() {
    let paths = ["/code/web/app", "/srv/api", "/a/b/c"];
    let queries = ["web", "^code app$", "zz", "a c", "api"];
    let extra = ["app", "x", "^srv", "b"];
    for p in paths {
        for q in queries {
            for t in extra {
                let longer = format!("{q} {t}");
                if goto::matcher::match_path(p, &longer) {
                    assert!(goto::matcher::match_path(p, q));
                }
            }
        }
    }
    assert!(goto::matcher::match_path("/code/web/app", "web app"));
    assert!(!goto::matcher::match_path("/code/web/app", "web x"));
}
