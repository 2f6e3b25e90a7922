use virtree::{ParseError, PathError, VfsParser};

fn root_children(parser: &VfsParser) -> Vec<String> {
    parser.tree.children_of(&Vec::new()).unwrap()
}

fn children_at(parser: &VfsParser, path: &[&str]) -> Option<Vec<String>> {
    let segs: Vec<String> = path.iter().map(|s| s.to_string()).collect();
    parser.tree.children_of(&segs)
}

#[test]
fn test_parse_singulars() {
    let mut parser = VfsParser::new();
    for x in ["foo", "bar", "abc"] {
        parser.parse_item(x.to_string()).unwrap();
    }

    for name in root_children(&parser) {
        let path = format!("/{}", name);
        assert!(["/foo", "/bar", "/abc"].contains(&path.as_str()));
    }
}

#[test]
fn test_parse_subdirs() {
    let mut parser = VfsParser::new();
    for x in ["foo", "foo/bar", "foo/abc", "foo/bar/xyz"] {
        parser.parse_item(x.to_string()).unwrap();
    }

    for name in root_children(&parser) {
        let path = format!("/{}", name);
        assert!(["/foo", "/foo/bar", "/foo/abc", "/foo/bar/xyz"].contains(&path.as_str()));
    }
}

#[test]
fn test_multidirs() {
    let mut parser = VfsParser::new();
    for x in ["foo/a,b,c", "foo/a/x,y"] {
        parser.parse_item(x.to_string()).unwrap();
    }

    for name in root_children(&parser) {
        let path = format!("/{}", name);
        assert!(
            ["/foo", "/foo/a", "/foo/b", "/foo/c", "/foo/a/x", "/foo/a/y"]
                .contains(&path.as_str())
        );
    }
}

#[test]
fn single_name_creates_one_root_child() {
    let mut parser = VfsParser::new();
    parser.parse_item("hello".to_string()).unwrap();
    assert_eq!(root_children(&parser), vec!["hello".to_string()]);
    assert_eq!(children_at(&parser, &["hello"]), Some(Vec::new()));
}

#[test]
fn shared_parent_with_two_tokens() {
    let mut parser = VfsParser::new();
    parser.parse_item("foo/bar,abc".to_string()).unwrap();
    parser.parse_item("foo/bar/xyz".to_string()).unwrap();

    assert_eq!(root_children(&parser), vec!["foo".to_string()]);
    assert_eq!(
        children_at(&parser, &["foo"]),
        Some(vec!["abc".to_string(), "bar".to_string()])
    );
    assert_eq!(children_at(&parser, &["foo", "abc"]), Some(Vec::new()));
    assert_eq!(
        children_at(&parser, &["foo", "bar"]),
        Some(vec!["xyz".to_string()])
    );
    assert_eq!(children_at(&parser, &["foo", "bar", "xyz"]), Some(Vec::new()));
    assert_eq!(children_at(&parser, &["nope"]), None);
}

#[test]
fn sibling_lists_at_two_depths() {
    let mut parser = VfsParser::new();
    parser.parse_item("foo/a,b,c".to_string()).unwrap();
    parser.parse_item("foo/a/x,y".to_string()).unwrap();

    assert_eq!(root_children(&parser), vec!["foo".to_string()]);
    assert_eq!(
        children_at(&parser, &["foo"]),
        Some(vec!["a".to_string(), "b".to_string(), "c".to_string()])
    );
    assert_eq!(
        children_at(&parser, &["foo", "a"]),
        Some(vec!["x".to_string(), "y".to_string()])
    );
    assert_eq!(children_at(&parser, &["foo", "b"]), Some(Vec::new()));
    assert_eq!(children_at(&parser, &["foo", "c"]), Some(Vec::new()));
}

#[test]
fn parse_item_is_idempotent() {
    let mut once = VfsParser::new();
    once.parse_item("foo/bar,baz".to_string()).unwrap();

    let mut twice = VfsParser::new();
    twice.parse_item("foo/bar,baz".to_string()).unwrap();
    twice.parse_item("foo/bar,baz".to_string()).unwrap();

    assert_eq!(once.render(), twice.render());
}

#[test]
fn trailing_separators_are_insignificant() {
    let mut bare = VfsParser::new();
    bare.parse_item("foo".to_string()).unwrap();

    let mut slashed = VfsParser::new();
    slashed.parse_item("foo/".to_string()).unwrap();

    let mut backslashed = VfsParser::new();
    backslashed.parse_item("foo\\".to_string()).unwrap();

    assert_eq!(bare.render(), slashed.render());
    assert_eq!(bare.render(), backslashed.render());
}

#[test]
fn token_of_only_separators_is_a_no_op() {
    let mut parser = VfsParser::new();
    parser.parse_item("///".to_string()).unwrap();
    assert_eq!(root_children(&parser), Vec::<String>::new());
    assert_eq!(parser.render(), vec![".".to_string()]);
}

#[test]
fn render_order_ignores_insertion_order() {
    let mut parser = VfsParser::new();
    for x in ["z", "a", "m"] {
        parser.parse_item(x.to_string()).unwrap();
    }
    assert_eq!(
        root_children(&parser),
        vec!["a".to_string(), "m".to_string(), "z".to_string()]
    );

    let mut other = VfsParser::new();
    for x in ["m", "z", "a"] {
        other.parse_item(x.to_string()).unwrap();
    }
    assert_eq!(parser.render(), other.render());
}

#[test]
fn render_draws_the_expected_diagram() {
    let mut parser = VfsParser::new();
    parser.parse_item("foo/bar,abc".to_string()).unwrap();
    parser.parse_item("foo/bar/xyz".to_string()).unwrap();

    let expected = vec![
        ".".to_string(),
        "└── foo".to_string(),
        "    ├── abc".to_string(),
        "    └── bar".to_string(),
        "        └── xyz".to_string(),
    ];
    assert_eq!(parser.render(), expected);
}

#[test]
fn render_marks_middle_and_last_siblings() {
    let mut parser = VfsParser::new();
    parser.parse_item("a/one".to_string()).unwrap();
    parser.parse_item("b".to_string()).unwrap();

    let expected = vec![
        ".".to_string(),
        "├── a".to_string(),
        "│   └── one".to_string(),
        "└── b".to_string(),
    ];
    assert_eq!(parser.render(), expected);
}

#[test]
fn trailing_comma_reports_empty_segment_and_keeps_earlier_siblings() {
    let mut parser = VfsParser::new();
    let err = parser.parse_item("foo/bar,".to_string()).unwrap_err();
    match err {
        ParseError::EmptySegment { input } => assert_eq!(input, "foo/bar,"),
        other => panic!("expected EmptySegment, got {:?}", other),
    }

    // partial application: foo/bar was inserted before the empty name failed
    assert_eq!(root_children(&parser), vec!["foo".to_string()]);
    assert_eq!(
        children_at(&parser, &["foo"]),
        Some(vec!["bar".to_string()])
    );
}

#[test]
fn empty_parent_segment_inserts_nothing() {
    let mut parser = VfsParser::new();
    let err = parser.parse_item("foo//bar".to_string()).unwrap_err();
    assert!(matches!(err, ParseError::EmptySegment { .. }));
    assert_eq!(root_children(&parser), Vec::<String>::new());
}

#[test]
fn reserved_name_reports_join_failure() {
    let mut parser = VfsParser::new();
    let err = parser.parse_item("foo/..".to_string()).unwrap_err();
    match err {
        ParseError::JoinFailed { input, .. } => assert_eq!(input, "foo/.."),
        other => panic!("expected JoinFailed, got {:?}", other),
    }
    // the valid parent was never created: nothing was inserted for this token
    assert_eq!(root_children(&parser), Vec::<String>::new());
}

#[test]
fn later_siblings_after_failure_are_not_inserted() {
    let mut parser = VfsParser::new();
    let err = parser.parse_item("foo/a,,c".to_string()).unwrap_err();
    assert!(matches!(err, ParseError::EmptySegment { .. }));
    assert_eq!(
        children_at(&parser, &["foo"]),
        Some(vec!["a".to_string()])
    );
}

#[test]
fn ensure_path_exists_rejects_segment_with_separator() {
    let mut parser = VfsParser::new();
    let err = parser
        .tree
        .ensure_path_exists(&vec!["a/b".to_string()])
        .unwrap_err();
    assert!(matches!(err, PathError::InvalidSegment));
    assert_eq!(root_children(&parser), Vec::<String>::new());
}

#[test]
fn ensure_path_exists_creates_all_ancestors() {
    let mut parser = VfsParser::new();
    parser
        .tree
        .ensure_path_exists(&vec!["a".to_string(), "b".to_string(), "c".to_string()])
        .unwrap();
    assert_eq!(root_children(&parser), vec!["a".to_string()]);
    assert_eq!(children_at(&parser, &["a"]), Some(vec!["b".to_string()]));
    assert_eq!(
        children_at(&parser, &["a", "b"]),
        Some(vec!["c".to_string()])
    );
}

#[test]
fn comma_list_without_separator_names_root_children() {
    let mut parser = VfsParser::new();
    parser.parse_item("a,b".to_string()).unwrap();
    assert_eq!(
        root_children(&parser),
        vec!["a".to_string(), "b".to_string()]
    );
}

#[test]
fn whitespace_is_part_of_the_name() {
    let mut parser = VfsParser::new();
    parser.parse_item("foo/ bar".to_string()).unwrap();
    assert_eq!(
        children_at(&parser, &["foo"]),
        Some(vec![" bar".to_string()])
    );
}
