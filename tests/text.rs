use file_chest::{split_commas, split_tags, trim, FileRef, OpenType, Query};

#[test]
fn tags_split_trim_and_keep_case() {
    assert_eq!(split_tags(" foo , BAR "), vec!["foo", "BAR"]);
}

#[test]
fn empty_pieces_are_dropped() {
    assert!(split_tags("").is_empty());
    assert_eq!(split_tags("a,,b,"), vec!["a", "b"]);
    assert!(split_tags(" , ,").is_empty());
}

#[test]
fn comma_pieces_keep_empties() {
    assert_eq!(split_commas(""), vec![""]);
    assert_eq!(split_commas("a,"), vec!["a", ""]);
    assert_eq!(split_commas(",x , y"), vec!["", "x ", " y"]);
}

#[test]
fn trim_matches_std() {
    for s in ["", "   ", " a ", "\t\na b\r\n", "\u{3000}wide\u{2003}", "\u{85}x\u{a0}", "é ", " x\u{200b}"] {
        assert_eq!(trim(s), s.trim());
    }
}

#[test]
fn queries_route_by_sigil() {
    match Query::parse("tag: holiday ") {
        Query::Tag(t) => assert_eq!(t, "holiday"),
        other => panic!("expected a tag query, got {:?}", other),
    }
    match Query::parse("/home/user") {
        Query::Path(p) => assert_eq!(p, "/home/user"),
        other => panic!("expected a path, got {:?}", other),
    }
    match Query::parse("tag:") {
        Query::Path(p) => assert_eq!(p, "tag:"),
        other => panic!("expected a path, got {:?}", other),
    }
    match Query::parse("Tag:x") {
        Query::Path(p) => assert_eq!(p, "Tag:x"),
        other => panic!("expected a path, got {:?}", other),
    }
}

#[test]
fn file_refs_compare_by_identity() {
    let a = FileRef::new("/old".to_string(), 5);
    let b = FileRef::new("/new".to_string(), 5);
    let c = FileRef::new("/old".to_string(), 6);
    assert!(a.same_entry(&b));
    assert!(!a.same_entry(&c));
}

#[test]
fn open_targets() {
    let f = FileRef::new("/home/u/docs/a.txt".to_string(), 1);
    assert_eq!(OpenType::OpenFile.target(&f), Some("/home/u/docs/a.txt".to_string()));
    assert_eq!(OpenType::OpenParent.target(&f), Some("/home/u/docs".to_string()));
    let root = FileRef::new("/".to_string(), 2);
    assert_eq!(OpenType::OpenParent.target(&root), None);
}
