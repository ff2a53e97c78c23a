use file_chest::{decode_tables, from_stored, to_stored, FileRef, NotesDB, SqlValue, StoreError};

fn fr(path: &str, inode: u64) -> FileRef {
    FileRef::new(path.to_string(), inode)
}

fn memory_db() -> NotesDB {
    NotesDB::build(":memory:").expect("in-memory database opens")
}

fn sorted(mut v: Vec<String>) -> Vec<String> {
    v.sort();
    v
}

#[test]
fn note_round_trip() {
    let mut db = memory_db();
    let f = fr("/home/u/a.txt", 42);
    db.set_note(&f, "remember this").unwrap();
    assert_eq!(db.get_note(&f).unwrap(), "remember this");
    assert_eq!(db.get_note_no_update(&f).unwrap(), "remember this");
}

#[test]
fn note_overwrite_and_repeat() {
    let mut db = memory_db();
    let f = fr("/a", 1);
    db.set_note(&f, "one").unwrap();
    db.set_note(&f, "two").unwrap();
    db.set_note(&f, "two").unwrap();
    assert_eq!(db.get_note(&f).unwrap(), "two");
}

#[test]
fn missing_note_is_not_found() {
    let mut db = memory_db();
    let f = fr("/nothing/here", 7);
    assert!(matches!(db.get_note(&f), Err(StoreError::NotFound)));
    // a record made by tagging has no note either
    db.add_tag(&f, "x").unwrap();
    assert!(matches!(db.get_note(&f), Err(StoreError::NotFound)));
}

#[test]
fn clearing_tags_leaves_none() {
    let mut db = memory_db();
    let f = fr("/a", 3);
    db.set_tags(&f, vec!["red", "blue"]).unwrap();
    assert_eq!(sorted(db.get_tags(&f).unwrap()), vec!["blue", "red"]);
    db.set_tags(&f, vec![]).unwrap();
    assert!(db.get_tags(&f).unwrap().is_empty());
    assert!(db.get_files_by_tag("red").unwrap().is_empty());
}

#[test]
fn set_tags_twice_is_set_tags_once() {
    let mut once = memory_db();
    let mut twice = memory_db();
    let f = fr("/a", 9);
    once.set_tags(&f, vec!["a", "b"]).unwrap();
    twice.set_tags(&f, vec!["a", "b"]).unwrap();
    twice.set_tags(&f, vec!["a", "b"]).unwrap();
    assert_eq!(sorted(once.get_tags(&f).unwrap()), sorted(twice.get_tags(&f).unwrap()));
    assert_eq!(twice.get_tags(&f).unwrap().len(), 2);
    assert_eq!(twice.get_files_by_tag("a").unwrap().len(), 1);
}

#[test]
fn set_tags_replaces_and_trims() {
    let mut db = memory_db();
    let f = fr("/a", 5);
    db.set_tags(&f, vec!["old"]).unwrap();
    db.set_tags(&f, vec!["  new ", "", "   ", "new"]).unwrap();
    assert_eq!(db.get_tags(&f).unwrap(), vec!["new".to_string()]);
    assert!(db.get_files_by_tag("old").unwrap().is_empty());
}

#[test]
fn reverse_lookup_inverts_tagging() {
    let mut db = memory_db();
    let a = fr("/a", 1);
    let b = fr("/b", 2);
    let c = fr("/c", 3);
    db.set_tags(&a, vec!["x", "y"]).unwrap();
    db.set_tags(&b, vec!["y"]).unwrap();
    db.set_note(&c, "untagged").unwrap();
    for file in [&a, &b, &c] {
        let tags = db.get_tags(file).unwrap();
        for t in ["x", "y", "z"] {
            let tagged = db.get_files_by_tag(t).unwrap();
            let listed = tagged.iter().any(|g| g.inode == file.inode);
            assert_eq!(tags.iter().any(|s| s == t), listed);
        }
    }
    let ys = db.get_files_by_tag("y").unwrap();
    let mut inodes: Vec<u64> = ys.iter().map(|g| g.inode).collect();
    inodes.sort();
    assert_eq!(inodes, vec![1, 2]);
}

#[test]
fn submitted_tags_are_trimmed_and_keep_case() {
    let mut db = memory_db();
    let f = fr("/a", 11);
    db.submit_tags(&f, " foo , BAR ").unwrap();
    assert_eq!(sorted(db.get_tags(&f).unwrap()), vec!["BAR", "foo"]);
    assert!(db.get_files_by_tag("bar").unwrap().is_empty());
    assert_eq!(db.get_files_by_tag("BAR").unwrap().len(), 1);
}

#[test]
fn trailing_comma_adds_no_empty_tag() {
    let mut db = memory_db();
    let f = fr("/a", 12);
    db.submit_tags(&f, "one,two,").unwrap();
    assert_eq!(sorted(db.get_tags(&f).unwrap()), vec!["one", "two"]);
    db.submit_tags(&f, "").unwrap();
    assert!(db.get_tags(&f).unwrap().is_empty());
}

#[test]
fn unknown_tag_lists_nothing() {
    let mut db = memory_db();
    db.set_tags(&fr("/a", 1), vec!["known"]).unwrap();
    let r = db.get_files_by_tag("nonexistent");
    assert!(r.unwrap().is_empty());
}

#[test]
fn rename_keeps_note_and_tags() {
    let mut db = memory_db();
    let before = fr("/dir/old_name.txt", 77);
    db.set_note(&before, "kept").unwrap();
    db.set_tags(&before, vec!["work"]).unwrap();
    let after = fr("/dir/new_name.txt", 77);
    assert_eq!(db.get_note(&after).unwrap(), "kept");
    assert_eq!(db.get_tags(&after).unwrap(), vec!["work".to_string()]);
    let found = db.get_files_by_tag("work").unwrap();
    assert_eq!(found.len(), 1);
    assert_eq!(found[0].file_path, "/dir/new_name.txt");
    assert_eq!(found[0].inode, 77);
}

#[test]
fn add_tag_makes_record_and_ignores_repeats() {
    let mut db = memory_db();
    let f = fr("/p", 4);
    db.add_tag(&f, "t").unwrap();
    db.add_tag(&f, "t").unwrap();
    assert_eq!(db.get_tags(&f).unwrap(), vec!["t".to_string()]);
    let found = db.get_files_by_tag("t").unwrap();
    assert_eq!(found.len(), 1);
    assert_eq!(found[0].file_path, "/p");
}

#[test]
fn add_file_keeps_existing_record() {
    let mut db = memory_db();
    let f = fr("/first", 8);
    db.set_note(&f, "n").unwrap();
    db.add_file(&fr("/second", 8)).unwrap();
    db.add_tag(&fr("/third", 8), "t").unwrap();
    let found = db.get_files_by_tag("t").unwrap();
    assert_eq!(found[0].file_path, "/first");
    assert_eq!(db.get_note_no_update(&f).unwrap(), "n");
}

#[test]
fn get_note_no_update_keeps_path() {
    let mut db = memory_db();
    db.set_note(&fr("/first", 8), "n").unwrap();
    db.add_tag(&fr("/first", 8), "t").unwrap();
    assert_eq!(db.get_note_no_update(&fr("/moved", 8)).unwrap(), "n");
    assert_eq!(db.get_files_by_tag("t").unwrap()[0].file_path, "/first");
}

#[test]
fn tables_are_read_back_on_opening() {
    let uri = "file:chest_reopen?mode=memory&cache=shared";
    let mut first = NotesDB::build(uri).unwrap();
    let f = fr("/kept/file", 1234);
    first.set_note(&f, "persisted").unwrap();
    first.set_tags(&f, vec!["alpha", "beta"]).unwrap();
    let big = fr("/big", u64::MAX);
    first.set_note(&big, "large inode").unwrap();
    let mut second = NotesDB::build(uri).unwrap();
    assert_eq!(second.get_note(&f).unwrap(), "persisted");
    assert_eq!(sorted(second.get_tags(&f).unwrap()), vec!["alpha", "beta"]);
    assert_eq!(second.get_note(&big).unwrap(), "large inode");
    let alpha = second.get_files_by_tag("alpha").unwrap();
    assert_eq!(alpha.len(), 1);
    assert_eq!(alpha[0].file_path, "/kept/file");
    assert_eq!(alpha[0].inode, 1234);
    drop(first);
}

#[test]
fn unopenable_path_is_a_database_error() {
    let r = NotesDB::build("/no/such/directory/anywhere/notes.db");
    assert!(matches!(r, Err(StoreError::Database(_))));
}

fn ival(n: i64) -> SqlValue {
    SqlValue::Integer(n)
}

fn text(s: &str) -> SqlValue {
    SqlValue::Text(s.as_bytes().to_vec())
}

#[test]
fn well_formed_tables_decode() {
    let files = vec![vec![ival(5), text("/a"), text("note")], vec![ival(6), text("/b"), SqlValue::Null]];
    let tags = vec![vec![ival(1), text("x")], vec![ival(2), text("y")]];
    let rels = vec![vec![ival(2), ival(5)], vec![ival(1), ival(6)]];
    let data = decode_tables(&files, &tags, &rels).unwrap();
    assert_eq!(data.note_of(5), Some("note".to_string()));
    assert_eq!(data.note_of(6), None);
    assert_eq!(data.tags_of(5), vec!["y".to_string()]);
    let xs = data.files_with_tag("x");
    assert_eq!(xs.len(), 1);
    assert_eq!(xs[0].inode, 6);
    assert_eq!(xs[0].file_path, "/b");
}

#[test]
fn malformed_tables_are_refused() {
    let ok_files = vec![vec![ival(5), text("/a"), SqlValue::Null]];
    let ok_tags = vec![vec![ival(1), text("x")]];
    let none: Vec<Vec<SqlValue>> = vec![];
    // a path of the wrong kind
    let bad_files = vec![vec![ival(5), SqlValue::Integer(3), SqlValue::Null]];
    assert!(matches!(decode_tables(&bad_files, &none, &none), Err(StoreError::Malformed)));
    // a note of the wrong kind
    let bad_note = vec![vec![ival(5), text("/a"), SqlValue::Blob(vec![1, 2])]];
    assert!(matches!(decode_tables(&bad_note, &none, &none), Err(StoreError::Malformed)));
    // a repeated identity
    let twice = vec![vec![ival(5), text("/a"), SqlValue::Null], vec![ival(5), text("/b"), SqlValue::Null]];
    assert!(matches!(decode_tables(&twice, &none, &none), Err(StoreError::Malformed)));
    // a repeated tag name
    let dup_tags = vec![vec![ival(1), text("x")], vec![ival(2), text("x")]];
    assert!(matches!(decode_tables(&ok_files, &dup_tags, &none), Err(StoreError::Malformed)));
    // an edge to an unknown tag id
    let dangling = vec![vec![ival(9), ival(5)]];
    assert!(matches!(decode_tables(&ok_files, &ok_tags, &dangling), Err(StoreError::Malformed)));
    // an edge to an identity without a record
    let orphan = vec![vec![ival(1), ival(6)]];
    assert!(matches!(decode_tables(&ok_files, &ok_tags, &orphan), Err(StoreError::Malformed)));
    // a column of the wrong kind
    let other = vec![vec![ival(1), SqlValue::Real]];
    assert!(matches!(decode_tables(&ok_files, &other, &none), Err(StoreError::Malformed)));
    assert!(decode_tables(&ok_files, &ok_tags, &vec![vec![ival(1), ival(5)]]).is_ok());
}

#[test]
fn stored_identity_round_trips() {
    assert_eq!(to_stored(0), 0);
    assert_eq!(to_stored(42), 42);
    assert_eq!(to_stored(i64::MAX as u64), i64::MAX);
    assert_eq!(to_stored(u64::MAX), -1);
    assert_eq!(to_stored(1u64 << 63), i64::MIN);
    for x in [0u64, 1, 12345, i64::MAX as u64, 1u64 << 63, u64::MAX - 1, u64::MAX] {
        assert_eq!(from_stored(to_stored(x)), x);
    }
    assert_eq!(from_stored(-2), u64::MAX - 1);
}

#[test]
fn a_record_without_a_path_loads() {
    let files = vec![vec![ival(5), SqlValue::Null, text("n")]];
    let tags = vec![vec![ival(1), text("x")]];
    let rels = vec![vec![ival(1), ival(5)]];
    let data = decode_tables(&files, &tags, &rels).unwrap();
    assert_eq!(data.note_of(5), Some("n".to_string()));
    let xs = data.files_with_tag("x");
    assert_eq!(xs.len(), 1);
    assert_eq!(xs[0].inode, 5);
    assert_eq!(xs[0].file_path, "");
}

#[test]
fn tags_keep_the_order_they_were_given() {
    let mut db = memory_db();
    let f = fr("/a", 1);
    db.set_tags(&f, vec!["zeta", "alpha", "mid"]).unwrap();
    let first = db.get_tags(&f).unwrap();
    assert_eq!(first, vec!["zeta", "alpha", "mid"]);
    assert_eq!(db.get_tags(&f).unwrap(), first);
}

#[test]
fn text_that_is_not_utf8_is_malformed() {
    let files = vec![vec![ival(5), SqlValue::Text(vec![0x2f, 0xff]), SqlValue::Null]];
    let none: Vec<Vec<SqlValue>> = vec![];
    assert!(matches!(decode_tables(&files, &none, &none), Err(StoreError::Malformed)));
    let tags = vec![vec![ival(1), SqlValue::Text(vec![0xc3])]];
    assert!(matches!(decode_tables(&none, &tags, &none), Err(StoreError::Malformed)));
}

#[test]
fn database_with_invalid_text_is_refused_without_panic() {
    let uri = "file:chest_bad_text?mode=memory&cache=shared";
    let first = NotesDB::build(uri).unwrap();
    let raw = rusqlite::Connection::open(uri).unwrap();
    raw.execute("INSERT INTO file_notes(inode, known_path, note) VALUES(1, CAST(x'ff' AS TEXT), NULL);", ())
        .unwrap();
    assert!(matches!(NotesDB::build(uri), Err(StoreError::Malformed)));
    drop(first);
}
