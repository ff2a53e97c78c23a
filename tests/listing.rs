use file_chest::{list_entries, path_lt, sort_by_path, DirItem, FileRef};

fn item(dir: &str, name: &str, inode: u64) -> Result<DirItem, String> {
    Ok(DirItem { name: name.as_bytes().to_vec(), file: FileRef::new(format!("{}/{}", dir, name), inode) })
}

fn names(files: &[FileRef]) -> Vec<String> {
    files.iter().map(|f| f.file_path.rsplit('/').next().unwrap().to_string()).collect()
}

#[test]
fn hidden_entries_follow_the_switch() {
    let entries = || vec![item("/d", "b.txt", 3), item("/d", ".hidden", 1), item("/d", "a.txt", 2)];
    let shown = list_entries(entries(), false);
    assert_eq!(names(&shown.files), vec!["a.txt", "b.txt"]);
    let all = list_entries(entries(), true);
    assert_eq!(names(&all.files), vec![".hidden", "a.txt", "b.txt"]);
    assert!(all.skipped.is_empty());
}

#[test]
fn unreadable_entries_are_skipped_and_reported() {
    let entries = vec![
        item("/d", "z", 1),
        Err("permission denied: /d/secret".to_string()),
        item("/d", "m", 2),
        Err("vanished: /d/tmp".to_string()),
    ];
    let listing = list_entries(entries, false);
    assert_eq!(names(&listing.files), vec!["m", "z"]);
    assert_eq!(listing.skipped, vec!["permission denied: /d/secret", "vanished: /d/tmp"]);
}

#[test]
fn identities_survive_listing() {
    let listing = list_entries(vec![item("/d", "renamed.txt", 77), item("/d", "x", 5)], false);
    assert_eq!(listing.files[0].inode, 77);
    assert_eq!(listing.files[0].file_path, "/d/renamed.txt");
    assert_eq!(listing.files[1].inode, 5);
}

#[test]
fn empty_directory_lists_nothing() {
    let listing = list_entries(vec![], true);
    assert!(listing.files.is_empty());
    assert!(listing.skipped.is_empty());
}

#[test]
fn order_is_bytewise() {
    let entries = vec![item("/d", "b", 1), item("/d", "B", 2), item("/d", "a", 3), item("/d", "é", 4), item("/d", "_", 5)];
    let listing = list_entries(entries, false);
    assert_eq!(names(&listing.files), vec!["B", "_", "a", "b", "é"]);
}

#[test]
fn only_a_leading_dot_hides() {
    let entries = vec![item("/d", "a.b", 1), item("/d", "..", 2), item("/d", "·x", 3)];
    let listing = list_entries(entries, false);
    assert_eq!(names(&listing.files), vec!["a.b", "·x"]);
}

#[test]
fn path_order() {
    assert!(path_lt("/a", "/b"));
    assert!(!path_lt("/b", "/a"));
    assert!(path_lt("/a", "/ab"));
    assert!(!path_lt("/ab", "/a"));
    assert!(!path_lt("/same", "/same"));
    assert!(path_lt("", "x"));
    assert!(path_lt("Z", "a"));
}

#[test]
fn sort_keeps_every_entry() {
    let v = vec![
        FileRef::new("/c".to_string(), 1),
        FileRef::new("/a".to_string(), 2),
        FileRef::new("/b".to_string(), 3),
        FileRef::new("/a".to_string(), 4),
    ];
    let s = sort_by_path(v);
    let paths: Vec<&str> = s.iter().map(|f| f.file_path.as_str()).collect();
    assert_eq!(paths, vec!["/a", "/a", "/b", "/c"]);
    let mut inodes: Vec<u64> = s.iter().map(|f| f.inode).collect();
    inodes.sort();
    assert_eq!(inodes, vec![1, 2, 3, 4]);
}

#[test]
fn names_that_are_not_utf8_are_judged_by_their_first_byte() {
    let entries = vec![
        Ok(DirItem { name: vec![0x2e, 0xff], file: FileRef::new("/d/.\u{fffd}".to_string(), 1) }),
        Ok(DirItem { name: vec![0xff, 0x61], file: FileRef::new("/d/\u{fffd}a".to_string(), 2) }),
        item("/d", "b", 3),
    ];
    let listing = list_entries(entries, false);
    let inodes: Vec<u64> = listing.files.iter().map(|f| f.inode).collect();
    assert_eq!(inodes, vec![3, 2]);
}
