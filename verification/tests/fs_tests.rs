use site::fs::{FsError, FsTree};
use site::StatusCode;

#[test]
fn status_code_success() {
    assert!(StatusCode(0).is_success());
    assert!(!StatusCode(0).is_failure());
    assert!(StatusCode(1).is_failure());
    assert!(!StatusCode(7).is_success());
}

#[test]
fn write_read_round_trip() {
    let mut t = FsTree::new();
    let root = t.root();
    let idx = t.create_file("x", root).unwrap();
    t.write(idx, "hello").unwrap();
    assert_eq!(t.contents(idx).unwrap(), "hello");
    t.write(idx, "replaced").unwrap();
    assert_eq!(t.contents(idx).unwrap(), "replaced");
}

#[test]
fn new_file_is_empty() {
    let mut t = FsTree::new();
    let root = t.root();
    let idx = t.create_file("empty", root).unwrap();
    assert_eq!(t.contents(idx).unwrap(), "");
}

#[test]
fn freelist_reuse_is_lifo() {
    let mut t = FsTree::new();
    let root = t.root();
    let a = t.create_file("a", root).unwrap();
    let b = t.create_file("b", root).unwrap();
    t.delete("b", root).unwrap();
    let c = t.create_file("c", root).unwrap();
    assert_eq!(c, b);
    // two deletions: most recently freed first, then the older one
    t.delete("a", root).unwrap();
    t.delete("c", root).unwrap();
    let d = t.create_file("d", root).unwrap();
    assert_eq!(d, c);
    let e = t.create_file("e", root).unwrap();
    assert_eq!(e, a);
}

#[test]
fn delete_nonempty_directory_fails() {
    let mut t = FsTree::new();
    let root = t.root();
    let a = t.create_directory("a", root).unwrap();
    t.create_file("inner", a).unwrap();
    assert!(matches!(t.delete("a", root), Err(FsError::DirectoryNotEmpty)));
    // recursive delete succeeds and removes the entry from the parent
    t.delete_recursive("a", root).unwrap();
    assert!(t.lookup_path("/a").is_none());
    // the parent can take the name again
    t.create_directory("a", root).unwrap();
}

#[test]
fn delete_empty_directory_succeeds() {
    let mut t = FsTree::new();
    let root = t.root();
    t.create_directory("a", root).unwrap();
    t.delete("a", root).unwrap();
    assert!(t.lookup_path("/a").is_none());
}

#[test]
fn iter_dir_entries_are_live() {
    let mut t = FsTree::new();
    let root = t.root();
    let a = t.create_directory("a", root).unwrap();
    t.create_file("f", root).unwrap();
    t.create_file("g", a).unwrap();
    t.delete("g", a).unwrap();
    t.create_file("h", a).unwrap();
    t.delete("f", root).unwrap();
    for dir in [root, a] {
        for entry in t.iter_dir(dir).unwrap() {
            // every index handed out refers to a live slot
            assert!(t.is_directory(entry.index()).is_ok());
        }
    }
}

#[test]
fn iter_dir_lists_dots_and_children() {
    let mut t = FsTree::new();
    let root = t.root();
    let a = t.create_directory("a", root).unwrap();
    t.create_file("f", a).unwrap();
    let names: Vec<String> = t.iter_dir(a).unwrap().iter().map(|e| e.name()).collect();
    assert!(names.contains(&".".to_string()));
    assert!(names.contains(&"..".to_string()));
    assert!(names.contains(&"f".to_string()));
    assert_eq!(names.len(), 3);
    let dot = t
        .iter_dir(a)
        .unwrap()
        .into_iter()
        .find(|e| e.name() == ".")
        .unwrap();
    assert_eq!(dot.index(), a);
    let dotdot = t
        .iter_dir(a)
        .unwrap()
        .into_iter()
        .find(|e| e.name() == "..")
        .unwrap();
    assert_eq!(dotdot.index(), root);
}

#[test]
fn iter_dir_on_file_fails() {
    let mut t = FsTree::new();
    let root = t.root();
    let f = t.create_file("f", root).unwrap();
    assert!(matches!(t.iter_dir(f), Err(FsError::NotADirectory)));
}

#[test]
fn create_errors() {
    let mut t = FsTree::new();
    let root = t.root();
    t.create_file("f", root).unwrap();
    assert!(matches!(t.create_file("f", root), Err(FsError::AlreadyExists)));
    assert!(matches!(t.create_directory("f", root), Err(FsError::AlreadyExists)));
    assert!(matches!(t.create_directory(".", root), Err(FsError::AlreadyExists)));
    assert!(matches!(t.create_directory("..", root), Err(FsError::AlreadyExists)));
    assert!(matches!(t.create_directory("", root), Err(FsError::InvalidPath)));
    assert!(matches!(t.create_directory("a/b", root), Err(FsError::InvalidPath)));
    let f = t.lookup_path("/f").unwrap();
    assert!(matches!(t.create_file("g", f), Err(FsError::NotADirectory)));
}

#[test]
fn delete_errors() {
    let mut t = FsTree::new();
    let root = t.root();
    assert!(matches!(t.delete("missing", root), Err(FsError::NotFound)));
    assert!(matches!(t.delete(".", root), Err(FsError::InvalidPath)));
    assert!(matches!(t.delete("..", root), Err(FsError::InvalidPath)));
    assert!(matches!(t.delete_recursive(".", root), Err(FsError::InvalidPath)));
    let f = t.create_file("f", root).unwrap();
    assert!(matches!(t.delete("x", f), Err(FsError::NotADirectory)));
}

#[test]
fn stale_index_reads_not_found() {
    let mut t = FsTree::new();
    let root = t.root();
    let f = t.create_file("f", root).unwrap();
    t.delete("f", root).unwrap();
    assert!(matches!(t.contents(f), Err(FsError::NotFound)));
    assert!(matches!(t.is_directory(f), Err(FsError::NotFound)));
    assert!(matches!(t.is_file(f), Err(FsError::NotFound)));
    assert!(matches!(t.write(f, "zzz"), Err(FsError::NotFound)));
}

#[test]
fn content_reads_need_a_file() {
    let mut t = FsTree::new();
    let root = t.root();
    let d = t.create_directory("d", root).unwrap();
    assert!(matches!(t.contents(d), Err(FsError::NotAFile)));
    assert!(matches!(t.write(d, "zzz"), Err(FsError::NotAFile)));
    assert_eq!(t.is_directory(d).unwrap(), true);
    assert_eq!(t.is_file(d).unwrap(), false);
}

#[test]
fn move_rejects_cycle() {
    let mut t = FsTree::new();
    let root = t.root();
    let a = t.create_directory("a", root).unwrap();
    let b = t.create_directory("b", a).unwrap();
    // /a into /a/b: a descendant of itself
    assert!(matches!(t.move_entry("a", root, "c", b), Err(FsError::CyclicMove)));
    // /a into itself
    assert!(matches!(t.move_entry("a", root, "c", a), Err(FsError::CyclicMove)));
    // deeper nesting
    let c = t.create_directory("c", b).unwrap();
    assert!(matches!(t.move_entry("a", root, "z", c), Err(FsError::CyclicMove)));
}

#[test]
fn move_renames_and_relocates() {
    let mut t = FsTree::new();
    let root = t.root();
    let a = t.create_directory("a", root).unwrap();
    let b = t.create_directory("b", root).unwrap();
    let f = t.create_file("f", a).unwrap();
    t.write(f, "payload").unwrap();
    // move the file from /a to /b under a new name
    t.move_entry("f", a, "g", b).unwrap();
    assert!(t.lookup_path("/a/f").is_none());
    let g = t.lookup_path("/b/g").unwrap();
    assert_eq!(g, f);
    assert_eq!(t.contents(g).unwrap(), "payload");
    // rename in place
    t.move_entry("g", b, "h", b).unwrap();
    assert!(t.lookup_path("/b/g").is_none());
    assert!(t.lookup_path("/b/h").is_some());
    // moving an entry onto itself is a no-op
    t.move_entry("h", b, "h", b).unwrap();
    assert!(t.lookup_path("/b/h").is_some());
}

#[test]
fn move_updates_directory_parent() {
    let mut t = FsTree::new();
    let root = t.root();
    let a = t.create_directory("a", root).unwrap();
    let b = t.create_directory("b", a).unwrap();
    let x = t.create_directory("x", root).unwrap();
    // relocate /a/b under /x; its `..` must now lead to /x
    t.move_entry("b", a, "b", x).unwrap();
    assert_eq!(t.lookup_path("/x/b").unwrap(), b);
    assert_eq!(t.lookup_path("/x/b/..").unwrap(), x);
    assert!(t.lookup_path("/a/b").is_none());
}

#[test]
fn move_errors() {
    let mut t = FsTree::new();
    let root = t.root();
    let a = t.create_directory("a", root).unwrap();
    t.create_file("f", a).unwrap();
    t.create_file("f", root).unwrap();
    // destination name collides
    assert!(matches!(t.move_entry("f", a, "f", root), Err(FsError::AlreadyExists)));
    // reserved and malformed names
    assert!(matches!(t.move_entry(".", root, "d", a), Err(FsError::InvalidPath)));
    assert!(matches!(t.move_entry("..", root, "d", a), Err(FsError::InvalidPath)));
    assert!(matches!(t.move_entry("f", root, "x/y", a), Err(FsError::InvalidPath)));
    assert!(matches!(t.move_entry("f", root, "", a), Err(FsError::InvalidPath)));
    // missing source
    assert!(matches!(t.move_entry("nope", root, "d", a), Err(FsError::NotFound)));
    // destination is a file
    let f = t.lookup_path("/f").unwrap();
    assert!(matches!(t.move_entry("f", a, "g", f), Err(FsError::NotADirectory)));
}

#[test]
fn recursive_delete_removes_whole_subtree() {
    let mut t = FsTree::new();
    let root = t.root();
    let home = t.create_directory("home", root).unwrap();
    let user = t.create_directory("user", home).unwrap();
    t.create_file("note", user).unwrap();
    t.delete_recursive("home", root).unwrap();
    assert!(t.lookup_path("/home").is_none());
    assert!(t.lookup_path("/home/user").is_none());
    assert!(t.lookup_path("/home/user/note").is_none());
    // the freed slots are all reusable
    let d1 = t.create_file("one", root).unwrap();
    let d2 = t.create_file("two", root).unwrap();
    let d3 = t.create_file("three", root).unwrap();
    assert!(t.is_file(d1).unwrap());
    assert!(t.is_file(d2).unwrap());
    assert!(t.is_file(d3).unwrap());
}

#[test]
fn recursive_delete_on_file_acts_like_delete() {
    let mut t = FsTree::new();
    let root = t.root();
    t.create_file("f", root).unwrap();
    t.delete_recursive("f", root).unwrap();
    assert!(t.lookup_path("/f").is_none());
    assert!(matches!(t.delete_recursive("f", root), Err(FsError::NotFound)));
}

#[test]
fn seeded_tree_contents() {
    let t = site::init_fs();
    let run_me = t.lookup_path("/home/user/run_me").unwrap();
    assert!(t.is_file(run_me).unwrap());
    assert_eq!(t.contents(run_me).unwrap(), "alert('lol'); 'some output';");
    let cs = t.lookup_path("/home/user/projects/cs5167").unwrap();
    assert!(t.is_directory(cs).unwrap());
    assert!(t.lookup_path("/home/user/missing").is_none());
}
