use site::fs::{FsError, FsTree};
use site::{canonicalize, display_path, tab_complete};

fn sample_tree() -> FsTree {
    let mut t = FsTree::new();
    let root = t.root();
    let home = t.create_directory("home", root).unwrap();
    let user = t.create_directory("user", home).unwrap();
    t.create_directory("projects", user).unwrap();
    let note = t.create_file("note", user).unwrap();
    t.write(note, "hi").unwrap();
    t
}

#[test]
fn lookup_resolves_created_paths() {
    let mut t = FsTree::new();
    let root = t.root();
    let home = t.create_directory("home", root).unwrap();
    let user = t.create_directory("user", home).unwrap();
    let note = t.create_file("note", user).unwrap();
    let found = t.lookup_path("/home/user/note").unwrap();
    assert_eq!(found, note);
    assert!(t.is_file(found).unwrap());
    assert!(t.lookup_path("/home/user/missing").is_none());
    assert!(t.lookup_path("/home/nosuch/note").is_none());
    // traversing into a file fails
    assert!(t.lookup_path("/home/user/note/x").is_none());
}

#[test]
fn lookup_follows_dot_entries() {
    let t = sample_tree();
    let user = t.lookup_path("/home/user").unwrap();
    assert_eq!(t.lookup_path("/home/user/.").unwrap(), user);
    let home = t.lookup_path("/home").unwrap();
    assert_eq!(t.lookup_path("/home/user/..").unwrap(), home);
    let root = t.root();
    assert_eq!(t.lookup_path("/").unwrap(), root);
    assert_eq!(t.lookup_path("/..").unwrap(), root);
    // repeated separators are skipped
    assert_eq!(t.lookup_path("//home//user").unwrap(), user);
}

#[test]
fn canonicalize_collapses_dots_against_the_tree() {
    let t = sample_tree();
    let c = canonicalize("/home/user/../user/./projects", &t).unwrap();
    assert_eq!(c, "/home/user/projects");
}

#[test]
fn canonicalize_requires_existing_components() {
    let t = sample_tree();
    // a purely lexical walk would yield /home/user; the tree walk fails
    assert!(matches!(canonicalize("/nosuch/../home/user", &t), Err(FsError::NotFound)));
    assert!(matches!(canonicalize("/home/missing", &t), Err(FsError::NotFound)));
    // walking into a file fails
    assert!(matches!(canonicalize("/home/user/note/..", &t), Err(FsError::NotADirectory)));
}

#[test]
fn canonicalize_stops_at_the_root() {
    let t = sample_tree();
    assert_eq!(canonicalize("/", &t).unwrap(), "/");
    assert_eq!(canonicalize("/..", &t).unwrap(), "/");
    assert_eq!(canonicalize("/../..", &t).unwrap(), "/");
    assert_eq!(canonicalize("/home/../..", &t).unwrap(), "/");
    assert_eq!(canonicalize("/home//user/", &t).unwrap(), "/home/user");
    assert_eq!(canonicalize("/./home/.", &t).unwrap(), "/home");
}

#[test]
fn canonicalize_follows_the_live_tree_after_a_move() {
    let mut t = sample_tree();
    let root = t.root();
    let home = t.lookup_path("/home").unwrap();
    let user = t.lookup_path("/home/user").unwrap();
    // relocate /home/user/projects to /projects
    t.move_entry("projects", user, "projects", root).unwrap();
    // `..` under the moved directory now leads to the root, not to /home/user
    assert_eq!(canonicalize("/projects/..", &t).unwrap(), "/");
    assert_eq!(canonicalize("/home/user/..", &t).unwrap(), "/home");
    assert_eq!(t.lookup_path("/projects/..").unwrap(), root);
    assert_eq!(t.lookup_path("/home/..").unwrap(), root);
    assert_eq!(t.lookup_path("/home/user/..").unwrap(), home);
}

#[test]
fn canonical_results_resolve() {
    let t = sample_tree();
    for p in ["/home/user/../user/./projects", "/home/./user/..", "/..", "/home/user/note"] {
        let c = canonicalize(p, &t).unwrap();
        let via_original = t.lookup_path(p).unwrap();
        let via_canonical = t.lookup_path(&c).unwrap();
        assert_eq!(via_original, via_canonical);
    }
}

#[test]
fn display_path_abbreviates_home() {
    assert_eq!(display_path("/home/user/projects"), "~/projects");
    assert_eq!(display_path("/home/user"), "~");
    assert_eq!(display_path("/etc"), "/etc");
    assert_eq!(display_path("/home/use"), "/home/use");
    assert_eq!(display_path("/home/userx"), "~x");
    assert_eq!(display_path(""), "");
}

#[test]
fn tab_complete_tags_input() {
    assert_eq!(tab_complete("ls"), "ls, tab completed!");
    assert_eq!(tab_complete(""), ", tab completed!");
}
