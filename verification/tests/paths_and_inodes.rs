use spritebox::host::inode_table::InodeTable;
use spritebox::host::tokio_fs::TokioFs;
use spritebox::host::{check_relative, HostError};
use spritebox::path::HostPath;
use spritebox::protocol::ROOT_INO;

fn p(s: &str) -> HostPath {
    HostPath::new(s)
}

fn is_at(t: &InodeTable, ino: u64, path: &str) -> bool {
    match t.path(ino) {
        Some(found) => found.same(&p(path)),
        None => false,
    }
}

#[test]
fn root_is_pre_seeded() {
    let t = InodeTable::new();
    assert!(is_at(&t, ROOT_INO, ""));
    assert_eq!(t.ino(&p("")), Some(ROOT_INO));
}

#[test]
fn intern_is_stable() {
    let mut t = InodeTable::new();
    let a = t.intern(&p("a/b"));
    let b = t.intern(&p("a/b"));
    assert_eq!(a, b);
}

#[test]
fn distinct_paths_get_distinct_inos() {
    let mut t = InodeTable::new();
    let a = t.intern(&p("a"));
    let b = t.intern(&p("b"));
    assert_ne!(a, b);
}

#[test]
fn rename_preserves_ino() {
    let mut t = InodeTable::new();
    let ino = t.intern(&p("a"));
    t.rename(&p("a"), &p("b"));
    assert_eq!(t.ino(&p("b")), Some(ino));
    assert_eq!(t.ino(&p("a")), None);
    assert!(is_at(&t, ino, "b"));
}

#[test]
fn rename_moves_descendants() {
    let mut t = InodeTable::new();
    let dir_ino = t.intern(&p("a"));
    let child_ino = t.intern(&p("a/x"));
    let grand_ino = t.intern(&p("a/x/y"));

    t.rename(&p("a"), &p("z"));

    assert_eq!(t.ino(&p("z")), Some(dir_ino));
    assert_eq!(t.ino(&p("z/x")), Some(child_ino));
    assert_eq!(t.ino(&p("z/x/y")), Some(grand_ino));
    assert_eq!(t.ino(&p("a")), None);
    assert_eq!(t.ino(&p("a/x")), None);
}

#[test]
fn inode_table_rename_replaces_dest() {
    let mut t = InodeTable::new();
    let src = t.intern(&p("a"));
    let _displaced = t.intern(&p("b"));
    t.rename(&p("a"), &p("b"));
    assert_eq!(t.ino(&p("b")), Some(src));
}

#[test]
fn forget_path_removes_both_directions() {
    let mut t = InodeTable::new();
    let ino = t.intern(&p("a"));
    t.forget_path(&p("a"));
    assert!(t.path(ino).is_none());
    assert_eq!(t.ino(&p("a")), None);
}

#[test]
fn forget_ino_removes_both_directions() {
    let mut t = InodeTable::new();
    let ino = t.intern(&p("a"));
    t.forget_ino(ino);
    assert!(t.path(ino).is_none());
    assert_eq!(t.ino(&p("a")), None);
    assert_eq!(t.len(), 1);
    assert!(!t.is_empty());
}

#[test]
fn a_forgotten_number_is_not_given_again() {
    let mut t = InodeTable::default();
    let a = t.intern(&p("a"));
    t.forget_path(&p("a"));
    assert!(t.intern(&p("a")) > a);
}

#[test]
fn a_rename_onto_itself_keeps_the_number() {
    let mut t = InodeTable::new();
    let a = t.intern(&p("a"));
    let x = t.intern(&p("a/x"));
    t.rename(&p("a"), &p("a"));
    assert_eq!(t.ino(&p("a")), Some(a));
    assert_eq!(t.ino(&p("a/x")), Some(x));
    assert!(t.path(a).unwrap().same(&p("a")));
    assert_eq!(t.len(), 3);
}

#[test]
fn a_rename_to_an_ancestor_keeps_the_number() {
    let mut t = InodeTable::new();
    let a = t.intern(&p("a"));
    let b = t.intern(&p("a/b"));
    let c = t.intern(&p("a/c"));
    let d = t.intern(&p("a/b/d"));
    t.rename(&p("a/b"), &p("a"));
    assert_eq!(t.ino(&p("a")), Some(b));
    assert_eq!(t.ino(&p("a/d")), Some(d));
    assert!(t.path(a).is_none());
    assert!(t.path(c).is_none());
}

#[test]
fn the_root_keeps_its_number() {
    let mut t = InodeTable::new();
    let a = t.intern(&p("a"));
    t.forget_ino(ROOT_INO);
    t.forget_path(&p(""));
    t.rename(&p(""), &p(""));
    assert!(t.path(ROOT_INO).unwrap().same(&p("")));
    assert_eq!(t.ino(&p("")), Some(ROOT_INO));
    assert_eq!(t.ino(&p("a")), Some(a));
    assert_eq!(t.intern(&p("")), ROOT_INO);
    assert_eq!(t.len(), 2);
}

#[test]
fn what_replaces_the_root_leaves_nothing_else() {
    let mut t = InodeTable::new();
    let a = t.intern(&p("a"));
    t.intern(&p("b"));
    t.rename(&p("a"), &p(""));
    assert_eq!(t.ino(&p("")), Some(ROOT_INO));
    assert_eq!(t.len(), 1);
    assert!(t.path(a).is_none());
    assert!(t.intern(&p("c")) > a + 1);
}

#[test]
fn where_the_root_moves_all_else_moves() {
    let mut t = InodeTable::new();
    let a = t.intern(&p("a"));
    let below = t.intern(&p("a/x"));
    let gone = t.intern(&p("z/old"));
    let dotted = t.intern(&p("./a"));
    let alone = t.intern(&p("./b"));
    let rooted = t.intern(&p("/etc"));
    t.rename(&p(""), &p("z"));
    assert!(is_at(&t, ROOT_INO, ""));
    assert!(is_at(&t, a, "z/a"));
    assert!(is_at(&t, below, "z/a/x"));
    assert!(is_at(&t, alone, "z/b"));
    assert!(is_at(&t, rooted, "/etc"));
    assert!(t.path(gone).is_none());
    assert!(t.path(dotted).is_none());
    assert_eq!(t.ino(&p("z/a")), Some(a));
    assert_eq!(t.ino(&p("a")), None);
    assert_eq!(t.len(), 5);
}

#[test]
fn rejects_parent_traversal() {
    assert_eq!(check_relative(&p("a/../b")).unwrap_err(), HostError::PathEscape);
}

#[test]
fn rejects_absolute() {
    assert_eq!(check_relative(&p("/etc/passwd")).unwrap_err(), HostError::PathEscape);
}

#[test]
fn allows_relative() {
    check_relative(&p("a/b/c")).unwrap();
    check_relative(&p("./a")).unwrap();
    check_relative(&p("")).unwrap();
}

#[test]
fn rejects_nul() {
    assert_eq!(check_relative(&p("a\0b")).unwrap_err(), HostError::InvalidName);
}

#[test]
fn paths_are_read_by_component() {
    assert!(p("a//b/./c/").same(&p("a/b/c")));
    assert!(!p("/a").same(&p("a")));
    assert!(!p("./a").same(&p("a")));
    assert_eq!(p("a/b.txt").file_name(), Some("b.txt".to_string()));
    assert_eq!(p("a/..").file_name(), None);
    assert!(p("a/b").parent().unwrap().same(&p("a")));
    assert!(p("").parent().is_none());
    assert!(p("a").join("b").same(&p("a/b")));
    assert!(p("a").join("/b").same(&p("/b")));
    assert!(p("a/b/c").strip_prefix(&p("a")).unwrap().same(&p("b/c")));
    assert!(p("ab").strip_prefix(&p("a")).is_none());
}

#[test]
fn rebasing_and_back_is_the_path() {
    let rest = p("a/x/y").strip_prefix(&p("a")).unwrap();
    assert!(p("z").join_to(&rest).same(&p("z/x/y")));
    let back = p("z/x/y").strip_prefix(&p("z")).unwrap();
    assert!(p("a").join_to(&back).same(&p("a/x/y")));
}

#[test]
fn tokio_fs_path_escape_rejected() {
    let fs = TokioFs::new(p("/srv/share"));
    assert!(matches!(fs.resolve(&p("../etc")), Err(HostError::PathEscape)));
    assert!(matches!(fs.resolve(&p("/etc/passwd")), Err(HostError::PathEscape)));
    match fs.resolve(&p("a/b")) {
        Ok(full) => assert!(full.same(&p("/srv/share/a/b"))),
        Err(e) => panic!("{e:?}"),
    }
}
