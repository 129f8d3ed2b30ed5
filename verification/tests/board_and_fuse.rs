use spritebox::board::{
    board_name, cursor_file, time_shown, time_text, visible_to, Board, BranchEntry, Cursor,
    Message,
};
use spritebox::fuse::{
    dir_rows, errno_for, mode_bits, open_flags_from, to_fuse_attr, to_time, FuseTime, O_ACCMODE,
    O_APPEND, O_RDONLY, O_RDWR, O_TRUNC, O_WRONLY,
};
use spritebox::protocol::{DirEntry, FileAttr, FileKind};
use spritebox::remote::client::ClientError;

fn empty() -> Board {
    Board::restore(Vec::new(), Vec::new(), Vec::new())
}

fn three() -> Board {
    let mut b = empty();
    b.register("main", "repo-main", "t0");
    b.register("feature/a", "repo-feature-a", "t1");
    b.register("feature/b", "repo-feature-b", "t2");
    b
}

fn bodies(messages: &[Message]) -> Vec<String> {
    messages.iter().map(|m| m.body.clone()).collect()
}

fn leaders(branches: &[BranchEntry]) -> Vec<String> {
    branches.iter().filter(|b| b.leader).map(|b| b.branch.clone()).collect()
}

#[test]
fn the_first_branch_leads() {
    let mut b = empty();
    let one = b.register("main", "repo-main", "t0");
    assert_eq!(leaders(&one), vec!["main"]);
    let two = b.register("feature/a", "repo-feature-a", "t1");
    assert_eq!(leaders(&two), vec!["main"]);
    assert_eq!(two[1].joined_at, "t1");
    let again = b.register("main", "renamed", "t2");
    assert_eq!(again.len(), 2);
    assert_eq!(again[0].sprite_name, "renamed");
    assert_eq!(again[0].joined_at, "t0");
    assert!(again[0].leader);
}

#[test]
fn the_lead_can_be_taken() {
    let mut b = three();
    assert_eq!(leaders(&b.set_leader("feature/b")), vec!["feature/b"]);
    assert!(leaders(&b.set_leader("nobody")).is_empty());
    assert_eq!(
        b.send_to_leader("main", "repo-main", "hi", "t").unwrap_err(),
        "no leader registered on the board"
    );
}

#[test]
fn messages_are_numbered_and_addressed() {
    let mut b = three();
    let first = b.send("main", "repo-main", "feature/a", "one", "t3");
    assert_eq!(first.id, 1);
    assert_eq!(first.to.as_deref(), Some("feature/a"));
    assert!(!first.leader_msg);
    let second = b.send_to_leader("feature/a", "repo-feature-a", "two", "t4").unwrap();
    assert_eq!(second.id, 2);
    assert_eq!(second.to.as_deref(), Some("main"));
    assert_eq!(bodies(&b.list_all("main")), vec!["one", "two"]);
    assert_eq!(bodies(&b.list_all("feature/a")), vec!["one", "two"]);
    assert!(b.list_all("feature/b").is_empty());
    assert_eq!(b.messages().len(), 2);
}

#[test]
fn the_leader_posts_to_all_others() {
    let mut b = three();
    let sent = b.leader_post("main", "repo-main", "task", "t3");
    assert_eq!(sent.len(), 2);
    assert_eq!(sent[0].to.as_deref(), Some("feature/a"));
    assert_eq!(sent[1].to.as_deref(), Some("feature/b"));
    assert_eq!((sent[0].id, sent[1].id), (1, 2));
    assert!(sent[0].leader_msg);
    assert_eq!(bodies(&b.list_all("feature/b")), vec!["task"]);
    let mut alone = empty();
    alone.register("main", "repo-main", "t0");
    assert!(alone.leader_post("main", "repo-main", "task", "t").is_empty());
}

#[test]
fn new_messages_are_read_once() {
    let mut b = three();
    b.send("main", "repo-main", "feature/a", "one", "t");
    b.send("feature/b", "repo-feature-b", "feature/a", "two", "t");
    assert_eq!(bodies(&b.list_new("feature/a")), vec!["one", "two"]);
    assert!(b.list_new("feature/a").is_empty());
    assert_eq!(b.cursor("feature/a"), 2);
    assert_eq!(b.cursor("feature/b"), 0);
    b.send("main", "repo-main", "feature/a", "three", "t");
    assert_eq!(bodies(&b.list_new("feature/a")), vec!["three"]);
    assert_eq!(bodies(&b.list_new("feature/b")), vec!["two"]);
}

#[test]
fn new_messages_of_the_leader() {
    let mut b = three();
    b.send("feature/b", "repo-feature-b", "feature/a", "chat", "t");
    b.send("main", "repo-main", "feature/a", "task", "t");
    assert_eq!(bodies(&b.list_from_leader_new("feature/a")), vec!["task"]);
    assert!(b.list_from_leader_new("feature/a").is_empty());
    b.set_leader("nobody");
    assert!(b.list_from_leader_new("feature/b").is_empty());
}

#[test]
fn a_board_goes_on_where_it_was_left() {
    let old = Message {
        id: 41,
        from_branch: "main".to_string(),
        sprite_name: "repo-main".to_string(),
        timestamp: "t".to_string(),
        body: "all".to_string(),
        leader_msg: false,
        to: None,
    };
    assert!(visible_to(&old, "anyone"));
    let cursor = Cursor { branch_slug: "feature-a".to_string(), last_seen_id: 41 };
    let mut b = Board::restore(Vec::new(), vec![old], vec![cursor]);
    assert!(b.list_new("feature/a").is_empty());
    assert_eq!(b.list_new("feature/b").len(), 1);
    assert_eq!(b.send("main", "repo-main", "feature/a", "next", "t").id, 42);
}

#[test]
fn where_a_board_is_kept() {
    assert_eq!(board_name("github.com:org/repo.git"), "org-repo");
    assert_eq!(board_name("git@github.com:org/My Repo.git"), "org-my-repo");
    assert_eq!(board_name("https://github.com/Other.Org/repo/"), "other-org-repo");
    assert_eq!(board_name("repo.git"), "repo");
    assert_eq!(board_name("/repo"), "repo");
    assert_eq!(cursor_file("feature/a"), "feature-a.json");
    assert_eq!(time_text(Some(b"2026-03-28T12:00:00Z\n")), "2026-03-28T12:00:00Z");
    assert_eq!(time_text(None), "unknown");
    assert_eq!(time_shown(Some(" now ")), "now");
    assert_eq!(time_shown(None), "unknown");
}

// ---- the kernel's side ----

#[test]
fn open_flags_are_those_of_the_system() {
    assert_eq!(O_ACCMODE, libc::O_ACCMODE);
    assert_eq!(O_RDONLY, libc::O_RDONLY);
    assert_eq!(O_WRONLY, libc::O_WRONLY);
    assert_eq!(O_RDWR, libc::O_RDWR);
    assert_eq!(O_APPEND, libc::O_APPEND);
    assert_eq!(O_TRUNC, libc::O_TRUNC);
    let f = open_flags_from(libc::O_RDONLY);
    assert!(f.read && !f.write && !f.append && !f.truncate);
    let f = open_flags_from(libc::O_WRONLY | libc::O_APPEND);
    assert!(!f.read && f.write && f.append && !f.truncate);
    let f = open_flags_from(libc::O_RDWR | libc::O_TRUNC);
    assert!(f.read && f.write && !f.append && f.truncate);
}

#[test]
fn times_lie_on_both_sides_of_the_epoch() {
    assert_eq!(to_time(5), FuseTime { before_epoch: false, nanos: 5 });
    assert_eq!(to_time(-5), FuseTime { before_epoch: true, nanos: 5 });
    assert_eq!(to_time(i64::MIN), FuseTime { before_epoch: true, nanos: 1 << 63 });
}

#[test]
fn attributes_for_the_kernel() {
    let a = FileAttr {
        ino: 42,
        size: 1024,
        blocks: 2,
        atime_ns: 1,
        mtime_ns: 2,
        ctime_ns: -3,
        kind: FileKind::Regular,
        mode: 0o644,
        nlink: 1,
        uid: 1000,
        gid: 1001,
    };
    let f = to_fuse_attr(&a);
    assert_eq!((f.ino, f.size, f.blocks, f.perm), (42, 1024, 2, 0o644));
    assert_eq!(f.crtime, f.ctime);
    assert!(f.ctime.before_epoch);
    assert_eq!((f.rdev, f.blksize, f.flags), (0, 4096, 0));
    assert_eq!(mode_bits(0o100755), 0o755);
    assert_eq!(mode_bits(0o7777), 0o7777);
    assert_eq!(errno_for(&ClientError::Errno(13)), 13);
    assert_eq!(errno_for(&ClientError::Protocol), libc::EIO);
}

#[test]
fn rows_of_a_directory() {
    let entry = |name: &str| DirEntry {
        ino: 7,
        name: name.to_string(),
        kind: FileKind::Directory,
    };
    let rows = dir_rows(vec![entry("a"), entry("b")], 10);
    assert_eq!(rows.len(), 2);
    assert_eq!((rows[0].entry.name.as_str(), rows[0].next), ("a", 11));
    assert_eq!((rows[1].entry.name.as_str(), rows[1].next), ("b", 12));
    let far = dir_rows(vec![entry("a")], i64::MAX);
    assert_eq!(far[0].next, i64::MIN);
    assert!(dir_rows(Vec::new(), -1).is_empty());
}
