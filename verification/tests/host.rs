use bytes::Bytes;
use spritebox::host::dispatch::{Dispatcher, Generations, OpenHandles};
use spritebox::host::inode_table::InodeTable;
use spritebox::host::mem::{epoch_ns, Clock, FakeClock, MemFs, SystemClock};
use spritebox::host::prefetch::{collect, sort_by_size, Prefetch, PrefetchConfig, ShipTally};
use spritebox::host::tokio_fs::{disk_attr, kind_of, map_io, DiskMeta, IoKind, TokioFs};
use spritebox::host::watcher::{
    translate, CreateKind, EventKind, ModifyKind, RemoveKind, ResyncEpoch, WatcherConfig,
    WatcherError,
};
use spritebox::host::HostError;
use spritebox::path::HostPath;
use spritebox::protocol::errno as e;
use spritebox::protocol::{
    FileKind, Frame, OpenFlags, Push, Request, Response, ROOT_INO,
};

fn p(s: &str) -> HostPath {
    HostPath::new(s)
}

fn fs() -> MemFs<FakeClock> {
    MemFs::with_clock(FakeClock::new(1_000_000_000))
}

#[test]
fn mem_create_read_write() {
    let mut fs = fs();
    fs.create(&p("a.txt"), 0o644).unwrap();
    let n = fs.write(&p("a.txt"), 0, b"hello").unwrap();
    assert_eq!(n, 5);
    let bytes = fs.read(&p("a.txt"), 0, 100).unwrap();
    assert_eq!(&bytes[..], b"hello");
}

#[test]
fn read_past_eof_returns_empty() {
    let mut fs = fs();
    fs.create(&p("a"), 0o644).unwrap();
    fs.write(&p("a"), 0, b"abc").unwrap();
    let bytes = fs.read(&p("a"), 100, 10).unwrap();
    assert!(bytes.is_empty());
}

#[test]
fn write_with_gap_zero_fills() {
    let mut fs = fs();
    fs.create(&p("a"), 0o644).unwrap();
    fs.write(&p("a"), 5, b"x").unwrap();
    let bytes = fs.read(&p("a"), 0, 100).unwrap();
    assert_eq!(&bytes[..], b"\0\0\0\0\0x");
}

#[test]
fn mkdir_nested() {
    let mut fs = fs();
    fs.mkdir(&p("a"), 0o755).unwrap();
    fs.mkdir(&p("a/b"), 0o755).unwrap();
    fs.create(&p("a/b/c"), 0o644).unwrap();
    fs.write(&p("a/b/c"), 0, b"deep").unwrap();
    let bytes = fs.read(&p("a/b/c"), 0, 10).unwrap();
    assert_eq!(&bytes[..], b"deep");
}

#[test]
fn rename_atomic_replaces_dest() {
    let mut fs = fs();
    fs.create(&p("a"), 0o644).unwrap();
    fs.write(&p("a"), 0, b"new").unwrap();
    fs.create(&p("b"), 0o644).unwrap();
    fs.write(&p("b"), 0, b"old").unwrap();
    fs.rename(&p("a"), &p("b")).unwrap();
    assert_eq!(fs.read(&p("b"), 0, 10).unwrap(), Bytes::from_static(b"new"));
    assert_eq!(fs.stat(&p("a")).unwrap_err(), HostError::NotFound);
}

#[test]
fn mem_rmdir_rejects_nonempty() {
    let mut fs = fs();
    fs.mkdir(&p("a"), 0o755).unwrap();
    fs.create(&p("a/x"), 0o644).unwrap();
    assert_eq!(fs.rmdir(&p("a")).unwrap_err(), HostError::NotEmpty);
}

#[test]
fn truncate_grows_with_zeros() {
    let mut fs = fs();
    fs.create(&p("a"), 0o644).unwrap();
    fs.write(&p("a"), 0, b"abc").unwrap();
    fs.truncate(&p("a"), 6).unwrap();
    let bytes = fs.read(&p("a"), 0, 10).unwrap();
    assert_eq!(&bytes[..], b"abc\0\0\0");
}

#[test]
fn list_dir_returns_children() {
    let mut fs = fs();
    fs.create(&p("a"), 0o644).unwrap();
    fs.mkdir(&p("d"), 0o755).unwrap();
    let mut children = fs.list_dir(&p("")).unwrap();
    children.sort_by(|a, b| a.name.cmp(&b.name));
    assert_eq!(children.len(), 2);
    assert_eq!(children[0].name, "a");
    assert_eq!(children[0].kind, FileKind::Regular);
    assert_eq!(children[1].name, "d");
    assert_eq!(children[1].kind, FileKind::Directory);
}

#[test]
fn snapshot_is_deterministic_and_sorted() {
    let mut fs = fs();
    fs.mkdir(&p("a"), 0o755).unwrap();
    fs.create(&p("a/y"), 0o644).unwrap();
    fs.create(&p("a/x"), 0o644).unwrap();
    fs.write(&p("a/y"), 0, b"Y").unwrap();
    fs.write(&p("a/x"), 0, b"X").unwrap();
    let snap = fs.snapshot();
    assert_eq!(snap.len(), 3);
    assert!(snap[0].path.same(&p("a")));
    assert!(snap[1].path.same(&p("a/x")));
    assert!(snap[2].path.same(&p("a/y")));
    assert_eq!(snap[0].content, None);
    assert_eq!(snap[1].content, Some(Bytes::from_static(b"X")));
}

#[test]
fn mem_path_escape_rejected() {
    let mut fs = fs();
    assert_eq!(fs.stat(&p("../etc")).unwrap_err(), HostError::PathEscape);
    assert_eq!(fs.create(&p("/etc/passwd"), 0o644).unwrap_err(), HostError::PathEscape);
}

#[test]
fn mtime_updates_on_write() {
    let mut fs = MemFs::with_clock(FakeClock::new(1_000));
    fs.create(&p("a"), 0o644).unwrap();
    let attr1 = fs.stat(&p("a")).unwrap();
    fs.clock_mut().advance_ns(500);
    fs.write(&p("a"), 0, b"x").unwrap();
    let attr2 = fs.stat(&p("a")).unwrap();
    assert!(attr2.mtime_ns > attr1.mtime_ns);
    assert_eq!(attr2.mtime_ns, 1_500);
}

#[test]
fn each_failure_has_its_cause() {
    let mut fs = fs();
    fs.create(&p("f"), 0o644).unwrap();
    fs.mkdir(&p("d"), 0o755).unwrap();
    assert_eq!(fs.create(&p("f"), 0o644).unwrap_err(), HostError::AlreadyExists);
    assert_eq!(fs.create(&p("f/x"), 0o644).unwrap_err(), HostError::NotADirectory);
    assert_eq!(fs.create(&p("none/x"), 0o644).unwrap_err(), HostError::NotFound);
    assert_eq!(fs.read(&p("d"), 0, 1).unwrap_err(), HostError::IsADirectory);
    assert_eq!(fs.unlink(&p("d")).unwrap_err(), HostError::IsADirectory);
    assert_eq!(fs.rmdir(&p("f")).unwrap_err(), HostError::NotADirectory);
    assert_eq!(fs.list_dir(&p("f")).unwrap_err(), HostError::NotADirectory);
    assert_eq!(fs.stat(&p("a\0")).unwrap_err(), HostError::InvalidName);
    assert_eq!(fs.rename(&p("d"), &p("d/in")).unwrap_err(), HostError::InvalidName);
    assert_eq!(fs.fsync(&p("none")).unwrap_err(), HostError::NotFound);
    fs.rename(&p("f"), &p("f")).unwrap();
    assert!(fs.stat(&p("f")).is_ok());
}

#[test]
fn a_failure_changes_nothing() {
    let mut fs = fs();
    fs.create(&p("f"), 0o600).unwrap();
    fs.write(&p("f"), 0, b"kept").unwrap();
    let before = fs.stat(&p("f")).unwrap();
    fs.clock_mut().advance_ns(10);
    assert!(fs.create(&p("f"), 0o644).is_err());
    assert!(fs.rename(&p("none"), &p("f")).is_err());
    assert_eq!(fs.stat(&p("f")).unwrap(), before);
    assert_eq!(&fs.read(&p("f"), 0, 10).unwrap()[..], b"kept");
}

#[test]
fn a_write_leaves_other_bytes_and_files() {
    let mut fs = fs();
    fs.create(&p("f"), 0o600).unwrap();
    fs.create(&p("g"), 0o600).unwrap();
    fs.write(&p("f"), 0, b"abcdef").unwrap();
    fs.write(&p("g"), 0, b"other").unwrap();
    fs.write(&p("f"), 2, b"XY").unwrap();
    assert_eq!(&fs.read(&p("f"), 0, 9).unwrap()[..], b"abXYef");
    assert_eq!(&fs.read(&p("g"), 0, 9).unwrap()[..], b"other");
    fs.truncate(&p("f"), 3).unwrap();
    assert_eq!(&fs.read(&p("f"), 0, 9).unwrap()[..], b"abX");
}

#[test]
fn a_directory_moves_with_what_is_in_it() {
    let mut fs = fs();
    fs.mkdir(&p("a"), 0o755).unwrap();
    fs.create(&p("a/f"), 0o644).unwrap();
    fs.write(&p("a/f"), 0, b"in").unwrap();
    fs.rename(&p("a"), &p("b")).unwrap();
    assert_eq!(&fs.read(&p("b/f"), 0, 9).unwrap()[..], b"in");
    assert_eq!(fs.stat(&p("a/f")).unwrap_err(), HostError::NotFound);
}

#[test]
fn a_directory_is_not_moved_onto_what_is_in_it() {
    let mut fs = fs();
    fs.mkdir(&p("a"), 0o755).unwrap();
    fs.create(&p("a/x"), 0o644).unwrap();
    fs.mkdir(&p("a/full"), 0o755).unwrap();
    fs.create(&p("a/full/f"), 0o644).unwrap();
    fs.mkdir(&p("a/empty"), 0o755).unwrap();
    let before = fs.snapshot();
    assert_eq!(fs.rename(&p("a"), &p("a/x")).unwrap_err(), HostError::AlreadyExists);
    assert_eq!(fs.rename(&p("a"), &p("a/full")).unwrap_err(), HostError::NotEmpty);
    assert_eq!(fs.rename(&p("a"), &p("a/empty")).unwrap_err(), HostError::InvalidName);
    assert_eq!(fs.rename(&p("a"), &p("a/new")).unwrap_err(), HostError::InvalidName);
    assert_eq!(fs.snapshot(), before);
}

#[test]
fn chmod_sets_the_permission_bits() {
    let mut fs = fs();
    let attr = fs.create(&p("a"), 0o644).unwrap();
    assert_eq!(attr.mode, 0o644);
    fs.chmod(&p("a"), 0o755).unwrap();
    assert_eq!(fs.stat(&p("a")).unwrap().mode, 0o755);
}

#[test]
fn errors_have_errnos() {
    assert_eq!(HostError::NotFound.errno(), e::ENOENT);
    assert_eq!(HostError::NotADirectory.errno(), e::ENOTDIR);
    assert_eq!(HostError::IsADirectory.errno(), e::EISDIR);
    assert_eq!(HostError::AlreadyExists.errno(), e::EEXIST);
    assert_eq!(HostError::NotEmpty.errno(), e::ENOTEMPTY);
    assert_eq!(HostError::PermissionDenied.errno(), e::EACCES);
    assert_eq!(HostError::PathEscape.errno(), e::EACCES);
    assert_eq!(HostError::InvalidName.errno(), e::EINVAL);
    assert_eq!(HostError::NoSpace.errno(), e::ENOSPC);
    assert_eq!(HostError::Io("x".to_string()).errno(), e::EIO);
}

#[test]
fn the_wall_clock_goes_forward() {
    let a = SystemClock.now_ns();
    assert!(a > 1_600_000_000_000_000_000);
    assert!(SystemClock.now_ns() >= a);
    assert_eq!(epoch_ns(true, 7), 7);
    assert_eq!(epoch_ns(false, 7), -7);
    let mut disk = MemFs::new();
    assert!(disk.create(&p("now"), 0o644).unwrap().mtime_ns >= a);
}

// ---- dispatcher ----

fn dispatcher() -> Dispatcher<MemFs<FakeClock>> {
    Dispatcher::new(MemFs::with_clock(FakeClock::new(1_000_000)))
}

fn open_flags() -> OpenFlags {
    OpenFlags { read: true, write: true, append: false, truncate: false }
}

fn handle(d: &mut Dispatcher<MemFs<FakeClock>>, req: Request) -> Response {
    match d.handle(1, req) {
        Frame::Response { id: 1, body } => body,
        other => panic!("expected response frame, got {other:?}"),
    }
}

fn create(d: &mut Dispatcher<MemFs<FakeClock>>, name: &str) -> u64 {
    match handle(
        d,
        Request::Create {
            parent: ROOT_INO,
            name: name.to_string(),
            mode: 0o644,
            flags: open_flags(),
        },
    ) {
        Response::Entry { attr } => attr.ino,
        other => panic!("expected Entry, got {other:?}"),
    }
}

fn open(d: &mut Dispatcher<MemFs<FakeClock>>, ino: u64, flags: OpenFlags) -> u64 {
    match handle(d, Request::Open { ino, flags }) {
        Response::OpenOk { handle } => handle,
        other => panic!("expected OpenOk, got {other:?}"),
    }
}

fn lookup(d: &mut Dispatcher<MemFs<FakeClock>>, name: &str) -> Response {
    handle(d, Request::Lookup { parent: ROOT_INO, name: name.to_string() })
}

fn write(d: &mut Dispatcher<MemFs<FakeClock>>, ino: u64, h: u64, data: &'static [u8]) -> Response {
    handle(d, Request::Write { ino, handle: h, offset: 0, data: Bytes::from_static(data) })
}

#[test]
fn create_lookup_returns_same_ino() {
    let mut d = dispatcher();
    let created_ino = create(&mut d, "a");
    match lookup(&mut d, "a") {
        Response::Entry { attr } => assert_eq!(attr.ino, created_ino),
        other => panic!("expected Entry, got {other:?}"),
    }
}

#[test]
fn read_write_round_trip() {
    let mut d = dispatcher();
    let ino = create(&mut d, "f");
    let h = open(&mut d, ino, open_flags());
    assert_eq!(write(&mut d, ino, h, b"hello"), Response::Written { bytes: 5 });
    match handle(&mut d, Request::Read { ino, handle: h, offset: 0, size: 16 }) {
        Response::Bytes { data, hash, .. } => {
            assert_eq!(&data[..], b"hello");
            assert!(hash.verify(&data));
        }
        other => panic!("expected Bytes, got {other:?}"),
    }
    assert_eq!(handle(&mut d, Request::Release { ino, handle: h }), Response::Done);
}

#[test]
fn rename_keeps_ino_stable() {
    let mut d = dispatcher();
    let original_ino = create(&mut d, "a");
    handle(
        &mut d,
        Request::Rename {
            old_parent: ROOT_INO,
            old_name: "a".to_string(),
            new_parent: ROOT_INO,
            new_name: "b".to_string(),
        },
    );
    match lookup(&mut d, "b") {
        Response::Entry { attr } => assert_eq!(attr.ino, original_ino),
        other => panic!("expected Entry, got {other:?}"),
    }
}

#[test]
fn a_rename_onto_itself_keeps_the_inode() {
    let mut d = dispatcher();
    let ino = create(&mut d, "a");
    let same = Request::Rename {
        old_parent: ROOT_INO,
        old_name: "a".to_string(),
        new_parent: ROOT_INO,
        new_name: "a".to_string(),
    };
    assert_eq!(handle(&mut d, same), Response::Done);
    match handle(&mut d, Request::GetAttr { ino }) {
        Response::Attr(attr) => assert_eq!(attr.ino, ino),
        other => panic!("expected Attr, got {other:?}"),
    }
}

#[test]
fn unlink_then_lookup_returns_enoent() {
    let mut d = dispatcher();
    create(&mut d, "a");
    handle(&mut d, Request::Unlink { parent: ROOT_INO, name: "a".to_string() });
    assert_eq!(lookup(&mut d, "a"), Response::Error { errno: e::ENOENT });
}

#[test]
fn readdir_assigns_inos_to_children() {
    let mut d = dispatcher();
    for n in ["x", "y", "z"] {
        create(&mut d, n);
    }
    match handle(&mut d, Request::ReadDir { ino: ROOT_INO, offset: 0 }) {
        Response::DirPage { entries, .. } => {
            assert_eq!(entries.len(), 3);
            let inos: std::collections::HashSet<_> = entries.iter().map(|e| e.ino).collect();
            assert_eq!(inos.len(), 3);
            for e in &entries {
                assert!(e.ino > ROOT_INO);
            }
        }
        other => panic!("expected DirPage, got {other:?}"),
    }
}

#[test]
fn readdirplus_carries_the_attributes() {
    let mut d = dispatcher();
    let ino = create(&mut d, "x");
    match handle(&mut d, Request::ReadDirPlus { ino: ROOT_INO, offset: 0 }) {
        Response::DirPagePlus { entries, next_offset } => {
            assert_eq!(entries.len(), 1);
            assert_eq!(entries[0].name, "x");
            assert_eq!(entries[0].attr.ino, ino);
            assert_eq!(next_offset, None);
        }
        other => panic!("expected DirPagePlus, got {other:?}"),
    }
}

#[test]
fn getattr_unknown_ino_returns_enoent() {
    let mut d = dispatcher();
    let r = handle(&mut d, Request::GetAttr { ino: 999 });
    assert_eq!(r, Response::Error { errno: e::ENOENT });
}

#[test]
fn fsync_on_existing_file_is_ok() {
    let mut d = dispatcher();
    let ino = create(&mut d, "a");
    let r = handle(&mut d, Request::Fsync { ino, handle: 0, data_only: false });
    assert_eq!(r, Response::Done);
}

#[test]
fn truncate_grows_file() {
    let mut d = dispatcher();
    let ino = create(&mut d, "a");
    handle(&mut d, Request::Truncate { ino, size: 10 });
    match handle(&mut d, Request::GetAttr { ino }) {
        Response::Attr(a) => assert_eq!(a.size, 10),
        other => panic!("expected Attr, got {other:?}"),
    }
}

#[test]
fn append_handle_writes_at_eof() {
    let mut d = dispatcher();
    let ino = create(&mut d, "a");
    let rw = open(&mut d, ino, open_flags());
    write(&mut d, ino, rw, b"hello");
    handle(&mut d, Request::Release { ino, handle: rw });
    let append_flags = OpenFlags { read: false, write: true, append: true, truncate: false };
    let ah = open(&mut d, ino, append_flags);
    write(&mut d, ino, ah, b"-world");
    match handle(&mut d, Request::Read { ino, handle: 0, offset: 0, size: 64 }) {
        Response::Bytes { data, .. } => assert_eq!(&data[..], b"hello-world"),
        other => panic!("expected Bytes, got {other:?}"),
    }
}

#[test]
fn truncate_flag_clears_on_open() {
    let mut d = dispatcher();
    let ino = create(&mut d, "t");
    let h = open(&mut d, ino, open_flags());
    write(&mut d, ino, h, b"will be cleared");
    handle(&mut d, Request::Release { ino, handle: h });
    let trunc_flags = OpenFlags { read: true, write: true, append: false, truncate: true };
    open(&mut d, ino, trunc_flags);
    match handle(&mut d, Request::GetAttr { ino }) {
        Response::Attr(a) => assert_eq!(a.size, 0),
        other => panic!("expected Attr, got {other:?}"),
    }
}

#[test]
fn read_on_writeonly_handle_returns_ebadf() {
    let mut d = dispatcher();
    let ino = create(&mut d, "w");
    let writeonly = OpenFlags { read: false, write: true, append: false, truncate: false };
    let h = open(&mut d, ino, writeonly);
    let r = handle(&mut d, Request::Read { ino, handle: h, offset: 0, size: 16 });
    assert_eq!(r, Response::Error { errno: e::EBADF });
}

#[test]
fn chmod_changes_mode_bits() {
    let mut d = dispatcher();
    let ino = create(&mut d, "x");
    handle(&mut d, Request::Chmod { ino, mode: 0o755 });
    match handle(&mut d, Request::GetAttr { ino }) {
        Response::Attr(a) => assert_eq!(a.mode, 0o755),
        other => panic!("expected Attr, got {other:?}"),
    }
}

#[test]
fn links_are_not_supported() {
    let mut d = dispatcher();
    let r = handle(
        &mut d,
        Request::Symlink { parent: ROOT_INO, name: "l".to_string(), target: "a".to_string() },
    );
    assert_eq!(r, Response::Error { errno: e::ENOSYS });
    let r = handle(&mut d, Request::ReadLink { ino: ROOT_INO });
    assert_eq!(r, Response::Error { errno: e::ENOSYS });
}

#[test]
fn a_batch_is_answered_in_order() {
    let mut d = dispatcher();
    let r = handle(
        &mut d,
        Request::Batch(vec![
            Request::GetAttr { ino: 999 },
            Request::Mkdir { parent: ROOT_INO, name: "d".to_string(), mode: 0o755 },
            Request::Batch(vec![]),
        ]),
    );
    match r {
        Response::Batch(items) => {
            assert_eq!(items.len(), 3);
            assert_eq!(items[0], Response::Error { errno: e::ENOENT });
            assert!(matches!(items[1], Response::Entry { .. }));
            assert_eq!(items[2], Response::Error { errno: e::EINVAL });
        }
        other => panic!("expected Batch, got {other:?}"),
    }
}

#[test]
fn a_change_of_content_counts_a_generation() {
    let mut d = dispatcher();
    let ino = create(&mut d, "g");
    let h = open(&mut d, ino, open_flags());
    let stamp = |d: &mut Dispatcher<MemFs<FakeClock>>| match handle(
        d,
        Request::Read { ino, handle: h, offset: 0, size: 4 },
    ) {
        Response::Bytes { generation, .. } => generation,
        other => panic!("expected Bytes, got {other:?}"),
    };
    let before = stamp(&mut d);
    write(&mut d, ino, h, b"x");
    let after = stamp(&mut d);
    assert_eq!(after, before + 1);
    assert_eq!(stamp(&mut d), after);
}

#[test]
fn names_that_escape_are_refused() {
    let mut d = dispatcher();
    assert_eq!(lookup(&mut d, ".."), Response::Error { errno: e::EACCES });
    assert_eq!(lookup(&mut d, "/etc/passwd"), Response::Error { errno: e::EACCES });
    assert_eq!(lookup(&mut d, "a\0b"), Response::Error { errno: e::EINVAL });
}

#[test]
fn handles_and_generations_on_their_own() {
    let mut h = OpenHandles::new();
    let a = h.allocate(7, open_flags());
    let b = h.allocate(7, open_flags());
    assert_ne!(a, b);
    assert_eq!(h.get(a).unwrap().ino, 7);
    h.release(a);
    assert!(h.get(a).is_none());
    assert!(h.get(b).is_some());
    let mut g = Generations::new();
    assert_eq!(g.current(7), 0);
    assert_eq!(g.bump(7), 1);
    assert_eq!(g.bump(7), 2);
    assert_eq!(g.current(7), 2);
    assert_eq!(g.current(8), 0);
}

// ---- prefetch ----

fn small_fs() -> MemFs<FakeClock> {
    MemFs::with_clock(FakeClock::new(1_000_000))
}

fn file(fs: &mut MemFs<FakeClock>, name: &str, content: &[u8]) {
    fs.create(&p(name), 0o644).unwrap();
    fs.write(&p(name), 0, content).unwrap();
}

fn run(fs: &MemFs<FakeClock>, config: PrefetchConfig) -> (Vec<Push>, InodeTable) {
    let mut inodes = InodeTable::new();
    let generations = Generations::new();
    let mut prefetch = Prefetch::start(fs, config);
    let mut pushes = Vec::new();
    while let Some(more) = prefetch.next_file(fs, &mut inodes, &generations) {
        pushes.extend(more);
    }
    (pushes, inodes)
}

#[test]
fn prefetch_emits_smallest_files_first() {
    let mut fs = small_fs();
    file(&mut fs, "big.bin", &vec![0u8; 32 * 1024]);
    file(&mut fs, "small.txt", b"tiny");
    file(&mut fs, "medium.md", &vec![b'm'; 8 * 1024]);
    let (pushes, inodes) = run(
        &fs,
        PrefetchConfig {
            max_file_bytes: 1024 * 1024,
            max_total_bytes: 1024 * 1024,
            chunk_size: 16 * 1024,
        },
    );
    let mut first_chunks: Vec<u64> = Vec::new();
    for push in &pushes {
        if let Push::Prefill { ino, chunk_idx: 0, .. } = push {
            first_chunks.push(*ino);
        }
    }
    assert_eq!(first_chunks.len(), 3);
    assert!(inodes.path(first_chunks[0]).unwrap().same(&p("small.txt")));
    assert!(inodes.path(first_chunks[1]).unwrap().same(&p("medium.md")));
    assert!(inodes.path(first_chunks[2]).unwrap().same(&p("big.bin")));
    assert_eq!(pushes.len(), 4);
}

#[test]
fn prefetch_skips_oversize_files() {
    let mut fs = small_fs();
    file(&mut fs, "ok.txt", b"x");
    file(&mut fs, "huge.bin", &vec![0u8; 50 * 1024]);
    let (pushes, _) = run(
        &fs,
        PrefetchConfig {
            max_file_bytes: 10 * 1024,
            max_total_bytes: 10 * 1024 * 1024,
            chunk_size: 16 * 1024,
        },
    );
    assert_eq!(pushes.len(), 1);
}

#[test]
fn prefetch_respects_total_budget() {
    let mut fs = small_fs();
    for i in 0..10 {
        file(&mut fs, &format!("f{i}"), &vec![0xAB; 4096]);
    }
    let (pushes, _) = run(
        &fs,
        PrefetchConfig {
            max_file_bytes: 1024 * 1024,
            max_total_bytes: 12 * 1024,
            chunk_size: 16 * 1024,
        },
    );
    let count = pushes.len();
    assert!(count <= 3, "shipped too many: {count}");
    assert!(count >= 1);
}

#[test]
fn prefetch_chunks_hold_the_file() {
    let mut fs = small_fs();
    let content: Vec<u8> = (0..100u8).collect();
    file(&mut fs, "f", &content);
    let (pushes, _) = run(
        &fs,
        PrefetchConfig { max_file_bytes: 1000, max_total_bytes: 1000, chunk_size: 32 },
    );
    let mut got: Vec<u8> = Vec::new();
    for (i, push) in pushes.iter().enumerate() {
        match push {
            Push::Prefill { chunk_idx, chunk_size, data, .. } => {
                assert_eq!(*chunk_idx, i as u64);
                assert_eq!(*chunk_size, 32);
                got.extend_from_slice(data);
            }
            other => panic!("unexpected: {other:?}"),
        }
    }
    assert_eq!(got, content);
}

#[test]
fn prefetch_through_the_dispatcher() {
    let mut fs = small_fs();
    file(&mut fs, "f", b"abc");
    let mut d = Dispatcher::new(fs);
    let mut prefetch = d.start_prefetch(PrefetchConfig::default());
    let pushes = d.prefetch_next(&mut prefetch).unwrap();
    match &pushes[0] {
        Push::Prefill { ino, data, .. } => {
            assert_eq!(&data[..], b"abc");
            assert!(d.inodes().path(*ino).unwrap().same(&p("f")));
        }
        other => panic!("unexpected: {other:?}"),
    }
    assert!(d.prefetch_next(&mut prefetch).is_none());
}

#[test]
fn prefetch_counts_what_it_ships() {
    let mut fs = small_fs();
    file(&mut fs, "a", &[1; 40]);
    file(&mut fs, "b", &[2; 10]);
    let config = PrefetchConfig { max_file_bytes: 100, max_total_bytes: 1000, chunk_size: 16 };
    let mut run = Prefetch::start(&fs, config);
    assert_eq!(run.len(), 2);
    assert_eq!(run.eligible_bytes(), 50);
    assert_eq!(run.tally(), ShipTally { files: 0, chunks: 0, bytes: 0, skipped: 0 });
    let mut inodes = InodeTable::new();
    let generations = Generations::new();
    run.next_file(&fs, &mut inodes, &generations).unwrap();
    assert_eq!(run.tally(), ShipTally { files: 1, chunks: 1, bytes: 10, skipped: 0 });
    run.next_file(&fs, &mut inodes, &generations).unwrap();
    assert_eq!(run.tally(), ShipTally { files: 2, chunks: 4, bytes: 50, skipped: 0 });
    assert!(run.next_file(&fs, &mut inodes, &generations).is_none());
    assert_eq!(run.tally(), ShipTally { files: 2, chunks: 4, bytes: 50, skipped: 0 });
}

#[test]
fn collecting_and_sorting() {
    let mut fs = small_fs();
    fs.mkdir(&p("d"), 0o755).unwrap();
    file(&mut fs, "d/b", b"bb");
    file(&mut fs, "a", b"a");
    let items = sort_by_size(collect(&fs, &p(""), 100));
    assert_eq!(items.len(), 2);
    assert!(items[0].path.same(&p("a")));
    assert!(items[1].path.same(&p("d/b")));
    assert_eq!(items[1].size, 2);
}

// ---- watcher ----

fn table(paths: &[&str]) -> InodeTable {
    let mut t = InodeTable::new();
    for path in paths {
        t.intern(&p(path));
    }
    t
}

fn event(t: &InodeTable, g: &mut Generations, kind: EventKind, path: &str) -> Vec<Push> {
    translate(&p("/share"), t, g, kind, &vec![p(path)])
}

#[test]
fn a_new_file_invalidates_its_entry() {
    let t = table(&[]);
    let mut g = Generations::new();
    let pushes = event(&t, &mut g, EventKind::Create(CreateKind::File), "/share/hello.txt");
    assert!(pushes.iter().any(|push| matches!(
        push,
        Push::InvalidateEntry { parent: ROOT_INO, name, .. } if name == "hello.txt"
    )));
}

#[test]
fn changed_content_invalidates_data_under_a_new_generation() {
    let mut t = table(&[]);
    let ino = t.intern(&p("a"));
    let mut g = Generations::new();
    let pushes = event(&t, &mut g, EventKind::Modify(ModifyKind::Data), "/share/a");
    assert_eq!(
        pushes,
        vec![
            Push::InvalidateAttr { ino },
            Push::InvalidateData { ino, offset: 0, len: 0, generation: 1 },
        ]
    );
    assert_eq!(g.current(ino), 1);
}

#[test]
fn a_removed_file_invalidates_its_entry() {
    let t = table(&["doomed"]);
    let mut g = Generations::new();
    let pushes = event(&t, &mut g, EventKind::Remove(RemoveKind::File), "/share/doomed");
    assert!(pushes.iter().any(|push| matches!(
        push,
        Push::InvalidateEntry { name, .. } if name == "doomed"
    )));
}

#[test]
fn unknown_files_and_other_places_are_not_of_interest() {
    let t = table(&["a"]);
    let mut g = Generations::new();
    assert!(event(&t, &mut g, EventKind::Modify(ModifyKind::Data), "/share/b").is_empty());
    assert!(event(&t, &mut g, EventKind::Modify(ModifyKind::Data), "/other/a").is_empty());
}

#[test]
fn observed_through_the_dispatcher() {
    let mut d = dispatcher();
    let ino = create(&mut d, "a");
    let pushes = d.observe(
        &p("/share"),
        EventKind::Modify(ModifyKind::Metadata),
        &vec![p("/share/a")],
    );
    let before = match handle(&mut d, Request::Read { ino, handle: 0, offset: 0, size: 9 }) {
        Response::Bytes { generation, .. } => generation,
        other => panic!("unexpected: {other:?}"),
    };
    assert_eq!(
        pushes,
        vec![
            Push::InvalidateAttr { ino },
            Push::InvalidateData { ino, offset: 0, len: 0, generation: before },
        ]
    );
    d.fs_mut().write(&p("a"), 0, b"host").unwrap();
    assert_eq!(&d.fs().read(&p("a"), 0, 9).unwrap()[..], b"host");
}

#[test]
fn epochs_of_resyncs_go_up() {
    let mut epoch = ResyncEpoch::new();
    let first = epoch.resync();
    let second = epoch.resync();
    match (first, second) {
        (Push::Resync { epoch: a }, Push::Resync { epoch: b }) => assert!(b > a),
        other => panic!("unexpected: {other:?}"),
    }
    assert_eq!(
        WatcherError::Notify("gone".to_string()).message(),
        "notify error: gone"
    );
    assert!(WatcherConfig::default().debounce_ms > 0);
}

// ---- files on disk ----

#[test]
fn disk_errors_are_told_apart() {
    assert_eq!(
        map_io(IoKind::NotFound, None, "m".to_string()),
        HostError::NotFound
    );
    assert_eq!(
        map_io(IoKind::PermissionDenied, None, "m".to_string()),
        HostError::PermissionDenied
    );
    assert_eq!(
        map_io(IoKind::Other, Some(libc::ENOSPC), "m".to_string()),
        HostError::NoSpace
    );
    assert_eq!(
        map_io(IoKind::Other, None, "m".to_string()),
        HostError::Io("m".to_string())
    );
}

#[test]
fn disk_attributes() {
    assert_eq!(kind_of(true, false), FileKind::Directory);
    assert_eq!(kind_of(false, true), FileKind::Symlink);
    assert_eq!(kind_of(false, false), FileKind::Regular);
    let attr = disk_attr(&DiskMeta {
        is_dir: false,
        is_symlink: false,
        ino: 9,
        size: 100,
        blocks: 8,
        mode: 0o100644,
        nlink: 1,
        uid: 1000,
        gid: 1000,
        atime_ns: Some(1),
        mtime_ns: Some(2),
        btime_ns: None,
    });
    assert_eq!(attr.size, 100);
    assert_eq!(attr.mode, 0o644);
    assert_eq!(attr.mtime_ns, 2);
    assert_eq!(attr.kind, FileKind::Regular);
}

#[test]
fn equivalence_path_escape_rejected_consistently() {
    let mem = MemFs::with_clock(FakeClock::new(1_000_000));
    let disk = TokioFs::new(p("/share"));
    for evil in ["../escape", "/etc/passwd", "a/../b"] {
        assert!(mem.stat(&p(evil)).is_err(), "MemFs accepted {evil}");
        assert!(disk.resolve(&p(evil)).is_err(), "TokioFs accepted {evil}");
    }
    assert!(disk.resolve(&p("a/b")).unwrap().same(&p("/share/a/b")));
    assert!(disk.resolve(&p("")).unwrap().same(&p("/share")));
}

#[test]
fn only_requests_are_answered() {
    let mut d = Dispatcher::new(MemFs::with_clock(FakeClock::new(1_000_000)));
    let request = Frame::Request { id: 9, body: Request::StatFs { ino: ROOT_INO } };
    match d.on_frame(request) {
        Some(Frame::Response { id: 9, body: Response::StatFs(st) }) => {
            assert_eq!(st.bsize, 4096);
        }
        other => panic!("unexpected: {other:?}"),
    }
    assert_eq!(d.on_frame(Frame::Push(Push::Resync { epoch: 1 })), None);
    assert_eq!(d.on_frame(Frame::Response { id: 1, body: Response::Done }), None);
}
