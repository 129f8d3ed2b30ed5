use bytes::Bytes;
use spritebox::host::dispatch::Dispatcher;
use spritebox::host::mem::{Clock, FakeClock, MemFs};
use spritebox::host::watcher::{EventKind, ModifyKind, RemoveKind};
use spritebox::path::HostPath;
use spritebox::protocol::errno as e;
use spritebox::protocol::{
    DirEntryPlus, FileAttr, FileKind, Frame, Ino, OpenFlags, Push, Request, Response, ROOT_INO,
};
use spritebox::remote::cache::{
    barrier_end, BarrierStep, CacheConfig, CacheState, CacheStats, ReadStep, SECOND_NS,
};
use spritebox::remote::client::{
    unwrap_attr, unwrap_data, unwrap_handle, unwrap_link, unwrap_ok, unwrap_page,
    unwrap_page_plus, unwrap_statfs, unwrap_written, ClientError, CmdClient, Delivery, DirPage,
};
use spritebox::remote::content_cache::ContentCacheConfig;
use spritebox::remote::tally::{PrefillOutcome, PrefillTally};
use spritebox::transport::controls::{Controls, InMemoryTransport, Passage};

fn p(s: &str) -> HostPath {
    HostPath::new(s)
}

fn rw_flags() -> OpenFlags {
    OpenFlags { read: true, write: true, append: false, truncate: false }
}

/// Client, transport and host in one process.
struct Harness {
    client: CmdClient,
    host: Dispatcher<MemFs<FakeClock>>,
    c2s: Controls,
    s2c: Controls,
}

impl Harness {
    fn new() -> Harness {
        let (c2s, s2c) = InMemoryTransport::pair();
        Harness {
            client: CmdClient::new(),
            host: Dispatcher::new(MemFs::with_clock(FakeClock::new(1_000_000))),
            c2s,
            s2c,
        }
    }

    fn crash(&mut self) {
        self.client.receive(None);
    }

    fn call(&mut self, body: Request) -> Result<Response, ClientError> {
        let (id, frame) = self.client.request(body)?;
        let frame = match self.c2s.carry(frame, false) {
            Passage::Forwarded { frame, .. } => frame,
            _ => {
                return match self.client.receive(None) {
                    Delivery::Closed { failed } => {
                        assert!(failed.contains(&id));
                        Err(ClientError::Disconnected)
                    }
                    other => panic!("unexpected: {other:?}"),
                }
            }
        };
        let answer = match frame {
            Frame::Request { id, body } => self.host.handle(id, body),
            other => panic!("unexpected: {other:?}"),
        };
        let answer = match self.s2c.carry(answer, false) {
            Passage::Forwarded { frame, .. } => frame,
            _ => return Err(ClientError::Disconnected),
        };
        match self.client.receive(Some(answer)) {
            Delivery::Response { id: got, body } => {
                assert_eq!(got, id);
                Ok(body)
            }
            other => panic!("unexpected: {other:?}"),
        }
    }

    fn create(&mut self, parent: Ino, name: &str) -> Result<FileAttr, ClientError> {
        let r = self.call(Request::Create {
            parent,
            name: name.to_string(),
            mode: 0o644,
            flags: rw_flags(),
        })?;
        unwrap_attr(r)
    }

    fn mkdir(&mut self, parent: Ino, name: &str) -> Result<FileAttr, ClientError> {
        let r = self.call(Request::Mkdir { parent, name: name.to_string(), mode: 0o755 })?;
        unwrap_attr(r)
    }

    fn lookup(&mut self, parent: Ino, name: &str) -> Result<FileAttr, ClientError> {
        let r = self.call(Request::Lookup { parent, name: name.to_string() })?;
        unwrap_attr(r)
    }

    fn getattr(&mut self, ino: Ino) -> Result<FileAttr, ClientError> {
        let r = self.call(Request::GetAttr { ino })?;
        unwrap_attr(r)
    }

    fn open(&mut self, ino: Ino) -> Result<u64, ClientError> {
        let r = self.call(Request::Open { ino, flags: rw_flags() })?;
        unwrap_handle(r)
    }

    fn release(&mut self, ino: Ino, handle: u64) -> Result<(), ClientError> {
        let r = self.call(Request::Release { ino, handle })?;
        unwrap_ok(r)
    }

    fn read_with_generation(
        &mut self,
        ino: Ino,
        handle: u64,
        offset: u64,
        size: u32,
    ) -> Result<(Bytes, u64), ClientError> {
        let r = self.call(Request::Read { ino, handle, offset, size })?;
        unwrap_data(r)
    }

    fn read(&mut self, ino: Ino, h: u64, offset: u64, size: u32) -> Result<Bytes, ClientError> {
        Ok(self.read_with_generation(ino, h, offset, size)?.0)
    }

    fn write(&mut self, ino: Ino, h: u64, offset: u64, data: &[u8]) -> Result<u32, ClientError> {
        let r = self.call(Request::Write {
            ino,
            handle: h,
            offset,
            data: Bytes::copy_from_slice(data),
        })?;
        unwrap_written(r)
    }

    fn fsync(&mut self, ino: Ino, handle: u64) -> Result<(), ClientError> {
        let r = self.call(Request::Fsync { ino, handle, data_only: false })?;
        unwrap_ok(r)
    }

    fn unlink(&mut self, parent: Ino, name: &str) -> Result<(), ClientError> {
        let r = self.call(Request::Unlink { parent, name: name.to_string() })?;
        unwrap_ok(r)
    }

    fn rename(&mut self, parent: Ino, from: &str, to: &str) -> Result<(), ClientError> {
        let r = self.call(Request::Rename {
            old_parent: parent,
            old_name: from.to_string(),
            new_parent: parent,
            new_name: to.to_string(),
        })?;
        unwrap_ok(r)
    }

    fn readdir(&mut self, ino: Ino) -> Result<DirPage, ClientError> {
        let r = self.call(Request::ReadDir { ino, offset: 0 })?;
        unwrap_page(r)
    }
}

#[test]
fn end_to_end_create_lookup() {
    let mut h = Harness::new();
    let attr = h.create(ROOT_INO, "a").unwrap();
    let again = h.lookup(ROOT_INO, "a").unwrap();
    assert_eq!(attr.ino, again.ino);
}

#[test]
fn end_to_end_read_write() {
    let mut h = Harness::new();
    let attr = h.create(ROOT_INO, "f").unwrap();
    let fh = h.open(attr.ino).unwrap();
    assert_eq!(h.write(attr.ino, fh, 0, b"hello").unwrap(), 5);
    let bytes = h.read(attr.ino, fh, 0, 16).unwrap();
    assert_eq!(&bytes[..], b"hello");
    h.release(attr.ino, fh).unwrap();
}

#[test]
fn end_to_end_rename_keeps_ino() {
    let mut h = Harness::new();
    let attr = h.create(ROOT_INO, "a").unwrap();
    h.rename(ROOT_INO, "a", "b").unwrap();
    let renamed = h.lookup(ROOT_INO, "b").unwrap();
    assert_eq!(attr.ino, renamed.ino);
}

#[test]
fn lookup_nonexistent_returns_enoent() {
    let mut h = Harness::new();
    let err = h.lookup(ROOT_INO, "nope").unwrap_err();
    assert_eq!(err, ClientError::Errno(e::ENOENT));
}

#[test]
fn readdir_returns_children() {
    let mut h = Harness::new();
    for n in ["x", "y", "z"] {
        h.create(ROOT_INO, n).unwrap();
    }
    let page = h.readdir(ROOT_INO).unwrap();
    let names: std::collections::HashSet<_> =
        page.entries.iter().map(|e| e.name.clone()).collect();
    assert_eq!(names.len(), 3);
    assert!(names.contains("x"));
    assert!(names.contains("y"));
    assert!(names.contains("z"));
}

#[test]
fn many_concurrent_requests_correlate_correctly() {
    let mut h = Harness::new();
    h.mkdir(ROOT_INO, "d").unwrap();
    let dir = h.lookup(ROOT_INO, "d").unwrap();
    let mut files = Vec::new();
    for i in 0..10 {
        let attr = h.create(dir.ino, &format!("f{i}")).unwrap();
        let fh = h.open(attr.ino).unwrap();
        files.push((attr.ino, fh, i));
    }
    // Ten requests are under way at once; their answers arrive in the reverse
    // order.
    let mut waiting = Vec::new();
    for (ino, fh, i) in &files {
        let payload = format!("payload-{i}").into_bytes();
        let (id, frame) = h
            .client
            .request(Request::Write { ino: *ino, handle: *fh, offset: 0, data: payload.into() })
            .unwrap();
        waiting.push((id, frame));
    }
    let mut answers = Vec::new();
    for (id, frame) in waiting {
        match frame {
            Frame::Request { id: sent, body } => {
                assert_eq!(sent, id);
                answers.push((id, h.host.handle(id, body)));
            }
            other => panic!("unexpected: {other:?}"),
        }
    }
    answers.reverse();
    for (id, answer) in answers {
        match h.client.receive(Some(answer)) {
            Delivery::Response { id: got, body } => {
                assert_eq!(got, id);
                assert!(unwrap_written(body).unwrap() > 0);
            }
            other => panic!("unexpected: {other:?}"),
        }
    }
    for (ino, fh, i) in &files {
        let bytes = h.read(*ino, *fh, 0, 64).unwrap();
        assert_eq!(&bytes[..], format!("payload-{i}").as_bytes());
    }
}

#[test]
fn frames_that_nothing_waits_for_are_ignored() {
    let mut client = CmdClient::new();
    let stray = Frame::Response { id: 5, body: Response::Done };
    assert!(matches!(client.receive(Some(stray)), Delivery::Ignored));
    let request = Frame::Request { id: 5, body: Request::GetAttr { ino: 1 } };
    assert!(matches!(client.receive(Some(request)), Delivery::Ignored));
    let push = Frame::Push(Push::Resync { epoch: 1 });
    assert!(matches!(client.receive(Some(push)), Delivery::Push(Push::Resync { epoch: 1 })));
    let (id, _) = client.request(Request::GetAttr { ino: 1 }).unwrap();
    assert_eq!(client.send_failed(id), ClientError::Disconnected);
    let late = Frame::Response { id, body: Response::Done };
    assert!(matches!(client.receive(Some(late)), Delivery::Ignored));
}

#[test]
fn answers_of_the_wrong_shape_are_refused() {
    assert_eq!(unwrap_attr(Response::Done).unwrap_err(), ClientError::Protocol);
    assert_eq!(unwrap_ok(Response::Written { bytes: 1 }).unwrap_err(), ClientError::Protocol);
    assert_eq!(unwrap_page(Response::Done).unwrap_err(), ClientError::Protocol);
    assert_eq!(unwrap_page_plus(Response::Done).unwrap_err(), ClientError::Protocol);
    assert_eq!(unwrap_handle(Response::Done).unwrap_err(), ClientError::Protocol);
    assert_eq!(unwrap_data(Response::Done).unwrap_err(), ClientError::Protocol);
    assert_eq!(unwrap_written(Response::Done).unwrap_err(), ClientError::Protocol);
    assert_eq!(unwrap_statfs(Response::Done).unwrap_err(), ClientError::Protocol);
    assert_eq!(unwrap_link(Response::Done).unwrap_err(), ClientError::Protocol);
    let failed = Response::Error { errno: e::EACCES };
    assert_eq!(unwrap_link(failed).unwrap_err(), ClientError::Errno(e::EACCES));
    assert_eq!(ClientError::Disconnected.errno(), e::EIO);
    assert_eq!(ClientError::Protocol.errno(), e::EIO);
    assert_eq!(ClientError::Errno(7).errno(), 7);
}

// ---- scenarios ----

#[test]
fn s01_editor_atomic_save() {
    let mut h = Harness::new();
    h.mkdir(ROOT_INO, "proj").unwrap();
    let proj = h.lookup(ROOT_INO, "proj").unwrap();
    let tmp = h.create(proj.ino, "file.tmp").unwrap();
    let fh = h.open(tmp.ino).unwrap();
    h.write(tmp.ino, fh, 0, b"hello").unwrap();
    h.fsync(tmp.ino, fh).unwrap();
    h.rename(proj.ino, "file.tmp", "file").unwrap();
    h.release(tmp.ino, fh).unwrap();

    let snapshot = h.host.fs().snapshot();
    let saved = snapshot.iter().find(|s| s.path.same(&p("proj/file"))).unwrap();
    assert_eq!(saved.content, Some(Bytes::from_static(b"hello")));
    assert!(!snapshot.iter().any(|s| s.path.same(&p("proj/file.tmp"))));
}

#[test]
fn s02_disconnect_during_write_at_various_points() {
    let mut saw_disconnected = false;
    let mut saw_ok_with_data = false;
    for threshold in [10u64, 50, 100, 250, 500, 5_000_000] {
        let mut h = Harness::new();
        let attr = h.create(ROOT_INO, "big").unwrap();
        let fh = h.open(attr.ino).unwrap();
        h.write(attr.ino, fh, 0, b"first-chunk").unwrap();
        h.c2s.disconnect_after_bytes(threshold);
        let payload = vec![0xAB; 200];
        match h.write(attr.ino, fh, 100, &payload) {
            Ok(_) => {
                let bytes = h.host.fs().read(&p("big"), 100, 200).unwrap();
                assert_eq!(bytes.len(), 200);
                assert_eq!(&bytes[..], &payload[..]);
                saw_ok_with_data = true;
            }
            Err(ClientError::Disconnected) => {
                saw_disconnected = true;
            }
            Err(other) => panic!("unexpected error: {other:?}"),
        }
    }
    assert!(saw_disconnected);
    assert!(saw_ok_with_data);
}

#[test]
fn s03_host_invalidate_during_writes() {
    let mut h = Harness::new();
    let attr = h.create(ROOT_INO, "x").unwrap();
    let fh = h.open(attr.ino).unwrap();
    h.write(attr.ino, fh, 0, b"sprite-1").unwrap();
    h.host.fs_mut().write(&p("x"), 0, b"host-version").unwrap();
    h.write(attr.ino, fh, 0, b"sprite-2").unwrap();
    h.release(attr.ino, fh).unwrap();
    let bytes = h.host.fs().read(&p("x"), 0, 64).unwrap();
    assert!(bytes.starts_with(b"sprite-2"));
}

#[test]
fn s04_mtime_round_trip() {
    let mut h = Harness::new();
    let t0 = h.host.fs_mut().clock_mut().now_ns();
    let attr = h.create(ROOT_INO, "m").unwrap();
    h.host.fs_mut().clock_mut().advance_ns(1_000_000_000);
    let fh = h.open(attr.ino).unwrap();
    h.write(attr.ino, fh, 0, b"data").unwrap();
    let after_write = h.host.fs_mut().clock_mut().now_ns();

    let attr2 = h.getattr(attr.ino).unwrap();
    let host_attr = h.host.fs().stat(&p("m")).unwrap();
    assert_eq!(attr2.mtime_ns, host_attr.mtime_ns);
    assert!(attr2.mtime_ns >= t0);
    assert!(attr2.mtime_ns <= after_write);
}

#[test]
fn s05_readdir_concurrent_mutation() {
    let mut h = Harness::new();
    h.mkdir(ROOT_INO, "d").unwrap();
    let d = h.lookup(ROOT_INO, "d").unwrap();
    for i in 0..50 {
        h.create(d.ino, &format!("entry_{i:03}")).unwrap();
    }
    for i in 50..70 {
        let _ = h.host.fs_mut().create(&p(&format!("d/entry_{i:03}")), 0o644);
        let _ = h.host.fs_mut().unlink(&p("d/entry_010"));
        let page = h.readdir(d.ino).unwrap();
        let mut names: Vec<_> = page.entries.iter().map(|e| e.name.clone()).collect();
        names.sort();
        let mut deduped = names.clone();
        deduped.dedup();
        assert_eq!(names, deduped);
        for n in &names {
            assert!(n.starts_with("entry_"));
        }
    }
}

#[test]
fn s09a_host_crash_surfaces_as_disconnected() {
    let mut h = Harness::new();
    let attr = h.create(ROOT_INO, "r").unwrap();
    let fh = h.open(attr.ino).unwrap();
    h.crash();
    assert_eq!(h.write(attr.ino, fh, 0, b"orphan").unwrap_err(), ClientError::Disconnected);
}

#[test]
fn a_crash_fails_every_request_that_waits() {
    let mut client = CmdClient::new();
    let (a, _) = client.request(Request::GetAttr { ino: 1 }).unwrap();
    let (b, _) = client.request(Request::GetAttr { ino: 2 }).unwrap();
    match client.receive(None) {
        Delivery::Closed { mut failed } => {
            failed.sort();
            assert_eq!(failed, vec![a, b]);
        }
        other => panic!("unexpected: {other:?}"),
    }
    assert_eq!(
        client.request(Request::GetAttr { ino: 1 }).unwrap_err(),
        ClientError::Disconnected
    );
}

#[test]
fn s09b_fresh_harness_after_crash_works() {
    let mut h1 = Harness::new();
    h1.crash();
    let mut h2 = Harness::new();
    let attr = h2.create(ROOT_INO, "after").unwrap();
    let fh = h2.open(attr.ino).unwrap();
    h2.write(attr.ino, fh, 0, b"works").unwrap();
    let bytes = h2.host.fs().read(&p("after"), 0, 16).unwrap();
    assert_eq!(&bytes[..], b"works");
}

#[test]
fn s11_path_escape_rejected() {
    let mut h = Harness::new();
    assert!(matches!(h.lookup(ROOT_INO, ".."), Err(ClientError::Errno(_))));
    assert!(matches!(h.lookup(ROOT_INO, "a\0b"), Err(ClientError::Errno(_))));
}

#[test]
fn s14_open_then_host_unlink() {
    let mut h = Harness::new();
    let attr = h.create(ROOT_INO, "o").unwrap();
    let fh = h.open(attr.ino).unwrap();
    h.write(attr.ino, fh, 0, b"original").unwrap();
    h.host.fs_mut().unlink(&p("o")).unwrap();
    match h.write(attr.ino, fh, 0, b"after-unlink") {
        Err(ClientError::Errno(errno)) if errno == e::ENOENT => {}
        other => panic!("unexpected: {other:?}"),
    }
}

#[test]
fn s15_fsync_barrier_reaches_host() {
    let mut h = Harness::new();
    let attr = h.create(ROOT_INO, "p").unwrap();
    let fh = h.open(attr.ino).unwrap();
    h.write(attr.ino, fh, 0, b"durable").unwrap();
    h.fsync(attr.ino, fh).unwrap();
    let bytes = h.host.fs().read(&p("p"), 0, 64).unwrap();
    assert_eq!(&bytes[..], b"durable");
}

#[test]
fn s19a_enoent_propagates() {
    let mut h = Harness::new();
    let r = h.lookup(ROOT_INO, "missing");
    assert_eq!(r.unwrap_err(), ClientError::Errno(e::ENOENT));
}

#[test]
fn p07_protocol_equivalence_under_random_ops() {
    let mut h = Harness::new();
    let a = h.create(ROOT_INO, "a").unwrap();
    let fh = h.open(a.ino).unwrap();
    h.write(a.ino, fh, 0, b"alpha").unwrap();
    h.release(a.ino, fh).unwrap();
    h.mkdir(ROOT_INO, "d").unwrap();
    let d = h.lookup(ROOT_INO, "d").unwrap();
    h.create(d.ino, "x").unwrap();
    let x = h.lookup(d.ino, "x").unwrap();
    let fh = h.open(x.ino).unwrap();
    h.write(x.ino, fh, 0, b"deep").unwrap();
    h.release(x.ino, fh).unwrap();
    let a2 = h.create(ROOT_INO, "a2").unwrap();
    let fh = h.open(a2.ino).unwrap();
    h.write(a2.ino, fh, 0, b"AAAA").unwrap();
    h.release(a2.ino, fh).unwrap();
    h.unlink(ROOT_INO, "a").unwrap();

    let snapshot = h.host.fs().snapshot();
    let content = |name: &str| {
        snapshot.iter().find(|s| s.path.same(&p(name))).and_then(|s| s.content.clone())
    };
    assert_eq!(content("a"), None);
    assert_eq!(content("a2"), Some(Bytes::from_static(b"AAAA")));
    assert_eq!(content("d/x"), Some(Bytes::from_static(b"deep")));
}

#[test]
fn s13_transit_corruption_surfaces_eio() {
    let mut h = Harness::new();
    let attr = h.create(ROOT_INO, "f").unwrap();
    let fh = h.open(attr.ino).unwrap();
    h.write(attr.ino, fh, 0, b"correct-bytes-here").unwrap();
    for candidate in 1..50 {
        h.s2c.set_corruption(candidate, 3);
    }
    let r = h.read(attr.ino, fh, 0, 64);
    assert!(
        matches!(r, Err(ClientError::Errno(errno)) if errno == e::EIO),
        "expected EIO on corrupted transit, got {r:?}"
    );
}

// ---- the cache ----

/// The cache before the harness, driven by hand.
struct Cached {
    h: Harness,
    cache: CacheState,
    now: u64,
}

impl Cached {
    fn new(config: CacheConfig) -> Cached {
        Cached { h: Harness::new(), cache: CacheState::new(config), now: 1 }
    }

    fn stats(&self) -> CacheStats {
        self.cache.stats()
    }

    fn create(&mut self, name: &str) -> FileAttr {
        let attr = self.h.create(ROOT_INO, name).unwrap();
        self.cache.entry_learned(self.now, ROOT_INO, name, attr);
        attr
    }

    fn lookup(&mut self, name: &str) -> Result<FileAttr, ClientError> {
        if let Some(r) = self.cache.lookup_begin(self.now, ROOT_INO, name) {
            return r;
        }
        let r = self.h.lookup(ROOT_INO, name);
        self.cache.lookup_finish(self.now, ROOT_INO, name, r)
    }

    fn getattr(&mut self, ino: Ino) -> FileAttr {
        if let Some(attr) = self.cache.getattr_begin(self.now, ino) {
            return attr;
        }
        let attr = self.h.getattr(ino).unwrap();
        self.cache.getattr_finish(self.now, ino, attr)
    }

    fn read(&mut self, ino: Ino, fh: u64, offset: u64, size: u32) -> Bytes {
        let mut op = match self.cache.read_begin(ino, offset, size) {
            Some(op) => op,
            None => {
                let data = self.h.read(ino, fh, offset, size).unwrap();
                return self.cache.read_direct(ino, offset, size, &data);
            }
        };
        loop {
            match self.cache.read_step(&mut op) {
                ReadStep::Continue => {}
                ReadStep::Fetch(fetch) => {
                    let (data, generation) =
                        self.h.read_with_generation(ino, fh, fetch.offset, fetch.size).unwrap();
                    self.cache.read_fetched(&mut op, fetch, data, generation);
                }
                ReadStep::Done => return self.cache.read_end(op),
            }
        }
    }

    fn write(&mut self, ino: Ino, fh: u64, offset: u64, data: &[u8]) {
        assert_eq!(self.cache.write(ino, fh, offset, data), data.len() as u32);
    }

    fn flush(&mut self, ino: Ino) -> Result<(), ClientError> {
        loop {
            match self.cache.barrier_step(ino) {
                BarrierStep::Send(w) => {
                    let r = self.h.write(ino, w.handle, w.offset, &w.data);
                    self.cache.flush_answered(ino, r);
                }
                BarrierStep::Wait => panic!("nothing else sends"),
                BarrierStep::Forward(flushed) => return flushed,
            }
        }
    }

    fn fsync(&mut self, ino: Ino, fh: u64) -> Result<(), ClientError> {
        let flushed = self.flush(ino);
        let host = self.h.fsync(ino, fh);
        barrier_end(flushed, host)
    }
}

fn small_chunks(max_chunks: usize) -> CacheConfig {
    CacheConfig {
        content: ContentCacheConfig { chunk_size: 16, max_bytes: 16 * max_chunks },
        ..Default::default()
    }
}

#[test]
fn getattr_caches_after_first_call() {
    let mut c = Cached::new(CacheConfig::default());
    let attr = c.create("a");
    c.getattr(attr.ino);
    c.getattr(attr.ino);
    assert!(c.stats().hits_attr >= 1);
}

#[test]
fn lookup_caches_positive() {
    let mut c = Cached::new(CacheConfig::default());
    c.create("a");
    c.lookup("a").unwrap();
    c.lookup("a").unwrap();
    assert!(c.stats().hits_lookup >= 1);
}

#[test]
fn negative_lookup_is_cached() {
    let mut c = Cached::new(CacheConfig::default());
    let r1 = c.lookup("missing");
    let r2 = c.lookup("missing");
    assert_eq!(r1.unwrap_err(), ClientError::Errno(e::ENOENT));
    assert_eq!(r2.unwrap_err(), ClientError::Errno(e::ENOENT));
    assert!(c.stats().hits_negative >= 1);
}

#[test]
fn negative_cache_expires_after_ttl() {
    let mut c = Cached::new(CacheConfig { negative_ttl: 50_000_000, ..Default::default() });
    assert_eq!(c.lookup("appears").unwrap_err(), ClientError::Errno(e::ENOENT));
    c.h.host.fs_mut().create(&p("appears"), 0o644).unwrap();
    assert_eq!(c.lookup("appears").unwrap_err(), ClientError::Errno(e::ENOENT));
    c.now += 80_000_000;
    assert!(c.lookup("appears").is_ok());
}

#[test]
fn push_invalidate_attr_drops_cache() {
    let mut c = Cached::new(CacheConfig::default());
    let attr = c.create("a");
    c.getattr(attr.ino);
    c.cache.apply_push(Push::InvalidateAttr { ino: attr.ino });
    c.getattr(attr.ino);
    assert!(c.stats().misses_attr >= 1);
}

#[test]
fn push_invalidate_entry_drops_lookup() {
    let mut c = Cached::new(CacheConfig::default());
    c.create("a");
    c.lookup("a").unwrap();
    c.cache.apply_push(Push::InvalidateEntry {
        parent: ROOT_INO,
        name: "a".to_string(),
        ino: None,
    });
    let before = c.stats();
    c.lookup("a").unwrap();
    assert!(c.stats().misses_lookup > before.misses_lookup);
}

#[test]
fn resync_clears_everything() {
    let mut c = Cached::new(CacheConfig::default());
    c.create("a");
    c.create("b");
    c.lookup("a").unwrap();
    c.lookup("b").unwrap();
    assert!(c.stats().attr_entries >= 2);
    c.cache.apply_push(Push::Resync { epoch: 1 });
    assert_eq!(c.stats().attr_entries, 0);
    assert_eq!(c.stats().lookup_entries, 0);
}

#[test]
fn write_invalidates_attr_for_size_change() {
    let mut c = Cached::new(CacheConfig::default());
    let attr = c.create("f");
    let fh = c.h.open(attr.ino).unwrap();
    c.write(attr.ino, fh, 0, b"hello");
    assert_eq!(c.getattr(attr.ino).size, 5);
}

#[test]
fn content_cache_serves_repeat_reads_from_cache() {
    let mut c = Cached::new(small_chunks(8));
    let attr = c.create("f");
    let fh = c.h.open(attr.ino).unwrap();
    c.write(attr.ino, fh, 0, b"hello-world-xyz!");
    c.fsync(attr.ino, fh).unwrap();
    let r1 = c.read(attr.ino, fh, 0, 16);
    let r2 = c.read(attr.ino, fh, 0, 16);
    let r3 = c.read(attr.ino, fh, 0, 16);
    assert_eq!(&r1[..], b"hello-world-xyz!");
    assert_eq!(r1, r2);
    assert_eq!(r2, r3);
    assert!(c.stats().hits_content >= 2);
}

#[test]
fn content_cache_invalidated_by_write() {
    let mut c = Cached::new(small_chunks(8));
    let attr = c.create("f");
    let fh = c.h.open(attr.ino).unwrap();
    c.write(attr.ino, fh, 0, b"original");
    let r1 = c.read(attr.ino, fh, 0, 16);
    c.write(attr.ino, fh, 0, b"replaced");
    let r2 = c.read(attr.ino, fh, 0, 16);
    assert!(r1.starts_with(b"original"));
    assert!(r2.starts_with(b"replaced"));
}

#[test]
fn content_cache_evicts_under_pressure() {
    let mut c = Cached::new(small_chunks(2));
    for n in ["a", "b", "c"] {
        let attr = c.create(n);
        let fh = c.h.open(attr.ino).unwrap();
        c.write(attr.ino, fh, 0, b"data-data-data!");
        c.fsync(attr.ino, fh).unwrap();
        c.read(attr.ino, fh, 0, 16);
    }
    assert!(c.stats().evictions_content >= 1);
    assert_eq!(c.stats().content_chunks, 2);
}

#[test]
fn content_cache_invalidate_data_push_drops_chunks() {
    let mut c = Cached::new(small_chunks(8));
    let attr = c.create("f");
    let fh = c.h.open(attr.ino).unwrap();
    c.write(attr.ino, fh, 0, b"FROM-SPRITE!!!!!");
    c.fsync(attr.ino, fh).unwrap();
    c.read(attr.ino, fh, 0, 16);
    c.h.host.fs_mut().write(&p("f"), 0, b"FROM-HOST!!!!!!!").unwrap();
    c.cache.apply_push(Push::InvalidateData {
        ino: attr.ino,
        offset: 0,
        len: 16,
        generation: 99,
    });
    let bytes = c.read(attr.ino, fh, 0, 16);
    assert_eq!(&bytes[..], b"FROM-HOST!!!!!!!");
}

#[test]
fn write_back_read_sees_unflushed_writes() {
    let mut c = Cached::new(CacheConfig::default());
    let attr = c.create("wb");
    let fh = c.h.open(attr.ino).unwrap();
    c.write(attr.ino, fh, 0, b"buffered!");
    assert_eq!(&c.read(attr.ino, fh, 0, 16)[..], b"buffered!");
    let fh2 = c.h.open(attr.ino).unwrap();
    assert_eq!(&c.read(attr.ino, fh2, 0, 16)[..], b"buffered!");
    assert_eq!(c.h.host.fs().read(&p("wb"), 0, 16).unwrap().len(), 0);
    c.fsync(attr.ino, fh).unwrap();
    let host_bytes = c.h.host.fs().read(&p("wb"), 0, 16).unwrap();
    assert_eq!(&host_bytes[..], b"buffered!");
}

#[test]
fn large_reads_see_unflushed_writes_too() {
    let mut c = Cached::new(small_chunks(8));
    let attr = c.create("wb");
    let fh = c.h.open(attr.ino).unwrap();
    c.write(attr.ino, fh, 0, &[b'a'; 100]);
    c.fsync(attr.ino, fh).unwrap();
    c.write(attr.ino, fh, 10, b"XYZ");
    c.write(attr.ino, fh, 98, b"end!");
    let bytes = c.read(attr.ino, fh, 0, 200);
    assert_eq!(bytes.len(), 102);
    assert_eq!(&bytes[8..15], b"aaXYZaa");
    assert_eq!(&bytes[96..], b"aaend!");
}

#[test]
fn race_invalidation_before_response_drops_stale_fetch() {
    let mut c = Cached::new(small_chunks(8));
    let attr = c.create("x");
    let fh = c.h.open(attr.ino).unwrap();
    c.write(attr.ino, fh, 0, b"v1-data!!!!!!!!!");
    c.fsync(attr.ino, fh).unwrap();
    c.read(attr.ino, fh, 0, 16);
    assert!(c.stats().content_chunks >= 1);
    c.cache.apply_push(Push::InvalidateData {
        ino: attr.ino,
        offset: 0,
        len: 0,
        generation: 999_999,
    });
    c.read(attr.ino, fh, 0, 16);
    assert!(c.stats().stale_fetches_dropped > 0);
}

#[test]
fn cache_transparency_under_random_reads() {
    let mut c = Cached::new(small_chunks(4));
    let attr = c.create("f");
    let fh = c.h.open(attr.ino).unwrap();
    let payload: Vec<u8> = (0..200u8).collect();
    c.write(attr.ino, fh, 0, &payload);
    c.flush(attr.ino).unwrap();
    for i in 0..100u64 {
        let offset = (i * 37) % 200;
        let size = ((i * 11) % 64).max(1) as u32;
        let from_cache = c.read(attr.ino, fh, offset, size);
        let truth = c.h.host.fs().read(&p("f"), offset, size).unwrap();
        assert_eq!(from_cache, truth, "divergence at offset {offset} size {size}");
    }
}

#[test]
fn reads_over_buffered_writes_are_the_file_with_the_writes() {
    let mut c = Cached::new(small_chunks(4));
    let attr = c.create("f");
    let fh = c.h.open(attr.ino).unwrap();
    let mut model: Vec<u8> = (0..90u8).collect();
    c.write(attr.ino, fh, 0, &model);
    c.flush(attr.ino).unwrap();
    for (at, data) in [(5usize, &b"abc"[..]), (14, b"defghi"), (6, b"Z"), (100, b"tail")] {
        c.write(attr.ino, fh, at as u64, data);
        if model.len() < at + data.len() {
            model.resize(at + data.len(), 0);
        }
        model[at..at + data.len()].copy_from_slice(data);
    }
    assert_eq!(c.getattr(attr.ino).size, model.len() as u64);
    for offset in 0..model.len() {
        for size in [1usize, 7, 16, 40] {
            let end = (offset + size).min(model.len());
            let got = c.read(attr.ino, fh, offset as u64, size as u32);
            assert_eq!(&got[..], &model[offset..end], "offset {offset} size {size}");
        }
    }
}

#[test]
fn rename_invalidates_both_lookup_keys() {
    let mut c = Cached::new(CacheConfig::default());
    c.create("a");
    c.lookup("a").unwrap();
    c.h.rename(ROOT_INO, "a", "b").unwrap();
    c.cache.entry_gone(ROOT_INO, "a");
    c.cache.entry_gone(ROOT_INO, "b");
    assert_eq!(c.lookup("a").unwrap_err(), ClientError::Errno(e::ENOENT));
    assert!(c.lookup("b").is_ok());
}

#[test]
fn a_failed_write_surfaces_once() {
    let mut c = Cached::new(CacheConfig::default());
    let attr = c.create("f");
    let fh = c.h.open(attr.ino).unwrap();
    c.write(attr.ino, fh, 0, b"lost");
    c.h.host.fs_mut().unlink(&p("f")).unwrap();
    assert_eq!(c.flush(attr.ino).unwrap_err(), ClientError::Errno(e::ENOENT));
    assert_eq!(c.flush(attr.ino), Ok(()));
}

#[test]
fn a_directory_page_primes_the_cache() {
    let mut c = Cached::new(CacheConfig::default());
    let attr = c.h.create(ROOT_INO, "x").unwrap();
    let entry = DirEntryPlus { name: "x".to_string(), kind: FileKind::Regular, attr };
    c.cache.page_learned(c.now, ROOT_INO, &vec![entry]);
    assert_eq!(c.lookup("x").unwrap(), attr);
    assert_eq!(c.getattr(attr.ino), attr);
    assert_eq!(c.stats().misses_lookup, 0);
    assert_eq!(c.stats().misses_attr, 0);
    c.now += 2 * SECOND_NS;
    c.lookup("x").unwrap();
    assert_eq!(c.stats().misses_lookup, 1);
}

#[test]
fn prefilled_chunks_are_used() {
    let mut c = Cached::new(small_chunks(8));
    let attr = c.create("f");
    let fh = c.h.open(attr.ino).unwrap();
    let prefill = |chunk_size: u32, generation: u64| Push::Prefill {
        ino: attr.ino,
        chunk_idx: 0,
        chunk_size,
        data: Bytes::from_static(b"sent before"),
        generation,
    };
    c.cache.apply_push(prefill(32, 0));
    assert_eq!(c.stats().content_chunks, 0);
    c.cache.apply_push(prefill(16, 0));
    let once = c.stats();
    c.cache.apply_push(prefill(16, 0));
    assert_eq!(c.stats(), once);
    assert_eq!(&c.read(attr.ino, fh, 5, 16)[..], b"before");
    assert_eq!(c.stats().misses_content, 0);
    c.cache.apply_push(Push::InvalidateData {
        ino: attr.ino,
        offset: 0,
        len: 0,
        generation: 3,
    });
    c.cache.apply_push(prefill(16, 2));
    assert_eq!(c.stats().content_chunks, 0);
    assert_eq!(c.stats().stale_fetches_dropped, 1);
}

#[test]
fn truncating_drops_what_was_kept() {
    let mut c = Cached::new(small_chunks(8));
    let attr = c.create("f");
    let fh = c.h.open(attr.ino).unwrap();
    c.write(attr.ino, fh, 0, b"0123456789");
    c.fsync(attr.ino, fh).unwrap();
    c.read(attr.ino, fh, 0, 10);
    unwrap_ok(c.h.call(Request::Truncate { ino: attr.ino, size: 4 }).unwrap()).unwrap();
    c.cache.truncated(attr.ino);
    assert_eq!(&c.read(attr.ino, fh, 0, 10)[..], b"0123");
    unwrap_ok(c.h.call(Request::Chmod { ino: attr.ino, mode: 0o600 }).unwrap()).unwrap();
    c.cache.chmodded(attr.ino);
    assert_eq!(c.getattr(attr.ino).mode, 0o600);
}

#[test]
fn a_writer_waits_when_too_much_waits() {
    let mut c = Cached::new(CacheConfig::default());
    for i in 0..256u64 {
        assert!(!c.cache.is_backed_up(5));
        c.cache.write(5, 1, i, b"x");
    }
    assert!(c.cache.is_backed_up(5));
    let first = c.cache.take_flush(5).unwrap();
    assert_eq!(first.offset, 0);
    assert!(c.cache.take_flush(5).is_none());
    assert!(!c.cache.is_drained(5));
    c.cache.flush_answered(5, Ok(1));
    assert_eq!(c.cache.take_flush(5).unwrap().offset, 1);
}

#[test]
fn a_barrier_waits_for_every_write() {
    let mut c = Cached::new(CacheConfig::default());
    c.cache.write(5, 1, 0, b"ab");
    c.cache.write(5, 2, 1, b"cd");
    match c.cache.barrier_step(5) {
        BarrierStep::Send(w) => assert_eq!((w.offset, w.handle, &w.data[..]), (0, 1, &b"ab"[..])),
        other => panic!("unexpected: {other:?}"),
    }
    assert!(matches!(c.cache.barrier_step(5), BarrierStep::Wait));
    c.cache.flush_answered(5, Err(ClientError::Errno(e::EACCES)));
    match c.cache.barrier_step(5) {
        BarrierStep::Send(w) => assert_eq!((w.offset, w.handle, &w.data[..]), (1, 2, &b"cd"[..])),
        other => panic!("unexpected: {other:?}"),
    }
    c.cache.flush_answered(5, Ok(2));
    match c.cache.barrier_step(5) {
        BarrierStep::Forward(r) => assert_eq!(r, Err(ClientError::Errno(e::EACCES))),
        other => panic!("unexpected: {other:?}"),
    }
    match c.cache.barrier_step(5) {
        BarrierStep::Forward(r) => assert_eq!(r, Ok(())),
        other => panic!("unexpected: {other:?}"),
    }
    assert!(c.cache.is_drained(5));
    assert_eq!(c.cache.drained(5), Ok(()));
}

#[test]
fn a_barrier_joins_both_outcomes() {
    let a = ClientError::Errno(e::EACCES);
    let b = ClientError::Errno(e::EIO);
    assert_eq!(barrier_end(Ok(()), Ok(())), Ok(()));
    assert_eq!(barrier_end(Err(a), Ok(())), Err(a));
    assert_eq!(barrier_end(Ok(()), Err(b)), Err(b));
    assert_eq!(barrier_end(Err(a), Err(b)), Err(a));
}

#[test]
fn a_late_chunk_changes_only_the_counts() {
    let mut c = Cached::new(small_chunks(4));
    let drop_all = Push::InvalidateData { ino: 7, offset: 0, len: 0, generation: 3 };
    c.cache.apply_push(drop_all);
    for n in 1..3 {
        c.cache.apply_push(Push::Prefill {
            ino: 7,
            chunk_idx: 0,
            chunk_size: 16,
            data: Bytes::from_static(b"old"),
            generation: 2,
        });
        assert_eq!(c.stats().stale_fetches_dropped, n);
        assert_eq!(c.stats().content_chunks, 0);
    }
}

#[test]
fn chunks_sent_ahead_are_counted() {
    let mut c = Cached::new(small_chunks(400));
    let mut tally = PrefillTally::new();
    assert!(!tally.any());
    let chunk = |chunk_idx: u64, chunk_size: u32, generation: u64| Push::Prefill {
        ino: 7,
        chunk_idx,
        chunk_size,
        data: Bytes::from_static(b"abc"),
        generation,
    };
    let drop_all = Push::InvalidateData { ino: 7, offset: 0, len: 0, generation: 3 };
    assert!(!c.cache.apply_push_counted(drop_all, &mut tally));
    assert!(!tally.any());
    assert!(!c.cache.apply_push_counted(chunk(0, 8, 3), &mut tally));
    assert!(!c.cache.apply_push_counted(chunk(0, 16, 2), &mut tally));
    for i in 0..61 {
        assert!(!c.cache.apply_push_counted(chunk(i, 16, 3), &mut tally));
    }
    assert!(c.cache.apply_push_counted(chunk(61, 16, 3), &mut tally));
    assert_eq!(
        tally,
        PrefillTally { accepted: 62, bytes: 186, wrong_size: 1, stale: 1 }
    );
    assert!(!c.cache.apply_push_counted(chunk(62, 16, 3), &mut tally));
    assert_eq!(c.stats().content_chunks, 63);
    assert!(!tally.count(PrefillOutcome::Stale));
    assert!(tally.any());
}

#[test]
fn a_failed_lookup_is_kept_for_a_time() {
    let mut c = Cached::new(CacheConfig::default());
    assert_eq!(c.lookup("late").unwrap_err(), ClientError::Errno(e::ENOENT));
    c.h.host.fs_mut().create(&p("late"), 0o644).unwrap();
    c.cache.apply_push(Push::InvalidateAttr { ino: 99 });
    c.now += SECOND_NS - 1;
    assert_eq!(c.lookup("late").unwrap_err(), ClientError::Errno(e::ENOENT));
    c.now += 1;
    assert!(c.lookup("late").is_ok());
}

#[test]
fn a_resync_asks_for_everything_again() {
    let mut c = Cached::new(CacheConfig::default());
    let attr = c.create("f");
    assert_eq!(c.lookup("f").unwrap(), attr);
    assert_eq!(c.stats().misses_lookup, 0);
    c.cache.apply_push(Push::Resync { epoch: 1 });
    assert_eq!(c.stats().attr_entries, 0);
    assert_eq!(c.stats().lookup_entries, 0);
    c.lookup("f").unwrap();
    assert_eq!(c.stats().misses_lookup, 1);
}

#[test]
fn buffered_writes_reach_the_host_in_order() {
    let mut c = Cached::new(CacheConfig::default());
    let attr = c.create("f");
    let fh = c.h.open(attr.ino).unwrap();
    c.write(attr.ino, fh, 0, b"aaaa");
    c.write(attr.ino, fh, 2, b"bbbb");
    c.write(attr.ino, fh, 1, b"c");
    let before = c.read(attr.ino, fh, 0, 16);
    assert_eq!(&before[..], b"acbbbb");
    c.flush(attr.ino).unwrap();
    assert_eq!(c.read(attr.ino, fh, 0, 16), before);
}

#[test]
fn a_change_on_the_host_reaches_the_cache() {
    let mut c = Cached::new(CacheConfig::default());
    let attr = c.create("f");
    let fh = c.h.open(attr.ino).unwrap();
    c.read(attr.ino, fh, 0, 16);
    c.h.host.fs_mut().write(&p("f"), 0, b"edited").unwrap();
    assert_eq!(c.getattr(attr.ino).size, 0);
    let paths = vec![p("/share/f")];
    let kind = EventKind::Modify(ModifyKind::Data);
    for push in c.h.host.observe(&p("/share"), kind, &paths) {
        c.cache.apply_push(push);
    }
    assert_eq!(c.getattr(attr.ino).size, 6);
    assert_eq!(&c.read(attr.ino, fh, 0, 16)[..], b"edited");

    c.h.host.fs_mut().unlink(&p("f")).unwrap();
    assert!(c.lookup("f").is_ok());
    let kind = EventKind::Remove(RemoveKind::File);
    for push in c.h.host.observe(&p("/share"), kind, &paths) {
        c.cache.apply_push(push);
    }
    assert!(c.lookup("f").is_err());
}
