//! Sharing a directory with a sprite: what to share, and how the sprite is
//! made ready.

use vstd::prelude::*;

use crate::naming::is_alnum;
use crate::sprites::exec::ExecResult;
use crate::text::{
    all_digits, chars_of, concat, decimal, first_index, lemma_decimal, number, signed_decimal,
    signed_number, split_once, views,
};

verus! {

/// A directory of the host, and where it appears in the sprite.
#[derive(Debug, PartialEq, Eq)]
pub struct ShareSpec {
    pub local: String,
    pub remote: String,
}

/// What stands before the first colon.
pub open spec fn local_of(spec: Seq<char>) -> Seq<char> {
    spec.take(first_index(spec, ':'))
}

/// What stands after the first colon.
pub open spec fn remote_of(spec: Seq<char>) -> Seq<char> {
    spec.skip(first_index(spec, ':') + 1)
}

/// Whether a path begins at the root.
pub open spec fn rooted(path: Seq<char>) -> bool {
    path.len() > 0 && path[0] == '/'
}

/// Whether a path begins at the root.
fn is_rooted(path: &str) -> (r: bool)
    ensures
        r == rooted(path@),
{
    let v: Vec<char> = chars_of(path);
    v.len() > 0 && v[0] == '/'
}

impl ShareSpec {
    /// The directory that a specification names, where it names one.
    pub fn local_part(spec: &str) -> (r: Option<String>)
        ensures
            r is Some <==> first_index(spec@, ':') < spec@.len(),
            r matches Some(l) ==> l@ == local_of(spec@),
    {
        match split_once(spec, ':') {
            Some((local, _remote)) => Some(local),
            None => None,
        }
    }

    /// Read `LOCAL:REMOTE`. Both are absolute, and `is_dir` says whether the
    /// first is a directory.
    pub fn parse(spec: &str, is_dir: bool) -> (r: Result<ShareSpec, String>)
        ensures
            match r {
                Ok(s) => {
                    &&& first_index(spec@, ':') < spec@.len()
                    &&& rooted(local_of(spec@))
                    &&& is_dir
                    &&& rooted(remote_of(spec@))
                    &&& s.local@ == local_of(spec@)
                    &&& s.remote@ == remote_of(spec@)
                },
                Err(e) => if first_index(spec@, ':') >= spec@.len() {
                    e@ == "share must be LOCAL:REMOTE"@
                } else if !rooted(local_of(spec@)) {
                    e@ == "local share path must be absolute: "@ + local_of(spec@)
                } else if !is_dir {
                    e@ == "local share path is not a directory: "@ + local_of(spec@)
                } else {
                    !rooted(remote_of(spec@)) && e@ == "remote mount point must be absolute: "@
                        + remote_of(spec@)
                },
            },
    {
        match split_once(spec, ':') {
            Some((local, remote)) => {
                if !is_rooted(&local) {
                    return Err(concat("local share path must be absolute: ", &local));
                }
                if !is_dir {
                    return Err(concat("local share path is not a directory: ", &local));
                }
                if !is_rooted(&remote) {
                    return Err(concat("remote mount point must be absolute: ", &remote));
                }
                Ok(ShareSpec { local, remote })
            },
            None => Err("share must be LOCAL:REMOTE".to_owned()),
        }
    }
}

/// A character of a path in a file name: letters and digits stay, a slash is an
/// underscore, and everything else is its number between dashes.
pub open spec fn file_char(c: char) -> Seq<char> {
    if is_alnum(c) {
        seq![c]
    } else if c == '/' {
        seq!['_']
    } else {
        seq!['-'] + decimal(c as u32 as nat) + seq!['-']
    }
}

/// A path in the characters of a file name.
pub open spec fn file_chars(s: Seq<char>) -> Seq<char>
    decreases s.len(),
{
    if s.len() == 0 {
        Seq::empty()
    } else {
        file_chars(s.drop_last()) + file_char(s.last())
    }
}

/// A path without the slash that it begins with.
pub open spec fn unrooted(path: Seq<char>) -> Seq<char> {
    if rooted(path) {
        path.skip(1)
    } else {
        path
    }
}

/// Where the daemon of a mount writes its log.
pub open spec fn log_path(mount: Seq<char>) -> Seq<char> {
    "/tmp/spritebox-fsd-"@ + file_chars(unrooted(mount)) + ".log"@
}

/// Where the daemon of a mount writes its log: no two mounts share one.
pub fn log_path_for(remote_mount: &str) -> (r: String)
    ensures
        r@ == log_path(remote_mount@),
{
    let v: Vec<char> = chars_of(remote_mount);
    let ghost path = unrooted(remote_mount@);
    let from: usize = if is_rooted(remote_mount) {
        1
    } else {
        0
    };
    assert(path =~= v@.skip(from as int));
    let mut name: String = String::new();
    let mut i: usize = from;
    assert(name@ =~= file_chars(path.take(0)));
    while i < v.len()
        invariant
            from <= i <= v@.len(),
            path == v@.skip(from as int),
            name@ == file_chars(path.take(i - from)),
        decreases v@.len() - i,
    {
        let c: char = v[i];
        let ghost before = name@;
        proof {
            assert(path.take(i - from + 1).drop_last() =~= path.take(i - from));
            assert(path.take(i - from + 1).last() == c);
        }
        if ('a' <= c && c <= 'z') || ('A' <= c && c <= 'Z') || ('0' <= c && c <= '9') {
            name.push(c);
        } else if c == '/' {
            name.push('_');
        } else {
            name.push('-');
            name = concat(&name, &number(c as u32 as u64));
            name.push('-');
        }
        assert(name@ =~= before + file_char(c));
        i += 1;
    }
    assert(path.take(path.len() as int) =~= path);
    concat(&concat("/tmp/spritebox-fsd-", &name), ".log")
}

/// Two paths in the characters of a file name differ where the paths do.
proof fn lemma_file_chars_apart(a: Seq<char>, b: Seq<char>)
    requires
        file_chars(a) == file_chars(b),
    ensures
        a == b,
    decreases a.len(),
{
    let x = file_chars(a);
    if a.len() > 0 {
        lemma_file_char(a.last());
    }
    if b.len() > 0 {
        lemma_file_char(b.last());
    }
    if a.len() == 0 || b.len() == 0 {
        assert(a =~= b);
    } else {
        let (c, d) = (a.last(), b.last());
        let (pc, pd) = (file_chars(a.drop_last()), file_chars(b.drop_last()));
        let (fc, fd) = (file_char(c), file_char(d));
        assert(x.last() == fc.last() && x.last() == fd.last());
        if x.last() == '-' {
            let (m, n) = (decimal(c as u32 as nat), decimal(d as u32 as nat));
            assert(fc.len() == m.len() + 2 && fd.len() == n.len() + 2);
            assert(forall|i: int| 0 <= i < m.len() ==> #[trigger] m[i] == fc[i + 1]);
            assert(forall|i: int| 0 <= i < n.len() ==> #[trigger] n[i] == fd[i + 1]);
            let (at, bt) = (x.len() - fc.len(), x.len() - fd.len());
            assert(x[at] == fc[0] && x[bt] == fd[0]);
            if at > bt {
                assert(n[at - bt - 1] == x[at]);
            } else if bt > at {
                assert(m[bt - at - 1] == x[bt]);
            }
            assert(m =~= x.subrange(at + 1, x.len() - 1));
            assert(n =~= x.subrange(bt + 1, x.len() - 1));
            lemma_decimal(c as u32 as nat);
            lemma_decimal(d as u32 as nat);
            lemma_same_char(c, d);
        }
        assert(c == d);
        assert(pc =~= x.take(x.len() - fc.len()));
        assert(pd =~= x.take(x.len() - fd.len()));
        lemma_file_chars_apart(a.drop_last(), b.drop_last());
        assert(a =~= a.drop_last().push(c));
        assert(b =~= b.drop_last().push(d));
    }
}

proof fn lemma_same_char(c: char, d: char)
    requires
        c as u32 == d as u32,
    ensures
        c == d,
{
}

/// How a character is written: only an escaped one ends with a dash.
proof fn lemma_file_char(c: char)
    ensures
        file_char(c).len() > 0,
        file_char(c).last() == '-' <==> !is_alnum(c) && c != '/',
        file_char(c).last() == '_' <==> c == '/',
        file_char(c).last() != '-' ==> file_char(c).len() == 1,
        all_digits(decimal(c as u32 as nat)),
{
    lemma_decimal(c as u32 as nat);
}

/// Two mounts write to two logs, so shares that run at the same time do not
/// collide.
pub proof fn law_logs_apart(a: Seq<char>, b: Seq<char>)
    requires
        rooted(a),
        rooted(b),
        a != b,
    ensures
        log_path(a) != log_path(b),
{
    if log_path(a) == log_path(b) {
        let front = "/tmp/spritebox-fsd-"@;
        let back = ".log"@;
        let (x, y) = (file_chars(unrooted(a)), file_chars(unrooted(b)));
        let n = front.len() as int;
        assert(x =~= log_path(a).subrange(n, log_path(a).len() - back.len()));
        assert(y =~= log_path(b).subrange(n, log_path(b).len() - back.len()));
        lemma_file_chars_apart(unrooted(a), unrooted(b));
        assert(a =~= seq!['/'] + a.skip(1));
        assert(b =~= seq!['/'] + b.skip(1));
    }
}

/// Where the daemon is found: where the user says, or where a release or a
/// debug build puts it.
pub fn locate_daemon_binary(
    explicit: Option<(&str, bool)>,
    release_exists: bool,
    debug_exists: bool,
) -> (r: Result<String, String>)
    ensures
        match explicit {
            Some((path, exists)) => if exists {
                r is Ok && r->Ok_0@ == path@
            } else {
                r is Err && r->Err_0@ == "daemon binary not found at: "@ + path@
            },
            None => if release_exists {
                r is Ok && r->Ok_0@ == "target/x86_64-unknown-linux-gnu/release/spritebox-fsd"@
            } else if debug_exists {
                r is Ok && r->Ok_0@ == "target/x86_64-unknown-linux-gnu/debug/spritebox-fsd"@
            } else {
                r is Err && r->Err_0@
                    == "spritebox-fsd binary not found. Build it via:\n\tdocker run --rm -v \"$(pwd)\":/work -w /work rust:1 \\\n\t    cargo build --release -p spritebox-fsd --target x86_64-unknown-linux-gnu\n\tor pass --daemon <path>"@
            },
        },
{
    match explicit {
        Some((path, exists)) => if exists {
            Ok(path.to_owned())
        } else {
            Err(concat("daemon binary not found at: ", path))
        },
        None => if release_exists {
            Ok("target/x86_64-unknown-linux-gnu/release/spritebox-fsd".to_owned())
        } else if debug_exists {
            Ok("target/x86_64-unknown-linux-gnu/debug/spritebox-fsd".to_owned())
        } else {
            Err(
                "spritebox-fsd binary not found. Build it via:\n\tdocker run --rm -v \"$(pwd)\":/work -w /work rust:1 \\\n\t    cargo build --release -p spritebox-fsd --target x86_64-unknown-linux-gnu\n\tor pass --daemon <path>".to_owned(),
            )
        },
    }
}

/// A step in making a sprite ready for a share.
#[derive(Debug, PartialEq, Eq, Clone, Copy, Structural)]
pub enum ProvisionStep {
    /// Let the daemon open the device.
    OpenDevice,
    /// Let other users see the mount.
    AllowOthers,
    /// Put the daemon in place; its bytes are the input.
    InstallDaemon,
    /// Take away what is mounted there and make the directory.
    PrepareMount,
}

/// The command of a step, word by word.
pub open spec fn step_words(step: ProvisionStep, mount: Seq<char>) -> Seq<Seq<char>> {
    match step {
        ProvisionStep::OpenDevice => seq!["sudo"@, "chmod"@, "666"@, "/dev/fuse"@],
        ProvisionStep::AllowOthers => seq![
            "sudo"@,
            "sh"@,
            "-c"@,
            "grep -qxF user_allow_other /etc/fuse.conf 2>/dev/null || printf '%s\\n' user_allow_other >> /etc/fuse.conf"@,
        ],
        ProvisionStep::InstallDaemon => seq![
            "bash"@,
            "-c"@,
            "cat > /usr/local/bin/spritebox-fsd && chmod +x /usr/local/bin/spritebox-fsd"@,
        ],
        ProvisionStep::PrepareMount => seq![
            "sh"@,
            "-c"@,
            "sudo umount -l "@ + mount + " 2>/dev/null; sudo mkdir -p "@ + mount,
        ],
    }
}

/// What is said of a step that failed, up to the exit code.
pub open spec fn step_name(step: ProvisionStep, mount: Seq<char>) -> Seq<char> {
    match step {
        ProvisionStep::OpenDevice => "chmod /dev/fuse"@,
        ProvisionStep::AllowOthers => "enable user_allow_other"@,
        ProvisionStep::InstallDaemon => "install daemon"@,
        ProvisionStep::PrepareMount => "mkdir "@ + mount,
    }
}

/// A vector of the words of an array.
pub(crate) fn words(list: &[&str]) -> (r: Vec<String>)
    ensures
        r@.len() == list@.len(),
        forall|i: int| 0 <= i < list@.len() ==> (#[trigger] r@[i])@ == list@[i]@,
{
    let mut out: Vec<String> = Vec::new();
    let mut i: usize = 0;
    while i < list.len()
        invariant
            i <= list@.len(),
            out@.len() == i,
            forall|k: int| 0 <= k < i ==> (#[trigger] out@[k])@ == list@[k]@,
        decreases list@.len() - i,
    {
        out.push(list[i].to_owned());
        i += 1;
    }
    out
}

/// The command of a step.
pub fn provision_command(step: ProvisionStep, mount: &str) -> (r: Vec<String>)
    ensures
        views(r@) == step_words(step, mount@),
{
    let out: Vec<String> = match step {
        ProvisionStep::OpenDevice => words(&["sudo", "chmod", "666", "/dev/fuse"]),
        ProvisionStep::AllowOthers => words(
            &[
                "sudo",
                "sh",
                "-c",
                "grep -qxF user_allow_other /etc/fuse.conf 2>/dev/null || printf '%s\\n' user_allow_other >> /etc/fuse.conf",
            ],
        ),
        ProvisionStep::InstallDaemon => words(
            &[
                "bash",
                "-c",
                "cat > /usr/local/bin/spritebox-fsd && chmod +x /usr/local/bin/spritebox-fsd",
            ],
        ),
        ProvisionStep::PrepareMount => {
            let mut script: String = concat("sudo umount -l ", mount);
            script.append(" 2>/dev/null; sudo mkdir -p ");
            script.append(mount);
            words(&["sh", "-c", script.as_str()])
        },
    };
    assert(views(out@) =~= step_words(step, mount@));
    out
}

/// What follows a step: the next one, nothing more to do, or what went wrong.
#[derive(Debug, PartialEq, Eq)]
pub enum Provision {
    Run(ProvisionStep),
    Ready,
    Failed(String),
}

/// The first step.
pub fn provision_start() -> (r: ProvisionStep)
    ensures
        r == ProvisionStep::OpenDevice,
{
    ProvisionStep::OpenDevice
}

/// What follows a step that has run: one that failed ends it.
pub fn provision_next(step: ProvisionStep, result: &ExecResult, mount: &str) -> (r: Provision)
    ensures
        if result.exit_code != 0 {
            r matches Provision::Failed(e) && e@ == step_name(step, mount@) + " failed (exit="@
                + signed_decimal(result.exit_code as int) + "): "@ + result.stderr@
        } else {
            match step {
                ProvisionStep::OpenDevice => r == Provision::Run(ProvisionStep::AllowOthers),
                ProvisionStep::AllowOthers => r == Provision::Run(ProvisionStep::InstallDaemon),
                ProvisionStep::InstallDaemon => r == Provision::Run(ProvisionStep::PrepareMount),
                ProvisionStep::PrepareMount => r == Provision::Ready,
            }
        },
{
    if result.exit_code != 0 {
        let mut e: String = match step {
            ProvisionStep::OpenDevice => "chmod /dev/fuse".to_owned(),
            ProvisionStep::AllowOthers => "enable user_allow_other".to_owned(),
            ProvisionStep::InstallDaemon => "install daemon".to_owned(),
            ProvisionStep::PrepareMount => concat("mkdir ", mount),
        };
        e.append(" failed (exit=");
        e.append(&signed_number(result.exit_code));
        e.append("): ");
        e.append(&result.stderr);
        return Provision::Failed(e);
    }
    match step {
        ProvisionStep::OpenDevice => Provision::Run(ProvisionStep::AllowOthers),
        ProvisionStep::AllowOthers => Provision::Run(ProvisionStep::InstallDaemon),
        ProvisionStep::InstallDaemon => Provision::Run(ProvisionStep::PrepareMount),
        ProvisionStep::PrepareMount => Provision::Ready,
    }
}

/// The command that runs the daemon of a mount, word by word.
pub open spec fn daemon_words(mount: Seq<char>) -> Seq<Seq<char>> {
    seq![
        "sh"@,
        "-c"@,
        "exec sudo -E sh -c 'exec /usr/local/bin/spritebox-fsd --mount \"$1\" --verbose 2>>\"$2\"' sh \"$0\" \""@
            + log_path(mount) + "\""@,
        mount,
    ]
}

/// The command that runs the daemon of a mount, with its log beside it.
pub fn daemon_command(mount: &str) -> (r: Vec<String>)
    ensures
        views(r@) == daemon_words(mount@),
{
    let mut script: String =
        "exec sudo -E sh -c 'exec /usr/local/bin/spritebox-fsd --mount \"$1\" --verbose 2>>\"$2\"' sh \"$0\" \"".to_owned();
    script.append(&log_path_for(mount));
    script.append("\"");
    let out: Vec<String> = words(&["sh", "-c", script.as_str(), mount]);
    assert(views(out@) =~= daemon_words(mount@));
    out
}

/// Error output of the daemon as it is shown.
pub fn daemon_line(chunk: &[u8]) -> (r: Vec<u8>)
    ensures
        r@ == seq![0x5bu8, 0x66u8, 0x73u8, 0x64u8, 0x5du8, 0x20u8] + chunk@,
{
    let mut out: Vec<u8> = Vec::new();
    out.push(0x5b);
    out.push(0x66);
    out.push(0x73);
    out.push(0x64);
    out.push(0x5d);
    out.push(0x20);
    let mut rest: Vec<u8> = crate::payload::copy_range(chunk, 0, chunk.len());
    assert(chunk@.subrange(0, chunk@.len() as int) =~= chunk@);
    out.append(&mut rest);
    assert(out@ =~= seq![0x5bu8, 0x66u8, 0x73u8, 0x64u8, 0x5du8, 0x20u8] + chunk@);
    out
}

/// What is shared stands before the first colon, and where it appears behind
/// it; a path begins at the root where its first character is a slash.
pub proof fn law_share_parts(local: Seq<char>, remote: Seq<char>)
    requires
        forall|i: int| 0 <= i < local.len() ==> local[i] != ':',
    ensures
        local_of(local + seq![':'] + remote) == local,
        remote_of(local + seq![':'] + remote) == remote,
        first_index(local + seq![':'] + remote, ':') < (local + seq![':'] + remote).len(),
        first_index(local, ':') >= local.len(),
        rooted(seq!['/'] + remote),
        local.len() > 0 && local[0] != '/' ==> !rooted(local),
        !rooted(Seq::empty()),
{
    let spec = local + seq![':'] + remote;
    crate::text::law_index_of(local, ':', remote);
    assert(spec.take(local.len() as int) =~= local);
    assert(spec.skip(local.len() as int + 1) =~= remote);
}

/// How a mount is written in the name of its log: letters and digits stay, a
/// slash is an underscore, and any other character is its number between
/// dashes. The slash that a mount begins with is left out.
pub proof fn law_log_names(front: Seq<char>, c: char)
    ensures
        log_path(seq!['/'] + front) == "/tmp/spritebox-fsd-"@ + file_chars(front) + ".log"@,
        file_chars(Seq::empty()) == Seq::<char>::empty(),
        ('a' <= c && c <= 'z') || ('A' <= c && c <= 'Z') || ('0' <= c && c <= '9') ==> file_chars(
            front.push(c),
        ) == file_chars(front).push(c),
        c == '/' ==> file_chars(front.push(c)) == file_chars(front).push('_'),
        !('a' <= c && c <= 'z') && !('A' <= c && c <= 'Z') && !('0' <= c && c <= '9') && c != '/'
            ==> file_chars(front.push(c)) == file_chars(front) + seq!['-'] + decimal(
            c as u32 as nat,
        ) + seq!['-'],
{
    assert((seq!['/'] + front).skip(1) =~= front);
    assert(front.push(c).drop_last() =~= front);
    assert(file_chars(front.push(c)) =~= file_chars(front) + file_char(c));
}

/// What a sprite is made ready with: the device is opened, other users may see
/// the mount, the daemon is put in place from its input, and the mount is
/// cleared and made, each by these words.
pub proof fn law_ready_words(mount: Seq<char>)
    ensures
        step_words(ProvisionStep::OpenDevice, mount) == seq![
            "sudo"@,
            "chmod"@,
            "666"@,
            "/dev/fuse"@,
        ],
        step_words(ProvisionStep::AllowOthers, mount).len() == 4,
        step_words(ProvisionStep::AllowOthers, mount)[3]
            == "grep -qxF user_allow_other /etc/fuse.conf 2>/dev/null || printf '%s\\n' user_allow_other >> /etc/fuse.conf"@,
        step_words(ProvisionStep::InstallDaemon, mount) == seq![
            "bash"@,
            "-c"@,
            "cat > /usr/local/bin/spritebox-fsd && chmod +x /usr/local/bin/spritebox-fsd"@,
        ],
        step_words(ProvisionStep::PrepareMount, mount) == seq![
            "sh"@,
            "-c"@,
            "sudo umount -l "@ + mount + " 2>/dev/null; sudo mkdir -p "@ + mount,
        ],
        daemon_words(mount).len() == 4,
        daemon_words(mount)[3] == mount,
        daemon_words(mount)[2]
            == "exec sudo -E sh -c 'exec /usr/local/bin/spritebox-fsd --mount \"$1\" --verbose 2>>\"$2\"' sh \"$0\" \""@
            + log_path(mount) + "\""@,
{
}

/// What is said of a step that failed names what was tried, and the directory
/// where one was to be made.
pub proof fn law_steps_named(a: ProvisionStep, b: ProvisionStep, mount: Seq<char>)
    ensures
        a != b ==> step_name(a, mount) != step_name(b, mount),
        step_name(ProvisionStep::PrepareMount, mount) == "mkdir "@ + mount,
        step_name(ProvisionStep::InstallDaemon, mount) == "install daemon"@,
        step_name(ProvisionStep::AllowOthers, mount) == "enable user_allow_other"@,
        step_name(ProvisionStep::OpenDevice, mount) == "chmod /dev/fuse"@,
{
    reveal_strlit("mkdir ");
    reveal_strlit("install daemon");
    reveal_strlit("enable user_allow_other");
    reveal_strlit("chmod /dev/fuse");
    assert(("mkdir "@ + mount)[0] == 'm');
    assert("install daemon"@[0] == 'i');
    assert("enable user_allow_other"@[0] == 'e');
    assert("chmod /dev/fuse"@[0] == 'c');
}

/// The daemon that was named is used, and none other, where it is there;
/// without a name the one built for release comes before the other one.
pub proof fn law_daemon_found(
    path: &str,
    there: bool,
    release: bool,
    debug: bool,
    named: Result<String, String>,
    unnamed: Result<String, String>,
)
    requires
        call_ensures(locate_daemon_binary, (Some((path, there)), release, debug), named),
        call_ensures(locate_daemon_binary, (None, release, debug), unnamed),
    ensures
        there ==> (named matches Ok(p) && p@ == path@),
        !there ==> (named matches Err(e) && e@ == "daemon binary not found at: "@ + path@),
        unnamed is Ok <==> release || debug,
        release ==> (unnamed matches Ok(p) && p@
            == "target/x86_64-unknown-linux-gnu/release/spritebox-fsd"@),
        !release && debug ==> (unnamed matches Ok(p) && p@
            == "target/x86_64-unknown-linux-gnu/debug/spritebox-fsd"@),
{
}

} // verus!
