//! Running commands in a sprite: what is sent, and what the answers mean.
//!
//! Binary frames carry a channel in their first byte: 0 is standard input, 1
//! standard output, 2 standard error, 3 the exit code, 4 the end of input.
//! Text frames carry JSON; those that begin with `control:` belong to the
//! control protocol.

use vstd::prelude::*;

use crate::payload::copy_range;
use crate::text::{
    concat, decimal, has_prefix, join, joined, number, str_eq, strip_prefix, views,
};

verus! {

/// What `String::from_utf8_lossy` makes of bytes.
pub uninterp spec fn utf8_lossy(bytes: Seq<u8>) -> Seq<char>;

/// `String::from_utf8_lossy` depends on the bytes alone; valid UTF-8 comes out
/// as the text that it encodes.
#[verifier::external_body]
pub(crate) fn lossy_text(bytes: &[u8]) -> (r: String)
    ensures
        r@ == utf8_lossy(bytes@),
        vstd::utf8::valid_utf8(bytes@) ==> r@ == vstd::utf8::decode_utf8(bytes@),
{
    String::from_utf8_lossy(bytes).into_owned()
}

/// A digit of a number in base sixteen.
pub open spec fn hex_digit(n: int) -> char {
    if n < 10 {
        ('0' as int + n) as char
    } else {
        ('a' as int + n - 10) as char
    }
}

/// A character inside a JSON string: quotes, backslashes and control characters
/// are escaped, everything else stands for itself.
pub open spec fn json_char(c: char) -> Seq<char> {
    let n = c as int;
    if c == '"' || c == '\\' {
        seq!['\\', c]
    } else if n == 0x08 {
        seq!['\\', 'b']
    } else if n == 0x09 {
        seq!['\\', 't']
    } else if n == 0x0a {
        seq!['\\', 'n']
    } else if n == 0x0c {
        seq!['\\', 'f']
    } else if n == 0x0d {
        seq!['\\', 'r']
    } else if n < 0x20 {
        seq!['\\', 'u', '0', '0', hex_digit(n / 16), hex_digit(n % 16)]
    } else {
        seq![c]
    }
}

/// A text inside a JSON string.
pub open spec fn json_chars(s: Seq<char>) -> Seq<char>
    decreases s.len(),
{
    if s.len() == 0 {
        Seq::empty()
    } else {
        json_chars(s.drop_last()) + json_char(s.last())
    }
}

/// A text as a JSON string, with its quotes.
pub open spec fn json_quoted(s: Seq<char>) -> Seq<char> {
    seq!['"'] + json_chars(s) + seq!['"']
}

/// `serde_json::Value::String` displays as the JSON string of its text: between
/// quotes, with quotes, backslashes and control characters escaped, those
/// without a letter of their own as `\u00` and two small digits in base
/// sixteen.
#[verifier::external_body]
fn quote_json(s: &str) -> (r: String)
    ensures
        r@ == json_quoted(s@),
{
    serde_json::Value::String(s.to_owned()).to_string()
}

/// How a command ended.
#[derive(Debug, PartialEq, Eq)]
pub struct ExecResult {
    pub exit_code: i32,
    pub stdout: String,
    pub stderr: String,
}

/// A control message: its type, and the exit code where it carries one.
#[derive(Debug, PartialEq, Eq)]
pub struct ControlMessage {
    pub msg_type: String,
    pub exit_code: Option<i32>,
}

/// What is known of a running command.
pub struct ExecView {
    pub stdout: Seq<u8>,
    pub stderr: Seq<u8>,
    pub exit_code: Option<i32>,
}

/// A running command: what has arrived so far.
pub struct ExecSession {
    stdout: Vec<u8>,
    stderr: Vec<u8>,
    exit_code: Option<i32>,
}

impl View for ExecSession {
    type V = ExecView;

    closed spec fn view(&self) -> ExecView {
        ExecView { stdout: self.stdout@, stderr: self.stderr@, exit_code: self.exit_code }
    }
}

/// The state after a binary frame.
pub open spec fn after_binary(v: ExecView, data: Seq<u8>) -> ExecView {
    if data.len() == 0 {
        v
    } else if data[0] == 1 {
        ExecView { stdout: v.stdout + data.skip(1), ..v }
    } else if data[0] == 2 {
        ExecView { stderr: v.stderr + data.skip(1), ..v }
    } else if data[0] == 3 {
        ExecView {
            exit_code: Some(
                if data.len() > 1 {
                    data[1] as i32
                } else {
                    0
                },
            ),
            ..v
        }
    } else {
        v
    }
}

/// Whether a text frame ends the command: not one of the control protocol, but
/// a message of type `exit`.
pub open spec fn is_exit(text: Seq<char>, control: Option<ControlMessage>) -> bool {
    !has_prefix(text, "control:"@) && control is Some && control->0.msg_type@ == "exit"@
}

/// The state after a text frame: an exit message gives the code, where no
/// frame gave it before.
pub open spec fn after_text(
    v: ExecView,
    text: Seq<char>,
    control: Option<ControlMessage>,
) -> ExecView {
    if is_exit(text, control) && v.exit_code is None {
        ExecView { exit_code: control->0.exit_code, ..v }
    } else {
        v
    }
}

impl ExecSession {
    pub fn new() -> (r: Self)
        ensures
            r@ == (ExecView { stdout: Seq::empty(), stderr: Seq::empty(), exit_code: None }),
    {
        ExecSession { stdout: Vec::new(), stderr: Vec::new(), exit_code: None }
    }

    /// Take in a binary frame.
    pub fn on_binary(&mut self, data: &[u8])
        ensures
            final(self)@ == after_binary(old(self)@, data@),
    {
        let n: usize = data.len();
        if n == 0 {
            return ;
        }
        assert(data@.subrange(1, n as int) =~= data@.skip(1));
        if data[0] == 1 {
            let mut rest: Vec<u8> = copy_range(data, 1, n);
            self.stdout.append(&mut rest);
        } else if data[0] == 2 {
            let mut rest: Vec<u8> = copy_range(data, 1, n);
            self.stderr.append(&mut rest);
        } else if data[0] == 3 {
            self.exit_code = Some(
                if n > 1 {
                    data[1] as i32
                } else {
                    0
                },
            );
        }
    }

    /// Take in a text frame, with what it says where it is a control message.
    /// Gives whether the command has ended.
    pub fn on_text(&mut self, text: &str, control: Option<ControlMessage>) -> (done: bool)
        ensures
            done == is_exit(text@, control),
            final(self)@ == after_text(old(self)@, text@, control),
    {
        if strip_prefix(text, "control:").is_some() {
            return false;
        }
        match control {
            Some(c) => {
                if !str_eq(&c.msg_type, "exit") {
                    return false;
                }
                if self.exit_code.is_none() {
                    self.exit_code = c.exit_code;
                }
                true
            },
            None => false,
        }
    }

    /// How the command ended. Without an exit code it is -1.
    pub fn finish(self) -> (r: ExecResult)
        ensures
            r.exit_code == (match self@.exit_code {
                Some(c) => c as int,
                None => -1,
            }),
            r.stdout@ == utf8_lossy(self@.stdout),
            r.stderr@ == utf8_lossy(self@.stderr),
            vstd::utf8::valid_utf8(self@.stdout) ==> r.stdout@ == vstd::utf8::decode_utf8(
                self@.stdout,
            ),
            vstd::utf8::valid_utf8(self@.stderr) ==> r.stderr@ == vstd::utf8::decode_utf8(
                self@.stderr,
            ),
    {
        ExecResult {
            exit_code: match self.exit_code {
                Some(c) => c,
                None => -1,
            },
            stdout: lossy_text(&self.stdout),
            stderr: lossy_text(&self.stderr),
        }
    }
}

/// The frames that carry the input of a command: the data, if any, then the
/// end of input.
pub open spec fn input_frames(data: Seq<u8>) -> Seq<Seq<u8>> {
    if data.len() == 0 {
        seq![seq![4u8]]
    } else {
        seq![seq![0u8] + data, seq![4u8]]
    }
}

/// The frames that carry the input of a command.
pub fn stdin_frames(data: &[u8]) -> (r: Vec<Vec<u8>>)
    ensures
        crate::sprites::bridge::byte_views(r@) == input_frames(data@),
{
    let mut out: Vec<Vec<u8>> = Vec::new();
    if data.len() > 0 {
        let mut frame: Vec<u8> = Vec::new();
        frame.push(0);
        let mut rest: Vec<u8> = copy_range(data, 0, data.len());
        frame.append(&mut rest);
        assert(data@.subrange(0, data@.len() as int) =~= data@);
        assert(frame@ =~= seq![0u8] + data@);
        out.push(frame);
    }
    let mut eof: Vec<u8> = Vec::new();
    eof.push(4);
    assert(eof@ =~= seq![4u8]);
    out.push(eof);
    assert(crate::sprites::bridge::byte_views(out@) =~= input_frames(data@));
    out
}

/// The JSON text of a console frame: without the mark of the control protocol.
pub fn control_payload(text: &str) -> (r: String)
    ensures
        r@ == (if has_prefix(text@, "control:"@) {
            text@.skip("control:"@.len() as int)
        } else {
            text@
        }),
{
    match strip_prefix(text, "control:") {
        Some(rest) => {
            assert(text@.skip("control:"@.len() as int) =~= rest@);
            rest
        },
        None => text.to_owned(),
    }
}

/// The exit code of a console session that a message ends.
pub open spec fn console_exit(m: ControlMessage) -> Option<i32> {
    if m.msg_type@ == "exit"@ {
        Some(
            match m.exit_code {
                Some(c) => c,
                None => 0,
            },
        )
    } else if m.msg_type@ == "op.complete"@ || m.msg_type@ == "op.error"@ {
        Some(0)
    } else {
        None
    }
}

/// The exit code of a console session, where a message ends it.
pub fn on_console_message(m: &ControlMessage) -> (r: Option<i32>)
    ensures
        r == console_exit(*m),
{
    if str_eq(&m.msg_type, "exit") {
        return Some(
            match m.exit_code {
                Some(c) => c,
                None => 0,
            },
        );
    }
    if str_eq(&m.msg_type, "op.complete") || str_eq(&m.msg_type, "op.error") {
        return Some(0);
    }
    None
}

/// Output that arrives in pieces is the output that arrives at once, and what
/// arrives on one channel does not touch the other.
pub proof fn law_output_accumulates(v: ExecView, a: Seq<u8>, b: Seq<u8>)
    ensures
        after_binary(after_binary(v, seq![1u8] + a), seq![1u8] + b) == after_binary(
            v,
            seq![1u8] + (a + b),
        ),
        after_binary(after_binary(v, seq![2u8] + a), seq![2u8] + b) == after_binary(
            v,
            seq![2u8] + (a + b),
        ),
        after_binary(v, seq![1u8] + a).stderr == v.stderr,
        after_binary(v, seq![2u8] + a).stdout == v.stdout,
{
    assert((seq![1u8] + a).skip(1) =~= a);
    assert((seq![1u8] + b).skip(1) =~= b);
    assert((seq![1u8] + (a + b)).skip(1) =~= a + b);
    assert((seq![2u8] + a).skip(1) =~= a);
    assert((seq![2u8] + b).skip(1) =~= b);
    assert((seq![2u8] + (a + b)).skip(1) =~= a + b);
    assert(v.stdout + a + b =~= v.stdout + (a + b));
    assert(v.stderr + a + b =~= v.stderr + (a + b));
}

/// A variable of a command's environment.
#[derive(Debug, PartialEq, Eq)]
pub struct EnvVar {
    pub key: String,
    pub value: String,
}

impl EnvVar {
    /// `key=value`.
    pub open spec fn assignment(self) -> Seq<char> {
        self.key@ + "="@ + self.value@
    }

    fn text(&self) -> (r: String)
        ensures
            r@ == self.assignment(),
    {
        let mut r: String = self.key.clone();
        r.append("=");
        r.append(&self.value);
        r
    }
}

/// A command to run, and how.
#[derive(Debug, PartialEq, Eq)]
pub struct ExecParams {
    pub sprite_name: String,
    pub cmd: Vec<String>,
    pub env: Vec<EnvVar>,
    pub dir: Option<String>,
    pub tty: bool,
    pub rows: Option<u16>,
    pub cols: Option<u16>,
}

/// The `key=value` texts of an environment.
pub open spec fn assignments(env: Seq<EnvVar>) -> Seq<Seq<char>> {
    Seq::new(env.len(), |i: int| env[i].assignment())
}

/// Texts as JSON strings.
pub open spec fn json_strings(items: Seq<Seq<char>>) -> Seq<Seq<char>> {
    Seq::new(items.len(), |i: int| json_quoted(items[i]))
}

/// The arguments of a command as a JSON object, its keys in order, given its
/// words, its directory and its environment as JSON strings: the words and the
/// program only where there is a command, the environment only where it is not
/// empty, `tty` only where it is asked for.
pub open spec fn args_object(
    cmd: Seq<Seq<char>>,
    dir: Option<Seq<char>>,
    env: Seq<Seq<char>>,
    tty: bool,
) -> Seq<char> {
    let cmd_part = if cmd.len() > 0 {
        "\"cmd\":["@ + joined(cmd, ","@) + "],"@
    } else {
        Seq::empty()
    };
    let dir_part = match dir {
        Some(d) => "\"dir\":"@ + d + ","@,
        None => Seq::empty(),
    };
    let env_part = if env.len() > 0 {
        "\"env\":["@ + joined(env, ","@) + "],"@
    } else {
        Seq::empty()
    };
    let path_part = if cmd.len() > 0 {
        "\"path\":"@ + cmd[0] + ","@
    } else {
        Seq::empty()
    };
    let tty_part = if tty {
        ",\"tty\":\"true\""@
    } else {
        Seq::empty()
    };
    "{"@ + cmd_part + dir_part + env_part + path_part + "\"stdin\":\"true\""@ + tty_part + "}"@
}

/// The arguments of a command as a JSON object.
pub open spec fn control_args(p: ExecParams) -> Seq<char> {
    args_object(
        json_strings(views(p.cmd@)),
        match p.dir {
            Some(d) => Some(json_quoted(d@)),
            None => None,
        },
        json_strings(assignments(p.env@)),
        p.tty,
    )
}

/// The arguments of a command as a JSON object, given its words, its directory
/// and its environment as JSON strings.
pub fn control_object(
    cmd: &Vec<String>,
    dir: &Option<String>,
    env: &Vec<String>,
    tty: bool,
) -> (r: String)
    ensures
        r@ == args_object(
            views(cmd@),
            match *dir {
                Some(d) => Some(d@),
                None => None,
            },
            views(env@),
            tty,
        ),
{
    let mut out: String = "{".to_owned();
    if cmd.len() > 0 {
        out.append("\"cmd\":[");
        out.append(&join(cmd, ","));
        out.append("],");
    }
    let ghost part = if cmd@.len() > 0 {
        "\"cmd\":["@ + joined(views(cmd@), ","@) + "],"@
    } else {
        Seq::empty()
    };
    assert(out@ =~= "{"@ + part);
    let ghost before = out@;
    if let Some(d) = dir {
        out.append("\"dir\":");
        out.append(d);
        out.append(",");
    }
    let ghost part = match dir {
        Some(d) => "\"dir\":"@ + d@ + ","@,
        None => Seq::empty(),
    };
    assert(out@ =~= before + part);
    let ghost before = out@;
    if env.len() > 0 {
        out.append("\"env\":[");
        out.append(&join(env, ","));
        out.append("],");
    }
    let ghost part = if env@.len() > 0 {
        "\"env\":["@ + joined(views(env@), ","@) + "],"@
    } else {
        Seq::empty()
    };
    assert(out@ =~= before + part);
    let ghost before = out@;
    if cmd.len() > 0 {
        out.append("\"path\":");
        out.append(&cmd[0]);
        out.append(",");
    }
    let ghost part = if cmd@.len() > 0 {
        "\"path\":"@ + views(cmd@)[0] + ","@
    } else {
        Seq::empty()
    };
    assert(out@ =~= before + part);
    out.append("\"stdin\":\"true\"");
    let ghost before = out@;
    if tty {
        out.append(",\"tty\":\"true\"");
    }
    let ghost part = if tty {
        ",\"tty\":\"true\""@
    } else {
        Seq::empty()
    };
    assert(out@ =~= before + part);
    out.append("}");
    out
}

fn quote_all(items: &Vec<String>) -> (r: Vec<String>)
    ensures
        views(r@) == json_strings(views(items@)),
{
    let mut out: Vec<String> = Vec::new();
    let mut i: usize = 0;
    while i < items.len()
        invariant
            i <= items@.len(),
            out@.len() == i,
            forall|j: int| 0 <= j < i ==> (#[trigger] out@[j])@ == json_quoted(items@[j]@),
        decreases items@.len() - i,
    {
        out.push(quote_json(&items[i]));
        i += 1;
    }
    assert(views(out@) =~= json_strings(views(items@)));
    out
}

fn env_texts(env: &Vec<EnvVar>) -> (r: Vec<String>)
    ensures
        views(r@) == assignments(env@),
{
    let mut out: Vec<String> = Vec::new();
    let mut i: usize = 0;
    while i < env.len()
        invariant
            i <= env@.len(),
            out@.len() == i,
            forall|j: int| 0 <= j < i ==> (#[trigger] out@[j])@ == env@[j].assignment(),
        decreases env@.len() - i,
    {
        out.push(env[i].text());
        i += 1;
    }
    assert(views(out@) =~= assignments(env@));
    out
}

/// The arguments of a command as a JSON object.
pub fn build_control_args(params: &ExecParams) -> (r: String)
    ensures
        r@ == control_args(*params),
{
    let dir: Option<String> = match &params.dir {
        Some(d) => Some(quote_json(d)),
        None => None,
    };
    control_object(
        &quote_all(&params.cmd),
        &dir,
        &quote_all(&env_texts(&params.env)),
        params.tty,
    )
}

/// The message that starts a command over the control protocol.
pub fn op_start(params: &ExecParams) -> (r: String)
    ensures
        r@ == "control:{\"args\":"@ + control_args(*params)
            + ",\"op\":\"exec\",\"type\":\"op.start\"}"@,
{
    let args: String = build_control_args(params);
    let mut out: String = concat("control:{\"args\":", &args);
    out.append(",\"op\":\"exec\",\"type\":\"op.start\"}");
    out
}

/// The message that gives the control connection back.
pub fn release_message() -> (r: String)
    ensures
        r@ == "{\"type\":\"release\"}"@,
{
    "{\"type\":\"release\"}".to_owned()
}

/// The message that tells the size of the terminal.
pub fn resize_message(cols: u16, rows: u16) -> (r: String)
    ensures
        r@ == "{\"cols\":"@ + decimal(cols as nat) + ",\"rows\":"@ + decimal(rows as nat)
            + ",\"type\":\"resize\"}"@,
{
    let c: String = number(cols as u64);
    let w: String = number(rows as u64);
    let mut out: String = concat("{\"cols\":", &c);
    out.append(",\"rows\":");
    out.append(&w);
    out.append(",\"type\":\"resize\"}");
    out
}

/// Key and value pairs, as characters.
pub open spec fn pair_views(pairs: Seq<(String, String)>) -> Seq<(Seq<char>, Seq<char>)> {
    Seq::new(pairs.len(), |i: int| (pairs[i].0@, pairs[i].1@))
}

/// The bytes of the keys and the values of pairs, with one byte before each.
pub open spec fn pairs_size(pairs: Seq<(Seq<char>, Seq<char>)>) -> nat
    decreases pairs.len(),
{
    if pairs.len() == 0 {
        0
    } else {
        pairs_size(pairs.drop_last()) + vstd::utf8::encode_utf8(pairs.last().0).len() + 1
            + vstd::utf8::encode_utf8(pairs.last().1).len() + 1
    }
}

/// Whether an address under the service, with pairs added to it, stays within
/// the sizes that the `url` crate can hold. Escaping makes of a byte at most
/// three.
pub open spec fn fits_url(base: Seq<char>, pairs: Seq<(Seq<char>, Seq<char>)>) -> bool {
    3 * (vstd::utf8::encode_utf8(base).len() + pairs_size(pairs)) < u32::MAX
}

/// The URL of a text, with pairs added to its query: as text, or what is wrong
/// with it.
pub uninterp spec fn url_with_pairs(
    base: Seq<char>,
    pairs: Seq<(Seq<char>, Seq<char>)>,
) -> Result<Seq<char>, Seq<char>>;

/// `url::Url::parse_with_params` parses a text as a URL and adds pairs to its
/// query. The outcome depends on the text and the pairs alone. It panics on
/// what is too long for 32 bits.
#[verifier::external_body]
fn parse_with_params(base: &str, pairs: &Vec<(String, String)>) -> (r: Result<String, String>)
    requires
        has_prefix(base@, "wss://api.sprites.dev/"@),
        fits_url(base@, pair_views(pairs@)),
    ensures
        match r {
            Ok(s) => url_with_pairs(base@, pair_views(pairs@)) == Ok::<Seq<char>, Seq<char>>(s@),
            Err(e) => url_with_pairs(base@, pair_views(pairs@)) == Err::<Seq<char>, Seq<char>>(e@),
        },
{
    url::Url::parse_with_params(base, pairs).map(|u| u.to_string()).map_err(|e| e.to_string())
}

/// The address at which the commands of a sprite are run.
pub open spec fn exec_base(name: Seq<char>) -> Seq<char> {
    "wss://api.sprites.dev/v1/sprites/"@ + name + "/exec"@
}

/// Pairs with the same key, one for each value.
pub open spec fn repeated(key: Seq<char>, values: Seq<Seq<char>>) -> Seq<(Seq<char>, Seq<char>)> {
    Seq::new(values.len(), |i: int| (key, values[i]))
}

/// One pair where there is a value.
pub open spec fn optional(key: Seq<char>, value: Option<Seq<char>>) -> Seq<
    (Seq<char>, Seq<char>),
> {
    match value {
        Some(v) => seq![(key, v)],
        None => Seq::empty(),
    }
}

/// The query of a command: its words, its program, its environment, its
/// directory, whether it has a terminal and input, and the terminal's size.
pub open spec fn exec_pairs(p: ExecParams) -> Seq<(Seq<char>, Seq<char>)> {
    repeated("cmd"@, views(p.cmd@)) + optional(
        "path"@,
        if p.cmd@.len() > 0 {
            Some(p.cmd@[0]@)
        } else {
            None
        },
    ) + repeated("env"@, assignments(p.env@)) + optional(
        "dir"@,
        match p.dir {
            Some(d) => Some(d@),
            None => None,
        },
    ) + seq![
        (
            "tty"@,
            if p.tty {
                "true"@
            } else {
                "false"@
            },
        ),
        ("stdin"@, "true"@),
    ] + optional(
        "rows"@,
        match p.rows {
            Some(n) => Some(decimal(n as nat)),
            None => None,
        },
    ) + optional(
        "cols"@,
        match p.cols {
            Some(n) => Some(decimal(n as nat)),
            None => None,
        },
    )
}

fn push_pair(out: &mut Vec<(String, String)>, key: &str, value: String)
    ensures
        pair_views(final(out)@) == pair_views(old(out)@).push((key@, value@)),
{
    out.push((key.to_owned(), value));
    assert(pair_views(out@) =~= pair_views(old(out)@).push((key@, value@)));
}

fn push_repeated(out: &mut Vec<(String, String)>, key: &str, values: &Vec<String>)
    ensures
        pair_views(final(out)@) == pair_views(old(out)@) + repeated(key@, views(values@)),
{
    let ghost all = repeated(key@, views(values@));
    let mut i: usize = 0;
    assert(pair_views(out@) + all.take(0) =~= pair_views(out@));
    while i < values.len()
        invariant
            i <= values@.len(),
            all == repeated(key@, views(values@)),
            pair_views(out@) == pair_views(old(out)@) + all.take(i as int),
        decreases values@.len() - i,
    {
        push_pair(out, key, values[i].clone());
        assert(all.take(i + 1) =~= all.take(i as int).push(all[i as int]));
        assert(pair_views(out@) =~= pair_views(old(out)@) + all.take(i + 1));
        i += 1;
    }
    assert(all.take(all.len() as int) =~= all);
}

fn push_optional(out: &mut Vec<(String, String)>, key: &str, value: Option<String>)
    ensures
        pair_views(final(out)@) == pair_views(old(out)@) + optional(
            key@,
            match value {
                Some(v) => Some(v@),
                None => None,
            },
        ),
{
    match value {
        Some(v) => {
            push_pair(out, key, v);
            assert(pair_views(out@) =~= pair_views(old(out)@) + seq![(key@, v@)]);
        },
        None => {
            assert(pair_views(out@) =~= pair_views(old(out)@) + Seq::empty());
        },
    }
}

fn size_text(n: Option<u16>) -> (r: Option<String>)
    ensures
        (match r {
            Some(v) => Some(v@),
            None => None,
        }) == (match n {
            Some(n) => Some(decimal(n as nat)),
            None => None,
        }),
{
    match n {
        Some(n) => Some(number(n as u64)),
        None => None,
    }
}

/// The query of a command, pair by pair.
pub fn exec_query(params: &ExecParams) -> (r: Vec<(String, String)>)
    ensures
        pair_views(r@) == exec_pairs(*params),
{
    let mut out: Vec<(String, String)> = Vec::new();
    assert(pair_views(out@) =~= Seq::empty());
    push_repeated(&mut out, "cmd", &params.cmd);
    assert(pair_views(out@) =~= repeated("cmd"@, views(params.cmd@)));
    push_optional(
        &mut out,
        "path",
        if params.cmd.len() > 0 {
            Some(params.cmd[0].clone())
        } else {
            None
        },
    );
    let env: Vec<String> = env_texts(&params.env);
    push_repeated(&mut out, "env", &env);
    push_optional(
        &mut out,
        "dir",
        match &params.dir {
            Some(d) => Some(d.clone()),
            None => None,
        },
    );
    let ghost before = pair_views(out@);
    push_pair(
        &mut out,
        "tty",
        if params.tty {
            "true".to_owned()
        } else {
            "false".to_owned()
        },
    );
    push_pair(&mut out, "stdin", "true".to_owned());
    assert(pair_views(out@) =~= before + seq![
        (
            "tty"@,
            if params.tty {
                "true"@
            } else {
                "false"@
            },
        ),
        ("stdin"@, "true"@),
    ]);
    push_optional(&mut out, "rows", size_text(params.rows));
    push_optional(&mut out, "cols", size_text(params.cols));
    out
}

fn byte_len(s: &str) -> (n: usize)
    ensures
        n == vstd::utf8::encode_utf8(s@).len(),
{
    s.as_bytes().len()
}

proof fn lemma_pairs_size(pairs: Seq<(Seq<char>, Seq<char>)>, n: int)
    requires
        0 <= n <= pairs.len(),
    ensures
        pairs_size(pairs.take(n)) <= pairs_size(pairs),
    decreases pairs.len() - n,
{
    if n < pairs.len() {
        lemma_pairs_size(pairs, n + 1);
        assert(pairs.take(n + 1).drop_last() =~= pairs.take(n));
    } else {
        assert(pairs.take(n) =~= pairs);
    }
}

/// Whether a command fits in an address.
pub fn command_fits(params: &ExecParams) -> (r: bool)
    ensures
        r == fits_url(exec_base(params.sprite_name@), exec_pairs(*params)),
{
    let mut base: String = concat("wss://api.sprites.dev/v1/sprites/", &params.sprite_name);
    base.append("/exec");
    let pairs: Vec<(String, String)> = exec_query(params);
    let ghost all = pair_views(pairs@);
    let limit: u128 = 0xffff_ffff;
    let mut total: u128 = byte_len(&base) as u128;
    let mut i: usize = 0;
    assert(all.take(0) =~= Seq::empty());
    while total < limit && i < pairs.len()
        invariant
            i <= pairs@.len(),
            limit == u32::MAX,
            all == pair_views(pairs@),
            total == vstd::utf8::encode_utf8(base@).len() + pairs_size(all.take(i as int)),
        decreases pairs@.len() - i,
    {
        proof {
            assert(all.take(i + 1).drop_last() =~= all.take(i as int));
            assert(all.take(i + 1).last() == all[i as int]);
        }
        total = total + byte_len(&pairs[i].0) as u128 + 1 + byte_len(&pairs[i].1) as u128 + 1;
        i += 1;
    }
    proof {
        lemma_pairs_size(all, i as int);
        assert(all.take(all.len() as int) =~= all);
    }
    total < limit && 3 * total < limit
}

/// The address of a command, as the `url` crate writes it.
pub fn build_exec_url(params: &ExecParams) -> (r: Result<String, String>)
    requires
        fits_url(exec_base(params.sprite_name@), exec_pairs(*params)),
    ensures
        match url_with_pairs(exec_base(params.sprite_name@), exec_pairs(*params)) {
            Ok(s) => r is Ok && r->Ok_0@ == s,
            Err(e) => r is Err && r->Err_0@ == "invalid URL: "@ + e,
        },
{
    let mut base: String = concat("wss://api.sprites.dev/v1/sprites/", &params.sprite_name);
    base.append("/exec");
    proof {
        reveal_strlit("wss://api.sprites.dev/v1/sprites/");
        reveal_strlit("wss://api.sprites.dev/");
        assert(base@.subrange(0, "wss://api.sprites.dev/"@.len() as int)
            =~= "wss://api.sprites.dev/"@);
    }
    let pairs: Vec<(String, String)> = exec_query(params);
    parsed_url(parse_with_params(&base, &pairs))
}

/// An address, or what is said of a text that is none.
pub fn parsed_url(parsed: Result<String, String>) -> (r: Result<String, String>)
    ensures
        match parsed {
            Ok(s) => r == Ok::<String, String>(s),
            Err(e) => r is Err && r->Err_0@ == "invalid URL: "@ + e@,
        },
{
    match parsed {
        Ok(s) => Ok(s),
        Err(e) => Err(concat("invalid URL: ", &e)),
    }
}

/// The beginning of a text: its first `keep` bytes where it has more than
/// `limit`.
pub open spec fn shortened(s: Seq<char>, limit: int, keep: int) -> Seq<char> {
    let bytes = vstd::utf8::encode_utf8(s);
    if bytes.len() > limit {
        vstd::utf8::decode_utf8(bytes.take(keep))
    } else {
        s
    }
}

fn shorten(s: &str, limit: usize, keep: usize) -> (r: String)
    requires
        keep <= limit,
        vstd::utf8::encode_utf8(s@).len() > limit ==> vstd::utf8::is_char_boundary(
            vstd::utf8::encode_utf8(s@),
            keep as int,
        ),
    ensures
        r@ == shortened(s@, limit as int, keep as int),
{
    if s.as_bytes().len() > limit {
        let head: &str = s.split_at(keep).0;
        proof {
            vstd::utf8::encode_utf8_decode_utf8(head@);
            let bytes = vstd::utf8::encode_utf8(s@);
            assert(bytes.subrange(0, keep as int) =~= bytes.take(keep as int));
        }
        head.to_owned()
    } else {
        s.to_owned()
    }
}

/// A command as it is shown before it runs: its words, and of a long one the
/// beginning.
pub fn command_preview(cmd: &Vec<String>) -> (r: String)
    requires
        vstd::utf8::encode_utf8(joined(views(cmd@), " "@)).len() > 80
            ==> vstd::utf8::is_char_boundary(
            vstd::utf8::encode_utf8(joined(views(cmd@), " "@)),
            77,
        ),
    ensures
        r@ == (if vstd::utf8::encode_utf8(joined(views(cmd@), " "@)).len() > 80 {
            shortened(joined(views(cmd@), " "@), 80, 77) + "..."@
        } else {
            joined(views(cmd@), " "@)
        }),
{
    let all: String = join(cmd, " ");
    if all.as_str().as_bytes().len() > 80 {
        concat(&shorten(&all, 80, 77), "...")
    } else {
        all
    }
}

/// A text frame as it is shown: of a long one the beginning.
pub fn frame_preview(text: &str) -> (r: String)
    requires
        vstd::utf8::encode_utf8(text@).len() > 200 ==> vstd::utf8::is_char_boundary(
            vstd::utf8::encode_utf8(text@),
            200,
        ),
    ensures
        r@ == shortened(text@, 200, 200),
{
    shorten(text, 200, 200)
}

/// What is said of a command that takes too long.
pub fn exec_timed_out(seconds: u64) -> (r: String)
    ensures
        r@ == "exec timed out after "@ + decimal(seconds as nat) + "s"@,
{
    let mut out: String = concat("exec timed out after ", &number(seconds));
    out.append("s");
    out
}

/// What the frames of a command mean: the first byte says whether the rest is
/// output, error output or the exit code, which is 0 where none follows; any
/// other frame, and an empty one, means nothing.
pub proof fn law_frames_of_command(v: ExecView, rest: Seq<u8>, code: u8, other: u8)
    requires
        other != 1,
        other != 2,
        other != 3,
    ensures
        after_binary(v, seq![1u8] + rest) == (ExecView { stdout: v.stdout + rest, ..v }),
        after_binary(v, seq![2u8] + rest) == (ExecView { stderr: v.stderr + rest, ..v }),
        after_binary(v, seq![3u8, code] + rest).exit_code == Some(code as i32),
        after_binary(v, seq![3u8]).exit_code == Some(0i32),
        after_binary(v, seq![3u8, code] + rest).stdout == v.stdout,
        after_binary(v, seq![3u8, code] + rest).stderr == v.stderr,
        after_binary(v, seq![other] + rest) == v,
        after_binary(v, Seq::empty()) == v,
{
    assert((seq![1u8] + rest).skip(1) =~= rest);
    assert((seq![2u8] + rest).skip(1) =~= rest);
}

/// What the texts of a command mean: a message of type `exit` that is not one
/// of the control protocol ends it and gives the exit code, unless a frame
/// gave it before; any other text means nothing.
pub proof fn law_texts_of_command(v: ExecView, text: Seq<char>, m: ControlMessage)
    ensures
        m.msg_type@ == "exit"@ && !has_prefix(text, "control:"@) ==> {
            &&& is_exit(text, Some(m))
            &&& v.exit_code is None ==> after_text(v, text, Some(m)) == (ExecView {
                exit_code: m.exit_code,
                ..v
            })
            &&& v.exit_code is Some ==> after_text(v, text, Some(m)) == v
        },
        m.msg_type@ != "exit"@ || has_prefix(text, "control:"@) ==> !is_exit(text, Some(m))
            && after_text(v, text, Some(m)) == v,
        !is_exit(text, None) && after_text(v, text, None) == v,
{
}

/// The input of a command is sent in one frame behind a 0, and its end in one
/// that is a 4 alone; without input only the end is sent.
pub proof fn law_input_of_command(data: Seq<u8>)
    ensures
        data.len() > 0 ==> input_frames(data) == seq![seq![0u8] + data, seq![4u8]],
        data.len() == 0 ==> input_frames(data) == seq![seq![4u8]],
{
}

/// What ends a console: `exit`, with its code or 0, and the end of the
/// operation, well or not; no other message does.
pub proof fn law_console_ends(m: ControlMessage)
    ensures
        m.msg_type@ == "exit"@ ==> console_exit(m) == (if m.exit_code is Some {
            m.exit_code
        } else {
            Some(0i32)
        }),
        m.msg_type@ != "exit"@ && (m.msg_type@ == "op.complete"@ || m.msg_type@ == "op.error"@)
            ==> console_exit(m) == Some(0i32),
        m.msg_type@ != "exit"@ && m.msg_type@ != "op.complete"@ && m.msg_type@ != "op.error"@
            ==> console_exit(m) is None,
{
}

/// The query of a command, pair by pair: each word, the first of them again as
/// the program, each variable as `key=value`, the directory where there is
/// one, whether there is a terminal, that there is input, and the size of the
/// terminal where it is known; in this order and nothing else.
pub proof fn law_query_of_command(p: ExecParams, i: int)
    ensures
        ({
            let q = exec_pairs(p);
            let c = p.cmd@.len() as int;
            let path = if c > 0 {
                1int
            } else {
                0
            };
            let e = p.env@.len() as int;
            let dir = if p.dir is Some {
                1int
            } else {
                0
            };
            let rows = if p.rows is Some {
                1int
            } else {
                0
            };
            let cols = if p.cols is Some {
                1int
            } else {
                0
            };
            &&& q.len() == c + path + e + dir + 2 + rows + cols
            &&& 0 <= i < c ==> q[i] == ("cmd"@, p.cmd@[i]@)
            &&& c > 0 ==> q[c] == ("path"@, p.cmd@[0]@)
            &&& 0 <= i < e ==> q[c + path + i] == (
                "env"@,
                p.env@[i].key@ + "="@ + p.env@[i].value@,
            )
            &&& p.dir matches Some(d) ==> q[c + path + e] == ("dir"@, d@)
            &&& q[c + path + e + dir] == (
                "tty"@,
                if p.tty {
                    "true"@
                } else {
                    "false"@
                },
            )
            &&& q[c + path + e + dir + 1] == ("stdin"@, "true"@)
            &&& p.rows matches Some(n) ==> q[c + path + e + dir + 2] == (
                "rows"@,
                decimal(n as nat),
            )
            &&& p.cols matches Some(n) ==> q[c + path + e + dir + 2 + rows] == (
                "cols"@,
                decimal(n as nat),
            )
        }),
{
}

/// The arguments of a command over the control connection: an object with its
/// words, directory, variables and program as JSON strings where there are
/// any, that there is input, and the terminal where it is asked for.
pub proof fn law_control_arguments(
    words: Seq<Seq<char>>,
    dir: Seq<char>,
    env: Seq<Seq<char>>,
)
    requires
        words.len() > 0,
        env.len() > 0,
    ensures
        args_object(words, Some(dir), env, true) == "{\"cmd\":["@ + joined(words, ","@)
            + "],\"dir\":"@ + dir + ",\"env\":["@ + joined(env, ","@) + "],\"path\":"@ + words[0]
            + ",\"stdin\":\"true\",\"tty\":\"true\"}"@,
        args_object(Seq::empty(), None, Seq::empty(), false) == "{\"stdin\":\"true\"}"@,
        args_object(words, None, Seq::empty(), false) == "{\"cmd\":["@ + joined(words, ","@)
            + "],\"path\":"@ + words[0] + ",\"stdin\":\"true\"}"@,
{
    reveal_strlit("{");
    reveal_strlit("}");
    reveal_strlit(",");
    reveal_strlit("],");
    reveal_strlit("\"cmd\":[");
    reveal_strlit("\"dir\":");
    reveal_strlit("\"env\":[");
    reveal_strlit("\"path\":");
    reveal_strlit("\"stdin\":\"true\"");
    reveal_strlit(",\"tty\":\"true\"");
    reveal_strlit("{\"cmd\":[");
    reveal_strlit("],\"dir\":");
    reveal_strlit(",\"env\":[");
    reveal_strlit("],\"path\":");
    reveal_strlit(",\"stdin\":\"true\",\"tty\":\"true\"}");
    reveal_strlit("{\"stdin\":\"true\"}");
    reveal_strlit(",\"stdin\":\"true\"}");
    assert(args_object(words, Some(dir), env, true) =~= "{\"cmd\":["@ + joined(words, ","@)
        + "],\"dir\":"@ + dir + ",\"env\":["@ + joined(env, ","@) + "],\"path\":"@ + words[0]
        + ",\"stdin\":\"true\",\"tty\":\"true\"}"@);
    assert(args_object(Seq::empty(), None, Seq::empty(), false) =~= "{\"stdin\":\"true\"}"@);
    assert(args_object(words, None, Seq::empty(), false) =~= "{\"cmd\":["@ + joined(words, ","@)
        + "],\"path\":"@ + words[0] + ",\"stdin\":\"true\"}"@);
}

/// What of a command goes over the control connection: its words, its
/// directory, its variables as `key=value`, and whether it has a terminal.
pub proof fn law_control_carries_command(p: ExecParams, words: Seq<Seq<char>>, env: Seq<Seq<char>>)
    requires
        words.len() == p.cmd@.len(),
        forall|i: int| 0 <= i < words.len() ==> #[trigger] words[i] == json_quoted(p.cmd@[i]@),
        env.len() == p.env@.len(),
        forall|i: int|
            0 <= i < env.len() ==> #[trigger] env[i] == json_quoted(
                p.env@[i].key@ + "="@ + p.env@[i].value@,
            ),
    ensures
        p.dir is None ==> control_args(p) == args_object(words, None, env, p.tty),
        p.dir matches Some(d) ==> control_args(p) == args_object(
            words,
            Some(json_quoted(d@)),
            env,
            p.tty,
        ),
{
    assert(words =~= json_strings(views(p.cmd@)));
    assert(env =~= json_strings(assignments(p.env@)));
}

proof fn lemma_encode_two(a: Seq<char>, b: Seq<char>)
    ensures
        vstd::utf8::encode_utf8(a + b) == vstd::utf8::encode_utf8(a) + vstd::utf8::encode_utf8(b),
    decreases a.len(),
{
    if a.len() == 0 {
        assert(a + b =~= b);
        assert(vstd::utf8::encode_utf8(a + b) =~= vstd::utf8::encode_utf8(a)
            + vstd::utf8::encode_utf8(b));
    } else {
        lemma_encode_two(a.drop_first(), b);
        assert((a + b).drop_first() =~= a.drop_first() + b);
        assert(vstd::utf8::encode_utf8(a + b) =~= vstd::utf8::encode_utf8(a)
            + vstd::utf8::encode_utf8(b));
    }
}

/// A text that is too long is cut to its first characters, and one that is not
/// stays whole.
pub proof fn law_shortened(a: Seq<char>, b: Seq<char>, limit: int)
    ensures
        ({
            let keep = vstd::utf8::encode_utf8(a).len() as int;
            let len = keep + vstd::utf8::encode_utf8(b).len();
            &&& len > limit ==> shortened(a + b, limit, keep) == a
            &&& len <= limit ==> shortened(a + b, limit, keep) == a + b
        }),
{
    broadcast use vstd::utf8::encode_utf8_decode_utf8;

    lemma_encode_two(a, b);
    let whole = vstd::utf8::encode_utf8(a + b);
    let head = vstd::utf8::encode_utf8(a);
    assert(whole.take(head.len() as int) =~= head);
}

} // verus!
