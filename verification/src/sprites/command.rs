//! What the sequences of the bridge ask for.

use vstd::prelude::*;

use crate::path::{final_name, law_final_name, parse_path, separators, HostPath};
use crate::payload::copy_range;
use crate::sprites::bridge::{begins, osc_start};
use crate::text::{
    chars_of, concat, first_index, last_index, law_case, law_index_of, lowered, split_once, str_eq,
    string_of, to_lower, utf8_string,
};

verus! {

/// The bytes of a sequence between its beginning and its terminator.
pub open spec fn body_of(sequence: Seq<u8>) -> Option<Seq<u8>> {
    if !begins(sequence, osc_start()) {
        None
    } else {
        let body = sequence.skip(7);
        if body.len() > 0 && body.last() == 0x07 {
            Some(body.drop_last())
        } else if body.len() >= 2 && body[body.len() - 2] == 0x1b && body.last() == 0x5c {
            Some(body.take(body.len() - 2))
        } else {
            Some(body)
        }
    }
}

/// The bytes of a sequence between its beginning and its terminator.
pub fn sequence_body(sequence: &[u8]) -> (r: Option<Vec<u8>>)
    ensures
        r is Some <==> body_of(sequence@) is Some,
        r matches Some(b) ==> Some(b@) == body_of(sequence@),
{
    let n: usize = sequence.len();
    if n < 7 || !(sequence[0] == 0x1b && sequence[1] == 0x5d && sequence[2] == 0x39 && sequence[3]
        == 0x39 && sequence[4] == 0x39 && sequence[5] == 0x39 && sequence[6] == 0x3b) {
        proof {
            if n >= 7 {
                let t = sequence@.take(7);
                assert(t[0] == sequence@[0] && t[1] == sequence@[1] && t[2] == sequence@[2] && t[3]
                    == sequence@[3] && t[4] == sequence@[4] && t[5] == sequence@[5] && t[6]
                    == sequence@[6]);
            }
        }
        return None;
    }
    assert(sequence@.take(7) =~= osc_start());
    let ghost body = sequence@.skip(7);
    if n > 7 && sequence[n - 1] == 0x07 {
        assert(sequence@.subrange(7, n - 1) =~= body.drop_last());
        return Some(copy_range(sequence, 7, n - 1));
    }
    if n >= 9 && sequence[n - 2] == 0x1b && sequence[n - 1] == 0x5c {
        assert(sequence@.subrange(7, n - 2) =~= body.take(body.len() - 2));
        return Some(copy_range(sequence, 7, n - 2));
    }
    assert(sequence@.subrange(7, n as int) =~= body);
    Some(copy_range(sequence, 7, n))
}

/// What a sprite asks the host to do.
#[derive(Debug, PartialEq, Eq)]
pub enum BridgeAction {
    /// Open a page in the browser.
    BrowserOpen(String),
    /// Fetch a file and open it.
    Open(String),
    /// Put the image on the clipboard into a file.
    PasteImage(String),
}

/// What a sprite asks for, with its argument as characters.
pub enum ActionView {
    BrowserOpen(Seq<char>),
    Open(Seq<char>),
    PasteImage(Seq<char>),
}

impl View for BridgeAction {
    type V = ActionView;

    open spec fn view(&self) -> ActionView {
        match self {
            BridgeAction::BrowserOpen(s) => ActionView::BrowserOpen(s@),
            BridgeAction::Open(s) => ActionView::Open(s@),
            BridgeAction::PasteImage(s) => ActionView::PasteImage(s@),
        }
    }
}

/// The verb of a command: what stands before the first semicolon.
pub open spec fn verb_of(cmd: Seq<char>) -> Seq<char> {
    cmd.take(first_index(cmd, ';'))
}

/// The payload of a command: what stands after the first semicolon.
pub open spec fn payload_of(cmd: Seq<char>) -> Seq<char> {
    if first_index(cmd, ';') < cmd.len() {
        cmd.skip(first_index(cmd, ';') + 1)
    } else {
        Seq::empty()
    }
}

/// What a command asks for. Unknown verbs and empty payloads ask for nothing.
pub open spec fn action_of(cmd: Seq<char>) -> Option<ActionView> {
    if payload_of(cmd).len() == 0 {
        None
    } else if verb_of(cmd) == "browser-open"@ {
        Some(ActionView::BrowserOpen(payload_of(cmd)))
    } else if verb_of(cmd) == "open"@ {
        Some(ActionView::Open(payload_of(cmd)))
    } else if verb_of(cmd) == "paste-image"@ {
        Some(ActionView::PasteImage(payload_of(cmd)))
    } else {
        None
    }
}

/// What a command like `browser-open;https://example.com` asks for.
pub fn handle_bridge_command(cmd: &str) -> (r: Option<BridgeAction>)
    ensures
        r is Some <==> action_of(cmd@) is Some,
        r matches Some(a) ==> Some(a@) == action_of(cmd@),
{
    let (verb, payload): (String, String) = match split_once(cmd, ';') {
        Some((v, p)) => (v, p),
        None => {
            return None;
        },
    };
    if payload.as_str().is_empty() {
        return None;
    }
    if str_eq(&verb, "browser-open") {
        return Some(BridgeAction::BrowserOpen(payload));
    }
    if str_eq(&verb, "open") {
        return Some(BridgeAction::Open(payload));
    }
    if str_eq(&verb, "paste-image") {
        return Some(BridgeAction::PasteImage(payload));
    }
    None
}

/// What a whole sequence asks for: its body must be text.
pub open spec fn sequence_action(sequence: Seq<u8>) -> Option<ActionView> {
    match body_of(sequence) {
        Some(body) => if vstd::utf8::valid_utf8(body) {
            action_of(vstd::utf8::decode_utf8(body))
        } else {
            None
        },
        None => None,
    }
}

/// What a whole sequence asks for.
pub fn dispatch_osc_bytes(sequence: &[u8]) -> (r: Option<BridgeAction>)
    ensures
        r is Some <==> sequence_action(sequence@) is Some,
        r matches Some(a) ==> Some(a@) == sequence_action(sequence@),
{
    match sequence_body(sequence) {
        None => None,
        Some(body) => match utf8_string(body) {
            None => None,
            Some(s) => handle_bridge_command(&s),
        },
    }
}

/// The part of a file name after its last dot. A name without a dot, or with a
/// leading one alone, has none.
pub open spec fn extension_of(name: Seq<char>) -> Option<Seq<char>> {
    let dot = last_index(name, '.');
    if dot <= 0 {
        None
    } else {
        Some(name.skip(dot + 1))
    }
}

/// The extension of the file that a path names.
pub open spec fn path_extension(path: Seq<char>) -> Option<Seq<char>> {
    match final_name(parse_path(path)) {
        None => None,
        Some(name) => extension_of(name),
    }
}

/// The kinds of file that may be opened.
pub open spec fn allowed(ext: Seq<char>) -> bool {
    ||| ext == "html"@
    ||| ext == "htm"@
    ||| ext == "svg"@
    ||| ext == "png"@
    ||| ext == "jpg"@
    ||| ext == "jpeg"@
    ||| ext == "pdf"@
    ||| ext == "md"@
    ||| ext == "txt"@
    ||| ext == "rtf"@
    ||| ext == "csv"@
}

fn is_allowed(ext: &str) -> (r: bool)
    ensures
        r == allowed(ext@),
{
    str_eq(ext, "html") || str_eq(ext, "htm") || str_eq(ext, "svg") || str_eq(ext, "png") || str_eq(
        ext,
        "jpg",
    ) || str_eq(ext, "jpeg") || str_eq(ext, "pdf") || str_eq(ext, "md") || str_eq(ext, "txt")
        || str_eq(ext, "rtf") || str_eq(ext, "csv")
}

fn find_last(v: &Vec<char>, c: char) -> (r: Option<usize>)
    ensures
        r is None <==> last_index(v@, c) == -1,
        r matches Some(i) ==> i < v@.len() && i == last_index(v@, c),
{
    let mut n: usize = v.len();
    assert(v@.take(n as int) =~= v@);
    while n > 0
        invariant
            n <= v@.len(),
            last_index(v@, c) == last_index(v@.take(n as int), c),
        decreases n,
    {
        if v[n - 1] == c {
            return Some(n - 1);
        }
        assert(v@.take(n as int).drop_last() =~= v@.take(n - 1));
        n -= 1;
    }
    None
}

/// Which kind of file the bridge may open: the extension in lower case, or why
/// not.
pub fn open_extension(guest_path: &str) -> (r: Result<String, String>)
    ensures
        match path_extension(guest_path@) {
            None => r matches Err(e) && e@ == "file has no extension"@,
            Some(x) => if allowed(lowered(x)) {
                r matches Ok(ext) && ext@ == lowered(x)
            } else {
                r matches Err(e) && e@ == lowered(x)
                    + " is not an allowed file type (allowed: html, htm, svg, png, jpg, jpeg, pdf, md, txt, rtf, csv)"@
            },
        },
{
    let path: HostPath = HostPath::new(guest_path);
    let name: String = match path.file_name() {
        Some(name) => name,
        None => {
            return Err("file has no extension".to_owned());
        },
    };
    let chars: Vec<char> = chars_of(&name);
    let dot: usize = match find_last(&chars, '.') {
        Some(i) => i,
        None => {
            return Err("file has no extension".to_owned());
        },
    };
    if dot == 0 {
        return Err("file has no extension".to_owned());
    }
    let n: usize = chars.len();
    let ext: String = string_of(&chars, dot + 1, n);
    assert(ext@ =~= name@.skip(dot + 1));
    let ext: String = to_lower(&ext);
    if is_allowed(&ext) {
        Ok(ext)
    } else {
        Err(
            concat(
                &ext,
                " is not an allowed file type (allowed: html, htm, svg, png, jpg, jpeg, pdf, md, txt, rtf, csv)",
            ),
        )
    }
}

/// A sequence with a verb and a payload comes back as the action that it asks
/// for, whichever way it ends.
pub proof fn law_terminators_agree(body: Seq<u8>)
    ensures
        body_of(osc_start() + body + seq![0x07u8]) == Some(body),
        body_of(osc_start() + body + seq![0x1bu8, 0x5cu8]) == Some(body),
{
    let a = osc_start() + body + seq![0x07u8];
    let b = osc_start() + body + seq![0x1bu8, 0x5cu8];
    assert(a.take(7) =~= osc_start());
    assert(b.take(7) =~= osc_start());
    assert(a.skip(7) =~= body + seq![0x07u8]);
    assert(b.skip(7) =~= body + seq![0x1bu8, 0x5cu8]);
    assert(a.skip(7).drop_last() =~= body);
    assert(b.skip(7).take(body.len() as int) =~= body);
    let c = b.skip(7);
    assert(c.last() == 0x5c);
    assert(c[c.len() - 2] == 0x1b);
}

/// Whether a text is a word, letter by letter, in whatever case.
pub open spec fn spells(s: Seq<char>, word: Seq<char>) -> bool {
    &&& s.len() == word.len()
    &&& forall|i: int|
        0 <= i < s.len() ==> (#[trigger] s[i] == word[i] || ('A' <= s[i] && s[i] <= 'Z' && s[i]
            as int + 32 == word[i] as int))
}

/// The name of a file with an extension, behind a directory and before any
/// separators, gives that extension.
proof fn lemma_extension(front: Seq<char>, stem: Seq<char>, ext: Seq<char>, k: nat)
    requires
        front.len() == 0 || front.last() == '/',
        stem.len() > 0,
        forall|i: int| 0 <= i < stem.len() ==> stem[i] != '/',
        ext.len() > 0,
        forall|i: int| 0 <= i < ext.len() ==> ext[i] != '/' && ext[i] != '.',
    ensures
        path_extension(front + stem + seq!['.'] + ext + separators(k)) == Some(ext),
{
    let name = stem + seq!['.'] + ext;
    assert(front + stem + seq!['.'] + ext + separators(k) =~= front + name + separators(k));
    assert(name[name.len() - 1] == ext[ext.len() - 1]);
    law_final_name(front, name, k);
    law_index_of(stem, '.', ext);
    assert(name.skip(stem.len() as int + 1) =~= ext);
}

/// A file may be opened whose name is some text, a dot and one of the eleven
/// kinds of document and picture, in whatever case, and the kind in lower case
/// is its extension. The directory before the name does not matter, nor do
/// separators behind it.
pub proof fn law_kinds_that_open(
    front: Seq<char>,
    stem: Seq<char>,
    ext: Seq<char>,
    kind: Seq<char>,
    k: nat,
)
    requires
        front.len() == 0 || front.last() == '/',
        stem.len() > 0,
        forall|i: int| 0 <= i < stem.len() ==> stem[i] != '/',
        spells(ext, kind),
        kind == "html"@
            || kind == "htm"@
            || kind == "svg"@
            || kind == "png"@
            || kind == "jpg"@
            || kind == "jpeg"@
            || kind == "pdf"@
            || kind == "md"@
            || kind == "txt"@
            || kind == "rtf"@
            || kind == "csv"@,
    ensures
        path_extension(front + stem + seq!['.'] + ext + separators(k)) == Some(ext),
        lowered(ext) == kind,
        allowed(lowered(ext)),
{
    reveal_strlit("html");
    reveal_strlit("htm");
    reveal_strlit("svg");
    reveal_strlit("png");
    reveal_strlit("jpg");
    reveal_strlit("jpeg");
    reveal_strlit("pdf");
    reveal_strlit("md");
    reveal_strlit("txt");
    reveal_strlit("rtf");
    reveal_strlit("csv");
    assert(kind.len() > 0);
    assert forall|i: int| 0 <= i < kind.len() implies 'a' <= #[trigger] kind[i] && kind[i]
        <= 'z' by {}
    assert forall|i: int| 0 <= i < ext.len() implies ext[i] != '/' && ext[i] != '.' by {
        assert('a' <= kind[i] && kind[i] <= 'z');
    }
    lemma_extension(front, stem, ext, k);
    assert forall|i: int| 0 <= i < ext.len() implies lowered(ext)[i] == kind[i] by {
        law_case(ext, i);
        assert('a' <= kind[i] && kind[i] <= 'z');
        lemma_one_char(lowered(ext)[i], kind[i], ext[i]);
    }
    assert(lowered(ext) =~= kind);
}

proof fn lemma_one_char(a: char, b: char, c: char)
    requires
        c == b || ('A' <= c && c <= 'Z' && c as int + 32 == b as int),
        'A' <= c && c <= 'Z' ==> a as int == c as int + 32,
        !('A' <= c && c <= 'Z') ==> a == c,
        'a' <= b && b <= 'z',
    ensures
        a == b,
{
}

/// No other file may be opened: not one with another extension, and not one
/// whose name has no dot, or one at its beginning alone.
pub proof fn law_other_kinds_refused(
    front: Seq<char>,
    stem: Seq<char>,
    ext: Seq<char>,
    k: nat,
)
    requires
        front.len() == 0 || front.last() == '/',
        stem.len() > 0,
        forall|i: int| 0 <= i < stem.len() ==> stem[i] != '/',
        forall|i: int| 0 <= i < ext.len() ==> ext[i] != '/' && ext[i] != '.',
    ensures
        ext.len() > 0 ==> path_extension(front + stem + seq!['.'] + ext + separators(k)) == Some(
            ext,
        ),
        allowed(lowered(ext)) ==> (lowered(ext) == "html"@
                || lowered(ext) == "htm"@
                || lowered(ext) == "svg"@
                || lowered(ext) == "png"@
                || lowered(ext) == "jpg"@
                || lowered(ext) == "jpeg"@
                || lowered(ext) == "pdf"@
                || lowered(ext) == "md"@
                || lowered(ext) == "txt"@
                || lowered(ext) == "rtf"@
                || lowered(ext) == "csv"@),
        ext.len() > 0 ==> path_extension(front + ext + separators(k)) is None,
        ext.len() > 0 ==> path_extension(front + seq!['.'] + ext + separators(k)) is None,
{
    if ext.len() > 0 {
        lemma_extension(front, stem, ext, k);
        let none = Seq::<char>::empty();
        law_index_of(none, '.', ext);
        law_final_name(front, ext, k);
        let hidden = seq!['.'] + ext;
        assert(none + seq!['.'] + ext =~= hidden);
        assert(hidden[1] == ext[0]);
        law_final_name(front, hidden, k);
        assert(front + seq!['.'] + ext + separators(k) =~= front + hidden + separators(k));
    }
}

/// A command is a verb, a semicolon and a payload. Three verbs ask for
/// something, each with the whole payload as its argument; another verb, an
/// empty payload and a command without a semicolon ask for nothing.
pub proof fn law_commands(verb: Seq<char>, payload: Seq<char>)
    requires
        forall|i: int| 0 <= i < verb.len() ==> verb[i] != ';',
    ensures
        action_of(verb) is None,
        action_of(verb + seq![';']) is None,
        payload.len() > 0 ==> {
            let a = action_of(verb + seq![';'] + payload);
            &&& verb == "browser-open"@ ==> a == Some(ActionView::BrowserOpen(payload))
            &&& verb == "open"@ ==> a == Some(ActionView::Open(payload))
            &&& verb == "paste-image"@ ==> a == Some(ActionView::PasteImage(payload))
            &&& verb != "browser-open"@ && verb != "open"@ && verb != "paste-image"@ ==> a is None
        },
{
    reveal_strlit("browser-open");
    reveal_strlit("open");
    reveal_strlit("paste-image");
    law_index_of(verb, ';', payload);
    law_index_of(verb, ';', Seq::empty());
    let cmd = verb + seq![';'] + payload;
    assert(cmd.take(verb.len() as int) =~= verb);
    assert(cmd.skip(verb.len() as int + 1) =~= payload);
    let bare = verb + seq![';'] + Seq::empty();
    assert(bare =~= verb + seq![';']);
}

/// A sequence is an escape, `]9999;`, a body and one of two ends: a bell, or an
/// escape and a backslash. Bytes that begin otherwise hold no body.
pub proof fn law_sequence_bodies(body: Seq<u8>, other: Seq<u8>)
    ensures
        ({
            let start = seq![0x1bu8, 0x5du8, 0x39u8, 0x39u8, 0x39u8, 0x39u8, 0x3bu8];
            &&& body_of(start + body + seq![0x07u8]) == Some(body)
            &&& body_of(start + body + seq![0x1bu8, 0x5cu8]) == Some(body)
            &&& other.len() < 7 || other.take(7) != start ==> body_of(other) is None
        }),
{
    let start = seq![0x1bu8, 0x5du8, 0x39u8, 0x39u8, 0x39u8, 0x39u8, 0x3bu8];
    assert(start =~= osc_start());
    law_terminators_agree(body);
}

/// A sequence whose body is a text asks for what the text asks for; one whose
/// body is no text asks for nothing.
pub proof fn law_sequence_asks(text: Seq<char>, body: Seq<u8>)
    ensures
        ({
            let start = seq![0x1bu8, 0x5d, 0x39, 0x39, 0x39, 0x39, 0x3b];
            let bytes = vstd::utf8::encode_utf8(text);
            &&& sequence_action(start + bytes + seq![0x07u8]) == action_of(text)
            &&& sequence_action(start + bytes + seq![0x1bu8, 0x5c]) == action_of(text)
            &&& !vstd::utf8::valid_utf8(body) ==> sequence_action(start + body + seq![0x07u8])
                is None
        }),
{
    broadcast use vstd::utf8::encode_utf8_decode_utf8, vstd::utf8::encode_utf8_valid_utf8;

    law_sequence_bodies(vstd::utf8::encode_utf8(text), body);
    law_sequence_bodies(body, body);
}

} // verus!
