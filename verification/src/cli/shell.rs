//! Texts for the shell, and addresses of repositories.

use vstd::prelude::*;

use crate::text::{concat, has_prefix, replace_char, replaced, strip_prefix};

verus! {

/// A text in single quotes: a quote in it is closed, escaped and opened again.
pub open spec fn quoted(s: Seq<char>) -> Seq<char> {
    "'"@ + replaced(s, '\'', "'\\''"@) + "'"@
}

/// A text as one word of the shell.
pub fn shell_escape(s: &str) -> (r: String)
    ensures
        r@ == quoted(s@),
{
    let body: String = replace_char(s, '\'', "'\\''");
    concat(&concat("'", &body), "'")
}

/// The text that a word stands for in the shell, where it is made of parts in
/// single quotes and of characters behind a backslash alone.
pub open spec fn word_text(s: Seq<char>, inside: bool) -> Option<Seq<char>>
    decreases s.len(),
{
    if s.len() == 0 {
        if inside {
            None
        } else {
            Some(Seq::empty())
        }
    } else if inside {
        if s[0] == '\'' {
            word_text(s.skip(1), false)
        } else {
            match word_text(s.skip(1), true) {
                Some(t) => Some(seq![s[0]] + t),
                None => None,
            }
        }
    } else if s[0] == '\'' {
        word_text(s.skip(1), true)
    } else if s[0] == '\\' && s.len() > 1 {
        match word_text(s.skip(2), false) {
            Some(t) => Some(seq![s[1]] + t),
            None => None,
        }
    } else {
        None
    }
}

/// The shell reads an escaped text as one word, and that word is the text.
pub proof fn law_escape(s: Seq<char>)
    ensures
        word_text(quoted(s), false) == Some(s),
{
    reveal_strlit("'");
    let inner = replaced(s, '\'', "'\\''"@) + "'"@;
    assert(quoted(s) =~= "'"@ + inner);
    assert(quoted(s).skip(1) =~= inner);
    lemma_inside(s);
}

proof fn lemma_inside(s: Seq<char>)
    ensures
        word_text(replaced(s, '\'', "'\\''"@) + "'"@, true) == Some(s),
    decreases s.len(),
{
    reveal_strlit("'");
    reveal_strlit("'\\''");
    let w = replaced(s, '\'', "'\\''"@) + "'"@;
    if s.len() == 0 {
        reveal_with_fuel(word_text, 2);
        assert(w =~= "'"@);
        assert(w.skip(1) =~= Seq::empty());
        assert(s =~= Seq::empty());
    } else {
        let rest = s.skip(1);
        lemma_inside(rest);
        let more = replaced(rest, '\'', "'\\''"@) + "'"@;
        if s[0] == '\'' {
            assert(w =~= "'\\''"@ + more);
            let w1 = w.skip(1);
            assert(w1[0] == '\\' && w1[1] == '\'');
            let w3 = w1.skip(2);
            assert(w3[0] == '\'');
            assert(w3.skip(1) =~= more);
            assert(word_text(w3, false) == word_text(more, true));
            assert(seq![w1[1]] + rest =~= s);
            assert(word_text(w1, false) == Some(s));
        } else {
            assert(w =~= seq![s[0]] + more);
            assert(w.skip(1) =~= more);
            assert(seq![s[0]] + rest =~= s);
        }
    }
}

/// The address of a repository over HTTPS, where it is one of GitHub or GitLab
/// over SSH.
pub open spec fn https_of(url: Seq<char>) -> Seq<char> {
    if has_prefix(url, "git@github.com:"@) {
        "https://github.com/"@ + url.skip("git@github.com:"@.len() as int)
    } else if has_prefix(url, "git@gitlab.com:"@) {
        "https://gitlab.com/"@ + url.skip("git@gitlab.com:"@.len() as int)
    } else {
        url
    }
}

/// The address of a repository over HTTPS, where it is one of GitHub or GitLab
/// over SSH; any other address as it is.
pub fn ssh_to_https(url: &str) -> (r: String)
    ensures
        r@ == https_of(url@),
{
    if let Some(rest) = strip_prefix(url, "git@github.com:") {
        assert(url@.skip("git@github.com:"@.len() as int) =~= rest@);
        return concat("https://github.com/", &rest);
    }
    if let Some(rest) = strip_prefix(url, "git@gitlab.com:") {
        assert(url@.skip("git@gitlab.com:"@.len() as int) =~= rest@);
        return concat("https://gitlab.com/", &rest);
    }
    url.to_owned()
}

/// An address that is over HTTPS stays as it is, so converting twice converts
/// once.
pub proof fn law_https_stays(url: Seq<char>)
    ensures
        https_of(https_of(url)) == https_of(url),
        has_prefix(url, "https://"@) ==> https_of(url) == url,
{
    reveal_strlit("git@github.com:");
    reveal_strlit("git@gitlab.com:");
    reveal_strlit("https://github.com/");
    reveal_strlit("https://gitlab.com/");
    reveal_strlit("https://");
    let a = https_of(url);
    if has_prefix(a, "git@github.com:"@) {
        assert(a.subrange(0, 15)[0] == a[0]);
    }
    if has_prefix(a, "git@gitlab.com:"@) {
        assert(a.subrange(0, 15)[0] == a[0]);
    }
    if has_prefix(url, "https://"@) {
        assert(url.subrange(0, 8)[0] == url[0]);
        if has_prefix(url, "git@github.com:"@) {
            assert(url.subrange(0, 15)[0] == url[0]);
        }
        if has_prefix(url, "git@gitlab.com:"@) {
            assert(url.subrange(0, 15)[0] == url[0]);
        }
    }
}

/// An address over SSH of GitHub or GitLab becomes the one over HTTPS of the
/// same repository; any other address stays as it is.
pub proof fn law_ssh_addresses(rest: Seq<char>, other: Seq<char>)
    ensures
        https_of("git@github.com:"@ + rest) == "https://github.com/"@ + rest,
        https_of("git@gitlab.com:"@ + rest) == "https://gitlab.com/"@ + rest,
        (forall|r: Seq<char>| other != #[trigger] ("git@github.com:"@ + r)) && (forall|
            r: Seq<char>,
        |
            other != #[trigger] ("git@gitlab.com:"@ + r)) ==> https_of(other) == other,
{
    reveal_strlit("git@github.com:");
    reveal_strlit("git@gitlab.com:");
    let hub = "git@github.com:"@;
    let lab = "git@gitlab.com:"@;
    assert((hub + rest).subrange(0, hub.len() as int) =~= hub);
    assert((hub + rest).skip(hub.len() as int) =~= rest);
    assert((lab + rest).subrange(0, lab.len() as int) =~= lab);
    assert((lab + rest).skip(lab.len() as int) =~= rest);
    if has_prefix(lab + rest, hub) {
        assert((lab + rest).subrange(0, hub.len() as int)[7] == 'l');
        assert(hub[7] == 'h');
    }
    if has_prefix(other, hub) {
        assert(other =~= hub + other.skip(hub.len() as int));
    }
    if has_prefix(other, lab) {
        assert(other =~= lab + other.skip(lab.len() as int));
    }
}

} // verus!
