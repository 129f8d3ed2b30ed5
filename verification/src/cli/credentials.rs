//! Tokens and keys: where they come from, and what is stored.

use vstd::prelude::*;

use crate::sprites::exec::{lossy_text, utf8_lossy};
use crate::text::{
    concat, first_index, lowered, split_once, to_lower, trim, trimmed, utf8_string,
};

verus! {

/// What a login stores.
#[derive(Debug, PartialEq, Eq)]
pub struct StoredAuth {
    pub token: String,
    pub org: String,
}

/// Keys of the tools that run in sprites.
#[derive(Debug, PartialEq, Eq)]
pub struct StoredSecrets {
    pub claude_oauth_token: Option<String>,
    pub openai_api_key: Option<String>,
}

/// Where the configuration is kept.
#[derive(Debug, PartialEq, Eq)]
pub enum ConfigRoot {
    /// In this directory.
    Given(String),
    /// In `.config/spritebox` under this directory.
    Home(String),
}

/// The text of an optional string.
pub open spec fn told(s: Option<String>) -> Option<Seq<char>> {
    match s {
        Some(t) => Some(t@),
        None => None,
    }
}

/// A value that is there and not empty.
pub open spec fn set_to(s: Option<Seq<char>>) -> Option<Seq<char>> {
    if s is Some && s->0.len() > 0 {
        s
    } else {
        None
    }
}

/// The first of two that is there.
pub open spec fn either(a: Option<Seq<char>>, b: Option<Seq<char>>) -> Option<Seq<char>> {
    if a is Some {
        a
    } else {
        b
    }
}

fn non_empty(s: Option<String>) -> (r: Option<String>)
    ensures
        told(r) == set_to(told(s)),
{
    match s {
        Some(t) => if t.as_str().is_empty() {
            None
        } else {
            Some(t)
        },
        None => None,
    }
}

fn first_of(a: Option<String>, b: Option<String>) -> (r: Option<String>)
    ensures
        told(r) == either(told(a), told(b)),
{
    match a {
        Some(t) => Some(t),
        None => b,
    }
}

/// Where the configuration is kept: in the directory that the environment
/// gives, or under the home directory.
pub fn config_dir(given: Option<String>, home: Option<String>, profile: Option<String>) -> (r: Result<
    ConfigRoot,
    String,
>)
    ensures
        match r {
            Ok(ConfigRoot::Given(d)) => told(given) == Some(d@),
            Ok(ConfigRoot::Home(h)) => given is None && either(told(home), told(profile)) == Some(
                h@,
            ),
            Err(e) => given is None && home is None && profile is None && e@ == "HOME is not set"@,
        },
{
    match given {
        Some(d) => Ok(ConfigRoot::Given(d)),
        None => match first_of(home, profile) {
            Some(h) => Ok(ConfigRoot::Home(h)),
            None => Err("HOME is not set".to_owned()),
        },
    }
}

/// The token of the service: of `SPRITEBOX_TOKEN`, of `SPRITES_TOKEN`, or of
/// the last login. One that is empty does not count.
pub fn load_token(
    spritebox_token: Option<String>,
    sprites_token: Option<String>,
    stored: Option<StoredAuth>,
) -> (r: Option<String>)
    ensures
        told(r) == either(
            set_to(told(spritebox_token)),
            either(
                set_to(told(sprites_token)),
                set_to(
                    match stored {
                        Some(s) => Some(s.token@),
                        None => None,
                    },
                ),
            ),
        ),
{
    let last: Option<String> = match stored {
        Some(s) => Some(s.token),
        None => None,
    };
    first_of(non_empty(spritebox_token), first_of(non_empty(sprites_token), non_empty(last)))
}

/// The organisation of the last login.
pub fn load_org(stored: Option<StoredAuth>) -> (r: Option<String>)
    ensures
        told(r) == (match stored {
            Some(s) => Some(s.org@),
            None => None,
        }),
{
    match stored {
        Some(s) => Some(s.org),
        None => None,
    }
}

/// What a login stores.
pub fn save_token(token: &str, org: &str) -> (r: StoredAuth)
    ensures
        r.token@ == token@,
        r.org@ == org@,
{
    StoredAuth { token: token.to_owned(), org: org.to_owned() }
}

/// The token of the assistant: of the environment, where it is not empty, or
/// what was stored.
pub fn load_claude_token(given: Option<String>, secrets: StoredSecrets) -> (r: Option<String>)
    ensures
        told(r) == either(set_to(told(given)), told(secrets.claude_oauth_token)),
{
    first_of(non_empty(given), secrets.claude_oauth_token)
}

/// The secrets with a new token of the assistant. The other stays.
pub fn save_claude_token(secrets: StoredSecrets, token: &str) -> (r: StoredSecrets)
    ensures
        told(r.claude_oauth_token) == Some(token@),
        r.openai_api_key == secrets.openai_api_key,
{
    StoredSecrets {
        claude_oauth_token: Some(token.to_owned()),
        openai_api_key: secrets.openai_api_key,
    }
}

/// The key of OpenAI: of the environment, where it is not empty, or what was
/// stored.
pub fn load_openai_key(given: Option<String>, secrets: StoredSecrets) -> (r: Option<String>)
    ensures
        told(r) == either(set_to(told(given)), told(secrets.openai_api_key)),
{
    first_of(non_empty(given), secrets.openai_api_key)
}

/// The secrets with a new key of OpenAI. The other stays.
pub fn save_openai_key(secrets: StoredSecrets, key: &str) -> (r: StoredSecrets)
    ensures
        told(r.openai_api_key) == Some(key@),
        r.claude_oauth_token == secrets.claude_oauth_token,
{
    StoredSecrets {
        claude_oauth_token: secrets.claude_oauth_token,
        openai_api_key: Some(key.to_owned()),
    }
}

/// The variable that holds the token of the assistant.
pub const ASSISTANT_TOKEN_VAR: &'static str = "CLAUDE_CODE_OAUTH_TOKEN";

/// The name of a program whose variables begin with a word: that word, in
/// lower case.
pub open spec fn owner_of(var: Seq<char>) -> Seq<char> {
    lowered(var.take(first_index(var, '_')))
}

/// The name of the program that a variable belongs to.
pub fn variable_owner(var: &str) -> (r: String)
    ensures
        r@ == owner_of(var@),
{
    match split_once(var, '_') {
        Some((word, _rest)) => to_lower(&word),
        None => {
            proof {
                crate::text::lemma_first_index(var@, '_');
                assert(var@.take(first_index(var@, '_')) =~= var@);
            }
            to_lower(var)
        },
    }
}

/// What a program printed, without the white space around it, where it is text
/// and not empty. `None` stands for output that is not text.
pub open spec fn printed_text(bytes: Seq<u8>) -> Option<Seq<char>> {
    if vstd::utf8::valid_utf8(bytes) {
        Some(trimmed(vstd::utf8::decode_utf8(bytes)))
    } else {
        None
    }
}

/// What is said where `fly auth token` fails, given its complaint.
pub fn fly_refused(complaint: &str) -> (r: String)
    ensures
        r@ == "`fly auth token` failed. Run `fly auth login` first.\n"@ + complaint@,
{
    concat("`fly auth token` failed. Run `fly auth login` first.\n", complaint)
}

/// The token that `fly auth token` printed, or why there is none.
pub fn fly_auth_token(ran: bool, stdout: Vec<u8>, stderr: &[u8]) -> (r: Result<String, String>)
    ensures
        match r {
            Ok(t) => ran && printed_text(stdout@) == Some(t@) && t@.len() > 0,
            Err(e) => if !ran {
                e@ == "`fly auth token` failed. Run `fly auth login` first.\n"@ + utf8_lossy(
                    stderr@,
                )
            } else if printed_text(stdout@) is None {
                e@ == "fly auth token output is not valid UTF-8"@
            } else {
                printed_text(stdout@)->0.len() == 0 && e@
                    == "fly auth token returned empty output"@
            },
        },
{
    if !ran {
        return Err(fly_refused(&lossy_text(stderr)));
    }
    match utf8_string(stdout) {
        Some(s) => {
            let token: String = trim(&s);
            if token.as_str().is_empty() {
                Err("fly auth token returned empty output".to_owned())
            } else {
                Ok(token)
            }
        },
        None => Err("fly auth token output is not valid UTF-8".to_owned()),
    }
}

/// What a program printed of itself: nothing where it failed, printed nothing,
/// or printed what is not text.
pub fn whoami(ran: bool, stdout: Vec<u8>) -> (r: Option<String>)
    ensures
        told(r) == (if ran {
            set_to(printed_text(stdout@))
        } else {
            None
        }),
{
    if !ran {
        return None;
    }
    match utf8_string(stdout) {
        Some(s) => non_empty(Some(trim(&s))),
        None => None,
    }
}

/// What a setting is: nothing where the program that was asked failed or
/// printed nothing. Output that is not text is an error.
pub fn host_value(ran: bool, stdout: Vec<u8>, complaint: String) -> (r: Result<
    Option<String>,
    String,
>)
    ensures
        match r {
            Ok(v) => told(v) == (if ran {
                set_to(printed_text(stdout@))
            } else {
                None
            }) && (ran ==> printed_text(stdout@) is Some),
            Err(e) => ran && printed_text(stdout@) is None && e@ == complaint@,
        },
{
    if !ran {
        return Ok(None);
    }
    match utf8_string(stdout) {
        Some(s) => Ok(non_empty(Some(trim(&s)))),
        None => Err(complaint),
    }
}

/// What is said of a setting of git that is not text.
pub fn git_config_complaint(key: &str) -> (r: String)
    ensures
        r@ == "host git config "@ + key@ + " is not valid UTF-8"@,
{
    concat(&concat("host git config ", key), " is not valid UTF-8")
}

/// What a user typed in for a secret, without the white space around it.
/// Nothing is refused.
pub fn entered_secret(input: &str, complaint: &str) -> (r: Result<String, String>)
    ensures
        match r {
            Ok(s) => s@ == trimmed(input@) && s@.len() > 0,
            Err(e) => trimmed(input@).len() == 0 && e@ == complaint@,
        },
{
    let s: String = trim(input);
    if s.as_str().is_empty() {
        Err(complaint.to_owned())
    } else {
        Ok(s)
    }
}

/// The guest user: the one of the environment, or `dev`.
pub fn default_user(user: Option<String>, username: Option<String>) -> (r: String)
    ensures
        r@ == (match either(told(user), told(username)) {
            Some(u) => u,
            None => "dev"@,
        }),
{
    match first_of(user, username) {
        Some(u) => u,
        None => "dev".to_owned(),
    }
}

/// A token that was stored is used where the environment gives none.
pub proof fn law_stored_token_is_used(
    spritebox_token: Option<Seq<char>>,
    sprites_token: Option<Seq<char>>,
    stored: Option<Seq<char>>,
)
    requires
        set_to(spritebox_token) is None,
        set_to(sprites_token) is None,
    ensures
        either(set_to(spritebox_token), either(set_to(sprites_token), set_to(stored))) == set_to(
            stored,
        ),
{
}

/// The environment comes before what was stored, and `SPRITEBOX_TOKEN` before
/// `SPRITES_TOKEN`.
pub proof fn law_environment_first(
    spritebox_token: Option<Seq<char>>,
    sprites_token: Option<Seq<char>>,
    stored: Option<Seq<char>>,
)
    ensures
        set_to(spritebox_token) is Some ==> either(
            set_to(spritebox_token),
            either(set_to(sprites_token), set_to(stored)),
        ) == spritebox_token,
        set_to(spritebox_token) is None && set_to(sprites_token) is Some ==> either(
            set_to(spritebox_token),
            either(set_to(sprites_token), set_to(stored)),
        ) == sprites_token,
{
}

/// Which token is used: the first of the three that is there and not empty.
/// Where none is, there is none.
pub proof fn law_first_token_that_counts(
    a: Option<Seq<char>>,
    b: Option<Seq<char>>,
    c: Option<Seq<char>>,
)
    ensures
        ({
            let used = either(set_to(a), either(set_to(b), set_to(c)));
            &&& a is Some && a->0.len() > 0 ==> used == a
            &&& (a is None || a->0.len() == 0) && b is Some && b->0.len() > 0 ==> used == b
            &&& (a is None || a->0.len() == 0) && (b is None || b->0.len() == 0) && c is Some
                && c->0.len() > 0 ==> used == c
            &&& (a is None || a->0.len() == 0) && (b is None || b->0.len() == 0) && (c is None
                || c->0.len() == 0) ==> used is None
        }),
        a is Some && a->0.len() > 0 ==> either(set_to(a), b) == a,
        a is None || a->0.len() == 0 ==> either(set_to(a), b) == b,
        a is Some ==> either(a, b) == a,
        a is None ==> either(a, b) == b,
{
}

/// A variable belongs to the program whose name stands before its first
/// underscore; one without an underscore is that name.
pub proof fn law_variable_owner(word: Seq<char>, rest: Seq<char>)
    requires
        forall|i: int| 0 <= i < word.len() ==> word[i] != '_',
    ensures
        owner_of(word + seq!['_'] + rest) == lowered(word),
        owner_of(word) == lowered(word),
{
    crate::text::law_index_of(word, '_', rest);
    assert((word + seq!['_'] + rest).take(word.len() as int) =~= word);
    assert(word.take(word.len() as int) =~= word);
}

/// What a program printed is read without the blanks and line ends around it;
/// bytes that are no text are not read at all.
pub proof fn law_printed(front: Seq<char>, s: Seq<char>, back: Seq<char>, bytes: Seq<u8>)
    requires
        crate::text::all_blank(front),
        crate::text::all_blank(back),
        s.len() > 0 ==> '!' <= s[0] && s[0] <= '~' && '!' <= s.last() && s.last() <= '~',
    ensures
        printed_text(vstd::utf8::encode_utf8(front + s + back)) == Some(s),
        !vstd::utf8::valid_utf8(bytes) ==> printed_text(bytes) is None,
{
    broadcast use vstd::utf8::encode_utf8_decode_utf8, vstd::utf8::encode_utf8_valid_utf8;

    crate::text::law_trimmed_between(front, s, back);
}

} // verus!
