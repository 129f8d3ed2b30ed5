//! Questions to the user, and what the answers mean.

use vstd::prelude::*;

use crate::text::{
    all_blank, concat, decimal, is_digit, law_number_read, law_trimmed_between, lemma_decimal,
    lowered, number, number_in, parse_number, str_eq, to_lower, trim, trimmed, views,
};

verus! {

/// What the user asked to launch.
#[derive(Debug, PartialEq, Eq, Clone, Copy, Structural)]
pub enum Selector {
    /// It is said in full.
    Complete,
    /// The branch of the repository is missing.
    NeedsBranch,
}

/// Whether it is said what to launch.
pub fn resolve_launch_selector(
    name: Option<&str>,
    repo: Option<&str>,
    branch: Option<&str>,
) -> (r: Result<Selector, String>)
    ensures
        match r {
            Ok(s) => (name is Some || repo is Some) && s == (if repo is Some && branch is None {
                Selector::NeedsBranch
            } else {
                Selector::Complete
            }),
            Err(e) => name is None && repo is None && e@
                == "provide --repo/--branch or --name to launch a sprite"@,
        },
{
    if name.is_none() && repo.is_none() {
        return Err("provide --repo/--branch or --name to launch a sprite".to_owned());
    }
    if repo.is_some() && branch.is_none() {
        Ok(Selector::NeedsBranch)
    } else {
        Ok(Selector::Complete)
    }
}

/// Why the user cannot be asked for a branch: there is no one to ask.
pub fn not_interactive() -> (r: String)
    ensures
        r@
            == "--repo was provided without --branch, but stdin is not interactive; pass --branch explicitly"@,
{
    "--repo was provided without --branch, but stdin is not interactive; pass --branch explicitly".to_owned()
}

/// The branch where there is only one; `None` where the user has to choose.
pub fn only_branch(repo: &str, branches: &Vec<String>) -> (r: Result<Option<String>, String>)
    ensures
        match r {
            Ok(Some(b)) => branches@.len() == 1 && b@ == branches@[0]@,
            Ok(None) => branches@.len() > 1,
            Err(e) => branches@.len() == 0 && e@ == "no remote branches found for "@ + repo@,
        },
{
    if branches.len() == 0 {
        return Err(concat("no remote branches found for ", repo));
    }
    if branches.len() == 1 {
        return Ok(Some(branches[0].clone()));
    }
    Ok(None)
}

/// The branch that an answer chooses: the first where it is empty, or the one
/// with that number, counted from one.
pub open spec fn chosen_branch(answer: Seq<char>, branches: Seq<Seq<char>>) -> Option<Seq<char>> {
    if trimmed(answer).len() == 0 {
        Some(branches[0])
    } else {
        match number_in(trimmed(answer), branches.len() as int) {
            Some(n) => if n >= 1 {
                Some(branches[n - 1])
            } else {
                None
            },
            None => None,
        }
    }
}

/// The branch that an answer chooses, if any.
pub fn choose_branch(answer: &str, branches: &Vec<String>) -> (r: Option<String>)
    requires
        branches@.len() > 0,
    ensures
        (match r {
            Some(b) => Some(b@),
            None => None,
        }) == chosen_branch(answer@, views(branches@)),
{
    let selection: String = trim(answer);
    if selection.as_str().is_empty() {
        return Some(branches[0].clone());
    }
    match parse_number(&selection, branches.len() as u64) {
        Some(n) => if n >= 1 {
            Some(branches[(n - 1) as usize].clone())
        } else {
            None
        },
        None => None,
    }
}

/// What is said of an answer that chooses nothing.
pub fn invalid_selection(count: usize) -> (r: String)
    ensures
        r@ == "Invalid selection. Enter a number from 1 to "@ + decimal(count as nat) + "."@,
{
    concat(
        &concat("Invalid selection. Enter a number from 1 to ", &number(count as u64)),
        ".",
    )
}

/// The question for a branch.
pub fn branch_prompt(count: usize) -> (r: String)
    ensures
        r@ == "Branch [1-"@ + decimal(count as nat) + "] (default 1): "@,
{
    concat(&concat("Branch [1-", &number(count as u64)), "] (default 1): ")
}

/// Whether the user agrees: `y` or `yes`, in either case.
pub fn confirmed(answer: &str) -> (r: bool)
    ensures
        r == (lowered(trimmed(answer@)) == "y"@ || lowered(trimmed(answer@)) == "yes"@),
{
    let said: String = to_lower(&trim(answer));
    str_eq(&said, "y") || str_eq(&said, "yes")
}

/// What to do about a sprite that is to be stopped.
#[derive(Debug, PartialEq, Eq, Clone, Copy, Structural)]
pub enum StopAction {
    /// There is none.
    Missing,
    /// It is not running.
    Already,
    /// Stop it.
    Stop,
}

/// What to do about a sprite that is to be stopped, by its status.
pub fn stop_action(status: Option<&str>) -> (r: StopAction)
    ensures
        r == (match status {
            None => StopAction::Missing,
            Some(s) => if s@ == "stopped"@ || s@ == "sleeping"@ {
                StopAction::Already
            } else {
                StopAction::Stop
            },
        }),
{
    match status {
        None => StopAction::Missing,
        Some(s) => if str_eq(s, "stopped") || str_eq(s, "sleeping") {
            StopAction::Already
        } else {
            StopAction::Stop
        },
    }
}

/// What to do about a sprite that is to be destroyed.
#[derive(Debug, PartialEq, Eq, Clone, Copy, Structural)]
pub enum DestroyAction {
    /// There is none.
    Missing,
    /// Ask whether it shall be.
    Ask,
    /// Delete it.
    Delete,
    /// Leave it.
    Abort,
}

/// What to do about a sprite that is to be destroyed: nothing is deleted
/// unless the user said so, on the command line or when asked.
pub fn destroy_action(exists: bool, yes: bool, answer: Option<&str>) -> (r: DestroyAction)
    ensures
        r == (if !exists {
            DestroyAction::Missing
        } else if yes {
            DestroyAction::Delete
        } else {
            match answer {
                None => DestroyAction::Ask,
                Some(a) => if lowered(trimmed(a@)) == "y"@ || lowered(trimmed(a@)) == "yes"@ {
                    DestroyAction::Delete
                } else {
                    DestroyAction::Abort
                },
            }
        }),
{
    if !exists {
        return DestroyAction::Missing;
    }
    if yes {
        return DestroyAction::Delete;
    }
    match answer {
        None => DestroyAction::Ask,
        Some(a) => if confirmed(a) {
            DestroyAction::Delete
        } else {
            DestroyAction::Abort
        },
    }
}

/// A line of the list of sprites.
pub fn list_line(name: &str, status: &str, url: Option<&str>) -> (r: String)
    ensures
        r@ == name@ + "  "@ + status@ + "  "@ + (match url {
            Some(u) => u@,
            None => "-"@,
        }),
{
    let mut out: String = concat(&concat(name, "  "), status);
    out.append("  ");
    match url {
        Some(u) => out.append(u),
        None => out.append("-"),
    }
    out
}

/// What the doctor says of the login.
pub fn auth_line(token: bool, org: Option<&str>) -> (r: String)
    ensures
        r@ == (if token {
            "auth: ok (org: "@ + (match org {
                Some(o) => o@,
                None => "-"@,
            }) + ")"@
        } else {
            "auth: missing (run `spritebox auth login`)"@
        }),
{
    if !token {
        return "auth: missing (run `spritebox auth login`)".to_owned();
    }
    let mut out: String = "auth: ok (org: ".to_owned();
    match org {
        Some(o) => out.append(o),
        None => out.append("-"),
    }
    out.append(")");
    out
}

/// What the doctor says of the name and the address that git signs with.
pub fn git_user_line(name: Option<&str>, email: Option<&str>) -> (r: String)
    ensures
        r@ == (if name is Some && email is Some {
            "git_user: ok ("@ + name->0@ + " <"@ + email->0@ + ">)"@
        } else {
            "git_user: missing (git config --global user.name/user.email)"@
        }),
{
    match (name, email) {
        (Some(n), Some(e)) => {
            let mut out: String = concat(&concat("git_user: ok (", n), " <");
            out.append(e);
            out.append(">)");
            out
        },
        _ => "git_user: missing (git config --global user.name/user.email)".to_owned(),
    }
}

/// What is said of the host's token for repositories.
pub fn gh_line(token: bool) -> (r: String)
    ensures
        r@ == (if token {
            "gh_token: ok (gh auth token)"@
        } else {
            "gh_token: missing (install gh CLI and run gh auth login)"@
        }),
{
    if token {
        "gh_token: ok (gh auth token)".to_owned()
    } else {
        "gh_token: missing (install gh CLI and run gh auth login)".to_owned()
    }
}

/// What is said of the service: how many sprites it listed, or what it
/// answered.
pub fn api_line(listed: Result<usize, &str>) -> (r: String)
    ensures
        r@ == (match listed {
            Ok(n) => "api: ok ("@ + decimal(n as nat) + " sprites)"@,
            Err(e) => "api: error ("@ + e@ + ")"@,
        }),
{
    match listed {
        Ok(n) => {
            let mut out: String = concat("api: ok (", &number(n as u64));
            out.append(" sprites)");
            out
        },
        Err(e) => {
            let mut out: String = concat("api: error (", e);
            out.append(")");
            out
        },
    }
}

/// What is said of the account at Fly.io.
pub fn fly_line(email: Option<&str>) -> (r: String)
    ensures
        r@ == (match email {
            Some(e) => "fly.io: "@ + e@,
            None => "fly.io: not logged in (run `fly auth login`)"@,
        }),
{
    match email {
        Some(e) => concat("fly.io: ", e),
        None => "fly.io: not logged in (run `fly auth login`)".to_owned(),
    }
}

/// What is said of the login to the service.
pub fn sprites_line(token: bool, org: Option<&str>) -> (r: String)
    ensures
        r@ == (if token {
            "sprites: authenticated (org: "@ + (match org {
                Some(o) => o@,
                None => "unknown"@,
            }) + ")"@
        } else {
            "sprites: not authenticated. Run `spritebox auth login`."@
        }),
{
    if !token {
        return "sprites: not authenticated. Run `spritebox auth login`.".to_owned();
    }
    let mut out: String = "sprites: authenticated (org: ".to_owned();
    match org {
        Some(o) => out.append(o),
        None => out.append("unknown"),
    }
    out.append(")");
    out
}

/// What is said of the secret of a tool, which a command sets up.
pub fn tool_line(tool: &str, configured: bool, setup: &str) -> (r: String)
    ensures
        r@ == tool@ + (if configured {
            ": ok"@
        } else {
            ": not configured (run `spritebox auth "@ + setup@ + "`)"@
        }),
{
    let mut out: String = tool.to_owned();
    if configured {
        out.append(": ok");
    } else {
        out.append(": not configured (run `spritebox auth ");
        out.append(setup);
        out.append("`)");
    }
    proof {
        if !configured {
            let head = ": not configured (run `spritebox auth "@;
            assert(out@ =~= tool@ + (head + setup@ + "`)"@));
        }
    }
    out
}

/// Whether a session ended as it should: with 0, or with 130 where it was
/// interrupted.
pub fn session_ended(code: i32) -> (r: bool)
    ensures
        r == (code == 0 || code == 130),
{
    code == 0 || code == 130
}

/// An answer that is a number from 1 up to the number of branches chooses that
/// branch, blanks around it aside; one of blanks alone chooses the first; any
/// other number chooses none, and neither does a text that is no number.
pub proof fn law_answers_choose(
    front: Seq<char>,
    n: nat,
    back: Seq<char>,
    branches: Seq<Seq<char>>,
    word: Seq<char>,
)
    requires
        all_blank(front),
        all_blank(back),
        branches.len() > 0,
        word.len() > 0,
        'A' <= word[0] && word[0] <= 'z',
        '!' <= word.last() && word.last() <= '~',
    ensures
        chosen_branch(front + back, branches) == Some(branches[0]),
        1 <= n <= branches.len() ==> chosen_branch(front + decimal(n) + back, branches) == Some(
            branches[n - 1],
        ),
        n == 0 || n > branches.len() ==> chosen_branch(front + decimal(n) + back, branches) is None,
        chosen_branch(front + word + back, branches) is None,
{
    let none = Seq::<char>::empty();
    law_trimmed_between(front, none, back);
    assert(front + none + back =~= front + back);
    lemma_decimal(n);
    let d = decimal(n);
    assert(is_digit(d[0]) && is_digit(d[d.len() - 1]));
    law_trimmed_between(front, d, back);
    law_number_read(n, branches.len() as int, word);
    law_trimmed_between(front, word, back);
}

/// A launch needs a name or a repository. A repository without a branch has one
/// asked for; where the repository has one branch alone nobody is asked.
pub proof fn law_launch_selected(
    name: Option<&str>,
    repo: Option<&str>,
    branch: Option<&str>,
    r: Result<Selector, String>,
    place: &str,
    branches: Vec<String>,
    one: Result<Option<String>, String>,
)
    requires
        call_ensures(resolve_launch_selector, (name, repo, branch), r),
        call_ensures(only_branch, (place, &branches), one),
    ensures
        r is Err <==> name is None && repo is None,
        r == Ok::<Selector, String>(Selector::NeedsBranch) <==> repo is Some && branch is None,
        r == Ok::<Selector, String>(Selector::Complete) <==> (name is Some && repo is None) || (repo
            is Some && branch is Some),
        one is Err <==> branches@.len() == 0,
        branches@.len() == 1 ==> (one matches Ok(Some(b)) && b@ == branches@[0]@),
        branches@.len() > 1 ==> one matches Ok(None),
{
}

/// A sprite that sleeps or was stopped is not stopped again, and any other one
/// that exists is. A sprite is deleted only where it exists, and only after a
/// yes.
pub proof fn law_sprites_ended(
    status: &str,
    stop: StopAction,
    none: StopAction,
    exists_one: bool,
    yes: bool,
    answer: Option<&str>,
    destroy: DestroyAction,
    asked: DestroyAction,
)
    requires
        call_ensures(stop_action, (Some(status),), stop),
        call_ensures(stop_action, (None,), none),
        call_ensures(destroy_action, (exists_one, yes, answer), destroy),
        call_ensures(destroy_action, (exists_one, yes, None), asked),
    ensures
        stop == StopAction::Already <==> status@ == "stopped"@ || status@ == "sleeping"@,
        stop == StopAction::Stop <==> status@ != "stopped"@ && status@ != "sleeping"@,
        none == StopAction::Missing,
        destroy == DestroyAction::Missing <==> !exists_one,
        destroy == DestroyAction::Delete ==> exists_one && (yes || (answer matches Some(a) && (
        lowered(trimmed(a@)) == "y"@ || lowered(trimmed(a@)) == "yes"@))),
        exists_one && yes ==> destroy == DestroyAction::Delete,
        exists_one && !yes ==> asked == DestroyAction::Ask,
        exists_one && !yes && (answer matches Some(a) && (lowered(trimmed(a@)) == "y"@ || lowered(
            trimmed(a@),
        ) == "yes"@)) ==> destroy == DestroyAction::Delete,
        destroy == DestroyAction::Abort ==> exists_one && !yes && answer is Some,
{
}

} // verus!
