//! Launching a sprite, step by step: what is asked for next, given what came
//! of the last step.

use vstd::prelude::*;

use crate::cli::credentials::{either, told};
use crate::cli::scripts::{
    clone_script, clone_text, config_candidates, config_names, env_file, env_text,
    notes_install, notes_section, notes_text, pack_command, shell_line, shell_text, skills_doc,
    skills_text, spaced, unpack_command, unpack_text, user_setup, BROWSER_OPEN, BROWSER_OPEN_INSTALL, CODEX_INSTALL,
    ENV_INSTALL, GIT_SETUP, OPEN_FILE, OPEN_FILE_INSTALL, PASTE_IMAGE, PASTE_IMAGE_INSTALL,
    PROFILE, PROFILE_INSTALL, SKILLS_INSTALL, USER_SETUP,
};
use crate::cli::share::words;
use crate::cli::shell::{https_of, quoted, ssh_to_https};
use crate::sprites::exec::{optional, EnvVar, ExecResult};
use crate::text::{
    concat, replace_char, replaced, signed_decimal, signed_number, trim, trimmed, views,
};

verus! {

/// What the user wants.
#[derive(Debug, PartialEq, Eq)]
pub struct LaunchOptions {
    pub repo: Option<String>,
    pub branch: Option<String>,
    pub user: String,
    /// The name of the assistant.
    pub assistant: String,
    pub no_claude: bool,
    pub no_codex: bool,
}

/// What the host tells of itself.
#[derive(Debug, PartialEq, Eq)]
pub struct HostFacts {
    pub gh_token: Option<String>,
    pub claude_token: Option<String>,
    pub anthropic_key: Option<String>,
    pub openai_key: Option<String>,
    pub openai_env: Option<String>,
    pub git_name: Option<String>,
    pub git_email: Option<String>,
    pub term: Option<String>,
    pub token: Option<String>,
}

/// The step that a launch is at: what it waits for.
#[derive(Debug, PartialEq, Eq, Clone, Copy, Structural)]
pub enum LaunchStep {
    /// Whether the sprite exists.
    Looking,
    /// That it is made.
    Creating,
    /// Whether it exists now.
    Waiting,
    /// The guest user.
    UserSetup,
    /// The profile of the shell.
    Profile,
    /// The scripts of the bridge.
    PasteScript,
    BrowserScript,
    OpenScript,
    /// The host's token for the repository.
    CloneToken,
    /// Whether the repository is there.
    CloneCheck,
    /// The clone.
    Cloning,
    /// The address of the sprite.
    Address,
    /// What the host tells of itself.
    Session,
    /// The variables of the session.
    WritingEnv,
    /// The credentials of git.
    GitSetup,
    /// The files that the sprite is given.
    Configs,
    Packing,
    Unpacking,
    /// The notes for assistants.
    Skills,
    AssistantNotes,
    CodexNotes,
    /// The size of the terminal.
    Terminal,
    /// The end of the session.
    Console,
    /// Nothing more.
    Over,
}

/// What came of a step.
#[derive(Debug, PartialEq, Eq)]
pub enum LaunchEvent {
    /// The sprite was looked up; its address where it exists and has one.
    Found(Option<String>),
    /// There is no such sprite.
    Missing,
    Created,
    Ran(ExecResult),
    GhToken(Option<String>),
    Host(HostFacts),
    /// The home directory, and those of the files that are there.
    Configs { home: Option<String>, present: Vec<String> },
    /// Whether the files were packed, and what was complained of.
    Packed { ok: bool, stderr: String },
    Size { cols: u16, rows: u16 },
    Closed(i32),
    /// It could not be done.
    Failed(String),
}

/// What a command reads.
#[derive(Debug, PartialEq, Eq)]
pub enum Input {
    Nothing,
    Text(String),
    /// The files that were packed.
    Archive,
}

/// What is to be done next.
#[derive(Debug, PartialEq, Eq)]
pub enum LaunchAction {
    /// Look the sprite up.
    LookUp,
    /// Make it, with so many processors and so much memory.
    Create { cpus: u8, ram_mb: u32 },
    /// Run a command in it.
    Run { cmd: Vec<String>, env: Vec<EnvVar>, input: Input },
    AskGhToken,
    AskHost,
    /// Find out which of these files are there.
    AskConfigs(Vec<String>),
    /// Run a command of the host that packs files.
    Pack(String),
    AskSize,
    /// Open a console.
    Console { cmd: Vec<String>, env: Vec<EnvVar>, dir: Option<String> },
    Done,
    Fail(String),
}

/// What a command reads, as characters.
pub enum InputView {
    Nothing,
    Text(Seq<char>),
    Archive,
}

/// What is to be done next, as characters.
pub enum ActionView {
    LookUp,
    Create { cpus: u8, ram_mb: u32 },
    Run { cmd: Seq<Seq<char>>, env: Seq<(Seq<char>, Seq<char>)>, input: InputView },
    AskGhToken,
    AskHost,
    AskConfigs(Seq<Seq<char>>),
    Pack(Seq<char>),
    AskSize,
    Console { cmd: Seq<Seq<char>>, env: Seq<(Seq<char>, Seq<char>)>, dir: Option<Seq<char>> },
    Done,
    Fail(Seq<char>),
}

/// Variables as pairs of characters.
pub open spec fn env_pairs(env: Seq<EnvVar>) -> Seq<(Seq<char>, Seq<char>)> {
    Seq::new(env.len(), |i: int| (env[i].key@, env[i].value@))
}

impl View for Input {
    type V = InputView;

    open spec fn view(&self) -> InputView {
        match self {
            Input::Nothing => InputView::Nothing,
            Input::Text(s) => InputView::Text(s@),
            Input::Archive => InputView::Archive,
        }
    }
}

impl View for LaunchAction {
    type V = ActionView;

    open spec fn view(&self) -> ActionView {
        match self {
            LaunchAction::LookUp => ActionView::LookUp,
            LaunchAction::Create { cpus, ram_mb } => ActionView::Create {
                cpus: *cpus,
                ram_mb: *ram_mb,
            },
            LaunchAction::Run { cmd, env, input } => ActionView::Run {
                cmd: views(cmd@),
                env: env_pairs(env@),
                input: input@,
            },
            LaunchAction::AskGhToken => ActionView::AskGhToken,
            LaunchAction::AskHost => ActionView::AskHost,
            LaunchAction::AskConfigs(names) => ActionView::AskConfigs(views(names@)),
            LaunchAction::Pack(cmd) => ActionView::Pack(cmd@),
            LaunchAction::AskSize => ActionView::AskSize,
            LaunchAction::Console { cmd, env, dir } => ActionView::Console {
                cmd: views(cmd@),
                env: env_pairs(env@),
                dir: told(*dir),
            },
            LaunchAction::Done => ActionView::Done,
            LaunchAction::Fail(e) => ActionView::Fail(e@),
        }
    }
}

/// How far a launch is, and what it has learned.
pub struct LaunchView {
    pub repo: Option<Seq<char>>,
    pub branch: Option<Seq<char>>,
    pub user: Seq<char>,
    pub assistant: Seq<char>,
    pub no_claude: bool,
    pub no_codex: bool,
    pub name: Seq<char>,
    pub step: LaunchStep,
    pub gh_token: Option<Seq<char>>,
    pub url: Option<Seq<char>>,
    pub env: Seq<EnvVar>,
}

/// The launch of a sprite.
pub struct Launch {
    options: LaunchOptions,
    name: String,
    step: LaunchStep,
    gh_token: Option<String>,
    url: Option<String>,
    env: Vec<EnvVar>,
}

impl View for Launch {
    type V = LaunchView;

    closed spec fn view(&self) -> LaunchView {
        LaunchView {
            repo: told(self.options.repo),
            branch: told(self.options.branch),
            user: self.options.user@,
            assistant: self.options.assistant@,
            no_claude: self.options.no_claude,
            no_codex: self.options.no_codex,
            name: self.name@,
            step: self.step,
            gh_token: told(self.gh_token),
            url: told(self.url),
            env: self.env@,
        }
    }
}

/// A script run by bash.
pub open spec fn script(text: Seq<char>, input: InputView) -> ActionView {
    ActionView::Run { cmd: seq!["bash"@, "-c"@, text], env: Seq::empty(), input }
}

/// The variable that carries the host's token for repositories.
pub open spec fn gh_env(token: Option<Seq<char>>) -> Seq<(Seq<char>, Seq<char>)> {
    optional("GH_TOKEN"@, token)
}

/// The credentials of the first assistant, unless it is left out.
pub open spec fn assistant_pairs(f: HostFacts, left_out: bool) -> Seq<(Seq<char>, Seq<char>)> {
    if left_out {
        Seq::empty()
    } else if f.claude_token is Some {
        optional("CLAUDE_CODE_OAUTH_TOKEN"@, told(f.claude_token))
    } else {
        optional("ANTHROPIC_API_KEY"@, told(f.anthropic_key))
    }
}

/// The key of Codex, unless it is left out.
pub open spec fn codex_key(f: HostFacts, left_out: bool) -> Option<Seq<char>> {
    if left_out {
        None
    } else {
        either(told(f.openai_key), told(f.openai_env))
    }
}

/// The variables of a session that are written to the sprite. The host's token
/// for repositories is not among them: it is handed to the session itself.
/// Assistants that are left out get no credentials.
pub open spec fn session_pairs(
    f: HostFacts,
    no_claude: bool,
    no_codex: bool,
    name: Seq<char>,
    url: Option<Seq<char>>,
) -> Seq<(Seq<char>, Seq<char>)> {
    assistant_pairs(f, no_claude) + optional("OPENAI_API_KEY"@, codex_key(f, no_codex)) + optional(
        "GIT_AUTHOR_NAME"@,
        told(f.git_name),
    ) + optional("GIT_COMMITTER_NAME"@, told(f.git_name)) + optional(
        "GIT_AUTHOR_EMAIL"@,
        told(f.git_email),
    ) + optional("GIT_COMMITTER_EMAIL"@, told(f.git_email)) + optional(
        "TERM"@,
        either(told(f.term), Some("xterm-256color"@)),
    ) + optional("SPRITE_TOKEN"@, told(f.token)) + optional("SPRITE_NAME"@, Some(name)) + optional(
        "SPRITE_URL"@,
        url,
    )
}

/// What is said of a command that failed: what it was for, the exit code and
/// what it complained of.
pub open spec fn failure(what: Seq<char>, r: ExecResult) -> Seq<char> {
    what + " (exit "@ + signed_decimal(r.exit_code as int) + "): "@ + trimmed(r.stderr@)
}

/// Whether an event belongs to a step.
pub open spec fn awaited(step: LaunchStep, e: LaunchEvent) -> bool {
    match e {
        LaunchEvent::Failed(_) => step != LaunchStep::Over,
        LaunchEvent::Found(_) | LaunchEvent::Missing => step == LaunchStep::Looking || step
            == LaunchStep::Waiting || step == LaunchStep::Address,
        LaunchEvent::Created => step == LaunchStep::Creating,
        LaunchEvent::Ran(_) => step == LaunchStep::UserSetup || step == LaunchStep::Profile || step
            == LaunchStep::PasteScript || step == LaunchStep::BrowserScript || step
            == LaunchStep::OpenScript || step == LaunchStep::CloneCheck || step
            == LaunchStep::Cloning || step == LaunchStep::WritingEnv || step == LaunchStep::GitSetup
            || step == LaunchStep::Unpacking || step == LaunchStep::Skills || step
            == LaunchStep::AssistantNotes || step == LaunchStep::CodexNotes,
        LaunchEvent::GhToken(_) => step == LaunchStep::CloneToken,
        LaunchEvent::Host(_) => step == LaunchStep::Session,
        LaunchEvent::Configs { .. } => step == LaunchStep::Configs,
        LaunchEvent::Packed { .. } => step == LaunchStep::Packing,
        LaunchEvent::Size { .. } => step == LaunchStep::Terminal,
        LaunchEvent::Closed(_) => step == LaunchStep::Console,
    }
}

/// A launch at another step.
pub open spec fn at(v: LaunchView, step: LaunchStep) -> LaunchView {
    LaunchView { step, ..v }
}

/// A launch that ended with an error.
pub open spec fn ended(v: LaunchView, e: Seq<char>) -> (LaunchView, ActionView) {
    (at(v, LaunchStep::Over), ActionView::Fail(e))
}

/// The sprite is asked for its address.
pub open spec fn to_address(v: LaunchView) -> (LaunchView, ActionView) {
    (at(v, LaunchStep::Address), ActionView::LookUp)
}

/// The host is asked for the files that the sprite is given.
pub open spec fn to_configs(v: LaunchView) -> (LaunchView, ActionView) {
    (
        at(v, LaunchStep::Configs),
        ActionView::AskConfigs(config_names(v.assistant, v.no_claude, v.no_codex)),
    )
}

/// The notes for assistants are written.
pub open spec fn to_skills(v: LaunchView) -> (LaunchView, ActionView) {
    (
        at(v, LaunchStep::Skills),
        script(SKILLS_INSTALL@, InputView::Text(skills_text(v.name, v.url))),
    )
}

/// The repository is cloned.
pub open spec fn to_clone(v: LaunchView) -> (LaunchView, ActionView) {
    let url = if v.gh_token is Some {
        https_of(v.repo->0)
    } else {
        v.repo->0
    };
    (
        at(v, LaunchStep::Cloning),
        ActionView::Run {
            cmd: seq!["bash"@, "-c"@, clone_text(v.branch->0, url, v.user, v.gh_token is Some)],
            env: gh_env(v.gh_token),
            input: InputView::Nothing,
        },
    )
}

/// What follows a sprite that was found.
pub open spec fn after_found(v: LaunchView, url: Option<Seq<char>>) -> (LaunchView, ActionView) {
    match v.step {
        LaunchStep::Looking => (at(v, LaunchStep::Waiting), ActionView::LookUp),
        LaunchStep::Waiting => (
            at(v, LaunchStep::UserSetup),
            script(replaced(USER_SETUP@, '%', v.user), InputView::Nothing),
        ),
        _ => (LaunchView { url, step: LaunchStep::Session, ..v }, ActionView::AskHost),
    }
}

/// What follows a sprite that was not found.
pub open spec fn after_missing(v: LaunchView) -> (LaunchView, ActionView) {
    match v.step {
        LaunchStep::Looking => (
            at(v, LaunchStep::Creating),
            ActionView::Create { cpus: 4, ram_mb: 8192 },
        ),
        LaunchStep::Waiting => ended(v, "sprite "@ + v.name + " not found"@),
        _ => (LaunchView { url: None, step: LaunchStep::Session, ..v }, ActionView::AskHost),
    }
}

/// What follows a command that has run.
pub open spec fn after_run(v: LaunchView, r: ExecResult) -> (LaunchView, ActionView) {
    match v.step {
        LaunchStep::UserSetup => if r.exit_code != 0 {
            ended(v, failure("user setup failed"@, r))
        } else {
            (
                at(v, LaunchStep::Profile),
                script(PROFILE_INSTALL@, InputView::Text(PROFILE@)),
            )
        },
        LaunchStep::Profile => (
            at(v, LaunchStep::PasteScript),
            script(PASTE_IMAGE_INSTALL@, InputView::Text(PASTE_IMAGE@)),
        ),
        LaunchStep::PasteScript => (
            at(v, LaunchStep::BrowserScript),
            script(BROWSER_OPEN_INSTALL@, InputView::Text(BROWSER_OPEN@)),
        ),
        LaunchStep::BrowserScript => (
            at(v, LaunchStep::OpenScript),
            script(OPEN_FILE_INSTALL@, InputView::Text(OPEN_FILE@)),
        ),
        LaunchStep::OpenScript => if v.repo is Some && v.branch is Some {
            (at(v, LaunchStep::CloneToken), ActionView::AskGhToken)
        } else {
            to_address(v)
        },
        LaunchStep::CloneCheck => if r.exit_code != 0 && v.repo is Some && v.branch is Some {
            to_clone(v)
        } else {
            to_address(v)
        },
        LaunchStep::Cloning => if r.exit_code != 0 {
            ended(
                v,
                "git clone failed (exit "@ + signed_decimal(r.exit_code as int) + "):\n"@
                    + r.stdout@ + r.stderr@,
            )
        } else {
            to_address(v)
        },
        LaunchStep::WritingEnv => if r.exit_code != 0 {
            ended(v, failure("env setup failed"@, r))
        } else if v.gh_token is Some {
            (
                at(v, LaunchStep::GitSetup),
                ActionView::Run {
                    cmd: seq!["bash"@, "-c"@, replaced(GIT_SETUP@, '%', v.user)],
                    env: gh_env(v.gh_token),
                    input: InputView::Nothing,
                },
            )
        } else {
            to_configs(v)
        },
        LaunchStep::GitSetup => to_configs(v),
        LaunchStep::Unpacking => if r.exit_code != 0 {
            ended(v, failure("config sync failed"@, r))
        } else {
            to_skills(v)
        },
        LaunchStep::Skills => (
            at(v, LaunchStep::AssistantNotes),
            script(
                notes_text(v.user, v.assistant),
                InputView::Text(
                    "\n<!-- spritebox environment -->\n"@ + skills_text(v.name, v.url)
                        + "<!-- end spritebox -->\n"@,
                ),
            ),
        ),
        LaunchStep::AssistantNotes => (
            at(v, LaunchStep::CodexNotes),
            script(
                replaced(CODEX_INSTALL@, '%', v.user),
                InputView::Text(skills_text(v.name, v.url)),
            ),
        ),
        _ => (at(v, LaunchStep::Terminal), ActionView::AskSize),
    }
}

/// The end of a session.
pub open spec fn after_session(v: LaunchView, code: i32) -> (LaunchView, ActionView) {
    if code == 0 || code == 130 {
        (at(v, LaunchStep::Over), ActionView::Done)
    } else {
        ended(v, "session exited with code "@ + signed_decimal(code as int))
    }
}

/// What a launch does next.
pub open spec fn follows(
    v: LaunchView,
    e: LaunchEvent,
    w: LaunchView,
    action: ActionView,
) -> bool {
    match e {
        LaunchEvent::Failed(msg) => (w, action) == if v.step == LaunchStep::GitSetup {
            to_configs(v)
        } else {
            ended(v, msg@)
        },
        LaunchEvent::Found(url) => (w, action) == after_found(v, told(url)),
        LaunchEvent::Missing => (w, action) == after_missing(v),
        LaunchEvent::Created => (w, action) == (at(v, LaunchStep::Waiting), ActionView::LookUp),
        LaunchEvent::Ran(r) => (w, action) == after_run(v, r),
        LaunchEvent::GhToken(t) => (w, action) == (
            LaunchView { gh_token: told(t), step: LaunchStep::CloneCheck, ..v },
            ActionView::Run {
                cmd: seq!["test"@, "-d"@, "/workspace/.git"@],
                env: gh_env(told(t)),
                input: InputView::Nothing,
            },
        ),
        LaunchEvent::Host(f) => {
            &&& w == (LaunchView {
                gh_token: told(f.gh_token),
                env: w.env,
                step: LaunchStep::WritingEnv,
                ..v
            })
            &&& env_pairs(w.env) == session_pairs(
                f,
                v.no_claude,
                v.no_codex,
                v.name,
                v.url,
            )
            &&& action == script(
                replaced(ENV_INSTALL@, '%', v.user),
                InputView::Text(env_text(w.env)),
            )
        },
        LaunchEvent::Configs { home, present } => (w, action) == match home {
            None => ended(v, "HOME not set"@),
            Some(h) => if present@.len() == 0 {
                to_skills(v)
            } else {
                (
                    at(v, LaunchStep::Packing),
                    ActionView::Pack(
                        "tar czf - --no-mac-metadata --exclude='._*' -C "@ + quoted(h@) + spaced(
                            views(present@),
                        ),
                    ),
                )
            },
        },
        LaunchEvent::Packed { ok, stderr } => (w, action) == if ok {
            (
                at(v, LaunchStep::Unpacking),
                script(unpack_text(v.user, v.assistant), InputView::Archive),
            )
        } else {
            ended(v, "failed to archive configs: "@ + stderr@)
        },
        LaunchEvent::Size { cols, rows } => (w, action) == (
            at(v, LaunchStep::Console),
            ActionView::Console {
                cmd: seq!["bash"@, "-c"@, shell_text(v.user, rows, cols, v.repo is Some)],
                env: gh_env(v.gh_token) + env_pairs(v.env),
                dir: if v.repo is Some {
                    Some("/workspace"@)
                } else {
                    None
                },
            },
        ),
        LaunchEvent::Closed(code) => (w, action) == after_session(v, code),
    }
}

fn bash(text: String, input: Input) -> (r: LaunchAction)
    ensures
        r@ == script(text@, input@),
{
    let cmd: Vec<String> = words(&["bash", "-c", text.as_str()]);
    let env: Vec<EnvVar> = Vec::new();
    assert(views(cmd@) =~= seq!["bash"@, "-c"@, text@]);
    assert(env_pairs(env@) =~= Seq::empty());
    LaunchAction::Run { cmd, env, input }
}

fn install(text: &str, content: &str) -> (r: LaunchAction)
    ensures
        r@ == script(text@, InputView::Text(content@)),
{
    bash(text.to_owned(), Input::Text(content.to_owned()))
}

fn copy_text(s: &Option<String>) -> (r: Option<String>)
    ensures
        told(r) == told(*s),
{
    match s {
        Some(t) => Some(t.clone()),
        None => None,
    }
}

fn push_all(out: &mut Vec<EnvVar>, env: &Vec<EnvVar>)
    ensures
        env_pairs(final(out)@) == env_pairs(old(out)@) + env_pairs(env@),
{
    let mut i: usize = 0;
    assert(env_pairs(env@).take(0) =~= Seq::empty());
    assert(env_pairs(out@) =~= env_pairs(old(out)@) + env_pairs(env@).take(0));
    while i < env.len()
        invariant
            i <= env@.len(),
            env_pairs(out@) == env_pairs(old(out)@) + env_pairs(env@).take(i as int),
        decreases env@.len() - i,
    {
        let ghost before = env_pairs(out@);
        out.push(EnvVar { key: env[i].key.clone(), value: env[i].value.clone() });
        proof {
            let x = (env@[i as int].key@, env@[i as int].value@);
            assert(env_pairs(out@) =~= before.push(x));
            assert(env_pairs(env@).take(i + 1) =~= env_pairs(env@).take(i as int).push(x));
            assert(env_pairs(out@) =~= env_pairs(old(out)@) + env_pairs(env@).take(i + 1));
        }
        i += 1;
    }
    assert(env_pairs(env@).take(env@.len() as int) =~= env_pairs(env@));
}

fn push_var(out: &mut Vec<EnvVar>, key: &str, value: &Option<String>)
    ensures
        env_pairs(final(out)@) == env_pairs(old(out)@) + optional(key@, told(*value)),
{
    match value {
        Some(v) => {
            out.push(EnvVar { key: key.to_owned(), value: v.clone() });
            assert(env_pairs(out@) =~= env_pairs(old(out)@) + seq![(key@, v@)]);
        },
        None => {
            assert(env_pairs(out@) =~= env_pairs(old(out)@) + Seq::empty());
        },
    }
}

fn token_env(token: &Option<String>) -> (r: Vec<EnvVar>)
    ensures
        env_pairs(r@) == gh_env(told(*token)),
{
    let mut out: Vec<EnvVar> = Vec::new();
    push_var(&mut out, "GH_TOKEN", token);
    assert(env_pairs(out@) =~= gh_env(told(*token)));
    out
}

/// The variables of a session that are written to the sprite.
pub fn session_env(
    f: &HostFacts,
    no_claude: bool,
    no_codex: bool,
    name: &str,
    url: &Option<String>,
) -> (r: Vec<EnvVar>)
    ensures
        env_pairs(r@) == session_pairs(*f, no_claude, no_codex, name@, told(*url)),
{
    let mut out: Vec<EnvVar> = Vec::new();
    assert(env_pairs(out@) =~= Seq::empty());
    if no_claude {
        assert(env_pairs(out@) =~= assistant_pairs(*f, no_claude));
    } else if f.claude_token.is_some() {
        push_var(&mut out, "CLAUDE_CODE_OAUTH_TOKEN", &f.claude_token);
    } else {
        push_var(&mut out, "ANTHROPIC_API_KEY", &f.anthropic_key);
    }
    assert(env_pairs(out@) =~= assistant_pairs(*f, no_claude));
    let openai: Option<String> = if no_codex {
        None
    } else {
        match &f.openai_key {
            Some(k) => Some(k.clone()),
            None => copy_text(&f.openai_env),
        }
    };
    push_var(&mut out, "OPENAI_API_KEY", &openai);
    push_var(&mut out, "GIT_AUTHOR_NAME", &f.git_name);
    push_var(&mut out, "GIT_COMMITTER_NAME", &f.git_name);
    push_var(&mut out, "GIT_AUTHOR_EMAIL", &f.git_email);
    push_var(&mut out, "GIT_COMMITTER_EMAIL", &f.git_email);
    let term: Option<String> = match &f.term {
        Some(t) => Some(t.clone()),
        None => Some("xterm-256color".to_owned()),
    };
    push_var(&mut out, "TERM", &term);
    push_var(&mut out, "SPRITE_TOKEN", &f.token);
    push_var(&mut out, "SPRITE_NAME", &Some(name.to_owned()));
    push_var(&mut out, "SPRITE_URL", url);
    out
}

fn failure_text(what: &str, r: &ExecResult) -> (e: String)
    ensures
        e@ == failure(what@, *r),
{
    let mut e: String = concat(what, " (exit ");
    e.append(&signed_number(r.exit_code));
    e.append("): ");
    e.append(&trim(&r.stderr));
    e
}

impl Launch {
    /// Begin to launch a sprite: look it up.
    pub fn start(options: LaunchOptions, name: String) -> (r: (Launch, LaunchAction))
        ensures
            r.0@ == (LaunchView {
                repo: told(options.repo),
                branch: told(options.branch),
                user: options.user@,
                assistant: options.assistant@,
                no_claude: options.no_claude,
                no_codex: options.no_codex,
                name: name@,
                step: LaunchStep::Looking,
                gh_token: None,
                url: None,
                env: Seq::empty(),
            }),
            r.1@ == ActionView::LookUp,
    {
        let launch = Launch {
            options,
            name,
            step: LaunchStep::Looking,
            gh_token: None,
            url: None,
            env: Vec::new(),
        };
        (launch, LaunchAction::LookUp)
    }

    /// The step that the launch is at.
    pub fn step(&self) -> (r: LaunchStep)
        ensures
            r == self@.step,
    {
        self.step
    }

    fn fail(&mut self, e: String) -> (r: LaunchAction)
        ensures
            (final(self)@, r@) == ended(old(self)@, e@),
    {
        self.step = LaunchStep::Over;
        LaunchAction::Fail(e)
    }

    fn ask_address(&mut self) -> (r: LaunchAction)
        ensures
            (final(self)@, r@) == to_address(old(self)@),
    {
        self.step = LaunchStep::Address;
        LaunchAction::LookUp
    }

    fn ask_configs(&mut self) -> (r: LaunchAction)
        ensures
            (final(self)@, r@) == to_configs(old(self)@),
    {
        self.step = LaunchStep::Configs;
        LaunchAction::AskConfigs(
            config_candidates(
                &self.options.assistant,
                self.options.no_claude,
                self.options.no_codex,
            ),
        )
    }

    fn doc(&self) -> (r: String)
        ensures
            r@ == skills_text(self@.name, self@.url),
    {
        match &self.url {
            Some(u) => skills_doc(&self.name, Some(u.as_str())),
            None => skills_doc(&self.name, None),
        }
    }

    fn write_skills(&mut self) -> (r: LaunchAction)
        ensures
            (final(self)@, r@) == to_skills(old(self)@),
    {
        self.step = LaunchStep::Skills;
        let doc: String = self.doc();
        install(SKILLS_INSTALL, &doc)
    }

    fn on_found(&mut self, url: Option<String>) -> (r: LaunchAction)
        ensures
            (final(self)@, r@) == after_found(old(self)@, told(url)),
    {
        match self.step {
            LaunchStep::Looking => {
                self.step = LaunchStep::Waiting;
                LaunchAction::LookUp
            },
            LaunchStep::Waiting => {
                self.step = LaunchStep::UserSetup;
                bash(user_setup(&self.options.user), Input::Nothing)
            },
            _ => {
                self.url = url;
                self.step = LaunchStep::Session;
                LaunchAction::AskHost
            },
        }
    }

    fn on_missing(&mut self) -> (r: LaunchAction)
        ensures
            (final(self)@, r@) == after_missing(old(self)@),
    {
        match self.step {
            LaunchStep::Looking => {
                self.step = LaunchStep::Creating;
                LaunchAction::Create { cpus: 4, ram_mb: 8192 }
            },
            LaunchStep::Waiting => {
                let e: String = concat(&concat("sprite ", &self.name), " not found");
                self.fail(e)
            },
            _ => {
                self.url = None;
                self.step = LaunchStep::Session;
                LaunchAction::AskHost
            },
        }
    }

    fn clone_repo(&mut self) -> (r: LaunchAction)
        requires
            old(self)@.repo is Some,
            old(self)@.branch is Some,
        ensures
            (final(self)@, r@) == to_clone(old(self)@),
    {
        let token: bool = self.gh_token.is_some();
        let text: String = match (&self.options.repo, &self.options.branch) {
            (Some(repo), Some(branch)) => {
                let url: String = if token {
                    ssh_to_https(repo)
                } else {
                    repo.clone()
                };
                clone_script(branch, &url, &self.options.user, token)
            },
            _ => String::new(),
        };
        let cmd: Vec<String> = words(&["bash", "-c", text.as_str()]);
        assert(views(cmd@) =~= seq!["bash"@, "-c"@, text@]);
        let env: Vec<EnvVar> = token_env(&self.gh_token);
        self.step = LaunchStep::Cloning;
        LaunchAction::Run { cmd, env, input: Input::Nothing }
    }

    fn on_run(&mut self, result: ExecResult) -> (r: LaunchAction)
        ensures
            (final(self)@, r@) == after_run(old(self)@, result),
    {
        match self.step {
            LaunchStep::UserSetup => {
                if result.exit_code != 0 {
                    return self.fail(failure_text("user setup failed", &result));
                }
                self.step = LaunchStep::Profile;
                install(PROFILE_INSTALL, PROFILE)
            },
            LaunchStep::Profile => {
                self.step = LaunchStep::PasteScript;
                install(PASTE_IMAGE_INSTALL, PASTE_IMAGE)
            },
            LaunchStep::PasteScript => {
                self.step = LaunchStep::BrowserScript;
                install(BROWSER_OPEN_INSTALL, BROWSER_OPEN)
            },
            LaunchStep::BrowserScript => {
                self.step = LaunchStep::OpenScript;
                install(OPEN_FILE_INSTALL, OPEN_FILE)
            },
            LaunchStep::OpenScript => {
                if self.options.repo.is_some() && self.options.branch.is_some() {
                    self.step = LaunchStep::CloneToken;
                    LaunchAction::AskGhToken
                } else {
                    self.ask_address()
                }
            },
            LaunchStep::CloneCheck => {
                if result.exit_code != 0 && self.options.repo.is_some()
                    && self.options.branch.is_some() {
                    self.clone_repo()
                } else {
                    self.ask_address()
                }
            },
            LaunchStep::Cloning => {
                if result.exit_code != 0 {
                    let mut e: String = concat(
                        "git clone failed (exit ",
                        &signed_number(result.exit_code),
                    );
                    e.append("):\n");
                    e.append(&result.stdout);
                    e.append(&result.stderr);
                    return self.fail(e);
                }
                self.ask_address()
            },
            LaunchStep::WritingEnv => {
                if result.exit_code != 0 {
                    return self.fail(failure_text("env setup failed", &result));
                }
                if self.gh_token.is_some() {
                    self.step = LaunchStep::GitSetup;
                    let text: String = replace_char(GIT_SETUP, '%', &self.options.user);
                    let cmd: Vec<String> = words(&["bash", "-c", text.as_str()]);
                    assert(views(cmd@) =~= seq!["bash"@, "-c"@, text@]);
                    let env: Vec<EnvVar> = token_env(&self.gh_token);
                    return LaunchAction::Run { cmd, env, input: Input::Nothing };
                }
                self.ask_configs()
            },
            LaunchStep::GitSetup => self.ask_configs(),
            LaunchStep::Unpacking => {
                if result.exit_code != 0 {
                    return self.fail(failure_text("config sync failed", &result));
                }
                self.write_skills()
            },
            LaunchStep::Skills => {
                self.step = LaunchStep::AssistantNotes;
                let doc: String = self.doc();
                let section: String = notes_section(&doc);
                bash(
                    notes_install(&self.options.user, &self.options.assistant),
                    Input::Text(section),
                )
            },
            LaunchStep::AssistantNotes => {
                self.step = LaunchStep::CodexNotes;
                let doc: String = self.doc();
                bash(replace_char(CODEX_INSTALL, '%', &self.options.user), Input::Text(doc))
            },
            _ => {
                self.step = LaunchStep::Terminal;
                LaunchAction::AskSize
            },
        }
    }

    /// What is to be done next, given what came of the last step.
    pub fn next(&mut self, event: LaunchEvent) -> (r: LaunchAction)
        requires
            awaited(old(self)@.step, event),
        ensures
            follows(old(self)@, event, final(self)@, r@),
    {
        match event {
            LaunchEvent::Failed(e) => {
                if self.step == LaunchStep::GitSetup {
                    self.ask_configs()
                } else {
                    self.fail(e)
                }
            },
            LaunchEvent::Found(url) => self.on_found(url),
            LaunchEvent::Missing => self.on_missing(),
            LaunchEvent::Created => {
                self.step = LaunchStep::Waiting;
                LaunchAction::LookUp
            },
            LaunchEvent::Ran(result) => self.on_run(result),
            LaunchEvent::GhToken(token) => {
                let env: Vec<EnvVar> = token_env(&token);
                self.gh_token = token;
                self.step = LaunchStep::CloneCheck;
                let cmd: Vec<String> = words(&["test", "-d", "/workspace/.git"]);
                assert(views(cmd@) =~= seq!["test"@, "-d"@, "/workspace/.git"@]);
                LaunchAction::Run { cmd, env, input: Input::Nothing }
            },
            LaunchEvent::Host(facts) => {
                self.env = session_env(
                    &facts,
                    self.options.no_claude,
                    self.options.no_codex,
                    &self.name,
                    &self.url,
                );
                self.gh_token = facts.gh_token;
                self.step = LaunchStep::WritingEnv;
                bash(
                    replace_char(ENV_INSTALL, '%', &self.options.user),
                    Input::Text(env_file(&self.env)),
                )
            },
            LaunchEvent::Configs { home, present } => match home {
                None => self.fail("HOME not set".to_owned()),
                Some(h) => {
                    if present.len() == 0 {
                        return self.write_skills();
                    }
                    self.step = LaunchStep::Packing;
                    LaunchAction::Pack(pack_command(&h, &present))
                },
            },
            LaunchEvent::Packed { ok, stderr } => {
                if !ok {
                    return self.fail(concat("failed to archive configs: ", &stderr));
                }
                self.step = LaunchStep::Unpacking;
                bash(unpack_command(&self.options.user, &self.options.assistant), Input::Archive)
            },
            LaunchEvent::Size { cols, rows } => {
                let repo: bool = self.options.repo.is_some();
                let line: String = shell_line(&self.options.user, rows, cols, repo);
                let cmd: Vec<String> = words(&["bash", "-c", line.as_str()]);
                assert(views(cmd@) =~= seq!["bash"@, "-c"@, line@]);
                let mut env: Vec<EnvVar> = token_env(&self.gh_token);
                push_all(&mut env, &self.env);
                self.step = LaunchStep::Console;
                LaunchAction::Console {
                    cmd,
                    env,
                    dir: if repo {
                        Some("/workspace".to_owned())
                    } else {
                        None
                    },
                }
            },
            LaunchEvent::Closed(code) => {
                if code == 0 || code == 130 {
                    self.step = LaunchStep::Over;
                    LaunchAction::Done
                } else {
                    self.fail(concat("session exited with code ", &signed_number(code)))
                }
            },
        }
    }
}

/// The host's token for repositories lives in the memory of the session alone:
/// it is not among the variables that are written to the sprite, and the
/// console gets it with them.
#[verifier::spinoff_prover]
pub proof fn law_token_not_written(
    v: LaunchView,
    e: LaunchEvent,
    w: LaunchView,
    action: ActionView,
)
    requires
        awaited(v.step, e),
        follows(v, e, w, action),
    ensures
        e is Host ==> lacks(env_pairs(w.env), "GH_TOKEN"@),
        e is Host ==> action == script(
            replaced(ENV_INSTALL@, '%', v.user),
            InputView::Text(env_text(w.env)),
        ),
        action is Console ==> action->Console_env == gh_env(v.gh_token) + env_pairs(v.env),
{
    if let LaunchEvent::Host(f) = e {
        lemma_session_lacks_token(f, v.no_claude, v.no_codex, v.name, v.url);
    }
}

/// The credentials of an assistant that is left out go nowhere: what is written
/// to the sprite is the same whatever they are.
pub proof fn law_credentials_left_out(
    f: HostFacts,
    g: HostFacts,
    no_claude: bool,
    no_codex: bool,
    name: Seq<char>,
    url: Option<Seq<char>>,
)
    requires
        !no_claude ==> g.claude_token == f.claude_token && g.anthropic_key == f.anthropic_key,
        !no_codex ==> g.openai_key == f.openai_key && g.openai_env == f.openai_env,
        g.git_name == f.git_name,
        g.git_email == f.git_email,
        g.term == f.term,
        g.token == f.token,
    ensures
        session_pairs(f, no_claude, no_codex, name, url) == session_pairs(
            g,
            no_claude,
            no_codex,
            name,
            url,
        ),
{
}

/// Whether no variable has a name.
pub open spec fn lacks(vars: Seq<(Seq<char>, Seq<char>)>, key: Seq<char>) -> bool {
    forall|i: int| 0 <= i < vars.len() ==> (#[trigger] vars[i]).0 != key
}

proof fn lemma_lacks_more(
    vars: Seq<(Seq<char>, Seq<char>)>,
    name: Seq<char>,
    value: Option<Seq<char>>,
    key: Seq<char>,
)
    requires
        lacks(vars, key),
        name != key,
    ensures
        lacks(vars + optional(name, value), key),
{
    let more = optional(name, value);
    let all = vars + more;
    assert forall|i: int| 0 <= i < all.len() implies (#[trigger] all[i]).0 != key by {
        if i < vars.len() {
            assert(all[i] == vars[i]);
        } else {
            assert(all[i] == more[i - vars.len()]);
        }
    }
}

proof fn lemma_session_lacks_token(
    f: HostFacts,
    no_claude: bool,
    no_codex: bool,
    name: Seq<char>,
    url: Option<Seq<char>>,
)
    ensures
        lacks(session_pairs(f, no_claude, no_codex, name, url), "GH_TOKEN"@),
{
    let key = "GH_TOKEN"@;
    assert(key.len() == 8) by {
        reveal_strlit("GH_TOKEN");
    }
    assert("CLAUDE_CODE_OAUTH_TOKEN"@.len() != 8) by {
        reveal_strlit("CLAUDE_CODE_OAUTH_TOKEN");
    }
    assert("ANTHROPIC_API_KEY"@.len() != 8) by {
        reveal_strlit("ANTHROPIC_API_KEY");
    }
    assert("OPENAI_API_KEY"@.len() != 8) by {
        reveal_strlit("OPENAI_API_KEY");
    }
    assert("GIT_AUTHOR_NAME"@.len() != 8) by {
        reveal_strlit("GIT_AUTHOR_NAME");
    }
    assert("GIT_COMMITTER_NAME"@.len() != 8) by {
        reveal_strlit("GIT_COMMITTER_NAME");
    }
    assert("GIT_AUTHOR_EMAIL"@.len() != 8) by {
        reveal_strlit("GIT_AUTHOR_EMAIL");
    }
    assert("GIT_COMMITTER_EMAIL"@.len() != 8) by {
        reveal_strlit("GIT_COMMITTER_EMAIL");
    }
    assert("TERM"@.len() != 8) by {
        reveal_strlit("TERM");
    }
    assert("SPRITE_TOKEN"@.len() != 8) by {
        reveal_strlit("SPRITE_TOKEN");
    }
    assert("SPRITE_NAME"@.len() != 8) by {
        reveal_strlit("SPRITE_NAME");
    }
    assert("SPRITE_URL"@.len() != 8) by {
        reveal_strlit("SPRITE_URL");
    }
    let none = Seq::<(Seq<char>, Seq<char>)>::empty();
    let p0 = assistant_pairs(f, no_claude);
    lemma_lacks_more(none, "CLAUDE_CODE_OAUTH_TOKEN"@, told(f.claude_token), key);
    lemma_lacks_more(none, "ANTHROPIC_API_KEY"@, told(f.anthropic_key), key);
    assert(none + p0 =~= p0);
    let openai = codex_key(f, no_codex);
    lemma_lacks_more(p0, "OPENAI_API_KEY"@, openai, key);
    let p1 = p0 + optional("OPENAI_API_KEY"@, openai);
    lemma_lacks_more(p1, "GIT_AUTHOR_NAME"@, told(f.git_name), key);
    let p2 = p1 + optional("GIT_AUTHOR_NAME"@, told(f.git_name));
    lemma_lacks_more(p2, "GIT_COMMITTER_NAME"@, told(f.git_name), key);
    let p3 = p2 + optional("GIT_COMMITTER_NAME"@, told(f.git_name));
    lemma_lacks_more(p3, "GIT_AUTHOR_EMAIL"@, told(f.git_email), key);
    let p4 = p3 + optional("GIT_AUTHOR_EMAIL"@, told(f.git_email));
    lemma_lacks_more(p4, "GIT_COMMITTER_EMAIL"@, told(f.git_email), key);
    let p5 = p4 + optional("GIT_COMMITTER_EMAIL"@, told(f.git_email));
    let term = either(told(f.term), Some("xterm-256color"@));
    lemma_lacks_more(p5, "TERM"@, term, key);
    let p6 = p5 + optional("TERM"@, term);
    lemma_lacks_more(p6, "SPRITE_TOKEN"@, told(f.token), key);
    let p7 = p6 + optional("SPRITE_TOKEN"@, told(f.token));
    lemma_lacks_more(p7, "SPRITE_NAME"@, Some(name), key);
    let p8 = p7 + optional("SPRITE_NAME"@, Some(name));
    lemma_lacks_more(p8, "SPRITE_URL"@, url, key);
}

/// How far along a step is.
pub open spec fn rank(step: LaunchStep) -> int {
    match step {
        LaunchStep::Looking => 0,
        LaunchStep::Creating => 1,
        LaunchStep::Waiting => 2,
        LaunchStep::UserSetup => 3,
        LaunchStep::Profile => 4,
        LaunchStep::PasteScript => 5,
        LaunchStep::BrowserScript => 6,
        LaunchStep::OpenScript => 7,
        LaunchStep::CloneToken => 8,
        LaunchStep::CloneCheck => 9,
        LaunchStep::Cloning => 10,
        LaunchStep::Address => 11,
        LaunchStep::Session => 12,
        LaunchStep::WritingEnv => 13,
        LaunchStep::GitSetup => 14,
        LaunchStep::Configs => 15,
        LaunchStep::Packing => 16,
        LaunchStep::Unpacking => 17,
        LaunchStep::Skills => 18,
        LaunchStep::AssistantNotes => 19,
        LaunchStep::CodexNotes => 20,
        LaunchStep::Terminal => 21,
        LaunchStep::Console => 22,
        LaunchStep::Over => 23,
    }
}

/// A launch never goes back: every event takes it to a later step, and it is
/// over exactly when it is done or has failed. What it was started with does
/// not change.
#[verifier::spinoff_prover]
#[verifier::rlimit(40)]
pub proof fn law_launch_progress(
    v: LaunchView,
    e: LaunchEvent,
    w: LaunchView,
    action: ActionView,
)
    requires
        awaited(v.step, e),
        follows(v, e, w, action),
    ensures
        rank(w.step) > rank(v.step),
        w.step == LaunchStep::Over <==> (action is Done || action is Fail),
        w.name == v.name,
        w.user == v.user,
        w.assistant == v.assistant,
        w.repo == v.repo,
        w.branch == v.branch,
        w.no_claude == v.no_claude,
        w.no_codex == v.no_codex,
{
}

/// A repository that is there is not cloned again.
pub proof fn law_clone_once(v: LaunchView, e: LaunchEvent, w: LaunchView, action: ActionView)
    requires
        awaited(v.step, e),
        follows(v, e, w, action),
        w.step == LaunchStep::Cloning,
    ensures
        v.step == LaunchStep::CloneCheck,
        e matches LaunchEvent::Ran(r) && r.exit_code != 0,
        v.repo is Some,
        v.branch is Some,
{
}

/// What cannot be done ends the launch with the error, but for the credentials
/// of git, without which it goes on.
pub proof fn law_failure_ends(v: LaunchView, e: LaunchEvent, w: LaunchView, action: ActionView)
    requires
        awaited(v.step, e),
        follows(v, e, w, action),
        e is Failed,
    ensures
        v.step != LaunchStep::GitSetup ==> action == ActionView::Fail(e->Failed_0@),
        v.step == LaunchStep::GitSetup ==> w.step == LaunchStep::Configs,
{
}

proof fn lemma_contains_sum(
    a: Seq<(Seq<char>, Seq<char>)>,
    b: Seq<(Seq<char>, Seq<char>)>,
    x: (Seq<char>, Seq<char>),
)
    ensures
        (a + b).contains(x) <==> a.contains(x) || b.contains(x),
{
    if a.contains(x) {
        let i = choose|i: int| 0 <= i < a.len() && a[i] == x;
        assert((a + b)[i] == x);
    }
    if b.contains(x) {
        let i = choose|i: int| 0 <= i < b.len() && b[i] == x;
        assert((a + b)[a.len() + i] == x);
    }
    if (a + b).contains(x) {
        let i = choose|i: int| 0 <= i < (a + b).len() && (a + b)[i] == x;
        if i < a.len() {
            assert(a[i] == x);
        } else {
            assert(b[i - a.len()] == x);
        }
    }
}

proof fn lemma_contains_optional(
    a: Seq<(Seq<char>, Seq<char>)>,
    key: Seq<char>,
    value: Option<Seq<char>>,
    x: (Seq<char>, Seq<char>),
)
    ensures
        (a + optional(key, value)).contains(x) <==> a.contains(x) || (x.0 == key && value == Some(
            x.1,
        )),
{
    let b = optional(key, value);
    lemma_contains_sum(a, b, x);
    if value is Some {
        assert(b[0] == (key, value->0));
    }
}

/// Which variables a session is given: the credentials of the assistants that
/// are not left out, the token of the first before its key and the stored key
/// of Codex before the one of the environment; who commits; the terminal; and
/// the token, name and address of the sprite. Each is there exactly where its
/// value is known, and there are no others.
#[verifier::spinoff_prover]
pub proof fn law_session_variables(
    f: HostFacts,
    no_claude: bool,
    no_codex: bool,
    name: Seq<char>,
    url: Option<Seq<char>>,
    key: Seq<char>,
    value: Seq<char>,
)
    ensures
        session_pairs(f, no_claude, no_codex, name, url).contains((key, value)) <==> {
            ||| key == "CLAUDE_CODE_OAUTH_TOKEN"@ && !no_claude && told(f.claude_token) == Some(
                value,
            )
            ||| key == "ANTHROPIC_API_KEY"@ && !no_claude && f.claude_token is None && told(
                f.anthropic_key,
            ) == Some(value)
            ||| key == "OPENAI_API_KEY"@ && !no_codex && (told(f.openai_key) == Some(value) || (
            f.openai_key is None && told(f.openai_env) == Some(value)))
            ||| key == "GIT_AUTHOR_NAME"@ && told(f.git_name) == Some(value)
            ||| key == "GIT_COMMITTER_NAME"@ && told(f.git_name) == Some(value)
            ||| key == "GIT_AUTHOR_EMAIL"@ && told(f.git_email) == Some(value)
            ||| key == "GIT_COMMITTER_EMAIL"@ && told(f.git_email) == Some(value)
            ||| key == "TERM"@ && (told(f.term) == Some(value) || (f.term is None && value
                == "xterm-256color"@))
            ||| key == "SPRITE_TOKEN"@ && told(f.token) == Some(value)
            ||| key == "SPRITE_NAME"@ && value == name
            ||| key == "SPRITE_URL"@ && url == Some(value)
        },
{
    let x = (key, value);
    let none = Seq::<(Seq<char>, Seq<char>)>::empty();
    let p0 = assistant_pairs(f, no_claude);
    if !no_claude && f.claude_token is Some {
        lemma_contains_optional(none, "CLAUDE_CODE_OAUTH_TOKEN"@, told(f.claude_token), x);
    } else if !no_claude {
        lemma_contains_optional(none, "ANTHROPIC_API_KEY"@, told(f.anthropic_key), x);
    }
    assert(none + p0 =~= p0);
    lemma_contains_optional(p0, "OPENAI_API_KEY"@, codex_key(f, no_codex), x);
    let p1 = p0 + optional("OPENAI_API_KEY"@, codex_key(f, no_codex));
    lemma_contains_optional(p1, "GIT_AUTHOR_NAME"@, told(f.git_name), x);
    let p2 = p1 + optional("GIT_AUTHOR_NAME"@, told(f.git_name));
    lemma_contains_optional(p2, "GIT_COMMITTER_NAME"@, told(f.git_name), x);
    let p3 = p2 + optional("GIT_COMMITTER_NAME"@, told(f.git_name));
    lemma_contains_optional(p3, "GIT_AUTHOR_EMAIL"@, told(f.git_email), x);
    let p4 = p3 + optional("GIT_AUTHOR_EMAIL"@, told(f.git_email));
    lemma_contains_optional(p4, "GIT_COMMITTER_EMAIL"@, told(f.git_email), x);
    let p5 = p4 + optional("GIT_COMMITTER_EMAIL"@, told(f.git_email));
    let term = either(told(f.term), Some("xterm-256color"@));
    lemma_contains_optional(p5, "TERM"@, term, x);
    let p6 = p5 + optional("TERM"@, term);
    lemma_contains_optional(p6, "SPRITE_TOKEN"@, told(f.token), x);
    let p7 = p6 + optional("SPRITE_TOKEN"@, told(f.token));
    lemma_contains_optional(p7, "SPRITE_NAME"@, Some(name), x);
    let p8 = p7 + optional("SPRITE_NAME"@, Some(name));
    lemma_contains_optional(p8, "SPRITE_URL"@, url, x);
}

/// How a launch goes where everything goes well: the sprite is made where it
/// is missing, with four processors and eight gigabytes, its user is set up,
/// the scripts are put in place, the repository is cloned where one is wanted
/// and not there, the session is written, the files of the host are copied
/// where there are any, the assistants are told where they run, and the
/// console opens.
#[verifier::spinoff_prover]
#[verifier::rlimit(40)]
pub proof fn law_launch_order(
    v: LaunchView,
    e: LaunchEvent,
    w: LaunchView,
    action: ActionView,
)
    requires
        awaited(v.step, e),
        follows(v, e, w, action),
    ensures
        v.step == LaunchStep::Looking && e is Missing ==> w.step == LaunchStep::Creating && action
            == (ActionView::Create { cpus: 4, ram_mb: 8192 }),
        v.step == LaunchStep::Looking && e is Found ==> w.step == LaunchStep::Waiting,
        e is Created ==> w.step == LaunchStep::Waiting && action is LookUp,
        v.step == LaunchStep::Waiting && e is Found ==> w.step == LaunchStep::UserSetup,
        v.step == LaunchStep::Waiting && e is Missing ==> action == ActionView::Fail(
            "sprite "@ + v.name + " not found"@,
        ),
        e matches LaunchEvent::Ran(r) ==> {
            let went = r.exit_code == 0;
            let cloned = v.repo is Some && v.branch is Some;
            &&& v.step == LaunchStep::UserSetup && went ==> w.step == LaunchStep::Profile
            &&& v.step == LaunchStep::Profile ==> w.step == LaunchStep::PasteScript
            &&& v.step == LaunchStep::PasteScript ==> w.step == LaunchStep::BrowserScript
            &&& v.step == LaunchStep::BrowserScript ==> w.step == LaunchStep::OpenScript
            &&& v.step == LaunchStep::OpenScript ==> w.step == (if cloned {
                LaunchStep::CloneToken
            } else {
                LaunchStep::Address
            })
            &&& v.step == LaunchStep::CloneCheck ==> w.step == (if cloned && !went {
                LaunchStep::Cloning
            } else {
                LaunchStep::Address
            })
            &&& v.step == LaunchStep::Cloning && went ==> w.step == LaunchStep::Address
            &&& v.step == LaunchStep::WritingEnv && went ==> w.step == (if v.gh_token is Some {
                LaunchStep::GitSetup
            } else {
                LaunchStep::Configs
            })
            &&& v.step == LaunchStep::GitSetup ==> w.step == LaunchStep::Configs
            &&& v.step == LaunchStep::Unpacking && went ==> w.step == LaunchStep::Skills
            &&& v.step == LaunchStep::Skills ==> w.step == LaunchStep::AssistantNotes
            &&& v.step == LaunchStep::AssistantNotes ==> w.step == LaunchStep::CodexNotes
            &&& v.step == LaunchStep::CodexNotes ==> w.step == LaunchStep::Terminal
            &&& !went && (v.step == LaunchStep::UserSetup || v.step == LaunchStep::Cloning || v.step
                == LaunchStep::WritingEnv || v.step == LaunchStep::Unpacking) ==> action is Fail
        },
        e is GhToken ==> w.step == LaunchStep::CloneCheck && w.gh_token == told(e->GhToken_0),
        v.step == LaunchStep::Address && (e is Found || e is Missing) ==> w.step
            == LaunchStep::Session && w.url == (match e {
            LaunchEvent::Found(url) => told(url),
            _ => None,
        }),
        e is Host ==> w.step == LaunchStep::WritingEnv,
        e matches LaunchEvent::Configs { home, present } ==> {
            &&& home is None ==> action == ActionView::Fail("HOME not set"@)
            &&& home is Some && present@.len() == 0 ==> w.step == LaunchStep::Skills
            &&& home is Some && present@.len() > 0 ==> w.step == LaunchStep::Packing
        },
        e matches LaunchEvent::Packed { ok, .. } ==> {
            &&& ok ==> w.step == LaunchStep::Unpacking
            &&& !ok ==> action is Fail
        },
        e is Size ==> w.step == LaunchStep::Console && action is Console && (v.repo is Some
            ==> action->Console_dir == Some("/workspace"@)) && (v.repo is None
            ==> action->Console_dir is None),
        e matches LaunchEvent::Closed(code) ==> (action is Done <==> code == 0 || code == 130),
{
}

/// Where the host has a token for repositories the clone is over HTTPS and
/// carries it; without one the address is used as it is.
pub proof fn law_clone_address(v: LaunchView)
    requires
        v.repo is Some,
        v.branch is Some,
    ensures
        v.gh_token matches Some(t) ==> to_clone(v).1 == (ActionView::Run {
            cmd: seq!["bash"@, "-c"@, clone_text(v.branch->0, https_of(v.repo->0), v.user, true)],
            env: seq![("GH_TOKEN"@, t)],
            input: InputView::Nothing,
        }),
        v.gh_token is None ==> to_clone(v).1 == (ActionView::Run {
            cmd: seq!["bash"@, "-c"@, clone_text(v.branch->0, v.repo->0, v.user, false)],
            env: Seq::empty(),
            input: InputView::Nothing,
        }),
{
}

/// What each step has the sprite do. A script is handed to bash, and what it
/// writes is its input: the files of the guest, the notes that name the sprite,
/// and nothing where the script needs no input. The token of the host goes
/// along only where git needs it.
pub proof fn law_launch_scripts(v: LaunchView, r: ExecResult, w: LaunchView, action: ActionView)
    requires
        awaited(v.step, (LaunchEvent::Ran(r))),
        follows(v, (LaunchEvent::Ran(r)), w, action),
    ensures
        w.step == LaunchStep::Profile ==> action == (ActionView::Run {
            cmd: seq![
                "bash"@,
                "-c"@,
                "cat > /etc/profile.d/sprite-path.sh && chmod a+r /etc/profile.d/sprite-path.sh"@,
            ],
            env: Seq::empty(),
            input: InputView::Text(PROFILE@),
        }),
        w.step == LaunchStep::PasteScript ==> action == (ActionView::Run {
            cmd: seq![
                "bash"@,
                "-c"@,
                "cat > /usr/local/bin/spritebox-paste-image && chmod +x /usr/local/bin/spritebox-paste-image"@,
            ],
            env: Seq::empty(),
            input: InputView::Text(PASTE_IMAGE@),
        }),
        w.step == LaunchStep::BrowserScript ==> action == (ActionView::Run {
            cmd: seq![
                "bash"@,
                "-c"@,
                "cat > /usr/local/bin/sprite-browser && chmod +x /usr/local/bin/sprite-browser"@,
            ],
            env: Seq::empty(),
            input: InputView::Text(BROWSER_OPEN@),
        }),
        w.step == LaunchStep::OpenScript ==> action == (ActionView::Run {
            cmd: seq![
                "bash"@,
                "-c"@,
                "cat > /usr/local/bin/sprite-open && chmod +x /usr/local/bin/sprite-open"@,
            ],
            env: Seq::empty(),
            input: InputView::Text(OPEN_FILE@),
        }),
        w.step == LaunchStep::CloneToken ==> action is AskGhToken,
        w.step == LaunchStep::Address ==> action is LookUp,
        w.step == LaunchStep::GitSetup ==> action == (ActionView::Run {
            cmd: seq![
                "bash"@,
                "-c"@,
                replaced(
                    "sudo --preserve-env=GH_TOKEN -u % -i bash -c 'gh auth setup-git'"@,
                    '%',
                    v.user,
                ),
            ],
            env: seq![("GH_TOKEN"@, v.gh_token->0)],
            input: InputView::Nothing,
        }),
        w.step == LaunchStep::Configs ==> action == ActionView::AskConfigs(
            config_names(v.assistant, v.no_claude, v.no_codex),
        ),
        w.step == LaunchStep::Skills ==> action == (ActionView::Run {
            cmd: seq![
                "bash"@,
                "-c"@,
                "mkdir -p /spritebox && cat > /spritebox/skills.md && chmod 644 /spritebox/skills.md"@,
            ],
            env: Seq::empty(),
            input: InputView::Text(skills_text(v.name, v.url)),
        }),
        w.step == LaunchStep::CodexNotes ==> action == (ActionView::Run {
            cmd: seq![
                "bash"@,
                "-c"@,
                replaced(
                    "mkdir -p /home/%/.codex && cat > /home/%/.codex/instructions.md && chown -R %:% /home/%/.codex"@,
                    '%',
                    v.user,
                ),
            ],
            env: Seq::empty(),
            input: InputView::Text(skills_text(v.name, v.url)),
        }),
        w.step == LaunchStep::AssistantNotes ==> (action matches ActionView::Run { cmd, env, input }
            && cmd == seq!["bash"@, "-c"@, notes_text(v.user, v.assistant)] && env.len() == 0
            && input == InputView::Text(
            "\n<!-- spritebox environment -->\n"@ + skills_text(v.name, v.url)
                + "<!-- end spritebox -->\n"@,
        )),
        w.step == LaunchStep::Terminal ==> action is AskSize,
        w.name == v.name && w.user == v.user && w.repo == v.repo && w.branch == v.branch && w.env
            == v.env && w.url == v.url && w.gh_token == v.gh_token && w.assistant == v.assistant,
{
}

/// What is said of a launch that ends: what failed, with the exit code and the
/// complaint; how a session ended; what the host could not do.
pub proof fn law_launch_complaints(
    v: LaunchView,
    e: LaunchEvent,
    w: LaunchView,
    action: ActionView,
)
    requires
        awaited(v.step, e),
        follows(v, e, w, action),
    ensures
        e matches LaunchEvent::Ran(r) ==> r.exit_code != 0 ==> {
            let code = signed_decimal(r.exit_code as int);
            &&& v.step == LaunchStep::UserSetup ==> action == ActionView::Fail(
                "user setup failed (exit "@ + code + "): "@ + trimmed(r.stderr@),
            )
            &&& v.step == LaunchStep::WritingEnv ==> action == ActionView::Fail(
                "env setup failed (exit "@ + code + "): "@ + trimmed(r.stderr@),
            )
            &&& v.step == LaunchStep::Unpacking ==> action == ActionView::Fail(
                "config sync failed (exit "@ + code + "): "@ + trimmed(r.stderr@),
            )
            &&& v.step == LaunchStep::Cloning ==> action == ActionView::Fail(
                "git clone failed (exit "@ + code + "):\n"@ + r.stdout@ + r.stderr@,
            )
        },
        e matches LaunchEvent::Packed { ok, stderr } ==> !ok ==> action == ActionView::Fail(
            "failed to archive configs: "@ + stderr@,
        ),
        e matches LaunchEvent::Closed(code) ==> code != 0 && code != 130 ==> action
            == ActionView::Fail("session exited with code "@ + signed_decimal(code as int)),
        e matches LaunchEvent::Failed(why) ==> {
            &&& v.step != LaunchStep::GitSetup ==> action == ActionView::Fail(why@) && w.step
                == LaunchStep::Over
            &&& v.step == LaunchStep::GitSetup ==> w.step == LaunchStep::Configs
        },
        action is Fail ==> w.step == LaunchStep::Over,
{
    reveal_strlit("user setup failed");
    reveal_strlit("env setup failed");
    reveal_strlit("config sync failed");
    reveal_strlit(" (exit ");
    reveal_strlit("user setup failed (exit ");
    reveal_strlit("env setup failed (exit ");
    reveal_strlit("config sync failed (exit ");
    assert("user setup failed"@ + " (exit "@ =~= "user setup failed (exit "@);
    assert("env setup failed"@ + " (exit "@ =~= "env setup failed (exit "@);
    assert("config sync failed"@ + " (exit "@ =~= "config sync failed (exit "@);
}

/// What the host and the session are asked: the user is made under their name;
/// an old clone is looked for before one is made; the variables of the session
/// are written as they are, and the session itself gets them after the token;
/// the files of the host are packed from its home and unpacked in the guest's.
pub proof fn law_launch_requests(
    v: LaunchView,
    e: LaunchEvent,
    w: LaunchView,
    action: ActionView,
)
    requires
        awaited(v.step, e),
        follows(v, e, w, action),
    ensures
        w.step == LaunchStep::UserSetup ==> (action matches ActionView::Run { cmd, env, input }
            && cmd == seq!["bash"@, "-c"@, replaced(USER_SETUP@, '%', v.user)] && env.len() == 0
            && input == InputView::Nothing),
        e matches LaunchEvent::GhToken(t) ==> (action matches ActionView::Run { cmd, env, input }
            && cmd == seq!["test"@, "-d"@, "/workspace/.git"@] && input == InputView::Nothing
            && env == (match told(t) {
            Some(x) => seq![("GH_TOKEN"@, x)],
            None => Seq::empty(),
        })),
        e is Host ==> (action matches ActionView::Run { cmd, env, input } && cmd == seq![
            "bash"@,
            "-c"@,
            replaced(ENV_INSTALL@, '%', v.user),
        ] && env.len() == 0 && input == InputView::Text(env_text(w.env))),
        e matches LaunchEvent::Configs { home, present } ==> home is Some && present@.len() > 0
            ==> action == ActionView::Pack(
            "tar czf - --no-mac-metadata --exclude='._*' -C "@ + quoted(home->0@) + spaced(
                views(present@),
            ),
        ),
        e matches LaunchEvent::Packed { ok, .. } ==> ok ==> action == (ActionView::Run {
            cmd: seq!["bash"@, "-c"@, unpack_text(v.user, v.assistant)],
            env: Seq::empty(),
            input: InputView::Archive,
        }),
        e matches LaunchEvent::Size { cols, rows } ==> (action matches ActionView::Console {
            cmd,
            env,
            ..
        } && cmd == seq!["bash"@, "-c"@, shell_text(v.user, rows, cols, v.repo is Some)] && env == (
        match v.gh_token {
            Some(x) => seq![("GH_TOKEN"@, x)],
            None => Seq::empty(),
        }) + env_pairs(v.env)),
{
}

} // verus!
