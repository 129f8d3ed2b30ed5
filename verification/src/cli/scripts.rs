//! The scripts that make a sprite ready.

use vstd::prelude::*;

use crate::cli::shell::{quoted, shell_escape};
use crate::sprites::exec::EnvVar;
use crate::text::{
    concat, decimal, has_prefix, number, replace_char, replaced, to_upper, uppered, views,
};

verus! {

/// Makes the guest user, who may do everything; `%` stands for the name.
pub const USER_SETUP: &'static str =
    "apt-get install -y -qq ncurses-base > /dev/null 2>&1; id -u % >/dev/null 2>&1 || useradd -m -s /bin/bash -G sudo %; echo '% ALL=(ALL) NOPASSWD:ALL' > /etc/sudoers.d/% && chown root:root /etc/sudoers.d/% && chmod 0440 /etc/sudoers.d/%; chmod a+r /etc/profile.d/languages_* 2>/dev/null; touch /etc/profile.d/languages_env /etc/profile.d/languages_paths; chmod a+rw /etc/profile.d/languages_env /etc/profile.d/languages_paths || true";

/// Sets the paths of the guest user's programs.
pub const PROFILE: &'static str =
    r#"export PATH="/home/sprite/.local/bin:/.sprite/bin:$PATH"
if [ "$(id -un)" != "sprite" ]; then
  export CARGO_HOME="$HOME/.cargo"
  export RUSTUP_HOME="$HOME/.rustup"
  # Find the real rustc/cargo from the sprite's rustup toolchain
  for d in /.sprite/languages/rust/rustup/toolchains/*/bin; do
    [ -d "$d" ] && export PATH="$d:$PATH" && break
  done
fi
"#;

/// Puts the profile in place.
pub const PROFILE_INSTALL: &'static str =
    "cat > /etc/profile.d/sprite-path.sh && chmod a+r /etc/profile.d/sprite-path.sh";

/// Asks the host for the image on its clipboard.
pub const PASTE_IMAGE: &'static str =
    r#"#!/bin/bash
# spritebox-paste-image — request host clipboard image via bridge escape sequence
if [ "$#" -ne 1 ]; then
  echo "usage: spritebox-paste-image <absolute-destination-path>" >&2
  exit 2
fi
dest="$1"
case "$dest" in
  /*) ;;
  *) echo "path must be absolute" >&2; exit 2 ;;
esac
emit_escape() {
  printf '\033]9999;paste-image;%s\033\\' "$dest" > "$1"
}
# Emit OSC 9999 escape sequence — try /dev/tty first, fall back to walking
# the process tree to find the session's PTY.
sent=false
if ( emit_escape /dev/tty ) 2>/dev/null; then
  sent=true
else
  pid=$$
  while [ "$pid" != "1" ] && [ -n "$pid" ]; do
    tty_dev=$(readlink /proc/"$pid"/fd/1 2>/dev/null || true)
    case "$tty_dev" in
      /dev/pts/*|/dev/tty*)
        emit_escape "$tty_dev"
        sent=true
        break
        ;;
    esac
    pid=$(awk '{print $4}' /proc/"$pid"/stat 2>/dev/null || echo 1)
  done
fi
if [ "$sent" = false ]; then
  echo "error: no TTY found to emit bridge escape sequence" >&2
  exit 1
fi
# Wait for the host to push the file (up to 30s)
waited=0
while [ ! -f "$dest" ] && [ "$waited" -lt 30 ]; do
  sleep 1
  waited=$((waited + 1))
done
if [ -f "$dest" ]; then
  exit 0
else
  echo "error: timed out waiting for clipboard image (30s)" >&2
  exit 1
fi
"#;

/// Puts the clipboard script in place.
pub const PASTE_IMAGE_INSTALL: &'static str =
    "cat > /usr/local/bin/spritebox-paste-image && chmod +x /usr/local/bin/spritebox-paste-image";

/// Asks the host to open a page in its browser.
pub const BROWSER_OPEN: &'static str =
    r#"#!/bin/bash
# sprite-browser — open a URL in the host's browser via bridge escape sequence
if [ "$#" -ne 1 ]; then
  echo "usage: sprite-browser <url>" >&2
  exit 2
fi
url="$1"
emit_escape() {
  printf '\033]9999;browser-open;%s\033\\' "$url" > "$1"
}
sent=false
if ( emit_escape /dev/tty ) 2>/dev/null; then
  sent=true
else
  pid=$$
  while [ "$pid" != "1" ] && [ -n "$pid" ]; do
    tty_dev=$(readlink /proc/"$pid"/fd/1 2>/dev/null || true)
    case "$tty_dev" in
      /dev/pts/*|/dev/tty*)
        emit_escape "$tty_dev"
        sent=true
        break
        ;;
    esac
    pid=$(awk '{print $4}' /proc/"$pid"/stat 2>/dev/null || echo 1)
  done
fi
if [ "$sent" = false ]; then
  echo "error: no TTY found to emit bridge escape sequence" >&2
  exit 1
fi
echo "opening $url on host..."
"#;

/// Puts the browser script in place.
pub const BROWSER_OPEN_INSTALL: &'static str =
    "cat > /usr/local/bin/sprite-browser && chmod +x /usr/local/bin/sprite-browser";

/// Asks the host to open a file.
pub const OPEN_FILE: &'static str =
    r#"#!/bin/bash
# sprite-open — open a file on the host machine via bridge escape sequence
if [ "$#" -ne 1 ]; then
  echo "usage: sprite-open <absolute-path>" >&2
  exit 2
fi
path="$1"
case "$path" in
  /*) ;;
  *) path="$(cd "$(dirname "$path")" 2>/dev/null && pwd)/$(basename "$path")" ;;
esac
if [ ! -f "$path" ]; then
  echo "error: file not found: $path" >&2
  exit 1
fi
emit_escape() {
  printf '\033]9999;open;%s\033\\' "$path" > "$1"
}
sent=false
if ( emit_escape /dev/tty ) 2>/dev/null; then
  sent=true
else
  pid=$$
  while [ "$pid" != "1" ] && [ -n "$pid" ]; do
    tty_dev=$(readlink /proc/"$pid"/fd/1 2>/dev/null || true)
    case "$tty_dev" in
      /dev/pts/*|/dev/tty*)
        emit_escape "$tty_dev"
        sent=true
        break
        ;;
    esac
    pid=$(awk '{print $4}' /proc/"$pid"/stat 2>/dev/null || echo 1)
  done
fi
if [ "$sent" = false ]; then
  echo "error: no TTY found to emit bridge escape sequence" >&2
  exit 1
fi
echo "opening $path on host..."
"#;

/// Puts the opening script in place.
pub const OPEN_FILE_INSTALL: &'static str =
    "cat > /usr/local/bin/sprite-open && chmod +x /usr/local/bin/sprite-open";

/// Writes the variables of a session, and has the shell read them; `%` stands
/// for the user.
pub const ENV_INSTALL: &'static str =
    "cat > /home/%/.spritebox_env && chown %:% /home/%/.spritebox_env && chmod 0600 /home/%/.spritebox_env && for rc in /home/%/.bashrc /home/%/.profile; do grep -q spritebox_env \"$rc\" 2>/dev/null || printf '\\n[ -f ~/.spritebox_env ] && . ~/.spritebox_env\\n' >> \"$rc\"; done";

/// Has git use the token of the session, which the user is handed in the
/// environment; `%` stands for the user.
pub const GIT_SETUP: &'static str =
    "sudo --preserve-env=GH_TOKEN -u % -i bash -c 'gh auth setup-git'";

/// The beginning of what tells an assistant where it runs, up to the name.
pub const SKILLS_HEAD: &'static str =
    r#"# Spritebox Environment

You are running inside a Fly.io Sprite — a remote Linux microVM managed by spritebox.
The host machine is macOS.

## Sprite Info

- Sprite name: "#;

/// The rest of it.
pub const SKILLS_BODY: &'static str =
    r#"- Run `sprite-env info` to get your sprite's name, URL, and version.
- The URL is also available as `$SPRITE_URL` in your environment.

## Opening Files on the Host

To open a file on the host machine (in its default application):
```
sprite-open <path>
```
The host user will see a confirmation dialog before the file is downloaded and opened.
Allowed file types: html, htm, svg, png, jpg, jpeg, pdf, md, txt, rtf, csv.

## Opening URLs on the Host

To open a URL in the host's browser, run:
```
sprite-browser <url>
```
Do NOT use `open`, `xdg-open`, or any other command — they will not work.
`sprite-browser` is the ONLY way to open URLs on the host from inside this VM.

## Clipboard Image Import

To import a screenshot or image from the host's clipboard:
```
spritebox-paste-image <absolute-destination-path>
```
The host user will see a confirmation dialog before the image is transferred.

## Services and Checkpoints

Sprites have built-in service management and checkpoints. See:
- `/.sprite/llm.txt` — quick reference for sprite capabilities
- `sprite-env services --help` — manage long-running services
- `sprite-env checkpoints --help` — create and restore checkpoints

## HTTP Services

When you start an HTTP service, it's accessible via the sprite's public URL
(get it from `sprite-env info` or `$SPRITE_URL`). By default the proxy routes
to port 8080. Use `sprite-env services create` with `--http-port` to route to
a different port. To open the URL on the host, use `sprite-browser $SPRITE_URL`.
Never tell the user to visit `localhost` — use the sprite URL instead.

## Important

- This is a Linux VM, not macOS. GUI tools don't work here.
- Do not use `pbpaste`, `xclip`, or other clipboard tools — use `spritebox-paste-image`.
- To open a file on the host, use `sprite-open <path>` — do NOT use `open` or `xdg-open`.
- Files under `/workspace` are the project workspace.
- See `/.sprite/docs/agent-context.md` for full environment documentation.
- See `/.sprite/llm.txt` for a quick reference of all sprite capabilities.
"#;

/// Puts it where everyone can read it.
pub const SKILLS_INSTALL: &'static str =
    "mkdir -p /spritebox && cat > /spritebox/skills.md && chmod 644 /spritebox/skills.md";

/// Makes it the instructions of Codex; `%` stands for the user.
pub const CODEX_INSTALL: &'static str =
    "mkdir -p /home/%/.codex && cat > /home/%/.codex/instructions.md && chown -R %:% /home/%/.codex";

/// Makes the guest user.
pub fn user_setup(user: &str) -> (r: String)
    ensures
        r@ == replaced(USER_SETUP@, '%', user@),
{
    replace_char(USER_SETUP, '%', user)
}

/// Clones a branch of a repository into the workspace of a user. With a token,
/// git takes it from the environment.
pub open spec fn clone_text(
    branch: Seq<char>,
    url: Seq<char>,
    user: Seq<char>,
    token: bool,
) -> Seq<char> {
    (if token {
        "git config --global credential.helper '!f() { echo \"password=$GH_TOKEN\"; }; f' && "@
    } else {
        Seq::empty()
    }) + "git clone --branch "@ + quoted(branch) + " "@ + quoted(url)
        + " /workspace && chown -R "@ + user + ":"@ + user + " /workspace"@
}

/// Clones a branch of a repository into the workspace of a user.
pub fn clone_script(branch: &str, url: &str, user: &str, token: bool) -> (r: String)
    ensures
        r@ == clone_text(branch@, url@, user@, token),
{
    let mut out: String = if token {
        "git config --global credential.helper '!f() { echo \"password=$GH_TOKEN\"; }; f' && ".to_owned()
    } else {
        String::new()
    };
    out.append("git clone --branch ");
    out.append(&shell_escape(branch));
    out.append(" ");
    out.append(&shell_escape(url));
    out.append(" /workspace && chown -R ");
    out.append(user);
    out.append(":");
    out.append(user);
    out.append(" /workspace");
    out
}

/// The variables of a session as lines of the shell.
pub open spec fn env_text(vars: Seq<EnvVar>) -> Seq<char>
    decreases vars.len(),
{
    if vars.len() == 0 {
        Seq::empty()
    } else {
        env_text(vars.drop_last()) + "export "@ + vars.last().key@ + "="@ + quoted(
            vars.last().value@,
        ) + "\n"@
    }
}

/// The variables of a session as lines of the shell.
pub fn env_file(vars: &Vec<EnvVar>) -> (r: String)
    ensures
        r@ == env_text(vars@),
{
    let mut out: String = String::new();
    let mut i: usize = 0;
    assert(vars@.take(0) =~= Seq::empty());
    while i < vars.len()
        invariant
            i <= vars@.len(),
            out@ == env_text(vars@.take(i as int)),
        decreases vars@.len() - i,
    {
        proof {
            assert(vars@.take(i + 1).drop_last() =~= vars@.take(i as int));
            assert(vars@.take(i + 1).last() == vars@[i as int]);
        }
        out.append("export ");
        out.append(&vars[i].key);
        out.append("=");
        out.append(&shell_escape(&vars[i].value));
        out.append("\n");
        i += 1;
    }
    assert(vars@.take(vars@.len() as int) =~= vars@);
    out
}

/// The directory of an assistant, under a home directory.
pub open spec fn assistant_dir(assistant: Seq<char>) -> Seq<char> {
    "."@ + assistant
}

/// The notes of an assistant, in its directory.
pub open spec fn notes_name(assistant: Seq<char>) -> Seq<char> {
    uppered(assistant) + ".md"@
}

/// The files of the host that a sprite may be given, under the home directory:
/// those of the assistant, and those of Codex.
pub open spec fn config_names(assistant: Seq<char>, no_claude: bool, no_codex: bool) -> Seq<
    Seq<char>,
> {
    let dir = assistant_dir(assistant);
    (if no_claude {
        Seq::empty()
    } else {
        seq![
            dir + ".json"@,
            dir + "/.credentials.json"@,
            dir + "/settings.json"@,
            dir + "/"@ + notes_name(assistant),
        ]
    }) + (if no_codex {
        Seq::empty()
    } else {
        seq![".codex/auth.json"@, ".codex/config.toml"@, ".codex/rules"@]
    })
}

/// The files of the host that a sprite may be given, under the home directory.
pub fn config_candidates(assistant: &str, no_claude: bool, no_codex: bool) -> (r: Vec<String>)
    ensures
        views(r@) == config_names(assistant@, no_claude, no_codex),
{
    let mut out: Vec<String> = Vec::new();
    if !no_claude {
        let dir: String = concat(".", assistant);
        let notes: String = concat(&to_upper(assistant), ".md");
        out.push(concat(&dir, ".json"));
        out.push(concat(&dir, "/.credentials.json"));
        out.push(concat(&dir, "/settings.json"));
        out.push(concat(&concat(&dir, "/"), &notes));
    }
    if !no_codex {
        out.push(".codex/auth.json".to_owned());
        out.push(".codex/config.toml".to_owned());
        out.push(".codex/rules".to_owned());
    }
    assert(views(out@) =~= config_names(assistant@, no_claude, no_codex));
    out
}

/// Words of the shell, with a space before each.
pub open spec fn spaced(words: Seq<Seq<char>>) -> Seq<char>
    decreases words.len(),
{
    if words.len() == 0 {
        Seq::empty()
    } else {
        spaced(words.drop_last()) + " "@ + quoted(words.last())
    }
}

/// Packs files of the host.
pub fn pack_command(home: &str, paths: &Vec<String>) -> (r: String)
    ensures
        r@ == "tar czf - --no-mac-metadata --exclude='._*' -C "@ + quoted(home@) + spaced(
            views(paths@),
        ),
{
    let ghost all = views(paths@);
    let mut out: String = concat(
        "tar czf - --no-mac-metadata --exclude='._*' -C ",
        &shell_escape(home),
    );
    let ghost head = out@;
    let mut i: usize = 0;
    assert(all.take(0) =~= Seq::empty());
    assert(head + spaced(all.take(0)) =~= head);
    while i < paths.len()
        invariant
            i <= paths@.len(),
            all == views(paths@),
            out@ == head + spaced(all.take(i as int)),
        decreases paths@.len() - i,
    {
        proof {
            assert(all.take(i + 1).drop_last() =~= all.take(i as int));
            assert(all.take(i + 1).last() == paths@[i as int]@);
        }
        out.append(" ");
        out.append(&shell_escape(&paths[i]));
        assert(out@ =~= head + spaced(all.take(i + 1)));
        i += 1;
    }
    assert(all.take(all.len() as int) =~= all);
    out
}

/// Unpacks the files of the host for a user.
pub open spec fn unpack_text(user: Seq<char>, assistant: Seq<char>) -> Seq<char> {
    let home = quoted("/home/"@ + user);
    let dir = assistant_dir(assistant);
    "mkdir -p "@ + home + "/"@ + dir + " && tar xzf - -C "@ + home + " && chown -R "@ + user + ":"@
        + user + " "@ + home + "/"@ + dir + " "@ + home + "/"@ + dir + ".json "@ + home
        + "/.codex 2>/dev/null; true"@
}

/// Unpacks the files of the host for a user.
pub fn unpack_command(user: &str, assistant: &str) -> (r: String)
    ensures
        r@ == unpack_text(user@, assistant@),
{
    let home: String = shell_escape(&concat("/home/", user));
    let dir: String = concat(".", assistant);
    let mut out: String = concat("mkdir -p ", &home);
    out.append("/");
    out.append(&dir);
    out.append(" && tar xzf - -C ");
    out.append(&home);
    out.append(" && chown -R ");
    out.append(user);
    out.append(":");
    out.append(user);
    out.append(" ");
    out.append(&home);
    out.append("/");
    out.append(&dir);
    out.append(" ");
    out.append(&home);
    out.append("/");
    out.append(&dir);
    out.append(".json ");
    out.append(&home);
    out.append("/.codex 2>/dev/null; true");
    out
}

/// Puts text into the notes of the assistant of a user, in place of what was
/// there of it.
pub open spec fn notes_text(user: Seq<char>, assistant: Seq<char>) -> Seq<char> {
    let dir = "/home/"@ + user + "/"@ + assistant_dir(assistant);
    let notes = dir + "/"@ + notes_name(assistant);
    "mkdir -p "@ + dir + " && touch "@ + notes
        + " && sed -i '/<!-- spritebox environment -->/,/<!-- end spritebox -->/d' "@ + notes
        + " && cat >> "@ + notes + " && chown -R "@ + user + ":"@ + user + " "@ + dir
}

/// Puts text into the notes of the assistant of a user.
pub fn notes_install(user: &str, assistant: &str) -> (r: String)
    ensures
        r@ == notes_text(user@, assistant@),
{
    let dir: String = concat(&concat(&concat("/home/", user), "/"), &concat(".", assistant));
    let notes: String = concat(&concat(&dir, "/"), &concat(&to_upper(assistant), ".md"));
    let mut out: String = concat("mkdir -p ", &dir);
    out.append(" && touch ");
    out.append(&notes);
    out.append(" && sed -i '/<!-- spritebox environment -->/,/<!-- end spritebox -->/d' ");
    out.append(&notes);
    out.append(" && cat >> ");
    out.append(&notes);
    out.append(" && chown -R ");
    out.append(user);
    out.append(":");
    out.append(user);
    out.append(" ");
    out.append(&dir);
    out
}

/// What tells an assistant where it runs.
pub open spec fn skills_text(name: Seq<char>, url: Option<Seq<char>>) -> Seq<char> {
    SKILLS_HEAD@ + name + "\n"@ + (match url {
        Some(u) => "- Your sprite's public URL is: "@ + u + "\n"@,
        None => Seq::empty(),
    }) + SKILLS_BODY@
}

/// What tells an assistant where it runs.
pub fn skills_doc(name: &str, url: Option<&str>) -> (r: String)
    ensures
        r@ == skills_text(
            name@,
            match url {
                Some(u) => Some(u@),
                None => None,
            },
        ),
{
    let mut out: String = concat(SKILLS_HEAD, name);
    out.append("\n");
    let line: String = match url {
        Some(u) => concat(&concat("- Your sprite's public URL is: ", u), "\n"),
        None => String::new(),
    };
    out.append(&line);
    out.append(SKILLS_BODY);
    out
}

/// The section of an assistant's notes, between its marks.
pub fn notes_section(doc: &str) -> (r: String)
    ensures
        r@ == "\n<!-- spritebox environment -->\n"@ + doc@ + "<!-- end spritebox -->\n"@,
{
    concat(&concat("\n<!-- spritebox environment -->\n", doc), "<!-- end spritebox -->\n")
}

/// The shell of a session, in the workspace where there is a repository.
pub open spec fn shell_text(user: Seq<char>, rows: u16, cols: u16, repo: bool) -> Seq<char> {
    "exec sudo --preserve-env=GH_TOKEN -u "@ + user + " -i bash -c 'stty rows "@ + decimal(rows as nat) + " cols "@
        + decimal(cols as nat) + " 2>/dev/null; export COLUMNS="@ + decimal(cols as nat)
        + " LINES="@ + decimal(rows as nat) + "; cd "@ + (if repo {
        "/workspace"@
    } else {
        "~"@
    }) + " && exec bash --login'"@
}

/// The shell of a session.
pub fn shell_line(user: &str, rows: u16, cols: u16, repo: bool) -> (r: String)
    ensures
        r@ == shell_text(user@, rows, cols, repo),
{
    let h: String = number(rows as u64);
    let w: String = number(cols as u64);
    let mut out: String = concat("exec sudo --preserve-env=GH_TOKEN -u ", user);
    out.append(" -i bash -c 'stty rows ");
    out.append(&h);
    out.append(" cols ");
    out.append(&w);
    out.append(" 2>/dev/null; export COLUMNS=");
    out.append(&w);
    out.append(" LINES=");
    out.append(&h);
    out.append("; cd ");
    if repo {
        out.append("/workspace");
    } else {
        out.append("~");
    }
    out.append(" && exec bash --login'");
    out
}

/// Nothing of a tool is given to the sprite where the user does not want it.
pub proof fn law_configs_left_out(assistant: Seq<char>, no_claude: bool, no_codex: bool, i: int)
    requires
        0 <= i < config_names(assistant, no_claude, no_codex).len(),
    ensures
        no_claude ==> has_prefix(config_names(assistant, no_claude, no_codex)[i], ".codex/"@),
        no_codex ==> has_prefix(
            config_names(assistant, no_claude, no_codex)[i],
            assistant_dir(assistant),
        ),
{
    reveal_strlit(".codex/auth.json");
    reveal_strlit(".codex/config.toml");
    reveal_strlit(".codex/rules");
    reveal_strlit(".codex/");
    let dir = assistant_dir(assistant);
    let n = config_names(assistant, no_claude, no_codex)[i];
    if no_claude {
        assert(n.subrange(0, 7) =~= ".codex/"@);
    }
    if no_codex {
        assert(n.subrange(0, dir.len() as int) =~= dir);
    }
}

/// Which files of the host a sprite may be given, by name.
pub proof fn law_config_files(assistant: Seq<char>)
    ensures
        config_names(assistant, false, true) == seq![
            "."@ + assistant + ".json"@,
            "."@ + assistant + "/.credentials.json"@,
            "."@ + assistant + "/settings.json"@,
            "."@ + assistant + "/"@ + (uppered(assistant) + ".md"@),
        ],
        config_names(assistant, true, false) == seq![
            ".codex/auth.json"@,
            ".codex/config.toml"@,
            ".codex/rules"@,
        ],
        config_names(assistant, false, false) == config_names(assistant, false, true)
            + config_names(assistant, true, false),
        config_names(assistant, true, true) == Seq::<Seq<char>>::empty(),
{
    let a = seq![
        "."@ + assistant + ".json"@,
        "."@ + assistant + "/.credentials.json"@,
        "."@ + assistant + "/settings.json"@,
        "."@ + assistant + "/"@ + (uppered(assistant) + ".md"@),
    ];
    let b = seq![".codex/auth.json"@, ".codex/config.toml"@, ".codex/rules"@];
    let none = Seq::<Seq<char>>::empty();
    assert(a + none =~= a);
    assert(none + b =~= b);
    assert(none + none =~= none);
}

/// The variables of a session are written line by line, each exported under
/// its name with its value as one word; the words of a command have a space
/// before each.
pub proof fn law_lines_and_words(
    vars: Seq<EnvVar>,
    v: EnvVar,
    words: Seq<Seq<char>>,
    word: Seq<char>,
)
    ensures
        env_text(Seq::empty()) == Seq::<char>::empty(),
        env_text(vars.push(v)) == env_text(vars) + "export "@ + v.key@ + "="@ + quoted(v.value@)
            + "\n"@,
        spaced(Seq::empty()) == Seq::<char>::empty(),
        spaced(words.push(word)) == spaced(words) + " "@ + quoted(word),
{
    assert(vars.push(v).drop_last() =~= vars);
    assert(words.push(word).drop_last() =~= words);
}

/// A clone is of the branch and the address given, each as one word of the
/// shell, into the workspace, which then belongs to the user; with a token,
/// git is told before to take it from the environment.
pub proof fn law_clone_words(
    branch: Seq<char>,
    url: Seq<char>,
    user: Seq<char>,
)
    ensures
        clone_text(branch, url, user, false) == "git clone --branch "@ + quoted(branch) + " "@
            + quoted(url) + " /workspace && chown -R "@ + user + ":"@ + user + " /workspace"@,
        clone_text(branch, url, user, true)
            == "git config --global credential.helper '!f() { echo \"password=$GH_TOKEN\"; }; f' && "@
            + clone_text(branch, url, user, false),
{
    let helper =
        "git config --global credential.helper '!f() { echo \"password=$GH_TOKEN\"; }; f' && "@;
    assert(clone_text(branch, url, user, false) =~= "git clone --branch "@ + quoted(branch) + " "@
        + quoted(url) + " /workspace && chown -R "@ + user + ":"@ + user + " /workspace"@);
    assert(clone_text(branch, url, user, true) =~= helper + clone_text(branch, url, user, false));
}

/// The shell of a session is the user's, with the size of the terminal, in the
/// workspace where there is a repository and at home where there is none.
pub proof fn law_shell_words(user: Seq<char>, rows: u16, cols: u16)
    ensures
        ({
            let front = "exec sudo --preserve-env=GH_TOKEN -u "@ + user
                + " -i bash -c 'stty rows "@ + decimal(rows as nat) + " cols "@ + decimal(
                cols as nat,
            ) + " 2>/dev/null; export COLUMNS="@ + decimal(cols as nat) + " LINES="@ + decimal(
                rows as nat,
            );
            &&& shell_text(user, rows, cols, true) == front
                + "; cd /workspace && exec bash --login'"@
            &&& shell_text(user, rows, cols, false) == front + "; cd ~ && exec bash --login'"@
        }),
{
    reveal_strlit("; cd ");
    reveal_strlit("/workspace");
    reveal_strlit("~");
    reveal_strlit(" && exec bash --login'");
    reveal_strlit("; cd /workspace && exec bash --login'");
    reveal_strlit("; cd ~ && exec bash --login'");
    let front = "exec sudo --preserve-env=GH_TOKEN -u "@ + user + " -i bash -c 'stty rows "@
        + decimal(rows as nat) + " cols "@ + decimal(cols as nat)
        + " 2>/dev/null; export COLUMNS="@ + decimal(cols as nat) + " LINES="@ + decimal(
        rows as nat,
    );
    assert("; cd "@ + "/workspace"@ + " && exec bash --login'"@
        =~= "; cd /workspace && exec bash --login'"@);
    assert("; cd "@ + "~"@ + " && exec bash --login'"@ =~= "; cd ~ && exec bash --login'"@);
    assert(shell_text(user, rows, cols, true) =~= front + ("; cd "@ + "/workspace"@
        + " && exec bash --login'"@));
    assert(shell_text(user, rows, cols, false) =~= front + ("; cd "@ + "~"@
        + " && exec bash --login'"@));
}

/// What an assistant is told names its sprite, and its address where it has
/// one, on a line of its own.
pub proof fn law_notes_name_sprite(name: Seq<char>, url: Seq<char>)
    ensures
        skills_text(name, None) == SKILLS_HEAD@ + name + "\n"@ + SKILLS_BODY@,
        skills_text(name, Some(url)) == SKILLS_HEAD@ + name + "\n- Your sprite's public URL is: "@
            + url + "\n"@ + SKILLS_BODY@,
{
    reveal_strlit("\n");
    reveal_strlit("- Your sprite's public URL is: ");
    reveal_strlit("\n- Your sprite's public URL is: ");
    assert("\n"@ + "- Your sprite's public URL is: "@ =~= "\n- Your sprite's public URL is: "@);
    assert(skills_text(name, None) =~= SKILLS_HEAD@ + name + "\n"@ + SKILLS_BODY@);
    assert(skills_text(name, Some(url)) =~= SKILLS_HEAD@ + name + ("\n"@
        + "- Your sprite's public URL is: "@) + url + "\n"@ + SKILLS_BODY@);
}

/// The notes of an assistant stand in its directory of the guest's home, in a
/// file named like it in capitals: what an earlier session wrote there is cut
/// out, the new text is put at the end, and all of it is the guest's.
pub proof fn law_notes_script(user: Seq<char>, assistant: Seq<char>)
    ensures
        ({
            let home = user + "/."@ + assistant;
            let notes = home + "/"@ + uppered(assistant) + ".md"@;
            notes_text(user, assistant) == "mkdir -p /home/"@ + home + " && touch /home/"@ + notes
                + " && sed -i '/<!-- spritebox environment -->/,/<!-- end spritebox -->/d' /home/"@
                + notes + " && cat >> /home/"@ + notes + " && chown -R "@ + user + ":"@ + user
                + " /home/"@ + home
        }),
{
    reveal_strlit(".");
    reveal_strlit(".md");
    reveal_strlit("/");
    reveal_strlit("/.");
    reveal_strlit("/home/");
    reveal_strlit("mkdir -p ");
    reveal_strlit("mkdir -p /home/");
    reveal_strlit(" && touch ");
    reveal_strlit(" && touch /home/");
    reveal_strlit(" && sed -i '/<!-- spritebox environment -->/,/<!-- end spritebox -->/d' ");
    reveal_strlit(
        " && sed -i '/<!-- spritebox environment -->/,/<!-- end spritebox -->/d' /home/",
    );
    reveal_strlit(" && cat >> ");
    reveal_strlit(" && cat >> /home/");
    reveal_strlit(" && chown -R ");
    reveal_strlit(":");
    reveal_strlit(" ");
    reveal_strlit(" /home/");
    let home = user + "/."@ + assistant;
    let notes = home + "/"@ + uppered(assistant) + ".md"@;
    assert(notes_text(user, assistant) =~= "mkdir -p /home/"@ + home + " && touch /home/"@ + notes
        + " && sed -i '/<!-- spritebox environment -->/,/<!-- end spritebox -->/d' /home/"@ + notes
        + " && cat >> /home/"@ + notes + " && chown -R "@ + user + ":"@ + user + " /home/"@ + home);
}

/// The files of the host are unpacked in the guest's home, whose name is
/// quoted, and those of the assistants are then the guest's.
pub proof fn law_unpack_script(user: Seq<char>, assistant: Seq<char>)
    ensures
        ({
            let home = quoted("/home/"@ + user);
            unpack_text(user, assistant) == "mkdir -p "@ + home + "/."@ + assistant
                + " && tar xzf - -C "@ + home + " && chown -R "@ + user + ":"@ + user + " "@ + home
                + "/."@ + assistant + " "@ + home + "/."@ + assistant + ".json "@ + home
                + "/.codex 2>/dev/null; true"@
        }),
{
    reveal_strlit(".");
    reveal_strlit("/");
    reveal_strlit("/.");
    let home = quoted("/home/"@ + user);
    assert(unpack_text(user, assistant) =~= "mkdir -p "@ + home + "/."@ + assistant
        + " && tar xzf - -C "@ + home + " && chown -R "@ + user + ":"@ + user + " "@ + home + "/."@
        + assistant + " "@ + home + "/."@ + assistant + ".json "@ + home
        + "/.codex 2>/dev/null; true"@);
}

} // verus!
