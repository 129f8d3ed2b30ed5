use spritebox::cli::branches::branch_names;
use spritebox::cli::credentials::{
    config_dir, default_user, entered_secret, fly_auth_token, fly_refused,
    git_config_complaint, host_value,
    load_claude_token, load_openai_key, load_org, load_token, save_claude_token,
    save_openai_key, save_token, variable_owner, whoami, ConfigRoot, StoredAuth, StoredSecrets,
    ASSISTANT_TOKEN_VAR,
};
use spritebox::cli::launch::{
    HostFacts, Input, Launch, LaunchAction, LaunchEvent, LaunchOptions, LaunchStep,
};
use spritebox::cli::prompt::{
    api_line, auth_line, branch_prompt, choose_branch, confirmed, destroy_action, fly_line,
    gh_line, git_user_line, invalid_selection, list_line, not_interactive, only_branch,
    resolve_launch_selector, session_ended, sprites_line, stop_action, tool_line,
    DestroyAction, Selector, StopAction,
};
use spritebox::cli::scripts::{
    clone_script, config_candidates, env_file, notes_install, notes_section, pack_command,
    shell_line, skills_doc, unpack_command, user_setup,
};
use spritebox::cli::share::{
    daemon_command, daemon_line, locate_daemon_binary, log_path_for, provision_command,
    provision_next, provision_start, Provision, ProvisionStep, ShareSpec,
};
use spritebox::cli::shell::{shell_escape, ssh_to_https};
use spritebox::cli::tools::{node_version, Tools, ToolsAction};
use spritebox::naming::{repo_basename, slugify, sprite_name};
use spritebox::sprites::exec::{EnvVar, ExecResult};
use spritebox::text::{number, parse_number, signed_number, split, to_upper, trim};

fn s(text: &str) -> String {
    text.to_string()
}

fn ran(exit_code: i32, stdout: &str, stderr: &str) -> ExecResult {
    ExecResult { exit_code, stdout: s(stdout), stderr: s(stderr) }
}

// ---- names ----

#[test]
fn repo_branch_produces_slug() {
    let name =
        sprite_name(None, Some("git@github.com:org/my-repo.git"), Some("feature/cool-thing"))
            .unwrap();
    assert_eq!(name, "my-repo-feature-cool-thing");
}

#[test]
fn standalone_name_slugifies() {
    let name = sprite_name(Some("My Tools Box"), None, None).unwrap();
    assert_eq!(name, "my-tools-box");
}

#[test]
fn name_cannot_combine_with_repo() {
    assert!(sprite_name(Some("foo"), Some("repo"), Some("branch")).is_err());
}

#[test]
fn repo_without_branch_fails() {
    assert!(sprite_name(None, Some("repo"), None).is_err());
}

#[test]
fn no_args_fails() {
    assert!(sprite_name(None, None, None).is_err());
}

#[test]
fn slug_truncates_at_48_chars() {
    let long_name = "a".repeat(100);
    let name = sprite_name(Some(&long_name), None, None).unwrap();
    assert_eq!(name.len(), 48);
}

#[test]
fn each_selection_that_fails_says_why() {
    assert_eq!(
        sprite_name(Some("--"), None, None).unwrap_err(),
        "instance name must contain at least one alphanumeric character"
    );
    assert_eq!(
        sprite_name(None, Some("///"), Some("main")).unwrap_err(),
        "repo and branch must contain at least one alphanumeric character"
    );
    assert_eq!(
        sprite_name(Some("a"), None, Some("b")).unwrap_err(),
        "--name cannot be combined with --repo/--branch"
    );
    assert_eq!(
        sprite_name(None, None, Some("b")).unwrap_err(),
        "--repo and --branch must be provided together"
    );
    assert_eq!(sprite_name(None, None, None).unwrap_err(), "provide --repo/--branch or --name");
}

#[test]
fn slugs_hold_single_dashes_inside() {
    assert_eq!(slugify("--A__b  C!!"), "a-b-c");
    assert_eq!(slugify("\u{e9}t\u{e9}"), "t");
    assert_eq!(slugify(""), "");
    assert_eq!(slugify(&slugify("Feature/Login Page")), "feature-login-page");
    let cut = slugify(&format!("{}-b", "a".repeat(47)));
    assert_eq!(cut, format!("{}-", "a".repeat(47)));
}

#[test]
fn the_last_part_of_an_address_names_the_repository() {
    assert_eq!(repo_basename("git@github.com:org/repo.git"), "repo");
    assert_eq!(repo_basename("https://github.com/org/repo/"), "repo");
    assert_eq!(repo_basename("host:repo.git.git"), "repo");
    assert_eq!(repo_basename("repo"), "repo");
    assert_eq!(repo_basename("/"), "");
}

// ---- text ----

#[test]
fn texts_are_trimmed_and_split() {
    assert_eq!(trim(" \t a b\u{3000}\n"), "a b");
    assert_eq!(trim("\u{a0}\u{2003}"), "");
    assert_eq!(split("a,,b", ','), vec![s("a"), s(""), s("b")]);
    assert_eq!(to_upper("name"), "NAME");
    assert_eq!(number(0), "0");
    assert_eq!(number(u64::MAX), u64::MAX.to_string());
    assert_eq!(signed_number(i32::MIN), i32::MIN.to_string());
}

#[test]
fn numbers_are_read_as_std_reads_them() {
    for text in ["", "+", "-1", "+7", "007", "7 ", "12", "13", "99999999999999999999", "1e3"] {
        let expected = text.parse::<u64>().ok().filter(|n| *n <= 12);
        assert_eq!(parse_number(text, 12), expected, "{text}");
        assert_eq!(parse_number(text, u64::MAX), text.parse::<u64>().ok(), "{text}");
    }
}

// ---- the shell ----

#[test]
fn ssh_to_https_converts_github() {
    assert_eq!(
        ssh_to_https("git@github.com:org/repo.git"),
        "https://github.com/org/repo.git"
    );
}

#[test]
fn ssh_to_https_passthrough_https() {
    let url = "https://github.com/org/repo.git";
    assert_eq!(ssh_to_https(url), url);
}

#[test]
fn ssh_to_https_converts_gitlab_and_nothing_else() {
    assert_eq!(ssh_to_https("git@gitlab.com:o/r"), "https://gitlab.com/o/r");
    assert_eq!(ssh_to_https("git@example.com:o/r"), "git@example.com:o/r");
}

#[test]
fn quotes_are_escaped() {
    assert_eq!(shell_escape("it's"), "'it'\\''s'");
    assert_eq!(shell_escape(""), "''");
    assert_eq!(shell_escape("a b;c"), "'a b;c'");
}

// ---- sharing ----

#[test]
fn parses_valid_spec() {
    let tmp = std::path::Path::new("/tmp");
    let spec = format!("{}:/workspace/shared", tmp.display());
    assert_eq!(ShareSpec::local_part(&spec), Some(tmp.display().to_string()));
    let parsed = ShareSpec::parse(&spec, tmp.is_dir()).unwrap();
    assert_eq!(parsed.remote, "/workspace/shared");
    assert_eq!(parsed.local, tmp.display().to_string());
}

#[test]
fn rejects_relative_local() {
    assert!(ShareSpec::parse("relative/path:/workspace", true).is_err());
}

#[test]
fn rejects_relative_remote() {
    let tmp = std::path::Path::new("/tmp");
    let spec = format!("{}:relative", tmp.display());
    assert_eq!(
        ShareSpec::parse(&spec, tmp.is_dir()).unwrap_err(),
        "remote mount point must be absolute: relative"
    );
}

#[test]
fn rejects_no_separator() {
    assert!(ShareSpec::parse("/just/local", true).is_err());
}

#[test]
fn rejects_what_is_no_directory() {
    assert_eq!(
        ShareSpec::parse("/none:/w", false).unwrap_err(),
        "local share path is not a directory: /none"
    );
    assert_eq!(ShareSpec::parse("", true).unwrap_err(), "share must be LOCAL:REMOTE");
}

#[test]
fn logs_are_named_after_mounts() {
    assert_eq!(log_path_for("/workspace/src"), "/tmp/spritebox-fsd-workspace_src.log");
    assert_eq!(log_path_for("/my share"), "/tmp/spritebox-fsd-my-32-share.log");
    assert_eq!(log_path_for("/a/b"), "/tmp/spritebox-fsd-a_b.log");
    assert_eq!(log_path_for("/a_b"), "/tmp/spritebox-fsd-a-95-b.log");
    assert_eq!(log_path_for("/a-95-b"), "/tmp/spritebox-fsd-a-45-95-45-b.log");
    assert_eq!(log_path_for("/"), "/tmp/spritebox-fsd-.log");
    assert_eq!(
        daemon_command("/w"),
        vec![
            s("sh"),
            s("-c"),
            s("exec sudo -E sh -c 'exec /usr/local/bin/spritebox-fsd --mount \"$1\" --verbose \
               2>>\"$2\"' sh \"$0\" \"/tmp/spritebox-fsd-w.log\""),
            s("/w"),
        ]
    );
    assert_eq!(daemon_line(b"x"), b"[fsd] x");
}

#[test]
fn the_daemon_is_found() {
    assert_eq!(locate_daemon_binary(Some(("/d", true)), false, false).unwrap(), "/d");
    assert_eq!(
        locate_daemon_binary(Some(("/d", false)), true, true).unwrap_err(),
        "daemon binary not found at: /d"
    );
    assert!(locate_daemon_binary(None, true, true).unwrap().contains("release"));
    assert!(locate_daemon_binary(None, false, true).unwrap().contains("debug"));
    assert!(locate_daemon_binary(None, false, false).unwrap_err().contains("--daemon <path>"));
}

#[test]
fn provisioning_goes_step_by_step() {
    let mut step = provision_start();
    let mut commands = Vec::new();
    loop {
        commands.push(provision_command(step, "/w").join(" "));
        match provision_next(step, &ran(0, "", ""), "/w") {
            Provision::Run(next) => step = next,
            Provision::Ready => break,
            Provision::Failed(e) => panic!("{e}"),
        }
    }
    assert_eq!(commands.len(), 4);
    assert_eq!(commands[0], "sudo chmod 666 /dev/fuse");
    assert_eq!(
        commands[3],
        "sh -c sudo umount -l /w 2>/dev/null; sudo mkdir -p /w"
    );
    assert_eq!(
        provision_next(ProvisionStep::PrepareMount, &ran(1, "", "no"), "/w"),
        Provision::Failed(s("mkdir /w failed (exit=1): no"))
    );
    assert_eq!(
        provision_next(ProvisionStep::InstallDaemon, &ran(-1, "", "no"), "/w"),
        Provision::Failed(s("install daemon failed (exit=-1): no"))
    );
}

// ---- credentials ----

fn secrets() -> StoredSecrets {
    StoredSecrets { claude_oauth_token: None, openai_api_key: Some(s("old")) }
}

#[test]
fn tokens_come_from_the_environment_first() {
    let stored = || Some(StoredAuth { token: s("c"), org: s("o") });
    assert_eq!(load_token(Some(s("a")), Some(s("b")), stored()), Some(s("a")));
    assert_eq!(load_token(Some(s("")), Some(s("b")), stored()), Some(s("b")));
    assert_eq!(load_token(None, Some(s("")), stored()), Some(s("c")));
    assert_eq!(load_token(None, None, Some(save_token("", "o"))), None);
    assert_eq!(load_token(None, None, None), None);
    assert_eq!(load_org(stored()), Some(s("o")));
    assert_eq!(load_org(None), None);
}

#[test]
fn one_secret_does_not_touch_the_other() {
    let saved = save_claude_token(secrets(), "new");
    assert_eq!(saved.openai_api_key, Some(s("old")));
    assert_eq!(load_claude_token(None, saved), Some(s("new")));
    let saved = save_openai_key(save_claude_token(secrets(), "new"), "key");
    assert_eq!(saved.claude_oauth_token, Some(s("new")));
    assert_eq!(load_openai_key(Some(s("")), saved), Some(s("key")));
    assert_eq!(load_openai_key(Some(s("env")), secrets()), Some(s("env")));
    assert_eq!(load_claude_token(None, secrets()), None);
}

#[test]
fn the_configuration_has_a_place() {
    assert_eq!(
        config_dir(Some(s("/c")), Some(s("/h")), None),
        Ok(ConfigRoot::Given(s("/c")))
    );
    assert_eq!(config_dir(None, None, Some(s("/u"))), Ok(ConfigRoot::Home(s("/u"))));
    assert_eq!(config_dir(None, None, None), Err(s("HOME is not set")));
}

#[test]
fn what_other_programs_print() {
    assert_eq!(fly_auth_token(true, b" tok\n".to_vec(), b""), Ok(s("tok")));
    assert_eq!(
        fly_auth_token(true, b" \n".to_vec(), b""),
        Err(s("fly auth token returned empty output"))
    );
    assert_eq!(
        fly_auth_token(true, vec![0xff], b""),
        Err(s("fly auth token output is not valid UTF-8"))
    );
    assert_eq!(
        fly_auth_token(false, b"tok".to_vec(), b"why"),
        Err(s("`fly auth token` failed. Run `fly auth login` first.\nwhy"))
    );
    assert_eq!(
        fly_refused("why"),
        "`fly auth token` failed. Run `fly auth login` first.\nwhy"
    );
    assert_eq!(whoami(true, b"me@x\n".to_vec()), Some(s("me@x")));
    assert_eq!(whoami(true, vec![0xff]), None);
    assert_eq!(whoami(false, b"me".to_vec()), None);
    let complaint = git_config_complaint("user.name");
    assert_eq!(complaint, "host git config user.name is not valid UTF-8");
    assert_eq!(host_value(true, b"N\n".to_vec(), complaint.clone()), Ok(Some(s("N"))));
    assert_eq!(host_value(true, b"\n".to_vec(), complaint.clone()), Ok(None));
    assert_eq!(host_value(false, b"N".to_vec(), complaint.clone()), Ok(None));
    assert_eq!(host_value(true, vec![0xff], complaint.clone()), Err(complaint));
}

#[test]
fn small_answers() {
    assert_eq!(entered_secret(" k ", "no key provided"), Ok(s("k")));
    assert_eq!(entered_secret("  ", "no key provided"), Err(s("no key provided")));
    assert_eq!(default_user(None, Some(s("u"))), "u");
    assert_eq!(default_user(None, None), "dev");
    assert_eq!(variable_owner("EDITOR_OPTS"), "editor");
    assert_eq!(variable_owner("EDITOR"), "editor");
    assert_eq!(variable_owner(ASSISTANT_TOKEN_VAR).len(), 6);
}

// ---- questions ----

#[test]
fn what_to_launch() {
    assert_eq!(resolve_launch_selector(Some("n"), None, None), Ok(Selector::Complete));
    assert_eq!(resolve_launch_selector(None, Some("r"), Some("b")), Ok(Selector::Complete));
    assert_eq!(resolve_launch_selector(None, Some("r"), None), Ok(Selector::NeedsBranch));
    assert_eq!(
        resolve_launch_selector(None, None, Some("b")),
        Err(s("provide --repo/--branch or --name to launch a sprite"))
    );
    assert!(not_interactive().contains("pass --branch explicitly"));
}

#[test]
fn a_branch_is_chosen_by_number() {
    let branches = vec![s("main"), s("dev"), s("old")];
    assert_eq!(choose_branch("\n", &branches), Some(s("main")));
    assert_eq!(choose_branch(" 2\n", &branches), Some(s("dev")));
    assert_eq!(choose_branch("3", &branches), Some(s("old")));
    assert_eq!(choose_branch("0", &branches), None);
    assert_eq!(choose_branch("4", &branches), None);
    assert_eq!(choose_branch("x", &branches), None);
    assert_eq!(only_branch("r", &vec![s("main")]), Ok(Some(s("main"))));
    assert_eq!(only_branch("r", &branches), Ok(None));
    assert_eq!(only_branch("r", &vec![]), Err(s("no remote branches found for r")));
    assert_eq!(branch_prompt(3), "Branch [1-3] (default 1): ");
    assert_eq!(invalid_selection(3), "Invalid selection. Enter a number from 1 to 3.");
}

#[test]
fn nothing_is_destroyed_unasked() {
    assert!(confirmed(" Y\n"));
    assert!(confirmed("yes"));
    assert!(!confirmed("yess"));
    assert!(!confirmed(""));
    assert_eq!(destroy_action(false, true, None), DestroyAction::Missing);
    assert_eq!(destroy_action(true, true, None), DestroyAction::Delete);
    assert_eq!(destroy_action(true, false, None), DestroyAction::Ask);
    assert_eq!(destroy_action(true, false, Some("y")), DestroyAction::Delete);
    assert_eq!(destroy_action(true, false, Some("n")), DestroyAction::Abort);
    assert_eq!(stop_action(None), StopAction::Missing);
    assert_eq!(stop_action(Some("sleeping")), StopAction::Already);
    assert_eq!(stop_action(Some("stopped")), StopAction::Already);
    assert_eq!(stop_action(Some("running")), StopAction::Stop);
}

#[test]
fn lines_that_are_shown() {
    assert_eq!(list_line("a", "running", Some("https://a")), "a  running  https://a");
    assert_eq!(list_line("a", "cold", None), "a  cold  -");
    assert_eq!(auth_line(true, Some("o")), "auth: ok (org: o)");
    assert_eq!(auth_line(true, None), "auth: ok (org: -)");
    assert_eq!(auth_line(false, Some("o")), "auth: missing (run `spritebox auth login`)");
    assert_eq!(git_user_line(Some("N"), Some("e@x")), "git_user: ok (N <e@x>)");
    assert_eq!(
        git_user_line(Some("N"), None),
        "git_user: missing (git config --global user.name/user.email)"
    );
    assert_eq!(gh_line(true), "gh_token: ok (gh auth token)");
    assert_eq!(
        gh_line(false),
        "gh_token: missing (install gh CLI and run gh auth login)"
    );
    assert_eq!(api_line(Ok(3)), "api: ok (3 sprites)");
    assert_eq!(api_line(Err("no")), "api: error (no)");
    assert_eq!(fly_line(Some("me@x")), "fly.io: me@x");
    assert_eq!(fly_line(None), "fly.io: not logged in (run `fly auth login`)");
    assert_eq!(sprites_line(true, Some("o")), "sprites: authenticated (org: o)");
    assert_eq!(sprites_line(true, None), "sprites: authenticated (org: unknown)");
    assert_eq!(
        sprites_line(false, None),
        "sprites: not authenticated. Run `spritebox auth login`."
    );
    assert_eq!(tool_line("codex", true, "setup-codex"), "codex: ok");
    assert_eq!(
        tool_line("codex", false, "setup-codex"),
        "codex: not configured (run `spritebox auth setup-codex`)"
    );
    assert!(session_ended(0) && session_ended(130) && !session_ended(1));
}

// ---- scripts ----

#[test]
fn scripts_name_the_user() {
    assert!(user_setup("ann").contains("id -u ann >/dev/null 2>&1 || useradd -m -s /bin/bash"));
    assert!(!user_setup("ann").contains('%'));
    assert_eq!(
        clone_script("main", "https://h/r", "ann", false),
        "git clone --branch 'main' 'https://h/r' /workspace && chown -R ann:ann /workspace"
    );
    assert!(clone_script("main", "u", "ann", true).starts_with(
        "git config --global credential.helper '!f() { echo \"password=$GH_TOKEN\"; }; f' && git"
    ));
    let vars = vec![EnvVar { key: s("A"), value: s("it's") }];
    assert_eq!(env_file(&vars), "export A='it'\\''s'\n");
    assert_eq!(
        shell_line("ann", 24, 80, true),
        "exec sudo --preserve-env=GH_TOKEN -u ann -i bash -c 'stty rows 24 cols 80 2>/dev/null; export COLUMNS=80 \
         LINES=24; cd /workspace && exec bash --login'"
    );
    assert!(shell_line("ann", 24, 80, false).contains("; cd ~ && exec"));
}

#[test]
fn configs_are_packed_and_unpacked() {
    assert_eq!(
        config_candidates("helper", false, true),
        vec![
            s(".helper.json"),
            s(".helper/.credentials.json"),
            s(".helper/settings.json"),
            s(".helper/HELPER.md"),
        ]
    );
    assert_eq!(
        config_candidates("helper", true, false),
        vec![s(".codex/auth.json"), s(".codex/config.toml"), s(".codex/rules")]
    );
    assert!(config_candidates("helper", true, true).is_empty());
    assert_eq!(
        pack_command("/home/a b", &vec![s("x"), s("y")]),
        "tar czf - --no-mac-metadata --exclude='._*' -C '/home/a b' 'x' 'y'"
    );
    assert_eq!(
        unpack_command("ann", "helper"),
        "mkdir -p '/home/ann'/.helper && tar xzf - -C '/home/ann' && chown -R ann:ann \
         '/home/ann'/.helper '/home/ann'/.helper.json '/home/ann'/.codex 2>/dev/null; true"
    );
    assert_eq!(
        notes_install("ann", "helper"),
        "mkdir -p /home/ann/.helper && touch /home/ann/.helper/HELPER.md && sed -i '/<!-- \
         spritebox environment -->/,/<!-- end spritebox -->/d' /home/ann/.helper/HELPER.md && \
         cat >> /home/ann/.helper/HELPER.md && chown -R ann:ann /home/ann/.helper"
    );
}

#[test]
fn the_notes_tell_where_it_runs() {
    let doc = skills_doc("repo-main", Some("https://u"));
    assert!(doc.contains("- Sprite name: repo-main\n- Your sprite's public URL is: https://u\n"));
    let doc = skills_doc("repo-main", None);
    assert!(doc.contains("- Sprite name: repo-main\n- Run `sprite-env info`"));
    assert_eq!(
        notes_section("x\n"),
        "\n<!-- spritebox environment -->\nx\n<!-- end spritebox -->\n"
    );
}

// ---- launching ----

fn options(repo: bool) -> LaunchOptions {
    LaunchOptions {
        repo: if repo { Some(s("git@github.com:org/repo.git")) } else { None },
        branch: if repo { Some(s("main")) } else { None },
        user: s("ann"),
        assistant: s("helper"),
        no_claude: false,
        no_codex: false,
    }
}

fn facts() -> HostFacts {
    HostFacts {
        gh_token: Some(s("gh")),
        claude_token: None,
        anthropic_key: Some(s("ak")),
        openai_key: None,
        openai_env: Some(s("oe")),
        git_name: Some(s("Ann")),
        git_email: None,
        term: None,
        token: Some(s("tk")),
    }
}

fn event_for(action: &LaunchAction) -> LaunchEvent {
    match action {
        LaunchAction::LookUp => LaunchEvent::Found(Some(s("https://u"))),
        LaunchAction::Create { .. } => LaunchEvent::Created,
        LaunchAction::Run { cmd, .. } => {
            let missing = cmd[0] == "test";
            LaunchEvent::Ran(ran(if missing { 1 } else { 0 }, "", ""))
        }
        LaunchAction::AskGhToken => LaunchEvent::GhToken(Some(s("gh"))),
        LaunchAction::AskHost => LaunchEvent::Host(facts()),
        LaunchAction::AskConfigs(names) => {
            let present = names.iter().take(1).cloned().collect();
            LaunchEvent::Configs { home: Some(s("/h")), present }
        }
        LaunchAction::Pack(_) => LaunchEvent::Packed { ok: true, stderr: s("") },
        LaunchAction::AskSize => LaunchEvent::Size { cols: 80, rows: 24 },
        LaunchAction::Console { .. } => LaunchEvent::Closed(130),
        other => panic!("no event for {other:?}"),
    }
}

fn drive(launch: &mut Launch, first: LaunchAction) -> Vec<LaunchAction> {
    let mut actions = Vec::new();
    let mut action = first;
    loop {
        if matches!(action, LaunchAction::Done | LaunchAction::Fail(_)) {
            actions.push(action);
            return actions;
        }
        let next = launch.next(event_for(&action));
        actions.push(action);
        action = next;
    }
}

#[test]
fn a_launch_with_a_repository() {
    let (mut launch, first) = Launch::start(options(true), s("repo-main"));
    let actions = drive(&mut launch, first);
    assert_eq!(launch.step(), LaunchStep::Over);
    assert_eq!(actions.last(), Some(&LaunchAction::Done));
    let texts: Vec<String> = actions.iter().map(|a| format!("{a:?}")).collect();
    let at = |needle: &str| texts.iter().position(|t| t.contains(needle)).unwrap();
    assert!(at("useradd") < at("sprite-path.sh"));
    assert!(at("spritebox-paste-image") < at("sprite-browser"));
    assert!(at("sprite-browser") < at("git clone"));
    assert!(at("git clone") < at("AskHost"));
    assert!(texts[at("git clone")].contains("https://github.com/org/repo.git"));
    assert!(at("spritebox_env") < at("gh auth setup-git"));
    assert!(!texts[at("spritebox_env")].contains("GH_TOKEN"));
    assert!(texts[at("spritebox_env")].contains("export SPRITE_NAME='repo-main'"));
    assert!(texts[at("gh auth setup-git")].contains("value: \"gh\""));
    assert!(at("Pack(") < at("Archive"));
    assert!(at("/spritebox/skills.md") < at("HELPER.md && sed"));
    match &actions[actions.len() - 2] {
        LaunchAction::Console { cmd, env, dir } => {
            assert_eq!(cmd[0], "bash");
            assert_eq!(dir.as_deref(), Some("/workspace"));
            let pairs: Vec<(&str, &str)> =
                env.iter().map(|v| (v.key.as_str(), v.value.as_str())).collect();
            assert_eq!(
                pairs,
                vec![
                    ("GH_TOKEN", "gh"),
                    ("ANTHROPIC_API_KEY", "ak"),
                    ("OPENAI_API_KEY", "oe"),
                    ("GIT_AUTHOR_NAME", "Ann"),
                    ("GIT_COMMITTER_NAME", "Ann"),
                    ("TERM", "xterm-256color"),
                    ("SPRITE_TOKEN", "tk"),
                    ("SPRITE_NAME", "repo-main"),
                    ("SPRITE_URL", "https://u"),
                ]
            );
        }
        other => panic!("unexpected: {other:?}"),
    }
}

#[test]
fn assistants_that_are_left_out_get_no_credentials() {
    let mut wanted = options(false);
    wanted.no_claude = true;
    wanted.no_codex = true;
    let (mut launch, first) = Launch::start(wanted, s("box"));
    let actions = drive(&mut launch, first);
    assert!(!actions.iter().any(|a| format!("{a:?}").contains("API_KEY")));
    assert!(actions.iter().any(|a| format!("{a:?}").contains("SPRITE_TOKEN")));
}

#[test]
fn a_launch_without_a_repository_clones_nothing() {
    let (mut launch, first) = Launch::start(options(false), s("box"));
    let actions = drive(&mut launch, first);
    assert!(!actions.iter().any(|a| format!("{a:?}").contains("git clone")));
    assert!(!actions.contains(&LaunchAction::AskGhToken));
    match &actions[actions.len() - 2] {
        LaunchAction::Console { dir, .. } => assert_eq!(*dir, None),
        other => panic!("unexpected: {other:?}"),
    }
}

#[test]
fn a_missing_sprite_is_made() {
    let (mut launch, first) = Launch::start(options(false), s("box"));
    assert_eq!(first, LaunchAction::LookUp);
    let action = launch.next(LaunchEvent::Missing);
    assert_eq!(action, LaunchAction::Create { cpus: 4, ram_mb: 8192 });
    assert_eq!(launch.next(LaunchEvent::Created), LaunchAction::LookUp);
    assert_eq!(
        launch.next(LaunchEvent::Missing),
        LaunchAction::Fail(s("sprite box not found"))
    );
}

fn at_step(step: LaunchStep) -> Launch {
    let (mut launch, first) = Launch::start(options(true), s("repo-main"));
    let mut action = first;
    while launch.step() != step {
        action = launch.next(event_for(&action));
    }
    launch
}

#[test]
fn failures_end_a_launch() {
    let fail = |step: LaunchStep, event: LaunchEvent| match at_step(step).next(event) {
        LaunchAction::Fail(e) => e,
        other => panic!("unexpected: {other:?}"),
    };
    assert_eq!(
        fail(LaunchStep::UserSetup, LaunchEvent::Ran(ran(2, "", " no \n"))),
        "user setup failed (exit 2): no"
    );
    assert_eq!(
        fail(LaunchStep::Cloning, LaunchEvent::Ran(ran(128, "o", "e"))),
        "git clone failed (exit 128):\noe"
    );
    assert_eq!(
        fail(LaunchStep::WritingEnv, LaunchEvent::Ran(ran(1, "", "e"))),
        "env setup failed (exit 1): e"
    );
    assert_eq!(
        fail(LaunchStep::Configs, LaunchEvent::Configs { home: None, present: vec![] }),
        "HOME not set"
    );
    assert_eq!(
        fail(LaunchStep::Packing, LaunchEvent::Packed { ok: false, stderr: s("tar") }),
        "failed to archive configs: tar"
    );
    assert_eq!(
        fail(LaunchStep::Unpacking, LaunchEvent::Ran(ran(1, "", "e"))),
        "config sync failed (exit 1): e"
    );
    assert_eq!(
        fail(LaunchStep::Console, LaunchEvent::Closed(1)),
        "session exited with code 1"
    );
    assert_eq!(fail(LaunchStep::Profile, LaunchEvent::Failed(s("gone"))), "gone");
}

#[test]
fn a_launch_goes_on_without_git_credentials() {
    let action = at_step(LaunchStep::GitSetup).next(LaunchEvent::Failed(s("gone")));
    assert!(matches!(action, LaunchAction::AskConfigs(_)));
}

#[test]
fn a_repository_that_is_there_is_not_cloned() {
    let mut launch = at_step(LaunchStep::CloneCheck);
    assert_eq!(launch.next(LaunchEvent::Ran(ran(0, "", ""))), LaunchAction::LookUp);
    assert_eq!(launch.step(), LaunchStep::Address);
}

#[test]
fn without_configs_nothing_is_packed() {
    let mut launch = at_step(LaunchStep::Configs);
    let action = launch.next(LaunchEvent::Configs { home: Some(s("/h")), present: vec![] });
    match action {
        LaunchAction::Run { cmd, input: Input::Text(doc), .. } => {
            assert!(cmd[2].contains("/spritebox/skills.md"));
            assert!(doc.contains("repo-main"));
        }
        other => panic!("unexpected: {other:?}"),
    }
}

// ---- tools ----

fn script(action: ToolsAction) -> String {
    match action {
        ToolsAction::Run { script, .. } => script,
        other => panic!("unexpected: {other:?}"),
    }
}

#[test]
fn missing_tools_are_installed() {
    let (mut tools, first) = Tools::start("helper", false, false);
    assert_eq!(
        script(first),
        "npm list -g @anthropic-ai/helper-code 2>/dev/null | grep -q @anthropic-ai/helper-code"
    );
    let second = tools.next(ran(1, "", ""));
    assert_eq!(
        script(second),
        "npm list -g @openai/codex 2>/dev/null | grep -q @openai/codex"
    );
    assert!(script(tools.next(ran(0, "", ""))).starts_with("node --version"));
    assert!(script(tools.next(ran(0, "16.3.1\n", ""))).contains("setup_22.x"));
    match tools.next(ran(0, "", "")) {
        ToolsAction::Run { script, timeout_secs } => {
            assert!(script.contains("npm install -g @anthropic-ai/helper-code 2>&1"));
            assert!(script.contains("for bin in helper codex; do"));
            assert_eq!(timeout_secs, Some(300));
        }
        other => panic!("unexpected: {other:?}"),
    }
    assert_eq!(
        tools.next(ran(1, "o", "e")),
        ToolsAction::Fail(s("failed to install tools (exit 1):\noe"))
    );
}

#[test]
fn tools_that_are_there_are_left() {
    let (mut tools, _) = Tools::start("helper", true, false);
    assert_eq!(tools.next(ran(0, "", "")), ToolsAction::Done);
    let (_, first) = Tools::start("helper", true, true);
    assert_eq!(first, ToolsAction::Done);
    let (mut tools, _) = Tools::start("helper", true, false);
    tools.next(ran(1, "", ""));
    assert!(script(tools.next(ran(0, "18.0.0", ""))).contains("npm install -g @openai/codex"));
    let (mut tools, _) = Tools::start("helper", true, false);
    tools.next(ran(1, "", ""));
    tools.next(ran(127, "", ""));
    assert_eq!(
        tools.next(ran(1, "o", "e")),
        ToolsAction::Fail(s("failed to install node.js (exit 1):\noe"))
    );
}

#[test]
fn versions_of_node() {
    assert_eq!(node_version("22.1.0\n"), 22);
    assert_eq!(node_version("7"), 7);
    assert_eq!(node_version("x.1"), 0);
    assert_eq!(node_version(""), 0);
    assert_eq!(node_version("99999999999.0"), 0);
}

// ---- branches ----

#[test]
fn branches_are_read_from_a_listing() {
    let listing = "1a\trefs/heads/main\n2b\trefs/tags/v1\n3c\trefs/heads/feature/a\r\n\n\
                   4d\trefs/heads/old\n";
    assert_eq!(branch_names(listing, 9), vec![s("main"), s("feature/a"), s("old")]);
    assert_eq!(branch_names(listing, 2), vec![s("main"), s("feature/a")]);
    assert!(branch_names(listing, 0).is_empty());
    assert!(branch_names("", 9).is_empty());
    assert_eq!(branch_names("refs/heads/refs/heads/x", 9), vec![s("refs/heads/x")]);
}
