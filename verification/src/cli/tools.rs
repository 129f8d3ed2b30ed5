//! Installing the tools of assistants in a sprite, step by step.

use vstd::prelude::*;

use crate::sprites::exec::ExecResult;
use crate::text::{
    all_blank, concat, decimal, first_index, is_digit, join, joined, law_index_of, law_number_read,
    law_trimmed_between, lemma_decimal, number_in, parse_number, signed_decimal, signed_number,
    split_once, trim, trimmed, views,
};

verus! {

/// The packages that the user wants: that of the assistant, and that of Codex.
pub open spec fn wanted(assistant: Seq<char>, no_claude: bool, no_codex: bool) -> Seq<Seq<char>> {
    (if no_claude {
        Seq::empty()
    } else {
        seq!["@anthropic-ai/"@ + assistant + "-code"@]
    }) + (if no_codex {
        Seq::empty()
    } else {
        seq!["@openai/codex"@]
    })
}

/// The major version in what `node --version` printed, or 0.
pub open spec fn node_major(printed: Seq<char>) -> int {
    let version = trimmed(printed);
    match number_in(version.take(first_index(version, '.')), u32::MAX as int) {
        Some(n) => n,
        None => 0,
    }
}

/// The oldest version of node that will do.
pub const NODE_MAJOR: u64 = 18;

/// Prints the version of node.
pub const NODE_CHECK: &'static str = "node --version 2>/dev/null | sed 's/v//'";

/// Installs node.
pub const NODE_INSTALL: &'static str =
    "curl -fsSL https://deb.nodesource.com/setup_22.x | bash - > /dev/null 2>&1 && apt-get install -y -qq nodejs > /dev/null 2>&1";

/// How long the packages may take, in seconds.
pub const INSTALL_TIMEOUT_SECS: u64 = 300;

/// Finds out whether a package is installed.
pub open spec fn check_text(package: Seq<char>) -> Seq<char> {
    "npm list -g "@ + package + " 2>/dev/null | grep -q "@ + package
}

/// Installs packages, and puts their programs where everyone finds them.
pub open spec fn install_text(packages: Seq<Seq<char>>, assistant: Seq<char>) -> Seq<char> {
    "apt-get install -y -qq bubblewrap > /dev/null 2>&1; npm install -g "@ + joined(
        packages,
        " "@,
    )
        + " 2>&1 && NODE_BIN=$(which node) && [ -n \"$NODE_BIN\" ] && ln -sf \"$NODE_BIN\" /usr/local/bin/node && NPM_BIN=$(npm prefix -g)/bin && for bin in "@
        + assistant
        + " codex; do   [ -f \"$NPM_BIN/$bin\" ] && ln -sf \"$NPM_BIN/$bin\" /usr/local/bin/$bin; done"@
}

/// The step that an installation is at: what it waits for.
#[derive(Debug, PartialEq, Eq, Clone, Copy, Structural)]
pub enum ToolsStep {
    /// Whether the package with this number is installed.
    Checking(usize),
    /// The version of node.
    CheckingNode,
    /// The installation of node.
    InstallingNode,
    /// The installation of the packages.
    Installing,
    /// Nothing more.
    Over,
}

/// What is to be done next: a script to run in the sprite, with a limit of
/// time where it may take long.
#[derive(Debug, PartialEq, Eq)]
pub enum ToolsAction {
    Run { script: String, timeout_secs: Option<u64> },
    Done,
    Fail(String),
}

/// What is to be done next, as characters.
pub enum ToolsActionView {
    Run { script: Seq<char>, timeout_secs: Option<u64> },
    Done,
    Fail(Seq<char>),
}

impl View for ToolsAction {
    type V = ToolsActionView;

    open spec fn view(&self) -> ToolsActionView {
        match self {
            ToolsAction::Run { script, timeout_secs } => ToolsActionView::Run {
                script: script@,
                timeout_secs: *timeout_secs,
            },
            ToolsAction::Done => ToolsActionView::Done,
            ToolsAction::Fail(e) => ToolsActionView::Fail(e@),
        }
    }
}

/// How far an installation is: the packages that are wanted, and those of them
/// that are missing.
pub struct ToolsView {
    pub assistant: Seq<char>,
    pub packages: Seq<Seq<char>>,
    pub missing: Seq<Seq<char>>,
    pub step: ToolsStep,
}

/// The installation of tools.
pub struct Tools {
    assistant: String,
    packages: Vec<String>,
    missing: Vec<String>,
    step: ToolsStep,
}

impl View for Tools {
    type V = ToolsView;

    closed spec fn view(&self) -> ToolsView {
        ToolsView {
            assistant: self.assistant@,
            packages: views(self.packages@),
            missing: views(self.missing@),
            step: self.step,
        }
    }
}

/// Whether the numbers of an installation are in range.
pub open spec fn sensible(v: ToolsView) -> bool {
    v.step matches ToolsStep::Checking(i) ==> i < v.packages.len()
}

/// A script that is run.
pub open spec fn run(script: Seq<char>) -> ToolsActionView {
    ToolsActionView::Run { script, timeout_secs: None }
}

/// The packages are installed.
pub open spec fn to_install(v: ToolsView) -> (ToolsView, ToolsActionView) {
    (
        ToolsView { step: ToolsStep::Installing, ..v },
        ToolsActionView::Run {
            script: install_text(v.missing, v.assistant),
            timeout_secs: Some(INSTALL_TIMEOUT_SECS),
        },
    )
}

/// What is said of an installation that failed.
pub open spec fn complaint(what: Seq<char>, r: ExecResult) -> Seq<char> {
    what + " (exit "@ + signed_decimal(r.exit_code as int) + "):\n"@ + r.stdout@ + r.stderr@
}

/// What follows a script that has run.
pub open spec fn after(v: ToolsView, r: ExecResult) -> (ToolsView, ToolsActionView) {
    match v.step {
        ToolsStep::Checking(i) => {
            let w = ToolsView {
                missing: if r.exit_code != 0 {
                    v.missing.push(v.packages[i as int])
                } else {
                    v.missing
                },
                ..v
            };
            if i + 1 < v.packages.len() {
                (
                    ToolsView { step: ToolsStep::Checking((i + 1) as usize), ..w },
                    run(check_text(v.packages[i + 1])),
                )
            } else if w.missing.len() == 0 {
                (ToolsView { step: ToolsStep::Over, ..w }, ToolsActionView::Done)
            } else {
                (ToolsView { step: ToolsStep::CheckingNode, ..w }, run(NODE_CHECK@))
            }
        },
        ToolsStep::CheckingNode => if r.exit_code != 0 || node_major(r.stdout@) < NODE_MAJOR {
            (ToolsView { step: ToolsStep::InstallingNode, ..v }, run(NODE_INSTALL@))
        } else {
            to_install(v)
        },
        ToolsStep::InstallingNode => if r.exit_code != 0 {
            (
                ToolsView { step: ToolsStep::Over, ..v },
                ToolsActionView::Fail(complaint("failed to install node.js"@, r)),
            )
        } else {
            to_install(v)
        },
        ToolsStep::Installing => (
            ToolsView { step: ToolsStep::Over, ..v },
            if r.exit_code != 0 {
                ToolsActionView::Fail(complaint("failed to install tools"@, r))
            } else {
                ToolsActionView::Done
            },
        ),
        ToolsStep::Over => (v, ToolsActionView::Done),
    }
}

/// The major version in what `node --version` printed, or 0.
pub fn node_version(printed: &str) -> (r: u64)
    ensures
        r == node_major(printed@),
{
    let version: String = trim(printed);
    let major: String = match split_once(&version, '.') {
        Some((a, _rest)) => a,
        None => {
            proof {
                crate::text::lemma_first_index(version@, '.');
                assert(version@.take(first_index(version@, '.')) =~= version@);
            }
            version
        },
    };
    match parse_number(&major, u32::MAX as u64) {
        Some(n) => n,
        None => 0,
    }
}

fn check_script(package: &str) -> (r: String)
    ensures
        r@ == check_text(package@),
{
    let mut out: String = concat("npm list -g ", package);
    out.append(" 2>/dev/null | grep -q ");
    out.append(package);
    out
}

fn install_script(packages: &Vec<String>, assistant: &str) -> (r: String)
    ensures
        r@ == install_text(views(packages@), assistant@),
{
    let mut out: String = concat(
        "apt-get install -y -qq bubblewrap > /dev/null 2>&1; npm install -g ",
        &join(packages, " "),
    );
    out.append(
        " 2>&1 && NODE_BIN=$(which node) && [ -n \"$NODE_BIN\" ] && ln -sf \"$NODE_BIN\" /usr/local/bin/node && NPM_BIN=$(npm prefix -g)/bin && for bin in ",
    );
    out.append(assistant);
    out.append(
        " codex; do   [ -f \"$NPM_BIN/$bin\" ] && ln -sf \"$NPM_BIN/$bin\" /usr/local/bin/$bin; done",
    );
    out
}

fn complaint_text(what: &str, r: &ExecResult) -> (e: String)
    ensures
        e@ == complaint(what@, *r),
{
    let mut e: String = concat(what, " (exit ");
    e.append(&signed_number(r.exit_code));
    e.append("):\n");
    e.append(&r.stdout);
    e.append(&r.stderr);
    e
}

impl Tools {
    /// Begin to install what the user wants: find out what is there.
    pub fn start(assistant: &str, no_claude: bool, no_codex: bool) -> (r: (Tools, ToolsAction))
        ensures
            r.0@.assistant == assistant@,
            r.0@.packages == wanted(assistant@, no_claude, no_codex),
            r.0@.missing.len() == 0,
            sensible(r.0@),
            if no_claude && no_codex {
                r.0@.step == ToolsStep::Over && r.1@ == ToolsActionView::Done
            } else {
                r.0@.step == ToolsStep::Checking(0) && r.1@ == run(
                    check_text(wanted(assistant@, no_claude, no_codex)[0]),
                )
            },
    {
        let mut packages: Vec<String> = Vec::new();
        if !no_claude {
            packages.push(concat(&concat("@anthropic-ai/", assistant), "-code"));
        }
        if !no_codex {
            packages.push("@openai/codex".to_owned());
        }
        assert(views(packages@) =~= wanted(assistant@, no_claude, no_codex));
        if packages.len() == 0 {
            return (
                Tools {
                    assistant: assistant.to_owned(),
                    packages,
                    missing: Vec::new(),
                    step: ToolsStep::Over,
                },
                ToolsAction::Done,
            );
        }
        let script: String = check_script(&packages[0]);
        (
            Tools {
                assistant: assistant.to_owned(),
                packages,
                missing: Vec::new(),
                step: ToolsStep::Checking(0),
            },
            ToolsAction::Run { script, timeout_secs: None },
        )
    }

    fn install(&mut self) -> (r: ToolsAction)
        ensures
            (final(self)@, r@) == to_install(old(self)@),
    {
        self.step = ToolsStep::Installing;
        ToolsAction::Run {
            script: install_script(&self.missing, &self.assistant),
            timeout_secs: Some(INSTALL_TIMEOUT_SECS),
        }
    }

    /// What is to be done next, given what came of the last script.
    pub fn next(&mut self, result: ExecResult) -> (r: ToolsAction)
        requires
            sensible(old(self)@),
        ensures
            (final(self)@, r@) == after(old(self)@, result),
            sensible(final(self)@),
    {
        match self.step {
            ToolsStep::Checking(i) => {
                let ghost before = self.missing@;
                let n: usize = self.packages.len();
                assert(i < n);
                if result.exit_code != 0 {
                    let package: String = self.packages[i].clone();
                    self.missing.push(package);
                    assert(views(self.missing@) =~= views(before).push(
                        views(self.packages@)[i as int],
                    ));
                }
                if i + 1 < n {
                    self.step = ToolsStep::Checking(i + 1);
                    return ToolsAction::Run {
                        script: check_script(&self.packages[i + 1]),
                        timeout_secs: None,
                    };
                }
                if self.missing.len() == 0 {
                    self.step = ToolsStep::Over;
                    return ToolsAction::Done;
                }
                self.step = ToolsStep::CheckingNode;
                ToolsAction::Run { script: NODE_CHECK.to_owned(), timeout_secs: None }
            },
            ToolsStep::CheckingNode => {
                if result.exit_code != 0 || node_version(&result.stdout) < NODE_MAJOR {
                    self.step = ToolsStep::InstallingNode;
                    return ToolsAction::Run {
                        script: NODE_INSTALL.to_owned(),
                        timeout_secs: None,
                    };
                }
                self.install()
            },
            ToolsStep::InstallingNode => {
                if result.exit_code != 0 {
                    self.step = ToolsStep::Over;
                    return ToolsAction::Fail(
                        complaint_text("failed to install node.js", &result),
                    );
                }
                self.install()
            },
            ToolsStep::Installing => {
                self.step = ToolsStep::Over;
                if result.exit_code != 0 {
                    ToolsAction::Fail(complaint_text("failed to install tools", &result))
                } else {
                    ToolsAction::Done
                }
            },
            ToolsStep::Over => ToolsAction::Done,
        }
    }
}

/// What is there is not installed again, and what is missing is installed: a
/// package is noted as missing exactly when its check fails, and with none
/// missing nothing is installed.
pub proof fn law_only_missing(v: ToolsView, r: ExecResult, i: usize)
    requires
        v.step == ToolsStep::Checking(i),
        i < v.packages.len(),
    ensures
        after(v, r).0.missing == (if r.exit_code != 0 {
            v.missing.push(v.packages[i as int])
        } else {
            v.missing
        }),
        i + 1 == v.packages.len() && after(v, r).0.missing.len() == 0 ==> after(v, r).1 is Done,
{
}

/// Which packages are wanted, by name: that of the assistant unless it is left
/// out, and that of Codex unless it is.
pub proof fn law_wanted_packages(assistant: Seq<char>)
    ensures
        wanted(assistant, false, false) == seq![
            "@anthropic-ai/"@ + assistant + "-code"@,
            "@openai/codex"@,
        ],
        wanted(assistant, false, true) == seq!["@anthropic-ai/"@ + assistant + "-code"@],
        wanted(assistant, true, false) == seq!["@openai/codex"@],
        wanted(assistant, true, true) == Seq::<Seq<char>>::empty(),
{
    let one = seq!["@anthropic-ai/"@ + assistant + "-code"@];
    let two = seq!["@openai/codex"@];
    let none = Seq::<Seq<char>>::empty();
    assert(one + two =~= seq![one[0], two[0]]);
    assert(one + none =~= one);
    assert(none + two =~= two);
    assert(none + none =~= none);
}

/// The version of node is what stands before the first dot, blanks aside; what
/// is no number counts as 0.
pub proof fn law_node_version(front: Seq<char>, n: nat, rest: Seq<char>, back: Seq<char>)
    requires
        all_blank(front),
        all_blank(back),
        n <= u32::MAX,
        rest.len() > 0 ==> '!' <= rest.last() && rest.last() <= '~',
    ensures
        node_major(front + (decimal(n) + seq!['.'] + rest) + back) == n,
        node_major(front + decimal(n) + back) == n,
        node_major(front + back) == 0,
{
    lemma_decimal(n);
    let d = decimal(n);
    assert(is_digit(d[0]) && is_digit(d[d.len() - 1]));
    let whole = d + seq!['.'] + rest;
    assert(whole[0] == d[0]);
    assert(whole.last() == if rest.len() > 0 {
        rest.last()
    } else {
        '.'
    });
    law_trimmed_between(front, whole, back);
    law_trimmed_between(front, d, back);
    assert forall|i: int| 0 <= i < d.len() implies d[i] != '.' by {
        assert(is_digit(d[i]));
    }
    law_index_of(d, '.', rest);
    assert(whole.take(d.len() as int) =~= d);
    assert(d.take(d.len() as int) =~= d);
    law_number_read(n, u32::MAX as int, d);
    let none = Seq::<char>::empty();
    law_trimmed_between(front, none, back);
    assert(front + none + back =~= front + back);
    law_index_of(none, '.', none);
    assert(none.take(0) =~= none);
}

/// What an installation does in turn: each package is looked for; where one is
/// missing, node is brought to version 18 or later, and the missing ones are
/// installed, for five minutes at most. A script that fails on the way ends
/// it with what was printed.
pub proof fn law_tools_in_turn(v: ToolsView, r: ExecResult, i: usize)
    requires
        sensible(v),
    ensures
        v.step == ToolsStep::Checking(i) && i + 1 < v.packages.len() ==> after(v, r).0.step
            == ToolsStep::Checking((i + 1) as usize) && after(v, r).1 == (ToolsActionView::Run {
            script: "npm list -g "@ + v.packages[i + 1] + " 2>/dev/null | grep -q "@ + v.packages[i
                + 1],
            timeout_secs: None,
        }),
        v.step == ToolsStep::Checking(i) && i + 1 == v.packages.len() && (r.exit_code != 0
            || v.missing.len() > 0) ==> after(v, r).0.step == ToolsStep::CheckingNode,
        v.step == ToolsStep::CheckingNode ==> {
            let old = r.exit_code != 0 || node_major(r.stdout@) < 18;
            &&& old ==> after(v, r).0.step == ToolsStep::InstallingNode
            &&& !old ==> after(v, r).0.step == ToolsStep::Installing
        },
        v.step == ToolsStep::InstallingNode ==> {
            &&& r.exit_code == 0 ==> after(v, r).0.step == ToolsStep::Installing
            &&& r.exit_code != 0 ==> after(v, r).0.step == ToolsStep::Over && after(v, r).1 is Fail
        },
        after(v, r).0.step == ToolsStep::Installing ==> after(v, r).1 == (ToolsActionView::Run {
            script: install_text(v.missing, v.assistant),
            timeout_secs: Some(300),
        }),
        v.step == ToolsStep::Installing ==> {
            &&& after(v, r).0.step == ToolsStep::Over
            &&& after(v, r).1 is Done <==> r.exit_code == 0
            &&& after(v, r).1 is Fail <==> r.exit_code != 0
        },
        v.step == ToolsStep::Over ==> after(v, r) == (v, ToolsActionView::Done),
        after(v, r).0.packages == v.packages,
        after(v, r).0.assistant == v.assistant,
{
}

/// What is said of a failure gives the exit code and both outputs; what is
/// installed names each package that is missing, with blanks between them.
pub proof fn law_tools_texts(v: ToolsView, r: ExecResult, package: Seq<char>)
    ensures
        v.step == ToolsStep::Installing && r.exit_code != 0 ==> after(v, r).1
            == ToolsActionView::Fail(
            "failed to install tools (exit "@ + signed_decimal(r.exit_code as int) + "):\n"@
                + r.stdout@ + r.stderr@,
        ),
        v.step == ToolsStep::InstallingNode && r.exit_code != 0 ==> after(v, r).1
            == ToolsActionView::Fail(
            "failed to install node.js (exit "@ + signed_decimal(r.exit_code as int) + "):\n"@
                + r.stdout@ + r.stderr@,
        ),
        install_text(seq![package], v.assistant)
            == "apt-get install -y -qq bubblewrap > /dev/null 2>&1; npm install -g "@ + package
            + " 2>&1 && NODE_BIN=$(which node) && [ -n \"$NODE_BIN\" ] && ln -sf \"$NODE_BIN\" /usr/local/bin/node && NPM_BIN=$(npm prefix -g)/bin && for bin in "@
            + v.assistant
            + " codex; do   [ -f \"$NPM_BIN/$bin\" ] && ln -sf \"$NPM_BIN/$bin\" /usr/local/bin/$bin; done"@,
{
    reveal_strlit("failed to install tools");
    reveal_strlit("failed to install node.js");
    reveal_strlit("failed to install tools (exit ");
    reveal_strlit("failed to install node.js (exit ");
    reveal_strlit(" (exit ");
    assert("failed to install tools"@ + " (exit "@ =~= "failed to install tools (exit "@);
    assert("failed to install node.js"@ + " (exit "@ =~= "failed to install node.js (exit "@);
}

} // verus!
