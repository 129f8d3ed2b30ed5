//! How a command is started in a sprite: over the control connection, or else
//! over a connection of its own.

use vstd::prelude::*;

use crate::sprites::api::control_url;
use crate::sprites::exec::{
    build_exec_url, control_args, exec_base, exec_pairs, exec_timed_out, fits_url, op_start,
    release_message, url_with_pairs, ExecParams,
};
use crate::text::{concat, decimal};

verus! {

/// How long the control connection may take.
pub const CONTROL_TIMEOUT_SECS: u64 = 5;

/// How long a connection for one command may take.
pub const DIRECT_TIMEOUT_SECS: u64 = 10;

/// How long a command may take, unless something else is said.
pub const EXEC_TIMEOUT_SECS: u64 = 120;

/// What a dial waits for.
#[derive(Debug, PartialEq, Eq, Clone, Copy, Structural)]
pub enum DialStep {
    /// The control connection.
    Control,
    /// That the command is started over it.
    Starting,
    /// A connection for the command alone.
    Direct,
    /// The end of a command over the control connection.
    Controlled,
    /// The end of a command over its own connection.
    Alone,
    /// That the control connection is given back.
    Releasing,
    /// Nothing more.
    Over,
}

/// What came of the last action.
#[derive(Debug, PartialEq, Eq)]
pub enum DialEvent {
    Connected,
    Sent,
    /// The command ended, well or not.
    Ended,
    /// The command took this many seconds, and did not end.
    TimedOut(u64),
    Failed(String),
}

/// What is to be done next.
#[derive(Debug, PartialEq, Eq)]
pub enum DialAction {
    Connect { url: String, timeout_secs: u64 },
    Send(String),
    /// Run the command to its end.
    Run,
    Done,
    Fail(String),
}

/// What is to be done next, as characters.
pub enum DialActionView {
    Connect { url: Seq<char>, timeout_secs: u64 },
    Send(Seq<char>),
    Run,
    Done,
    Fail(Seq<char>),
}

impl View for DialAction {
    type V = DialActionView;

    open spec fn view(&self) -> DialActionView {
        match self {
            DialAction::Connect { url, timeout_secs } => DialActionView::Connect {
                url: url@,
                timeout_secs: *timeout_secs,
            },
            DialAction::Send(text) => DialActionView::Send(text@),
            DialAction::Run => DialActionView::Run,
            DialAction::Done => DialActionView::Done,
            DialAction::Fail(e) => DialActionView::Fail(e@),
        }
    }
}

/// Whether an event belongs to a step.
pub open spec fn expected(step: DialStep, e: DialEvent) -> bool {
    match e {
        DialEvent::Connected => step == DialStep::Control || step == DialStep::Direct,
        DialEvent::Sent => step == DialStep::Starting || step == DialStep::Releasing,
        DialEvent::Ended => step == DialStep::Controlled || step == DialStep::Alone,
        DialEvent::TimedOut(_) => step == DialStep::Controlled || step == DialStep::Alone,
        DialEvent::Failed(_) => step == DialStep::Control || step == DialStep::Starting || step
            == DialStep::Direct || step == DialStep::Releasing,
    }
}

/// The step and the action that a dial begins with.
pub open spec fn dial_begin(p: ExecParams) -> (DialStep, DialActionView) {
    (
        DialStep::Control,
        DialActionView::Connect {
            url: "wss://api.sprites.dev/v1/sprites/"@ + p.sprite_name@ + "/control"@,
            timeout_secs: CONTROL_TIMEOUT_SECS,
        },
    )
}

/// The step and the action that follow when there is no control connection.
pub open spec fn dial_alone(p: ExecParams) -> (DialStep, DialActionView) {
    match url_with_pairs(exec_base(p.sprite_name@), exec_pairs(p)) {
        Ok(url) => (
            DialStep::Direct,
            DialActionView::Connect { url, timeout_secs: DIRECT_TIMEOUT_SECS },
        ),
        Err(e) => (DialStep::Over, DialActionView::Fail("invalid URL: "@ + e)),
    }
}

/// The step and the action that follow an event. An interactive session keeps
/// its control connection to the end; another command gives it back.
pub open spec fn dial_after(p: ExecParams, step: DialStep, e: DialEvent) -> (
    DialStep,
    DialActionView,
) {
    match e {
        DialEvent::Connected => if step == DialStep::Control {
            (
                DialStep::Starting,
                DialActionView::Send(
                    "control:{\"args\":"@ + control_args(p)
                        + ",\"op\":\"exec\",\"type\":\"op.start\"}"@,
                ),
            )
        } else {
            (DialStep::Alone, DialActionView::Run)
        },
        DialEvent::Sent => if step == DialStep::Starting {
            (DialStep::Controlled, DialActionView::Run)
        } else {
            (DialStep::Over, DialActionView::Done)
        },
        DialEvent::Ended => if step == DialStep::Controlled && !p.tty {
            (DialStep::Releasing, DialActionView::Send("{\"type\":\"release\"}"@))
        } else {
            (DialStep::Over, DialActionView::Done)
        },
        DialEvent::TimedOut(seconds) => (
            DialStep::Over,
            DialActionView::Fail("exec timed out after "@ + decimal(seconds as nat) + "s"@),
        ),
        DialEvent::Failed(why) => match step {
            DialStep::Control => dial_alone(p),
            DialStep::Starting => (
                DialStep::Over,
                DialActionView::Fail("failed to send op.start: "@ + why@),
            ),
            DialStep::Releasing => (DialStep::Over, DialActionView::Done),
            _ => (DialStep::Over, DialActionView::Fail(why@)),
        },
    }
}

/// The start of a command.
pub struct Dial {
    params: ExecParams,
    step: DialStep,
}

impl Dial {
    /// The command.
    pub closed spec fn command(&self) -> ExecParams {
        self.params
    }

    /// What is waited for.
    pub closed spec fn at(&self) -> DialStep {
        self.step
    }

    pub fn start(params: ExecParams) -> (r: (Dial, DialAction))
        ensures
            r.0.command() == params,
            (r.0.at(), r.1@) == dial_begin(params),
    {
        let url: String = control_url(&params.sprite_name);
        (
            Dial { params, step: DialStep::Control },
            DialAction::Connect { url, timeout_secs: CONTROL_TIMEOUT_SECS },
        )
    }

    /// What is waited for.
    pub fn step(&self) -> (r: DialStep)
        ensures
            r == self.at(),
    {
        self.step
    }

    /// What is to be done next, given what came of the last action.
    pub fn next(&mut self, event: DialEvent) -> (r: DialAction)
        requires
            expected(old(self).at(), event),
            fits_url(
                exec_base(old(self).command().sprite_name@),
                exec_pairs(old(self).command()),
            ),
        ensures
            final(self).command() == old(self).command(),
            (final(self).at(), r@) == dial_after(old(self).command(), old(self).at(), event),
    {
        match event {
            DialEvent::Connected => {
                if self.step == DialStep::Control {
                    self.step = DialStep::Starting;
                    DialAction::Send(op_start(&self.params))
                } else {
                    self.step = DialStep::Alone;
                    DialAction::Run
                }
            },
            DialEvent::Sent => {
                if self.step == DialStep::Starting {
                    self.step = DialStep::Controlled;
                    DialAction::Run
                } else {
                    self.step = DialStep::Over;
                    DialAction::Done
                }
            },
            DialEvent::Ended => {
                if self.step == DialStep::Controlled && !self.params.tty {
                    self.step = DialStep::Releasing;
                    DialAction::Send(release_message())
                } else {
                    self.step = DialStep::Over;
                    DialAction::Done
                }
            },
            DialEvent::TimedOut(seconds) => {
                self.step = DialStep::Over;
                DialAction::Fail(exec_timed_out(seconds))
            },
            DialEvent::Failed(why) => match self.step {
                DialStep::Control => match build_exec_url(&self.params) {
                    Ok(url) => {
                        self.step = DialStep::Direct;
                        DialAction::Connect { url, timeout_secs: DIRECT_TIMEOUT_SECS }
                    },
                    Err(e) => {
                        self.step = DialStep::Over;
                        DialAction::Fail(e)
                    },
                },
                DialStep::Starting => {
                    self.step = DialStep::Over;
                    DialAction::Fail(concat("failed to send op.start: ", &why))
                },
                DialStep::Releasing => {
                    self.step = DialStep::Over;
                    DialAction::Done
                },
                _ => {
                    self.step = DialStep::Over;
                    DialAction::Fail(why)
                },
            },
        }
    }
}

/// How far a step is from the beginning.
pub open spec fn dial_rank(step: DialStep) -> nat {
    match step {
        DialStep::Control => 0,
        DialStep::Starting => 1,
        DialStep::Direct => 1,
        DialStep::Controlled => 2,
        DialStep::Alone => 2,
        DialStep::Releasing => 3,
        DialStep::Over => 4,
    }
}

/// Every event leads on: a dial connects at most twice, runs its command at
/// most once, and comes to an end, which it tells.
pub proof fn law_dial_ends(p: ExecParams, step: DialStep, e: DialEvent)
    requires
        expected(step, e),
    ensures
        ({
            let (next, action) = dial_after(p, step, e);
            &&& dial_rank(next) > dial_rank(step)
            &&& (action is Done || action is Fail) == (next == DialStep::Over)
            &&& action is Run == (next == DialStep::Controlled || next == DialStep::Alone)
            &&& action is Connect ==> step == DialStep::Control && e is Failed
        }),
{
}

/// A command has a connection of its own only where there is no control
/// connection, and only a control connection is given back.
pub proof fn law_control_first(p: ExecParams, step: DialStep, e: DialEvent)
    requires
        expected(step, e),
    ensures
        ({
            let next = dial_after(p, step, e).0;
            &&& next == DialStep::Direct ==> step == DialStep::Control && e is Failed
            &&& next == DialStep::Alone ==> step == DialStep::Direct
            &&& next == DialStep::Controlled ==> step == DialStep::Starting
            &&& next == DialStep::Starting ==> step == DialStep::Control && e is Connected
            &&& next == DialStep::Releasing ==> step == DialStep::Controlled && !p.tty
        }),
{
}

/// What a dial does: it tries the control connection for five seconds; there
/// it sends the command, runs it, and gives the connection back unless the
/// command has a terminal. Where there is none it tries a connection of its
/// own for ten seconds. What cannot be sent, a time that runs out and a
/// connection that fails end it with the reason.
pub proof fn law_dial_steps(p: ExecParams, seconds: u64, why: String)
    ensures
        dial_begin(p) == (
            DialStep::Control,
            DialActionView::Connect {
                url: "wss://api.sprites.dev/v1/sprites/"@ + p.sprite_name@ + "/control"@,
                timeout_secs: 5,
            },
        ),
        dial_after(p, DialStep::Control, DialEvent::Connected) == (
            DialStep::Starting,
            DialActionView::Send(
                "control:{\"args\":"@ + control_args(p)
                    + ",\"op\":\"exec\",\"type\":\"op.start\"}"@,
            ),
        ),
        dial_after(p, DialStep::Starting, DialEvent::Sent) == (
            DialStep::Controlled,
            DialActionView::Run,
        ),
        !p.tty ==> dial_after(p, DialStep::Controlled, DialEvent::Ended) == (
            DialStep::Releasing,
            DialActionView::Send("{\"type\":\"release\"}"@),
        ),
        p.tty ==> dial_after(p, DialStep::Controlled, DialEvent::Ended) == (
            DialStep::Over,
            DialActionView::Done,
        ),
        dial_after(p, DialStep::Releasing, DialEvent::Sent) == (
            DialStep::Over,
            DialActionView::Done,
        ),
        dial_after(p, DialStep::Releasing, DialEvent::Failed(why)).1 is Done,
        dial_after(p, DialStep::Alone, DialEvent::Ended) == (DialStep::Over, DialActionView::Done),
        dial_after(p, DialStep::Direct, DialEvent::Connected) == (
            DialStep::Alone,
            DialActionView::Run,
        ),
        dial_after(p, DialStep::Control, DialEvent::Failed(why)) == (match url_with_pairs(
            "wss://api.sprites.dev/v1/sprites/"@ + p.sprite_name@ + "/exec"@,
            exec_pairs(p),
        ) {
            Ok(url) => (
                DialStep::Direct,
                DialActionView::Connect { url, timeout_secs: 10 },
            ),
            Err(e) => (DialStep::Over, DialActionView::Fail("invalid URL: "@ + e)),
        }),
        dial_after(p, DialStep::Direct, DialEvent::Failed(why)) == (
            DialStep::Over,
            DialActionView::Fail(why@),
        ),
        dial_after(p, DialStep::Starting, DialEvent::Failed(why)) == (
            DialStep::Over,
            DialActionView::Fail("failed to send op.start: "@ + why@),
        ),
        dial_after(p, DialStep::Controlled, DialEvent::TimedOut(seconds)) == (
            DialStep::Over,
            DialActionView::Fail("exec timed out after "@ + decimal(seconds as nat) + "s"@),
        ),
        dial_after(p, DialStep::Alone, DialEvent::TimedOut(seconds)) == (
            DialStep::Over,
            DialActionView::Fail("exec timed out after "@ + decimal(seconds as nat) + "s"@),
        ),
{
}

/// A command is given two minutes where nobody says how long it may take.
pub proof fn law_command_time()
    ensures
        EXEC_TIMEOUT_SECS == 2 * 60,
{
}

} // verus!
