//! What a sprite asks of the host that the user must allow: to fetch a file and
//! open it, and to put the image on the clipboard into a file. Step by step:
//! what is done next, given what came of the last step.

use vstd::prelude::*;

use crate::sprites::api::{open_file_name, paste_file_name};
use crate::sprites::command::{allowed, open_extension, path_extension};
use crate::text::{concat, decimal, lowered};

verus! {

/// What is asked for.
#[derive(Debug, Clone, Copy, PartialEq, Eq, Structural)]
pub enum RequestKind {
    /// Fetch a file of the sprite and open it on the host.
    Open,
    /// Put the image on the host's clipboard into a file of the sprite.
    Paste,
}

/// What a request waits for.
#[derive(Debug, Clone, Copy, PartialEq, Eq, Structural)]
pub enum RequestStep {
    /// What the user says.
    Asked,
    /// The file of the sprite.
    Fetching,
    /// That it is stored.
    Storing,
    /// That it is opened.
    Showing,
    /// The image on the clipboard.
    Exporting,
    /// Its bytes.
    Reading,
    /// That they are in the sprite.
    Sending,
    /// Nothing more.
    Over,
}

/// What came of a step.
#[derive(Debug, PartialEq, Eq)]
pub enum RequestEvent {
    /// The user was asked: whether it is allowed, or nothing where the prompt
    /// did not go through.
    Answered(Option<bool>),
    /// It was done.
    Went,
    /// It could not be done.
    Broke(String),
}

/// What is to be done next.
#[derive(Debug, PartialEq, Eq)]
pub enum RequestAction {
    /// Ask the user.
    Ask,
    /// Fetch the file from the sprite.
    Fetch,
    /// Store it under a name in the directory for temporary files.
    Store(String),
    /// Open what was stored.
    Show,
    /// Export the image to a name in the directory for temporary files.
    Export(String),
    /// Read what was exported, and remove it.
    Read,
    /// Put it into the file of the sprite.
    Send,
    Done,
    Fail(String),
}

/// What came of a step, as characters.
pub enum RequestEventView {
    Answered(Option<bool>),
    Went,
    Broke(Seq<char>),
}

/// What is to be done next, as characters.
pub enum RequestActionView {
    Ask,
    Fetch,
    Store(Seq<char>),
    Show,
    Export(Seq<char>),
    Read,
    Send,
    Done,
    Fail(Seq<char>),
}

impl View for RequestEvent {
    type V = RequestEventView;

    open spec fn view(&self) -> RequestEventView {
        match self {
            RequestEvent::Answered(a) => RequestEventView::Answered(*a),
            RequestEvent::Went => RequestEventView::Went,
            RequestEvent::Broke(e) => RequestEventView::Broke(e@),
        }
    }
}

impl View for RequestAction {
    type V = RequestActionView;

    open spec fn view(&self) -> RequestActionView {
        match self {
            RequestAction::Ask => RequestActionView::Ask,
            RequestAction::Fetch => RequestActionView::Fetch,
            RequestAction::Store(name) => RequestActionView::Store(name@),
            RequestAction::Show => RequestActionView::Show,
            RequestAction::Export(name) => RequestActionView::Export(name@),
            RequestAction::Read => RequestActionView::Read,
            RequestAction::Send => RequestActionView::Send,
            RequestAction::Done => RequestActionView::Done,
            RequestAction::Fail(e) => RequestActionView::Fail(e@),
        }
    }
}

/// How far a request is.
pub struct RequestView {
    pub kind: RequestKind,
    /// The extension of the file to open.
    pub extension: Seq<char>,
    pub pid: u32,
    pub step: RequestStep,
}

/// A request of a sprite.
#[derive(Debug)]
pub struct HostRequest {
    kind: RequestKind,
    extension: String,
    pid: u32,
    step: RequestStep,
}

impl View for HostRequest {
    type V = RequestView;

    closed spec fn view(&self) -> RequestView {
        RequestView {
            kind: self.kind,
            extension: self.extension@,
            pid: self.pid,
            step: self.step,
        }
    }
}

/// A request at another step.
pub open spec fn at(v: RequestView, step: RequestStep) -> RequestView {
    RequestView { step, ..v }
}

/// A request that ended with an error.
pub open spec fn ended(v: RequestView, e: Seq<char>) -> (RequestView, RequestActionView) {
    (at(v, RequestStep::Over), RequestActionView::Fail(e))
}

/// A request that ended well.
pub open spec fn finished(v: RequestView) -> (RequestView, RequestActionView) {
    (at(v, RequestStep::Over), RequestActionView::Done)
}

/// What follows the user's answer.
pub open spec fn after_answer(v: RequestView, answer: Option<bool>) -> (
    RequestView,
    RequestActionView,
) {
    match (v.kind, answer) {
        (RequestKind::Open, None) => ended(v, "file download prompt failed"@),
        (RequestKind::Open, Some(false)) => finished(v),
        (RequestKind::Open, Some(true)) => (
            at(v, RequestStep::Fetching),
            RequestActionView::Fetch,
        ),
        (RequestKind::Paste, None) => ended(v, "clipboard import prompt failed"@),
        (RequestKind::Paste, Some(false)) => ended(v, "clipboard import denied"@),
        (RequestKind::Paste, Some(true)) => (
            at(v, RequestStep::Exporting),
            RequestActionView::Export("spritebox-paste-"@ + decimal(v.pid as nat) + ".png"@),
        ),
    }
}

/// What follows a step that was done.
pub open spec fn after_done(v: RequestView) -> (RequestView, RequestActionView) {
    match v.step {
        RequestStep::Fetching => (
            at(v, RequestStep::Storing),
            RequestActionView::Store(
                "spritebox-open-"@ + decimal(v.pid as nat) + "."@ + v.extension,
            ),
        ),
        RequestStep::Storing => (at(v, RequestStep::Showing), RequestActionView::Show),
        RequestStep::Exporting => (at(v, RequestStep::Reading), RequestActionView::Read),
        RequestStep::Reading => (at(v, RequestStep::Sending), RequestActionView::Send),
        _ => finished(v),
    }
}

/// What is said of a step that could not be done.
pub open spec fn broken(v: RequestView, e: Seq<char>) -> Seq<char> {
    match v.step {
        RequestStep::Asked => if v.kind == RequestKind::Open {
            "failed to prompt for file download: "@ + e
        } else {
            "failed to prompt for clipboard access: "@ + e
        },
        RequestStep::Storing => "failed to write temp file: "@ + e,
        RequestStep::Showing => "failed to open file: "@ + e,
        RequestStep::Reading => "failed to read temp image: "@ + e,
        _ => e,
    }
}

/// What a request does next.
pub open spec fn proceeds(v: RequestView, e: RequestEventView) -> (RequestView, RequestActionView) {
    match e {
        RequestEventView::Answered(answer) => if v.step == RequestStep::Asked {
            after_answer(v, answer)
        } else {
            finished(v)
        },
        RequestEventView::Went => after_done(v),
        RequestEventView::Broke(msg) => if v.step == RequestStep::Over {
            finished(v)
        } else {
            ended(v, broken(v, msg))
        },
    }
}

impl HostRequest {
    /// Begin to fetch a file and open it: the user is asked, where it is of a
    /// kind that may be opened.
    pub fn open(guest_path: &str, pid: u32) -> (r: (HostRequest, RequestAction))
        ensures
            match path_extension(guest_path@) {
                None => {
                    &&& r.0@.step == RequestStep::Over
                    &&& r.1@ == RequestActionView::Fail("file has no extension"@)
                },
                Some(x) => if allowed(lowered(x)) {
                    &&& r.0@ == (RequestView {
                        kind: RequestKind::Open,
                        extension: lowered(x),
                        pid,
                        step: RequestStep::Asked,
                    })
                    &&& r.1@ == RequestActionView::Ask
                } else {
                    &&& r.0@.step == RequestStep::Over
                    &&& r.1@ == RequestActionView::Fail(
                        lowered(x)
                            + " is not an allowed file type (allowed: html, htm, svg, png, jpg, jpeg, pdf, md, txt, rtf, csv)"@,
                    )
                },
            },
    {
        match open_extension(guest_path) {
            Ok(extension) => {
                let step = RequestStep::Asked;
                (HostRequest { kind: RequestKind::Open, extension, pid, step }, RequestAction::Ask)
            },
            Err(e) => {
                let (extension, step) = (String::new(), RequestStep::Over);
                (
                    HostRequest { kind: RequestKind::Open, extension, pid, step },
                    RequestAction::Fail(e),
                )
            },
        }
    }

    /// Begin to put the image on the clipboard into a file: the user is asked.
    pub fn paste(pid: u32) -> (r: (HostRequest, RequestAction))
        ensures
            r.0@ == (RequestView {
                kind: RequestKind::Paste,
                extension: Seq::empty(),
                pid,
                step: RequestStep::Asked,
            }),
            r.1@ == RequestActionView::Ask,
    {
        let extension: String = String::new();
        assert(extension@ =~= Seq::empty());
        let step = RequestStep::Asked;
        (HostRequest { kind: RequestKind::Paste, extension, pid, step }, RequestAction::Ask)
    }

    fn finish(&mut self) -> (r: RequestAction)
        ensures
            (final(self)@, r@) == finished(old(self)@),
    {
        self.step = RequestStep::Over;
        RequestAction::Done
    }

    fn fail(&mut self, e: String) -> (r: RequestAction)
        ensures
            (final(self)@, r@) == ended(old(self)@, e@),
    {
        self.step = RequestStep::Over;
        RequestAction::Fail(e)
    }

    fn on_answer(&mut self, answer: Option<bool>) -> (r: RequestAction)
        ensures
            (final(self)@, r@) == after_answer(old(self)@, answer),
    {
        match (self.kind, answer) {
            (RequestKind::Open, None) => self.fail("file download prompt failed".to_owned()),
            (RequestKind::Open, Some(yes)) => {
                if yes {
                    self.step = RequestStep::Fetching;
                    RequestAction::Fetch
                } else {
                    self.finish()
                }
            },
            (RequestKind::Paste, None) => self.fail("clipboard import prompt failed".to_owned()),
            (RequestKind::Paste, Some(yes)) => {
                if yes {
                    self.step = RequestStep::Exporting;
                    RequestAction::Export(paste_file_name(self.pid))
                } else {
                    self.fail("clipboard import denied".to_owned())
                }
            },
        }
    }

    fn on_done(&mut self) -> (r: RequestAction)
        ensures
            (final(self)@, r@) == after_done(old(self)@),
    {
        match self.step {
            RequestStep::Fetching => {
                self.step = RequestStep::Storing;
                RequestAction::Store(open_file_name(self.pid, &self.extension))
            },
            RequestStep::Storing => {
                self.step = RequestStep::Showing;
                RequestAction::Show
            },
            RequestStep::Exporting => {
                self.step = RequestStep::Reading;
                RequestAction::Read
            },
            RequestStep::Reading => {
                self.step = RequestStep::Sending;
                RequestAction::Send
            },
            _ => self.finish(),
        }
    }

    fn on_broken(&mut self, e: String) -> (r: RequestAction)
        ensures
            (final(self)@, r@) == ended(old(self)@, broken(old(self)@, e@)),
    {
        let e: String = match self.step {
            RequestStep::Asked => {
                if self.kind == RequestKind::Open {
                    concat("failed to prompt for file download: ", &e)
                } else {
                    concat("failed to prompt for clipboard access: ", &e)
                }
            },
            RequestStep::Storing => concat("failed to write temp file: ", &e),
            RequestStep::Showing => concat("failed to open file: ", &e),
            RequestStep::Reading => concat("failed to read temp image: ", &e),
            _ => e,
        };
        self.fail(e)
    }

    /// What is to be done next, given what came of the last step. An answer
    /// that nobody waits for ends the request.
    pub fn next(&mut self, event: RequestEvent) -> (r: RequestAction)
        ensures
            (final(self)@, r@) == proceeds(old(self)@, event@),
    {
        match event {
            RequestEvent::Answered(answer) => {
                if self.step == RequestStep::Asked {
                    self.on_answer(answer)
                } else {
                    self.finish()
                }
            },
            RequestEvent::Went => self.on_done(),
            RequestEvent::Broke(e) => {
                if self.step == RequestStep::Over {
                    self.finish()
                } else {
                    self.on_broken(e)
                }
            },
        }
    }
}

/// Whether an action touches a file of the sprite or the clipboard of the host.
pub open spec fn needs_consent(a: RequestActionView) -> bool {
    a is Fetch || a is Store || a is Show || a is Export || a is Read || a is Send
}

/// A request after a number of events, and what is then to be done.
pub open spec fn ran(v: RequestView, first: RequestActionView, events: Seq<RequestEventView>) -> (
    RequestView,
    RequestActionView,
)
    decreases events.len(),
{
    if events.len() == 0 {
        (v, first)
    } else {
        proceeds(ran(v, first, events.drop_last()).0, events.last())
    }
}

/// Nothing is fetched, stored, opened or taken from the clipboard unless the
/// user has allowed it: as long as no event says so, the request asks, is done
/// or has failed.
pub proof fn law_nothing_without_consent(v: RequestView, events: Seq<RequestEventView>)
    requires
        v.step == RequestStep::Asked,
        forall|i: int|
            0 <= i < events.len() ==> (#[trigger] events[i]) != RequestEventView::Answered(
                Some(true),
            ),
    ensures
        !needs_consent(ran(v, RequestActionView::Ask, events).1),
        events.len() > 0 ==> ran(v, RequestActionView::Ask, events).0.step == RequestStep::Over,
    decreases events.len(),
{
    if events.len() > 0 {
        let before = events.drop_last();
        assert forall|i: int| 0 <= i < before.len() implies (#[trigger] before[i])
            != RequestEventView::Answered(Some(true)) by {
            assert(before[i] == events[i]);
        }
        law_nothing_without_consent(v, before);
        assert(events[events.len() - 1] == events.last());
    }
}

/// A refusal ends the request, and whatever comes after it changes nothing.
pub proof fn law_refusal_ends(v: RequestView, later: Seq<RequestEventView>)
    requires
        v.step == RequestStep::Asked,
    ensures
        ({
            let (w, a) = proceeds(v, RequestEventView::Answered(Some(false)));
            &&& w.step == RequestStep::Over
            &&& v.kind == RequestKind::Open ==> a is Done
            &&& v.kind == RequestKind::Paste ==> a == RequestActionView::Fail(
                "clipboard import denied"@,
            )
            &&& ran(w, a, later).0 == w
            &&& later.len() > 0 ==> ran(w, a, later).1 is Done
        }),
    decreases later.len(),
{
    if later.len() > 0 {
        law_refusal_ends(v, later.drop_last());
    }
}

/// What an allowed request does, step by step: a file to open is fetched,
/// stored under a name of its own with its extension, and opened; the image on
/// the clipboard is exported under a name of its own, read, and sent.
pub proof fn law_allowed_request_runs(v: RequestView)
    requires
        v.step == RequestStep::Asked,
    ensures
        ({
            let yes = RequestEventView::Answered(Some(true));
            let went = RequestEventView::Went;
            let ask = RequestActionView::Ask;
            let second = ran(v, ask, seq![yes, went]).1;
            let third = ran(v, ask, seq![yes, went, went]).1;
            let fourth = ran(v, ask, seq![yes, went, went, went]);
            let first = ran(v, ask, seq![yes]).1;
            &&& v.kind == RequestKind::Open ==> {
                &&& first is Fetch
                &&& second == RequestActionView::Store(
                    "spritebox-open-"@ + decimal(v.pid as nat) + "."@ + v.extension,
                )
                &&& third is Show
            }
            &&& v.kind == RequestKind::Paste ==> {
                &&& first == RequestActionView::Export(
                    "spritebox-paste-"@ + decimal(v.pid as nat) + ".png"@,
                )
                &&& second is Read
                &&& third is Send
            }
            &&& fourth.1 is Done
            &&& fourth.0.step == RequestStep::Over
        }),
{
    let yes = RequestEventView::Answered(Some(true));
    let went = RequestEventView::Went;
    reveal_with_fuel(ran, 5);
    assert(seq![yes].drop_last() =~= Seq::empty());
    assert(seq![yes, went].drop_last() =~= seq![yes]);
    assert(seq![yes, went, went].drop_last() =~= seq![yes, went]);
    assert(seq![yes, went, went, went].drop_last() =~= seq![yes, went, went]);
}

/// A step that could not be done ends the request, and what is said of it ends
/// with the reason.
pub proof fn law_broken_step_ends(v: RequestView, why: Seq<char>)
    requires
        v.step != RequestStep::Over,
    ensures
        ({
            let (w, a) = proceeds(v, RequestEventView::Broke(why));
            &&& w.step == RequestStep::Over
            &&& a matches RequestActionView::Fail(e) && e.len() >= why.len() && e.skip(
                e.len() - why.len(),
            ) == why
        }),
{
    let e = broken(v, why);
    assert(e.skip(e.len() - why.len()) =~= why);
}

} // verus!
