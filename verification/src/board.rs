//! A message board for the branches of a repository.
//!
//! Branches register, one of them leads, and messages go from one branch to
//! another. Every branch has a cursor: the last message that it has read.

use vstd::prelude::*;

use crate::naming::{basename, owner, repo_basename, repo_owner, slug, slugify};
use crate::sprites::exec::{lossy_text, utf8_lossy};
use crate::text::{concat, str_eq, trim, trimmed};

verus! {

/// A branch on the board.
#[derive(Debug, PartialEq, Eq)]
pub struct BranchEntry {
    pub branch: String,
    pub sprite_name: String,
    pub leader: bool,
    pub joined_at: String,
}

/// A message on the board. One that is addressed is for that branch alone.
#[derive(Debug, PartialEq, Eq)]
pub struct Message {
    pub id: u64,
    pub from_branch: String,
    pub sprite_name: String,
    pub timestamp: String,
    pub body: String,
    /// Whether the leader posted it to all.
    pub leader_msg: bool,
    pub to: Option<String>,
}

/// How far a branch has read.
#[derive(Debug, PartialEq, Eq)]
pub struct Cursor {
    pub branch_slug: String,
    pub last_seen_id: u64,
}

/// What a branch's entry says.
pub struct BranchView {
    pub branch: Seq<char>,
    pub sprite_name: Seq<char>,
    pub leader: bool,
    pub joined_at: Seq<char>,
}

/// What a message says.
pub struct MessageView {
    pub id: u64,
    pub from_branch: Seq<char>,
    pub sprite_name: Seq<char>,
    pub timestamp: Seq<char>,
    pub body: Seq<char>,
    pub leader_msg: bool,
    pub to: Option<Seq<char>>,
}

impl View for BranchEntry {
    type V = BranchView;

    open spec fn view(&self) -> BranchView {
        BranchView {
            branch: self.branch@,
            sprite_name: self.sprite_name@,
            leader: self.leader,
            joined_at: self.joined_at@,
        }
    }
}

impl View for Message {
    type V = MessageView;

    open spec fn view(&self) -> MessageView {
        MessageView {
            id: self.id,
            from_branch: self.from_branch@,
            sprite_name: self.sprite_name@,
            timestamp: self.timestamp@,
            body: self.body@,
            leader_msg: self.leader_msg,
            to: match self.to {
                Some(t) => Some(t@),
                None => None,
            },
        }
    }
}

impl Clone for BranchEntry {
    fn clone(&self) -> (r: Self)
        ensures
            r@ == self@,
    {
        BranchEntry {
            branch: self.branch.clone(),
            sprite_name: self.sprite_name.clone(),
            leader: self.leader,
            joined_at: self.joined_at.clone(),
        }
    }
}

impl Clone for Message {
    fn clone(&self) -> (r: Self)
        ensures
            r@ == self@,
    {
        Message {
            id: self.id,
            from_branch: self.from_branch.clone(),
            sprite_name: self.sprite_name.clone(),
            timestamp: self.timestamp.clone(),
            body: self.body.clone(),
            leader_msg: self.leader_msg,
            to: match &self.to {
                Some(t) => Some(t.clone()),
                None => None,
            },
        }
    }
}

/// What a sequence of entries says.
pub open spec fn branch_views(v: Seq<BranchEntry>) -> Seq<BranchView> {
    Seq::new(v.len(), |i: int| v[i]@)
}

/// What a sequence of messages says.
pub open spec fn message_views(v: Seq<Message>) -> Seq<MessageView> {
    Seq::new(v.len(), |i: int| v[i]@)
}

/// The cursor under a name: the first one of that name, or 0.
pub open spec fn cursor_in(v: Seq<Cursor>, name: Seq<char>) -> u64
    decreases v.len(),
{
    if v.len() == 0 {
        0
    } else if v[0].branch_slug@ == name {
        v[0].last_seen_id
    } else {
        cursor_in(v.skip(1), name)
    }
}

/// What stands on a board. The cursors are kept under the names of the
/// branches.
pub struct BoardView {
    pub branches: Seq<BranchView>,
    pub messages: Seq<MessageView>,
    pub cursors: Map<Seq<char>, u64>,
}

/// A message board.
pub struct Board {
    branches: Vec<BranchEntry>,
    messages: Vec<Message>,
    cursors: Vec<Cursor>,
}

/// The cursors of all names.
pub open spec fn cursor_map(v: Seq<Cursor>) -> Map<Seq<char>, u64> {
    Map::total(|name: Seq<char>| cursor_in(v, name))
}

impl View for Board {
    type V = BoardView;

    closed spec fn view(&self) -> BoardView {
        BoardView {
            branches: branch_views(self.branches@),
            messages: message_views(self.messages@),
            cursors: cursor_map(self.cursors@),
        }
    }
}

/// Whether a branch is on the board.
pub open spec fn registered(branches: Seq<BranchView>, branch: Seq<char>) -> bool {
    exists|i: int| 0 <= i < branches.len() && (#[trigger] branches[i]).branch == branch
}

/// The branches after one registers: where it is there already, its sprite is
/// brought up to date; otherwise it comes last, and leads where it is the
/// first.
pub open spec fn with_branch(
    branches: Seq<BranchView>,
    branch: Seq<char>,
    sprite_name: Seq<char>,
    now: Seq<char>,
) -> Seq<BranchView> {
    if registered(branches, branch) {
        Seq::new(
            branches.len(),
            |i: int|
                if branches[i].branch == branch {
                    BranchView { sprite_name, ..branches[i] }
                } else {
                    branches[i]
                },
        )
    } else {
        branches.push(
            BranchView { branch, sprite_name, leader: branches.len() == 0, joined_at: now },
        )
    }
}

/// The branches after one takes the lead: no other leads.
pub open spec fn with_leader(branches: Seq<BranchView>, branch: Seq<char>) -> Seq<BranchView> {
    Seq::new(
        branches.len(),
        |i: int| BranchView { leader: branches[i].branch == branch, ..branches[i] },
    )
}

/// The number of the next message.
pub open spec fn next_id(messages: Seq<MessageView>) -> int {
    if messages.len() == 0 {
        1
    } else {
        messages.last().id + 1
    }
}

/// The next message on a board.
pub open spec fn addressed(
    messages: Seq<MessageView>,
    from: Seq<char>,
    sprite_name: Seq<char>,
    now: Seq<char>,
    body: Seq<char>,
    leader_msg: bool,
    to: Seq<char>,
) -> MessageView {
    MessageView {
        id: next_id(messages) as u64,
        from_branch: from,
        sprite_name,
        timestamp: now,
        body,
        leader_msg,
        to: Some(to),
    }
}

/// The branch that leads: the first that is marked.
pub open spec fn leader_of(branches: Seq<BranchView>) -> Option<Seq<char>>
    decreases branches.len(),
{
    if branches.len() == 0 {
        None
    } else if branches[0].leader {
        Some(branches[0].branch)
    } else {
        leader_of(branches.skip(1))
    }
}

/// The branches but one, in order.
pub open spec fn all_but(branches: Seq<BranchView>, branch: Seq<char>) -> Seq<Seq<char>>
    decreases branches.len(),
{
    if branches.len() == 0 {
        Seq::empty()
    } else if branches.last().branch != branch {
        all_but(branches.drop_last(), branch).push(branches.last().branch)
    } else {
        all_but(branches.drop_last(), branch)
    }
}

/// The messages of a board after the leader posted to several branches.
pub open spec fn posted(
    messages: Seq<MessageView>,
    from: Seq<char>,
    sprite_name: Seq<char>,
    now: Seq<char>,
    body: Seq<char>,
    targets: Seq<Seq<char>>,
) -> Seq<MessageView>
    decreases targets.len(),
{
    if targets.len() == 0 {
        messages
    } else {
        let before = posted(messages, from, sprite_name, now, body, targets.drop_last());
        before.push(addressed(before, from, sprite_name, now, body, true, targets.last()))
    }
}

/// Whether a branch sees a message: it is for all, for the branch, or from it.
pub open spec fn visible(m: MessageView, branch: Seq<char>) -> bool {
    match m.to {
        None => true,
        Some(to) => to == branch || m.from_branch == branch,
    }
}

/// The messages that satisfy a condition, in order.
pub open spec fn those(messages: Seq<MessageView>, keep: spec_fn(MessageView) -> bool) -> Seq<
    MessageView,
>
    decreases messages.len(),
{
    if messages.len() == 0 {
        Seq::empty()
    } else if keep(messages.last()) {
        those(messages.drop_last(), keep).push(messages.last())
    } else {
        those(messages.drop_last(), keep)
    }
}

/// Whether a branch sees a message that it has not read. With a sender, only
/// that sender's.
pub open spec fn unread(branch: Seq<char>, cursor: u64, sender: Option<Seq<char>>) -> spec_fn(
    MessageView,
) -> bool {
    |m: MessageView|
        m.id > cursor && visible(m, branch) && (sender is Some ==> m.from_branch == sender->0)
}

/// The messages of the leader that a branch sees and has not read.
pub open spec fn leader_news(v: BoardView, branch: Seq<char>) -> Seq<MessageView> {
    match leader_of(v.branches) {
        Some(leader) => those(
            v.messages,
            unread(branch, v.cursors[slug(branch)], Some(leader)),
        ),
        None => Seq::empty(),
    }
}

/// Whether a branch sees a message.
pub open spec fn seen_by(branch: Seq<char>) -> spec_fn(MessageView) -> bool {
    |m: MessageView| visible(m, branch)
}

/// The board after a branch has read messages: its cursor is at the last.
pub open spec fn after_reading(
    v: BoardView,
    branch: Seq<char>,
    read: Seq<MessageView>,
) -> BoardView {
    if read.len() == 0 {
        v
    } else {
        BoardView { cursors: v.cursors.insert(slug(branch), read.last().id), ..v }
    }
}

/// Whether a branch sees a message.
pub fn visible_to(msg: &Message, branch: &str) -> (r: bool)
    ensures
        r == visible(msg@, branch@),
{
    match &msg.to {
        None => true,
        Some(to) => str_eq(to, branch) || str_eq(&msg.from_branch, branch),
    }
}

/// The name of a repository's board: its owner, where it has one, and its name.
pub open spec fn board_slug(repo: Seq<char>) -> Seq<char> {
    if slug(owner(repo)).len() == 0 {
        slug(basename(repo))
    } else {
        slug(owner(repo)) + "-"@ + slug(basename(repo))
    }
}

/// The name under which a repository's board is stored.
pub fn board_name(repo: &str) -> (r: String)
    ensures
        r@ == board_slug(repo@),
{
    let who: String = slugify(&repo_owner(repo));
    let name: String = slugify(&repo_basename(repo));
    proof {
        reveal_strlit("");
        assert(who@ =~= ""@ || who@.len() > 0);
    }
    if str_eq(&who, "") {
        name
    } else {
        concat(&concat(&who, "-"), &name)
    }
}

/// Repositories of one name that belong to different owners have different
/// boards.
pub proof fn law_boards_apart(a: Seq<char>, b: Seq<char>)
    requires
        slug(basename(a)) == slug(basename(b)),
        slug(owner(a)) != slug(owner(b)),
    ensures
        board_slug(a) != board_slug(b),
{
    if board_slug(a) == board_slug(b) {
        let (x, y) = (slug(owner(a)), slug(owner(b)));
        reveal_strlit("-");
        assert(board_slug(a).len() == board_slug(b).len());
        if x.len() > 0 && y.len() > 0 {
            assert(x =~= board_slug(a).take(x.len() as int));
            assert(y =~= board_slug(b).take(x.len() as int));
        } else {
            assert(x =~= y);
        }
    }
}

/// The name of the file that holds a branch's cursor.
pub fn cursor_file(branch: &str) -> (r: String)
    ensures
        r@ == slug(branch@) + ".json"@,
{
    concat(&slugify(branch), ".json")
}

/// The time that was printed, where anything was.
pub fn time_shown(printed: Option<&str>) -> (r: String)
    ensures
        r@ == (match printed {
            Some(text) => trimmed(text@),
            None => "unknown"@,
        }),
{
    match printed {
        Some(text) => trim(text),
        None => "unknown".to_owned(),
    }
}

/// The time that a run of `date` printed, where it succeeded.
pub fn time_text(printed: Option<&[u8]>) -> (r: String)
    ensures
        r@ == (match printed {
            Some(out) => trimmed(utf8_lossy(out@)),
            None => "unknown"@,
        }),
{
    match printed {
        Some(out) => time_shown(Some(&lossy_text(out))),
        None => time_shown(None),
    }
}

impl Board {
    /// A board that holds what was stored.
    pub fn restore(
        branches: Vec<BranchEntry>,
        messages: Vec<Message>,
        cursors: Vec<Cursor>,
    ) -> (r: Self)
        ensures
            r@ == (BoardView {
                branches: branch_views(branches@),
                messages: message_views(messages@),
                cursors: cursor_map(cursors@),
            }),
    {
        Board { branches, messages, cursors }
    }

    /// Register a branch. Gives the branches.
    pub fn register(&mut self, branch: &str, sprite_name: &str, now: &str) -> (r: Vec<BranchEntry>)
        ensures
            final(self)@ == (BoardView {
                branches: with_branch(old(self)@.branches, branch@, sprite_name@, now@),
                ..old(self)@
            }),
            branch_views(r@) == final(self)@.branches,
    {
        let ghost all = branch_views(self.branches@);
        let mut found: bool = false;
        let mut updated: Vec<BranchEntry> = Vec::new();
        let mut i: usize = 0;
        while i < self.branches.len()
            invariant
                i <= self.branches@.len(),
                self@ == old(self)@,
                all == branch_views(self.branches@),
                updated@.len() == i,
                found == exists|k: int| 0 <= k < i && (#[trigger] all[k]).branch == branch@,
                forall|k: int|
                    0 <= k < i ==> (#[trigger] updated@[k])@ == (if all[k].branch == branch@ {
                        BranchView { sprite_name: sprite_name@, ..all[k] }
                    } else {
                        all[k]
                    }),
            decreases self.branches@.len() - i,
        {
            let mut entry: BranchEntry = self.branches[i].clone();
            assert(entry@ == all[i as int]);
            if str_eq(&entry.branch, branch) {
                entry.sprite_name = sprite_name.to_owned();
                found = true;
            }
            updated.push(entry);
            i += 1;
        }
        if found {
            assert(registered(all, branch@));
            assert(branch_views(updated@) =~= with_branch(all, branch@, sprite_name@, now@));
            self.branches = updated;
        } else {
            let leader: bool = self.branches.len() == 0;
            self.branches.push(
                BranchEntry {
                    branch: branch.to_owned(),
                    sprite_name: sprite_name.to_owned(),
                    leader,
                    joined_at: now.to_owned(),
                },
            );
            assert(!registered(all, branch@));
            assert(branch_views(self.branches@) =~= with_branch(
                all,
                branch@,
                sprite_name@,
                now@,
            ));
        }
        self.list_branches()
    }

    fn append_message(
        &mut self,
        branch: &str,
        sprite_name: &str,
        now: &str,
        body: &str,
        leader_msg: bool,
        to: &str,
    ) -> (r: Message)
        requires
            next_id(old(self)@.messages) <= u64::MAX,
        ensures
            r@ == addressed(
                old(self)@.messages,
                branch@,
                sprite_name@,
                now@,
                body@,
                leader_msg,
                to@,
            ),
            final(self)@ == (BoardView { messages: old(self)@.messages.push(r@), ..old(self)@ }),
    {
        let n: usize = self.messages.len();
        proof {
            if n > 0 {
                assert(self@.messages.last() == self.messages@[n - 1]@);
            }
        }
        let id: u64 = if n == 0 {
            1
        } else {
            self.messages[n - 1].id + 1
        };
        let msg = Message {
            id,
            from_branch: branch.to_owned(),
            sprite_name: sprite_name.to_owned(),
            timestamp: now.to_owned(),
            body: body.to_owned(),
            leader_msg,
            to: Some(to.to_owned()),
        };
        let copy: Message = msg.clone();
        self.messages.push(msg);
        assert(message_views(self.messages@) =~= old(self)@.messages.push(copy@));
        copy
    }

    /// Send a message to a branch.
    pub fn send(
        &mut self,
        branch: &str,
        sprite_name: &str,
        to: &str,
        body: &str,
        now: &str,
    ) -> (r: Message)
        requires
            next_id(old(self)@.messages) <= u64::MAX,
        ensures
            r@ == addressed(
                old(self)@.messages,
                branch@,
                sprite_name@,
                now@,
                body@,
                false,
                to@,
            ),
            final(self)@ == (BoardView { messages: old(self)@.messages.push(r@), ..old(self)@ }),
    {
        self.append_message(branch, sprite_name, now, body, false, to)
    }

    /// Send a message of the leader to every other branch, one after another.
    pub fn leader_post(&mut self, branch: &str, sprite_name: &str, body: &str, now: &str) -> (r: Vec<
        Message,
    >)
        requires
            next_id(old(self)@.messages) + old(self)@.branches.len() <= u64::MAX,
        ensures
            final(self)@ == (BoardView {
                messages: posted(
                    old(self)@.messages,
                    branch@,
                    sprite_name@,
                    now@,
                    body@,
                    all_but(old(self)@.branches, branch@),
                ),
                ..old(self)@
            }),
            old(self)@.messages + message_views(r@) == final(self)@.messages,
            r@.len() == all_but(old(self)@.branches, branch@).len(),
    {
        let ghost start = self@;
        let mut sent: Vec<Message> = Vec::new();
        let mut i: usize = 0;
        let n: usize = self.branches.len();
        assert(start.branches.take(0) =~= Seq::empty());
        assert(start.messages + message_views(sent@) =~= start.messages);
        while i < n
            invariant
                i <= n,
                n == start.branches.len(),
                start == old(self)@,
                n == self.branches@.len(),
                next_id(start.messages) + start.branches.len() <= u64::MAX,
                self@ == (BoardView {
                    messages: posted(
                        start.messages,
                        branch@,
                        sprite_name@,
                        now@,
                        body@,
                        all_but(start.branches.take(i as int), branch@),
                    ),
                    ..start
                }),
                start.messages + message_views(sent@) == self@.messages,
                sent@.len() == all_but(start.branches.take(i as int), branch@).len(),
                next_id(self@.messages) <= next_id(start.messages) + i,
            decreases n - i,
        {
            let target: String = self.branches[i].branch.clone();
            proof {
                assert(start.branches.take(i + 1).drop_last() =~= start.branches.take(i as int));
                assert(start.branches.take(i + 1).last() == start.branches[i as int]);
                assert(self@.branches[i as int] == self.branches@[i as int]@);
            }
            if !str_eq(&target, branch) {
                let ghost before = self@.messages;
                let ghost targets = all_but(start.branches.take(i as int), branch@);
                let msg: Message = self.append_message(
                    branch,
                    sprite_name,
                    now,
                    body,
                    true,
                    &target,
                );
                let ghost old_sent = sent@;
                sent.push(msg);
                proof {
                    assert(all_but(start.branches.take(i + 1), branch@) == targets.push(target@));
                    assert(targets.push(target@).drop_last() =~= targets);
                    assert(message_views(sent@) =~= message_views(old_sent).push(msg@));
                    assert(start.messages + message_views(sent@) =~= (start.messages
                        + message_views(old_sent)).push(msg@));
                }
            }
            i += 1;
        }
        assert(start.branches.take(n as int) =~= start.branches);
        sent
    }

    fn find_leader(&self) -> (r: Option<String>)
        ensures
            (match r {
                Some(s) => Some(s@),
                None => None,
            }) == leader_of(self@.branches),
    {
        let mut i: usize = 0;
        let ghost all = branch_views(self.branches@);
        assert(all.skip(0) =~= all);
        while i < self.branches.len()
            invariant
                i <= self.branches@.len(),
                all == branch_views(self.branches@),
                leader_of(all) == leader_of(all.skip(i as int)),
            decreases self.branches@.len() - i,
        {
            assert(all.skip(i as int)[0] == self.branches@[i as int]@);
            assert(all.skip(i as int).skip(1) =~= all.skip(i + 1));
            if self.branches[i].leader {
                return Some(self.branches[i].branch.clone());
            }
            i += 1;
        }
        None
    }

    /// Send a message to the branch that leads. Fails where none leads.
    pub fn send_to_leader(&mut self, branch: &str, sprite_name: &str, body: &str, now: &str) -> (r:
        Result<Message, String>)
        requires
            next_id(old(self)@.messages) <= u64::MAX,
        ensures
            match leader_of(old(self)@.branches) {
                Some(leader) => {
                    &&& r is Ok
                    &&& r->Ok_0@ == addressed(
                        old(self)@.messages,
                        branch@,
                        sprite_name@,
                        now@,
                        body@,
                        false,
                        leader,
                    )
                    &&& final(self)@ == (BoardView {
                        messages: old(self)@.messages.push(r->Ok_0@),
                        ..old(self)@
                    })
                },
                None => {
                    &&& r is Err
                    &&& r->Err_0@ == "no leader registered on the board"@
                    &&& final(self)@ == old(self)@
                },
            },
    {
        match self.find_leader() {
            Some(leader) => Ok(
                self.append_message(branch, sprite_name, now, body, false, &leader),
            ),
            None => Err("no leader registered on the board".to_owned()),
        }
    }

    /// The branches on the board.
    pub fn list_branches(&self) -> (r: Vec<BranchEntry>)
        ensures
            branch_views(r@) == self@.branches,
    {
        let mut out: Vec<BranchEntry> = Vec::new();
        let mut i: usize = 0;
        while i < self.branches.len()
            invariant
                i <= self.branches@.len(),
                out@.len() == i,
                forall|k: int| 0 <= k < i ==> (#[trigger] out@[k])@ == self.branches@[k]@,
            decreases self.branches@.len() - i,
        {
            out.push(self.branches[i].clone());
            i += 1;
        }
        assert(branch_views(out@) =~= self@.branches);
        out
    }

    /// The messages on the board.
    pub fn messages(&self) -> (r: &Vec<Message>)
        ensures
            message_views(r@) == self@.messages,
    {
        &self.messages
    }

    /// All messages that a branch sees.
    pub fn list_all(&self, branch: &str) -> (r: Vec<Message>)
        ensures
            message_views(r@) == those(self@.messages, seen_by(branch@)),
    {
        let ghost all = self@.messages;
        let ghost keep = seen_by(branch@);
        let mut out: Vec<Message> = Vec::new();
        let mut i: usize = 0;
        assert(all.take(0) =~= Seq::empty());
        assert(message_views(out@) =~= those(all.take(0), keep));
        while i < self.messages.len()
            invariant
                i <= self.messages@.len(),
                all == message_views(self.messages@),
                keep == seen_by(branch@),
                message_views(out@) == those(all.take(i as int), keep),
            decreases self.messages@.len() - i,
        {
            let m: &Message = &self.messages[i];
            let ghost before = out@;
            proof {
                assert(all.take(i + 1).drop_last() =~= all.take(i as int));
                assert(all.take(i + 1).last() == m@);
            }
            if visible_to(m, branch) {
                out.push(m.clone());
                assert(message_views(out@) =~= message_views(before).push(m@));
            }
            i += 1;
        }
        assert(all.take(all.len() as int) =~= all);
        out
    }

    /// How far a branch has read.
    pub fn cursor(&self, branch: &str) -> (r: u64)
        ensures
            r == self@.cursors[slug(branch@)],
    {
        let name: String = slugify(branch);
        let mut i: usize = 0;
        assert(self.cursors@.skip(0) =~= self.cursors@);
        while i < self.cursors.len()
            invariant
                i <= self.cursors@.len(),
                name@ == slug(branch@),
                cursor_in(self.cursors@, name@) == cursor_in(self.cursors@.skip(i as int), name@),
            decreases self.cursors@.len() - i,
        {
            assert(self.cursors@.skip(i as int)[0] == self.cursors@[i as int]);
            assert(self.cursors@.skip(i as int).skip(1) =~= self.cursors@.skip(i + 1));
            if str_eq(&self.cursors[i].branch_slug, &name) {
                return self.cursors[i].last_seen_id;
            }
            i += 1;
        }
        0
    }

    fn set_cursor(&mut self, branch: &str, id: u64)
        ensures
            final(self)@ == (BoardView {
                cursors: old(self)@.cursors.insert(slug(branch@), id),
                ..old(self)@
            }),
    {
        let name: String = slugify(branch);
        let ghost before = self.cursors@;
        let ghost map = cursor_map(before).insert(slug(branch@), id);
        let mut i: usize = 0;
        while i < self.cursors.len()
            invariant
                i <= self.cursors@.len(),
                self@ == old(self)@,
                before == self.cursors@,
                name@ == slug(branch@),
                map == cursor_map(before).insert(name@, id),
                forall|k: int| 0 <= k < i ==> (#[trigger] before[k]).branch_slug@ != name@,
            decreases self.cursors@.len() - i,
        {
            if str_eq(&self.cursors[i].branch_slug, &name) {
                let cursor = Cursor { branch_slug: name, last_seen_id: id };
                self.cursors.set(i, cursor);
                proof {
                    assert forall|n: Seq<char>| #[trigger] cursor_in(self.cursors@, n) == (if n
                        == cursor.branch_slug@ {
                        id
                    } else {
                        cursor_in(before, n)
                    }) by {
                        lemma_cursor_updated(before, i as int, cursor, n);
                    }
                    assert(cursor_map(self.cursors@) =~= map);
                }
                return ;
            }
            i += 1;
        }
        let cursor = Cursor { branch_slug: name, last_seen_id: id };
        self.cursors.push(cursor);
        proof {
            assert forall|n: Seq<char>| #[trigger] cursor_in(self.cursors@, n) == (if n
                == cursor.branch_slug@ {
                id
            } else {
                cursor_in(before, n)
            }) by {
                lemma_cursor_added(before, cursor, n);
            }
            assert(cursor_map(self.cursors@) =~= map);
        }
    }

    fn unread_from(&self, branch: &str, sender: Option<&str>) -> (r: Vec<Message>)
        ensures
            message_views(r@) == those(
                self@.messages,
                unread(
                    branch@,
                    self@.cursors[slug(branch@)],
                    match sender {
                        Some(s) => Some(s@),
                        None => None,
                    },
                ),
            ),
    {
        let cursor: u64 = self.cursor(branch);
        let ghost all = self@.messages;
        let ghost who = match sender {
            Some(s) => Some(s@),
            None => None,
        };
        let ghost keep = unread(branch@, cursor, who);
        let mut out: Vec<Message> = Vec::new();
        let mut i: usize = 0;
        assert(all.take(0) =~= Seq::empty());
        assert(message_views(out@) =~= those(all.take(0), keep));
        while i < self.messages.len()
            invariant
                i <= self.messages@.len(),
                all == message_views(self.messages@),
                who == (match sender {
                    Some(s) => Some(s@),
                    None => None,
                }),
                keep == unread(branch@, cursor, who),
                message_views(out@) == those(all.take(i as int), keep),
            decreases self.messages@.len() - i,
        {
            let m: &Message = &self.messages[i];
            let ghost before = out@;
            proof {
                assert(all.take(i + 1).drop_last() =~= all.take(i as int));
                assert(all.take(i + 1).last() == m@);
            }
            let wanted: bool = match sender {
                Some(s) => str_eq(&m.from_branch, s),
                None => true,
            };
            if m.id > cursor && wanted && visible_to(m, branch) {
                out.push(m.clone());
                assert(message_views(out@) =~= message_views(before).push(m@));
            }
            i += 1;
        }
        assert(all.take(all.len() as int) =~= all);
        out
    }

    /// The messages that a branch sees and has not read. They are read then.
    pub fn list_new(&mut self, branch: &str) -> (r: Vec<Message>)
        ensures
            message_views(r@) == those(
                old(self)@.messages,
                unread(branch@, old(self)@.cursors[slug(branch@)], None),
            ),
            final(self)@ == after_reading(old(self)@, branch@, message_views(r@)),
    {
        let read: Vec<Message> = self.unread_from(branch, None);
        let n: usize = read.len();
        if n > 0 {
            assert(message_views(read@).last() == read@[n - 1]@);
            self.set_cursor(branch, read[n - 1].id);
        }
        read
    }

    /// The messages of the leader that a branch sees and has not read. They are
    /// read then.
    pub fn list_from_leader_new(&mut self, branch: &str) -> (r: Vec<Message>)
        ensures
            message_views(r@) == leader_news(old(self)@, branch@),
            final(self)@ == after_reading(old(self)@, branch@, message_views(r@)),
    {
        match self.find_leader() {
            Some(leader) => {
                let read: Vec<Message> = self.unread_from(branch, Some(leader.as_str()));
                let n: usize = read.len();
                if n > 0 {
                    assert(message_views(read@).last() == read@[n - 1]@);
                    self.set_cursor(branch, read[n - 1].id);
                }
                read
            },
            None => {
                let none: Vec<Message> = Vec::new();
                assert(message_views(none@) =~= Seq::empty());
                none
            },
        }
    }

    /// Let a branch lead. Gives the branches.
    pub fn set_leader(&mut self, branch: &str) -> (r: Vec<BranchEntry>)
        ensures
            final(self)@ == (BoardView {
                branches: with_leader(old(self)@.branches, branch@),
                ..old(self)@
            }),
            branch_views(r@) == final(self)@.branches,
    {
        let ghost all = branch_views(self.branches@);
        let mut updated: Vec<BranchEntry> = Vec::new();
        let mut i: usize = 0;
        while i < self.branches.len()
            invariant
                i <= self.branches@.len(),
                self@ == old(self)@,
                all == branch_views(self.branches@),
                updated@.len() == i,
                forall|k: int|
                    0 <= k < i ==> (#[trigger] updated@[k])@ == (BranchView {
                        leader: all[k].branch == branch@,
                        ..all[k]
                    }),
            decreases self.branches@.len() - i,
        {
            let mut entry: BranchEntry = self.branches[i].clone();
            assert(entry@ == all[i as int]);
            entry.leader = str_eq(&entry.branch, branch);
            updated.push(entry);
            i += 1;
        }
        assert(branch_views(updated@) =~= with_leader(all, branch@));
        self.branches = updated;
        self.list_branches()
    }
}

proof fn lemma_cursor_updated(v: Seq<Cursor>, i: int, c: Cursor, name: Seq<char>)
    requires
        0 <= i < v.len(),
        v[i].branch_slug@ == c.branch_slug@,
        forall|k: int| 0 <= k < i ==> (#[trigger] v[k]).branch_slug@ != c.branch_slug@,
    ensures
        cursor_in(v.update(i, c), name) == (if name == c.branch_slug@ {
            c.last_seen_id
        } else {
            cursor_in(v, name)
        }),
    decreases i,
{
    let w = v.update(i, c);
    if i == 0 {
        assert(w.skip(1) =~= v.skip(1));
    } else {
        let rest = v.skip(1);
        assert forall|k: int| 0 <= k < i - 1 implies (#[trigger] rest[k]).branch_slug@
            != c.branch_slug@ by {
            assert(rest[k] == v[k + 1]);
        }
        lemma_cursor_updated(rest, i - 1, c, name);
        assert(w.skip(1) =~= rest.update(i - 1, c));
        assert(v[0].branch_slug@ != c.branch_slug@);
    }
}

proof fn lemma_cursor_added(v: Seq<Cursor>, c: Cursor, name: Seq<char>)
    requires
        forall|k: int| 0 <= k < v.len() ==> (#[trigger] v[k]).branch_slug@ != c.branch_slug@,
    ensures
        cursor_in(v.push(c), name) == (if name == c.branch_slug@ {
            c.last_seen_id
        } else {
            cursor_in(v, name)
        }),
    decreases v.len(),
{
    let w = v.push(c);
    if v.len() == 0 {
        assert(w.skip(1) =~= v);
    } else {
        let rest = v.skip(1);
        assert forall|k: int| 0 <= k < rest.len() implies (#[trigger] rest[k]).branch_slug@
            != c.branch_slug@ by {
            assert(rest[k] == v[k + 1]);
        }
        lemma_cursor_added(rest, c, name);
        assert(w.skip(1) =~= rest.push(c));
        assert(v[0].branch_slug@ != c.branch_slug@);
    }
}

/// Whether no branch is there twice.
pub open spec fn distinct(branches: Seq<BranchView>) -> bool {
    forall|i: int, j: int|
        0 <= i < j < branches.len() ==> (#[trigger] branches[i]).branch != (
        #[trigger] branches[j]).branch
}

/// Whether at most one branch leads.
pub open spec fn single_leader(branches: Seq<BranchView>) -> bool {
    forall|i: int, j: int|
        0 <= i < j < branches.len() ==> !((#[trigger] branches[i]).leader && (
        #[trigger] branches[j]).leader)
}

/// A branch that registers is on the board, once, and the lead does not change
/// hands: the first branch to register leads, a later one does not.
pub proof fn law_register(
    branches: Seq<BranchView>,
    branch: Seq<char>,
    sprite_name: Seq<char>,
    now: Seq<char>,
)
    requires
        distinct(branches),
        single_leader(branches),
    ensures
        distinct(with_branch(branches, branch, sprite_name, now)),
        single_leader(with_branch(branches, branch, sprite_name, now)),
        registered(with_branch(branches, branch, sprite_name, now), branch),
        branches.len() == 0 ==> leader_of(with_branch(branches, branch, sprite_name, now)) == Some(
            branch,
        ),
        branches.len() > 0 ==> leader_of(with_branch(branches, branch, sprite_name, now))
            == leader_of(branches),
{
    let after = with_branch(branches, branch, sprite_name, now);
    if registered(branches, branch) {
        let i = choose|i: int| 0 <= i < branches.len() && (#[trigger] branches[i]).branch == branch;
        assert(after[i].branch == branch);
        assert forall|i: int, j: int| 0 <= i < j < after.len() implies (#[trigger] after[i]).branch
            != (#[trigger] after[j]).branch by {
            assert(after[i].branch == branches[i].branch && after[j].branch == branches[j].branch);
        }
        assert forall|i: int, j: int| 0 <= i < j < after.len() implies !((
        #[trigger] after[i]).leader && (#[trigger] after[j]).leader) by {
            assert(after[i].leader == branches[i].leader && after[j].leader == branches[j].leader);
        }
        lemma_same_leader(branches, after);
    } else {
        assert(after[after.len() - 1].branch == branch);
        assert forall|i: int, j: int| 0 <= i < j < after.len() implies (#[trigger] after[i]).branch
            != (#[trigger] after[j]).branch by {
            assert(after[i] == branches[i]);
            if j < branches.len() {
                assert(after[j] == branches[j]);
            }
        }
        assert forall|i: int, j: int| 0 <= i < j < after.len() implies !((
        #[trigger] after[i]).leader && (#[trigger] after[j]).leader) by {
            assert(after[i] == branches[i]);
            if j < branches.len() {
                assert(after[j] == branches[j]);
            }
        }
        if branches.len() > 0 {
            lemma_leader_pushed(branches, after.last());
        }
    }
}

proof fn lemma_same_leader(a: Seq<BranchView>, b: Seq<BranchView>)
    requires
        a.len() == b.len(),
        forall|i: int|
            0 <= i < a.len() ==> (#[trigger] a[i]).branch == b[i].branch && a[i].leader
                == b[i].leader,
    ensures
        leader_of(a) == leader_of(b),
    decreases a.len(),
{
    if a.len() > 0 {
        assert(a[0].branch == b[0].branch);
        let x = a.skip(1);
        let y = b.skip(1);
        assert forall|i: int| 0 <= i < x.len() implies (#[trigger] x[i]).branch == y[i].branch
            && x[i].leader == y[i].leader by {
            assert(x[i] == a[i + 1] && y[i] == b[i + 1]);
        }
        lemma_same_leader(x, y);
    }
}

proof fn lemma_leader_pushed(a: Seq<BranchView>, e: BranchView)
    requires
        !e.leader,
    ensures
        leader_of(a.push(e)) == leader_of(a),
    decreases a.len(),
{
    reveal_with_fuel(leader_of, 2);
    if a.len() > 0 {
        lemma_leader_pushed(a.skip(1), e);
        assert(a.push(e).skip(1) =~= a.skip(1).push(e));
    }
}

/// The branch that takes the lead is the only one that leads, where it is on
/// the board; no branch comes or goes.
pub proof fn law_set_leader(branches: Seq<BranchView>, branch: Seq<char>)
    requires
        distinct(branches),
    ensures
        distinct(with_leader(branches, branch)),
        single_leader(with_leader(branches, branch)),
        registered(branches, branch) ==> leader_of(with_leader(branches, branch)) == Some(branch),
        !registered(branches, branch) ==> leader_of(with_leader(branches, branch)) is None,
        with_leader(branches, branch).len() == branches.len(),
{
    let after = with_leader(branches, branch);
    assert forall|i: int, j: int| 0 <= i < j < after.len() implies (#[trigger] after[i]).branch != (
    #[trigger] after[j]).branch by {
        assert(after[i].branch == branches[i].branch && after[j].branch == branches[j].branch);
    }
    assert forall|i: int, j: int| 0 <= i < j < after.len() implies !((#[trigger] after[i]).leader
        && (#[trigger] after[j]).leader) by {
        assert(branches[i].branch != branches[j].branch);
    }
    lemma_leader_marked(after, branch);
    if registered(branches, branch) {
        let i = choose|i: int| 0 <= i < branches.len() && (#[trigger] branches[i]).branch == branch;
        assert(after[i].branch == branch);
        assert(registered(after, branch));
    } else if registered(after, branch) {
        let i = choose|i: int| 0 <= i < after.len() && (#[trigger] after[i]).branch == branch;
        assert(branches[i].branch == branch);
    }
}

proof fn lemma_leader_marked(a: Seq<BranchView>, branch: Seq<char>)
    requires
        forall|i: int| 0 <= i < a.len() ==> (#[trigger] a[i]).leader == (a[i].branch == branch),
    ensures
        leader_of(a) == (if registered(a, branch) {
            Some(branch)
        } else {
            None
        }),
    decreases a.len(),
{
    if a.len() > 0 {
        let rest = a.skip(1);
        assert forall|i: int| 0 <= i < rest.len() implies (#[trigger] rest[i]).leader == (
        rest[i].branch == branch) by {
            assert(rest[i] == a[i + 1]);
        }
        lemma_leader_marked(rest, branch);
        if registered(a, branch) && a[0].branch != branch {
            let i = choose|i: int| 0 <= i < a.len() && (#[trigger] a[i]).branch == branch;
            assert(rest[i - 1].branch == branch);
        }
        if registered(rest, branch) {
            let i = choose|i: int| 0 <= i < rest.len() && (#[trigger] rest[i]).branch == branch;
            assert(a[i + 1].branch == branch);
        }
        assert(a[0].leader == (a[0].branch == branch));
    }
}

/// Whether the numbers of messages go up.
pub open spec fn in_order(messages: Seq<MessageView>) -> bool {
    forall|i: int, j: int|
        0 <= i < j < messages.len() ==> (#[trigger] messages[i]).id < (#[trigger] messages[j]).id
}

/// A message that is sent comes last and has the highest number.
pub proof fn law_send_keeps_order(
    messages: Seq<MessageView>,
    from: Seq<char>,
    sprite_name: Seq<char>,
    now: Seq<char>,
    body: Seq<char>,
    leader_msg: bool,
    to: Seq<char>,
)
    requires
        in_order(messages),
        next_id(messages) <= u64::MAX,
    ensures
        in_order(
            messages.push(addressed(messages, from, sprite_name, now, body, leader_msg, to)),
        ),
{
    let m = addressed(messages, from, sprite_name, now, body, leader_msg, to);
    let after = messages.push(m);
    assert forall|i: int, j: int| 0 <= i < j < after.len() implies (#[trigger] after[i]).id < (
    #[trigger] after[j]).id by {
        assert(after[i] == messages[i]);
        if j < messages.len() {
            assert(after[j] == messages[j]);
        } else if i < messages.len() - 1 {
            assert(messages[i].id < messages[messages.len() - 1].id);
        }
    }
}

/// A message that is sent is seen by the branch that it is for, by the branch
/// that sent it, and by no other.
pub proof fn law_direct_message(
    messages: Seq<MessageView>,
    from: Seq<char>,
    sprite_name: Seq<char>,
    now: Seq<char>,
    body: Seq<char>,
    leader_msg: bool,
    to: Seq<char>,
    branch: Seq<char>,
)
    ensures
        visible(addressed(messages, from, sprite_name, now, body, leader_msg, to), branch) <==> (
        branch == to || branch == from),
{
}

/// A message is among those that satisfy a condition exactly when it is on the
/// board and satisfies it.
pub proof fn law_those(
    messages: Seq<MessageView>,
    keep: spec_fn(MessageView) -> bool,
    m: MessageView,
)
    ensures
        those(messages, keep).contains(m) <==> messages.contains(m) && keep(m),
    decreases messages.len(),
{
    if messages.len() > 0 {
        let rest = messages.drop_last();
        let last = messages.last();
        law_those(rest, keep, m);
        let found = those(rest, keep);
        let all = those(messages, keep);
        if messages.contains(m) {
            let i = choose|i: int| 0 <= i < messages.len() && messages[i] == m;
            if i < rest.len() {
                assert(rest[i] == m);
                assert(rest.contains(m));
            }
        }
        if rest.contains(m) {
            let i = choose|i: int| 0 <= i < rest.len() && rest[i] == m;
            assert(messages[i] == m);
        }
        assert(messages[messages.len() - 1] == last);
        if found.contains(m) {
            let i = choose|i: int| 0 <= i < found.len() && found[i] == m;
            assert(all[i] == m);
        }
        if keep(last) {
            assert(all[all.len() - 1] == last);
            if all.contains(m) {
                let i = choose|i: int| 0 <= i < all.len() && all[i] == m;
                if i < found.len() {
                    assert(found[i] == m);
                    assert(found.contains(m));
                }
            }
        }
    }
}

proof fn lemma_last_of_those(messages: Seq<MessageView>, keep: spec_fn(MessageView) -> bool)
    requires
        in_order(messages),
        those(messages, keep).len() > 0,
    ensures
        forall|i: int|
            0 <= i < messages.len() && keep(#[trigger] messages[i]) ==> messages[i].id <= those(
                messages,
                keep,
            ).last().id,
        messages.contains(those(messages, keep).last()),
    decreases messages.len(),
{
    let rest = messages.drop_last();
    let last = messages.last();
    assert(messages[messages.len() - 1] == last);
    if keep(last) {
        assert forall|i: int| 0 <= i < messages.len() && keep(#[trigger] messages[i]) implies
            messages[i].id <= last.id by {
            if i < messages.len() - 1 {
                assert(messages[i].id < messages[messages.len() - 1].id);
            }
        }
    } else {
        assert forall|i: int, j: int| 0 <= i < j < rest.len() implies (#[trigger] rest[i]).id < (
        #[trigger] rest[j]).id by {
            assert(rest[i] == messages[i] && rest[j] == messages[j]);
        }
        lemma_last_of_those(rest, keep);
        let top = those(rest, keep).last();
        let k = choose|k: int| 0 <= k < rest.len() && rest[k] == top;
        assert(messages[k] == top);
        assert forall|i: int| 0 <= i < messages.len() && keep(#[trigger] messages[i]) implies
            messages[i].id <= top.id by {
            assert(i < rest.len());
            assert(rest[i] == messages[i]);
        }
    }
}

proof fn lemma_none(messages: Seq<MessageView>, keep: spec_fn(MessageView) -> bool)
    requires
        forall|i: int| 0 <= i < messages.len() ==> !keep(#[trigger] messages[i]),
    ensures
        those(messages, keep).len() == 0,
    decreases messages.len(),
{
    if messages.len() > 0 {
        let rest = messages.drop_last();
        assert forall|i: int| 0 <= i < rest.len() implies !keep(#[trigger] rest[i]) by {
            assert(rest[i] == messages[i]);
        }
        lemma_none(rest, keep);
        assert(messages[messages.len() - 1] == messages.last());
    }
}

/// What is new is read once: right after a branch has read the new messages,
/// those of one sender or all, there are none of that kind.
pub proof fn law_read_once(v: BoardView, branch: Seq<char>, sender: Option<Seq<char>>)
    requires
        in_order(v.messages),
    ensures
        ({
            let read = those(v.messages, unread(branch, v.cursors[slug(branch)], sender));
            let w = after_reading(v, branch, read);
            &&& those(w.messages, unread(branch, w.cursors[slug(branch)], sender)).len() == 0
            &&& read.len() > 0 ==> w.cursors[slug(branch)] == read.last().id
            &&& read.len() == 0 ==> w == v
        }),
{
    let keep = unread(branch, v.cursors[slug(branch)], sender);
    let read = those(v.messages, keep);
    let w = after_reading(v, branch, read);
    if read.len() > 0 {
        lemma_last_of_those(v.messages, keep);
        law_those(v.messages, keep, read.last());
        assert(read[read.len() - 1] == read.last());
        let next = unread(branch, w.cursors[slug(branch)], sender);
        assert forall|i: int| 0 <= i < v.messages.len() implies !next(#[trigger] v.messages[i]) by {
            if next(v.messages[i]) {
                assert(keep(v.messages[i]));
            }
        }
        lemma_none(v.messages, next);
    }
}

/// The leader's news are read once: right after a branch has read them there
/// are none, and without a leader there never are any. They share the cursor
/// with all other news.
pub proof fn law_leader_read_once(v: BoardView, branch: Seq<char>)
    requires
        in_order(v.messages),
    ensures
        ({
            let read = leader_news(v, branch);
            let w = after_reading(v, branch, read);
            &&& leader_news(w, branch).len() == 0
            &&& leader_of(v.branches) is None ==> read.len() == 0 && w == v
            &&& read.len() > 0 ==> w.cursors[slug(branch)] == read.last().id
            &&& forall|m: MessageView| #[trigger]
                read.contains(m) <==> v.messages.contains(m) && m.id > v.cursors[slug(branch)]
                    && visible(m, branch) && leader_of(v.branches) == Some(m.from_branch)
        }),
{
    if let Some(leader) = leader_of(v.branches) {
        law_read_once(v, branch, Some(leader));
        let keep = unread(branch, v.cursors[slug(branch)], Some(leader));
        let read = leader_news(v, branch);
        assert forall|m: MessageView| #[trigger] read.contains(m) <==> v.messages.contains(m) && m.id
            > v.cursors[slug(branch)] && visible(m, branch) && leader_of(v.branches) == Some(
            m.from_branch,
        ) by {
            law_those(v.messages, keep, m);
        }
    }
}

/// Reading moves no other branch's cursor, and neither branches nor messages.
pub proof fn law_reading_is_private(
    v: BoardView,
    branch: Seq<char>,
    read: Seq<MessageView>,
    other: Seq<char>,
)
    requires
        slug(other) != slug(branch),
    ensures
        after_reading(v, branch, read).cursors[slug(other)] == v.cursors[slug(other)],
        after_reading(v, branch, read).branches == v.branches,
        after_reading(v, branch, read).messages == v.messages,
{
}

/// What the leader posts goes to each of the branches it is for, in order, and
/// what was on the board stays.
pub proof fn law_leader_post(
    messages: Seq<MessageView>,
    from: Seq<char>,
    sprite_name: Seq<char>,
    now: Seq<char>,
    body: Seq<char>,
    targets: Seq<Seq<char>>,
)
    ensures
        ({
            let after = posted(messages, from, sprite_name, now, body, targets);
            &&& after.len() == messages.len() + targets.len()
            &&& after.take(messages.len() as int) == messages
            &&& forall|i: int|
                0 <= i < targets.len() ==> ({
                    let m = #[trigger] after[messages.len() + i];
                    m.to == Some(targets[i]) && m.leader_msg && m.body == body && m.from_branch
                        == from
                })
        }),
    decreases targets.len(),
{
    let after = posted(messages, from, sprite_name, now, body, targets);
    if targets.len() > 0 {
        let rest = targets.drop_last();
        law_leader_post(messages, from, sprite_name, now, body, rest);
        let before = posted(messages, from, sprite_name, now, body, rest);
        assert(after.take(messages.len() as int) =~= before.take(messages.len() as int));
        assert forall|i: int| 0 <= i < targets.len() implies ({
            let m = #[trigger] after[messages.len() + i];
            m.to == Some(targets[i]) && m.leader_msg && m.body == body && m.from_branch == from
        }) by {
            if i < rest.len() {
                assert(before[messages.len() + i] == after[messages.len() + i]);
                assert(rest[i] == targets[i]);
            }
        }
    } else {
        assert(after.take(messages.len() as int) =~= messages);
    }
}

/// Numbers go up also where the leader posts to several branches.
pub proof fn law_leader_post_keeps_order(
    messages: Seq<MessageView>,
    from: Seq<char>,
    sprite_name: Seq<char>,
    now: Seq<char>,
    body: Seq<char>,
    targets: Seq<Seq<char>>,
)
    requires
        in_order(messages),
        next_id(messages) + targets.len() <= u64::MAX,
    ensures
        in_order(posted(messages, from, sprite_name, now, body, targets)),
        next_id(posted(messages, from, sprite_name, now, body, targets)) == next_id(messages)
            + targets.len(),
    decreases targets.len(),
{
    if targets.len() > 0 {
        let rest = targets.drop_last();
        law_leader_post_keeps_order(messages, from, sprite_name, now, body, rest);
        let before = posted(messages, from, sprite_name, now, body, rest);
        law_send_keeps_order(before, from, sprite_name, now, body, true, targets.last());
    }
}

/// The branches that the leader posts to are all that are on the board but its
/// own.
pub proof fn law_leader_targets(branches: Seq<BranchView>, branch: Seq<char>, other: Seq<char>)
    ensures
        all_but(branches, branch).contains(other) <==> registered(branches, other) && other
            != branch,
    decreases branches.len(),
{
    if branches.len() > 0 {
        let rest = branches.drop_last();
        let last = branches.last();
        law_leader_targets(rest, branch, other);
        let found = all_but(rest, branch);
        let all = all_but(branches, branch);
        assert(branches[branches.len() - 1] == last);
        if registered(branches, other) && last.branch != other {
            let i = choose|i: int|
                0 <= i < branches.len() && (#[trigger] branches[i]).branch == other;
            assert(rest[i].branch == other);
        }
        if registered(rest, other) {
            let i = choose|i: int| 0 <= i < rest.len() && (#[trigger] rest[i]).branch == other;
            assert(branches[i].branch == other);
        }
        if found.contains(other) {
            let i = choose|i: int| 0 <= i < found.len() && found[i] == other;
            assert(all[i] == other);
        }
        if last.branch != branch {
            assert(all[all.len() - 1] == last.branch);
            if all.contains(other) {
                let i = choose|i: int| 0 <= i < all.len() && all[i] == other;
                if i < found.len() {
                    assert(found[i] == other);
                    assert(found.contains(other));
                }
            }
        }
    }
}

/// What registering writes down: a new branch comes last, with its sprite and
/// the time; one that is there keeps its place, its lead and the time it
/// joined, and gets the sprite; every other branch stays as it is.
pub proof fn law_registered_entries(
    branches: Seq<BranchView>,
    branch: Seq<char>,
    sprite_name: Seq<char>,
    now: Seq<char>,
    i: int,
)
    ensures
        ({
            let after = with_branch(branches, branch, sprite_name, now);
            &&& (forall|j: int| 0 <= j < branches.len() ==> (#[trigger] branches[j]).branch
                != branch) ==> {
                &&& after.len() == branches.len() + 1
                &&& after.last().branch == branch
                &&& after.last().sprite_name == sprite_name
                &&& after.last().joined_at == now
                &&& after.last().leader <==> branches.len() == 0
                &&& 0 <= i < branches.len() ==> after[i] == branches[i]
            }
            &&& 0 <= i < branches.len() && branches[i].branch == branch ==> {
                &&& after.len() == branches.len()
                &&& after[i].branch == branch
                &&& after[i].sprite_name == sprite_name
                &&& after[i].joined_at == branches[i].joined_at
                &&& after[i].leader == branches[i].leader
            }
            &&& 0 <= i < branches.len() && branches[i].branch != branch ==> after[i] == branches[i]
        }),
{
    if 0 <= i < branches.len() && branches[i].branch == branch {
        assert(registered(branches, branch));
    }
}

/// Taking the lead changes nothing of a branch but whether it leads.
pub proof fn law_lead_taken(branches: Seq<BranchView>, branch: Seq<char>, i: int)
    requires
        0 <= i < branches.len(),
    ensures
        ({
            let after = with_leader(branches, branch);
            &&& after.len() == branches.len()
            &&& after[i].leader <==> branches[i].branch == branch
            &&& after[i].branch == branches[i].branch
            &&& after[i].sprite_name == branches[i].sprite_name
            &&& after[i].joined_at == branches[i].joined_at
        }),
{
}

/// The leader is the first branch that is marked.
pub proof fn law_leader_is_first_marked(branches: Seq<BranchView>, k: int)
    ensures
        0 <= k < branches.len() && branches[k].leader && (forall|i: int|
            0 <= i < k ==> !(#[trigger] branches[i]).leader) ==> leader_of(branches) == Some(
            branches[k].branch,
        ),
        (forall|i: int| 0 <= i < branches.len() ==> !(#[trigger] branches[i]).leader) ==> leader_of(
            branches,
        ) is None,
    decreases branches.len(),
{
    if branches.len() > 0 && !branches[0].leader {
        let rest = branches.skip(1);
        law_leader_is_first_marked(rest, k - 1);
        assert(forall|i: int| 0 <= i < rest.len() ==> #[trigger] rest[i] == branches[i + 1]);
    }
}

/// What a message says is what was sent: the first on a board has the number
/// 1, any other the number after that of the last.
pub proof fn law_message_as_sent(
    messages: Seq<MessageView>,
    from: Seq<char>,
    sprite_name: Seq<char>,
    now: Seq<char>,
    body: Seq<char>,
    leader_msg: bool,
    to: Seq<char>,
)
    requires
        messages.len() > 0 ==> messages.last().id < u64::MAX,
    ensures
        ({
            let m = addressed(messages, from, sprite_name, now, body, leader_msg, to);
            &&& messages.len() == 0 ==> m.id == 1
            &&& messages.len() > 0 ==> m.id == messages.last().id + 1
            &&& m.from_branch == from
            &&& m.sprite_name == sprite_name
            &&& m.timestamp == now
            &&& m.body == body
            &&& m.leader_msg == leader_msg
            &&& m.to == Some(to)
        }),
{
}

/// What the leader posts carries the sprite and the time, too.
pub proof fn law_leader_post_as_sent(
    messages: Seq<MessageView>,
    from: Seq<char>,
    sprite_name: Seq<char>,
    now: Seq<char>,
    body: Seq<char>,
    targets: Seq<Seq<char>>,
    i: int,
)
    requires
        0 <= i < targets.len(),
    ensures
        ({
            let m = posted(messages, from, sprite_name, now, body, targets)[messages.len() + i];
            m.sprite_name == sprite_name && m.timestamp == now && m.leader_msg
        }),
    decreases targets.len(),
{
    let rest = targets.drop_last();
    law_leader_post(messages, from, sprite_name, now, body, rest);
    if i < rest.len() {
        law_leader_post_as_sent(messages, from, sprite_name, now, body, rest, i);
    }
}

/// Messages are read in the order in which they stand on the board, each that
/// satisfies the condition as often as it stands there.
pub proof fn law_those_in_order(messages: Seq<MessageView>, keep: spec_fn(MessageView) -> bool)
    ensures
        those(messages, keep) == messages.filter(keep),
    decreases messages.len(),
{
    reveal(Seq::filter);
    if messages.len() > 0 {
        law_those_in_order(messages.drop_last(), keep);
    } else {
        assert(those(messages, keep) =~= messages.filter(keep));
    }
}

/// What is news to a branch: a message with a number above its cursor that is
/// for all, for the branch, or from it, and, where a sender is asked for, from
/// that sender.
pub proof fn law_news(m: MessageView, branch: Seq<char>, cursor: u64, sender: Seq<char>)
    ensures
        visible(m, branch) <==> (m.to is None || m.to == Some(branch) || m.from_branch == branch),
        seen_by(branch)(m) <==> (m.to is None || m.to == Some(branch) || m.from_branch == branch),
        unread(branch, cursor, None)(m) <==> m.id > cursor && (m.to is None || m.to == Some(branch)
            || m.from_branch == branch),
        unread(branch, cursor, Some(sender))(m) <==> m.id > cursor && m.from_branch == sender && (
        m.to is None || m.to == Some(branch) || m.from_branch == branch),
{
}

/// The leader posts to the branches in the order in which they registered.
pub proof fn law_leader_targets_in_order(branches: Seq<BranchView>, branch: Seq<char>)
    ensures
        all_but(branches, branch) == branches.filter(|b: BranchView| b.branch != branch).map_values(
            |b: BranchView| b.branch,
        ),
    decreases branches.len(),
{
    reveal(Seq::filter);
    let keep = |b: BranchView| b.branch != branch;
    let name = |b: BranchView| b.branch;
    if branches.len() > 0 {
        let rest = branches.drop_last();
        law_leader_targets_in_order(rest, branch);
        let last = branches.last();
        if last.branch != branch {
            assert(rest.filter(keep).push(last).map_values(name) =~= rest.filter(keep).map_values(
                name,
            ).push(last.branch));
        }
    } else {
        assert(all_but(branches, branch) =~= branches.filter(keep).map_values(name));
    }
}

/// A board is named after the owner of its repository, a dash, and the name of
/// the repository; without an owner after its name alone.
pub proof fn law_board_named(repo: Seq<char>)
    ensures
        slug(owner(repo)).len() > 0 ==> board_slug(repo) == slug(owner(repo)) + seq!['-'] + slug(
            basename(repo),
        ),
        slug(owner(repo)).len() == 0 ==> board_slug(repo) == slug(basename(repo)),
{
    reveal_strlit("-");
    assert("-"@ =~= seq!['-']);
}

/// How far a branch has read is what stands first under its name, and 0 where
/// nothing does.
pub proof fn law_cursors(before: Seq<Cursor>, c: Cursor, rest: Seq<Cursor>, name: Seq<char>)
    requires
        forall|i: int| 0 <= i < before.len() ==> (#[trigger] before[i]).branch_slug@ != name,
    ensures
        cursor_map(before)[name] == 0,
        c.branch_slug@ == name ==> cursor_map(before.push(c) + rest)[name] == c.last_seen_id,
    decreases before.len(),
{
    let all = before.push(c) + rest;
    if before.len() > 0 {
        assert(all[0] == before[0]);
        let tail = before.skip(1);
        assert forall|i: int| 0 <= i < tail.len() implies (#[trigger] tail[i]).branch_slug@
            != name by {
            assert(tail[i] == before[i + 1]);
        }
        law_cursors(tail, c, rest, name);
        assert(all.skip(1) =~= tail.push(c) + rest);
    } else {
        assert(all[0] == c);
    }
}

} // verus!
