//! The tools that an agent calls: identity, groups, messages and its inbox.
use crate::app::{
    answer, check_recipients, draft_reply, group_summaries, open_conversation, opening, present,
    present_messages, relevant, relevant_messages, reply_fault, strangers_fault, summaries_of,
    target_fault, validate_target_group, with_presence, Payload,
};
use crate::clock::{nanoseconds, on_clock, span, Interval, Moment};
use crate::error::{failure, failure_around, fault, BoardError};
use crate::model::{
    copy_messages, Agent, AgentStatus, AgentView, Group, GroupSummary, GroupSummaryView, Membership,
    Message, MessageView, Presence,
};
use crate::path::{file_name, last_name};
use crate::storage::{
    agent_statuses_at, group_members, is_slug_char, lower, lower_case, members_of, statuses_of,
    BoardState, BoardView, MessageDraft, ScanResult,
};
use crate::collections::listing;
use crate::text::{chars_of, joined, joined3, text_option, texts, views};
use vstd::prelude::*;

verus! {

/// How a tool server is run.
#[derive(Debug, PartialEq, Eq)]
pub struct McpOptions {
    pub root: String,
    pub project: String,
    pub session: String,
    pub project_path: String,
    pub poll_interval: Interval,
}

/// A tool server of one agent: what it knows of the board, the messages that
/// wait for the agent, and those that it was given but has not acknowledged.
pub struct ZboardServer {
    pub root: String,
    pub agent: Agent,
    pub poll_interval: Interval,
    pub board: BoardState,
    pub inbox: Vec<Message>,
    pub pending_ack: Vec<Message>,
}

/// The content of a [`ZboardServer`].
#[verifier::ext_equal]
pub struct ServerView {
    pub root: Seq<char>,
    pub agent: AgentView,
    pub poll_interval: Interval,
    pub board: BoardView,
    pub inbox: Seq<MessageView>,
    pub pending_ack: Seq<MessageView>,
}

impl View for ZboardServer {
    type V = ServerView;

    open spec fn view(&self) -> ServerView {
        ServerView {
            root: self.root@,
            agent: self.agent@,
            poll_interval: self.poll_interval,
            board: self.board@,
            inbox: views(self.inbox@),
            pending_ack: views(self.pending_ack@),
        }
    }
}

/// Texts with `"; "` between them.
pub open spec fn with_semicolons(list: Seq<Seq<char>>) -> Seq<char>
    decreases list.len(),
{
    if list.len() == 0 {
        seq![]
    } else if list.len() == 1 {
        list[0]
    } else {
        with_semicolons(list.drop_last()) + "; "@ + list.last()
    }
}

fn join_semicolons(list: &Vec<String>) -> (r: String)
    ensures
        r@ == with_semicolons(texts(list@)),
{
    let mut out: String = String::new();
    let ghost all = texts(list@);
    let mut i: usize = 0;
    assert(out@ =~= with_semicolons(all.take(0)));
    while i < list.len()
        invariant
            i <= list@.len(),
            all == texts(list@),
            out@ == with_semicolons(all.take(i as int)),
        decreases list@.len() - i,
    {
        assert(all.take(i + 1).drop_last() =~= all.take(i as int));
        assert(all.take(i + 1).last() == list@[i as int]@);
        if i == 0 {
            out = list[i].clone();
        } else {
            out = joined3(out.as_str(), "; ", list[i].as_str());
        }
        i += 1;
    }
    assert(all.take(i as int) =~= all);
    out
}

/// A new tool server, the messages to acknowledge at once, and a line for the
/// log if the first scan had warnings.
pub struct Opened {
    pub server: ZboardServer,
    pub acknowledge: Vec<Message>,
    pub log: Option<String>,
}

/// The longest wait of a poll, in milliseconds.
pub const LONGEST_WAIT: u64 = 30_000;

/// How long a poll waits at most, in milliseconds, and how many messages it
/// gives at most.
pub struct PollBounds {
    pub timeout_ms: u64,
    pub limit: usize,
}

/// How many messages a poll gives at most: 50 if not said otherwise, one at
/// least and 1000 at most.
pub open spec fn poll_limit(limit: Option<usize>) -> int {
    match limit {
        None => 50,
        Some(wanted) => if wanted < 1 {
            1
        } else if wanted > 1000 {
            1000
        } else {
            wanted as int
        },
    }
}

/// How long a poll waits at most: not at all if not said otherwise, and never
/// longer than 30 seconds.
pub open spec fn poll_timeout(timeout_ms: Option<u64>) -> int {
    match timeout_ms {
        None => 0,
        Some(wanted) => if wanted < LONGEST_WAIT {
            wanted as int
        } else {
            LONGEST_WAIT as int
        },
    }
}

/// The bounds of a poll.
pub fn poll_bounds(timeout_ms: Option<u64>, limit: Option<usize>) -> (r: PollBounds)
    ensures
        r.timeout_ms as int == poll_timeout(timeout_ms),
        r.limit as int == poll_limit(limit),
{
    let timeout_ms: u64 = match timeout_ms {
        None => 0,
        Some(wanted) => if wanted < LONGEST_WAIT {
            wanted
        } else {
            LONGEST_WAIT
        },
    };
    let limit: usize = match limit {
        None => 50,
        Some(wanted) => if wanted < 1 {
            1
        } else if wanted > 1000 {
            1000
        } else {
            wanted
        },
    };
    PollBounds { timeout_ms, limit }
}

/// Why a message to these targets is refused, if it is.
pub open spec fn tool_send_fault(
    board: BoardView,
    agent: AgentView,
    to: Seq<Seq<char>>,
    group: Option<Seq<char>>,
) -> Option<Seq<char>> {
    match group {
        Some(name) => target_fault(board, agent, name),
        None => if to.len() == 0 {
            Some("provide at least one recipient or a group"@)
        } else {
            strangers_fault(board, to)
        },
    }
}

/// How many messages a poll gives from an inbox.
pub open spec fn batch(waiting: nat, limit: nat) -> nat {
    if limit < waiting {
        limit
    } else {
        waiting
    }
}

/// What a poll gives from a server's inbox.
pub open spec fn polled(server: ServerView, limit: nat) -> Seq<MessageView> {
    server.inbox.take(batch(server.inbox.len(), limit) as int)
}

/// A server after a poll has given messages.
pub open spec fn after_poll(server: ServerView, limit: nat) -> ServerView {
    ServerView {
        inbox: server.inbox.skip(batch(server.inbox.len(), limit) as int),
        pending_ack: polled(server, limit),
        ..server
    }
}

impl ZboardServer {
    /// Opens a tool server for a registered agent, after the first scan. An
    /// agent that is new to the board takes the messages that are there as read;
    /// one that resumes finds those that concern it in its inbox.
    pub fn new(
        root: String,
        agent: Agent,
        poll_interval: Interval,
        board: BoardState,
        resumed: bool,
        initial: &ScanResult,
    ) -> (r: Opened)
        ensures
            ({
                let found = present(board@.messages, texts(initial.new_messages@));
                &&& r.server@ == (ServerView {
                    root: root@,
                    agent: agent@,
                    poll_interval,
                    board: board@,
                    inbox: if resumed {
                        relevant(board@, agent@, found)
                    } else {
                        seq![]
                    },
                    pending_ack: seq![],
                })
                &&& views(r.acknowledge@) == if resumed {
                    seq![]
                } else {
                    found
                }
                &&& text_option(r.log) == if initial.warnings@.len() == 0 {
                    None
                } else {
                    Some(
                        "zboard: initial scan warnings: "@ + with_semicolons(
                            texts(initial.warnings@),
                        ),
                    )
                }
            }),
    {
        let found: Vec<Message> = present_messages(&board, &initial.new_messages);
        let none: Vec<Message> = Vec::new();
        assert(views(none@) =~= seq![]);
        let (inbox, acknowledge) = if resumed {
            (relevant_messages(&board, &agent, &found), none)
        } else {
            (none, found)
        };
        let log: Option<String> = if initial.warnings.len() == 0 {
            None
        } else {
            Some(
                joined(
                    "zboard: initial scan warnings: ",
                    join_semicolons(&initial.warnings).as_str(),
                ),
            )
        };
        let pending_ack: Vec<Message> = Vec::new();
        assert(views(pending_ack@) =~= seq![]);
        let server = ZboardServer { root, agent, poll_interval, board, inbox, pending_ack };
        Opened { server, acknowledge, log }
    }

    /// Puts what a scan of the board found new into the inbox, as far as it
    /// concerns the agent, and gives the scan's warnings.
    pub fn refresh(&mut self, result: ScanResult) -> (r: Vec<String>)
        ensures
            final(self)@ == (ServerView {
                inbox: old(self)@.inbox + relevant(
                    old(self)@.board,
                    old(self)@.agent,
                    present(old(self)@.board.messages, texts(result.new_messages@)),
                ),
                ..old(self)@
            }),
            r == result.warnings,
    {
        let found: Vec<Message> = present_messages(&self.board, &result.new_messages);
        let mut concerning: Vec<Message> = relevant_messages(&self.board, &self.agent, &found);
        let ghost had = views(self.inbox@);
        let ghost added = views(concerning@);
        self.inbox.append(&mut concerning);
        assert(views(self.inbox@) =~= had + added);
        result.warnings
    }

    /// Keeps a sign of life that was stored.
    pub fn touch(&mut self, presence: Presence)
        ensures
            final(self)@ == (ServerView {
                board: with_presence(old(self)@.board, old(self)@.agent.id, presence@),
                ..old(self)@
            }),
    {
        self.board.presence.insert(self.agent.id.clone(), presence);
    }

    /// Checks the targets of a message.
    pub fn validate_send(&self, to: &Vec<String>, group: &Option<String>) -> (r: Result<
        (),
        BoardError,
    >)
        ensures
            fault(r) == tool_send_fault(
                self@.board,
                self@.agent,
                texts(to@),
                text_option(*group),
            ),
    {
        match group {
            Some(name) => validate_target_group(&self.board, &self.agent, name.as_str()),
            None => {
                if to.len() == 0 {
                    return Err(failure("provide at least one recipient or a group"));
                }
                check_recipients(&self.board, to)
            },
        }
    }

    /// The agent that the server is for.
    pub fn identity(&self) -> (r: Agent)
        ensures
            r@ == self@.agent,
    {
        self.agent.clone()
    }

    /// The agents of the board with their presence at a time.
    pub fn agents_list(&self, now: Moment) -> (r: Vec<AgentStatus>)
        requires
            on_clock(now),
        ensures
            views(r@) == statuses_of(self@.board, now),
    {
        agent_statuses_at(&self.board, now)
    }

    /// The groups of the board with their members.
    pub fn groups_list(&self) -> (r: Vec<GroupSummary>)
        ensures
            views(r@) == summaries_of(self@.board),
    {
        group_summaries(&self.board)
    }

    /// Keeps a group that was created, and tells of it.
    pub fn group_create(&mut self, group: Group) -> (r: GroupSummary)
        ensures
            final(self)@ == (ServerView {
                board: BoardView {
                    groups: old(self)@.board.groups.insert(group@.name, group@),
                    ..old(self)@.board
                },
                ..old(self)@
            }),
            r@ == (GroupSummaryView {
                name: group@.name,
                created_by: group@.created_by,
                members: seq![],
            }),
    {
        let summary = GroupSummary {
            name: group.name.clone(),
            created_by: group.created_by.clone(),
            members: Vec::new(),
        };
        assert(summary@.members =~= seq![]);
        self.board.groups.insert(group.name.clone(), group);
        summary
    }

    /// Keeps a membership, and tells of its group, if the group is known.
    pub fn group_join(&mut self, membership: Membership, name: &str) -> (r: Result<
        GroupSummary,
        BoardError,
    >)
        ensures
            final(self)@ == (ServerView {
                board: BoardView {
                    memberships: old(self)@.board.memberships.insert(
                        (membership@.group, membership@.agent),
                    ),
                    ..old(self)@.board
                },
                ..old(self)@
            }),
            match r {
                Ok(summary) => old(self)@.board.groups.contains_key(name@) && summary@ == (
                GroupSummaryView {
                    name: old(self)@.board.groups[name@].name,
                    created_by: old(self)@.board.groups[name@].created_by,
                    members: listing(members_of(final(self)@.board.memberships, name@)),
                }),
                Err(e) => !old(self)@.board.groups.contains_key(name@) && e@ == "unknown group '"@
                    + name@ + "'"@,
            },
    {
        self.board.memberships.insert(membership.group, membership.agent);
        match self.board.groups.get(name) {
            Some(group) => Ok(
                GroupSummary {
                    name: group.name.clone(),
                    created_by: group.created_by.clone(),
                    members: group_members(&self.board, name),
                },
            ),
            None => Err(failure_around("unknown group '", name, "'")),
        }
    }

    /// The draft of a message to agents or to a group.
    pub fn message_send(&self, to: Vec<String>, group: Option<String>, payload: Payload) -> (r: Result<
        MessageDraft,
        BoardError,
    >)
        ensures
            fault(r) == tool_send_fault(self@.board, self@.agent, texts(to@), text_option(group)),
            r matches Ok(draft) ==> draft@ == opening(texts(to@), text_option(group), payload@),
    {
        match self.validate_send(&to, &group) {
            Ok(()) => Ok(open_conversation(to, group, payload)),
            Err(error) => Err(error),
        }
    }

    /// The draft of a reply.
    pub fn message_reply(&self, message_id: &str, payload: Payload) -> (r: Result<
        MessageDraft,
        BoardError,
    >)
        ensures
            fault(r) == reply_fault(self@.board, self@.agent.id, message_id@),
            r matches Ok(draft) ==> draft@ == answer(
                self@.board.messages[message_id@],
                self@.agent.id,
                payload@,
            ),
    {
        draft_reply(&self.board, self.agent.id.as_str(), message_id, payload)
    }

    /// Keeps a message that was published and acknowledged.
    pub fn message_recorded(&mut self, message: &Message)
        ensures
            final(self)@ == (ServerView {
                board: BoardView {
                    messages: old(self)@.board.messages.insert(message@.id, message@),
                    ..old(self)@.board
                },
                ..old(self)@
            }),
    {
        let copy: Message = message.clone();
        self.board.messages.insert(message.id.clone(), copy);
    }

    /// The beginning of a poll: the messages that the last poll gave, which are
    /// to be acknowledged now.
    pub fn begin_poll(&mut self) -> (r: Vec<Message>)
        ensures
            views(r@) == old(self)@.pending_ack,
            final(self)@ == (ServerView { pending_ack: seq![], ..old(self)@ }),
    {
        let delivered: Vec<Message> = copy_messages(&self.pending_ack);
        self.pending_ack = Vec::new();
        assert(views(self.pending_ack@) =~= seq![]);
        delivered
    }

    /// A poll whose acknowledgment failed: its messages are still to be
    /// acknowledged.
    pub fn abandon_poll(&mut self, delivered: Vec<Message>)
        ensures
            final(self)@ == (ServerView { pending_ack: views(delivered@), ..old(self)@ }),
    {
        self.pending_ack = delivered;
    }

    /// What a poll gives: the first messages of the inbox, once there are any or
    /// the time is up. They are not acknowledged before the next poll.
    pub fn inbox_poll(&mut self, limit: usize, time_is_up: bool) -> (r: Option<Vec<Message>>)
        ensures
            match r {
                Some(messages) => {
                    &&& old(self)@.inbox.len() > 0 || time_is_up
                    &&& views(messages@) == polled(old(self)@, limit as nat)
                    &&& final(self)@ == after_poll(old(self)@, limit as nat)
                },
                None => old(self)@.inbox.len() == 0 && !time_is_up && final(self)@ == old(self)@,
            },
    {
        if self.inbox.len() == 0 && !time_is_up {
            return None;
        }
        let count: usize = if limit < self.inbox.len() {
            limit
        } else {
            self.inbox.len()
        };
        let ghost all = views(self.inbox@);
        let mut given: Vec<Message> = Vec::new();
        let mut rest: Vec<Message> = Vec::new();
        let mut i: usize = 0;
        assert(views(given@) =~= all.take(0));
        assert(views(rest@) =~= all.subrange(count as int, count as int));
        while i < self.inbox.len()
            invariant
                i <= self.inbox@.len(),
                count <= self.inbox@.len(),
                all == views(self.inbox@),
                self@ == old(self)@,
                i <= count ==> views(given@) == all.take(i as int) && views(rest@).len() == 0,
                i > count ==> views(given@) == all.take(count as int) && views(rest@)
                    == all.subrange(count as int, i as int),
            decreases self.inbox@.len() - i,
        {
            let ghost had_given = views(given@);
            let ghost had_rest = views(rest@);
            let copy: Message = self.inbox[i].clone();
            assert(copy@ == all[i as int]);
            if i < count {
                given.push(copy);
                assert(views(given@) =~= had_given.push(all[i as int]));
                assert(all.take(i + 1) =~= had_given.push(all[i as int]));
            } else {
                rest.push(copy);
                assert(views(rest@) =~= had_rest.push(all[i as int]));
                assert(all.subrange(count as int, i + 1) =~= had_rest.push(all[i as int]));
            }
            i += 1;
        }
        assert(views(given@) =~= all.take(count as int));
        assert(views(rest@) =~= all.skip(count as int));
        self.inbox = rest;
        self.pending_ack = copy_messages(&given);
        Some(given)
    }

    /// How long a poll sleeps before it looks again, in nanoseconds: the
    /// server's interval, or what is left of the time.
    pub fn sleep_time(&self, remaining: u128) -> (r: u128)
        ensures
            r as int == if span(self@.poll_interval) < remaining {
                span(self@.poll_interval)
            } else {
                remaining as int
            },
    {
        let interval: u128 = nanoseconds(self.poll_interval);
        if interval < remaining {
            interval
        } else {
            remaining
        }
    }
}

/// A character as it stands in a project's name: small letters, digits, `-` and
/// `_` stay, and what else there is becomes `-`.
pub open spec fn slugged(c: char) -> char {
    if is_slug_char(lower(c)) {
        lower(c)
    } else {
        '-'
    }
}

/// The name of the project in a directory.
pub open spec fn project_of(directory: Seq<char>) -> Option<Seq<char>> {
    match last_name(directory) {
        Some(name) => Some(name.map_values(|c: char| slugged(c))),
        None => None,
    }
}

/// The name of the project in a directory: the directory's own, made a name.
pub fn derived_project(directory: &str) -> (r: Option<String>)
    ensures
        text_option(r) == project_of(directory@),
{
    let name: String = match file_name(directory) {
        Some(name) => name,
        None => {
            return None;
        },
    };
    let chars: Vec<char> = chars_of(name.as_str());
    let ghost wanted = name@.map_values(|c: char| slugged(c));
    let mut out: String = String::new();
    let mut i: usize = 0;
    assert(out@ =~= wanted.take(0));
    while i < chars.len()
        invariant
            i <= chars@.len(),
            chars@ == name@,
            wanted == name@.map_values(|c: char| slugged(c)),
            out@ == wanted.take(i as int),
        decreases chars@.len() - i,
    {
        let c: char = lower_case(chars[i]);
        assert(wanted.take(i + 1) =~= wanted.take(i as int).push(wanted[i as int]));
        if ('a' <= c && c <= 'z') || ('0' <= c && c <= '9') || c == '-' || c == '_' {
            out.push(c);
        } else {
            out.push('-');
        }
        i += 1;
    }
    assert(wanted.take(i as int) =~= wanted);
    Some(out)
}

} // verus!
