//! The documents of the board, the commands that it takes and the events that it gives.
use crate::text::{
    copy_option, copy_texts, same_option, same_text, same_texts, text_option, texts, views,
};
use vstd::prelude::*;

verus! {

/// The schema of an agent registration.
pub const AGENT_SCHEMA: &'static str = "aiboard.agent.v1";

/// The schema of a message.
pub const MESSAGE_SCHEMA: &'static str = "aiboard.message.v1";

/// The schema of a group.
pub const GROUP_SCHEMA: &'static str = "aiboard.group.v1";

/// The schema of a membership.
pub const MEMBERSHIP_SCHEMA: &'static str = "aiboard.membership.v1";

/// The schema of a presence document.
pub const PRESENCE_SCHEMA: &'static str = "aiboard.presence.v1";

/// A registered conversation.
#[derive(Debug, PartialEq, Eq)]
pub struct Agent {
    pub schema: String,
    pub id: String,
    pub project: String,
    pub session_id: String,
    pub platform: String,
    pub path: String,
    pub registered_at: String,
}

/// The content of an [`Agent`].
#[verifier::ext_equal]
pub struct AgentView {
    pub schema: Seq<char>,
    pub id: Seq<char>,
    pub project: Seq<char>,
    pub session_id: Seq<char>,
    pub platform: Seq<char>,
    pub path: Seq<char>,
    pub registered_at: Seq<char>,
}

impl View for Agent {
    type V = AgentView;

    open spec fn view(&self) -> AgentView {
        AgentView {
            schema: self.schema@,
            id: self.id@,
            project: self.project@,
            session_id: self.session_id@,
            platform: self.platform@,
            path: self.path@,
            registered_at: self.registered_at@,
        }
    }
}

impl Clone for Agent {
    fn clone(&self) -> (r: Self)
        ensures
            r@ == self@,
    {
        Agent {
            schema: self.schema.clone(),
            id: self.id.clone(),
            project: self.project.clone(),
            session_id: self.session_id.clone(),
            platform: self.platform.clone(),
            path: self.path.clone(),
            registered_at: self.registered_at.clone(),
        }
    }
}

/// A message on the board. `meta` holds the compact text of a JSON value.
#[derive(Debug, PartialEq, Eq)]
pub struct Message {
    pub schema: String,
    pub id: String,
    pub timestamp: String,
    pub from: String,
    pub to: Vec<String>,
    pub group: Option<String>,
    pub thread: String,
    pub reply_to: Option<String>,
    pub message: String,
    pub meta: Option<String>,
    pub expires_at: Option<String>,
}

/// The content of a [`Message`].
#[verifier::ext_equal]
pub struct MessageView {
    pub schema: Seq<char>,
    pub id: Seq<char>,
    pub timestamp: Seq<char>,
    pub from: Seq<char>,
    pub to: Seq<Seq<char>>,
    pub group: Option<Seq<char>>,
    pub thread: Seq<char>,
    pub reply_to: Option<Seq<char>>,
    pub message: Seq<char>,
    pub meta: Option<Seq<char>>,
    pub expires_at: Option<Seq<char>>,
}

impl View for Message {
    type V = MessageView;

    open spec fn view(&self) -> MessageView {
        MessageView {
            schema: self.schema@,
            id: self.id@,
            timestamp: self.timestamp@,
            from: self.from@,
            to: texts(self.to@),
            group: text_option(self.group),
            thread: self.thread@,
            reply_to: text_option(self.reply_to),
            message: self.message@,
            meta: text_option(self.meta),
            expires_at: text_option(self.expires_at),
        }
    }
}

impl Clone for Message {
    fn clone(&self) -> (r: Self)
        ensures
            r@ == self@,
    {
        Message {
            schema: self.schema.clone(),
            id: self.id.clone(),
            timestamp: self.timestamp.clone(),
            from: self.from.clone(),
            to: copy_texts(&self.to),
            group: copy_option(&self.group),
            thread: self.thread.clone(),
            reply_to: copy_option(&self.reply_to),
            message: self.message.clone(),
            meta: copy_option(&self.meta),
            expires_at: copy_option(&self.expires_at),
        }
    }
}

/// A named group.
#[derive(Debug, PartialEq, Eq)]
pub struct Group {
    pub schema: String,
    pub name: String,
    pub created_by: String,
    pub created_at: String,
}

/// The content of a [`Group`].
#[verifier::ext_equal]
pub struct GroupView {
    pub schema: Seq<char>,
    pub name: Seq<char>,
    pub created_by: Seq<char>,
    pub created_at: Seq<char>,
}

impl View for Group {
    type V = GroupView;

    open spec fn view(&self) -> GroupView {
        GroupView {
            schema: self.schema@,
            name: self.name@,
            created_by: self.created_by@,
            created_at: self.created_at@,
        }
    }
}

impl Clone for Group {
    fn clone(&self) -> (r: Self)
        ensures
            r@ == self@,
    {
        Group {
            schema: self.schema.clone(),
            name: self.name.clone(),
            created_by: self.created_by.clone(),
            created_at: self.created_at.clone(),
        }
    }
}

/// One agent's place in a group.
#[derive(Debug, PartialEq, Eq)]
pub struct Membership {
    pub schema: String,
    pub group: String,
    pub agent: String,
    pub joined_at: String,
}

/// The content of a [`Membership`].
#[verifier::ext_equal]
pub struct MembershipView {
    pub schema: Seq<char>,
    pub group: Seq<char>,
    pub agent: Seq<char>,
    pub joined_at: Seq<char>,
}

impl View for Membership {
    type V = MembershipView;

    open spec fn view(&self) -> MembershipView {
        MembershipView {
            schema: self.schema@,
            group: self.group@,
            agent: self.agent@,
            joined_at: self.joined_at@,
        }
    }
}

impl Clone for Membership {
    fn clone(&self) -> (r: Self)
        ensures
            r@ == self@,
    {
        Membership {
            schema: self.schema.clone(),
            group: self.group.clone(),
            agent: self.agent.clone(),
            joined_at: self.joined_at.clone(),
        }
    }
}

/// A sign of life of an agent.
#[derive(Debug, PartialEq, Eq)]
pub struct Presence {
    pub schema: String,
    pub id: String,
    pub agent: String,
    pub last_seen: String,
}

/// The content of a [`Presence`].
#[verifier::ext_equal]
pub struct PresenceView {
    pub schema: Seq<char>,
    pub id: Seq<char>,
    pub agent: Seq<char>,
    pub last_seen: Seq<char>,
}

impl View for Presence {
    type V = PresenceView;

    open spec fn view(&self) -> PresenceView {
        PresenceView {
            schema: self.schema@,
            id: self.id@,
            agent: self.agent@,
            last_seen: self.last_seen@,
        }
    }
}

impl Clone for Presence {
    fn clone(&self) -> (r: Self)
        ensures
            r@ == self@,
    {
        Presence {
            schema: self.schema.clone(),
            id: self.id.clone(),
            agent: self.agent.clone(),
            last_seen: self.last_seen.clone(),
        }
    }
}

/// An agent with its presence.
#[derive(Debug, PartialEq, Eq)]
pub struct AgentStatus {
    pub agent: Agent,
    pub online: bool,
    pub last_seen: Option<String>,
    pub age_seconds: Option<u64>,
}

/// The content of an [`AgentStatus`].
#[verifier::ext_equal]
pub struct AgentStatusView {
    pub agent: AgentView,
    pub online: bool,
    pub last_seen: Option<Seq<char>>,
    pub age_seconds: Option<u64>,
}

impl View for AgentStatus {
    type V = AgentStatusView;

    open spec fn view(&self) -> AgentStatusView {
        AgentStatusView {
            agent: self.agent@,
            online: self.online,
            last_seen: text_option(self.last_seen),
            age_seconds: self.age_seconds,
        }
    }
}

impl Clone for AgentStatus {
    fn clone(&self) -> (r: Self)
        ensures
            r@ == self@,
    {
        AgentStatus {
            agent: self.agent.clone(),
            online: self.online,
            last_seen: copy_option(&self.last_seen),
            age_seconds: self.age_seconds,
        }
    }
}

/// A group with its members.
#[derive(Debug, PartialEq, Eq)]
pub struct GroupSummary {
    pub name: String,
    pub created_by: String,
    pub members: Vec<String>,
}

/// The content of a [`GroupSummary`].
#[verifier::ext_equal]
pub struct GroupSummaryView {
    pub name: Seq<char>,
    pub created_by: Seq<char>,
    pub members: Seq<Seq<char>>,
}

impl View for GroupSummary {
    type V = GroupSummaryView;

    open spec fn view(&self) -> GroupSummaryView {
        GroupSummaryView {
            name: self.name@,
            created_by: self.created_by@,
            members: texts(self.members@),
        }
    }
}

impl Clone for GroupSummary {
    fn clone(&self) -> (r: Self)
        ensures
            r@ == self@,
    {
        GroupSummary {
            name: self.name.clone(),
            created_by: self.created_by.clone(),
            members: copy_texts(&self.members),
        }
    }
}

/// Whether two messages have the same content.
pub fn same_message(a: &Message, b: &Message) -> (r: bool)
    ensures
        r == (a@ == b@),
{
    same_text(a.schema.as_str(), b.schema.as_str()) && same_text(a.id.as_str(), b.id.as_str())
        && same_text(a.timestamp.as_str(), b.timestamp.as_str()) && same_text(
        a.from.as_str(),
        b.from.as_str(),
    ) && same_texts(&a.to, &b.to) && same_option(&a.group, &b.group) && same_text(
        a.thread.as_str(),
        b.thread.as_str(),
    ) && same_option(&a.reply_to, &b.reply_to) && same_text(a.message.as_str(), b.message.as_str())
        && same_option(&a.meta, &b.meta) && same_option(&a.expires_at, &b.expires_at)
}

/// A copy of a list of messages.
pub fn copy_messages(list: &Vec<Message>) -> (r: Vec<Message>)
    ensures
        views(r@) == views(list@),
{
    let mut out: Vec<Message> = Vec::new();
    let mut i: usize = 0;
    while i < list.len()
        invariant
            i <= list@.len(),
            views(out@) == views(list@).take(i as int),
        decreases list@.len() - i,
    {
        let ghost had = views(out@);
        let copy: Message = list[i].clone();
        out.push(copy);
        assert(views(out@) =~= had.push(views(list@)[i as int]));
        assert(views(list@).take(i + 1) =~= views(list@).take(i as int).push(views(list@)[i as int]));
        i += 1;
    }
    assert(views(list@).take(i as int) =~= views(list@));
    out
}

/// A command of a controlling conversation. `meta` holds the compact text of a JSON value.
#[derive(Debug, PartialEq, Eq)]
#[allow(inconsistent_fields)]
pub enum Command {
    Send { to: Vec<String>, group: Option<String>, message: String, meta: Option<String>, ttl_seconds: Option<u64> },
    Reply { to: String, message: String, meta: Option<String>, ttl_seconds: Option<u64> },
    GroupCreate { name: String },
    GroupJoin { name: String },
    Agents,
    Groups,
    History { thread: Option<String>, group: Option<String>, limit: Option<usize> },
    Ping,
}

/// The content of a [`Command`].
#[verifier::ext_equal]
#[allow(inconsistent_fields)]
pub enum CommandView {
    Send { to: Seq<Seq<char>>, group: Option<Seq<char>>, message: Seq<char>, meta: Option<Seq<char>>, ttl_seconds: Option<u64> },
    Reply { to: Seq<char>, message: Seq<char>, meta: Option<Seq<char>>, ttl_seconds: Option<u64> },
    GroupCreate { name: Seq<char> },
    GroupJoin { name: Seq<char> },
    Agents,
    Groups,
    History { thread: Option<Seq<char>>, group: Option<Seq<char>>, limit: Option<usize> },
    Ping,
}

impl View for Command {
    type V = CommandView;

    open spec fn view(&self) -> CommandView {
        match *self {
            Command::Send { to, group, message, meta, ttl_seconds } => CommandView::Send { to: texts(to@), group: text_option(group), message: message@, meta: text_option(meta), ttl_seconds },
            Command::Reply { to, message, meta, ttl_seconds } => CommandView::Reply { to: to@, message: message@, meta: text_option(meta), ttl_seconds },
            Command::GroupCreate { name } => CommandView::GroupCreate { name: name@ },
            Command::GroupJoin { name } => CommandView::GroupJoin { name: name@ },
            Command::Agents => CommandView::Agents,
            Command::Groups => CommandView::Groups,
            Command::History { thread, group, limit } => CommandView::History { thread: text_option(thread), group: text_option(group), limit },
            Command::Ping => CommandView::Ping,
        }
    }
}

/// An event for the controlling conversation.
#[derive(Debug, PartialEq, Eq)]
#[allow(inconsistent_fields)]
pub enum Output {
    Ready { agent: String, latest: Option<String> },
    Sent { id: String },
    Incoming { message: Message },
    Agents { agents: Vec<AgentStatus> },
    Groups { groups: Vec<GroupSummary> },
    History { messages: Vec<Message> },
    GroupCreated { name: String },
    GroupJoined { name: String },
    Pong,
    Warning { message: String },
    Error { op: Option<String>, message: String },
}

/// The content of an [`Output`].
#[verifier::ext_equal]
#[allow(inconsistent_fields)]
pub enum OutputView {
    Ready { agent: Seq<char>, latest: Option<Seq<char>> },
    Sent { id: Seq<char> },
    Incoming { message: MessageView },
    Agents { agents: Seq<AgentStatusView> },
    Groups { groups: Seq<GroupSummaryView> },
    History { messages: Seq<MessageView> },
    GroupCreated { name: Seq<char> },
    GroupJoined { name: Seq<char> },
    Pong,
    Warning { message: Seq<char> },
    Error { op: Option<Seq<char>>, message: Seq<char> },
}

impl View for Output {
    type V = OutputView;

    open spec fn view(&self) -> OutputView {
        match *self {
            Output::Ready { agent, latest } => OutputView::Ready { agent: agent@, latest: text_option(latest) },
            Output::Sent { id } => OutputView::Sent { id: id@ },
            Output::Incoming { message } => OutputView::Incoming { message: message@ },
            Output::Agents { agents } => OutputView::Agents { agents: views(agents@) },
            Output::Groups { groups } => OutputView::Groups { groups: views(groups@) },
            Output::History { messages } => OutputView::History { messages: views(messages@) },
            Output::GroupCreated { name } => OutputView::GroupCreated { name: name@ },
            Output::GroupJoined { name } => OutputView::GroupJoined { name: name@ },
            Output::Pong => OutputView::Pong,
            Output::Warning { message } => OutputView::Warning { message: message@ },
            Output::Error { op, message } => OutputView::Error { op: text_option(op), message: message@ },
        }
    }
}

} // verus!
