//! A session that takes commands and gives events, line by line.
use crate::clock::{nanoseconds, on_clock, span, Interval, Moment};
use crate::collections::{in_order, listing};
use crate::error::{failure, failure_around, failure_with, fault, BoardError};
use crate::model::{
    Agent, AgentView, Command, CommandView, Group, GroupSummary, GroupSummaryView, GroupView,
    Membership, Message, MessageView, Output, OutputView, Presence, PresenceView,
};
use crate::path::{ancestors, child, child_path, path_ancestors};
use crate::routed::{project_route, Findings};
use crate::storage::{
    agent_statuses_at, direct_reply_recipients, group_members, is_relevant, lookup, members_of,
    message_is_relevant, others, statuses_of, BoardState, BoardView, DraftView, MessageDraft,
    ScanResult,
};
use crate::text::{chars_of, joined, joined3, same_text, text_option, texts, views};
use vstd::prelude::*;

verus! {

/// How a session is run.
#[derive(Debug, PartialEq, Eq)]
pub struct RunOptions {
    pub root: String,
    pub project: String,
    pub session: String,
    pub project_path: String,
    pub poll_interval: Interval,
}

/// The messages of a board among identifiers, in their order.
pub open spec fn present(messages: Map<Seq<char>, MessageView>, ids: Seq<Seq<char>>) -> Seq<MessageView>
    decreases ids.len(),
{
    if ids.len() == 0 {
        seq![]
    } else {
        let before = present(messages, ids.drop_last());
        if messages.contains_key(ids.last()) {
            before.push(messages[ids.last()])
        } else {
            before
        }
    }
}

/// The messages of a list that concern an agent.
pub open spec fn relevant(board: BoardView, agent: AgentView, list: Seq<MessageView>) -> Seq<MessageView>
    decreases list.len(),
{
    if list.len() == 0 {
        seq![]
    } else {
        let before = relevant(board, agent, list.drop_last());
        if is_relevant(board.memberships, agent, list.last()) {
            before.push(list.last())
        } else {
            before
        }
    }
}

/// A warning for each text.
pub open spec fn warnings_of(list: Seq<Seq<char>>) -> Seq<OutputView> {
    list.map_values(|message: Seq<char>| OutputView::Warning { message })
}

/// An event for each message.
pub open spec fn incoming(list: Seq<MessageView>) -> Seq<OutputView> {
    list.map_values(|message: MessageView| OutputView::Incoming { message })
}

/// The messages of a board among identifiers.
pub fn present_messages(state: &BoardState, ids: &Vec<String>) -> (r: Vec<Message>)
    ensures
        views(r@) == present(state@.messages, texts(ids@)),
{
    let ghost all = texts(ids@);
    let mut out: Vec<Message> = Vec::new();
    let mut i: usize = 0;
    assert(all.take(0) =~= seq![]);
    assert(views(out@) =~= seq![]);
    while i < ids.len()
        invariant
            i <= ids@.len(),
            all == texts(ids@),
            views(out@) == present(state@.messages, all.take(i as int)),
        decreases ids@.len() - i,
    {
        let ghost had = views(out@);
        assert(all.take(i + 1).drop_last() =~= all.take(i as int));
        assert(all.take(i + 1).last() == ids@[i as int]@);
        if let Some(message) = state.messages.get(ids[i].as_str()) {
            let copy: Message = message.clone();
            let ghost added = copy@;
            out.push(copy);
            assert(views(out@) =~= had.push(added));
        }
        i += 1;
    }
    assert(all.take(i as int) =~= all);
    out
}

/// The messages of a list that concern an agent.
pub fn relevant_messages(state: &BoardState, agent: &Agent, list: &Vec<Message>) -> (r: Vec<Message>)
    ensures
        views(r@) == relevant(state@, agent@, views(list@)),
{
    let ghost all = views(list@);
    let mut out: Vec<Message> = Vec::new();
    let mut i: usize = 0;
    assert(all.take(0) =~= seq![]);
    assert(views(out@) =~= seq![]);
    while i < list.len()
        invariant
            i <= list@.len(),
            all == views(list@),
            views(out@) == relevant(state@, agent@, all.take(i as int)),
        decreases list@.len() - i,
    {
        let ghost had = views(out@);
        assert(all.take(i + 1).drop_last() =~= all.take(i as int));
        assert(all.take(i + 1).last() == list@[i as int]@);
        if message_is_relevant(state, agent, &list[i]) {
            let copy: Message = list[i].clone();
            let ghost added = copy@;
            out.push(copy);
            assert(views(out@) =~= had.push(added));
        }
        i += 1;
    }
    assert(all.take(i as int) =~= all);
    out
}

/// Adds a warning for each text to events.
fn push_warnings(outputs: &mut Vec<Output>, list: &Vec<String>)
    ensures
        views(final(outputs)@) == views(old(outputs)@) + warnings_of(texts(list@)),
{
    let ghost start = views(outputs@);
    let ghost all = warnings_of(texts(list@));
    let mut i: usize = 0;
    assert(start =~= start + all.take(0));
    while i < list.len()
        invariant
            i <= list@.len(),
            all == warnings_of(texts(list@)),
            views(outputs@) == start + all.take(i as int),
        decreases list@.len() - i,
    {
        let ghost had = views(outputs@);
        let event = Output::Warning { message: list[i].clone() };
        assert(event@ == all[i as int]);
        outputs.push(event);
        assert(views(outputs@) =~= had.push(all[i as int]));
        assert(start + all.take(i + 1) =~= had.push(all[i as int]));
        i += 1;
    }
    assert(all.take(i as int) =~= all);
}

/// Adds an event for each message to events.
fn push_incoming(outputs: &mut Vec<Output>, list: &Vec<Message>)
    ensures
        views(final(outputs)@) == views(old(outputs)@) + incoming(views(list@)),
{
    let ghost start = views(outputs@);
    let ghost all = incoming(views(list@));
    let mut i: usize = 0;
    assert(start =~= start + all.take(0));
    while i < list.len()
        invariant
            i <= list@.len(),
            all == incoming(views(list@)),
            views(outputs@) == start + all.take(i as int),
        decreases list@.len() - i,
    {
        let ghost had = views(outputs@);
        let event = Output::Incoming { message: list[i].clone() };
        assert(event@ == all[i as int]);
        outputs.push(event);
        assert(views(outputs@) =~= had.push(all[i as int]));
        assert(start + all.take(i + 1) =~= had.push(all[i as int]));
        i += 1;
    }
    assert(all.take(i as int) =~= all);
}

/// How a session starts: the messages to acknowledge at once, the events to
/// give, and the messages to acknowledge after them.
pub struct Startup {
    pub acknowledge_first: Vec<Message>,
    pub outputs: Vec<Output>,
    pub acknowledge_after: Vec<Message>,
}

/// The event of a session that is ready: its agent and the newest message that
/// is known.
pub open spec fn ready(board: BoardView, agent: AgentView) -> OutputView {
    let ids = listing(board.messages.dom());
    OutputView::Ready {
        agent: agent.id,
        latest: if ids.len() == 0 {
            None
        } else {
            Some(ids.last())
        },
    }
}

/// Starts a session whose agent is registered, after the first scan. An agent
/// that is new to the board takes the messages that are there as read; one that
/// resumes gets those that concern it.
pub fn run(state: &BoardState, agent: &Agent, resumed: bool, initial: &ScanResult) -> (r: Startup)
    ensures
        ({
            let found = present(state@.messages, texts(initial.new_messages@));
            let delivered = if resumed {
                relevant(state@, agent@, found)
            } else {
                seq![]
            };
            &&& views(r.acknowledge_first@) == if resumed {
                seq![]
            } else {
                found
            }
            &&& views(r.outputs@) == warnings_of(texts(initial.warnings@)).push(ready(state@, agent@))
                + incoming(delivered)
            &&& views(r.acknowledge_after@) == delivered
        }),
{
    let found: Vec<Message> = present_messages(state, &initial.new_messages);
    let mut outputs: Vec<Output> = Vec::new();
    push_warnings(&mut outputs, &initial.warnings);
    let ghost warnings = warnings_of(texts(initial.warnings@));
    assert(views(outputs@) =~= warnings);
    let count: usize = state.messages.len();
    let latest: Option<String> = if count == 0 {
        None
    } else {
        Some(state.messages.key_at(count - 1).clone())
    };
    let event = Output::Ready { agent: agent.id.clone(), latest };
    assert(event@ == ready(state@, agent@));
    outputs.push(event);
    assert(views(outputs@) =~= warnings.push(ready(state@, agent@)));
    if resumed {
        let delivered: Vec<Message> = relevant_messages(state, agent, &found);
        push_incoming(&mut outputs, &delivered);
        let none: Vec<Message> = Vec::new();
        assert(views(none@) =~= seq![]);
        Startup { acknowledge_first: none, outputs, acknowledge_after: delivered }
    } else {
        let none: Vec<Message> = Vec::new();
        assert(views(none@) =~= seq![]);
        assert(incoming(seq![]) =~= seq![]);
        assert(views(outputs@) =~= views(outputs@) + incoming(seq![]));
        Startup { acknowledge_first: found, outputs, acknowledge_after: none }
    }
}

/// What a scan in the course of a session leads to: events, and messages to
/// acknowledge after them.
pub struct Reconciliation {
    pub outputs: Vec<Output>,
    pub acknowledged: Vec<Message>,
}

/// Tells of what a scan found: its warnings, and the new messages that concern
/// the agent. All new messages are acknowledged.
pub fn reconcile(state: &BoardState, agent: &Agent, result: &ScanResult) -> (r: Reconciliation)
    ensures
        ({
            let found = present(state@.messages, texts(result.new_messages@));
            &&& views(r.outputs@) == warnings_of(texts(result.warnings@)) + incoming(
                relevant(state@, agent@, found),
            )
            &&& views(r.acknowledged@) == found
        }),
{
    let found: Vec<Message> = present_messages(state, &result.new_messages);
    let mut outputs: Vec<Output> = Vec::new();
    push_warnings(&mut outputs, &result.warnings);
    assert(views(outputs@) =~= warnings_of(texts(result.warnings@)));
    let concerning: Vec<Message> = relevant_messages(state, agent, &found);
    push_incoming(&mut outputs, &concerning);
    Reconciliation { outputs, acknowledged: found }
}

/// How Rust shows a list of strings: each in quotes, in square brackets.
pub uninterp spec fn quoted_list(list: Seq<Seq<char>>) -> Seq<char>;

/// `<Vec<String> as Debug>::fmt`, through `format!`. The text is a function of
/// the strings alone.
#[verifier::external_body]
fn debug_text(list: &Vec<String>) -> (r: String)
    ensures
        r@ == quoted_list(texts(list@)),
{
    format!("{list:?}")
}

/// The recipients that are not agents of the board.
pub open spec fn strangers(board: BoardView, recipients: Seq<Seq<char>>) -> Seq<Seq<char>> {
    recipients.filter(|recipient: Seq<char>| !board.agents.contains_key(recipient))
}

/// Why recipients are refused, where some are not agents of the board.
pub open spec fn strangers_fault(board: BoardView, recipients: Seq<Seq<char>>) -> Option<Seq<char>> {
    if strangers(board, recipients).len() > 0 {
        Some("unknown recipient(s): "@ + quoted_list(strangers(board, recipients)))
    } else {
        None
    }
}

/// The recipients that are not agents of the board.
pub fn unknown_recipients(state: &BoardState, recipients: &Vec<String>) -> (r: Vec<String>)
    ensures
        texts(r@) == strangers(state@, texts(recipients@)),
{
    let ghost all = texts(recipients@);
    let ghost keep = |recipient: Seq<char>| !state@.agents.contains_key(recipient);
    let mut out: Vec<String> = Vec::new();
    let mut i: usize = 0;
    proof {
        reveal_with_fuel(Seq::filter, 1);
        assert(all.take(0) =~= seq![]);
        assert(texts(out@) =~= all.take(0).filter(keep));
    }
    while i < recipients.len()
        invariant
            i <= recipients@.len(),
            all == texts(recipients@),
            keep == (|recipient: Seq<char>| !state@.agents.contains_key(recipient)),
            texts(out@) == all.take(i as int).filter(keep),
        decreases recipients@.len() - i,
    {
        let ghost had = texts(out@);
        proof {
            reveal_with_fuel(Seq::filter, 2);
            assert(all.take(i + 1).drop_last() =~= all.take(i as int));
            assert(all.take(i + 1).last() == recipients@[i as int]@);
        }
        if !state.agents.contains(recipients[i].as_str()) {
            out.push(recipients[i].clone());
            assert(texts(out@) =~= had.push(all[i as int]));
        }
        i += 1;
    }
    assert(all.take(i as int) =~= all);
    out
}

/// Checks that recipients are agents of the board.
pub fn check_recipients(state: &BoardState, recipients: &Vec<String>) -> (r: Result<(), BoardError>)
    ensures
        fault(r) == strangers_fault(state@, texts(recipients@)),
{
    let unknown: Vec<String> = unknown_recipients(state, recipients);
    if unknown.len() > 0 {
        return Err(failure_with("unknown recipient(s): ", debug_text(&unknown).as_str()));
    }
    Ok(())
}

/// Why recipients are refused, if they are.
pub open spec fn recipients_fault(board: BoardView, recipients: Seq<Seq<char>>) -> Option<Seq<char>> {
    if recipients.len() == 0 {
        Some("provide at least one recipient"@)
    } else {
        strangers_fault(board, recipients)
    }
}

/// Checks that there are recipients and that all are agents of the board.
pub fn validate_recipients(state: &BoardState, recipients: &Vec<String>) -> (r: Result<(), BoardError>)
    ensures
        fault(r) == recipients_fault(state@, texts(recipients@)),
{
    if recipients.len() == 0 {
        return Err(failure("provide at least one recipient"));
    }
    check_recipients(state, recipients)
}

/// Why an agent may not send to a group, if it may not.
pub open spec fn target_fault(board: BoardView, agent: AgentView, group: Seq<char>) -> Option<Seq<char>> {
    if group == "global"@ || group == project_route(agent.project) {
        None
    } else if !board.groups.contains_key(group) {
        Some("unknown group '"@ + group + "'"@)
    } else if !board.memberships.contains((group, agent.id)) {
        Some("join group '"@ + group + "' before sending to it"@)
    } else {
        None
    }
}

/// Checks that an agent may send to a group: everyone's, its project's, or one
/// that it has joined.
pub fn validate_target_group(state: &BoardState, agent: &Agent, group: &str) -> (r: Result<
    (),
    BoardError,
>)
    ensures
        fault(r) == target_fault(state@, agent@, group@),
{
    let project: String = joined("project:", agent.project.as_str());
    if same_text(group, "global") || same_text(group, project.as_str()) {
        return Ok(());
    }
    if !state.groups.contains(group) {
        return Err(failure_around("unknown group '", group, "'"));
    }
    if !state.memberships.contains(group, agent.id.as_str()) {
        return Err(failure_around("join group '", group, "' before sending to it"));
    }
    Ok(())
}

/// What a message says beside its target.
pub struct Payload {
    pub message: String,
    pub meta: Option<String>,
    pub ttl_seconds: Option<u64>,
}

/// The content of a [`Payload`].
#[verifier::ext_equal]
pub struct PayloadView {
    pub message: Seq<char>,
    pub meta: Option<Seq<char>>,
    pub ttl_seconds: Option<u64>,
}

impl View for Payload {
    type V = PayloadView;

    open spec fn view(&self) -> PayloadView {
        PayloadView {
            message: self.message@,
            meta: text_option(self.meta),
            ttl_seconds: self.ttl_seconds,
        }
    }
}

/// The draft of a message that starts a conversation.
pub open spec fn opening(
    to: Seq<Seq<char>>,
    group: Option<Seq<char>>,
    payload: PayloadView,
) -> DraftView {
    DraftView {
        to,
        group,
        thread: None,
        reply_to: None,
        body: payload.message,
        meta: payload.meta,
        ttl_seconds: payload.ttl_seconds,
    }
}

/// The draft of a message that starts a conversation.
pub fn open_conversation(to: Vec<String>, group: Option<String>, payload: Payload) -> (r: MessageDraft)
    ensures
        r@ == opening(texts(to@), text_option(group), payload@),
{
    MessageDraft {
        to,
        group,
        thread: None,
        reply_to: None,
        body: payload.message,
        meta: payload.meta,
        ttl_seconds: payload.ttl_seconds,
    }
}

/// Whom a reply goes to directly: no one where the parent went to a group.
pub open spec fn reply_recipients(parent: MessageView, agent: Seq<char>) -> Seq<Seq<char>> {
    if parent.group is Some {
        seq![]
    } else {
        listing(others(parent, agent))
    }
}

/// Why a reply is refused, if it is.
pub open spec fn reply_fault(board: BoardView, agent: Seq<char>, to: Seq<char>) -> Option<Seq<char>> {
    match lookup(board.messages, to) {
        None => Some("unknown message '"@ + to + "'"@),
        Some(parent) => if parent.group is None && reply_recipients(parent, agent).len() == 0 {
            Some("reply has no participant other than the current agent"@)
        } else {
            None
        },
    }
}

/// The draft of a reply: it stays in the thread and the group of its parent, or
/// goes to the others who take part.
pub open spec fn answer(parent: MessageView, agent: Seq<char>, payload: PayloadView) -> DraftView {
    DraftView {
        to: reply_recipients(parent, agent),
        group: parent.group,
        thread: Some(parent.thread),
        reply_to: Some(parent.id),
        body: payload.message,
        meta: payload.meta,
        ttl_seconds: payload.ttl_seconds,
    }
}

/// The draft of a reply to a message of the board.
pub fn draft_reply(state: &BoardState, agent_id: &str, to: &str, payload: Payload) -> (r: Result<
    MessageDraft,
    BoardError,
>)
    ensures
        fault(r) == reply_fault(state@, agent_id@, to@),
        r matches Ok(draft) ==> draft@ == answer(state@.messages[to@], agent_id@, payload@),
{
    let parent: Message = match state.messages.get(to) {
        Some(message) => message.clone(),
        None => {
            return Err(failure_around("unknown message '", to, "'"));
        },
    };
    let recipients: Vec<String> = if parent.group.is_some() {
        Vec::new()
    } else {
        direct_reply_recipients(&parent, agent_id)
    };
    assert(texts(recipients@) =~= reply_recipients(parent@, agent_id@));
    if parent.group.is_none() && recipients.len() == 0 {
        return Err(failure("reply has no participant other than the current agent"));
    }
    Ok(
        MessageDraft {
            to: recipients,
            group: parent.group,
            thread: Some(parent.thread),
            reply_to: Some(parent.id),
            body: payload.message,
            meta: payload.meta,
            ttl_seconds: payload.ttl_seconds,
        },
    )
}

/// A group with its members.
pub open spec fn summary_of(board: BoardView, group: GroupView) -> GroupSummaryView {
    GroupSummaryView {
        name: group.name,
        created_by: group.created_by,
        members: listing(members_of(board.memberships, group.name)),
    }
}

/// The groups of a board with their members, in the order of their names.
pub open spec fn summaries_of(board: BoardView) -> Seq<GroupSummaryView> {
    in_order(board.groups).map_values(|group: GroupView| summary_of(board, group))
}

/// A group with its members.
pub fn group_summary(state: &BoardState, group: &Group) -> (r: GroupSummary)
    ensures
        r@ == summary_of(state@, group@),
{
    GroupSummary {
        name: group.name.clone(),
        created_by: group.created_by.clone(),
        members: group_members(state, group.name.as_str()),
    }
}

/// The groups of a board with their members.
pub fn group_summaries(state: &BoardState) -> (r: Vec<GroupSummary>)
    ensures
        views(r@) == summaries_of(state@),
{
    let count: usize = state.groups.len();
    let ghost all = summaries_of(state@);
    let mut out: Vec<GroupSummary> = Vec::new();
    let mut i: usize = 0;
    assert(views(out@) =~= all.take(0));
    while i < count
        invariant
            i <= count,
            count == listing(state@.groups.dom()).len(),
            all == summaries_of(state@),
            views(out@) == all.take(i as int),
        decreases count - i,
    {
        let ghost had = views(out@);
        let summary: GroupSummary = group_summary(state, state.groups.value_at(i));
        assert(summary@ == all[i as int]);
        out.push(summary);
        assert(views(out@) =~= had.push(all[i as int]));
        assert(all.take(i + 1) =~= had.push(all[i as int]));
        i += 1;
    }
    assert(all.take(i as int) =~= all);
    out
}

/// How many messages a history has: 50 if not said otherwise, and never more
/// than 1000.
pub open spec fn history_limit(limit: Option<usize>) -> int {
    match limit {
        None => 50,
        Some(wanted) => if wanted < 1000 {
            wanted as int
        } else {
            1000
        },
    }
}

/// How many messages a history has.
pub fn limit_history(limit: Option<usize>) -> (r: usize)
    ensures
        r as int == history_limit(limit),
{
    match limit {
        None => 50,
        Some(wanted) => if wanted < 1000 {
            wanted
        } else {
            1000
        },
    }
}

/// What a command asks for next.
pub enum Work {
    /// The command fails.
    Refuse(BoardError),
    /// A message is to be published, acknowledged and told as sent.
    Publish(MessageDraft),
    /// A group is to be created.
    CreateGroup(String),
    /// A group is to be joined.
    JoinGroup(String),
    /// A history is to be read: of a thread or of a group, up to so many
    /// messages.
    ReadHistory(Option<String>, Option<String>, usize),
    /// The answer is known.
    Answer(Output),
}

/// The content of [`Work`].
#[verifier::ext_equal]
pub enum WorkView {
    Refuse(Seq<char>),
    Publish(DraftView),
    CreateGroup(Seq<char>),
    JoinGroup(Seq<char>),
    ReadHistory(Option<Seq<char>>, Option<Seq<char>>, int),
    Answer(OutputView),
}

impl View for Work {
    type V = WorkView;

    open spec fn view(&self) -> WorkView {
        match *self {
            Work::Refuse(error) => WorkView::Refuse(error@),
            Work::Publish(draft) => WorkView::Publish(draft@),
            Work::CreateGroup(name) => WorkView::CreateGroup(name@),
            Work::JoinGroup(name) => WorkView::JoinGroup(name@),
            Work::ReadHistory(thread, group, limit) => WorkView::ReadHistory(
                text_option(thread),
                text_option(group),
                limit as int,
            ),
            Work::Answer(output) => WorkView::Answer(output@),
        }
    }
}

/// A board that has a new sign of life of an agent.
pub open spec fn with_presence(board: BoardView, agent: Seq<char>, presence: PresenceView) -> BoardView {
    BoardView { presence: board.presence.insert(agent, presence), ..board }
}

/// Why a message to these targets is refused, if it is.
pub open spec fn send_fault(
    board: BoardView,
    agent: AgentView,
    to: Seq<Seq<char>>,
    group: Option<Seq<char>>,
) -> Option<Seq<char>> {
    match group {
        Some(name) => target_fault(board, agent, name),
        None => recipients_fault(board, to),
    }
}

/// What a command asks for.
pub open spec fn work_of(board: BoardView, agent: AgentView, command: CommandView, now: Moment) -> WorkView {
    match command {
        CommandView::Send { to, group, message, meta, ttl_seconds } => match send_fault(
            board,
            agent,
            to,
            group,
        ) {
            Some(words) => WorkView::Refuse(words),
            None => WorkView::Publish(
                opening(to, group, PayloadView { message, meta, ttl_seconds }),
            ),
        },
        CommandView::Reply { to, message, meta, ttl_seconds } => match reply_fault(
            board,
            agent.id,
            to,
        ) {
            Some(words) => WorkView::Refuse(words),
            None => WorkView::Publish(
                answer(board.messages[to], agent.id, PayloadView { message, meta, ttl_seconds }),
            ),
        },
        CommandView::GroupCreate { name } => WorkView::CreateGroup(name),
        CommandView::GroupJoin { name } => WorkView::JoinGroup(name),
        CommandView::Agents => WorkView::Answer(
            OutputView::Agents { agents: statuses_of(board, now) },
        ),
        CommandView::Groups => WorkView::Answer(OutputView::Groups { groups: summaries_of(board) }),
        CommandView::History { thread, group, limit } => WorkView::ReadHistory(
            thread,
            group,
            history_limit(limit),
        ),
        CommandView::Ping => WorkView::Answer(OutputView::Pong),
    }
}

/// Takes a command at a time. `presence` is the sign of life that was stored
/// before it.
pub fn handle_command(
    state: &mut BoardState,
    agent: &Agent,
    presence: Presence,
    command: Command,
    now: Moment,
) -> (r: Work)
    requires
        on_clock(now),
    ensures
        final(state)@ == with_presence(old(state)@, agent@.id, presence@),
        r@ == work_of(final(state)@, agent@, command@, now),
{
    state.presence.insert(agent.id.clone(), presence);
    match command {
        Command::Send { to, group, message, meta, ttl_seconds } => {
            let checked: Result<(), BoardError> = match &group {
                Some(name) => validate_target_group(state, agent, name.as_str()),
                None => validate_recipients(state, &to),
            };
            match checked {
                Err(error) => Work::Refuse(error),
                Ok(()) => Work::Publish(
                    open_conversation(to, group, Payload { message, meta, ttl_seconds }),
                ),
            }
        },
        Command::Reply { to, message, meta, ttl_seconds } => match draft_reply(
            state,
            agent.id.as_str(),
            to.as_str(),
            Payload { message, meta, ttl_seconds },
        ) {
            Err(error) => Work::Refuse(error),
            Ok(draft) => Work::Publish(draft),
        },
        Command::GroupCreate { name } => Work::CreateGroup(name),
        Command::GroupJoin { name } => Work::JoinGroup(name),
        Command::Agents => Work::Answer(Output::Agents { agents: agent_statuses_at(state, now) }),
        Command::Groups => Work::Answer(Output::Groups { groups: group_summaries(state) }),
        Command::History { thread, group, limit } => Work::ReadHistory(
            thread,
            group,
            limit_history(limit),
        ),
        Command::Ping => Work::Answer(Output::Pong),
    }
}

/// Keeps a message that was published and acknowledged, and tells that it was
/// sent.
pub fn message_sent(state: &mut BoardState, message: &Message) -> (r: Output)
    ensures
        final(state)@ == (BoardView {
            messages: old(state)@.messages.insert(message@.id, message@),
            ..old(state)@
        }),
        r@ == (OutputView::Sent { id: message@.id }),
{
    let copy: Message = message.clone();
    state.messages.insert(message.id.clone(), copy);
    Output::Sent { id: message.id.clone() }
}

/// Keeps a group that was created, and tells of it.
pub fn group_created(state: &mut BoardState, group: Group, name: &str) -> (r: Output)
    ensures
        final(state)@ == (BoardView {
            groups: old(state)@.groups.insert(group@.name, group@),
            ..old(state)@
        }),
        r@ == (OutputView::GroupCreated { name: name@ }),
{
    state.groups.insert(group.name.clone(), group);
    Output::GroupCreated { name: name.to_owned() }
}

/// Keeps a membership, and tells of it.
pub fn group_joined(state: &mut BoardState, membership: Membership, name: &str) -> (r: Output)
    ensures
        final(state)@ == (BoardView {
            memberships: old(state)@.memberships.insert((membership@.group, membership@.agent)),
            ..old(state)@
        }),
        r@ == (OutputView::GroupJoined { name: name@ }),
{
    state.memberships.insert(membership.group, membership.agent);
    Output::GroupJoined { name: name.to_owned() }
}

/// The events that tell a history: its warnings, then its messages.
pub fn history_told(findings: Findings) -> (r: Vec<Output>)
    ensures
        views(r@) == warnings_of(texts(findings.warnings@)).push(
            OutputView::History { messages: views(findings.messages@) },
        ),
{
    let mut outputs: Vec<Output> = Vec::new();
    push_warnings(&mut outputs, &findings.warnings);
    let ghost warnings = warnings_of(texts(findings.warnings@));
    assert(views(outputs@) =~= warnings);
    let event = Output::History { messages: findings.messages };
    let ghost told = event@;
    outputs.push(event);
    assert(views(outputs@) =~= warnings.push(told));
    outputs
}

/// The name of a command.
pub open spec fn name_of(command: CommandView) -> Seq<char> {
    match command {
        CommandView::Send { .. } => "send"@,
        CommandView::Reply { .. } => "reply"@,
        CommandView::GroupCreate { .. } => "group.create"@,
        CommandView::GroupJoin { .. } => "group.join"@,
        CommandView::Agents => "agents"@,
        CommandView::Groups => "groups"@,
        CommandView::History { .. } => "history"@,
        CommandView::Ping => "ping"@,
    }
}

/// The name of a command.
pub fn command_name(command: &Command) -> (r: String)
    ensures
        r@ == name_of(command@),
{
    match command {
        Command::Send { .. } => "send".to_owned(),
        Command::Reply { .. } => "reply".to_owned(),
        Command::GroupCreate { .. } => "group.create".to_owned(),
        Command::GroupJoin { .. } => "group.join".to_owned(),
        Command::Agents => "agents".to_owned(),
        Command::Groups => "groups".to_owned(),
        Command::History { .. } => "history".to_owned(),
        Command::Ping => "ping".to_owned(),
    }
}

/// A line of input: a command with its name, or an event that tells what is
/// wrong with the line.
pub enum Line {
    Run(String, Command),
    Report(Output),
}

/// Takes a line that was read as a command, or could not be.
pub fn handle_line(parsed: Result<Command, String>) -> (r: Line)
    ensures
        match parsed {
            Ok(command) => r matches Line::Run(name, same) && name@ == name_of(command@) && same
                == command,
            Err(error) => r matches Line::Report(output) && output@ == (OutputView::Error {
                op: None,
                message: "invalid command JSON: "@ + error@,
            }),
        },
{
    match parsed {
        Ok(command) => Line::Run(command_name(&command), command),
        Err(error) => Line::Report(
            Output::Error { op: None, message: joined("invalid command JSON: ", error.as_str()) },
        ),
    }
}

/// The event of a command that failed.
pub fn command_failed(name: String, error: &str) -> (r: Output)
    ensures
        r@ == (OutputView::Error { op: Some(name@), message: error@ }),
{
    Output::Error { op: Some(name), message: error.to_owned() }
}

/// What a session waits for.
pub enum LoopEvent {
    Input(String),
    InputClosed,
    Filesystem,
    WatchWarning(String),
    /// Nothing came in time.
    Timeout,
    /// Nothing can come any more.
    Disconnected,
}

/// What a session does about an event.
pub enum LoopStep {
    /// A line is to be handled.
    Handle(String),
    /// The session ends.
    Stop,
    /// An event is to be given.
    Emit(Output),
    /// A scan is due.
    Reconcile,
    /// Nothing.
    Wait,
}

/// How long changes of the file system gather before a scan, in nanoseconds.
pub const GATHERING: u128 = 50_000_000;

/// The clockwork of a session: when the next scan is due, and how often scans
/// are. Times are nanoseconds of the process clock.
pub struct EventLoop {
    pub reconcile_at: u128,
    pub poll_interval: u128,
}

impl EventLoop {
    /// The interval is one that can be given, and the next scan is not too far
    /// away to be told.
    pub open spec fn wf(self) -> bool {
        self.poll_interval < 0x1_0000_0000_0000_0000_0000_0000u128 && self.reconcile_at
            < 0x1_0000_0000_0000_0000_0000_0000_0000u128
    }

    /// A session that begins now and scans next after one interval.
    pub fn new(poll_interval: Interval, now: u64) -> (r: Self)
        ensures
            r.wf(),
            r.poll_interval as int == span(poll_interval),
            r.reconcile_at == now + r.poll_interval,
    {
        let nanos: u128 = nanoseconds(poll_interval);
        EventLoop { reconcile_at: now as u128 + nanos, poll_interval: nanos }
    }

    /// How long to wait for an event.
    pub fn timeout(&self, now: u64) -> (r: u128)
        ensures
            r as int == if self.reconcile_at > now {
                self.reconcile_at - now
            } else {
                0
            },
    {
        if self.reconcile_at > now as u128 {
            self.reconcile_at - now as u128
        } else {
            0
        }
    }

    /// Takes an event. A change of the file system brings the next scan nearer.
    pub fn receive(&mut self, event: LoopEvent, now: u64) -> (r: LoopStep)
        requires
            old(self).wf(),
        ensures
            final(self).wf(),
            final(self).poll_interval == old(self).poll_interval,
            final(self).reconcile_at == if event is Filesystem && now + GATHERING < old(
                self,
            ).reconcile_at {
                now + GATHERING
            } else {
                old(self).reconcile_at as int
            },
            match event {
                LoopEvent::Input(line) => r == LoopStep::Handle(line),
                LoopEvent::InputClosed => r is Stop,
                LoopEvent::Disconnected => r is Stop,
                LoopEvent::WatchWarning(message) => r matches LoopStep::Emit(output) && output@ == (
                OutputView::Warning { message: message@ }),
                LoopEvent::Timeout => r is Reconcile,
                LoopEvent::Filesystem => r is Wait,
            },
    {
        match event {
            LoopEvent::Input(line) => LoopStep::Handle(line),
            LoopEvent::InputClosed => LoopStep::Stop,
            LoopEvent::Disconnected => LoopStep::Stop,
            LoopEvent::WatchWarning(message) => LoopStep::Emit(Output::Warning { message }),
            LoopEvent::Timeout => LoopStep::Reconcile,
            LoopEvent::Filesystem => {
                let soon: u128 = now as u128 + GATHERING;
                if soon < self.reconcile_at {
                    self.reconcile_at = soon;
                }
                LoopStep::Wait
            },
        }
    }

    /// Whether a scan is due.
    pub fn is_due(&self, now: u64) -> (r: bool)
        ensures
            r == (now >= self.reconcile_at),
    {
        now as u128 >= self.reconcile_at
    }

    /// Notes that a scan has been made.
    pub fn reconciled(&mut self, now: u64)
        requires
            old(self).wf(),
        ensures
            final(self).wf(),
            final(self).poll_interval == old(self).poll_interval,
            final(self).reconcile_at == now + old(self).poll_interval,
    {
        self.reconcile_at = now as u128 + self.poll_interval;
    }
}

/// The board that belongs to a directory.
pub open spec fn board_of(directory: Seq<char>) -> Seq<char> {
    child(child(directory, ".ai"@), "message-board"@)
}

/// Where a board may be: for a directory and each above it.
pub open spec fn candidates(start: Seq<char>) -> Seq<Seq<char>> {
    ancestors(start).map_values(|directory: Seq<char>| board_of(directory))
}

/// Where a board may be.
pub fn root_candidates(start: &str) -> (r: Vec<String>)
    ensures
        texts(r@) == candidates(start@),
        r@.len() > 0,
{
    let directories: Vec<String> = path_ancestors(start);
    let ghost all = candidates(start@);
    let mut out: Vec<String> = Vec::new();
    let mut i: usize = 0;
    assert(texts(out@) =~= all.take(0));
    while i < directories.len()
        invariant
            i <= directories@.len(),
            texts(directories@) == ancestors(start@),
            all == candidates(start@),
            texts(out@) == all.take(i as int),
        decreases directories@.len() - i,
    {
        let ghost had = texts(out@);
        assert(ancestors(start@)[i as int] == directories@[i as int]@);
        let hidden: String = child_path(directories[i].as_str(), ".ai");
        out.push(child_path(hidden.as_str(), "message-board"));
        assert(texts(out@) =~= had.push(all[i as int]));
        assert(all.take(i + 1) =~= had.push(all[i as int]));
        i += 1;
    }
    assert(all.take(i as int) =~= all);
    proof {
        crate::path::lemma_ancestors_start(start@);
        assert(texts(out@).len() == out@.len());
    }
    out
}

/// The board of a directory: the first of its [`root_candidates`] that is
/// there, or else its own. `existing` says of each candidate whether it is
/// there.
pub fn default_root(start: &str, existing: &Vec<bool>) -> (r: String)
    requires
        existing@.len() == candidates(start@).len(),
    ensures
        match first_true(existing@) {
            Some(position) => r@ == candidates(start@)[position],
            None => r@ == board_of(start@),
        },
{
    let roots: Vec<String> = root_candidates(start);
    assert(texts(roots@).len() == roots@.len());
    let mut i: usize = 0;
    while i < existing.len()
        invariant
            i <= existing@.len(),
            existing@.len() == roots@.len(),
            texts(roots@) == candidates(start@),
            forall|j: int| 0 <= j < i ==> !existing@[j],
        decreases existing@.len() - i,
    {
        if existing[i] {
            proof {
                lemma_first_true(existing@, i as int);
                assert(candidates(start@)[i as int] == roots@[i as int]@);
            }
            return roots[i].clone();
        }
        i += 1;
    }
    proof {
        lemma_none_true(existing@);
    }
    child_path(child_path(start, ".ai").as_str(), "message-board")
}

/// The first position that holds.
pub open spec fn first_true(list: Seq<bool>) -> Option<int>
    decreases list.len(),
{
    if list.len() == 0 {
        None
    } else {
        match first_true(list.drop_last()) {
            Some(position) => Some(position),
            None => if list.last() {
                Some(list.len() - 1)
            } else {
                None
            },
        }
    }
}

proof fn lemma_none_true(list: Seq<bool>)
    requires
        forall|i: int| 0 <= i < list.len() ==> !list[i],
    ensures
        first_true(list) is None,
    decreases list.len(),
{
    if list.len() > 0 {
        assert forall|i: int| 0 <= i < list.drop_last().len() implies !list.drop_last()[i] by {
            assert(!list[i]);
        }
        lemma_none_true(list.drop_last());
        assert(!list[list.len() - 1]);
    }
}

proof fn lemma_first_true(list: Seq<bool>, at: int)
    requires
        0 <= at < list.len(),
        list[at],
        forall|i: int| 0 <= i < at ==> !list[i],
    ensures
        first_true(list) == Some(at),
    decreases list.len(),
{
    if at == list.len() - 1 {
        assert forall|i: int| 0 <= i < list.drop_last().len() implies !list.drop_last()[i] by {
            assert(!list[i]);
        }
        lemma_none_true(list.drop_last());
    } else {
        assert forall|i: int| 0 <= i < at implies !list.drop_last()[i] by {
            assert(!list[i]);
        }
        lemma_first_true(list.drop_last(), at);
    }
}

/// Whether a character is a decimal digit.
pub open spec fn is_digit(c: char) -> bool {
    '0' <= c && c <= '9'
}

/// The number that digits make, or the words about what is wrong with them.
pub open spec fn digits_reading(digits: Seq<char>) -> Result<int, Seq<char>>
    decreases digits.len(),
{
    if digits.len() == 0 {
        Ok(0)
    } else {
        match digits_reading(digits.drop_last()) {
            Err(words) => Err(words),
            Ok(n) => if !is_digit(digits.last()) {
                Err("invalid digit found in string"@)
            } else if n * 10 + (digits.last() as int - 48) > u64::MAX {
                Err("number too large to fit in target type"@)
            } else {
                Ok(n * 10 + (digits.last() as int - 48))
            },
        }
    }
}

/// The number that a text is, with or without a plus sign.
pub open spec fn number_reading(text: Seq<char>) -> Result<int, Seq<char>> {
    if text.len() == 0 {
        Err("cannot parse integer from empty string"@)
    } else if text.len() == 1 && text[0] == '+' {
        Err("invalid digit found in string"@)
    } else if text[0] == '+' {
        digits_reading(text.skip(1))
    } else {
        digits_reading(text)
    }
}

proof fn lemma_reading_stops(digits: Seq<char>, at: int)
    requires
        0 <= at <= digits.len(),
        digits_reading(digits.take(at)) is Err,
    ensures
        digits_reading(digits) == digits_reading(digits.take(at)),
    decreases digits.len() - at,
{
    if at == digits.len() {
        assert(digits.take(at) =~= digits);
    } else {
        assert(digits.take(at + 1).drop_last() =~= digits.take(at));
        lemma_reading_stops(digits, at + 1);
    }
}

fn digit_value(c: char) -> (r: u64)
    requires
        is_digit(c),
    ensures
        r as int == c as int - 48,
        r < 10,
{
    (c as u32 - 48) as u64
}

/// The number that a text is.
fn read_number(text: &str) -> (r: Result<u64, BoardError>)
    ensures
        match number_reading(text@) {
            Ok(n) => r is Ok && r->Ok_0 as int == n,
            Err(words) => fault(r) == Some(words),
        },
{
    let chars: Vec<char> = chars_of(text);
    if chars.len() == 0 {
        return Err(failure("cannot parse integer from empty string"));
    }
    if chars.len() == 1 && chars[0] == '+' {
        return Err(failure("invalid digit found in string"));
    }
    let first: usize = if chars[0] == '+' {
        1
    } else {
        0
    };
    let ghost digits = text@.skip(first as int);
    assert(text@.skip(0) =~= text@);
    let mut n: u64 = 0;
    let mut i: usize = first;
    assert(digits.take(0) =~= seq![]);
    while i < chars.len()
        invariant
            chars@ == text@,
            first <= i <= chars@.len(),
            digits == text@.skip(first as int),
            number_reading(text@) == digits_reading(digits),
            digits_reading(digits.take(i - first)) == Ok::<int, Seq<char>>(n as int),
        decreases chars@.len() - i,
    {
        let c: char = chars[i];
        assert(digits.take(i + 1 - first).drop_last() =~= digits.take(i - first));
        assert(digits.take(i + 1 - first).last() == c);
        if !('0' <= c && c <= '9') {
            proof {
                lemma_reading_stops(digits, i + 1 - first);
            }
            return Err(failure("invalid digit found in string"));
        }
        let d: u64 = digit_value(c);
        if n > u64::MAX / 10 || n * 10 > u64::MAX - d {
            proof {
                lemma_reading_stops(digits, i + 1 - first);
            }
            return Err(failure("number too large to fit in target type"));
        }
        n = n * 10 + d;
        i += 1;
    }
    assert(digits.take(i - first) =~= digits);
    Ok(n)
}

/// Why a text is no interval between scans, if it is none.
pub open spec fn interval_fault(value: Seq<char>) -> Option<Seq<char>> {
    match number_reading(value) {
        Err(words) => Some("poll interval must be seconds: "@ + words),
        Ok(seconds) => if seconds == 0 {
            Some("poll interval must be at least one second"@)
        } else {
            None
        },
    }
}

/// The interval between scans that a text gives in seconds.
pub fn parse_duration_seconds(value: &str) -> (r: Result<Interval, BoardError>)
    ensures
        fault(r) == interval_fault(value@),
        r matches Ok(interval) ==> interval.seconds as int == number_reading(value@)->Ok_0
            && interval.nanos == 0,
{
    match read_number(value) {
        Err(error) => Err(failure_with("poll interval must be seconds: ", error.message.as_str())),
        Ok(seconds) => {
            if seconds == 0 {
                return Err(failure("poll interval must be at least one second"));
            }
            Ok(Interval { seconds, nanos: 0 })
        },
    }
}

/// The argument at a position, which a flag requires, and the position after it.
pub fn required_value(args: &Vec<String>, position: usize, flag: &str) -> (r: Result<
    (String, usize),
    BoardError,
>)
    ensures
        match r {
            Ok(found) => position < args@.len() && found.0 == args@[position as int] && found.1
                == position + 1,
            Err(e) => position >= args@.len() && e@ == flag@ + " requires a value"@,
        },
{
    if position < args.len() {
        Ok((args[position].clone(), position + 1))
    } else {
        Err(failure_with(flag, " requires a value"))
    }
}

/// The options of a command, as far as they are given.
#[derive(Debug, PartialEq, Eq)]
pub struct Arguments {
    pub root: Option<String>,
    pub project: Option<String>,
    pub session: Option<String>,
    pub project_path: Option<String>,
    pub poll_interval: Interval,
}

/// The content of [`Arguments`].
#[verifier::ext_equal]
pub struct ArgumentsView {
    pub root: Option<Seq<char>>,
    pub project: Option<Seq<char>>,
    pub session: Option<Seq<char>>,
    pub project_path: Option<Seq<char>>,
    pub poll_interval: Interval,
}

impl View for Arguments {
    type V = ArgumentsView;

    open spec fn view(&self) -> ArgumentsView {
        ArgumentsView {
            root: text_option(self.root),
            project: text_option(self.project),
            session: text_option(self.session),
            project_path: text_option(self.project_path),
            poll_interval: self.poll_interval,
        }
    }
}

/// What a command line asks for: help, or a command with options.
#[verifier::ext_equal]
pub enum RequestView {
    Help,
    Run(ArgumentsView),
}

/// What the options of a command come to, from those so far and the arguments
/// that are left.
pub open spec fn options_reading(
    command: Seq<char>,
    so_far: ArgumentsView,
    args: Seq<Seq<char>>,
) -> Result<RequestView, Seq<char>>
    decreases args.len(),
{
    if args.len() == 0 {
        Ok(RequestView::Run(so_far))
    } else {
        let flag = args[0];
        let missing = args.len() < 2;
        let value = args[1];
        let rest = args.skip(2);
        if flag == "--help"@ || flag == "-h"@ {
            Ok(RequestView::Help)
        } else if flag != "--root"@ && flag != "--project"@ && flag != "--session"@ && flag
            != "--path"@ && flag != "--poll-interval"@ {
            Err("unknown "@ + command + " option '"@ + flag + "'"@)
        } else if missing {
            Err(flag + " requires a value"@)
        } else if flag == "--root"@ {
            options_reading(command, ArgumentsView { root: Some(value), ..so_far }, rest)
        } else if flag == "--project"@ {
            options_reading(command, ArgumentsView { project: Some(value), ..so_far }, rest)
        } else if flag == "--session"@ {
            options_reading(command, ArgumentsView { session: Some(value), ..so_far }, rest)
        } else if flag == "--path"@ {
            options_reading(command, ArgumentsView { project_path: Some(value), ..so_far }, rest)
        } else {
            match interval_fault(value) {
                Some(words) => Err(words),
                None => options_reading(
                    command,
                    ArgumentsView {
                        poll_interval: Interval {
                            seconds: number_reading(value)->Ok_0 as u64,
                            nanos: 0,
                        },
                        ..so_far
                    },
                    rest,
                ),
            }
        }
    }
}

/// What a command line asks for.
pub enum Request {
    Help,
    Run(Arguments),
}

/// What a command line asks for, in views and words.
pub open spec fn request_told(result: Result<Request, BoardError>) -> Result<RequestView, Seq<char>> {
    match result {
        Ok(Request::Help) => Ok(RequestView::Help),
        Ok(Request::Run(arguments)) => Ok(RequestView::Run(arguments@)),
        Err(error) => Err(error@),
    }
}

/// How often a session scans if not said otherwise, in seconds.
pub const DEFAULT_POLL_SECONDS: u64 = 3;

/// Reads the options of a command from position 1 of its arguments on. What the
/// environment gives stands unless an option replaces it.
#[verifier::loop_isolation(false)]
pub fn run_command(
    command: &str,
    args: &Vec<String>,
    root: Option<String>,
    project: Option<String>,
    session: Option<String>,
) -> (r: Result<Request, BoardError>)
    requires
        args@.len() > 0,
    ensures
        request_told(r) == options_reading(
            command@,
            ArgumentsView {
                root: text_option(root),
                project: text_option(project),
                session: text_option(session),
                project_path: None,
                poll_interval: Interval { seconds: 3, nanos: 0 },
            },
            texts(args@).skip(1),
        ),
        r matches Ok(Request::Run(arguments)) ==> arguments.poll_interval.nanos == 0,
{
    let mut arguments = Arguments {
        root,
        project,
        session,
        project_path: None,
        poll_interval: Interval { seconds: DEFAULT_POLL_SECONDS, nanos: 0 },
    };
    let ghost all = texts(args@);
    let ghost wanted = options_reading(command@, arguments@, all.skip(1));
    let mut position: usize = 1;
    while position < args.len()
        invariant
            1 <= position <= args@.len(),
            all == texts(args@),
            wanted == options_reading(command@, arguments@, all.skip(position as int)),
            arguments.poll_interval.nanos == 0,
        decreases args@.len() - position,
    {
        let flag: &String = &args[position];
        let ghost left = all.skip(position as int);
        assert(left[0] == flag@);
        if same_text(flag.as_str(), "--help") || same_text(flag.as_str(), "-h") {
            return Ok(Request::Help);
        }
        let is_root: bool = same_text(flag.as_str(), "--root");
        let is_project: bool = same_text(flag.as_str(), "--project");
        let is_session: bool = same_text(flag.as_str(), "--session");
        let is_path: bool = same_text(flag.as_str(), "--path");
        let is_interval: bool = same_text(flag.as_str(), "--poll-interval");
        if !is_root && !is_project && !is_session && !is_path && !is_interval {
            let words: String = joined3("unknown ", command, " option '");
            return Err(failure_around(words.as_str(), flag.as_str(), "'"));
        }
        let value: String = match required_value(args, position + 1, flag.as_str()) {
            Ok(found) => {
                position = found.1;
                found.0
            },
            Err(error) => {
                return Err(error);
            },
        };
        assert(left[1] == value@);
        assert(left.skip(2) =~= all.skip(position as int));
        if is_root {
            arguments.root = Some(value);
        } else if is_project {
            arguments.project = Some(value);
        } else if is_session {
            arguments.session = Some(value);
        } else if is_path {
            arguments.project_path = Some(value);
        } else {
            arguments.poll_interval =
            match parse_duration_seconds(value.as_str()) {
                Ok(interval) => interval,
                Err(error) => {
                    return Err(error);
                },
            };
        }
    }
    assert(all.skip(position as int) =~= seq![]);
    Ok(Request::Run(arguments))
}

/// Why options are not enough for a session, if they are not.
pub open spec fn options_fault(arguments: ArgumentsView) -> Option<Seq<char>> {
    if arguments.project is None {
        Some("set --project or ZBOARD_PROJECT"@)
    } else if arguments.session is None {
        Some(
            "set --session, ZBOARD_SESSION_ID, CODEX_THREAD_ID, or CODEX_SESSION_ID so registration is stable"@,
        )
    } else {
        None
    }
}

/// The options of a session. The board is the given one or else `default_root`,
/// and the project's path is the given one or else the current directory.
pub fn run_options(arguments: Arguments, current_directory: &str, default_root: &str) -> (r: Result<
    RunOptions,
    BoardError,
>)
    ensures
        fault(r) == options_fault(arguments@),
        r matches Ok(options) ==> {
            &&& options.root@ == match arguments@.root {
                Some(root) => root,
                None => default_root@,
            }
            &&& Some(options.project@) == arguments@.project
            &&& Some(options.session@) == arguments@.session
            &&& options.project_path@ == match arguments@.project_path {
                Some(path) => path,
                None => current_directory@,
            }
            &&& options.poll_interval == arguments.poll_interval
        },
{
    let project: String = match arguments.project {
        Some(project) => project,
        None => {
            return Err(failure("set --project or ZBOARD_PROJECT"));
        },
    };
    let session: String = match arguments.session {
        Some(session) => session,
        None => {
            return Err(
                failure(
                    "set --session, ZBOARD_SESSION_ID, CODEX_THREAD_ID, or CODEX_SESSION_ID so registration is stable",
                ),
            );
        },
    };
    let root: String = match arguments.root {
        Some(root) => root,
        None => default_root.to_owned(),
    };
    let project_path: String = match arguments.project_path {
        Some(path) => path,
        None => current_directory.to_owned(),
    };
    Ok(
        RunOptions {
            root,
            project,
            session,
            project_path,
            poll_interval: arguments.poll_interval,
        },
    )
}

/// What the program is asked to do.
#[derive(Debug, PartialEq, Eq)]
pub enum Mode {
    Help,
    Run,
    Mcp,
    Migrate,
}

/// The mode that a first argument names.
pub fn try_main(args: &Vec<String>) -> (r: Result<Mode, BoardError>)
    ensures
        match r {
            Ok(Mode::Help) => args@.len() == 0 || args@[0]@ == "--help"@ || args@[0]@ == "-h"@,
            Ok(Mode::Run) => args@.len() > 0 && args@[0]@ == "run"@,
            Ok(Mode::Mcp) => args@.len() > 0 && args@[0]@ == "mcp"@,
            Ok(Mode::Migrate) => args@.len() > 0 && args@[0]@ == "migrate"@,
            Err(e) => args@.len() > 0 && args@[0]@ != "--help"@ && args@[0]@ != "-h"@ && args@[0]@
                != "run"@ && args@[0]@ != "mcp"@ && args@[0]@ != "migrate"@ && e@
                == "unknown command '"@ + args@[0]@ + "'; expected 'run', 'mcp' or 'migrate'"@,
        },
{
    if args.len() == 0 {
        return Ok(Mode::Help);
    }
    let command: &str = args[0].as_str();
    if same_text(command, "run") {
        Ok(Mode::Run)
    } else if same_text(command, "mcp") {
        Ok(Mode::Mcp)
    } else if same_text(command, "migrate") {
        Ok(Mode::Migrate)
    } else if same_text(command, "--help") || same_text(command, "-h") {
        Ok(Mode::Help)
    } else {
        Err(
            failure_around(
                "unknown command '",
                command,
                "'; expected 'run', 'mcp' or 'migrate'",
            ),
        )
    }
}

} // verus!
