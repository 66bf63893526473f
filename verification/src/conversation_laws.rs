//! What holds of conversations: whom a message concerns, what a message and a
//! reply say, what an agent is told.
use crate::app::{
    draft_reply, handle_command, history_told, message_sent, open_conversation, present, ready,
    reconcile, relevant, run, Payload, Reconciliation, Startup, Work,
};
use crate::clock::{on_clock, rfc3339_millis, rfc3339_reading, Interval, Moment};
use crate::collections::{ascending, listing};
use crate::error::BoardError;
use crate::laws::lemma_listing_of;
use crate::mcp::{Opened, ZboardServer};
use crate::model::{
    Agent, AgentStatus, AgentView, Command, Message, MessageView, Output, OutputView, Presence,
    MESSAGE_SCHEMA,
};
use crate::routed::Findings;
use crate::storage::{
    agent_statuses, agent_statuses_at, compose_message, direct_reply_recipients, draft_fault,
    message_is_relevant, others, publish_message, BoardState, BoardView, MessageDraft, ScanResult,
};
use crate::text::{text_option, texts, views};
use crate::ulids::IdSource;
use vstd::prelude::*;

verus! {

/// A message concerns an agent exactly if another sent it and it names the agent,
/// or goes to everyone, to the agent's project or to a group that the agent has
/// joined. What it says, what it answers and how long it lasts play no part.
pub proof fn law_message_concerns_whom_it_names(
    state: &BoardState,
    agent: &Agent,
    message: &Message,
    r: bool,
)
    requires
        call_ensures(message_is_relevant, (state, agent, message), r),
    ensures
        message.from@ == agent.id@ ==> !r,
        message.from@ != agent.id@ && texts(message.to@).contains(agent.id@) ==> r,
        message.from@ != agent.id@ && text_option(message.group) == Some("global"@) ==> r,
        message.from@ != agent.id@ && text_option(message.group) == Some(
            "project:"@ + agent.project@,
        ) ==> r,
        message.from@ != agent.id@ && message.group is Some && state@.memberships.contains(
            (message.group->Some_0@, agent.id@),
        ) ==> r,
        !texts(message.to@).contains(agent.id@) && message.group is None ==> !r,
        !texts(message.to@).contains(agent.id@) && message.group is Some && message.group->Some_0@
            != "global"@ && message.group->Some_0@ != "project:"@ + agent.project@
            && !state@.memberships.contains((message.group->Some_0@, agent.id@)) ==> !r,
{
}

/// The messages of a list that another than the agent sent and that name the agent
/// or go to everyone, to its project or to a group of its own.
pub open spec fn concerning(
    memberships: Set<(Seq<char>, Seq<char>)>,
    agent: AgentView,
    list: Seq<MessageView>,
) -> Seq<MessageView> {
    list.filter(
        |message: MessageView|
            message.from != agent.id && (message.to.contains(agent.id) || message.group == Some(
                "global"@,
            ) || message.group == Some("project:"@ + agent.project) || (message.group is Some
                && memberships.contains((message.group->Some_0, agent.id)))),
    )
}

/// The messages of a board under identifiers, where there are any.
pub open spec fn known_among(messages: Map<Seq<char>, MessageView>, ids: Seq<Seq<char>>) -> Seq<
    MessageView,
> {
    ids.filter(|id: Seq<char>| messages.contains_key(id)).map_values(|id: Seq<char>| messages[id])
}

/// What is relevant of a list is all that concerns the agent, in the list's order.
pub proof fn law_relevant_messages_are_all_that_concern(
    board: BoardView,
    agent: AgentView,
    list: Seq<MessageView>,
)
    ensures
        relevant(board, agent, list) == concerning(board.memberships, agent, list),
    decreases list.len(),
{
    reveal_with_fuel(Seq::filter, 2);
    if list.len() > 0 {
        law_relevant_messages_are_all_that_concern(board, agent, list.drop_last());
    }
    assert(relevant(board, agent, list) =~= concerning(board.memberships, agent, list));
}

/// A message of a list that concerns the agent is among the relevant ones.
pub proof fn law_relevant_messages_have_each_that_concerns(
    board: BoardView,
    agent: AgentView,
    list: Seq<MessageView>,
    i: int,
)
    requires
        0 <= i < list.len(),
        list[i].from != agent.id,
        list[i].to.contains(agent.id) || list[i].group == Some("global"@) || list[i].group == Some(
            "project:"@ + agent.project,
        ) || (list[i].group is Some && board.memberships.contains(
            (list[i].group->Some_0, agent.id),
        )),
    ensures
        relevant(board, agent, list).contains(list[i]),
    decreases list.len(),
{
    let before = relevant(board, agent, list.drop_last());
    let all = relevant(board, agent, list);
    if i < list.len() - 1 {
        law_relevant_messages_have_each_that_concerns(board, agent, list.drop_last(), i);
        let k = choose|k: int| 0 <= k < before.len() && before[k] == list[i];
        assert(all[k] == list[i]);
    } else {
        assert(all[all.len() - 1] == list[i]);
    }
}

/// What is present of identifiers is every message that the board has of them, in
/// their order.
pub proof fn law_present_messages_are_all_known(
    messages: Map<Seq<char>, MessageView>,
    ids: Seq<Seq<char>>,
)
    ensures
        present(messages, ids) == known_among(messages, ids),
    decreases ids.len(),
{
    reveal_with_fuel(Seq::filter, 2);
    if ids.len() > 0 {
        law_present_messages_are_all_known(messages, ids.drop_last());
    }
    assert(present(messages, ids) =~= known_among(messages, ids));
}

/// After a scan an agent is told its warnings and then each new message that
/// concerns it, once and in order. All new messages are acknowledged.
pub proof fn law_new_messages_are_told(
    state: &BoardState,
    agent: &Agent,
    result: &ScanResult,
    r: Reconciliation,
)
    requires
        call_ensures(reconcile, (state, agent, result), r),
    ensures
        ({
            let found = known_among(state@.messages, texts(result.new_messages@));
            let told = concerning(state@.memberships, agent@, found);
            let n = result.warnings@.len() as int;
            &&& views(r.acknowledged@) == found
            &&& r.outputs@.len() == n + told.len()
            &&& forall|i: int|
                0 <= i < n ==> (#[trigger] r.outputs@[i])@ == (OutputView::Warning {
                    message: result.warnings@[i]@,
                })
            &&& forall|i: int|
                0 <= i < told.len() ==> views(r.outputs@)[n + i] == (OutputView::Incoming {
                    message: #[trigger] told[i],
                })
        }),
{
    let found = known_among(state@.messages, texts(result.new_messages@));
    law_present_messages_are_all_known(state@.messages, texts(result.new_messages@));
    law_relevant_messages_are_all_that_concern(state@, agent@, found);
    assert(views(r.outputs@).len() == r.outputs@.len());
    assert forall|i: int| 0 <= i < result.warnings@.len() implies (#[trigger] r.outputs@[i])@ == (
    OutputView::Warning { message: result.warnings@[i]@ }) by {
        assert(views(r.outputs@)[i] == r.outputs@[i]@);
        assert(texts(result.warnings@)[i] == result.warnings@[i]@);
    }
}

/// A session starts with the warnings of its first scan and the event that it is
/// ready, with the newest identifier that the board knows. An agent that resumes is
/// then told what concerns it, and that is acknowledged after it; one that is new is
/// told nothing, and all that was found is acknowledged before.
pub proof fn law_session_starts_with_what_was_missed(
    state: &BoardState,
    agent: &Agent,
    resumed: bool,
    initial: &ScanResult,
    r: Startup,
)
    requires
        call_ensures(run, (state, agent, resumed, initial), r),
        state@.messages.dom().finite(),
    ensures
        ({
            let found = known_among(state@.messages, texts(initial.new_messages@));
            let told = if resumed {
                concerning(state@.memberships, agent@, found)
            } else {
                seq![]
            };
            let n = initial.warnings@.len() as int;
            &&& views(r.acknowledge_first@) == if resumed {
                seq![]
            } else {
                found
            }
            &&& views(r.acknowledge_after@) == told
            &&& r.outputs@.len() == n + 1 + told.len()
            &&& forall|i: int|
                0 <= i < n ==> (#[trigger] r.outputs@[i])@ == (OutputView::Warning {
                    message: initial.warnings@[i]@,
                })
            &&& views(r.outputs@)[n] matches OutputView::Ready { agent: who, latest } && {
                &&& who == agent.id@
                &&& latest is None <==> state@.messages.dom() == Set::<Seq<char>>::empty()
                &&& latest matches Some(id) ==> state@.messages.contains_key(id) && forall|
                    other: Seq<char>,
                | #[trigger]
                    state@.messages.contains_key(other) ==> other == id || crate::text::precedes(
                        other,
                        id,
                    )
            }
            &&& forall|i: int|
                0 <= i < told.len() ==> views(r.outputs@)[n + 1 + i] == (OutputView::Incoming {
                    message: #[trigger] told[i],
                })
        }),
{
    let ids = texts(initial.new_messages@);
    let found = known_among(state@.messages, ids);
    law_present_messages_are_all_known(state@.messages, ids);
    law_relevant_messages_are_all_that_concern(state@, agent@, found);
    assert(views(r.outputs@).len() == r.outputs@.len());
    let n = initial.warnings@.len() as int;
    assert forall|i: int| 0 <= i < n implies (#[trigger] r.outputs@[i])@ == (OutputView::Warning {
        message: initial.warnings@[i]@,
    }) by {
        assert(views(r.outputs@)[i] == r.outputs@[i]@);
        assert(texts(initial.warnings@)[i] == initial.warnings@[i]@);
    }
    let all = state@.messages.dom();
    let keys = listing(all);
    lemma_listing_of(all);
    assert(views(r.outputs@)[n] == ready(state@, agent@));
    if keys.len() == 0 {
        assert(keys.to_set() =~= Set::<Seq<char>>::empty());
    } else {
        assert(keys.to_set().contains(keys.last())) by {
            assert(keys[keys.len() - 1] == keys.last());
        }
        assert forall|other: Seq<char>| #[trigger] state@.messages.contains_key(other) implies other
            == keys.last() || crate::text::precedes(other, keys.last()) by {
            assert(keys.to_set().contains(other));
            let k = choose|k: int| 0 <= k < keys.len() && keys[k] == other;
            assert(keys[k] == other);
        }
    }
}

/// A tool server of an agent that resumes has in its inbox what was found and
/// concerns the agent; one of a new agent has nothing, and what was found is
/// acknowledged.
pub proof fn law_server_opens_with_what_was_missed(
    root: String,
    agent: Agent,
    poll_interval: Interval,
    board: BoardState,
    resumed: bool,
    initial: &ScanResult,
    r: Opened,
)
    requires
        call_ensures(
            ZboardServer::new,
            (root, agent, poll_interval, board, resumed, initial),
            r,
        ),
    ensures
        ({
            let found = known_among(board@.messages, texts(initial.new_messages@));
            &&& r.server@.root == root@
            &&& r.server@.agent == agent@
            &&& r.server@.poll_interval == poll_interval
            &&& r.server@.board == board@
            &&& r.server@.pending_ack.len() == 0
            &&& resumed ==> r.server@.inbox == concerning(board@.memberships, agent@, found)
                && r.acknowledge@.len() == 0
            &&& !resumed ==> r.server@.inbox.len() == 0 && views(r.acknowledge@) == found
            &&& r.log is None <==> initial.warnings@.len() == 0
        }),
{
    let found = known_among(board@.messages, texts(initial.new_messages@));
    law_present_messages_are_all_known(board@.messages, texts(initial.new_messages@));
    law_relevant_messages_are_all_that_concern(board@, agent@, found);
    assert(views(r.acknowledge@).len() == r.acknowledge@.len());
}

/// A refresh puts each new message that concerns the agent behind what is in the
/// inbox, gives the warnings of the scan, and changes nothing else.
pub proof fn law_refresh_fills_the_inbox(
    server: &mut ZboardServer,
    result: ScanResult,
    r: Vec<String>,
)
    requires
        call_ensures(ZboardServer::refresh, (server, result), r),
    ensures
        ({
            let before = old(server)@;
            let after = final(server)@;
            let found = known_among(before.board.messages, texts(result.new_messages@));
            &&& after.inbox == before.inbox + concerning(
                before.board.memberships,
                before.agent,
                found,
            )
            &&& after.root == before.root
            &&& after.agent == before.agent
            &&& after.poll_interval == before.poll_interval
            &&& after.board == before.board
            &&& after.pending_ack == before.pending_ack
            &&& r@ == result.warnings@
        }),
{
    let before = old(server)@;
    let found = known_among(before.board.messages, texts(result.new_messages@));
    law_present_messages_are_all_known(before.board.messages, texts(result.new_messages@));
    law_relevant_messages_are_all_that_concern(before.board, before.agent, found);
}

/// A message that starts a conversation says what was given, to whom it was given,
/// and lasts as long as was said.
pub proof fn law_opening_says_what_was_given(
    to: Vec<String>,
    group: Option<String>,
    payload: Payload,
    r: MessageDraft,
)
    requires
        call_ensures(open_conversation, (to, group, payload), r),
    ensures
        texts(r.to@) == texts(to@),
        text_option(r.group) == text_option(group),
        r.thread is None,
        r.reply_to is None,
        r.body@ == payload.message@,
        text_option(r.meta) == text_option(payload.meta),
        r.ttl_seconds == payload.ttl_seconds,
{
    assert(r@.body == payload@.message);
}

/// What becomes of a draft: the message has the draft's targets, thread, parent,
/// text and metadata. One without a thread starts its own. It has an expiry date
/// exactly if the draft has a lifetime, that of now and the lifetime.
pub proof fn law_message_says_what_its_draft_says(
    from: &str,
    draft: MessageDraft,
    id: String,
    now: Moment,
    r: Message,
)
    requires
        on_clock(now),
        draft_fault(draft@, now) is None,
        call_ensures(compose_message, (from, draft, id, now), r),
    ensures
        r.schema@ == MESSAGE_SCHEMA@,
        r.id@ == id@,
        r.from@ == from@,
        Some(r.timestamp@) == Some(rfc3339_millis(now.seconds, now.nanos)->Some_0),
        texts(r.to@) == texts(draft.to@),
        text_option(r.group) == text_option(draft.group),
        draft.thread is Some ==> r.thread@ == draft.thread->Some_0@,
        draft.thread is None ==> r.thread@ == id@,
        text_option(r.reply_to) == text_option(draft.reply_to),
        r.message@ == draft.body@,
        text_option(r.meta) == text_option(draft.meta),
        r.expires_at is Some <==> draft.ttl_seconds is Some,
        draft.ttl_seconds matches Some(ttl) ==> text_option(r.expires_at) == rfc3339_millis(
            (now.seconds + ttl) as i64,
            now.nanos,
        ),
{
    assert(r@.message == draft@.body);
}

/// A message that is published now says what its draft says, and is dated and expires
/// by the same clock.
pub proof fn law_published_message_says_what_its_draft_says(
    ids: &mut IdSource,
    from: &str,
    draft: MessageDraft,
    r: Result<Message, BoardError>,
)
    requires
        call_ensures(publish_message, (ids, from, draft), r),
        r is Ok,
    ensures
        ({
            let message = r->Ok_0;
            &&& message.schema@ == MESSAGE_SCHEMA@
            &&& message.from@ == from@
            &&& texts(message.to@) == texts(draft.to@)
            &&& text_option(message.group) == text_option(draft.group)
            &&& draft.thread is Some ==> message.thread@ == draft.thread->Some_0@
            &&& draft.thread is None ==> message.thread@ == message.id@
            &&& text_option(message.reply_to) == text_option(draft.reply_to)
            &&& message.message@ == draft.body@
            &&& text_option(message.meta) == text_option(draft.meta)
            &&& exists|now: Moment|
                on_clock(now) && #[trigger] rfc3339_millis(now.seconds, now.nanos)->Some_0
                    == message.timestamp@ && text_option(message.expires_at) == match draft.ttl_seconds {
                    Some(ttl) => rfc3339_millis((now.seconds + ttl) as i64, now.nanos),
                    None => None,
                }
        }),
{
    let message = r->Ok_0;
    let now = choose|now: Moment|
        on_clock(now) && #[trigger] crate::storage::is_composed(r, from@, draft@, now);
    assert(message@ == crate::storage::composed(from@, draft@, message@.id, now));
    assert(message@.message == draft@.body);
    assert(rfc3339_millis(now.seconds, now.nanos)->Some_0 == message.timestamp@);
}

/// Whether a message to these targets is accepted from an agent: to a group that is
/// everyone's, its project's, or known and joined, or else to agents of the board, at
/// least one.
pub open spec fn may_send(
    board: BoardView,
    agent: AgentView,
    to: Seq<Seq<char>>,
    group: Option<Seq<char>>,
) -> bool {
    match group {
        Some(name) => name == "global"@ || name == "project:"@ + agent.project || (
        board.groups.contains_key(name) && board.memberships.contains((name, agent.id))),
        None => to.len() > 0 && forall|i: int|
            0 <= i < to.len() ==> board.agents.contains_key(#[trigger] to[i]),
    }
}

pub proof fn lemma_no_strangers(board: BoardView, to: Seq<Seq<char>>)
    ensures
        crate::app::strangers(board, to).len() == 0 <==> forall|i: int|
            0 <= i < to.len() ==> board.agents.contains_key(#[trigger] to[i]),
    decreases to.len(),
{
    reveal_with_fuel(Seq::filter, 2);
    if to.len() > 0 {
        let init = to.drop_last();
        lemma_no_strangers(board, init);
        let keep = |recipient: Seq<char>| !board.agents.contains_key(recipient);
        assert(to.filter(keep).len() == init.filter(keep).len() + if keep(to.last()) {
            1int
        } else {
            0
        });
        if forall|i: int| 0 <= i < init.len() ==> board.agents.contains_key(#[trigger] init[i]) {
            assert forall|i: int|
                0 <= i < to.len() && board.agents.contains_key(
                    to.last(),
                ) implies board.agents.contains_key(#[trigger] to[i]) by {
                if i < init.len() {
                    assert(init[i] == to[i]);
                }
            }
        }
        if forall|i: int| 0 <= i < to.len() ==> board.agents.contains_key(#[trigger] to[i]) {
            assert forall|i: int| 0 <= i < init.len() implies board.agents.contains_key(
                #[trigger] init[i],
            ) by {
                assert(init[i] == to[i]);
            }
            assert(board.agents.contains_key(to[to.len() - 1]));
        }
    }
}

/// A command to send is refused exactly where its targets are; else it publishes what
/// it was given, as long as it was told to last. The agent's sign of life is kept, and
/// nothing else changes.
pub proof fn law_send_publishes_what_was_given(
    state: &mut BoardState,
    agent: &Agent,
    presence: Presence,
    command: Command,
    now: Moment,
    r: Work,
)
    requires
        on_clock(now),
        call_ensures(handle_command, (state, agent, presence, command, now), r),
        command is Send,
    ensures
        ({
            let to = texts(command->Send_to@);
            let group = text_option(command->Send_group);
            &&& r is Publish || r is Refuse
            &&& r is Publish <==> may_send(old(state)@, agent@, to, group)
            &&& r matches Work::Publish(draft) ==> {
                &&& texts(draft.to@) == to
                &&& text_option(draft.group) == group
                &&& draft.thread is None
                &&& draft.reply_to is None
                &&& draft.body@ == command->Send_message@
                &&& text_option(draft.meta) == text_option(command->Send_meta)
                &&& draft.ttl_seconds == command->Send_ttl_seconds
            }
            &&& final(state)@ == (BoardView {
                presence: old(state)@.presence.insert(agent.id@, presence@),
                ..old(state)@
            })
        }),
{
    lemma_no_strangers(old(state)@, texts(command->Send_to@));
    assert(texts(command->Send_to@).len() == command->Send_to@.len());
    match r {
        Work::Publish(draft) => {
            assert(draft@.body == command->Send_message@);
        },
        _ => {},
    }
}

/// The message of a command to send has the text and the metadata that were given, and
/// an expiry date exactly if a lifetime was given, that of now and the lifetime.
pub proof fn law_sent_message_says_what_was_given(
    state: &mut BoardState,
    agent: &Agent,
    presence: Presence,
    command: Command,
    now: Moment,
    work: Work,
    from: &str,
    id: String,
    later: Moment,
    message: Message,
)
    requires
        on_clock(now),
        on_clock(later),
        command is Send,
        call_ensures(handle_command, (state, agent, presence, command, now), work),
        work is Publish,
        draft_fault(work->Publish_0@, later) is None,
        call_ensures(compose_message, (from, work->Publish_0, id, later), message),
    ensures
        message.message@ == command->Send_message@,
        text_option(message.meta) == text_option(command->Send_meta),
        texts(message.to@) == texts(command->Send_to@),
        text_option(message.group) == text_option(command->Send_group),
        message.thread@ == id@,
        message.reply_to is None,
        message.expires_at is Some <==> command->Send_ttl_seconds is Some,
        command->Send_ttl_seconds matches Some(ttl) ==> text_option(message.expires_at)
            == rfc3339_millis((later.seconds + ttl) as i64, later.nanos),
{
    law_send_publishes_what_was_given(state, agent, presence, command, now, work);
    law_message_says_what_its_draft_says(from, work->Publish_0, id, later, message);
}

/// A tool call to send is refused exactly where its targets are; else it publishes what
/// it was given, as long as it was told to last.
pub proof fn law_tool_send_publishes_what_was_given(
    server: &ZboardServer,
    to: Vec<String>,
    group: Option<String>,
    payload: Payload,
    r: Result<MessageDraft, BoardError>,
)
    requires
        call_ensures(ZboardServer::message_send, (server, to, group, payload), r),
    ensures
        r is Ok <==> may_send(server@.board, server@.agent, texts(to@), text_option(group)),
        r matches Ok(draft) ==> {
            &&& texts(draft.to@) == texts(to@)
            &&& text_option(draft.group) == text_option(group)
            &&& draft.thread is None
            &&& draft.reply_to is None
            &&& draft.body@ == payload.message@
            &&& text_option(draft.meta) == text_option(payload.meta)
            &&& draft.ttl_seconds == payload.ttl_seconds
        },
{
    lemma_no_strangers(server@.board, texts(to@));
    assert(texts(to@).len() == to@.len());
    match r {
        Ok(draft) => {
            assert(draft@.body == payload@.message);
        },
        _ => {},
    }
}

/// Those who took part in a direct message, but for one, in order and each once.
pub proof fn law_reply_goes_to_the_others(message: &Message, agent: &str, r: Vec<String>)
    requires
        call_ensures(direct_reply_recipients, (message, agent), r),
    ensures
        ascending(texts(r@)),
        forall|who: Seq<char>| #[trigger]
            texts(r@).contains(who) <==> who != agent@ && (who == message.from@ || texts(
                message.to@,
            ).contains(who)),
{
    assert forall|who: Seq<char>| #[trigger] texts(r@).contains(who) <==> who != agent@ && (who
        == message.from@ || texts(message.to@).contains(who)) by {
        assert(texts(r@).contains(who) <==> texts(r@).to_set().contains(who));
        assert(texts(message.to@).contains(who) <==> texts(message.to@).to_set().contains(who));
    }
}

/// Whether a reply can be made: the message is known, and it went to a group or someone
/// else took part in it.
pub open spec fn may_reply(board: BoardView, agent: Seq<char>, to: Seq<char>) -> bool {
    board.messages.contains_key(to) && (board.messages[to].group is Some
        || board.messages[to].from != agent || exists|i: int|
        0 <= i < board.messages[to].to.len() && #[trigger] board.messages[to].to[i] != agent)
}

/// Whether a draft is the reply to a message that says what was given: in its thread and
/// naming it, in its group or to the others who took part.
pub open spec fn is_reply(
    draft: MessageDraft,
    parent: MessageView,
    agent: Seq<char>,
    message: Seq<char>,
    meta: Option<Seq<char>>,
    ttl_seconds: Option<u64>,
) -> bool {
    &&& draft.body@ == message
    &&& text_option(draft.meta) == meta
    &&& draft.ttl_seconds == ttl_seconds
    &&& text_option(draft.thread) == Some(parent.thread)
    &&& text_option(draft.reply_to) == Some(parent.id)
    &&& text_option(draft.group) == parent.group
    &&& parent.group is Some ==> draft.to@.len() == 0
    &&& parent.group is None ==> {
        &&& ascending(texts(draft.to@))
        &&& forall|who: Seq<char>| #[trigger]
            texts(draft.to@).contains(who) <==> who != agent && (who == parent.from
                || parent.to.contains(who))
    }
}

proof fn lemma_reply(board: BoardView, agent: Seq<char>, to: Seq<char>)
    ensures
        crate::app::reply_fault(board, agent, to) is None <==> may_reply(board, agent, to),
        board.messages.contains_key(to) ==> {
            let list = listing(others(board.messages[to], agent));
            &&& ascending(list)
            &&& forall|who: Seq<char>| #[trigger]
                list.contains(who) <==> who != agent && (who == board.messages[to].from
                    || board.messages[to].to.contains(who))
        },
{
    if board.messages.contains_key(to) {
        let parent = board.messages[to];
        let set = others(parent, agent);
        let list = listing(set);
        vstd::seq_lib::seq_to_set_is_finite(parent.to);
        lemma_listing_of(set);
        assert forall|who: Seq<char>| #[trigger] list.contains(who) <==> who != agent && (who
            == parent.from || parent.to.contains(who)) by {
            assert(list.contains(who) <==> list.to_set().contains(who));
            assert(parent.to.contains(who) <==> parent.to.to_set().contains(who));
        }
        if parent.from != agent {
            assert(list.contains(parent.from));
        }
        if exists|i: int| 0 <= i < parent.to.len() && #[trigger] parent.to[i] != agent {
            let i = choose|i: int| 0 <= i < parent.to.len() && #[trigger] parent.to[i] != agent;
            assert(parent.to.contains(parent.to[i]));
            assert(list.contains(parent.to[i]));
        }
        if list.len() > 0 {
            assert(list.contains(list[0]));
            if list[0] != parent.from {
                let i = choose|i: int| 0 <= i < parent.to.len() && parent.to[i] == list[0];
                assert(parent.to[i] != agent);
            }
        }
    }
}

/// A reply says what was given, for every parent, in a group or not. It is refused
/// exactly where its parent is unknown or no one else took part.
pub proof fn law_reply_says_what_was_given(
    state: &BoardState,
    agent_id: &str,
    to: &str,
    payload: Payload,
    r: Result<MessageDraft, BoardError>,
)
    requires
        call_ensures(draft_reply, (state, agent_id, to, payload), r),
    ensures
        r is Ok <==> may_reply(state@, agent_id@, to@),
        r matches Ok(draft) ==> is_reply(
            draft,
            state@.messages[to@],
            agent_id@,
            payload.message@,
            text_option(payload.meta),
            payload.ttl_seconds,
        ),
{
    lemma_reply(state@, agent_id@, to@);
    match r {
        Ok(draft) => {
            assert(draft@.body == payload@.message);
            assert(texts(draft.to@).len() == draft.to@.len());
        },
        _ => {},
    }
}

/// A tool call to reply says what was given, for every parent.
pub proof fn law_tool_reply_says_what_was_given(
    server: &ZboardServer,
    message_id: &str,
    payload: Payload,
    r: Result<MessageDraft, BoardError>,
)
    requires
        call_ensures(ZboardServer::message_reply, (server, message_id, payload), r),
    ensures
        r is Ok <==> may_reply(server@.board, server@.agent.id, message_id@),
        r matches Ok(draft) ==> is_reply(
            draft,
            server@.board.messages[message_id@],
            server@.agent.id,
            payload.message@,
            text_option(payload.meta),
            payload.ttl_seconds,
        ),
{
    lemma_reply(server@.board, server@.agent.id, message_id@);
    match r {
        Ok(draft) => {
            assert(draft@.body == payload@.message);
            assert(texts(draft.to@).len() == draft.to@.len());
        },
        _ => {},
    }
}

/// A command to reply is refused exactly where a reply is; else it publishes one that
/// says what was given.
pub proof fn law_reply_command_publishes_what_was_given(
    state: &mut BoardState,
    agent: &Agent,
    presence: Presence,
    command: Command,
    now: Moment,
    r: Work,
)
    requires
        on_clock(now),
        call_ensures(handle_command, (state, agent, presence, command, now), r),
        command is Reply,
    ensures
        ({
            let to = command->Reply_to@;
            &&& r is Publish || r is Refuse
            &&& r is Publish <==> may_reply(old(state)@, agent.id@, to)
            &&& r matches Work::Publish(draft) ==> is_reply(
                draft,
                old(state)@.messages[to],
                agent.id@,
                command->Reply_message@,
                text_option(command->Reply_meta),
                command->Reply_ttl_seconds,
            )
            &&& final(state)@ == (BoardView {
                presence: old(state)@.presence.insert(agent.id@, presence@),
                ..old(state)@
            })
        }),
{
    lemma_reply(old(state)@, agent.id@, command->Reply_to@);
    lemma_reply(final(state)@, agent.id@, command->Reply_to@);
    match r {
        Work::Publish(draft) => {
            assert(draft@.body == command->Reply_message@);
            assert(texts(draft.to@).len() == draft.to@.len());
        },
        _ => {},
    }
}

/// The message of a reply has the text and the metadata that were given, stays in the
/// conversation of its parent, and has an expiry date exactly if a lifetime was given.
pub proof fn law_replied_message_says_what_was_given(
    state: &BoardState,
    agent_id: &str,
    to: &str,
    payload: Payload,
    draft: Result<MessageDraft, BoardError>,
    id: String,
    now: Moment,
    message: Message,
)
    requires
        call_ensures(draft_reply, (state, agent_id, to, payload), draft),
        draft is Ok,
        on_clock(now),
        draft_fault(draft->Ok_0@, now) is None,
        call_ensures(compose_message, (agent_id, draft->Ok_0, id, now), message),
    ensures
        message.message@ == payload.message@,
        text_option(message.meta) == text_option(payload.meta),
        message.from@ == agent_id@,
        message.thread@ == state@.messages[to@].thread,
        text_option(message.reply_to) == Some(state@.messages[to@].id),
        text_option(message.group) == state@.messages[to@].group,
        message.expires_at is Some <==> payload.ttl_seconds is Some,
        payload.ttl_seconds matches Some(ttl) ==> text_option(message.expires_at) == rfc3339_millis(
            (now.seconds + ttl) as i64,
            now.nanos,
        ),
{
    law_reply_says_what_was_given(state, agent_id, to, payload, draft);
    law_message_says_what_its_draft_says(agent_id, draft->Ok_0, id, now, message);
}

/// A message that was sent is kept under its identifier, which is told, and nothing else
/// changes.
pub proof fn law_sent_message_is_kept(state: &mut BoardState, message: &Message, r: Output)
    requires
        call_ensures(message_sent, (state, message), r),
    ensures
        r matches Output::Sent { id } && id@ == message.id@,
        final(state)@ == (BoardView {
            messages: old(state)@.messages.insert(message.id@, message@),
            ..old(state)@
        }),
{
}

/// A history is told after its warnings, with its messages as they were found.
pub proof fn law_history_is_told(findings: Findings, r: Vec<Output>)
    requires
        call_ensures(history_told, (findings,), r),
    ensures
        r@.len() == findings.warnings@.len() + 1,
        forall|i: int|
            0 <= i < findings.warnings@.len() ==> views(r@)[i] == (OutputView::Warning {
                message: (#[trigger] findings.warnings@[i])@,
            }),
        views(r@).last() == (OutputView::History { messages: views(findings.messages@) }),
{
    assert(views(r@).len() == r@.len());
    assert forall|i: int| 0 <= i < findings.warnings@.len() implies views(r@)[i] == (
    OutputView::Warning { message: (#[trigger] findings.warnings@[i])@ }) by {
        assert(texts(findings.warnings@)[i] == findings.warnings@[i]@);
    }
}

/// Whether statuses tell the agents of a board at a time: each once, in the order of
/// identities, with its own record. One with a sign of life, online or not, with when it
/// was last seen; where that date can be read, with the whole seconds since then, and
/// online for as long as these are no more than 60. One without a sign with neither.
pub open spec fn tell_agents(board: BoardView, now: Moment, list: Seq<AgentStatus>) -> bool {
    &&& ascending(Seq::new(list.len(), |i: int| list[i].agent.id@))
    &&& forall|id: Seq<char>| #[trigger]
        board.agents.contains_key(id) ==> exists|i: int|
            0 <= i < list.len() && (#[trigger] list[i]).agent@ == board.agents[id]
    &&& forall|i: int|
        0 <= i < list.len() ==> {
            let status = #[trigger] list[i];
            let id = status.agent.id@;
            &&& board.agents.contains_key(id)
            &&& status.agent@ == board.agents[id]
            &&& board.presence.contains_key(id) ==> text_option(status.last_seen) == Some(
                board.presence[id].last_seen,
            )
            &&& !board.presence.contains_key(id) ==> status.last_seen is None
                && status.age_seconds is None
            &&& board.presence.contains_key(id) ==> match rfc3339_reading(
                board.presence[id].last_seen,
            ) {
                Ok(seen) => {
                    &&& status.age_seconds is Some
                    &&& seen.1 < 1_000_000_000 && seen.0 >= -62_167_305_600 ==> {
                        let age = status.age_seconds->Some_0;
                        let span = (now.seconds - seen.0) * 1_000_000_000 + now.nanos - seen.1;
                        &&& span < 0 ==> age == 0
                        &&& span >= 0 ==> age * 1_000_000_000 <= span < (age + 1) * 1_000_000_000
                    }
                },
                Err(_) => status.age_seconds is None,
            }
            &&& status.online <==> status.age_seconds is Some && status.age_seconds->Some_0 <= 60
        }
}

/// Whether the agents of a board are known under their identities.
pub open spec fn has_named_agents(board: BoardView) -> bool {
    board.agents.dom().finite() && forall|id: Seq<char>| #[trigger]
        board.agents.contains_key(id) ==> board.agents[id].id == id
}

/// The agents of a board are listed with their presence: by its functions, by a command
/// and by a tool.
pub proof fn law_agents_are_listed_with_their_presence(
    state: &BoardState,
    now: Moment,
    listed: Vec<AgentStatus>,
    listed_now: Vec<AgentStatus>,
    server: &ZboardServer,
    told: Vec<AgentStatus>,
    board: &mut BoardState,
    agent: &Agent,
    presence: Presence,
    answer: Work,
)
    requires
        on_clock(now),
        call_ensures(agent_statuses_at, (state, now), listed),
        call_ensures(agent_statuses, (state,), listed_now),
        has_named_agents(state@),
        call_ensures(ZboardServer::agents_list, (server, now), told),
        has_named_agents(server@.board),
        call_ensures(handle_command, (board, agent, presence, Command::Agents, now), answer),
        has_named_agents(old(board)@),
    ensures
        tell_agents(state@, now, listed@),
        exists|clock: Moment| #[trigger]
            on_clock(clock) && tell_agents(state@, clock, listed_now@),
        tell_agents(server@.board, now, told@),
        answer matches Work::Answer(Output::Agents { agents }) && tell_agents(
            final(board)@,
            now,
            agents@,
        ),
        final(board)@.agents == old(board)@.agents,
        final(board)@.presence == old(board)@.presence.insert(agent.id@, presence@),
{
    lemma_statuses(state@, now, listed@);
    let clock = choose|clock: Moment|
        on_clock(clock) && views(listed_now@) == #[trigger] crate::storage::statuses_of(
            state@,
            clock,
        );
    lemma_statuses(state@, clock, listed_now@);
    assert(on_clock(clock) && tell_agents(state@, clock, listed_now@));
    lemma_statuses(server@.board, now, told@);
    match answer {
        Work::Answer(Output::Agents { agents }) => {
            lemma_statuses(final(board)@, now, agents@);
        },
        _ => {},
    }
}

proof fn lemma_statuses(board: BoardView, now: Moment, list: Seq<AgentStatus>)
    requires
        on_clock(now),
        has_named_agents(board),
        views(list) == crate::storage::statuses_of(board, now),
    ensures
        tell_agents(board, now, list),
{
    let keys = listing(board.agents.dom());
    lemma_listing_of(board.agents.dom());
    assert(views(list).len() == list.len());
    assert forall|i: int| 0 <= i < list.len() implies {
        &&& board.agents.contains_key(keys[i])
        &&& (#[trigger] list[i])@ == crate::storage::status_of(
            board.agents[keys[i]],
            crate::storage::lookup(board.presence, keys[i]),
            now,
        )
        &&& list[i].agent.id@ == keys[i]
    } by {
        assert(views(list)[i] == list[i]@);
        assert(keys.to_set().contains(keys[i]));
        assert(board.agents.contains_key(keys[i]));
    }
    assert forall|id: Seq<char>| #[trigger] board.agents.contains_key(id) implies exists|i: int|
        0 <= i < list.len() && (#[trigger] list[i]).agent@ == board.agents[id] by {
        assert(keys.to_set().contains(id));
        let k = choose|k: int| 0 <= k < keys.len() && keys[k] == id;
        assert(list[k].agent@ == board.agents[id]);
    }
}

} // verus!
