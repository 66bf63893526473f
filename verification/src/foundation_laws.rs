//! What holds of the ground that the rest stands on: what is seen of records, the order of
//! texts and times, and paths.
use crate::app::{unknown_recipients, Arguments, Payload};
use crate::clock::{
    age_in_seconds, is_no_later, millis_before, minute_directories, nanoseconds, CalendarMinute,
    Interval, Moment,
};
use crate::error::BoardError;
use crate::laws::lemma_document_name;
use crate::mcp::ZboardServer;
use crate::model::{
    Agent, AgentStatus, Command, CommandView, Group, GroupSummary, Membership, Message, Output,
    OutputView, Presence,
};
use crate::path::{
    ancestors, child, components, counted, is_name, is_plain, lemma_child_components,
    lemma_path_decided, parent, path_precedes, pieces, with_slashes,
};
use crate::routed::{
    consumer_directory, document_id, portable, prune_empty_expiry_ancestors, shard, Checkpoint,
    Expiry, RouteCursor, RoutedState, Sighting,
};
use crate::storage::{
    agent_document, document_directory, group_document, is_slug, membership_document,
    presence_directory, session_key, BoardState, MessageDraft,
};
use crate::text::{
    comes_before, hex_digits, lemma_precedes_common, numeral, padded, precedes, text_option, texts,
    views,
};
use crate::ulids::{is_ulid, ulid_decoding, ulid_time};
use vstd::prelude::*;

verus! {

/// A message is seen with all of its fields.
pub proof fn law_message_is_seen_whole(message: Message)
    ensures
        message@.schema == message.schema@,
        message@.id == message.id@,
        message@.timestamp == message.timestamp@,
        message@.from == message.from@,
        message@.to == texts(message.to@),
        message@.group == text_option(message.group),
        message@.thread == message.thread@,
        message@.reply_to == text_option(message.reply_to),
        message@.message == message.message@,
        message@.meta == text_option(message.meta),
        message@.expires_at == text_option(message.expires_at),
{
}

/// A registration is seen with all of its fields.
pub proof fn law_agent_is_seen_whole(agent: Agent)
    ensures
        agent@.schema == agent.schema@,
        agent@.id == agent.id@,
        agent@.project == agent.project@,
        agent@.session_id == agent.session_id@,
        agent@.platform == agent.platform@,
        agent@.path == agent.path@,
        agent@.registered_at == agent.registered_at@,
{
}

/// A group is seen with all of its fields.
pub proof fn law_group_is_seen_whole(group: Group)
    ensures
        group@.schema == group.schema@,
        group@.name == group.name@,
        group@.created_by == group.created_by@,
        group@.created_at == group.created_at@,
{
}

/// A membership is seen with all of its fields.
pub proof fn law_membership_is_seen_whole(membership: Membership)
    ensures
        membership@.schema == membership.schema@,
        membership@.group == membership.group@,
        membership@.agent == membership.agent@,
        membership@.joined_at == membership.joined_at@,
{
}

/// A sign of life is seen with all of its fields.
pub proof fn law_presence_is_seen_whole(presence: Presence)
    ensures
        presence@.schema == presence.schema@,
        presence@.id == presence.id@,
        presence@.agent == presence.agent@,
        presence@.last_seen == presence.last_seen@,
{
}

/// The status of an agent is seen with all of its fields.
pub proof fn law_agent_status_is_seen_whole(status: AgentStatus)
    ensures
        status@.agent == status.agent@,
        status@.online == status.online,
        status@.last_seen == text_option(status.last_seen),
        status@.age_seconds == status.age_seconds,
{
}

/// The summary of a group is seen with all of its fields.
pub proof fn law_group_summary_is_seen_whole(summary: GroupSummary)
    ensures
        summary@.name == summary.name@,
        summary@.created_by == summary.created_by@,
        summary@.members == texts(summary.members@),
{
}

/// A draft is seen with all of its fields.
pub proof fn law_message_draft_is_seen_whole(draft: MessageDraft)
    ensures
        draft@.to == texts(draft.to@),
        draft@.group == text_option(draft.group),
        draft@.thread == text_option(draft.thread),
        draft@.reply_to == text_option(draft.reply_to),
        draft@.body == draft.body@,
        draft@.meta == text_option(draft.meta),
        draft@.ttl_seconds == draft.ttl_seconds,
{
}

/// What is to be said is seen with all of its fields.
pub proof fn law_payload_is_seen_whole(payload: Payload)
    ensures
        payload@.message == payload.message@,
        payload@.meta == text_option(payload.meta),
        payload@.ttl_seconds == payload.ttl_seconds,
{
}

/// A cursor is seen with all of its fields.
pub proof fn law_route_cursor_is_seen_whole(cursor: RouteCursor)
    ensures
        cursor@.high_water == cursor.high_water@,
        cursor@.overlap_ids == texts(cursor.overlap_ids@),
{
}

/// A checkpoint is seen with all of its fields.
pub proof fn law_checkpoint_is_seen_whole(checkpoint: Checkpoint)
    ensures
        checkpoint@.schema == checkpoint.schema@,
        checkpoint@.id == checkpoint.id@,
        checkpoint@.agent == checkpoint.agent@,
        checkpoint@.updated_at == checkpoint.updated_at@,
        checkpoint@.routes == checkpoint.routes@,
{
}

/// An entry of the index is seen with all of its fields.
pub proof fn law_expiry_is_seen_whole(expiry: Expiry)
    ensures
        expiry@.schema == expiry.schema@,
        expiry@.message == expiry.message@,
        expiry@.expires_at == expiry.expires_at@,
        expiry@.paths == texts(expiry.paths@),
{
}

/// The state of a consumer is seen with all of its fields.
pub proof fn law_routed_state_is_seen_whole(state: RoutedState)
    ensures
        state@.agent_id == state.agent_id@,
        state@.project == state.project@,
        state@.cursors == state.cursors@,
        state@.loaded == state.loaded@,
        state@.warned == state.warned@,
        state@.last_gc == state.last_gc,
{
}

/// A board is seen with all of its fields.
pub proof fn law_board_state_is_seen_whole(state: BoardState)
    ensures
        state@.agents == state.agents@,
        state@.groups == state.groups@,
        state@.memberships == state.memberships@,
        state@.messages == state.messages@,
        state@.presence == state.presence@,
        state@.routed == state.routed@,
        state@.loaded_paths == state.loaded_paths@,
        state@.loaded_presence_paths == state.loaded_presence_paths@,
        state@.warned_paths == state.warned_paths@,
{
}

/// A tool server is seen with all of its fields.
pub proof fn law_zboard_server_is_seen_whole(server: ZboardServer)
    ensures
        server@.root == server.root@,
        server@.agent == server.agent@,
        server@.poll_interval == server.poll_interval,
        server@.board == server.board@,
        server@.inbox == views(server.inbox@),
        server@.pending_ack == views(server.pending_ack@),
{
}

/// The arguments of a command line are seen with all of their fields.
pub proof fn law_arguments_is_seen_whole(arguments: Arguments)
    ensures
        arguments@.root == text_option(arguments.root),
        arguments@.project == text_option(arguments.project),
        arguments@.session == text_option(arguments.session),
        arguments@.project_path == text_option(arguments.project_path),
        arguments@.poll_interval == arguments.poll_interval,
{
}

/// A document that was seen on a route is seen with its route, its path and its content.
pub proof fn law_sighting_is_seen_whole(seen: Sighting)
    ensures
        seen@.route == seen.route@,
        seen@.path == seen.path@,
        seen.content matches Ok(message) ==> seen@.content == Ok::<_, Seq<char>>(message@),
        seen.content matches Err(words) ==> seen@.content is Err && seen@.content->Err_0 == words@,
{
}

/// A list of texts is seen with each of them, in order, and an optional text as it is.
pub proof fn law_texts_are_seen_whole(list: Seq<String>, i: int, text: String)
    ensures
        texts(list).len() == list.len(),
        0 <= i < list.len() ==> texts(list)[i] == list[i]@,
        text_option(Some(text)) == Some(text@),
        text_option(None) is None,
{
}

/// A command is seen with what it was given.
pub proof fn law_command_is_seen_whole(command: Command)
    ensures
        match command {
            Command::Send { to, group, message, meta, ttl_seconds } => command@
                == (CommandView::Send {
                to: texts(to@),
                group: text_option(group),
                message: message@,
                meta: text_option(meta),
                ttl_seconds,
            }),
            Command::Reply { to, message, meta, ttl_seconds } => command@ == (CommandView::Reply {
                to: to@,
                message: message@,
                meta: text_option(meta),
                ttl_seconds,
            }),
            Command::GroupCreate { name } => command@ == (CommandView::GroupCreate { name: name@ }),
            Command::GroupJoin { name } => command@ == (CommandView::GroupJoin { name: name@ }),
            Command::Agents => command@ is Agents,
            Command::Groups => command@ is Groups,
            Command::History { thread, group, limit } => command@ == (CommandView::History {
                thread: text_option(thread),
                group: text_option(group),
                limit,
            }),
            Command::Ping => command@ is Ping,
        },
{
}

/// An event is seen with what it tells.
pub proof fn law_event_is_seen_whole(output: Output)
    ensures
        match output {
            Output::Ready { agent, latest } => output@ == (OutputView::Ready {
                agent: agent@,
                latest: text_option(latest),
            }),
            Output::Sent { id } => output@ == (OutputView::Sent { id: id@ }),
            Output::Incoming { message } => output@ == (OutputView::Incoming { message: message@ }),
            Output::Agents { agents } => output@ == (OutputView::Agents { agents: views(agents@) }),
            Output::Groups { groups } => output@ == (OutputView::Groups { groups: views(groups@) }),
            Output::History { messages } => output@ == (OutputView::History {
                messages: views(messages@),
            }),
            Output::GroupCreated { name } => output@ == (OutputView::GroupCreated { name: name@ }),
            Output::GroupJoined { name } => output@ == (OutputView::GroupJoined { name: name@ }),
            Output::Pong => output@ is Pong,
            Output::Warning { message } => output@ == (OutputView::Warning { message: message@ }),
            Output::Error { op, message } => output@ == (OutputView::Error {
                op: text_option(op),
                message: message@,
            }),
        },
{
}

/// Texts are ordered as in a dictionary: by their first difference, and a beginning comes
/// before what it begins.
pub proof fn law_texts_are_ordered_as_in_a_dictionary(
    common: Seq<char>,
    a: char,
    b: char,
    rest: Seq<char>,
    other: Seq<char>,
)
    ensures
        (a as int) < (b as int) ==> precedes(
            common + (seq![a] + rest),
            common + (seq![b] + other),
        ),
        precedes(common, common + (seq![a] + rest)),
        !precedes(common, common),
{
    if (a as int) < (b as int) {
        let x = seq![a] + rest;
        let y = seq![b] + other;
        assert(x[0] == a && y[0] == b);
        lemma_precedes_common(common, x, y);
    }
    lemma_beginning_precedes(common, seq![a] + rest);
    crate::text::lemma_precedes_irreflexive(common);
}

proof fn lemma_beginning_precedes(common: Seq<char>, rest: Seq<char>)
    requires
        rest.len() > 0,
    ensures
        precedes(common, common + rest),
    decreases common.len(),
{
    if common.len() > 0 {
        lemma_beginning_precedes(common.drop_first(), rest);
        assert((common + rest).drop_first() =~= common.drop_first() + rest);
    }
}

/// Two texts are compared by their order.
pub proof fn law_texts_are_compared(a: &str, b: &str, r: bool)
    requires
        call_ensures(comes_before, (a, b), r),
    ensures
        r <==> precedes(a@, b@),
{
}

/// Moments are compared by their seconds, and then by their nanoseconds.
pub proof fn law_moments_are_compared(a: Moment, b: Moment, r: bool)
    requires
        call_ensures(is_no_later, (a, b), r),
    ensures
        r <==> a.seconds < b.seconds || (a.seconds == b.seconds && a.nanos <= b.nanos),
{
}

/// The age of a moment is the whole seconds since it, none if it lies ahead. A leap second
/// that is over by the time of day counts as one of its own.
pub proof fn law_age_is_in_whole_seconds(now: Moment, seen: Moment, r: u64)
    requires
        crate::clock::on_clock(now),
        crate::clock::in_range(seen),
        call_ensures(age_in_seconds, (now, seen), r),
    ensures
        ({
            let plain = (now.seconds - seen.seconds) * 1_000_000_000 + now.nanos - seen.nanos;
            let span = if seen.nanos >= 1_000_000_000 && now.seconds % 86_400 > seen.seconds
                % 86_400 {
                plain + 1_000_000_000
            } else {
                plain
            };
            &&& span < 0 ==> r == 0
            &&& span >= 0 ==> r * 1_000_000_000 <= span < (r + 1) * 1_000_000_000
        }),
{
}

/// The time some minutes before a moment is told in milliseconds since the epoch.
pub proof fn law_minutes_before_are_told_in_milliseconds(m: Moment, minutes: u32, r: u64)
    requires
        crate::clock::in_range(m),
        minutes <= 60,
        call_ensures(millis_before, (m, minutes), r),
    ensures
        ({
            let millis = (m.seconds - 60 * minutes) * 1000 + m.nanos / 1_000_000;
            r == if millis < 0 {
                0
            } else {
                millis
            }
        }),
{
}

/// The directories of a calendar minute are its year in four digits and its month, day,
/// hour and minute in two.
pub proof fn law_minute_has_five_directories(m: CalendarMinute, r: Vec<String>)
    requires
        call_ensures(minute_directories, (m,), r),
    ensures
        r@.len() == 5,
        r@[0]@ == padded(m.year as int, 4),
        r@[1]@ == padded(m.month as int, 2),
        r@[2]@ == padded(m.day as int, 2),
        r@[3]@ == padded(m.hour as int, 2),
        r@[4]@ == padded(m.minute as int, 2),
{
    let list = texts(r@);
    assert(list.len() == r@.len());
    assert(list[0] == r@[0]@);
    assert(list[1] == r@[1]@);
    assert(list[2] == r@[2]@);
    assert(list[3] == r@[3]@);
    assert(list[4] == r@[4]@);
}

/// A span is told in nanoseconds.
pub proof fn law_span_is_told_in_nanoseconds(interval: Interval, r: u128)
    requires
        call_ensures(nanoseconds, (interval,), r),
    ensures
        r == interval.seconds * 1_000_000_000 + interval.nanos,
{
}

/// A number is written in its decimal digits: the last is the remainder by ten, and the
/// others write the rest.
pub proof fn law_numbers_are_written_in_digits(n: nat)
    ensures
        n < 10 ==> numeral(n) == seq![(48 + n) as char],
        n >= 10 ==> numeral(n) == numeral(n / 10).push((48 + n % 10) as char),
{
}

/// The time of an identifier is the first 48 of its 128 bits, in milliseconds.
pub proof fn law_identifier_has_its_time(text: &str, r: Option<u64>)
    requires
        call_ensures(ulid_time, (text,), r),
    ensures
        r is Some <==> is_ulid(text@),
        r matches Some(millis) ==> millis * 0x1_0000_0000_0000_0000_0000int <= ulid_decoding(
            text@,
        )->Ok_0 < (millis + 1) * 0x1_0000_0000_0000_0000_0000int,
{
}

/// A slash at the end of a path, and a dot after it, change nothing of it.
pub proof fn law_closing_slash_changes_no_path(path: Seq<char>)
    requires
        path.len() > 0,
    ensures
        components(path + "/"@) == components(path),
        components(path + "/."@) == components(path),
{
    reveal_strlit("/");
    reveal_strlit("/.");
    reveal_strlit(".");
    let slash = path + "/"@;
    let dot = path + "/."@;
    assert(slash.drop_last() =~= path);
    assert(dot.drop_last() =~= slash);
    crate::expiry_laws::lemma_pieces_plain(path);
    assert(pieces(slash) == pieces(path).push(seq![]));
    assert(pieces(slash).drop_last() =~= pieces(path));
    assert(counted(pieces(slash)) == counted(pieces(path)));
    let last = pieces(slash).update(
        pieces(slash).len() - 1,
        pieces(slash).last().push('.'),
    );
    assert(pieces(dot) == last);
    assert(last.last() =~= "."@);
    assert(last.drop_last() =~= pieces(path));
    assert(counted(pieces(dot)) == counted(pieces(path)));
}

/// A name in a directory adds itself to the directory's components, and the directory is
/// where it lies.
pub proof fn law_name_lies_in_its_directory(base: Seq<char>, name: Seq<char>)
    requires
        is_plain(name),
    ensures
        components(child(base, name)) == components(base).push(name),
        components(base).len() > 0 && components(base)[0] == "/"@ ==> parent(child(base, name))
            == Some("/"@ + with_slashes(components(base).drop_first())),
        components(base).len() == 0 || components(base)[0] != "/"@ ==> parent(child(base, name))
            == Some(with_slashes(components(base))),
{
    reveal_strlit("/");
    lemma_child_components(base, name);
    let parts = components(child(base, name));
    assert(parts.drop_last() =~= components(base));
    assert(parts.last() == name);
    assert(name != "/"@) by {
        assert("/"@.contains("/"@[0]));
    }
}

/// A document's directory is where its path lies; only a path without one has none.
pub proof fn law_document_has_its_directory(path: &str, r: Result<String, BoardError>)
    requires
        call_ensures(document_directory, (path,), r),
    ensures
        r is Ok <==> parent(path@) is Some,
        r matches Ok(directory) ==> Some(directory@) == parent(path@),
{
}

/// The registration of a conversation stands under its project, by its session's key.
pub proof fn law_registration_has_its_place(
    version_root: &str,
    project: &str,
    session_id: &str,
    r: Result<String, BoardError>,
)
    requires
        call_ensures(agent_document, (version_root, project, session_id), r),
    ensures
        r is Ok <==> is_slug(project@) && session_key(session_id@).len() > 0,
        r matches Ok(path) ==> components(path@) == components(version_root@) + seq![
            "agents"@,
            project@,
            session_key(session_id@) + ".json.zst"@,
        ],
{
    if is_slug(project@) {
        crate::record_laws::lemma_registration_components(version_root@, project@, session_id@);
    }
}

/// A group, its members and the signs of life of an agent stand where their names say.
pub proof fn law_group_records_have_their_places(
    version_root: &str,
    name: &str,
    agent_id: &str,
    group: String,
    membership: String,
    signs: String,
)
    requires
        is_plain(name@),
        is_plain(agent_id@),
        call_ensures(group_document, (version_root, name), group),
        call_ensures(membership_document, (version_root, name, agent_id), membership),
        call_ensures(presence_directory, (version_root, agent_id), signs),
    ensures
        components(group@) == components(version_root@) + seq![
            "groups"@,
            name@,
            "group.json.zst"@,
        ],
        components(membership@) == components(version_root@) + seq![
            "groups"@,
            name@,
            "members"@,
            agent_id@ + ".json.zst"@,
        ],
        components(signs@) == components(version_root@) + seq!["presence"@, agent_id@],
{
    crate::record_laws::lemma_literal_names();
    lemma_document_name(agent_id@);
    let a = child(version_root@, "groups"@);
    let b = child(a, name@);
    let c = child(b, "members"@);
    lemma_child_components(version_root@, "groups"@);
    lemma_child_components(a, name@);
    lemma_child_components(b, "group.json.zst"@);
    lemma_child_components(b, "members"@);
    lemma_child_components(c, agent_id@ + ".json.zst"@);
    lemma_child_components(version_root@, "presence"@);
    lemma_child_components(child(version_root@, "presence"@), agent_id@);
    assert(components(group@) =~= components(version_root@) + seq![
        "groups"@,
        name@,
        "group.json.zst"@,
    ]);
    assert(components(membership@) =~= components(version_root@) + seq![
        "groups"@,
        name@,
        "members"@,
        agent_id@ + ".json.zst"@,
    ]);
    assert(components(signs@) =~= components(version_root@) + seq!["presence"@, agent_id@]);
}

/// The checkpoints of a consumer stand by the shard of its name, under the name.
pub proof fn law_checkpoints_have_their_directory(root: &str, agent: &str, r: String)
    requires
        is_plain(agent@),
        call_ensures(consumer_directory, (root, agent), r),
    ensures
        components(r@) == components(root@) + seq![
            "v2"@,
            "consumers"@,
            shard(agent@),
            agent@,
        ],
{
    crate::expiry_laws::lemma_fixed_names();
    crate::expiry_laws::lemma_shard_is_safe(agent@);
    reveal_strlit("v2/consumers");
    reveal_strlit("v2");
    reveal_strlit("/");
    reveal_strlit(".");
    reveal_strlit("consumers");
    assert("consumers"@.len() == 9);
    assert(is_plain("consumers"@));
    assert("v2/consumers"@ =~= "v2"@ + "/"@ + "consumers"@);
    crate::expiry_laws::lemma_two_names(root@, "v2"@, "consumers"@);
    let a = child(root@, "v2/consumers"@);
    let b = child(a, shard(agent@));
    lemma_child_components(a, shard(agent@));
    lemma_child_components(b, agent@);
    assert(components(r@) =~= components(root@) + seq![
        "v2"@,
        "consumers"@,
        shard(agent@),
        agent@,
    ]);
}

/// The recipients that are told as unknown are those that are no agents of the board, in
/// their order.
pub proof fn law_unknown_recipients_are_no_agents(
    state: &BoardState,
    recipients: &Vec<String>,
    r: Vec<String>,
    who: Seq<char>,
)
    requires
        call_ensures(unknown_recipients, (state, recipients), r),
    ensures
        texts(r@).contains(who) <==> texts(recipients@).contains(who) && !state@.agents.contains_key(
            who,
        ),
        r@.len() <= recipients@.len(),
{
    let keep = |recipient: Seq<char>| !state@.agents.contains_key(recipient);
    crate::routed_laws::lemma_filter_members(texts(recipients@), keep, who);
    assert(texts(r@).len() == r@.len());
    assert(texts(recipients@).len() == recipients@.len());
    texts(recipients@).lemma_filter_len(keep);
}

/// A path below the root is portable by the names below the root; one elsewhere by all of
/// its components.
pub proof fn law_portable_path_has_the_names_below(
    root: Seq<char>,
    path: Seq<char>,
    names: Seq<Seq<char>>,
)
    ensures
        components(path) == components(root) + names ==> portable(root, path) == with_slashes(names),
        (forall|below: Seq<Seq<char>>| components(path) != #[trigger] (components(root) + below))
            ==> portable(root, path) == with_slashes(components(path)),
{
    let parts = components(path);
    let base = components(root);
    if parts == base + names {
        assert(parts.take(base.len() as int) =~= base);
        assert(parts.skip(base.len() as int) =~= names);
    }
    if crate::path::is_within(parts, base) {
        assert(parts =~= base + parts.skip(base.len() as int));
    }
}

/// The directories that may go with an entry of the index are its own and those above it,
/// up to the root of the index, which stays.
pub proof fn law_root_of_the_index_stays(start: &str, root: &str, r: Vec<String>, i: int)
    requires
        call_ensures(prune_empty_expiry_ancestors, (start, root), r),
        0 <= i < r@.len(),
    ensures
        r@[i]@ == ancestors(start@)[i],
        components(r@[i]@) != components(root@),
{
    assert(texts(r@)[i] == r@[i]@);
}

/// The identifier of a document is that of its title, where it is one.
pub proof fn law_document_has_the_identifier_of_its_title(path: &str, r: Option<u128>)
    requires
        call_ensures(document_id, (path,), r),
    ensures
        r is Some <==> crate::storage::document_title(path@) is Some && is_ulid(
            crate::storage::document_title(path@)->Some_0,
        ),
        r matches Some(value) ==> ulid_decoding(crate::storage::document_title(path@)->Some_0)
            == Ok::<u128, Seq<char>>(value),
{
}

/// Paths are ordered by the first name in which they differ, and a directory comes before
/// what lies in it.
pub proof fn law_paths_are_ordered_by_their_names(
    common: Seq<Seq<char>>,
    a: Seq<char>,
    b: Seq<char>,
    rest: Seq<Seq<char>>,
    other: Seq<Seq<char>>,
)
    requires
        is_name(a),
        is_name(b),
        a != b,
    ensures
        path_precedes(common.push(a) + rest, common.push(b) + other) <==> precedes(a, b),
        path_precedes(common, common.push(a) + rest),
{
    let x = common.push(a) + rest;
    let y = common.push(b) + other;
    let at = common.len() as int;
    assert(x.take(at) =~= y.take(at));
    lemma_path_decided(x, y, at);
    lemma_directory_precedes(common, seq![a] + rest);
    assert(common + (seq![a] + rest) =~= x);
}

proof fn lemma_directory_precedes(common: Seq<Seq<char>>, rest: Seq<Seq<char>>)
    requires
        rest.len() > 0,
    ensures
        path_precedes(common, common + rest),
    decreases common.len(),
{
    if common.len() > 0 {
        lemma_directory_precedes(common.drop_first(), rest);
        assert((common + rest).drop_first() =~= common.drop_first() + rest);
    }
}

/// A number is written in hexadecimal digits: the last is the remainder by sixteen, and
/// the others write the rest.
pub proof fn law_hexadecimal_digits_write_the_number(n: nat, width: nat)
    ensures
        hex_digits(n, 0) == Seq::<char>::empty(),
        hex_digits(n, width + 1) == hex_digits(n / 16, width).push(
            if n % 16 < 10 {
                (48 + n % 16) as char
            } else {
                (87 + n % 16) as char
            },
        ),
{
}

/// A number that is padded has zeros before its digits up to the width, and the sign of a
/// negative one before the zeros.
pub proof fn law_padding_is_with_zeros(n: int, width: int)
    ensures
        n >= 0 ==> {
            let text = padded(n, width);
            let digits = numeral(n as nat);
            &&& text.len() == if digits.len() < width {
                width
            } else {
                digits.len() as int
            }
            &&& text.skip(text.len() - digits.len()) == digits
            &&& forall|i: int| 0 <= i < text.len() - digits.len() ==> #[trigger] text[i] == '0'
        },
        n < 0 ==> padded(n, width) == seq!['-'] + padded(-n, width - 1),
{
    if n >= 0 {
        let text = padded(n, width);
        let digits = numeral(n as nat);
        assert(text.skip(text.len() - digits.len()) =~= digits);
    } else {
        assert(padded(n, width) =~= seq!['-'] + padded(-n, width - 1));
    }
}

/// Names are joined with slashes between them.
pub proof fn law_names_are_joined_with_slashes(names: Seq<Seq<char>>, name: Seq<char>)
    ensures
        with_slashes(seq![]) == Seq::<char>::empty(),
        with_slashes(seq![name]) == name,
        names.len() > 0 ==> with_slashes(names.push(name)) == with_slashes(names) + "/"@ + name,
{
    assert(names.push(name).drop_last() =~= names);
}

} // verus!
