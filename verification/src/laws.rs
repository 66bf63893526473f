//! What holds of the board as a whole.
use crate::app::{answer, opening, reply_fault, target_fault, PayloadView};
use crate::clock::{on_clock, rfc3339_reading, whole_seconds, Moment};
use crate::collections::{ascending, listing};
use crate::error::BoardError;
use crate::frame::zstd_content;
use crate::mcp::{after_poll, polled, project_of, slugged, tool_send_fault, ServerView};
use crate::model::{
    AgentView, GroupView, MembershipView, PresenceView, AGENT_SCHEMA, GROUP_SCHEMA,
    MEMBERSHIP_SCHEMA,
};
use crate::path::{child, components, is_name, is_plain, last_name, lemma_child_components};
use crate::routed::{global_route, project_route, shard};
use crate::storage::{
    agent_identity, agent_path, agent_step, composed, creation_fault, document_title, draft_fault,
    is_decoded, is_encoded, is_slug, is_slug_char, joining_fault, lower, message_fault, others,
    registration, registration_fault, session_key, status_of, BoardView, DraftView, EncodedDocument,
    ScanView, SeenView, DOCUMENT_SUFFIX,
};
use crate::text::precedes;
use crate::ulids::{is_alphanumeric, is_exhausted, is_next_id, is_ulid, IdSource};
use vstd::prelude::*;

verus! {

/// Registering the same conversation of the same project again succeeds, from
/// whatever platform and path, and finds the registration as it was made.
pub proof fn law_registration_is_idempotent(
    project: Seq<char>,
    session_id: Seq<char>,
    platform: Seq<char>,
    path: Seq<char>,
    registered_at: Seq<char>,
)
    requires
        registration_fault(project, session_id, None) is None,
    ensures
        registration_fault(
            project,
            session_id,
            Some(Ok(registration(project, session_id, platform, path, registered_at))),
        ) is None,
{
}

/// Creating a group again succeeds and finds the group as it was made.
pub proof fn law_group_creation_is_idempotent(name: Seq<char>, created_by: Seq<char>, created_at: Seq<char>)
    requires
        creation_fault(name, None) is None,
    ensures
        creation_fault(
            name,
            Some(Ok(GroupView { schema: GROUP_SCHEMA@, name, created_by, created_at })),
        ) is None,
{
}

/// Joining a group again succeeds and finds the membership as it was made.
pub proof fn law_joining_is_idempotent(name: Seq<char>, agent: Seq<char>, joined_at: Seq<char>)
    requires
        joining_fault(name, agent, true, None) is None,
    ensures
        joining_fault(
            name,
            agent,
            true,
            Some(
                Ok(MembershipView { schema: MEMBERSHIP_SCHEMA@, group: name, agent, joined_at }),
            ),
        ) is None,
{
}

/// A document of another kind at the path of a registration, or one of another
/// conversation, is refused and not replaced.
pub proof fn law_conflicting_registration_is_refused(
    project: Seq<char>,
    session_id: Seq<char>,
    stored: AgentView,
)
    requires
        stored.schema != AGENT_SCHEMA@ || stored.project != project || stored.session_id != session_id,
    ensures
        registration_fault(project, session_id, Some(Ok(stored))) is Some,
{
}

/// A session key is made of small ASCII letters and digits.
pub proof fn law_session_key_is_plain(session: Seq<char>)
    ensures
        forall|i: int|
            0 <= i < session_key(session).len() ==> {
                let c = #[trigger] session_key(session)[i];
                is_alphanumeric(c) && lower(c) == c
            },
    decreases session.len(),
{
    reveal_with_fuel(Seq::filter, 2);
    if session.len() > 0 {
        law_session_key_is_plain(session.drop_last());
        lemma_key_step(session);
    } else {
        assert(session_key(session) =~= seq![]);
    }
}

proof fn lemma_key_step(session: Seq<char>)
    requires
        session.len() > 0,
    ensures
        session_key(session) == if is_alphanumeric(session.last()) {
            session_key(session.drop_last()).push(lower(session.last()))
        } else {
            session_key(session.drop_last())
        },
{
    reveal_with_fuel(Seq::filter, 2);
    let keep = |c: char| is_alphanumeric(c);
    let before = session.drop_last().filter(keep);
    assert(session.filter(keep) == if is_alphanumeric(session.last()) {
        before.push(session.last())
    } else {
        before
    });
    assert(session_key(session) =~= if is_alphanumeric(session.last()) {
        session_key(session.drop_last()).push(lower(session.last()))
    } else {
        session_key(session.drop_last())
    });
}

/// Normalizing a session key changes nothing.
pub proof fn law_session_key_is_normal(session: Seq<char>)
    ensures
        session_key(session_key(session)) == session_key(session),
    decreases session.len(),
{
    if session.len() == 0 {
        reveal_with_fuel(Seq::filter, 2);
        assert(session_key(session) =~= seq![]);
    } else {
        law_session_key_is_normal(session.drop_last());
        lemma_key_step(session);
        let before = session_key(session.drop_last());
        if is_alphanumeric(session.last()) {
            let longer = before.push(lower(session.last()));
            law_session_key_is_plain(session);
            assert(is_alphanumeric(longer[longer.len() - 1]));
            assert(longer.drop_last() =~= before);
            lemma_key_step(longer);
        }
    }
}

/// The identity of an agent tells its project and its session key.
pub proof fn law_identity_tells_project_and_session(
    project: Seq<char>,
    session: Seq<char>,
    other_project: Seq<char>,
    other_session: Seq<char>,
)
    requires
        agent_identity(project, session_key(session)) == agent_identity(
            other_project,
            session_key(other_session),
        ),
    ensures
        project == other_project,
        session_key(session) == session_key(other_session),
{
    reveal_strlit("-");
    let a = session_key(session);
    let b = session_key(other_session);
    let id = agent_identity(project, a);
    law_session_key_is_plain(session);
    law_session_key_is_plain(other_session);
    assert(id.len() == project.len() + 1 + a.len());
    assert(id.len() == other_project.len() + 1 + b.len());
    assert(id[project.len() as int] == '-');
    assert(id[other_project.len() as int] == '-');
    if project.len() < other_project.len() {
        let k = other_project.len() - project.len() - 1;
        assert(id[other_project.len() as int] == a[k]);
        assert(is_alphanumeric(a[k]));
    }
    if other_project.len() < project.len() {
        let k = project.len() - other_project.len() - 1;
        assert(id[project.len() as int] == b[k]);
        assert(is_alphanumeric(b[k]));
    }
    assert(project =~= id.take(project.len() as int));
    assert(other_project =~= id.take(project.len() as int));
    assert(a =~= id.skip(project.len() as int + 1));
    assert(b =~= id.skip(project.len() as int + 1));
}

/// A name without slashes, with the suffix of documents, is one component.
pub proof fn lemma_document_name(name: Seq<char>)
    requires
        !name.contains('/'),
    ensures
        is_plain(name + DOCUMENT_SUFFIX@),
        is_name(name + DOCUMENT_SUFFIX@),
{
    reveal_strlit(".json.zst");
    reveal_strlit("/");
    reveal_strlit(".");
    reveal_strlit("..");
    let full = name + DOCUMENT_SUFFIX@;
    assert(full.len() >= 9);
    assert forall|i: int| 0 <= i < full.len() implies full[i] != '/' by {
        if i < name.len() {
            assert(name.contains(name[i]));
        }
    }
}

/// The document `name` in a directory has that title.
pub proof fn lemma_document_title(base: Seq<char>, name: Seq<char>)
    requires
        !name.contains('/'),
    ensures
        document_title(child(base, name + DOCUMENT_SUFFIX@)) == Some(name),
        last_name(child(base, name + DOCUMENT_SUFFIX@)) == Some(name + DOCUMENT_SUFFIX@),
{
    let full = name + DOCUMENT_SUFFIX@;
    lemma_document_name(name);
    lemma_child_components(base, full);
    crate::text::lemma_suffix_appended(name, DOCUMENT_SUFFIX@);
}

/// A project or group name is one component of a path.
pub proof fn lemma_slug_is_plain(name: Seq<char>)
    requires
        is_slug(name),
    ensures
        is_plain(name),
        is_name(name),
{
    reveal_strlit("/");
    reveal_strlit(".");
    reveal_strlit("..");
    assert(is_slug_char(name[0]));
    assert forall|i: int| 0 <= i < name.len() implies name[i] != '/' by {
        assert(is_slug_char(name[i]));
    }
}

/// What a registration stores, a scan takes in.
pub proof fn law_registered_agent_is_found(
    scan: ScanView,
    version_root: Seq<char>,
    project: Seq<char>,
    session_id: Seq<char>,
    platform: Seq<char>,
    path: Seq<char>,
    registered_at: Seq<char>,
)
    requires
        registration_fault(project, session_id, None) is None,
        !scan.board.loaded_paths.contains(agent_path(version_root, project, session_key(session_id))),
    ensures
        ({
            let agent = registration(project, session_id, platform, path, registered_at);
            let after = agent_step(
                scan,
                SeenView::Document {
                    folder: child(child(version_root, "agents"@), project),
                    path: agent_path(version_root, project, session_key(session_id)),
                    content: Ok(agent),
                },
            );
            &&& after.board.agents == scan.board.agents.insert(agent.id, agent)
            &&& after.warnings == scan.warnings
        }),
{
    let key = session_key(session_id);
    law_session_key_is_plain(session_id);
    assert(!key.contains('/')) by {
        if key.contains('/') {
            let i = choose|i: int| 0 <= i < key.len() && key[i] == '/';
            assert(is_alphanumeric(key[i]));
        }
    }
    lemma_slug_is_plain(project);
    lemma_child_components(child(version_root, "agents"@), project);
    lemma_document_title(child(child(version_root, "agents"@), project), key);
}

/// A draft that is published becomes a message that readers accept.
pub proof fn law_published_message_is_accepted(
    from: Seq<char>,
    draft: DraftView,
    id: Seq<char>,
    now: Moment,
)
    requires
        draft_fault(draft, now) is None,
        is_ulid(id),
    ensures
        message_fault(composed(from, draft, id, now), id) is None,
{
}

/// A message that starts a conversation names its thread by its own identifier.
pub proof fn law_opening_names_its_thread(
    from: Seq<char>,
    to: Seq<Seq<char>>,
    group: Option<Seq<char>>,
    payload: PayloadView,
    id: Seq<char>,
    now: Moment,
)
    ensures
        composed(from, opening(to, group, payload), id, now).thread == id,
        composed(from, opening(to, group, payload), id, now).reply_to is None,
{
}

/// A reply stays in the thread of its parent and names it. In a group it stays
/// in the group; else it goes to all who took part but the one who replies, and
/// only to them.
pub proof fn law_reply_keeps_the_conversation(
    board: BoardView,
    agent: Seq<char>,
    to: Seq<char>,
    payload: PayloadView,
    id: Seq<char>,
    now: Moment,
)
    requires
        reply_fault(board, agent, to) is None,
    ensures
        ({
            let parent = board.messages[to];
            let reply = composed(agent, answer(parent, agent, payload), id, now);
            &&& board.messages.contains_key(to)
            &&& reply.thread == parent.thread
            &&& reply.reply_to == Some(parent.id)
            &&& reply.group == parent.group
            &&& parent.group is Some ==> reply.to.len() == 0
            &&& parent.group is None ==> reply.to.len() > 0 && reply.to.to_set() == others(
                parent,
                agent,
            ) && !reply.to.contains(agent) && ascending(reply.to)
        }),
{
    let parent = board.messages[to];
    if parent.group is None {
        let set = others(parent, agent);
        vstd::seq_lib::seq_to_set_is_finite(parent.to);
        lemma_listing_of(set);
        let list = listing(set);
        if list.contains(agent) {
            assert(list.to_set().contains(agent));
        }
    }
}

/// A finite set of texts has an ascending listing.
pub proof fn lemma_listing_of(set: Set<Seq<char>>)
    requires
        set.finite(),
    ensures
        ascending(listing(set)),
        listing(set).to_set() == set,
    decreases set.len(),
{
    if set.len() == 0 {
        let none = Seq::<Seq<char>>::empty();
        assert(none.to_set() =~= set);
        assert(ascending(none) && none.to_set() == set);
    } else {
        let x = set.choose();
        let rest = set.remove(x);
        lemma_listing_of(rest);
        let list = listing(rest);
        let longer = lemma_place(list, x);
        assert(longer.to_set() =~= set);
        assert(ascending(longer) && longer.to_set() == set);
    }
}

/// A text that is not in an ascending list has its place there.
proof fn lemma_place(list: Seq<Seq<char>>, x: Seq<char>) -> (r: Seq<Seq<char>>)
    requires
        ascending(list),
        !list.contains(x),
    ensures
        ascending(r),
        r.to_set() == list.to_set().insert(x),
    decreases list.len(),
{
    if list.len() == 0 {
        let r = seq![x];
        assert(r[0] == x);
        assert(r.to_set() =~= list.to_set().insert(x));
        r
    } else {
        let last = list.last();
        let init = list.drop_last();
        assert forall|i: int, j: int| 0 <= i < j < init.len() implies precedes(
            #[trigger] init[i],
            #[trigger] init[j],
        ) by {
            assert(precedes(list[i], list[j]));
        }
        crate::text::lemma_precedes_total(last, x);
        assert(list.contains(last));
        if precedes(last, x) {
            let r = list.push(x);
            assert forall|i: int, j: int| 0 <= i < j < r.len() implies precedes(
                #[trigger] r[i],
                #[trigger] r[j],
            ) by {
                if j == list.len() && i < list.len() - 1 {
                    assert(precedes(list[i], last));
                    crate::text::lemma_precedes_transitive(list[i], last, x);
                }
            }
            assert(r.to_set() =~= list.to_set().insert(x)) by {
                crate::collections::lemma_take_set(r, list.len() as int);
                assert(r.take(list.len() as int) =~= list);
                assert(r.take(list.len() as int + 1) =~= r);
            }
            r
        } else {
            assert(!init.contains(x)) by {
                if init.contains(x) {
                    let i = choose|i: int| 0 <= i < init.len() && init[i] == x;
                    assert(list[i] == x);
                }
            }
            let placed = lemma_place(init, x);
            let r = placed.push(last);
            assert forall|i: int| 0 <= i < placed.len() implies precedes(#[trigger] placed[i], last) by {
                assert(placed.to_set().contains(placed[i]));
                if placed[i] != x {
                    assert(init.contains(placed[i]));
                    let k = choose|k: int| 0 <= k < init.len() && init[k] == placed[i];
                    assert(precedes(list[k], list[list.len() - 1]));
                }
            }
            assert(r.to_set() =~= list.to_set().insert(x)) by {
                crate::collections::lemma_take_set(r, placed.len() as int);
                assert(r.take(placed.len() as int) =~= placed);
                assert(r.take(placed.len() as int + 1) =~= r);
                crate::collections::lemma_take_set(list, init.len() as int);
                assert(list.take(init.len() as int) =~= init);
                assert(list.take(init.len() as int + 1) =~= list);
            }
            r
        }
    }
}

/// A sign of life keeps its agent online for 60 whole seconds and no longer.
pub proof fn law_presence_lasts_a_minute(agent: AgentView, sign: PresenceView, seen: Moment, now: Moment)
    requires
        on_clock(now),
        rfc3339_reading(sign.last_seen) is Ok,
        rfc3339_reading(sign.last_seen)->Ok_0 == (seen.seconds, seen.nanos),
        seen.nanos < 1_000_000_000,
        seen.seconds >= -62_167_305_600,
    ensures
        status_of(agent, Some(sign), now).online <==> (now.seconds - seen.seconds) * 1_000_000_000
            + now.nanos - seen.nanos < 61_000_000_000,
{
    let age = whole_seconds(now, seen);
    let span = (now.seconds - seen.seconds) * 1_000_000_000 + now.nanos - seen.nanos;
    assert(Moment { seconds: seen.seconds, nanos: seen.nanos } == seen);
    assert(0 <= age <= u64::MAX);
}

/// An agent without a sign of life is not online.
pub proof fn law_silent_agent_is_offline(agent: AgentView, now: Moment)
    ensures
        !status_of(agent, None, now).online,
        status_of(agent, None, now).last_seen is None,
{
}

/// An agent may send to a group other than everyone's and its project's only once
/// it has joined it, by command or by tool.
pub proof fn law_group_send_requires_membership(
    board: BoardView,
    agent: AgentView,
    to: Seq<Seq<char>>,
    group: Seq<char>,
)
    requires
        group != global_route(),
        group != project_route(agent.project),
        !board.memberships.contains((group, agent.id)),
    ensures
        target_fault(board, agent, group) is Some,
        tool_send_fault(board, agent, to, Some(group)) is Some,
{
}

/// The name that a project takes from its directory is one that registration
/// accepts.
pub proof fn law_derived_project_is_a_slug(directory: Seq<char>)
    requires
        project_of(directory) is Some,
    ensures
        is_slug(project_of(directory)->Some_0),
{
    let name = last_name(directory)->Some_0;
    let project = project_of(directory)->Some_0;
    lemma_components_nonempty(directory);
    assert(project.len() == name.len());
    assert forall|i: int| 0 <= i < project.len() implies is_slug_char(#[trigger] project[i]) by {
        assert(project[i] == slugged(name[i]));
    }
}

/// No component of a path is empty.
proof fn lemma_components_nonempty(path: Seq<char>)
    ensures
        forall|i: int|
            0 <= i < components(path).len() ==> (#[trigger] components(path)[i]).len() > 0,
{
    reveal_strlit("/");
    crate::path::lemma_counted_nonempty(crate::path::pieces(path));
}

/// A shard is named by two hexadecimal digits.
pub proof fn law_shard_is_two_digits(value: Seq<char>)
    ensures
        shard(value).len() == 2,
        forall|i: int|
            0 <= i < 2 ==> {
                let c = #[trigger] shard(value)[i];
                ('0' <= c && c <= '9') || ('a' <= c && c <= 'f')
            },
{
    reveal_with_fuel(crate::text::hex_digits, 3);
}

/// Polls give the messages of the inbox in order, each once: what a poll gives
/// and what it leaves is what was there, and what it gives is what the next poll
/// acknowledges.
pub proof fn law_polls_lose_nothing(server: ServerView, limit: nat)
    ensures
        polled(server, limit) + after_poll(server, limit).inbox == server.inbox,
        polled(server, limit).len() <= limit,
        limit > 0 && server.inbox.len() > 0 ==> polled(server, limit).len() > 0,
        after_poll(server, limit).pending_ack == polled(server, limit),
{
    assert(polled(server, limit) + after_poll(server, limit).inbox =~= server.inbox);
}

/// What a process creates one after the other sorts in the order of its creation,
/// as long as its source has identifiers left in the millisecond.
pub proof fn law_identifiers_of_a_process_ascend(
    first: Seq<char>,
    second: Seq<char>,
    start: IdSource,
    between: IdSource,
    end: IdSource,
)
    requires
        is_next_id(first, start, between),
        is_next_id(second, between, end),
        !is_exhausted(start.last()),
        !is_exhausted(between.last()),
    ensures
        precedes(first, second),
{
}

/// A document that is read gives back what was written.
pub proof fn law_document_reads_back(
    written: Result<EncodedDocument, BoardError>,
    path: Seq<char>,
    json: Seq<u8>,
    suffix: u64,
    read: Result<Vec<u8>, BoardError>,
)
    requires
        written is Ok,
        is_encoded(written, path, json, suffix),
        read is Ok,
        is_decoded(read, path, written->Ok_0.bytes@),
    ensures
        read->Ok_0@ == json,
{
}

/// A document that is not whole or not sound is never read.
pub proof fn law_unsound_document_is_refused(
    path: Seq<char>,
    bytes: Seq<u8>,
    read: Result<Vec<u8>, BoardError>,
)
    requires
        zstd_content(bytes) is None,
        is_decoded(read, path, bytes),
    ensures
        read is Err,
{
}

} // verus!
