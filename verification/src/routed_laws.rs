//! What holds of routes, delivery, history and expiry.
use crate::app::relevant;
use crate::clock::{epoch_millis, on_clock, rfc3339_reading, Moment};
use crate::collections::{ascending, in_order, listing, sorted, sorted_list};
use crate::laws::lemma_listing_of;
use crate::model::{AgentView, MessageView};
use crate::path::descendant;
use crate::routed::{
    accepted, acknowledged, advanced, advanced_by, advanced_on, all_there, checkpoint_of, cleared,
    concerns, cursor_of, direct_route, expired, global_route, group_route, history_read,
    history_route, history_routes_of, is_complete, is_publication, is_remembered, is_since, last_of,
    loaded_floor, location_fault, locations, message_location, minute_of, newest, no_routes,
    overlap_floor, project_route, read_routes, recent_folders, resumes, route_step, routes_for,
    routes_of, routes_scanned, scan_end, scan_start, stored_fault, trimmed, undelivered, vacant,
    CheckpointView, CursorView, Publication, RouteScanView, RoutedView, SightingView, CACHE_LIMIT,
};
use crate::storage::{groups_of, is_relevant, is_slug, is_slug_char, message_fault, BoardView};
use crate::text::{
    begins_with, lemma_precedes_irreflexive, lemma_precedes_total, lemma_precedes_transitive,
    lemma_prefix_prepended, precedes, texts,
};
use crate::ulids::{is_ulid, ulid_millis};
use vstd::prelude::*;

verus! {

/// The kinds of routes are told apart by their first characters.
proof fn lemma_route_kinds()
    ensures
        global_route()[0] == 'g',
        global_route()[1] == 'l',
        global_route().len() == 6,
        "project:"@[0] == 'p',
        "project:"@.len() == 8,
        "group:"@[0] == 'g',
        "group:"@[1] == 'r',
        "group:"@.len() == 6,
        "direct:"@[0] == 'd',
        "direct:"@.len() == 7,
        "project:"@[7] == ':',
{
    reveal_strlit("global");
    reveal_strlit("project:");
    reveal_strlit("group:");
    reveal_strlit("direct:");
}

/// The same prefix before two texts tells them apart.
proof fn lemma_prefix_injective(prefix: Seq<char>, a: Seq<char>, b: Seq<char>)
    requires
        prefix + a == prefix + b,
    ensures
        a == b,
{
    lemma_prefix_prepended(prefix, a);
    lemma_prefix_prepended(prefix, b);
}

/// A direct message takes the routes of those who take part in it, and no
/// others.
pub proof fn law_direct_message_goes_to_participants(message: MessageView, agent: Seq<char>)
    requires
        message.group is None,
    ensures
        routes_of(message).contains(direct_route(agent)) <==> message.to.contains(agent)
            || message.from == agent,
        forall|i: int|
            0 <= i < routes_of(message).len() ==> begins_with(
                #[trigger] routes_of(message)[i],
                "direct:"@,
            ),
{
    let people = message.to.push(message.from);
    let routes = routes_of(message);
    if routes.contains(direct_route(agent)) {
        let i = choose|i: int| 0 <= i < routes.len() && routes[i] == direct_route(agent);
        assert(routes[i] == direct_route(people[i]));
        lemma_prefix_injective("direct:"@, people[i], agent);
        if i < message.to.len() {
            assert(message.to[i] == agent);
        }
    }
    if message.to.contains(agent) {
        let i = choose|i: int| 0 <= i < message.to.len() && message.to[i] == agent;
        assert(people[i] == agent);
        assert(routes[i] == direct_route(agent));
    }
    if message.from == agent {
        assert(people[message.to.len() as int] == agent);
        assert(routes[message.to.len() as int] == direct_route(agent));
    }
    assert forall|i: int| 0 <= i < routes.len() implies begins_with(#[trigger] routes[i], "direct:"@) by {
        lemma_prefix_prepended("direct:"@, people[i]);
    }
}

/// A message that concerns an agent takes a route that the agent reads, so that
/// the agent finds it. The groups that an agent has joined have names that the
/// board accepts.
pub proof fn law_relevant_message_is_on_a_read_route(
    memberships: Set<(Seq<char>, Seq<char>)>,
    agent: AgentView,
    message: MessageView,
)
    requires
        is_relevant(memberships, agent, message),
        message_fault(message, message.id) is None,
        groups_of(memberships, agent.id).finite(),
        forall|group: Seq<char>| #[trigger] memberships.contains((group, agent.id)) ==> is_slug(group),
    ensures
        exists|route: Seq<char>|
            {
                &&& #[trigger] routes_of(message).contains(route)
                &&& read_routes(
                    agent.id,
                    agent.project,
                    listing(groups_of(memberships, agent.id)),
                ).contains(route)
                &&& concerns(route, agent.id, agent.project)
            },
{
    lemma_route_kinds();
    let groups = listing(groups_of(memberships, agent.id));
    let reads = read_routes(agent.id, agent.project, groups);
    let routes = routes_of(message);
    match message.group {
        None => {
            law_direct_message_goes_to_participants(message, agent.id);
            assert(reads[2] == direct_route(agent.id));
            assert(routes.contains(direct_route(agent.id)));
            assert(reads.contains(direct_route(agent.id)));
        },
        Some(group) => {
            assert(message.to.len() == 0);
            assert(routes.contains(routes[0]));
            if group == "global"@ {
                assert(reads[0] == global_route());
                assert(reads.contains(routes[0]));
            } else if group == project_route(agent.project) {
                lemma_prefix_prepended("project:"@, agent.project);
                assert(reads[1] == group);
                assert(reads.contains(routes[0]));
            } else {
                assert(is_slug(group));
                assert(!begins_with(group, "project:"@)) by {
                    if begins_with(group, "project:"@) {
                        assert(group.take(8)[7] == ':');
                        assert(is_slug_char(group[7]));
                    }
                }
                lemma_listing_of(groups_of(memberships, agent.id));
                assert(groups.to_set().contains(group));
                let i = choose|i: int| 0 <= i < groups.len() && groups[i] == group;
                assert(reads[3 + i] == group_route(group));
                assert(routes[0] == group_route(group));
                lemma_prefix_prepended("group:"@, group);
                assert(reads.contains(routes[0]));
            }
        },
    }
}

/// A direct conversation of others, or a message to a group that is neither open
/// to an agent nor among its groups, is on no route that the agent reads, so
/// that neither a scan nor a history shows it.
pub proof fn law_unrelated_conversation_is_not_read(
    message: MessageView,
    agent: AgentView,
    groups: Seq<Seq<char>>,
    route: Seq<char>,
)
    requires
        match message.group {
            None => !message.to.contains(agent.id) && message.from != agent.id,
            Some(group) => group != global_route() && group != project_route(agent.project)
                && !groups.contains(group),
        },
        routes_of(message).contains(route),
    ensures
        !read_routes(agent.id, agent.project, groups).contains(route),
{
    lemma_route_kinds();
    let reads = read_routes(agent.id, agent.project, groups);
    let routes = routes_of(message);
    let k = choose|k: int| 0 <= k < routes.len() && routes[k] == route;
    if reads.contains(route) {
        let i = choose|i: int| 0 <= i < reads.len() && reads[i] == route;
        assert(i == 1 ==> reads[1] == project_route(agent.project) && reads[1][0] == 'p');
        assert(i == 2 ==> reads[2] == direct_route(agent.id) && reads[2][0] == 'd');
        assert(i >= 3 ==> reads[i] == group_route(groups[i - 3]) && reads[i][0] == 'g' && reads[i][1]
            == 'r');
        match message.group {
            None => {
                let who = message.to.push(message.from)[k];
                assert(route == direct_route(who));
                assert(route[0] == 'd');
                lemma_prefix_injective("direct:"@, who, agent.id);
                if k < message.to.len() {
                    assert(message.to[k] == agent.id);
                }
            },
            Some(group) => {
                if begins_with(group, "project:"@) {
                    assert(route == group);
                    assert(group.take(8)[0] == 'p');
                } else {
                    assert(route == group_route(group));
                    assert(route[0] == 'g' && route[1] == 'r');
                    lemma_prefix_injective("group:"@, group, groups[i - 3]);
                    assert(groups.contains(groups[i - 3]));
                }
            },
        }
    }
}

/// A history of one group is read from that group's route alone.
pub proof fn law_history_of_a_group_is_its_own(
    agent: AgentView,
    groups: Seq<Seq<char>>,
    group: Seq<char>,
    route: Seq<char>,
)
    requires
        history_routes_of(agent.id, agent.project, groups, Some(group)).contains(route),
    ensures
        route == history_route(group),
        read_routes(agent.id, agent.project, groups).contains(route),
{
    let reads = read_routes(agent.id, agent.project, groups);
    let keep = |route: Seq<char>| route == history_route(group);
    lemma_filter_members(reads, keep, route);
}

/// What a filter keeps was there and passes.
pub proof fn lemma_filter_members<A>(list: Seq<A>, keep: spec_fn(A) -> bool, x: A)
    ensures
        list.filter(keep).contains(x) <==> list.contains(x) && keep(x),
    decreases list.len(),
{
    reveal_with_fuel(Seq::filter, 2);
    if list.len() > 0 {
        let init = list.drop_last();
        lemma_filter_members(init, keep, x);
        let kept = init.filter(keep);
        if list.filter(keep).contains(x) {
            let i = choose|i: int| 0 <= i < list.filter(keep).len() && list.filter(keep)[i] == x;
            if i < kept.len() {
                assert(kept[i] == x);
                assert(kept.contains(x));
                let j = choose|j: int| 0 <= j < init.len() && init[j] == x;
                assert(list[j] == x);
            } else {
                assert(list[list.len() - 1] == x);
            }
        }
        if list.contains(x) && keep(x) {
            let j = choose|j: int| 0 <= j < list.len() && list[j] == x;
            if j < init.len() {
                assert(init[j] == x);
                assert(kept.contains(x));
                let i = choose|i: int| 0 <= i < kept.len() && kept[i] == x;
                assert(list.filter(keep)[i] == x);
            } else {
                assert(list.filter(keep) == kept.push(x));
                assert(list.filter(keep)[kept.len() as int] == x);
            }
        }
    } else {
        assert(list.filter(keep).len() == 0);
    }
}

/// An agent is not told of its own messages.
pub proof fn law_own_messages_are_not_told(board: BoardView, agent: AgentView, list: Seq<MessageView>)
    ensures
        forall|i: int|
            0 <= i < relevant(board, agent, list).len() ==> {
                let message = #[trigger] relevant(board, agent, list)[i];
                message.from != agent.id && is_relevant(board.memberships, agent, message)
                    && list.contains(message)
            },
    decreases list.len(),
{
    if list.len() > 0 {
        let init = list.drop_last();
        law_own_messages_are_not_told(board, agent, init);
        let before = relevant(board, agent, init);
        let after = relevant(board, agent, list);
        assert forall|i: int| 0 <= i < after.len() implies {
            let message = #[trigger] after[i];
            message.from != agent.id && is_relevant(board.memberships, agent, message)
                && list.contains(message)
        } by {
            if i < before.len() {
                assert(after[i] == before[i]);
                let k = choose|k: int| 0 <= k < init.len() && init[k] == before[i];
                assert(list[k] == before[i]);
            } else {
                assert(list[list.len() - 1] == after[i]);
            }
        }
    }
}

/// Publishing a message again where it stands already writes nothing and
/// succeeds.
pub proof fn law_publication_is_idempotent(
    paths: Seq<Seq<char>>,
    stored: Seq<Option<Result<MessageView, Seq<char>>>>,
    message: MessageView,
)
    requires
        forall|i: int|
            0 <= i < stored.len() ==> #[trigger] stored[i] == Some(Ok::<MessageView, Seq<char>>(message)),
    ensures
        cleared(stored, message) == stored.len(),
        vacant(paths, stored, stored.len()) == Seq::<Seq<char>>::empty(),
        all_there(stored),
{
    lemma_cleared_all(stored, message);
    lemma_vacant_none(paths, stored, stored.len());
}

/// A publication can write everywhere if it can write at each place.
pub proof fn lemma_cleared_all(stored: Seq<Option<Result<MessageView, Seq<char>>>>, message: MessageView)
    requires
        forall|i: int| 0 <= i < stored.len() ==> stored_fault(#[trigger] stored[i], message) is None,
    ensures
        cleared(stored, message) == stored.len(),
    decreases stored.len(),
{
    if stored.len() > 0 {
        let init = stored.drop_last();
        assert forall|i: int| 0 <= i < init.len() implies stored_fault(#[trigger] init[i], message) is None by {
            assert(init[i] == stored[i]);
        }
        lemma_cleared_all(init, message);
        assert(stored.last() == stored[stored.len() - 1]);
    }
}

proof fn lemma_vacant_none(
    paths: Seq<Seq<char>>,
    stored: Seq<Option<Result<MessageView, Seq<char>>>>,
    count: nat,
)
    requires
        count <= stored.len(),
        forall|i: int| 0 <= i < count ==> #[trigger] stored[i] is Some,
    ensures
        vacant(paths, stored, count) == Seq::<Seq<char>>::empty(),
    decreases count,
{
    if count > 0 {
        lemma_vacant_none(paths, stored, (count - 1) as nat);
        assert(stored[count - 1] is Some);
    }
}

/// A message that stands on all of its routes is not moved by another migration:
/// nothing is written, and it counts as moved before, unless it expires at a date
/// that cannot be read.
pub proof fn law_second_migration_moves_nothing(
    publication: Publication,
    root: Seq<char>,
    message: MessageView,
    there: Seq<Option<Result<MessageView, Seq<char>>>>,
)
    requires
        is_publication(publication, root, message, there),
        location_fault(message.id) is None,
        there.len() == locations(root, message).len(),
        forall|i: int|
            0 <= i < there.len() ==> #[trigger] there[i] == Some(Ok::<MessageView, Seq<char>>(message)),
    ensures
        publication.outcome is Ok,
        publication.writes@.len() == 0,
        all_there(there),
        is_complete(publication) <==> message.expires_at is None || rfc3339_reading(
            message.expires_at->Some_0,
        ) is Ok,
{
    law_publication_is_idempotent(locations(root, message), there, message);
    assert(texts(publication.writes@).len() == publication.writes@.len());
}

/// A publication writes only where nothing is stored: no document is replaced.
pub proof fn law_publication_replaces_nothing(
    paths: Seq<Seq<char>>,
    stored: Seq<Option<Result<MessageView, Seq<char>>>>,
    count: nat,
    path: Seq<char>,
)
    requires
        count <= stored.len(),
        paths.len() == stored.len(),
        vacant(paths, stored, count).contains(path),
    ensures
        exists|i: int| 0 <= i < count && paths[i] == path && #[trigger] stored[i] is None,
    decreases count,
{
    if count > 0 {
        let before = vacant(paths, stored, (count - 1) as nat);
        let all = vacant(paths, stored, count);
        let k = choose|k: int| 0 <= k < all.len() && all[k] == path;
        if k < before.len() {
            assert(before[k] == path);
            assert(before.contains(path));
            law_publication_replaces_nothing(paths, stored, (count - 1) as nat, path);
        } else {
            assert(stored[count - 1] is None);
        }
    }
}

/// Another message in the place of one that is to be published is a conflict.
pub proof fn law_conflict_is_refused(
    stored: Seq<Option<Result<MessageView, Seq<char>>>>,
    message: MessageView,
    i: int,
)
    requires
        0 <= i < stored.len(),
        stored[i] is Some,
        stored[i]->Some_0 is Ok,
        stored[i]->Some_0->Ok_0 != message,
    ensures
        cleared(stored, message) <= i,
        stored_fault(stored[cleared(stored, message) as int], message) is Some,
    decreases stored.len(),
{
    let init = stored.drop_last();
    crate::routed::lemma_cleared_bound(stored, message);
    crate::routed::lemma_cleared_bound(init, message);
    if i < init.len() {
        assert(init[i] == stored[i]);
        law_conflict_is_refused(init, message, i);
    }
}

/// Whether a cursor holds an identifier as delivered.
spec fn holds(cursors: Map<Seq<char>, CursorView>, route: Seq<char>, id: Seq<char>) -> bool {
    &&& cursors.contains_key(route)
    &&& cursors[route].overlap_ids.contains(id)
    &&& !precedes(cursors[route].high_water, id)
}

proof fn lemma_advanced_holds(cursor: CursorView, id: Seq<char>)
    ensures
        advanced(cursor, id).overlap_ids.contains(id),
        !precedes(advanced(cursor, id).high_water, id),
{
    lemma_precedes_irreflexive(id);
    if !cursor.overlap_ids.contains(id) {
        assert(cursor.overlap_ids.push(id)[cursor.overlap_ids.len() as int] == id);
    }
}

proof fn lemma_advanced_keeps(cursor: CursorView, other: Seq<char>, id: Seq<char>)
    requires
        cursor.overlap_ids.contains(id),
        !precedes(cursor.high_water, id),
    ensures
        advanced(cursor, other).overlap_ids.contains(id),
        !precedes(advanced(cursor, other).high_water, id),
{
    let k = choose|k: int| 0 <= k < cursor.overlap_ids.len() && cursor.overlap_ids[k] == id;
    assert(cursor.overlap_ids.push(other)[k] == id);
    if precedes(cursor.high_water, other) && precedes(other, id) {
        lemma_precedes_transitive(cursor.high_water, other, id);
    }
}

proof fn lemma_advanced_on_keeps(
    cursors: Map<Seq<char>, CursorView>,
    routes: Seq<Seq<char>>,
    other: Seq<char>,
    route: Seq<char>,
    id: Seq<char>,
)
    requires
        holds(cursors, route, id),
    ensures
        holds(advanced_on(cursors, routes, other), route, id),
    decreases routes.len(),
{
    if routes.len() > 0 {
        let before = advanced_on(cursors, routes.drop_last(), other);
        lemma_advanced_on_keeps(cursors, routes.drop_last(), other, route, id);
        if routes.last() == route {
            lemma_advanced_keeps(before[route], other, id);
        }
    }
}

proof fn lemma_advanced_on_holds(
    cursors: Map<Seq<char>, CursorView>,
    routes: Seq<Seq<char>>,
    id: Seq<char>,
    route: Seq<char>,
)
    requires
        routes.contains(route),
    ensures
        holds(advanced_on(cursors, routes, id), route, id),
    decreases routes.len(),
{
    let init = routes.drop_last();
    let before = advanced_on(cursors, init, id);
    lemma_advanced_holds(cursor_of(before, routes.last()), id);
    if routes.last() != route {
        let k = choose|k: int| 0 <= k < routes.len() && routes[k] == route;
        assert(init[k] == route);
        lemma_advanced_on_holds(cursors, init, id, route);
    }
}

proof fn lemma_advanced_by_holds(
    cursors: Map<Seq<char>, CursorView>,
    messages: Seq<MessageView>,
    agent: Seq<char>,
    project: Seq<char>,
    i: int,
    route: Seq<char>,
)
    requires
        0 <= i < messages.len(),
        routes_for(messages[i], agent, project).contains(route),
    ensures
        holds(advanced_by(cursors, messages, agent, project), route, messages[i].id),
    decreases messages.len(),
{
    let init = messages.drop_last();
    let before = advanced_by(cursors, init, agent, project);
    let last = messages.last();
    if i < init.len() {
        assert(init[i] == messages[i]);
        lemma_advanced_by_holds(cursors, init, agent, project, i, route);
        lemma_advanced_on_keeps(
            before,
            routes_for(last, agent, project),
            last.id,
            route,
            messages[i].id,
        );
    } else {
        lemma_advanced_on_holds(before, routes_for(last, agent, project), last.id, route);
    }
}

/// What a trimmed cursor remembers, it had.
pub proof fn lemma_trimmed_members(cursor: CursorView, floor: int, id: Seq<char>)
    ensures
        trimmed(cursor, floor).overlap_ids.contains(id) ==> cursor.overlap_ids.contains(id)
            && is_since(id, floor),
        cursor.overlap_ids.contains(id) && is_since(id, floor) && cursor.overlap_ids.filter(
            |one: Seq<char>| is_since(one, floor),
        ).len() <= CACHE_LIMIT ==> trimmed(cursor, floor).overlap_ids.contains(id),
{
    let keep = |one: Seq<char>| is_since(one, floor);
    let kept = cursor.overlap_ids.filter(keep);
    let ordered = sorted_list(kept);
    crate::collections::lemma_sorted_list(kept);
    lemma_filter_members(cursor.overlap_ids, keep, id);
    kept.to_multiset_ensures();
    ordered.to_multiset_ensures();
    let rest = trimmed(cursor, floor).overlap_ids;
    if rest.contains(id) {
        let k = choose|k: int| 0 <= k < rest.len() && rest[k] == id;
        if ordered.len() > CACHE_LIMIT {
            assert(ordered[k + ordered.len() - CACHE_LIMIT] == id);
        }
        assert(ordered.contains(id));
        assert(ordered.to_multiset().count(id) > 0);
        assert(kept.contains(id));
    }
    if kept.contains(id) && kept.len() <= CACHE_LIMIT {
        assert(kept.to_multiset().count(id) > 0);
        assert(ordered.contains(id));
        assert(ordered.len() == kept.len());
    }
}

/// A message that was acknowledged is not delivered again on any of its routes,
/// as long as it is among the last ten minutes and the route's cursor has room
/// for what is.
pub proof fn law_acknowledged_message_is_not_redelivered(
    state: RoutedView,
    messages: Seq<MessageView>,
    now: Moment,
    i: int,
    route: Seq<char>,
)
    requires
        0 <= i < messages.len(),
        routes_for(messages[i], state.agent_id, state.project).contains(route),
        is_since(messages[i].id, overlap_floor(now)),
        advanced_by(
            state.cursors,
            messages,
            state.agent_id,
            state.project,
        )[route].overlap_ids.filter(|id: Seq<char>| is_since(id, overlap_floor(now))).len()
            <= CACHE_LIMIT,
    ensures
        !undelivered(acknowledged(state, messages, now), route, messages[i].id),
{
    let cursors = advanced_by(state.cursors, messages, state.agent_id, state.project);
    lemma_advanced_by_holds(
        state.cursors,
        messages,
        state.agent_id,
        state.project,
        i,
        route,
    );
    lemma_trimmed_members(cursors[route], overlap_floor(now), messages[i].id);
}

/// Whether a cursor does not remember an identifier.
spec fn absent(cursors: Map<Seq<char>, CursorView>, route: Seq<char>, id: Seq<char>) -> bool {
    !cursor_of(cursors, route).overlap_ids.contains(id)
}

proof fn lemma_advanced_on_absent(
    cursors: Map<Seq<char>, CursorView>,
    routes: Seq<Seq<char>>,
    other: Seq<char>,
    route: Seq<char>,
    id: Seq<char>,
)
    requires
        absent(cursors, route, id),
        other != id,
    ensures
        absent(advanced_on(cursors, routes, other), route, id),
    decreases routes.len(),
{
    if routes.len() > 0 {
        let before = advanced_on(cursors, routes.drop_last(), other);
        lemma_advanced_on_absent(cursors, routes.drop_last(), other, route, id);
        if routes.last() == route {
            let had = cursor_of(before, route).overlap_ids;
            let list = advanced(cursor_of(before, route), other).overlap_ids;
            if list.contains(id) {
                let k = choose|k: int| 0 <= k < list.len() && list[k] == id;
                if k < had.len() {
                    assert(had[k] == id);
                }
            }
        }
    }
}

proof fn lemma_advanced_by_absent(
    cursors: Map<Seq<char>, CursorView>,
    messages: Seq<MessageView>,
    agent: Seq<char>,
    project: Seq<char>,
    route: Seq<char>,
    id: Seq<char>,
)
    requires
        absent(cursors, route, id),
        forall|i: int| 0 <= i < messages.len() ==> (#[trigger] messages[i]).id != id,
    ensures
        absent(advanced_by(cursors, messages, agent, project), route, id),
    decreases messages.len(),
{
    if messages.len() > 0 {
        let init = messages.drop_last();
        assert forall|i: int| 0 <= i < init.len() implies (#[trigger] init[i]).id != id by {
            assert(init[i] == messages[i]);
        }
        lemma_advanced_by_absent(cursors, init, agent, project, route, id);
        assert(messages.last() == messages[messages.len() - 1]);
        lemma_advanced_on_absent(
            advanced_by(cursors, init, agent, project),
            routes_for(messages.last(), agent, project),
            messages.last().id,
            route,
            id,
        );
    }
}

/// A message that becomes visible late is still delivered, though newer ones on
/// its route were acknowledged before.
pub proof fn law_late_message_is_delivered(
    state: RoutedView,
    messages: Seq<MessageView>,
    now: Moment,
    route: Seq<char>,
    id: Seq<char>,
)
    requires
        !cursor_of(state.cursors, route).overlap_ids.contains(id),
        forall|i: int| 0 <= i < messages.len() ==> (#[trigger] messages[i]).id != id,
    ensures
        undelivered(acknowledged(state, messages, now), route, id),
{
    let cursors = advanced_by(state.cursors, messages, state.agent_id, state.project);
    lemma_advanced_by_absent(
        state.cursors,
        messages,
        state.agent_id,
        state.project,
        route,
        id,
    );
    if cursors.contains_key(route) {
        lemma_trimmed_members(cursors[route], overlap_floor(now), id);
    }
}

/// Whether a message with this identifier is acknowledged on a route by a consumer.
pub open spec fn is_acknowledged_on(
    messages: Seq<MessageView>,
    agent: Seq<char>,
    project: Seq<char>,
    route: Seq<char>,
    id: Seq<char>,
) -> bool {
    exists|i: int|
        0 <= i < messages.len() && (#[trigger] messages[i]).id == id && routes_for(
            messages[i],
            agent,
            project,
        ).contains(route)
}

/// Whether a mark is the greatest of an old one and of what is acknowledged.
pub open spec fn is_greatest(mark: Seq<char>, old_mark: Seq<char>, ids: Set<Seq<char>>) -> bool {
    &&& mark == old_mark || ids.contains(mark)
    &&& !precedes(mark, old_mark)
    &&& forall|id: Seq<char>| #[trigger] ids.contains(id) ==> !precedes(mark, id)
}

/// The identifiers that a consumer acknowledges on a route.
pub open spec fn acknowledged_ids(
    messages: Seq<MessageView>,
    agent: Seq<char>,
    project: Seq<char>,
    route: Seq<char>,
) -> Set<Seq<char>> {
    Set::new(|id: Seq<char>| is_acknowledged_on(messages, agent, project, route, id))
}

/// One message moves the marks of its routes up to it, and no other mark.
proof fn lemma_mark_on(
    cursors: Map<Seq<char>, CursorView>,
    routes: Seq<Seq<char>>,
    id: Seq<char>,
    route: Seq<char>,
)
    ensures
        ({
            let after = advanced_on(cursors, routes, id);
            let mark = cursor_of(cursors, route).high_water;
            &&& after.contains_key(route) == (cursors.contains_key(route) || routes.contains(route))
            &&& !routes.contains(route) ==> cursor_of(after, route) == cursor_of(cursors, route)
            &&& routes.contains(route) ==> cursor_of(after, route).high_water == if precedes(
                mark,
                id,
            ) {
                id
            } else {
                mark
            }
        }),
    decreases routes.len(),
{
    if routes.len() > 0 {
        let init = routes.drop_last();
        lemma_mark_on(cursors, init, id, route);
        lemma_precedes_irreflexive(id);
        assert(routes.contains(route) == (init.contains(route) || routes.last() == route)) by {
            if routes.contains(route) {
                let k = choose|k: int| 0 <= k < routes.len() && routes[k] == route;
                if k < init.len() {
                    assert(init[k] == route);
                }
            }
            if init.contains(route) {
                let k = choose|k: int| 0 <= k < init.len() && init[k] == route;
                assert(routes[k] == route);
            }
            if routes.last() == route {
                assert(routes[routes.len() - 1] == route);
            }
        }
    }
}

proof fn lemma_mark_by(
    cursors: Map<Seq<char>, CursorView>,
    messages: Seq<MessageView>,
    agent: Seq<char>,
    project: Seq<char>,
    route: Seq<char>,
)
    ensures
        ({
            let after = advanced_by(cursors, messages, agent, project);
            let ids = acknowledged_ids(messages, agent, project, route);
            &&& is_greatest(
                cursor_of(after, route).high_water,
                cursor_of(cursors, route).high_water,
                ids,
            )
            &&& ids == Set::<Seq<char>>::empty() ==> cursor_of(after, route) == cursor_of(
                cursors,
                route,
            )
            &&& after.contains_key(route) == (cursors.contains_key(route) || ids != Set::<
                Seq<char>,
            >::empty())
        }),
    decreases messages.len(),
{
    let start = cursor_of(cursors, route).high_water;
    let ids = acknowledged_ids(messages, agent, project, route);
    let none = Set::<Seq<char>>::empty();
    lemma_precedes_irreflexive(start);
    if messages.len() == 0 {
        assert(ids =~= none);
    } else {
        let init = messages.drop_last();
        let last = messages.last();
        let routes = routes_for(last, agent, project);
        let before = advanced_by(cursors, init, agent, project);
        let told = acknowledged_ids(init, agent, project, route);
        lemma_mark_by(cursors, init, agent, project, route);
        lemma_mark_on(before, routes, last.id, route);
        lemma_precedes_irreflexive(last.id);
        assert(ids =~= if routes.contains(route) {
            told.insert(last.id)
        } else {
            told
        }) by {
            assert forall|id: Seq<char>| #[trigger] ids.contains(id) == (told.contains(id) || (
            routes.contains(route) && id == last.id)) by {
                if ids.contains(id) {
                    let i = choose|i: int|
                        0 <= i < messages.len() && (#[trigger] messages[i]).id == id && routes_for(
                            messages[i],
                            agent,
                            project,
                        ).contains(route);
                    if i < init.len() {
                        assert(init[i] == messages[i]);
                    }
                }
                if told.contains(id) {
                    let i = choose|i: int|
                        0 <= i < init.len() && (#[trigger] init[i]).id == id && routes_for(
                            init[i],
                            agent,
                            project,
                        ).contains(route);
                    assert(messages[i] == init[i]);
                }
                if routes.contains(route) && id == last.id {
                    assert(messages[messages.len() - 1] == last);
                }
            }
        }
        if routes.contains(route) {
            assert(ids.contains(last.id));
            let mark = cursor_of(before, route).high_water;
            if precedes(mark, last.id) {
                if precedes(last.id, start) {
                    lemma_precedes_transitive(mark, last.id, start);
                }
                assert forall|id: Seq<char>| #[trigger] ids.contains(id) implies !precedes(
                    last.id,
                    id,
                ) by {
                    if precedes(last.id, id) {
                        lemma_precedes_transitive(mark, last.id, id);
                        assert(told.contains(id));
                    }
                }
            }
        }
    }
}

/// After messages are acknowledged, the mark of a route is the greatest of its old
/// mark and of what was acknowledged there. A route on which nothing was keeps its
/// mark, and gets none if it had none.
pub proof fn law_high_water_is_the_greatest(
    state: RoutedView,
    messages: Seq<MessageView>,
    now: Moment,
    route: Seq<char>,
)
    ensures
        ({
            let after = acknowledged(state, messages, now);
            let mark = cursor_of(after, route).high_water;
            let old_mark = cursor_of(state.cursors, route).high_water;
            let ids = acknowledged_ids(messages, state.agent_id, state.project, route);
            &&& is_greatest(mark, old_mark, ids)
            &&& ids == Set::<Seq<char>>::empty() ==> mark == old_mark
            &&& after.contains_key(route) == (state.cursors.contains_key(route) || ids != Set::<
                Seq<char>,
            >::empty())
        }),
{
    lemma_mark_by(state.cursors, messages, state.agent_id, state.project, route);
}

/// Acknowledging never moves the high-water mark of a route back.
pub proof fn law_high_water_never_falls(
    state: RoutedView,
    messages: Seq<MessageView>,
    now: Moment,
    route: Seq<char>,
)
    requires
        state.cursors.contains_key(route),
    ensures
        acknowledged(state, messages, now).contains_key(route),
        !precedes(
            acknowledged(state, messages, now)[route].high_water,
            state.cursors[route].high_water,
        ),
{
    law_high_water_is_the_greatest(state, messages, now, route);
}

/// A cursor remembers no more identifiers than its limit, in order.
pub proof fn law_cursor_is_bounded(
    state: RoutedView,
    messages: Seq<MessageView>,
    now: Moment,
    route: Seq<char>,
)
    requires
        acknowledged(state, messages, now).contains_key(route),
    ensures
        acknowledged(state, messages, now)[route].overlap_ids.len() <= CACHE_LIMIT,
        sorted(acknowledged(state, messages, now)[route].overlap_ids),
{
    let cursor = advanced_by(state.cursors, messages, state.agent_id, state.project)[route];
    let kept = cursor.overlap_ids.filter(|id: Seq<char>| is_since(id, overlap_floor(now)));
    crate::collections::lemma_sorted_list(kept);
    let ordered = sorted_list(kept);
    let rest = last_of(ordered, CACHE_LIMIT as nat);
    assert forall|i: int, j: int| 0 <= i < j < rest.len() implies !precedes(
        #[trigger] rest[j],
        #[trigger] rest[i],
    ) by {
        if ordered.len() > CACHE_LIMIT {
            let from = ordered.len() - CACHE_LIMIT;
            assert(rest[i] == ordered[from + i]);
            assert(rest[j] == ordered[from + j]);
        }
    }
}

/// A cursor remembers only what was made in the last ten minutes.
pub proof fn law_cursor_forgets_what_is_old(
    state: RoutedView,
    messages: Seq<MessageView>,
    now: Moment,
    route: Seq<char>,
    id: Seq<char>,
)
    requires
        on_clock(now),
        acknowledged(state, messages, now).contains_key(route),
        acknowledged(state, messages, now)[route].overlap_ids.contains(id),
    ensures
        is_ulid(id),
        ulid_millis(id) >= epoch_millis(now) - 10 * 60 * 1000,
{
    let cursor = advanced_by(state.cursors, messages, state.agent_id, state.project)[route];
    lemma_trimmed_members(cursor, overlap_floor(now), id);
}

proof fn lemma_filter_once<A>(list: Seq<A>, keep: spec_fn(A) -> bool)
    requires
        list.no_duplicates(),
    ensures
        list.filter(keep).no_duplicates(),
    decreases list.len(),
{
    reveal_with_fuel(Seq::filter, 2);
    if list.len() > 0 {
        let init = list.drop_last();
        let last = list.last();
        lemma_filter_once(init, keep);
        lemma_filter_members(init, keep, last);
        assert(!init.contains(last)) by {
            if init.contains(last) {
                let k = choose|k: int| 0 <= k < init.len() && init[k] == last;
                assert(list[k] == list[list.len() - 1]);
            }
        }
        let kept = init.filter(keep);
        let all = list.filter(keep);
        assert forall|i: int, j: int| 0 <= i < all.len() && 0 <= j < all.len() && i
            != j implies all[i] != all[j] by {
            if i < kept.len() {
                assert(kept.contains(kept[i]));
            }
            if j < kept.len() {
                assert(kept.contains(kept[j]));
            }
        }
    }
}

/// What is acknowledged is remembered once.
proof fn lemma_advanced_on_once(
    cursors: Map<Seq<char>, CursorView>,
    routes: Seq<Seq<char>>,
    id: Seq<char>,
    route: Seq<char>,
)
    requires
        cursor_of(cursors, route).overlap_ids.no_duplicates(),
    ensures
        cursor_of(advanced_on(cursors, routes, id), route).overlap_ids.no_duplicates(),
    decreases routes.len(),
{
    if routes.len() > 0 {
        let before = advanced_on(cursors, routes.drop_last(), id);
        lemma_advanced_on_once(cursors, routes.drop_last(), id, route);
        if routes.last() == route {
            let had = cursor_of(before, route).overlap_ids;
            let list = advanced(cursor_of(before, route), id).overlap_ids;
            assert forall|i: int, j: int| 0 <= i < list.len() && 0 <= j < list.len() && i
                != j implies list[i] != list[j] by {
                if i < had.len() {
                    assert(had.contains(had[i]));
                }
                if j < had.len() {
                    assert(had.contains(had[j]));
                }
            }
        }
    }
}

proof fn lemma_advanced_by_once(
    cursors: Map<Seq<char>, CursorView>,
    messages: Seq<MessageView>,
    agent: Seq<char>,
    project: Seq<char>,
    route: Seq<char>,
)
    requires
        cursor_of(cursors, route).overlap_ids.no_duplicates(),
    ensures
        cursor_of(
            advanced_by(cursors, messages, agent, project),
            route,
        ).overlap_ids.no_duplicates(),
    decreases messages.len(),
{
    if messages.len() > 0 {
        let last = messages.last();
        lemma_advanced_by_once(cursors, messages.drop_last(), agent, project, route);
        lemma_advanced_on_once(
            advanced_by(cursors, messages.drop_last(), agent, project),
            routes_for(last, agent, project),
            last.id,
            route,
        );
    }
}

/// A cursor that remembers no identifier twice does so after acknowledging too: its
/// identifiers ascend.
pub proof fn law_cursor_remembers_once(
    state: RoutedView,
    messages: Seq<MessageView>,
    now: Moment,
    route: Seq<char>,
)
    requires
        cursor_of(state.cursors, route).overlap_ids.no_duplicates(),
    ensures
        cursor_of(acknowledged(state, messages, now), route).overlap_ids.no_duplicates(),
        ascending(cursor_of(acknowledged(state, messages, now), route).overlap_ids),
{
    let before = advanced_by(state.cursors, messages, state.agent_id, state.project);
    let after = acknowledged(state, messages, now);
    lemma_advanced_by_once(state.cursors, messages, state.agent_id, state.project, route);
    if after.contains_key(route) {
        let keep = |id: Seq<char>| is_since(id, overlap_floor(now));
        let kept = before[route].overlap_ids.filter(keep);
        let ordered = sorted_list(kept);
        let rest = after[route].overlap_ids;
        lemma_filter_once(before[route].overlap_ids, keep);
        crate::collections::lemma_sorted_list(kept);
        kept.lemma_multiset_has_no_duplicates();
        ordered.lemma_multiset_has_no_duplicates_conv();
        law_cursor_is_bounded(state, messages, now, route);
        assert(rest == last_of(ordered, CACHE_LIMIT as nat));
        assert forall|i: int, j: int| 0 <= i < j < rest.len() implies precedes(
            #[trigger] rest[i],
            #[trigger] rest[j],
        ) by {
            let from = ordered.len() - rest.len();
            assert(rest[i] == ordered[from + i]);
            assert(rest[j] == ordered[from + j]);
            lemma_precedes_total(rest[i], rest[j]);
        }
        assert forall|i: int, j: int| 0 <= i < rest.len() && 0 <= j < rest.len() && i
            != j implies rest[i] != rest[j] by {
            let from = ordered.len() - rest.len();
            assert(rest[i] == ordered[from + i]);
            assert(rest[j] == ordered[from + j]);
        }
    }
}

/// An agent that starts again from its checkpoint has come as far on every
/// route as when the checkpoint was made.
pub proof fn law_checkpoint_resumes(state: RoutedView, id: Seq<char>, updated_at: Seq<char>)
    ensures
        resumes(checkpoint_of(state, id, updated_at), state.agent_id),
        checkpoint_of(state, id, updated_at).routes == state.cursors,
{
}

/// Names below names are names below the first.
proof fn lemma_descendant_split(base: Seq<char>, upper: Seq<Seq<char>>, lower: Seq<Seq<char>>)
    ensures
        descendant(base, upper + lower) == descendant(descendant(base, upper), lower),
    decreases lower.len(),
{
    if lower.len() == 0 {
        assert(upper + lower =~= upper);
    } else {
        lemma_descendant_split(base, upper, lower.drop_last());
        assert((upper + lower).drop_last() =~= upper + lower.drop_last());
        assert((upper + lower).last() == lower.last());
    }
}

/// A message of the last ten minutes stands below one of the directories in
/// which a scan looks.
pub proof fn law_recent_message_is_looked_for(root: Seq<char>, route: Seq<char>, id: Seq<char>, now: Moment)
    requires
        on_clock(now),
        is_ulid(id),
        now.seconds * 1000 - 10 * 60 * 1000 <= ulid_millis(id) < (now.seconds + 1) * 1000,
    ensures
        exists|i: int|
            0 <= i < recent_folders(root, route, now).len() && message_location(root, route, id)
                == descendant(
                #[trigger] recent_folders(root, route, now)[i],
                seq![seq![id.last()], id + crate::storage::DOCUMENT_SUFFIX@],
            ),
{
    let minute = minute_of(id);
    let i = now.seconds as int / 60 - minute;
    assert(0 <= i <= 10);
    assert((now.seconds - 60 * i) / 60 == minute);
    lemma_descendant_split(
        crate::routed::route_folder(root, route),
        crate::clock::minute_names(crate::clock::utc_minute(minute)->Some_0),
        seq![seq![id.last()], id + crate::storage::DOCUMENT_SUFFIX@],
    );
    let folder = recent_folders(root, route, now)[i];
}

/// The messages that a scan of routes gathers stand under their identifiers.
pub proof fn lemma_scan_keys(
    scan: RouteScanView,
    cursors: Map<Seq<char>, CursorView>,
    seen: Seq<SightingView>,
    now: Moment,
)
    requires
        scan.messages.dom().finite(),
        forall|id: Seq<char>| #[trigger] scan.messages.contains_key(id) ==> scan.messages[id].id == id,
    ensures
        routes_scanned(scan, cursors, seen, now).messages.dom().finite(),
        forall|id: Seq<char>| #[trigger]
            routes_scanned(scan, cursors, seen, now).messages.contains_key(id) ==> routes_scanned(
                scan,
                cursors,
                seen,
                now,
            ).messages[id].id == id,
    decreases seen.len(),
{
    if seen.len() > 0 {
        lemma_scan_keys(scan, cursors, seen.drop_last(), now);
    }
}

/// The identifiers of messages.
pub open spec fn ids_of(messages: Seq<MessageView>) -> Seq<Seq<char>> {
    messages.map_values(|message: MessageView| message.id)
}

pub proof fn lemma_in_order_ids(map: Map<Seq<char>, MessageView>)
    requires
        map.dom().finite(),
        forall|id: Seq<char>| #[trigger] map.contains_key(id) ==> map[id].id == id,
    ensures
        ids_of(in_order(map)) == listing(map.dom()),
        ascending(ids_of(in_order(map))),
{
    lemma_listing_of(map.dom());
    let keys = listing(map.dom());
    assert forall|i: int| 0 <= i < keys.len() implies ids_of(in_order(map))[i] == keys[i] by {
        assert(keys.to_set().contains(keys[i]));
        assert(map.contains_key(keys[i]));
    }
    assert(ids_of(in_order(map)) =~= keys);
}

/// A scan of routes gives its messages in the order of their identifiers, each
/// once.
pub proof fn law_scan_is_ordered(state: RoutedView, seen: Seq<SightingView>, now: Moment)
    ensures
        ascending(
            ids_of(
                in_order(
                    routes_scanned(scan_start(state), state.cursors, seen, now).messages,
                ),
            ),
        ),
{
    lemma_scan_keys(scan_start(state), state.cursors, seen, now);
    lemma_in_order_ids(routes_scanned(scan_start(state), state.cursors, seen, now).messages);
}

/// A message that a whole scan gives has not expired, was read from a document
/// that holds it, and was not delivered before on the document's route.
pub proof fn law_scan_gives_only_what_it_saw(
    state: RoutedView,
    seen: Seq<SightingView>,
    now: Moment,
    id: Seq<char>,
)
    requires
        routes_scanned(scan_start(state), state.cursors, seen, now).messages.contains_key(id),
    ensures
        ({
            let message = routes_scanned(scan_start(state), state.cursors, seen, now).messages[id];
            &&& message.id == id
            &&& !expired(message, now)
            &&& exists|i: int|
                0 <= i < seen.len() && accepted(#[trigger] seen[i]) == Ok::<MessageView, Seq<char>>(
                    message,
                ) && undelivered(state.cursors, seen[i].route, id)
        }),
    decreases seen.len(),
{
    if seen.len() > 0 {
        let init = seen.drop_last();
        let before = routes_scanned(scan_start(state), state.cursors, init, now);
        let message = routes_scanned(scan_start(state), state.cursors, seen, now).messages[id];
        if before.messages.contains_key(id) {
            law_scan_gives_only_what_it_saw(state, init, now, id);
            let i = choose|i: int|
                0 <= i < init.len() && accepted(#[trigger] init[i]) == Ok::<MessageView, Seq<char>>(
                    message,
                ) && undelivered(state.cursors, init[i].route, id);
            assert(seen[i] == init[i]);
        } else {
            assert(accepted(seen[seen.len() - 1]) == Ok::<MessageView, Seq<char>>(message));
        }
    }
}

/// A message that was not delivered yet is delivered by the scan that first
/// reads it.
pub proof fn law_undelivered_message_is_found(
    state: RoutedView,
    seen: Seq<SightingView>,
    now: Moment,
    i: int,
)
    requires
        0 <= i < seen.len(),
        accepted(seen[i]) is Ok,
        !expired(accepted(seen[i])->Ok_0, now),
        undelivered(state.cursors, seen[i].route, accepted(seen[i])->Ok_0.id),
        !state.loaded.contains(seen[i].path),
        forall|j: int| 0 <= j < i ==> (#[trigger] seen[j]).path != seen[i].path,
    ensures
        routes_scanned(scan_start(state), state.cursors, seen, now).messages.contains_key(
            accepted(seen[i])->Ok_0.id,
        ),
{
    lemma_unread_stays(state, seen.take(i), now, seen[i].path);
    assert(seen.take(i + 1).drop_last() =~= seen.take(i));
    lemma_found_stays(state, seen, now, i + 1, accepted(seen[i])->Ok_0.id);
}

proof fn lemma_unread_stays(state: RoutedView, seen: Seq<SightingView>, now: Moment, path: Seq<char>)
    requires
        !state.loaded.contains(path),
        forall|j: int| 0 <= j < seen.len() ==> (#[trigger] seen[j]).path != path,
    ensures
        !routes_scanned(scan_start(state), state.cursors, seen, now).loaded.contains(path),
    decreases seen.len(),
{
    if seen.len() > 0 {
        let init = seen.drop_last();
        assert forall|j: int| 0 <= j < init.len() implies (#[trigger] init[j]).path != path by {
            assert(init[j] == seen[j]);
        }
        lemma_unread_stays(state, init, now, path);
        assert(seen.last() == seen[seen.len() - 1]);
    }
}

proof fn lemma_found_stays(state: RoutedView, seen: Seq<SightingView>, now: Moment, at: int, id: Seq<char>)
    requires
        0 <= at <= seen.len(),
        routes_scanned(scan_start(state), state.cursors, seen.take(at), now).messages.contains_key(id),
    ensures
        routes_scanned(scan_start(state), state.cursors, seen, now).messages.contains_key(id),
    decreases seen.len() - at,
{
    if at == seen.len() {
        assert(seen.take(at) =~= seen);
    } else {
        assert(seen.take(at + 1).drop_last() =~= seen.take(at));
        lemma_found_stays(state, seen, now, at + 1, id);
    }
}

/// The state of a consumer that starts again from a checkpoint.
pub open spec fn restarted(checkpoint: CheckpointView, project: Seq<char>) -> RoutedView {
    RoutedView {
        agent_id: checkpoint.agent,
        project,
        cursors: checkpoint.routes,
        ..no_routes()
    }
}

/// A message that a consumer had not acknowledged when it made its last
/// checkpoint is delivered by the first scan after a restart that reads it.
pub proof fn law_restart_delivers_what_was_missed(
    state: RoutedView,
    messages: Seq<MessageView>,
    now: Moment,
    id: Seq<char>,
    updated_at: Seq<char>,
    seen: Seq<SightingView>,
    later: Moment,
    i: int,
)
    requires
        0 <= i < seen.len(),
        accepted(seen[i]) is Ok,
        !expired(accepted(seen[i])->Ok_0, later),
        !cursor_of(state.cursors, seen[i].route).overlap_ids.contains(accepted(seen[i])->Ok_0.id),
        forall|j: int|
            0 <= j < messages.len() ==> (#[trigger] messages[j]).id != accepted(seen[i])->Ok_0.id,
        forall|j: int| 0 <= j < i ==> (#[trigger] seen[j]).path != seen[i].path,
    ensures
        ({
            let last = RoutedView { cursors: acknowledged(state, messages, now), ..state };
            let again = restarted(checkpoint_of(last, id, updated_at), state.project);
            routes_scanned(scan_start(again), again.cursors, seen, later).messages.contains_key(
                accepted(seen[i])->Ok_0.id,
            )
        }),
{
    let last = RoutedView { cursors: acknowledged(state, messages, now), ..state };
    let again = restarted(checkpoint_of(last, id, updated_at), state.project);
    law_late_message_is_delivered(
        state,
        messages,
        now,
        seen[i].route,
        accepted(seen[i])->Ok_0.id,
    );
    law_undelivered_message_is_found(again, seen, later, i);
}

/// A message that a consumer had acknowledged when it made its last checkpoint
/// is not delivered again after a restart, as long as it was among the last ten
/// minutes then and the cursors had room for what was. Its documents are found
/// on its own routes only.
pub proof fn law_restart_repeats_nothing_acknowledged(
    state: RoutedView,
    messages: Seq<MessageView>,
    now: Moment,
    id: Seq<char>,
    updated_at: Seq<char>,
    seen: Seq<SightingView>,
    later: Moment,
    i: int,
)
    requires
        0 <= i < messages.len(),
        is_since(messages[i].id, overlap_floor(now)),
        forall|route: Seq<char>| #[trigger]
            routes_for(messages[i], state.agent_id, state.project).contains(route) ==> advanced_by(
                state.cursors,
                messages,
                state.agent_id,
                state.project,
            )[route].overlap_ids.filter(
                |one: Seq<char>| is_since(one, overlap_floor(now)),
            ).len() <= CACHE_LIMIT,
        forall|j: int|
            0 <= j < seen.len() && accepted(#[trigger] seen[j]) is Ok && accepted(seen[j])->Ok_0.id
                == messages[i].id ==> routes_for(
                messages[i],
                state.agent_id,
                state.project,
            ).contains(seen[j].route),
    ensures
        ({
            let last = RoutedView { cursors: acknowledged(state, messages, now), ..state };
            let again = restarted(checkpoint_of(last, id, updated_at), state.project);
            !routes_scanned(scan_start(again), again.cursors, seen, later).messages.contains_key(
                messages[i].id,
            )
        }),
    decreases seen.len(),
{
    if seen.len() > 0 {
        let init = seen.drop_last();
        assert forall|j: int|
            0 <= j < init.len() && accepted(#[trigger] init[j]) is Ok && accepted(init[j])->Ok_0.id
                == messages[i].id implies routes_for(
            messages[i],
            state.agent_id,
            state.project,
        ).contains(init[j].route) by {
            assert(init[j] == seen[j]);
        }
        law_restart_repeats_nothing_acknowledged(
            state,
            messages,
            now,
            id,
            updated_at,
            init,
            later,
            i,
        );
        let one = seen[seen.len() - 1];
        if accepted(one) is Ok && accepted(one)->Ok_0.id == messages[i].id {
            law_acknowledged_message_is_not_redelivered(state, messages, now, i, one.route);
        }
    }
}

/// A document that holds no message to accept stays eligible: once it does, it is
/// delivered, and no longer warned of.
pub proof fn law_unaccepted_document_is_retried(
    scan: RouteScanView,
    cursors: Map<Seq<char>, CursorView>,
    failed: SightingView,
    fixed: SightingView,
    now: Moment,
)
    requires
        failed.path == fixed.path,
        accepted(failed) is Err,
        accepted(fixed) is Ok,
        !expired(accepted(fixed)->Ok_0, now),
        undelivered(cursors, fixed.route, accepted(fixed)->Ok_0.id),
        !scan.loaded.contains(fixed.path),
    ensures
        ({
            let once = route_step(scan, cursors, failed, now);
            let after = route_step(once, cursors, fixed, now);
            &&& once.messages == scan.messages
            &&& once.warned.contains(fixed.path)
            &&& !once.loaded.contains(fixed.path)
            &&& after.messages.contains_key(accepted(fixed)->Ok_0.id)
            &&& after.loaded.contains(fixed.path)
            &&& !after.warned.contains(fixed.path)
        }),
{
}

/// A message that has expired is not delivered.
pub proof fn law_expired_message_is_not_delivered(
    scan: RouteScanView,
    cursors: Map<Seq<char>, CursorView>,
    seen: SightingView,
    now: Moment,
)
    requires
        accepted(seen) is Ok,
        expired(accepted(seen)->Ok_0, now),
    ensures
        route_step(scan, cursors, seen, now).messages == scan.messages,
        route_step(scan, cursors, seen, now).warnings == scan.warnings,
{
}

/// Whether a scan of one document changes nothing.
spec fn sighting_quiet(
    loaded: Set<Seq<char>>,
    warned: Set<Seq<char>>,
    seen: SightingView,
) -> bool {
    loaded.contains(seen.path) || (accepted(seen) is Err && warned.contains(seen.path))
}

proof fn lemma_sighting_settles(
    scan: RouteScanView,
    cursors: Map<Seq<char>, CursorView>,
    seen: SightingView,
    now: Moment,
    other: SightingView,
)
    ensures
        ({
            let after = route_step(scan, cursors, seen, now);
            &&& sighting_quiet(after.loaded, after.warned, seen)
            &&& sighting_quiet(scan.loaded, scan.warned, other) ==> sighting_quiet(
                after.loaded,
                after.warned,
                other,
            )
        }),
{
}

proof fn lemma_sightings_settle(
    scan: RouteScanView,
    cursors: Map<Seq<char>, CursorView>,
    seen: Seq<SightingView>,
    now: Moment,
    i: int,
)
    requires
        0 <= i < seen.len(),
    ensures
        ({
            let after = routes_scanned(scan, cursors, seen, now);
            sighting_quiet(after.loaded, after.warned, seen[i])
        }),
    decreases seen.len(),
{
    let init = seen.drop_last();
    let before = routes_scanned(scan, cursors, init, now);
    lemma_sighting_settles(before, cursors, seen.last(), now, seen[i]);
    if i < init.len() {
        assert(init[i] == seen[i]);
        lemma_sightings_settle(scan, cursors, init, now, i);
    }
}

/// A second scan of the same documents delivers nothing and warns of nothing.
/// The documents are named by identifiers of the last eleven minutes, and are
/// still there.
pub proof fn law_second_scan_delivers_nothing(
    state: RoutedView,
    seen: Seq<SightingView>,
    gone: Set<Seq<char>>,
    now: Moment,
    later: Moment,
)
    requires
        forall|i: int|
            0 <= i < seen.len() ==> {
                &&& is_remembered((#[trigger] seen[i]).path, loaded_floor(now))
                &&& !gone.contains(seen[i].path)
            },
    ensures
        ({
            let next = scan_end(state, seen, gone, now);
            routes_scanned(scan_start(next), next.cursors, seen, later) == scan_start(next)
        }),
{
    let end = routes_scanned(scan_start(state), state.cursors, seen, now);
    let next = scan_end(state, seen, gone, now);
    assert forall|i: int| 0 <= i < seen.len() implies sighting_quiet(
        next.loaded,
        next.warned,
        #[trigger] seen[i],
    ) by {
        lemma_sightings_settle(scan_start(state), state.cursors, seen, now, i);
    }
    lemma_sightings_quiet(scan_start(next), next.cursors, seen, later);
}

proof fn lemma_sightings_quiet(
    scan: RouteScanView,
    cursors: Map<Seq<char>, CursorView>,
    seen: Seq<SightingView>,
    now: Moment,
)
    requires
        forall|i: int|
            0 <= i < seen.len() ==> sighting_quiet(scan.loaded, scan.warned, #[trigger] seen[i]),
    ensures
        routes_scanned(scan, cursors, seen, now) == scan,
    decreases seen.len(),
{
    if seen.len() > 0 {
        let init = seen.drop_last();
        assert forall|i: int| 0 <= i < init.len() implies sighting_quiet(
            scan.loaded,
            scan.warned,
            #[trigger] init[i],
        ) by {
            assert(init[i] == seen[i]);
        }
        lemma_sightings_quiet(scan, cursors, init, now);
        assert(seen.last() == seen[seen.len() - 1]);
    }
}

proof fn lemma_history_keys(seen: Seq<SightingView>, thread: Option<Seq<char>>, now: Moment)
    ensures
        history_read(seen, thread, now).messages.dom().finite(),
        forall|id: Seq<char>| #[trigger]
            history_read(seen, thread, now).messages.contains_key(id) ==> {
                let message = history_read(seen, thread, now).messages[id];
                &&& message.id == id
                &&& !expired(message, now)
                &&& thread is None || thread == Some(message.thread)
            },
    decreases seen.len(),
{
    if seen.len() > 0 {
        lemma_history_keys(seen.drop_last(), thread, now);
    }
}

/// A history is in the order of its identifiers, has each message once and no
/// more than its limit, none of them expired, and all of the wanted thread.
pub proof fn law_history_is_ordered_and_limited(
    seen: Seq<SightingView>,
    thread: Option<Seq<char>>,
    limit: nat,
    now: Moment,
)
    ensures
        ({
            let messages = last_of(in_order(history_read(seen, thread, now).messages), limit);
            &&& messages.len() <= limit
            &&& ascending(ids_of(messages))
            &&& forall|i: int|
                0 <= i < messages.len() ==> {
                    let message = #[trigger] messages[i];
                    !expired(message, now) && (thread is None || thread == Some(message.thread))
                }
        }),
{
    let map = history_read(seen, thread, now).messages;
    lemma_history_keys(seen, thread, now);
    lemma_in_order_ids(map);
    let all = in_order(map);
    let messages = last_of(all, limit);
    let from: int = if all.len() > limit {
        all.len() - limit
    } else {
        0
    };
    let keys = listing(map.dom());
    assert forall|i: int| 0 <= i < messages.len() implies ids_of(messages)[i] == ids_of(all)[from + i] by {
        assert(messages[i] == all[from + i]);
    }
    lemma_listing_of(map.dom());
    assert forall|i: int| 0 <= i < messages.len() implies {
        let message = #[trigger] messages[i];
        !expired(message, now) && (thread is None || thread == Some(message.thread))
    } by {
        assert(messages[i] == all[from + i]);
        assert(keys.to_set().contains(keys[from + i]));
        assert(map.contains_key(keys[from + i]));
    }
}

/// What a history leaves out for its limit is older than all that it has.
pub proof fn law_history_has_the_newest(
    seen: Seq<SightingView>,
    thread: Option<Seq<char>>,
    limit: nat,
    now: Moment,
    out: int,
    kept: int,
)
    requires
        0 <= out < in_order(history_read(seen, thread, now).messages).len() - limit,
        0 <= kept < limit,
    ensures
        precedes(
            in_order(history_read(seen, thread, now).messages)[out].id,
            last_of(in_order(history_read(seen, thread, now).messages), limit)[kept].id,
        ),
{
    let map = history_read(seen, thread, now).messages;
    lemma_history_keys(seen, thread, now);
    lemma_in_order_ids(map);
    let all = in_order(map);
    let from = all.len() - limit;
    assert(last_of(all, limit)[kept] == all[from + kept]);
    assert(precedes(ids_of(all)[out], ids_of(all)[from + kept]));
}

/// The cache forgets a message only for newer ones, and keeps no more than its
/// limit.
pub proof fn law_cache_keeps_the_newest(map: Map<Seq<char>, MessageView>, gone: Seq<char>, kept: Seq<char>)
    requires
        map.dom().finite(),
        map.contains_key(gone),
        !newest(map, CACHE_LIMIT as nat).contains_key(gone),
        newest(map, CACHE_LIMIT as nat).contains_key(kept),
    ensures
        precedes(gone, kept),
{
    let keys = listing(map.dom());
    lemma_listing_of(map.dom());
    let rest = last_of(keys, CACHE_LIMIT as nat);
    assert(keys.to_set().contains(gone));
    let i = choose|i: int| 0 <= i < keys.len() && keys[i] == gone;
    let j = choose|j: int| 0 <= j < rest.len() && rest[j] == kept;
    if keys.len() > CACHE_LIMIT {
        let from = keys.len() - CACHE_LIMIT;
        assert(keys[from + j] == kept);
        if i >= from {
            assert(rest[i - from] == gone);
            assert(rest.contains(gone));
        }
        assert(precedes(keys[i], keys[from + j]));
    } else {
        assert(rest.contains(gone));
    }
}

} // verus!
