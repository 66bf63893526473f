//! What holds of a message on its way from a sender to those whom it concerns.
use crate::clock::{on_clock, rfc3339_reading, Moment};
use crate::collections::{ascending, in_order, listing};
use crate::expiry_laws::{
    is_fileable, law_publication_has_one_place_per_route, law_published_document_is_accepted,
};
use crate::laws::lemma_listing_of;
use crate::model::{AgentView, MessageView, MESSAGE_SCHEMA};
use crate::path::descendant;
use crate::routed::{
    accepted, cleared, expired, is_in_place, is_publication, is_remembered, lemma_cleared_bound,
    loaded_floor, locations, message_location, minute_of, read_routes, recent_folders, routes_of,
    routes_scanned, scan_end, scan_start, stored_fault, undelivered, vacant, Publication,
    RoutedView, SightingView, RECENT_MINUTES,
};
use crate::routed_laws::{
    ids_of, law_conflict_is_refused, law_publication_replaces_nothing,
    law_recent_message_is_looked_for, law_relevant_message_is_on_a_read_route,
    law_scan_gives_only_what_it_saw, law_scan_is_ordered, law_second_migration_moves_nothing,
    law_second_scan_delivers_nothing, law_undelivered_message_is_found, lemma_cleared_all,
    lemma_scan_keys,
};
use crate::storage::{groups_of, is_relevant, is_slug, message_fault, DOCUMENT_SUFFIX};
use crate::text::texts;
use crate::ulids::{is_identifier, is_ulid, ulid_millis};
use vstd::prelude::*;

verus! {

/// The document of a message on one of its routes.
pub open spec fn document_on(root: Seq<char>, route: Seq<char>, message: MessageView) -> SightingView {
    SightingView { route, path: message_location(root, route, message.id), content: Ok(message) }
}

/// Whether a scan of an agent's routes comes to the place of a message: the
/// route is one that the agent reads, and the place is below a directory of one
/// of the last minutes.
pub open spec fn is_looked_at(
    root: Seq<char>,
    agent: AgentView,
    groups: Seq<Seq<char>>,
    route: Seq<char>,
    id: Seq<char>,
    now: Moment,
) -> bool {
    &&& read_routes(agent.id, agent.project, groups).contains(route)
    &&& exists|i: int|
        0 <= i < recent_folders(root, route, now).len() && message_location(root, route, id)
            == descendant(
            #[trigger] recent_folders(root, route, now)[i],
            seq![seq![id.last()], id + DOCUMENT_SUFFIX@],
        )
}

/// The first document of a list at a path, where there is one.
proof fn lemma_first_at(seen: Seq<SightingView>, path: Seq<char>, k: int) -> (i: int)
    requires
        0 <= k < seen.len(),
        seen[k].path == path,
    ensures
        0 <= i <= k,
        seen[i].path == path,
        forall|j: int| 0 <= j < i ==> (#[trigger] seen[j]).path != path,
    decreases k,
{
    if exists|j: int| 0 <= j < k && (#[trigger] seen[j]).path == path {
        let j = choose|j: int| 0 <= j < k && (#[trigger] seen[j]).path == path;
        lemma_first_at(seen, path, j)
    } else {
        k
    }
}

/// A message of the last ten minutes that concerns an agent, has not expired and
/// was not acknowledged is delivered by the agent's next scan, once its documents
/// can be seen: the scan looks where one of them stands, and takes it in. The
/// groups that an agent has joined have names that the board accepts.
pub proof fn law_sent_message_is_delivered(
    root: Seq<char>,
    memberships: Set<(Seq<char>, Seq<char>)>,
    agent: AgentView,
    state: RoutedView,
    message: MessageView,
    seen: Seq<SightingView>,
    now: Moment,
)
    requires
        on_clock(now),
        is_identifier(message.id),
        message_fault(message, message.id) is None,
        is_relevant(memberships, agent, message),
        groups_of(memberships, agent.id).finite(),
        forall|group: Seq<char>| #[trigger] memberships.contains((group, agent.id)) ==> is_slug(group),
        now.seconds * 1000 - 10 * 60 * 1000 <= ulid_millis(message.id) < (now.seconds + 1) * 1000,
        !expired(message, now),
        forall|route: Seq<char>| #[trigger]
            routes_of(message).contains(route) ==> {
                &&& undelivered(state.cursors, route, message.id)
                &&& !state.loaded.contains(message_location(root, route, message.id))
            },
        forall|route: Seq<char>| #[trigger]
            routes_of(message).contains(route) && is_looked_at(
                root,
                agent,
                listing(groups_of(memberships, agent.id)),
                route,
                message.id,
                now,
            ) ==> seen.contains(document_on(root, route, message)),
        forall|route: Seq<char>, j: int|
            #![trigger routes_of(message).contains(route), seen[j]]
            0 <= j < seen.len() && routes_of(message).contains(route) && seen[j].path
                == message_location(root, route, message.id) ==> seen[j] == document_on(
                root,
                route,
                message,
            ),
    ensures
        routes_scanned(scan_start(state), state.cursors, seen, now).messages.contains_key(message.id),
{
    let groups = listing(groups_of(memberships, agent.id));
    law_relevant_message_is_on_a_read_route(memberships, agent, message);
    let route = choose|route: Seq<char>|
        #[trigger] routes_of(message).contains(route) && read_routes(
            agent.id,
            agent.project,
            groups,
        ).contains(route);
    law_recent_message_is_looked_for(root, route, message.id, now);
    assert(is_looked_at(root, agent, groups, route, message.id, now));
    let document = document_on(root, route, message);
    let k = choose|k: int| 0 <= k < seen.len() && seen[k] == document;
    let i = lemma_first_at(seen, document.path, k);
    assert(seen[i] == document);
    law_published_document_is_accepted(root, route, message);
    law_undelivered_message_is_found(state, seen, now, i);
}

/// What stands at the places of a message once a publication has written it.
pub open spec fn after_writes(
    places: Seq<Seq<char>>,
    there: Seq<Option<Result<MessageView, Seq<char>>>>,
    writes: Seq<Seq<char>>,
    message: MessageView,
) -> Seq<Option<Result<MessageView, Seq<char>>>> {
    Seq::new(
        places.len(),
        |i: int|
            if writes.contains(places[i]) {
                Some(Ok(message))
            } else {
                there[i]
            },
    )
}

/// A publication that is not refused can write at every place.
proof fn lemma_accepted_publication(
    there: Seq<Option<Result<MessageView, Seq<char>>>>,
    message: MessageView,
    i: int,
)
    requires
        cleared(there, message) == there.len(),
        0 <= i < there.len(),
    ensures
        stored_fault(there[i], message) is None,
    decreases there.len(),
{
    lemma_cleared_bound(there.drop_last(), message);
    if i < there.len() - 1 {
        lemma_accepted_publication(there.drop_last(), message, i);
    }
}

/// A place where nothing is stored is written.
proof fn lemma_vacant_is_written(
    places: Seq<Seq<char>>,
    there: Seq<Option<Result<MessageView, Seq<char>>>>,
    count: nat,
    i: int,
)
    requires
        count <= there.len(),
        0 <= i < count,
        there[i] is None,
    ensures
        vacant(places, there, count).contains(places[i]),
    decreases count,
{
    let before = vacant(places, there, (count - 1) as nat);
    let all = vacant(places, there, count);
    if i < count - 1 {
        lemma_vacant_is_written(places, there, (count - 1) as nat, i);
        let k = choose|k: int| 0 <= k < before.len() && before[k] == places[i];
        assert(all[k] == places[i]);
    } else {
        assert(all[before.len() as int] == places[i]);
    }
}

/// A message that is published stands at each of its places.
pub proof fn law_published_message_stands_everywhere(
    publication: Publication,
    root: Seq<char>,
    message: MessageView,
    there: Seq<Option<Result<MessageView, Seq<char>>>>,
)
    requires
        is_publication(publication, root, message, there),
        there.len() == locations(root, message).len(),
        publication.outcome is Ok,
    ensures
        texts(publication.outcome->Ok_0@) == locations(root, message),
        forall|i: int|
            0 <= i < there.len() ==> #[trigger] after_writes(
                locations(root, message),
                there,
                texts(publication.writes@),
                message,
            )[i] == Some(Ok::<MessageView, Seq<char>>(message)),
{
    let places = locations(root, message);
    let after = after_writes(places, there, texts(publication.writes@), message);
    lemma_cleared_bound(there, message);
    assert(cleared(there, message) == there.len());
    assert forall|i: int| 0 <= i < there.len() implies #[trigger] after[i] == Some(
        Ok::<MessageView, Seq<char>>(message),
    ) by {
        lemma_accepted_publication(there, message, i);
        if there[i] is None {
            lemma_vacant_is_written(places, there, there.len(), i);
        }
    }
}

/// A message can be published where nothing stands in its places, or the message
/// itself; if it expires at a date that can be read, the index gets its entry.
pub proof fn law_publication_succeeds(
    publication: Publication,
    root: Seq<char>,
    message: MessageView,
    there: Seq<Option<Result<MessageView, Seq<char>>>>,
)
    requires
        is_publication(publication, root, message, there),
        is_ulid(message.id),
        there.len() == locations(root, message).len(),
        forall|i: int|
            0 <= i < there.len() ==> #[trigger] there[i] is None || there[i] == Some(
                Ok::<MessageView, Seq<char>>(message),
            ),
        message.expires_at is Some ==> rfc3339_reading(message.expires_at->Some_0) is Ok,
    ensures
        publication.outcome is Ok,
        publication.index is Some <==> message.expires_at is Some,
        publication.index matches Some(entry) ==> entry is Ok,
{
    assert forall|i: int| 0 <= i < there.len() implies stored_fault(#[trigger] there[i], message) is None by {}
    lemma_cleared_all(there, message);
}

/// Publishing a message a second time succeeds with the same paths, writes
/// nothing and changes nothing of what is stored.
pub proof fn law_second_publication_changes_nothing(
    first: Publication,
    second: Publication,
    root: Seq<char>,
    message: MessageView,
    there: Seq<Option<Result<MessageView, Seq<char>>>>,
)
    requires
        is_ulid(message.id),
        there.len() == locations(root, message).len(),
        is_publication(first, root, message, there),
        first.outcome is Ok,
        is_publication(
            second,
            root,
            message,
            after_writes(locations(root, message), there, texts(first.writes@), message),
        ),
    ensures
        second.outcome is Ok,
        texts(second.outcome->Ok_0@) == texts(first.outcome->Ok_0@),
        second.writes@.len() == 0,
        ({
            let places = locations(root, message);
            let stored = after_writes(places, there, texts(first.writes@), message);
            after_writes(places, stored, texts(second.writes@), message) == stored
        }),
{
    let places = locations(root, message);
    let stored = after_writes(places, there, texts(first.writes@), message);
    law_published_message_stands_everywhere(first, root, message, there);
    law_second_migration_moves_nothing(second, root, message, stored);
    assert(texts(second.writes@).len() == 0);
    assert(after_writes(places, stored, texts(second.writes@), message) =~= stored);
}

/// Where another message stands in a place of one that is published, the
/// publication is refused, and that message stays. The names of the routes are
/// single components of a path.
pub proof fn law_conflict_keeps_what_stands(
    publication: Publication,
    root: Seq<char>,
    message: MessageView,
    there: Seq<Option<Result<MessageView, Seq<char>>>>,
    i: int,
)
    requires
        is_publication(publication, root, message, there),
        is_identifier(message.id),
        forall|route: Seq<char>| #[trigger] routes_of(message).contains(route) ==> is_fileable(route),
        there.len() == locations(root, message).len(),
        0 <= i < there.len(),
        there[i] is Some,
        there[i]->Some_0 is Ok,
        there[i]->Some_0->Ok_0 != message,
    ensures
        publication.outcome is Err,
        after_writes(
            locations(root, message),
            there,
            texts(publication.writes@),
            message,
        )[i] == there[i],
{
    let places = locations(root, message);
    let writes = texts(publication.writes@);
    law_publication_has_one_place_per_route(root, message);
    law_conflict_is_refused(there, message, i);
    lemma_cleared_bound(there, message);
    if writes.contains(places[i]) {
        law_publication_replaces_nothing(places, there, cleared(there, message), places[i]);
        let k = choose|k: int|
            0 <= k < cleared(there, message) && places[k] == places[i] && #[trigger] there[k] is None;
        assert(k == i);
    }
}

/// Whether a document stands in the place of the message that it holds, below a
/// directory of one of the last minutes.
pub open spec fn is_placed(root: Seq<char>, seen: SightingView, now: Moment) -> bool {
    &&& seen.content is Ok
    &&& seen.content->Ok_0.schema == MESSAGE_SCHEMA@
    &&& is_identifier(seen.content->Ok_0.id)
    &&& seen.path == message_location(root, seen.route, seen.content->Ok_0.id)
    &&& minute_of(seen.content->Ok_0.id) >= now.seconds as int / 60 - RECENT_MINUTES
}

/// A scan of the routes that a consumer reads, whose documents stand in their
/// places: its messages are in ascending order, each once; none has expired; each
/// was seen on a route that is read and was not delivered there before. A second
/// scan of the same documents gives no message and no warning, and neither changes
/// who the consumer is nor its cursors.
pub proof fn law_scan_gives_each_message_once(
    root: Seq<char>,
    state: RoutedView,
    groups: Seq<Seq<char>>,
    seen: Seq<SightingView>,
    gone: Set<Seq<char>>,
    now: Moment,
    later: Moment,
)
    requires
        on_clock(now),
        forall|i: int|
            0 <= i < seen.len() ==> {
                &&& is_placed(root, #[trigger] seen[i], now)
                &&& read_routes(state.agent_id, state.project, groups).contains(seen[i].route)
                &&& !gone.contains(seen[i].path)
            },
    ensures
        ({
            let found = routes_scanned(scan_start(state), state.cursors, seen, now);
            let list = in_order(found.messages);
            let next = scan_end(state, seen, gone, now);
            let again = routes_scanned(scan_start(next), next.cursors, seen, later);
            &&& ascending(ids_of(list))
            &&& forall|k: int|
                0 <= k < list.len() ==> is_due_delivery(
                    state,
                    seen,
                    groups,
                    #[trigger] list[k],
                    now,
                )
            &&& again.messages == Map::<Seq<char>, MessageView>::empty()
            &&& again.warnings == Seq::<Seq<char>>::empty()
            &&& next.agent_id == state.agent_id
            &&& next.project == state.project
            &&& next.cursors == state.cursors
        }),
{
    let found = routes_scanned(scan_start(state), state.cursors, seen, now);
    let list = in_order(found.messages);
    law_scan_is_ordered(state, seen, now);
    lemma_scan_keys(scan_start(state), state.cursors, seen, now);
    lemma_listing_of(found.messages.dom());
    assert forall|k: int| 0 <= k < list.len() implies is_due_delivery(
        state,
        seen,
        groups,
        #[trigger] list[k],
        now,
    ) by {
        let keys = listing(found.messages.dom());
        assert(keys.to_set().contains(keys[k]));
        law_scan_gives_only_what_it_saw(state, seen, now, keys[k]);
        let i = choose|i: int|
            0 <= i < seen.len() && accepted(#[trigger] seen[i]) == Ok::<MessageView, Seq<char>>(
                list[k],
            ) && undelivered(state.cursors, seen[i].route, keys[k]);
        assert(is_placed(root, seen[i], now));
    }
    assert forall|i: int| 0 <= i < seen.len() implies {
        &&& is_remembered((#[trigger] seen[i]).path, loaded_floor(now))
        &&& !gone.contains(seen[i].path)
    } by {
        let message = seen[i].content->Ok_0;
        assert(is_placed(root, seen[i], now));
        law_published_document_is_accepted(root, seen[i].route, message);
        assert(document_on(root, seen[i].route, message) == seen[i]);
        assert(is_in_place(message, seen[i].path));
    }
    law_second_scan_delivers_nothing(state, seen, gone, now, later);
}

/// Whether a message is one that a scan is to give: it has not expired, and it
/// was seen on a route that the consumer reads and was not delivered there before.
pub open spec fn is_due_delivery(
    state: RoutedView,
    seen: Seq<SightingView>,
    groups: Seq<Seq<char>>,
    message: MessageView,
    now: Moment,
) -> bool {
    &&& !expired(message, now)
    &&& exists|i: int|
        {
            &&& 0 <= i < seen.len()
            &&& accepted(#[trigger] seen[i]) == Ok::<MessageView, Seq<char>>(message)
            &&& read_routes(state.agent_id, state.project, groups).contains(seen[i].route)
            &&& undelivered(state.cursors, seen[i].route, message.id)
        }
}

} // verus!
