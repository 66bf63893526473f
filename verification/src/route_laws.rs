//! What holds of single operations on routes: which documents count, what a scan, a
//! history and an acknowledgment make of them, where messages stand.
use crate::clock::{epoch_millis, minute_names, on_clock, rfc3339_reading, utc_minute, Moment};
use crate::collections::{ascending, in_order, listing, sorted_list};
use crate::error::BoardError;
use crate::expiry_laws::{is_fileable, is_single, lemma_location_components};
use crate::laws::{lemma_document_title, lemma_listing_of};
use crate::model::{Agent, Message, MessageView};
use crate::path::{child, components, descendant, is_rooted, is_within, last_name};
use crate::routed::{
    accepted, acknowledge, acknowledged, advanced, advanced_by, advanced_on, collect_expired,
    collection_done, collection_due, cursor_of, expiry_target, fnv, history, history_read,
    history_route, history_routes, initialize, is_expired, is_publication, is_since, last_of,
    locations, message_location, message_path, message_routes, migrate_v1, migration_report,
    overlap_floor, publication_paths, publish, read_routes, reading_routes, reads_whole_route,
    recent_paths, report_path, resolve_expiry_target, route_folder, route_step, routes_for,
    routes_of, routes_scanned, scan, trim_cache, undelivered, with_forward_slashes,
    write_checkpoint, write_expiry, Checkpoint, CursorView, Due, Expiry, Findings, MigrationReport,
    Publication, RouteScanView, RoutedState, RoutedView, Sighting, SightingView, CACHE_LIMIT,
};
use crate::routed_laws::{ids_of, lemma_filter_members, lemma_in_order_ids, lemma_trimmed_members};
use crate::storage::{document_title, Filed};
use crate::text::{begins_with, lemma_prefix_prepended, precedes, text_option, texts, views};
use crate::ulids::{is_ulid, ulid_decoding, ulid_millis};
use vstd::prelude::*;

verus! {

/// Whether a document that was seen holds a message: it was read, has the schema of
/// messages, and is named by the message's identifier.
pub open spec fn holds(seen: SightingView, message: MessageView) -> bool {
    seen.content == Ok::<MessageView, Seq<char>>(message) && message.schema
        == "aiboard.message.v1"@ && last_name(seen.path) == Some(message.id + ".json.zst"@)
}

/// Whether a message's time is over: it has a date that can be read and has come.
pub open spec fn is_over(message: MessageView, now: Moment) -> bool {
    message.expires_at is Some && rfc3339_reading(message.expires_at->Some_0) is Ok && {
        let time = rfc3339_reading(message.expires_at->Some_0)->Ok_0;
        time.0 < now.seconds || (time.0 == now.seconds && time.1 <= now.nanos)
    }
}

/// The title of a document is its name without the suffix.
pub proof fn law_title_is_the_name_without_suffix(path: Seq<char>, title: Seq<char>)
    ensures
        document_title(path) == Some(title) <==> last_name(path) == Some(title + ".json.zst"@),
{
    reveal_strlit(".json.zst");
    if last_name(path) is Some {
        let name = last_name(path)->Some_0;
        let suffix = ".json.zst"@;
        if document_title(path) == Some(title) {
            assert(name =~= title + suffix);
        }
        if name == title + suffix {
            crate::text::lemma_suffix_appended(title, suffix);
            assert(name.take(name.len() - suffix.len()) =~= title);
        }
    }
}

/// A message expires exactly when its date has come; one without a date, or with one
/// that cannot be read, never does.
pub proof fn law_message_expires_at_its_date(message: &Message, now: Moment, r: bool)
    requires
        call_ensures(is_expired, (message, now), r),
    ensures
        r <==> is_over(message@, now),
        message.expires_at is None ==> !r,
{
}

/// A document is accepted exactly if it holds a message, and then for that message.
pub proof fn law_document_is_accepted_for_its_message(seen: SightingView, message: MessageView)
    ensures
        accepted(seen) == Ok::<MessageView, Seq<char>>(message) <==> holds(seen, message),
        seen.content matches Err(words) ==> accepted(seen) == Err::<MessageView, Seq<char>>(words),
{
    law_title_is_the_name_without_suffix(seen.path, message.id);
    reveal_strlit("aiboard.message.v1");
}

/// A message on a route is still to be delivered unless its identifier is remembered
/// there and not past the mark.
pub proof fn law_remembered_messages_are_delivered(
    cursors: Map<Seq<char>, CursorView>,
    route: Seq<char>,
    id: Seq<char>,
)
    ensures
        !undelivered(cursors, route, id) <==> cursors.contains_key(route)
            && cursors[route].overlap_ids.contains(id) && !precedes(cursors[route].high_water, id),
{
}

/// Of the documents that were seen, each that holds a message whose time is not over
/// and, where a thread is wanted, that is of the thread, is in the history: whatever it
/// answers, and unless the limit is filled with newer ones.
pub proof fn law_history_is_complete(
    seen: &Vec<Sighting>,
    thread: &Option<String>,
    limit: usize,
    now: Moment,
    r: Findings,
    i: int,
    message: MessageView,
)
    requires
        call_ensures(history, (seen, thread, limit, now), r),
        0 <= i < seen@.len(),
        holds(seen@[i]@, message),
        !is_over(message, now),
        thread is None || thread->Some_0@ == message.thread,
    ensures
        history_read(views(seen@), text_option(*thread), now).messages.contains_key(message.id),
        ids_of(views(r.messages@)).contains(message.id) || (r.messages@.len() == limit && forall|
            k: int,
        |
            0 <= k < r.messages@.len() ==> precedes(message.id, (#[trigger] r.messages@[k]).id@)),
{
    let all = views(seen@);
    let end = history_read(all, text_option(*thread), now);
    assert(all[i] == seen@[i]@);
    lemma_history_has(all, text_option(*thread), now, i, message);
    lemma_history_read_keys(all, text_option(*thread), now);
    let list = in_order(end.messages);
    lemma_in_order_ids(end.messages);
    let keys = listing(end.messages.dom());
    lemma_listing_of(end.messages.dom());
    assert(keys.to_set().contains(message.id));
    let at = choose|k: int| 0 <= k < keys.len() && keys[k] == message.id;
    assert(ids_of(list)[at] == message.id);
    assert(views(r.messages@).len() == r.messages@.len());
    let from = if list.len() > limit {
        list.len() - limit
    } else {
        0
    };
    assert forall|k: int| 0 <= k < r.messages@.len() implies (#[trigger] r.messages@[k]).id@
        == keys[from + k] by {
        assert(views(r.messages@)[k] == list[from + k]);
        assert(ids_of(list)[from + k] == keys[from + k]);
    }
    if at >= from {
        assert(ids_of(views(r.messages@))[at - from] == message.id);
    } else {
        assert forall|k: int| 0 <= k < r.messages@.len() implies precedes(
            message.id,
            (#[trigger] r.messages@[k]).id@,
        ) by {
            assert(precedes(keys[at], keys[from + k]));
        }
    }
}

proof fn lemma_history_has(
    seen: Seq<SightingView>,
    thread: Option<Seq<char>>,
    now: Moment,
    i: int,
    message: MessageView,
)
    requires
        0 <= i < seen.len(),
        holds(seen[i], message),
        !is_over(message, now),
        thread is None || thread == Some(message.thread),
    ensures
        history_read(seen, thread, now).messages.contains_key(message.id),
    decreases seen.len(),
{
    if i < seen.len() - 1 {
        lemma_history_has(seen.drop_last(), thread, now, i, message);
    } else {
        law_document_is_accepted_for_its_message(seen[i], message);
    }
}

proof fn lemma_history_read_keys(
    seen: Seq<SightingView>,
    thread: Option<Seq<char>>,
    now: Moment,
)
    ensures
        history_read(seen, thread, now).messages.dom().finite(),
        forall|id: Seq<char>| #[trigger]
            history_read(seen, thread, now).messages.contains_key(id) ==> history_read(
                seen,
                thread,
                now,
            ).messages[id].id == id,
    decreases seen.len(),
{
    if seen.len() > 0 {
        lemma_history_read_keys(seen.drop_last(), thread, now);
    }
}

/// What is in a history was read from a document that was seen, is not over, and is of
/// the wanted thread. It stands in order, each message once, and no more than the limit.
pub proof fn law_history_has_only_what_was_seen(
    seen: &Vec<Sighting>,
    thread: &Option<String>,
    limit: usize,
    now: Moment,
    r: Findings,
)
    requires
        call_ensures(history, (seen, thread, limit, now), r),
    ensures
        r.messages@.len() <= limit,
        ascending(ids_of(views(r.messages@))),
        forall|k: int|
            0 <= k < r.messages@.len() ==> {
                let message = (#[trigger] r.messages@[k])@;
                &&& !is_over(message, now)
                &&& thread is Some ==> message.thread == thread->Some_0@
                &&& exists|i: int| 0 <= i < seen@.len() && holds((#[trigger] seen@[i])@, message)
            },
{
    let all = views(seen@);
    let wanted = text_option(*thread);
    let end = history_read(all, wanted, now);
    lemma_history_read_keys(all, wanted, now);
    let list = in_order(end.messages);
    let keys = listing(end.messages.dom());
    lemma_in_order_ids(end.messages);
    lemma_listing_of(end.messages.dom());
    assert(views(r.messages@).len() == r.messages@.len());
    let from = if list.len() > limit {
        list.len() - limit
    } else {
        0
    };
    let ids = ids_of(views(r.messages@));
    assert forall|a: int, b: int| 0 <= a < b < ids.len() implies precedes(
        #[trigger] ids[a],
        #[trigger] ids[b],
    ) by {
        assert(ids_of(list)[from + a] == ids[a]);
        assert(ids_of(list)[from + b] == ids[b]);
    }
    assert forall|k: int| 0 <= k < r.messages@.len() implies {
        let message = (#[trigger] r.messages@[k])@;
        &&& !is_over(message, now)
        &&& thread is Some ==> message.thread == thread->Some_0@
        &&& exists|i: int| 0 <= i < seen@.len() && holds((#[trigger] seen@[i])@, message)
    } by {
        let message = r.messages@[k]@;
        assert(views(r.messages@)[k] == list[from + k]);
        assert(keys.to_set().contains(keys[from + k]));
        let i = lemma_history_origin(all, wanted, now, keys[from + k]);
        assert(all[i] == seen@[i]@);
    }
}

proof fn lemma_history_origin(
    seen: Seq<SightingView>,
    thread: Option<Seq<char>>,
    now: Moment,
    id: Seq<char>,
) -> (i: int)
    requires
        history_read(seen, thread, now).messages.contains_key(id),
    ensures
        0 <= i < seen.len(),
        holds(seen[i], history_read(seen, thread, now).messages[id]),
        !is_over(history_read(seen, thread, now).messages[id], now),
        thread is Some ==> history_read(seen, thread, now).messages[id].thread == thread->Some_0,
    decreases seen.len(),
{
    let before = history_read(seen.drop_last(), thread, now);
    if before.messages.contains_key(id) {
        lemma_history_origin(seen.drop_last(), thread, now, id)
    } else {
        let last = seen.last();
        law_document_is_accepted_for_its_message(last, accepted(last)->Ok_0);
        seen.len() - 1
    }
}

/// A history warns of each document that holds no message to accept, in their order, and
/// of nothing else.
pub proof fn law_history_warns_of_what_it_refuses(
    seen: Seq<SightingView>,
    thread: Option<Seq<char>>,
    now: Moment,
    next: SightingView,
)
    ensures
        history_read(seq![], thread, now).warnings == Seq::<Seq<char>>::empty(),
        ({
            let before = history_read(seen, thread, now).warnings;
            let after = history_read(seen.push(next), thread, now).warnings;
            &&& (exists|message: MessageView| holds(next, message)) ==> after == before
            &&& next.content matches Err(words) ==> after == before.push(
                "read "@ + next.path + ": "@ + words,
            )
            &&& next.content is Ok && !holds(next, next.content->Ok_0) ==> after == before.push(
                "read "@ + next.path
                    + ": "@ + "message path does not agree with document identity"@,
            )
        }),
{
    assert(seen.push(next).drop_last() =~= seen);
    if exists|message: MessageView| holds(next, message) {
        let message = choose|message: MessageView| holds(next, message);
        law_document_is_accepted_for_its_message(next, message);
    }
    match next.content {
        Ok(message) => {
            law_document_is_accepted_for_its_message(next, message);
        },
        Err(_) => {},
    }
}

/// A history looks through whole routes exactly if it looks for a thread.
pub proof fn law_threads_are_looked_for_everywhere(thread: &Option<String>, r: bool)
    requires
        call_ensures(reads_whole_route, (thread,), r),
    ensures
        r <==> thread is Some,
{
}

/// An agent reads the route to everyone, that of its project, its own, and that of each
/// of its groups, and no other.
pub proof fn law_agent_reads_its_routes(agent: &str, project: &str, groups: &Vec<String>, r: Vec<String>)
    requires
        call_ensures(reading_routes, (agent, project, groups), r),
    ensures
        r@.len() == groups@.len() + 3,
        r@[0]@ == "global"@,
        r@[1]@ == "project:"@ + project@,
        r@[2]@ == "direct:"@ + agent@,
        forall|i: int|
            0 <= i < groups@.len() ==> texts(r@)[i + 3] == "group:"@ + (#[trigger] groups@[i])@,
{
    assert(texts(r@).len() == r@.len());
    assert(texts(r@)[0] == r@[0]@);
    assert(texts(r@)[1] == r@[1]@);
    assert(texts(r@)[2] == r@[2]@);
    assert forall|i: int| 0 <= i < groups@.len() implies texts(r@)[i + 3] == "group:"@ + (
    #[trigger] groups@[i])@ by {
        assert(texts(groups@)[i] == groups@[i]@);
    }
}

/// A history is read from all routes of the agent, or, of one group, from that group's
/// alone where the agent reads it.
pub proof fn law_history_reads_its_routes(
    agent: &Agent,
    groups: &Vec<String>,
    group: &Option<String>,
    r: Vec<String>,
    route: Seq<char>,
)
    requires
        call_ensures(history_routes, (agent, groups, group), r),
    ensures
        ({
            let all = read_routes(agent.id@, agent.project@, texts(groups@));
            &&& group is None ==> texts(r@) == all
            &&& group matches Some(name) ==> (texts(r@).contains(route) <==> all.contains(route)
                && route == if name@ == "global"@ || begins_with(name@, "project:"@) {
                name@
            } else {
                "group:"@ + name@
            })
        }),
{
    match group {
        Some(name) => {
            let all = read_routes(agent.id@, agent.project@, texts(groups@));
            lemma_filter_members(all, |one: Seq<char>| one == history_route(name@), route);
        },
        None => {},
    }
}

/// A message to a group takes the group's route alone. A direct message takes the routes
/// of its recipients and then of its sender.
pub proof fn law_message_takes_its_routes(message: &Message, r: Vec<String>)
    requires
        call_ensures(message_routes, (message,), r),
    ensures
        message.group matches Some(group) ==> {
            &&& r@.len() == 1
            &&& group@ == "global"@ ==> texts(r@)[0] == "global"@
            &&& begins_with(group@, "project:"@) ==> texts(r@)[0] == group@
            &&& group@ != "global"@ && !begins_with(group@, "project:"@) ==> texts(r@)[0]
                == "group:"@ + group@
        },
        message.group is None ==> {
            &&& r@.len() == message.to@.len() + 1
            &&& forall|i: int|
                0 <= i < message.to@.len() ==> texts(r@)[i] == "direct:"@ + (
                #[trigger] message.to@[i])@
            &&& texts(r@).last() == "direct:"@ + message.from@
        },
{
    assert(texts(r@).len() == r@.len());
    assert(texts(message.to@).len() == message.to@.len());
    if message.group is None {
        assert forall|i: int| 0 <= i < message.to@.len() implies texts(r@)[i] == "direct:"@ + (
        #[trigger] message.to@[i])@ by {
            assert(texts(message.to@).push(message.from@)[i] == message.to@[i]@);
        }
    }
}

/// Of the routes of a message those concern a consumer that go to everyone, to its
/// project, to itself or to a group.
pub proof fn law_consumer_is_concerned_by_its_routes(
    message: MessageView,
    agent: Seq<char>,
    project: Seq<char>,
    route: Seq<char>,
)
    ensures
        routes_for(message, agent, project).contains(route) <==> routes_of(message).contains(route)
            && (route == "global"@ || route == "project:"@ + project || route == "direct:"@ + agent
            || begins_with(route, "group:"@)),
{
    lemma_filter_members(
        routes_of(message),
        |one: Seq<char>| crate::routed::concerns(one, agent, project),
        route,
    );
}

/// The hash of a name takes its bytes in one after the other, each before it multiplies.
pub proof fn law_hash_takes_in_bytes(bytes: Seq<u8>, byte: u8)
    ensures
        fnv(seq![]) == 0xcbf29ce484222325u64,
        fnv(bytes.push(byte)) == (fnv(bytes) ^ (byte as u64)).wrapping_mul(0x100000001b3u64),
{
    assert(bytes.push(byte).drop_last() =~= bytes);
}

/// A message stands on a route by the minute in which its identifier was made, then by
/// the last character of the identifier, under its name. Only a message without a sound
/// identifier has no place.
pub proof fn law_message_stands_by_its_minute(
    root: &str,
    route: &str,
    message: &Message,
    r: Result<String, BoardError>,
)
    requires
        is_fileable(route@),
        call_ensures(message_path, (root, route, message), r),
    ensures
        r is Ok <==> is_ulid(message.id@),
        r matches Ok(path) ==> components(path@) == components(route_folder(root@, route@))
            + minute_names(utc_minute(ulid_millis(message.id@) / 60_000)->Some_0) + seq![
            seq![message.id@.last()],
            message.id@ + ".json.zst"@,
        ],
{
    let id = message.id@;
    if is_ulid(id) {
        crate::ulids::lemma_decoded(id);
        lemma_location_components(root@, route@, id);
        crate::expiry_laws::lemma_route_components(root@, route@);
        let names = minute_names(utc_minute(ulid_millis(id) / 60_000)->Some_0);
        let tail = seq![seq![id.last()], id + ".json.zst"@];
        assert(ulid_millis(id) / 1000 / 60 == ulid_millis(id) / 60_000);
        let folder = components(route_folder(root@, route@));
        assert(components(message_location(root@, route@, id)) =~= folder + names + tail);
    }
}

/// A message is published on every one of its routes, and nowhere else.
pub proof fn law_message_is_published_on_each_route(
    root: Seq<char>,
    message: MessageView,
    path: Seq<char>,
)
    ensures
        locations(root, message).contains(path) <==> exists|route: Seq<char>| #[trigger]
            routes_of(message).contains(route) && path == message_location(root, route, message.id),
{
    let set = routes_of(message).to_set();
    let routes = listing(set);
    let places = locations(root, message);
    vstd::seq_lib::seq_to_set_is_finite(routes_of(message));
    lemma_listing_of(set);
    if places.contains(path) {
        let k = choose|k: int| 0 <= k < places.len() && places[k] == path;
        assert(routes.to_set().contains(routes[k]));
        assert(routes_of(message).contains(routes[k]));
    }
    if exists|route: Seq<char>| #[trigger]
        routes_of(message).contains(route) && path == message_location(root, route, message.id) {
        let route = choose|route: Seq<char>| #[trigger]
            routes_of(message).contains(route) && path == message_location(root, route, message.id);
        assert(set.contains(route));
        assert(routes.to_set().contains(route));
        let k = choose|k: int| 0 <= k < routes.len() && routes[k] == route;
        assert(places[k] == path);
    }
}

/// What stands at a path and cannot be read refuses a publication.
pub proof fn law_unreadable_place_refuses_publication(
    publication: Publication,
    root: Seq<char>,
    message: MessageView,
    there: Seq<Option<Result<MessageView, Seq<char>>>>,
    i: int,
)
    requires
        is_publication(publication, root, message, there),
        there.len() == locations(root, message).len(),
        0 <= i < there.len(),
        there[i] is Some,
        there[i]->Some_0 is Err,
    ensures
        publication.outcome is Err,
        publication.index is None,
{
    lemma_cleared_before(there, message, i);
    crate::routed::lemma_cleared_bound(there, message);
}

proof fn lemma_cleared_before(
    stored: Seq<Option<Result<MessageView, Seq<char>>>>,
    message: MessageView,
    i: int,
)
    requires
        0 <= i < stored.len(),
        stored[i] is Some,
        stored[i]->Some_0 is Err,
    ensures
        crate::routed::cleared(stored, message) <= i,
    decreases stored.len(),
{
    crate::routed::lemma_cleared_bound(stored.drop_last(), message);
    if i < stored.len() - 1 {
        lemma_cleared_before(stored.drop_last(), message, i);
    }
}

/// The index has a message that expires in the minute of its date, under its name, with
/// its date and all of its paths below the root. A date that cannot be read has no entry.
pub proof fn law_index_entry_names_the_message(
    root: &str,
    message: &Message,
    expires_at: &str,
    paths: &Vec<String>,
    r: Result<Filed<Expiry>, BoardError>,
)
    requires
        call_ensures(write_expiry, (root, message, expires_at, paths), r),
        !message.id@.contains('/'),
    ensures
        r is Ok <==> rfc3339_reading(expires_at@) is Ok,
        r matches Ok(filed) ==> {
            &&& filed.document.schema@ == "aiboard.expiry.v1"@
            &&& filed.document.message@ == message.id@
            &&& filed.document.expires_at@ == expires_at@
            &&& filed.document.paths@.len() == paths@.len()
            &&& forall|i: int|
                0 <= i < paths@.len() ==> texts(filed.document.paths@)[i]
                    == crate::routed::portable(root@, (#[trigger] paths@[i])@)
            &&& components(filed.path@) == components(root@) + seq!["v2"@, "expiry"@]
                + minute_names(
                utc_minute(rfc3339_reading(expires_at@)->Ok_0.0 as int / 60)->Some_0,
            ) + seq![message.id@ + ".json.zst"@]
        },
{
    match r {
        Ok(filed) => {
            let names = minute_names(
                utc_minute(rfc3339_reading(expires_at@)->Ok_0.0 as int / 60)->Some_0,
            );
            let last = message.id@ + ".json.zst"@;
            let all = names + seq![last];
            crate::expiry_laws::lemma_minute_names_safe(
                utc_minute(rfc3339_reading(expires_at@)->Ok_0.0 as int / 60)->Some_0,
            );
            crate::laws::lemma_document_name(message.id@);
            assert forall|i: int| 0 <= i < all.len() implies crate::path::is_plain(
                #[trigger] all[i],
            ) by {
                if i < names.len() {
                    assert(crate::expiry_laws::is_safe(names[i]));
                }
            }
            crate::expiry_laws::lemma_fixed_folders(root@);
            crate::path::lemma_descendant_components(child(root@, "v2/expiry"@), all);
            assert(components(filed.path@) =~= components(root@) + seq!["v2"@, "expiry"@] + names
                + seq![last]);
            assert(texts(filed.document.paths@).len() == filed.document.paths@.len());
            assert(filed.document@.paths.len() == texts(paths@).len());
            assert forall|i: int| 0 <= i < paths@.len() implies texts(filed.document.paths@)[i]
                == crate::routed::portable(root@, (#[trigger] paths@[i])@) by {
                assert(texts(paths@)[i] == paths@[i]@);
            }
        },
        Err(_) => {},
    }
}

/// A publication that succeeds gives a message that expires its entry in the index, and
/// only such a message.
pub proof fn law_expiring_publication_is_indexed(
    root: &str,
    message: &Message,
    stored: &Vec<Option<Result<Message, String>>>,
    r: Publication,
)
    requires
        call_ensures(publish, (root, message, stored), r),
    ensures
        r.index is Some <==> r.outcome is Ok && message.expires_at is Some,
        r.index matches Some(Ok(filed)) ==> {
            &&& filed.document.message@ == message.id@
            &&& Some(filed.document.expires_at@) == text_option(message.expires_at)
            &&& filed.document.paths@.len() == locations(root@, message@).len()
            &&& forall|i: int|
                0 <= i < filed.document.paths@.len() ==> (#[trigger] filed.document.paths@[i])@
                    == crate::routed::portable(root@, locations(root@, message@)[i])
        },
        r.index matches Some(Err(_)) ==> rfc3339_reading(message.expires_at->Some_0@) is Err,
{
    match r.index {
        Some(Ok(filed)) => {
            assert(texts(filed.document.paths@).len() == filed.document.paths@.len());
            assert(filed.document@.paths.len() == locations(root@, message@).len());
            assert forall|i: int| 0 <= i < filed.document.paths@.len() implies (
            #[trigger] filed.document.paths@[i])@ == crate::routed::portable(
                root@,
                locations(root@, message@)[i],
            ) by {
                assert(texts(filed.document.paths@)[i] == filed.document.paths@[i]@);
            }
        },
        _ => {},
    }
}

/// A stored path with backslashes leads where the one with slashes does, and one with a
/// parent traversal leads nowhere.
pub proof fn law_slashes_of_both_kinds_are_read(
    root: Seq<char>,
    stored: Seq<char>,
    other: Seq<char>,
    id: Seq<char>,
)
    requires
        stored.len() == other.len(),
        forall|i: int|
            0 <= i < stored.len() ==> #[trigger] other[i] == if stored[i] == '\\' {
                '/'
            } else {
                stored[i]
            },
    ensures
        expiry_target(root, stored, id) == expiry_target(root, other, id),
        components(other).contains(".."@) ==> expiry_target(root, stored, id) is Err,
{
    assert(with_forward_slashes(stored) =~= other);
    assert(with_forward_slashes(other) =~= other);
}

/// An entry of the index is left as it is where it cannot be read or its time has not
/// come, refused where it is not the entry of the message that it is named by or its date
/// cannot be read, and else removed together with the targets of its paths, up to the
/// first that leads nowhere.
pub proof fn law_index_entry_is_removed_when_due(
    root: &str,
    path: &str,
    content: &Result<Expiry, String>,
    now: Moment,
    r: Due,
)
    requires
        call_ensures(collect_expired, (root, path, content, now), r),
    ensures
        content is Err ==> r is Leave,
        content matches Ok(entry) ==> {
            let sound = entry.schema@ == "aiboard.expiry.v1"@ && document_title(path@) is Some
                && is_ulid(document_title(path@)->Some_0) && crate::ulids::ulid_encoding(
                ulid_decoding(document_title(path@)->Some_0)->Ok_0,
            ) == entry.message@;
            let time = rfc3339_reading(entry.expires_at@);
            &&& !sound || time is Err ==> r is Refuse
            &&& sound && time is Ok && !(time->Ok_0.0 < now.seconds || (time->Ok_0.0 == now.seconds
                && time->Ok_0.1 <= now.nanos)) ==> r is Leave
            &&& sound && time is Ok && (time->Ok_0.0 < now.seconds || (time->Ok_0.0 == now.seconds
                && time->Ok_0.1 <= now.nanos)) ==> r is Remove
        },
        r matches Due::Remove(targets, failure) ==> {
            let entry = content->Ok_0;
            &&& targets@.len() <= entry.paths@.len()
            &&& failure is None <==> targets@.len() == entry.paths@.len()
            &&& forall|i: int|
                0 <= i < targets@.len() ==> expiry_target(
                    root@,
                    texts(entry.paths@)[i],
                    entry.message@,
                ) == Ok::<Seq<char>, Seq<char>>((#[trigger] targets@[i])@)
            &&& failure is Some ==> expiry_target(
                root@,
                texts(entry.paths@)[targets@.len() as int],
                entry.message@,
            ) is Err
        },
{
    reveal_strlit("aiboard.expiry.v1");
    match r {
        Due::Remove(targets, failure) => {
            let entry = content->Ok_0;
            lemma_resolved(root@, texts(entry.paths@), entry.message@);
            assert(texts(targets@).len() == targets@.len());
            assert(texts(entry.paths@).len() == entry.paths@.len());
            assert forall|i: int| 0 <= i < targets@.len() implies expiry_target(
                root@,
                texts(entry.paths@)[i],
                entry.message@,
            ) == Ok::<Seq<char>, Seq<char>>((#[trigger] targets@[i])@) by {
                assert(texts(targets@)[i] == targets@[i]@);
            }
        },
        _ => {},
    }
}

proof fn lemma_resolved(root: Seq<char>, paths: Seq<Seq<char>>, id: Seq<char>)
    ensures
        ({
            let found = crate::routed::resolved(root, paths, id);
            &&& found.0.len() <= paths.len()
            &&& found.1 is None <==> found.0.len() == paths.len()
            &&& forall|i: int|
                0 <= i < found.0.len() ==> expiry_target(root, paths[i], id) == Ok::<
                    Seq<char>,
                    Seq<char>,
                >(#[trigger] found.0[i])
            &&& found.1 is Some ==> expiry_target(root, paths[found.0.len() as int], id) == Err::<
                Seq<char>,
                Seq<char>,
            >(found.1->Some_0)
        }),
    decreases paths.len(),
{
    if paths.len() > 0 {
        let init = paths.drop_last();
        lemma_resolved(root, init, id);
        let before = crate::routed::resolved(root, init, id);
        let found = crate::routed::resolved(root, paths, id);
        assert forall|i: int| 0 <= i < found.0.len() implies expiry_target(root, paths[i], id)
            == Ok::<Seq<char>, Seq<char>>(#[trigger] found.0[i]) by {
            if i < before.0.len() {
                assert(found.0[i] == before.0[i]);
                assert(init[i] == paths[i]);
            }
        }
        if before.1 is Some {
            assert(init[before.0.len() as int] == paths[before.0.len() as int]);
        }
    }
}

/// A scan looks for a route's messages in the current minute and in the ten before it.
pub proof fn law_scan_looks_at_the_last_minutes(
    root: &str,
    route: &str,
    now: Moment,
    r: Vec<String>,
    i: int,
)
    requires
        on_clock(now),
        is_fileable(route@),
        call_ensures(recent_paths, (root, route, now), r),
        0 <= i <= 10,
    ensures
        r@.len() == 11,
        components(r@[i]@) == components(route_folder(root@, route@)) + minute_names(
            utc_minute(now.seconds as int / 60 - i)->Some_0,
        ),
{
    assert(texts(r@).len() == r@.len());
    assert(texts(r@)[i] == r@[i]@);
    assert((now.seconds - 60 * i) / 60 == now.seconds as int / 60 - i);
    let m = utc_minute(now.seconds as int / 60 - i)->Some_0;
    crate::expiry_laws::lemma_minute_names_safe(m);
    assert forall|k: int| 0 <= k < minute_names(m).len() implies crate::path::is_plain(
        #[trigger] minute_names(m)[k],
    ) by {
        assert(crate::expiry_laws::is_safe(minute_names(m)[k]));
    }
    crate::path::lemma_descendant_components(route_folder(root@, route@), minute_names(m));
}

/// A document that a scan has not loaded and that holds a message is loaded, no longer
/// warned of, and delivered if it is not over and still to be delivered. One that holds
/// none is warned of once, and stays to be read again.
pub proof fn law_scan_takes_each_document(
    before: RouteScanView,
    cursors: Map<Seq<char>, CursorView>,
    seen: SightingView,
    now: Moment,
    message: MessageView,
)
    ensures
        ({
            let after = route_step(before, cursors, seen, now);
            let path = seen.path;
            &&& before.loaded.contains(path) ==> after == before
            &&& !before.loaded.contains(path) && holds(seen, message) ==> {
                &&& after.loaded == before.loaded.insert(path)
                &&& after.warnings == before.warnings
                &&& is_over(message, now) ==> after.messages == before.messages
                &&& !is_over(message, now) ==> !after.warned.contains(path)
                &&& !is_over(message, now) && undelivered(cursors, seen.route, message.id)
                    && !before.messages.contains_key(message.id) ==> after.messages
                    == before.messages.insert(message.id, message)
                &&& before.messages.contains_key(message.id) || !undelivered(
                    cursors,
                    seen.route,
                    message.id,
                ) ==> after.messages == before.messages
                &&& forall|other: Seq<char>|
                    other != path ==> #[trigger] after.warned.contains(other)
                        == before.warned.contains(other)
            }
            &&& !before.loaded.contains(path) && (seen.content is Err || !holds(
                seen,
                seen.content->Ok_0,
            )) ==> {
                &&& after.loaded == before.loaded
                &&& after.messages == before.messages
                &&& after.warned == before.warned.insert(path)
                &&& before.warned.contains(path) ==> after.warnings == before.warnings
                &&& !before.warned.contains(path) ==> after.warnings.len() == before.warnings.len()
                    + 1 && after.warnings.drop_last() == before.warnings && begins_with(
                    after.warnings.last(),
                    "read "@ + path + ": "@,
                )
            }
        }),
{
    law_document_is_accepted_for_its_message(seen, message);
    let after = route_step(before, cursors, seen, now);
    if !before.loaded.contains(seen.path) && (seen.content is Err || !holds(
        seen,
        seen.content->Ok_0,
    )) {
        if seen.content is Ok {
            law_document_is_accepted_for_its_message(seen, seen.content->Ok_0);
        }
        let words = accepted(seen)->Err_0;
        assert(accepted(seen) is Err);
        lemma_prefix_prepended("read "@ + seen.path + ": "@, words);
        if before.warned.contains(seen.path) {
            assert(before.warned.insert(seen.path) =~= before.warned);
        } else {
            assert(after.warnings.drop_last() =~= before.warnings);
        }
    }
}

/// A scan takes its documents one after the other, starting from what was loaded and
/// warned of; it gives the messages in order and the warnings, and then forgets what is
/// older than eleven minutes and warnings of what is gone. It changes nothing else.
pub proof fn law_scan_goes_through_its_documents(
    state: &mut RoutedState,
    seen: &Vec<Sighting>,
    gone: &Vec<String>,
    now: Moment,
    r: Findings,
    path: Seq<char>,
)
    requires
        on_clock(now),
        call_ensures(scan, (state, seen, gone, now), r),
    ensures
        ({
            let start = RouteScanView {
                loaded: old(state)@.loaded,
                warned: old(state)@.warned,
                messages: Map::empty(),
                warnings: seq![],
            };
            let end = routes_scanned(start, old(state)@.cursors, views(seen@), now);
            &&& seen@.len() == 0 ==> end == start
            &&& seen@.len() > 0 ==> end == route_step(
                routes_scanned(start, old(state)@.cursors, views(seen@).drop_last(), now),
                old(state)@.cursors,
                views(seen@).last(),
                now,
            )
            &&& views(r.messages@) == in_order(end.messages)
            &&& texts(r.warnings@) == end.warnings
            &&& final(state)@.loaded.contains(path) <==> end.loaded.contains(path)
                && document_title(path) is Some && is_ulid(document_title(path)->Some_0)
                && ulid_millis(document_title(path)->Some_0) >= epoch_millis(now) - 11 * 60 * 1000
            &&& final(state)@.warned.contains(path) <==> end.warned.contains(path) && !texts(
                gone@,
            ).contains(path)
            &&& final(state)@.agent_id == old(state)@.agent_id
            &&& final(state)@.project == old(state)@.project
            &&& final(state)@.cursors == old(state)@.cursors
            &&& final(state)@.last_gc == old(state)@.last_gc
        }),
{
    assert(views(seen@).len() == seen@.len());
    assert(texts(gone@).contains(path) <==> texts(gone@).to_set().contains(path));
    if document_title(path) is Some && is_ulid(document_title(path)->Some_0) {
        assert(ulid_millis(document_title(path)->Some_0) >= 0);
    }
}

/// Expired messages are collected at first and then every ten minutes.
pub proof fn law_collection_comes_every_ten_minutes(state: &RoutedState, instant: u64, r: bool)
    requires
        call_ensures(collection_due, (state, instant), r),
    ensures
        state.last_gc is None ==> r,
        state.last_gc matches Some(last) ==> (r <==> instant >= last + 10 * 60 * 1_000_000_000),
{
}

/// A collection is noted with its time, and a failure is warned of.
pub proof fn law_collection_is_noted(
    state: &mut RoutedState,
    instant: u64,
    outcome: Result<(), String>,
    r: Option<String>,
)
    requires
        call_ensures(collection_done, (state, instant, outcome), r),
    ensures
        final(state)@.last_gc == Some(instant),
        final(state)@.cursors == old(state)@.cursors,
        final(state)@.loaded == old(state)@.loaded,
        final(state)@.warned == old(state)@.warned,
        final(state)@.agent_id == old(state)@.agent_id,
        final(state)@.project == old(state)@.project,
        r is None <==> outcome is Ok,
        outcome matches Err(words) ==> r->Some_0@ == "expiry collection: "@ + words@,
{
}

/// Without messages, or before the consumer is known, an acknowledgment changes nothing
/// and asks for no checkpoint; else it asks for one, and moves cursors only.
pub proof fn law_acknowledgment_moves_cursors(
    state: &mut RoutedState,
    messages: &Vec<Message>,
    now: Moment,
    r: bool,
)
    requires
        on_clock(now),
        call_ensures(acknowledge, (state, messages, now), r),
    ensures
        r <==> messages@.len() > 0 && old(state)@.agent_id.len() > 0,
        !r ==> final(state)@ == old(state)@,
        r ==> final(state)@.cursors == acknowledged(old(state)@, views(messages@), now),
        final(state)@.agent_id == old(state)@.agent_id,
        final(state)@.project == old(state)@.project,
        final(state)@.loaded == old(state)@.loaded,
        final(state)@.warned == old(state)@.warned,
        final(state)@.last_gc == old(state)@.last_gc,
{
}

/// A checkpoint has the consumer and all that it has come to, and stands in the
/// consumer's directory under its own name.
pub proof fn law_checkpoint_has_the_cursors(root: &str, state: &RoutedState, r: Filed<Checkpoint>)
    requires
        call_ensures(write_checkpoint, (root, state), r),
    ensures
        r.document.schema@ == "aiboard.consumer.v1"@,
        r.document.agent@ == state.agent_id@,
        r.document@.routes == state@.cursors,
        document_title(r.path@) == Some(r.document.id@),
{
    crate::expiry_laws::lemma_identifier_names(r.document.id@);
    lemma_document_title(
        crate::routed::consumer_folder(root@, state@.agent_id),
        r.document.id@,
    );
}

/// An agent that starts is the consumer from then on. It resumes exactly if its latest
/// checkpoint is its own, and then with that checkpoint's cursors. A checkpoint that
/// cannot be read is a failure.
pub proof fn law_agent_resumes_from_its_checkpoint(
    state: &mut RoutedState,
    agent: &Agent,
    stored: Option<Result<Checkpoint, String>>,
    r: Result<bool, BoardError>,
)
    requires
        call_ensures(initialize, (state, agent, stored), r),
    ensures
        r is Err <==> stored is Some && stored->Some_0 is Err,
        stored is None ==> r is Ok && !r->Ok_0,
        stored matches Some(Ok(checkpoint)) ==> r is Ok && (r->Ok_0 <==> checkpoint.schema@
            == "aiboard.consumer.v1"@ && checkpoint.agent@ == agent.id@),
        final(state)@.agent_id == agent.id@,
        final(state)@.project == agent.project@,
        r is Ok && r->Ok_0 ==> final(state)@.cursors == stored->Some_0->Ok_0@.routes,
        !(r is Ok && r->Ok_0) ==> final(state)@.cursors == old(state)@.cursors,
        final(state)@.loaded == old(state)@.loaded,
        final(state)@.warned == old(state)@.warned,
        final(state)@.last_gc == old(state)@.last_gc,
{
}

/// The cache keeps the messages with the greatest identifiers, 4096 at most, as they are.
pub proof fn law_cache_keeps_its_messages(
    messages: &mut crate::collections::TextMap<Message>,
    id: Seq<char>,
)
    requires
        call_ensures(trim_cache, (messages,), ()),
        old(messages)@.dom().finite(),
    ensures
        final(messages)@.contains_key(id) ==> old(messages)@.contains_key(id) && final(messages)@[id]
            == old(messages)@[id],
        old(messages)@.dom().len() <= 4096 ==> final(messages)@ == old(messages)@,
        old(messages)@.dom().len() > 4096 ==> final(messages)@.dom().len() == 4096,
{
    let all = old(messages)@;
    let keys = listing(all.dom());
    lemma_listing_of(all.dom());
    crate::collections::lemma_ascending_no_duplicates(keys);
    keys.unique_seq_to_set();
    let kept = last_of(keys, CACHE_LIMIT as nat);
    if keys.len() <= 4096 {
        assert(final(messages)@ =~= all);
    } else {
        assert(kept.no_duplicates());
        kept.unique_seq_to_set();
        assert forall|k: Seq<char>| kept.to_set().contains(k) implies all.contains_key(k) by {
            let i = choose|i: int| 0 <= i < kept.len() && kept[i] == k;
            assert(keys[i + keys.len() - 4096] == k);
            assert(keys.to_set().contains(k));
        }
        assert(final(messages)@.dom() =~= kept.to_set());
    }
}

/// What a route's cursor remembered, and what is acknowledged there, is remembered
/// afterwards if it was made in the last ten minutes, unless 4096 greater ones are.
pub proof fn law_cursor_forgets_only_for_greater(
    state: RoutedView,
    messages: Seq<MessageView>,
    now: Moment,
    route: Seq<char>,
    id: Seq<char>,
)
    requires
        on_clock(now),
        is_ulid(id),
        ulid_millis(id) >= epoch_millis(now) - 10 * 60 * 1000,
        cursor_of(state.cursors, route).overlap_ids.contains(id) || exists|i: int|
            0 <= i < messages.len() && (#[trigger] messages[i]).id == id && routes_for(
                messages[i],
                state.agent_id,
                state.project,
            ).contains(route),
    ensures
        ({
            let list = cursor_of(acknowledged(state, messages, now), route).overlap_ids;
            list.contains(id) || (list.len() == 4096 && forall|k: int|
                0 <= k < list.len() ==> !precedes(#[trigger] list[k], id))
        }),
{
    let before = advanced_by(state.cursors, messages, state.agent_id, state.project);
    let floor = overlap_floor(now);
    lemma_remembers(state.cursors, messages, state.agent_id, state.project, route, id);
    let had = cursor_of(before, route).overlap_ids;
    assert(before.contains_key(route)) by {
        if !before.contains_key(route) {
            assert(!had.contains(id));
        }
    }
    let keep = |one: Seq<char>| is_since(one, floor);
    let kept = had.filter(keep);
    let ordered = sorted_list(kept);
    let list = acknowledged(state, messages, now)[route].overlap_ids;
    assert(ulid_millis(id) >= 0);
    assert(is_since(id, floor));
    lemma_filter_members(had, keep, id);
    crate::collections::lemma_sorted_list(kept);
    kept.to_multiset_ensures();
    ordered.to_multiset_ensures();
    assert(kept.to_multiset().count(id) > 0);
    assert(ordered.contains(id));
    let at = choose|k: int| 0 <= k < ordered.len() && ordered[k] == id;
    assert(list == last_of(ordered, CACHE_LIMIT as nat));
    let from = ordered.len() - list.len();
    if at >= from {
        assert(list[at - from] == id);
    } else {
        assert forall|k: int| 0 <= k < list.len() implies !precedes(#[trigger] list[k], id) by {
            assert(list[k] == ordered[from + k]);
            assert(!precedes(ordered[from + k], ordered[at]));
        }
    }
}

proof fn lemma_remembers_on(
    cursors: Map<Seq<char>, CursorView>,
    routes: Seq<Seq<char>>,
    other: Seq<char>,
    route: Seq<char>,
    id: Seq<char>,
)
    requires
        cursor_of(cursors, route).overlap_ids.contains(id) || (routes.contains(route) && id
            == other),
    ensures
        cursor_of(advanced_on(cursors, routes, other), route).overlap_ids.contains(id),
    decreases routes.len(),
{
    if routes.len() > 0 {
        let init = routes.drop_last();
        let before = advanced_on(cursors, init, other);
        if !cursor_of(cursors, route).overlap_ids.contains(id) && routes.last() != route {
            let k = choose|k: int| 0 <= k < routes.len() && routes[k] == route;
            assert(init[k] == route);
        }
        if cursor_of(cursors, route).overlap_ids.contains(id) || init.contains(route) {
            lemma_remembers_on(cursors, init, other, route, id);
        }
        if routes.last() == route {
            let had = cursor_of(before, route).overlap_ids;
            let list = advanced(cursor_of(before, route), other).overlap_ids;
            if had.contains(id) {
                let k = choose|k: int| 0 <= k < had.len() && had[k] == id;
                assert(list[k] == id);
            } else {
                assert(list[list.len() - 1] == id);
            }
        }
    }
}

proof fn lemma_remembers(
    cursors: Map<Seq<char>, CursorView>,
    messages: Seq<MessageView>,
    agent: Seq<char>,
    project: Seq<char>,
    route: Seq<char>,
    id: Seq<char>,
)
    requires
        cursor_of(cursors, route).overlap_ids.contains(id) || exists|i: int|
            0 <= i < messages.len() && (#[trigger] messages[i]).id == id && routes_for(
                messages[i],
                agent,
                project,
            ).contains(route),
    ensures
        cursor_of(
            advanced_by(cursors, messages, agent, project),
            route,
        ).overlap_ids.contains(id),
    decreases messages.len(),
{
    if messages.len() > 0 {
        let init = messages.drop_last();
        let last = messages.last();
        let routes = routes_for(last, agent, project);
        if !cursor_of(cursors, route).overlap_ids.contains(id) && !(last.id == id
            && routes.contains(route)) {
            let i = choose|i: int|
                0 <= i < messages.len() && (#[trigger] messages[i]).id == id && routes_for(
                    messages[i],
                    agent,
                    project,
                ).contains(route);
            assert(init[i] == messages[i]);
        }
        if cursor_of(cursors, route).overlap_ids.contains(id) || !(last.id == id
            && routes.contains(route)) {
            lemma_remembers(cursors, init, agent, project, route, id);
        }
        lemma_remembers_on(
            advanced_by(cursors, init, agent, project),
            routes,
            last.id,
            route,
            id,
        );
    }
}

/// What a cursor remembers after an acknowledgment it remembered before, or it was
/// acknowledged on the route.
pub proof fn law_cursor_remembers_only_what_was_acknowledged(
    state: RoutedView,
    messages: Seq<MessageView>,
    now: Moment,
    route: Seq<char>,
    id: Seq<char>,
)
    requires
        cursor_of(acknowledged(state, messages, now), route).overlap_ids.contains(id),
    ensures
        cursor_of(state.cursors, route).overlap_ids.contains(id) || exists|i: int|
            0 <= i < messages.len() && (#[trigger] messages[i]).id == id && routes_for(
                messages[i],
                state.agent_id,
                state.project,
            ).contains(route),
{
    let before = advanced_by(state.cursors, messages, state.agent_id, state.project);
    if before.contains_key(route) {
        lemma_trimmed_members(before[route], overlap_floor(now), id);
    }
    lemma_remembered_from(state.cursors, messages, state.agent_id, state.project, route, id);
}

proof fn lemma_remembered_from(
    cursors: Map<Seq<char>, CursorView>,
    messages: Seq<MessageView>,
    agent: Seq<char>,
    project: Seq<char>,
    route: Seq<char>,
    id: Seq<char>,
)
    requires
        cursor_of(
            advanced_by(cursors, messages, agent, project),
            route,
        ).overlap_ids.contains(id),
    ensures
        cursor_of(cursors, route).overlap_ids.contains(id) || exists|i: int|
            0 <= i < messages.len() && (#[trigger] messages[i]).id == id && routes_for(
                messages[i],
                agent,
                project,
            ).contains(route),
    decreases messages.len(),
{
    if messages.len() > 0 {
        let init = messages.drop_last();
        let last = messages.last();
        let before = advanced_by(cursors, init, agent, project);
        if cursor_of(before, route).overlap_ids.contains(id) {
            lemma_remembered_from(cursors, init, agent, project, route, id);
            if !cursor_of(cursors, route).overlap_ids.contains(id) {
                let i = choose|i: int|
                    0 <= i < init.len() && (#[trigger] init[i]).id == id && routes_for(
                        init[i],
                        agent,
                        project,
                    ).contains(route);
                assert(messages[i] == init[i]);
            }
        } else {
            lemma_remembered_on_from(before, routes_for(last, agent, project), last.id, route, id);
            assert(messages[messages.len() - 1] == last);
        }
    }
}

proof fn lemma_remembered_on_from(
    cursors: Map<Seq<char>, CursorView>,
    routes: Seq<Seq<char>>,
    other: Seq<char>,
    route: Seq<char>,
    id: Seq<char>,
)
    requires
        cursor_of(advanced_on(cursors, routes, other), route).overlap_ids.contains(id),
        !cursor_of(cursors, route).overlap_ids.contains(id),
    ensures
        routes.contains(route),
        id == other,
    decreases routes.len(),
{
    if routes.len() > 0 {
        let init = routes.drop_last();
        let before = advanced_on(cursors, init, other);
        if cursor_of(before, route).overlap_ids.contains(id) {
            lemma_remembered_on_from(cursors, init, other, route, id);
            let k = choose|k: int| 0 <= k < init.len() && init[k] == route;
            assert(routes[k] == route);
        } else {
            assert(routes[routes.len() - 1] == routes.last());
            let had = cursor_of(before, route).overlap_ids;
            let list = advanced(cursor_of(before, route), other).overlap_ids;
            if routes.last() == route {
                let k = choose|k: int| 0 <= k < list.len() && list[k] == id;
                if k < had.len() {
                    assert(had[k] == id);
                }
            }
        }
    }
}

/// A migration counts a message that it could publish and index as moved if something was
/// missing, and as there before if nothing was; a message that it could not it does not
/// count.
pub proof fn law_migration_counts_what_it_moves(
    report: &mut MigrationReport,
    root: &str,
    message: &Message,
    stored: &Vec<Option<Result<Message, String>>>,
    r: Publication,
)
    requires
        old(report).migrated < usize::MAX,
        old(report).already_present < usize::MAX,
        call_ensures(migrate_v1, (report, root, message, stored), r),
        stored@.len() == locations(root@, message@).len(),
    ensures
        ({
            let done = r.outcome is Ok && (r.index is None || r.index->Some_0 is Ok);
            let whole = forall|i: int| 0 <= i < stored@.len() ==> #[trigger] stored@[i] is Some;
            &&& final(report).migrated == old(report).migrated + if done && !whole {
                1int
            } else {
                0
            }
            &&& final(report).already_present == old(report).already_present + if done && whole {
                1int
            } else {
                0
            }
            &&& final(report).schema@ == old(report).schema@
            &&& final(report).retained_legacy == old(report).retained_legacy
        }),
{
    let there = crate::routed::all_found(stored@, locations(root@, message@).len());
    assert forall|i: int| 0 <= i < stored@.len() implies (#[trigger] there[i] is Some
        <==> stored@[i] is Some) by {}
    if forall|i: int| 0 <= i < stored@.len() ==> #[trigger] stored@[i] is Some {
        assert forall|i: int| 0 <= i < there.len() implies #[trigger] there[i] is Some by {
            assert(stored@[i] is Some);
        }
    }
    if crate::routed::all_there(there) {
        assert forall|i: int| 0 <= i < stored@.len() implies #[trigger] stored@[i] is Some by {
            assert(there[i] is Some);
        }
    }
}

/// A message is published on its routes, unless its identifier is not sound.
pub proof fn law_publication_has_its_paths(
    root: &str,
    message: &Message,
    r: Result<Vec<String>, BoardError>,
)
    requires
        call_ensures(publication_paths, (root, message), r),
    ensures
        r is Ok <==> is_ulid(message.id@),
        r matches Ok(paths) ==> texts(paths@) == locations(root@, message@),
{
}

/// A migration starts with nothing counted and leaves what was there.
pub proof fn law_migration_starts_with_nothing(r: MigrationReport)
    requires
        call_ensures(migration_report, (), r),
    ensures
        r.schema@ == "aiboard.migration.v1"@,
        r.migrated == 0,
        r.already_present == 0,
        r.retained_legacy,
{
}

/// The report of a migration is a document of its own among the board's migrations.
pub proof fn law_report_is_a_document_of_its_own(root: &str, r: String)
    requires
        call_ensures(report_path, (root,), r),
    ensures
        document_title(r@) is Some,
        crate::ulids::is_canonical(document_title(r@)->Some_0),
        r@ == child(child(root@, "v2/migrations"@), document_title(r@)->Some_0 + ".json.zst"@),
{
    let id = choose|id: Seq<char>|
        #[trigger] crate::ulids::is_canonical(id) && r@ == child(
            child(root@, "v2/migrations"@),
            id + crate::storage::DOCUMENT_SUFFIX@,
        );
    crate::expiry_laws::lemma_identifier_names(id);
    lemma_document_title(child(root@, "v2/migrations"@), id);
}

/// A path in the index that has the board's directory of messages somewhere, below
/// whatever root it was stored with, leads to the same document below the board's root.
/// Slashes may be of either kind.
pub proof fn law_path_of_another_root_is_found(
    root: Seq<char>,
    stored: Seq<char>,
    above: Seq<Seq<char>>,
    rest: Seq<Seq<char>>,
    id: Seq<char>,
)
    requires
        components(with_forward_slashes(stored)) == above + seq!["v2"@, "messages"@] + rest,
        !above.contains("v2"@),
        !above.contains(".."@),
        !is_within(components(with_forward_slashes(stored)), components(root)),
        rest.len() > 0,
        forall|i: int| 0 <= i < rest.len() ==> is_single(#[trigger] rest[i]),
        rest.last() == id + ".json.zst"@,
    ensures
        expiry_target(root, stored, id) is Ok,
        components(expiry_target(root, stored, id)->Ok_0) == components(root) + seq![
            "v2"@,
            "messages"@,
        ] + rest,
{
    let parts = components(with_forward_slashes(stored));
    let names = seq!["v2"@, "messages"@] + rest;
    let n = above.len() as int;
    crate::expiry_laws::lemma_fixed_names();
    assert(parts =~= above + names);
    assert forall|i: int| 0 <= i < names.len() implies is_single(#[trigger] names[i]) by {
        if i >= 2 {
            assert(names[i] == rest[i - 2]);
        }
    }
    assert(!parts.contains(".."@)) by {
        if parts.contains(".."@) {
            let k = choose|k: int| 0 <= k < parts.len() && parts[k] == ".."@;
            if k < n {
                assert(above[k] == ".."@);
            } else {
                assert(is_single(names[k - n]));
            }
        }
    }
    assert(parts[n] == "v2"@);
    assert(parts.contains("v2"@));
    assert(parts.take(n) =~= above);
    lemma_first_position(parts, "v2"@, n, above);
    assert(parts.skip(n) =~= names);
    assert forall|i: int| 0 <= i < names.len() implies crate::path::is_plain(
        #[trigger] names[i],
    ) by {
        assert(is_single(names[i]));
    }
    crate::path::lemma_descendant_components(root, names);
    crate::expiry_laws::lemma_fixed_folders(root);
    let target = descendant(root, names);
    let folder = components(root) + seq!["v2"@, "messages"@];
    assert(components(target) =~= folder + rest);
    assert((folder + rest).take(folder.len() as int) =~= folder);
    assert(is_single(rest[rest.len() - 1]));
    assert(last_name(target) == Some(id + ".json.zst"@));
}

proof fn lemma_first_position(
    list: Seq<Seq<char>>,
    wanted: Seq<char>,
    at: int,
    before: Seq<Seq<char>>,
)
    requires
        0 <= at < list.len(),
        list[at] == wanted,
        before == list.take(at),
        !before.contains(wanted),
    ensures
        crate::routed::position_of(list, wanted) == at,
    decreases at,
{
    if at > 0 {
        assert(before[0] == list[0]);
        assert(list[0] != wanted) by {
            assert(before.contains(before[0]));
        }
        let shorter = before.drop_first();
        assert(shorter =~= list.drop_first().take(at - 1));
        assert(!shorter.contains(wanted)) by {
            if shorter.contains(wanted) {
                let k = choose|k: int| 0 <= k < shorter.len() && shorter[k] == wanted;
                assert(before[k + 1] == wanted);
            }
        }
        lemma_first_position(list.drop_first(), wanted, at - 1, shorter);
    }
}

/// A path in the index is refused for what is wrong with it: a parent traversal, a place
/// outside the board, or a name that is not the message's inside the messages.
pub proof fn law_stored_path_is_refused_for_its_fault(
    root: &str,
    stored: &str,
    id: &str,
    r: Result<String, BoardError>,
)
    requires
        call_ensures(resolve_expiry_target, (root, stored, id), r),
    ensures
        ({
            let text = with_forward_slashes(stored@);
            let parts = components(text);
            &&& parts.contains(".."@) ==> r is Err && r->Err_0.message@
                == "expiry target contains a parent traversal"@
            &&& !parts.contains(".."@) && is_rooted(text) && !parts.contains("v2"@) && !is_within(
                parts,
                components(root@),
            ) ==> r is Err && r->Err_0.message@ == "expiry target is outside the board root"@
            &&& r is Err && !parts.contains(".."@) && (!is_rooted(text) || parts.contains("v2"@)
                || is_within(parts, components(root@))) ==> r->Err_0.message@
                == "expiry target is not the indexed message inside v2/messages"@
            &&& r matches Ok(target) ==> {
                &&& is_within(components(target@), components(root@) + seq!["v2"@, "messages"@])
                &&& last_name(target@) == Some(id@ + ".json.zst"@)
            }
        }),
{
    crate::expiry_laws::lemma_fixed_folders(root@);
}

} // verus!
