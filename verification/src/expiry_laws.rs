//! What holds of the places of messages and of the expiry index.
use crate::clock::{earlier_minute, minute_names, no_later, rfc3339_reading, utc_minute, Moment};
use crate::collections::listing;
use crate::laws::{law_shard_is_two_digits, lemma_document_title};
use crate::model::{MessageView, MESSAGE_SCHEMA};
use crate::path::{
    child, components, counted, counts, descendant, is_name, is_plain, is_rooted, is_within,
    last_name, lemma_child_components, lemma_descendant_components, lemma_with_slashes, pieces,
    with_slashes,
};
use crate::routed::{
    accepted, below_minute, direct_route, due_decision, expiry_location, expiry_target,
    global_route, is_message_path, is_route, locations, message_location, minute_of, minute_of_date,
    portable, position_of, resolved, route_folder, routes_of, shard, target_candidate,
    with_forward_slashes, DueView, ExpiryView, SightingView, EXPIRY_SCHEMA,
};
use crate::storage::DOCUMENT_SUFFIX;
use crate::text::{
    begins_with, digit_char, lemma_precedes_common, lemma_precedes_extended, lemma_prefix_prepended,
    numeral, padded, precedes, zeros,
};
use crate::ulids::{is_alphanumeric, is_canonical, is_identifier};
use crate::walk::{is_due, names_no_later};
use vstd::prelude::*;

verus! {

/// A name that is one component of a path: no dots alone, no slash.
pub open spec fn is_single(name: Seq<char>) -> bool {
    is_plain(name) && is_name(name)
}

/// A name that can stand in a path wherever it is read: one component, no slash
/// of either kind.
pub open spec fn is_safe(name: Seq<char>) -> bool {
    is_single(name) && !name.contains('\\')
}

/// The name that a route is filed under.
pub open spec fn route_name(route: Seq<char>) -> Seq<char> {
    if begins_with(route, "project:"@) {
        route.skip("project:"@.len() as int)
    } else if begins_with(route, "group:"@) {
        route.skip("group:"@.len() as int)
    } else {
        route.skip("direct:"@.len() as int)
    }
}

/// Whether a route can be filed: it goes to everyone, or its name is one component
/// of a path.
pub open spec fn is_fileable(route: Seq<char>) -> bool {
    is_route(route) && (route == global_route() || is_single(route_name(route)))
}

/// Whether a route can be filed wherever a path is read: its name has no backslash.
pub open spec fn is_portable(route: Seq<char>) -> bool {
    is_route(route) && (route == global_route() || is_safe(route_name(route)))
}

/// The names that lead from the root of a board to a route.
pub open spec fn route_names(route: Seq<char>) -> Seq<Seq<char>> {
    if route == global_route() {
        seq!["v2"@, "messages"@, "global"@]
    } else {
        let collection = if begins_with(route, "project:"@) {
            "projects"@
        } else if begins_with(route, "group:"@) {
            "groups"@
        } else {
            "direct"@
        };
        seq!["v2"@, "messages"@, collection, shard(route_name(route)), route_name(route)]
    }
}

/// The names that lead from the root of a board to a message.
pub open spec fn location_names(route: Seq<char>, id: Seq<char>) -> Seq<Seq<char>> {
    route_names(route) + below_minute(minute_of(id), seq![seq![id.last()], id + DOCUMENT_SUFFIX@])
}

/// Literal names are safe.
pub proof fn lemma_fixed_names()
    ensures
        is_safe("v2"@),
        is_safe("messages"@),
        is_safe("global"@),
        is_safe("projects"@),
        is_safe("groups"@),
        is_safe("direct"@),
        is_safe("expiry"@),
        "v2"@ != ".."@,
{
    reveal_strlit("v2");
    reveal_strlit("messages");
    reveal_strlit("global");
    reveal_strlit("projects");
    reveal_strlit("groups");
    reveal_strlit("direct");
    reveal_strlit("expiry");
    reveal_strlit("/");
    reveal_strlit(".");
    reveal_strlit("..");
    assert("v2"@.len() == 2 && "v2"@[0] == 'v');
    assert(".."@[0] == '.');
    assert("messages"@.len() == 8);
    assert("global"@.len() == 6);
    assert("projects"@.len() == 8);
    assert("groups"@.len() == 6);
    assert("direct"@.len() == 6);
    assert("expiry"@.len() == 6);
}

/// A path of two names is the second below the first.
pub proof fn lemma_two_names(base: Seq<char>, first: Seq<char>, second: Seq<char>)
    requires
        is_plain(first),
        is_plain(second),
    ensures
        child(base, first + "/"@ + second) == child(child(base, first), second),
        components(child(base, first + "/"@ + second)) == components(base) + seq![first, second],
{
    reveal_strlit("/");
    let both = first + "/"@ + second;
    assert(!is_rooted(first)) by {
        assert(first.contains(first[0]));
    }
    assert(!is_rooted(second)) by {
        assert(second.contains(second[0]));
    }
    assert(both[0] == first[0]);
    assert(first.contains(first.last()));
    let upper = child(base, first);
    assert(upper.last() == first.last());
    assert(child(upper, second) == upper + "/"@ + second);
    if base.len() == 0 || base.last() == '/' {
        assert(base + both =~= base + first + "/"@ + second);
    } else {
        assert(base + "/"@ + both =~= base + "/"@ + first + "/"@ + second);
    }
    lemma_child_components(base, first);
    lemma_child_components(upper, second);
    assert(components(base).push(first).push(second) =~= components(base) + seq![first, second]);
}

/// The components of the fixed directories of a board.
pub proof fn lemma_fixed_folders(root: Seq<char>)
    ensures
        components(child(root, "v2/messages"@)) == components(root) + seq!["v2"@, "messages"@],
        components(child(root, "v2/expiry"@)) == components(root) + seq!["v2"@, "expiry"@],
{
    lemma_fixed_names();
    reveal_strlit("v2/messages");
    reveal_strlit("v2/expiry");
    reveal_strlit("v2");
    reveal_strlit("/");
    reveal_strlit("messages");
    reveal_strlit("expiry");
    assert("v2/messages"@ =~= "v2"@ + "/"@ + "messages"@);
    assert("v2/expiry"@ =~= "v2"@ + "/"@ + "expiry"@);
    lemma_two_names(root, "v2"@, "messages"@);
    lemma_two_names(root, "v2"@, "expiry"@);
}

pub proof fn lemma_shard_is_safe(value: Seq<char>)
    ensures
        is_safe(shard(value)),
{
    law_shard_is_two_digits(value);
    reveal_strlit("/");
    reveal_strlit(".");
    reveal_strlit("..");
    let name = shard(value);
    assert(name[0] != '.');
    assert forall|i: int| 0 <= i < name.len() implies name[i] != '/' && name[i] != '\\' by {
        assert(i == 0 || i == 1);
    }
}

/// The components of a route's directory.
pub proof fn lemma_route_components(root: Seq<char>, route: Seq<char>)
    requires
        is_fileable(route),
    ensures
        components(route_folder(root, route)) == components(root) + route_names(route),
        forall|i: int|
            0 <= i < route_names(route).len() ==> is_single(#[trigger] route_names(route)[i]),
        is_portable(route) ==> forall|i: int|
            0 <= i < route_names(route).len() ==> is_safe(#[trigger] route_names(route)[i]),
{
    lemma_fixed_names();
    lemma_fixed_folders(root);
    let messages = child(root, "v2/messages"@);
    if route == global_route() {
        lemma_child_components(messages, "global"@);
        assert(components(route_folder(root, route)) =~= components(root) + route_names(route));
    } else {
        let name = route_name(route);
        lemma_shard_is_safe(name);
        let collection = route_names(route)[2];
        assert(is_safe(collection));
        let folder = child(messages, collection);
        lemma_child_components(messages, collection);
        lemma_child_components(folder, shard(name));
        lemma_child_components(child(folder, shard(name)), name);
        assert(route_folder(root, route) == child(child(folder, shard(name)), name));
        assert(components(route_folder(root, route)) =~= components(root) + route_names(route));
    }
}

/// The characters of a numeral are digits.
pub proof fn lemma_numeral_chars(n: nat)
    ensures
        numeral(n).len() > 0,
        forall|i: int| 0 <= i < numeral(n).len() ==> '0' <= #[trigger] numeral(n)[i] <= '9',
    decreases n,
{
    if n >= 10 {
        lemma_numeral_chars(n / 10);
    }
}

proof fn lemma_padded_is_safe(n: int, width: int)
    ensures
        is_safe(padded(n, width)),
{
    reveal_strlit("/");
    reveal_strlit(".");
    reveal_strlit("..");
    lemma_numeral_chars(if n < 0 {
        (-n) as nat
    } else {
        n as nat
    });
    let text = padded(n, width);
    assert forall|i: int| 0 <= i < text.len() implies text[i] == '-' || ('0' <= #[trigger] text[i]
        <= '9') by {}
    assert(text.len() > 0);
    assert(text[0] != '.');
}

/// The names of a minute are safe.
pub proof fn lemma_minute_names_safe(m: (i32, u32, u32, u32, u32))
    ensures
        minute_names(m).len() == 5,
        forall|i: int| 0 <= i < 5 ==> is_safe(#[trigger] minute_names(m)[i]),
{
    lemma_padded_is_safe(m.0 as int, 4);
    lemma_padded_is_safe(m.1 as int, 2);
    lemma_padded_is_safe(m.2 as int, 2);
    lemma_padded_is_safe(m.3 as int, 2);
    lemma_padded_is_safe(m.4 as int, 2);
}

/// The names of an identifier's document are safe.
pub proof fn lemma_identifier_names(id: Seq<char>)
    requires
        is_identifier(id),
    ensures
        is_safe(seq![id.last()]),
        is_safe(id + DOCUMENT_SUFFIX@),
        !id.contains('/'),
{
    reveal_strlit("/");
    reveal_strlit(".");
    reveal_strlit("..");
    reveal_strlit(".json.zst");
    let one = seq![id.last()];
    assert(is_alphanumeric(id[25]));
    assert(one[0] == id[25]);
    let full = id + DOCUMENT_SUFFIX@;
    assert(full.len() == 35);
    assert forall|i: int| 0 <= i < full.len() implies full[i] != '/' && full[i] != '\\' by {
        if i < 26 {
            assert(is_alphanumeric(id[i]));
        }
    }
    assert forall|i: int| 0 <= i < id.len() implies id[i] != '/' by {
        assert(is_alphanumeric(id[i]));
    }
}

/// The components of a message's path: those of the root, and names that do not
/// depend on the root.
pub proof fn lemma_location_components(root: Seq<char>, route: Seq<char>, id: Seq<char>)
    requires
        is_fileable(route),
        is_identifier(id),
    ensures
        components(message_location(root, route, id)) == components(root) + location_names(route, id),
        location_names(route, id).len() >= 3,
        is_portable(route) ==> forall|i: int|
            0 <= i < location_names(route, id).len() ==> is_safe(
                #[trigger] location_names(route, id)[i],
            ),
        location_names(route, id)[0] == "v2"@,
        location_names(route, id)[1] == "messages"@,
        location_names(route, id).last() == id + DOCUMENT_SUFFIX@,
{
    let upper = route_names(route);
    let lower = below_minute(minute_of(id), seq![seq![id.last()], id + DOCUMENT_SUFFIX@]);
    lemma_route_components(root, route);
    lemma_minute_names_safe(utc_minute(minute_of(id))->Some_0);
    lemma_identifier_names(id);
    assert forall|i: int| 0 <= i < lower.len() implies is_safe(#[trigger] lower[i]) by {
        if i < 5 {
            assert(lower[i] == minute_names(utc_minute(minute_of(id))->Some_0)[i]);
        }
    }
    assert forall|i: int| 0 <= i < lower.len() implies is_plain(#[trigger] lower[i]) by {
        assert(is_safe(lower[i]));
    }
    lemma_descendant_components(route_folder(root, route), lower);
    assert(components(root) + upper + lower =~= components(root) + (upper + lower));
    let names = location_names(route, id);
    if is_portable(route) {
        assert forall|i: int| 0 <= i < names.len() implies is_safe(#[trigger] names[i]) by {
            if i < upper.len() {
                assert(names[i] == upper[i]);
            } else {
                assert(names[i] == lower[i - upper.len()]);
            }
        }
    }
}

/// A message that is published is accepted from each of its places: it has the
/// schema of messages, and its documents are named by its identifier.
pub proof fn law_published_document_is_accepted(root: Seq<char>, route: Seq<char>, message: MessageView)
    requires
        message.schema == MESSAGE_SCHEMA@,
        is_identifier(message.id),
    ensures
        accepted(
            SightingView {
                route,
                path: message_location(root, route, message.id),
                content: Ok(message),
            },
        ) == Ok::<MessageView, Seq<char>>(message),
{
    let id = message.id;
    let names = below_minute(minute_of(id), seq![seq![id.last()], id + DOCUMENT_SUFFIX@]);
    lemma_identifier_names(id);
    assert(names.last() == id + DOCUMENT_SUFFIX@);
    lemma_document_title(descendant(route_folder(root, route), names.drop_last()), id);
}

/// Different routes have directories apart from each other, below the messages of
/// the board: they differ, neither lies below the other, and no path lies below
/// both.
pub proof fn law_route_directories_are_apart(root: Seq<char>, route: Seq<char>, other: Seq<char>)
    requires
        is_fileable(route),
        is_fileable(other),
        route != other,
    ensures
        ({
            let a = components(route_folder(root, route));
            let b = components(route_folder(root, other));
            let messages = components(root) + seq!["v2"@, "messages"@];
            &&& a == components(root) + route_names(route)
            &&& b == components(root) + route_names(other)
            &&& is_within(a, messages)
            &&& is_within(b, messages)
            &&& route_folder(root, route) != route_folder(root, other)
            &&& !is_within(a, b)
            &&& !is_within(b, a)
            &&& forall|path: Seq<Seq<char>>| #[trigger] is_within(path, a) ==> !is_within(path, b)
        }),
{
    lemma_route_components(root, route);
    lemma_route_components(root, other);
    lemma_below_messages(components(root), route);
    lemma_below_messages(components(root), other);
    let at = lemma_route_names_differ(route, other);
    lemma_apart(
        components(route_folder(root, route)),
        components(route_folder(root, other)),
        components(root).len() + at,
    );
}

/// The names of every route start with those of the messages.
proof fn lemma_below_messages(base: Seq<Seq<char>>, route: Seq<char>)
    ensures
        is_within(base + route_names(route), base + seq!["v2"@, "messages"@]),
{
    let messages = base + seq!["v2"@, "messages"@];
    assert((base + route_names(route)).take(messages.len() as int) =~= messages);
}

/// Paths that differ at a position have nothing below them in common.
proof fn lemma_apart(a: Seq<Seq<char>>, b: Seq<Seq<char>>, at: int)
    requires
        0 <= at < a.len(),
        at < b.len(),
        a[at] != b[at],
    ensures
        !is_within(a, b),
        !is_within(b, a),
        forall|path: Seq<Seq<char>>| #[trigger] is_within(path, a) ==> !is_within(path, b),
{
    assert forall|path: Seq<Seq<char>>| #[trigger] is_within(path, a) implies !is_within(
        path,
        b,
    ) by {
        if is_within(path, b) {
            assert(path.take(a.len() as int)[at] == path[at]);
            assert(path.take(b.len() as int)[at] == path[at]);
        }
    }
    assert(a.take(a.len() as int) =~= a);
    assert(b.take(b.len() as int) =~= b);
    assert(is_within(a, a));
    assert(is_within(b, b));
}

/// The names that lead to two routes differ somewhere.
proof fn lemma_route_names_differ(route: Seq<char>, other: Seq<char>) -> (at: int)
    requires
        is_fileable(route),
        is_fileable(other),
        route != other,
    ensures
        0 <= at < route_names(route).len(),
        at < route_names(other).len(),
        route_names(route)[at] != route_names(other)[at],
{
    lemma_collections_differ();
    let p = route_names(route);
    let q = route_names(other);
    if p[2] != q[2] {
        2
    } else {
        lemma_route_from_name(route);
        lemma_route_from_name(other);
        assert(p[4] != q[4]);
        4
    }
}

/// A message stands in different places on different routes.
pub proof fn law_routes_have_different_places(
    root: Seq<char>,
    route: Seq<char>,
    other: Seq<char>,
    id: Seq<char>,
)
    requires
        is_fileable(route),
        is_fileable(other),
        is_identifier(id),
        route != other,
    ensures
        message_location(root, route, id) != message_location(root, other, id),
{
    lemma_location_within(root, route, id);
    lemma_location_within(root, other, id);
    law_route_directories_are_apart(root, route, other);
}

/// A message stands below the directory of its route.
proof fn lemma_location_within(root: Seq<char>, route: Seq<char>, id: Seq<char>)
    requires
        is_fileable(route),
        is_identifier(id),
    ensures
        is_within(
            components(message_location(root, route, id)),
            components(route_folder(root, route)),
        ),
{
    lemma_location_components(root, route, id);
    lemma_route_components(root, route);
    let folder = components(route_folder(root, route));
    let whole = components(message_location(root, route, id));
    assert(whole.take(folder.len() as int) =~= folder);
}

proof fn lemma_collections_differ()
    ensures
        "projects"@ != "groups"@,
        "projects"@ != "direct"@,
        "groups"@ != "direct"@,
        "global"@ != "projects"@,
        "global"@ != "groups"@,
        "global"@ != "direct"@,
{
    reveal_strlit("global");
    reveal_strlit("projects");
    reveal_strlit("groups");
    reveal_strlit("direct");
    assert("projects"@[0] == 'p');
    assert("groups"@[0] == 'g' && "groups"@[1] == 'r');
    assert("global"@[0] == 'g' && "global"@[1] == 'l');
    assert("direct"@[0] == 'd');
}

/// A route is its kind and its name.
proof fn lemma_route_from_name(route: Seq<char>)
    requires
        is_route(route),
        route != global_route(),
    ensures
        route == (if begins_with(route, "project:"@) {
            "project:"@
        } else if begins_with(route, "group:"@) {
            "group:"@
        } else {
            "direct:"@
        }) + route_name(route),
{
    let kind = if begins_with(route, "project:"@) {
        "project:"@
    } else if begins_with(route, "group:"@) {
        "group:"@
    } else {
        "direct:"@
    };
    assert(route =~= route.take(kind.len() as int) + route.skip(kind.len() as int));
}

/// A message has one place for each of its routes, and none twice: one if it goes
/// to a group, else one for each who takes part. The names of its routes are
/// single components of a path.
pub proof fn law_publication_has_one_place_per_route(root: Seq<char>, message: MessageView)
    requires
        is_identifier(message.id),
        forall|route: Seq<char>| #[trigger] routes_of(message).contains(route) ==> is_fileable(route),
    ensures
        locations(root, message).no_duplicates(),
        locations(root, message).len() == routes_of(message).to_set().len(),
        message.group is Some ==> locations(root, message).len() == 1,
        message.group is None ==> locations(root, message).len() == message.to.push(
            message.from,
        ).to_set().len(),
{
    let set = routes_of(message).to_set();
    let routes = listing(set);
    let places = locations(root, message);
    vstd::seq_lib::seq_to_set_is_finite(routes_of(message));
    crate::laws::lemma_listing_of(set);
    crate::collections::lemma_ascending_no_duplicates(routes);
    routes.unique_seq_to_set();
    assert forall|i: int, j: int| 0 <= i < j < places.len() implies places[i] != places[j] by {
        assert(set.contains(routes[i])) by {
            assert(routes.to_set().contains(routes[i]));
        }
        assert(set.contains(routes[j])) by {
            assert(routes.to_set().contains(routes[j]));
        }
        assert(routes_of(message).contains(routes[i]));
        assert(routes_of(message).contains(routes[j]));
        law_routes_have_different_places(root, routes[i], routes[j], message.id);
    }
    match message.group {
        Some(_) => {
            let only = routes_of(message);
            assert(only.len() == 1);
            assert(only.no_duplicates());
            only.unique_seq_to_set();
        },
        None => {
            let people = message.to.push(message.from);
            let to_route = |agent: Seq<char>| direct_route(agent);
            vstd::seq_lib::seq_to_set_is_finite(people);
            assert(set =~= people.to_set().map(to_route)) by {
                assert forall|route: Seq<char>| set.contains(route) == people.to_set().map(
                    to_route,
                ).contains(route) by {
                    if set.contains(route) {
                        let k = choose|k: int|
                            0 <= k < routes_of(message).len() && routes_of(message)[k] == route;
                        assert(people.to_set().contains(people[k]));
                        assert(to_route(people[k]) == route);
                    }
                    if people.to_set().map(to_route).contains(route) {
                        let who = choose|who: Seq<char>|
                            people.to_set().contains(who) && to_route(who) == route;
                        let k = choose|k: int| 0 <= k < people.len() && people[k] == who;
                        assert(routes_of(message)[k] == route);
                    }
                }
            }
            assert(vstd::relations::injective(to_route)) by {
                assert forall|x: Seq<char>, y: Seq<char>| #[trigger] to_route(x) == #[trigger] to_route(
                    y,
                ) implies x == y by {
                    lemma_prefix_prepended("direct:"@, x);
                    lemma_prefix_prepended("direct:"@, y);
                }
            }
            vstd::set_lib::lemma_map_size(people.to_set(), set, to_route);
        },
    }
}

/// Safe names with slashes between them have no backslash.
proof fn lemma_no_backslash(names: Seq<Seq<char>>)
    requires
        forall|i: int| 0 <= i < names.len() ==> is_safe(#[trigger] names[i]),
    ensures
        !with_slashes(names).contains('\\'),
        with_forward_slashes(with_slashes(names)) == with_slashes(names),
    decreases names.len(),
{
    reveal_strlit("/");
    let text = with_slashes(names);
    if names.len() == 1 {
        assert(is_safe(names[0]));
    } else if names.len() > 1 {
        let init = names.drop_last();
        assert forall|i: int| 0 <= i < init.len() implies is_safe(#[trigger] init[i]) by {
            assert(init[i] == names[i]);
        }
        lemma_no_backslash(init);
        let head = with_slashes(init);
        let last = names.last();
        assert(is_safe(names[names.len() - 1]));
        assert forall|i: int| 0 <= i < text.len() implies text[i] != '\\' by {
            if i < head.len() {
                assert(head.contains(head[i]));
            } else if i > head.len() {
                assert(text[i] == last[i - head.len() - 1]);
                assert(last.contains(last[i - head.len() - 1]));
            }
        }
    }
    assert forall|i: int| 0 <= i < text.len() implies text[i] != '\\' by {
        assert(text.contains(text[i]));
    }
    assert(with_forward_slashes(text) =~= text);
}

/// A path that the index keeps of a message is portable: it has the names below
/// the root, with slashes, and no backslash.
pub proof fn law_index_paths_are_portable(root: Seq<char>, route: Seq<char>, id: Seq<char>)
    requires
        is_portable(route),
        is_identifier(id),
    ensures
        portable(root, message_location(root, route, id)) == with_slashes(location_names(route, id)),
        !portable(root, message_location(root, route, id)).contains('\\'),
{
    lemma_location_components(root, route, id);
    lemma_portable(root, message_location(root, route, id), location_names(route, id));
    lemma_no_backslash(location_names(route, id));
}

/// A path below the root is stored by its names.
proof fn lemma_portable(root: Seq<char>, path: Seq<char>, names: Seq<Seq<char>>)
    requires
        components(path) == components(root) + names,
    ensures
        portable(root, path) == with_slashes(names),
{
    let parts = components(path);
    let base = components(root);
    assert(parts.take(base.len() as int) =~= base);
    assert(parts.skip(base.len() as int) =~= names);
}

/// The names of a document below the messages of a board.
pub open spec fn message_names(rest: Seq<Seq<char>>) -> Seq<Seq<char>> {
    seq!["v2"@, "messages"@] + rest
}

/// Whether a board can have its root at `moved` and still find what was stored
/// under names: a relative root must not itself be the beginning of these names,
/// or it is taken for the board's.
pub open spec fn can_move_to(moved: Seq<char>, names: Seq<Seq<char>>) -> bool {
    is_rooted(moved) || components(moved).len() == 0 || !is_within(names, components(moved))
}

/// The index stays good when a board moves: a path below the messages of one root,
/// made of names without a backslash and ending in a message's document, leads to
/// the same document below another root.
pub proof fn law_index_survives_relocation(
    root: Seq<char>,
    moved: Seq<char>,
    path: Seq<char>,
    rest: Seq<Seq<char>>,
    id: Seq<char>,
)
    requires
        components(path) == components(root) + message_names(rest),
        rest.len() > 0,
        forall|i: int| 0 <= i < rest.len() ==> is_safe(#[trigger] rest[i]),
        rest.last() == id + DOCUMENT_SUFFIX@,
        can_move_to(moved, message_names(rest)),
    ensures
        ({
            let target = expiry_target(moved, portable(root, path), id);
            &&& target is Ok
            &&& components(target->Ok_0) == components(moved) + message_names(rest)
            &&& components(moved).len() > 0 ==> target->Ok_0 == descendant(
                moved,
                message_names(rest),
            )
        }),
{
    let names = message_names(rest);
    let stored = portable(root, path);
    let base = components(moved);
    lemma_portable(root, path, names);
    lemma_fixed_names();
    assert forall|i: int| 0 <= i < names.len() implies is_safe(#[trigger] names[i]) by {
        if i >= 2 {
            assert(names[i] == rest[i - 2]);
        }
    }
    lemma_no_backslash(names);
    assert forall|i: int| 0 <= i < names.len() implies is_plain(#[trigger] names[i]) by {
        assert(is_safe(names[i]));
    }
    lemma_with_slashes(names);
    assert(components(with_forward_slashes(stored)) == names);
    assert(!names.contains(".."@)) by {
        if names.contains(".."@) {
            let i = choose|i: int| 0 <= i < names.len() && names[i] == ".."@;
            assert(is_safe(names[i]));
        }
    }
    assert(names.contains("v2"@)) by {
        assert(names.contains(names[0]));
    }
    assert(position_of(names, "v2"@) == 0);
    assert(names.skip(0) =~= names);
    lemma_descendant_components(moved, names);
    let candidate = target_candidate(moved, stored)->Some_0;
    if base.len() == 0 {
        assert(names.take(0) =~= base);
        assert(candidate == stored);
        assert(base + names =~= names);
    } else {
        if is_rooted(moved) {
            assert(base[0] == "/"@);
            assert(is_safe(names[0]));
            if is_within(names, base) {
                assert(names.take(base.len() as int)[0] == names[0]);
            }
        }
        assert(!is_within(names, base));
        assert(candidate == descendant(moved, names));
    }
    assert(components(candidate) == base + names);
    lemma_fixed_folders(moved);
    let folder = base + seq!["v2"@, "messages"@];
    assert((base + names).take(folder.len() as int) =~= folder);
    assert((base + names).last() == rest.last());
    assert(is_safe(rest[rest.len() - 1]));
    assert(is_message_path(moved, candidate, id));
}

/// The index stays good when a board moves: what publication stored on one root
/// leads to the same message below another.
pub proof fn law_expiry_paths_survive_relocation(
    root: Seq<char>,
    moved: Seq<char>,
    route: Seq<char>,
    id: Seq<char>,
)
    requires
        is_portable(route),
        is_identifier(id),
        can_move_to(moved, location_names(route, id)),
    ensures
        ({
            let stored = portable(root, message_location(root, route, id));
            &&& expiry_target(moved, stored, id) is Ok
            &&& components(expiry_target(moved, stored, id)->Ok_0) == components(
                message_location(moved, route, id),
            )
        }),
{
    let names = location_names(route, id);
    let rest = names.skip(2);
    lemma_location_components(root, route, id);
    lemma_location_components(moved, route, id);
    assert(message_names(rest) =~= names);
    assert forall|i: int| 0 <= i < rest.len() implies is_safe(#[trigger] rest[i]) by {
        assert(rest[i] == names[i + 2]);
    }
    law_index_survives_relocation(root, moved, message_location(root, route, id), rest, id);
}

/// The identifier that an entry of the index is named by is its message's.
proof fn lemma_index_identity(root: Seq<char>, id: Seq<char>, expires_at: Seq<char>)
    requires
        is_identifier(id),
    ensures
        crate::storage::document_title(expiry_location(root, id, expires_at)) == Some(id),
{
    let names = below_minute(minute_of_date(expires_at), seq![id + DOCUMENT_SUFFIX@]);
    lemma_identifier_names(id);
    assert(names.last() == id + DOCUMENT_SUFFIX@);
    let base = descendant(child(root, "v2/expiry"@), names.drop_last());
    lemma_document_title(base, id);
}

/// Every path of a list that resolves leads to its target.
proof fn lemma_resolved_all(
    root: Seq<char>,
    paths: Seq<Seq<char>>,
    id: Seq<char>,
    wanted: Seq<Seq<char>>,
)
    requires
        paths.len() == wanted.len(),
        forall|i: int|
            0 <= i < paths.len() ==> {
                &&& expiry_target(root, #[trigger] paths[i], id) is Ok
                &&& components(expiry_target(root, paths[i], id)->Ok_0) == components(wanted[i])
            },
    ensures
        resolved(root, paths, id).1 is None,
        resolved(root, paths, id).0.len() == paths.len(),
        forall|i: int|
            0 <= i < paths.len() ==> components(#[trigger] resolved(root, paths, id).0[i])
                == components(wanted[i]),
    decreases paths.len(),
{
    if paths.len() > 0 {
        let init = paths.drop_last();
        assert forall|i: int| 0 <= i < init.len() implies {
            &&& expiry_target(root, #[trigger] init[i], id) is Ok
            &&& components(expiry_target(root, init[i], id)->Ok_0) == components(
                wanted.drop_last()[i],
            )
        } by {
            assert(init[i] == paths[i]);
        }
        lemma_resolved_all(root, init, id, wanted.drop_last());
        let before = resolved(root, init, id).0;
        let after = resolved(root, paths, id).0;
        let last = paths.len() - 1;
        assert(paths.last() == paths[last]);
        assert(after == before.push(expiry_target(root, paths[last], id)->Ok_0));
        assert forall|i: int| 0 <= i < paths.len() implies components(#[trigger] after[i])
            == components(wanted[i]) by {
            if i < last {
                assert(after[i] == before[i]);
                assert(components(before[i]) == components(wanted.drop_last()[i]));
            }
        }
    }
}

/// When a message has expired, the entry that its publication left in the index
/// leads to the removal of the message from each of its routes, wherever the
/// board stands by then. Its identifier is one in canonical form.
pub proof fn law_expired_message_is_collected(
    root: Seq<char>,
    moved: Seq<char>,
    message: MessageView,
    expires_at: Seq<char>,
    now: Moment,
)
    requires
        is_canonical(message.id),
        forall|route: Seq<char>| #[trigger]
            routes_of(message).contains(route) ==> is_portable(route) && can_move_to(
                moved,
                location_names(route, message.id),
            ),
        rfc3339_reading(expires_at) is Ok,
        no_later(
            Moment {
                seconds: rfc3339_reading(expires_at)->Ok_0.0,
                nanos: rfc3339_reading(expires_at)->Ok_0.1,
            },
            now,
        ),
    ensures
        ({
            let entry = ExpiryView {
                schema: EXPIRY_SCHEMA@,
                message: message.id,
                expires_at,
                paths: locations(root, message).map_values(
                    |path: Seq<char>| portable(root, path),
                ),
            };
            let decision = due_decision(
                moved,
                expiry_location(moved, message.id, expires_at),
                Ok(entry),
                now,
            );
            match decision {
                DueView::Remove(targets, failure) => {
                    &&& failure is None
                    &&& targets.len() == locations(moved, message).len()
                    &&& forall|i: int|
                        0 <= i < targets.len() ==> components(#[trigger] targets[i]) == components(
                            locations(moved, message)[i],
                        )
                },
                _ => false,
            }
        }),
{
    let id = message.id;
    let routes = listing(routes_of(message).to_set());
    let paths = locations(root, message).map_values(|path: Seq<char>| portable(root, path));
    let wanted = locations(moved, message);
    vstd::seq_lib::seq_to_set_is_finite(routes_of(message));
    crate::laws::lemma_listing_of(routes_of(message).to_set());
    lemma_index_identity(moved, id, expires_at);
    assert forall|i: int| 0 <= i < paths.len() implies {
        &&& expiry_target(moved, #[trigger] paths[i], id) is Ok
        &&& components(expiry_target(moved, paths[i], id)->Ok_0) == components(wanted[i])
    } by {
        let route = routes[i];
        assert(routes.to_set().contains(route));
        assert(routes_of(message).contains(route));
        assert(paths[i] == portable(root, message_location(root, route, id)));
        assert(wanted[i] == message_location(moved, route, id));
        law_expiry_paths_survive_relocation(root, moved, route, id);
    }
    lemma_resolved_all(moved, paths, id, wanted);
}

/// An entry of the index whose time has not come stays.
pub proof fn law_unexpired_entry_stays(
    root: Seq<char>,
    path: Seq<char>,
    entry: ExpiryView,
    now: Moment,
)
    requires
        rfc3339_reading(entry.expires_at) is Ok,
        !no_later(
            Moment {
                seconds: rfc3339_reading(entry.expires_at)->Ok_0.0,
                nanos: rfc3339_reading(entry.expires_at)->Ok_0.1,
            },
            now,
        ),
    ensures
        !(due_decision(root, path, Ok(entry), now) is Remove),
{
}

/// The pieces of a path have no slash.
pub proof fn lemma_pieces_plain(path: Seq<char>)
    ensures
        pieces(path).len() > 0,
        forall|i: int| 0 <= i < pieces(path).len() ==> !(#[trigger] pieces(path)[i]).contains('/'),
    decreases path.len(),
{
    if path.len() > 0 {
        lemma_pieces_plain(path.drop_last());
        let before = pieces(path.drop_last());
        let after = pieces(path);
        assert forall|i: int| 0 <= i < after.len() implies !(#[trigger] after[i]).contains('/') by {
            if path.last() == '/' {
                if i < before.len() {
                    assert(after[i] == before[i]);
                }
            } else if i < before.len() - 1 {
                assert(after[i] == before[i]);
            } else {
                assert(after[i] == before[i].push(path.last()));
                let piece = after[i];
                if piece.contains('/') {
                    let k = choose|k: int| 0 <= k < piece.len() && piece[k] == '/';
                    assert(before[i][k] == '/');
                }
            }
        }
    }
}

/// What counts of a list is in the list, and is a dot only as its first.
proof fn lemma_counted_members(list: Seq<Seq<char>>, x: Seq<char>)
    requires
        counted(list).contains(x),
    ensures
        exists|i: int| 0 <= i < list.len() && #[trigger] list[i] == x && counts(list[i], i),
    decreases list.len(),
{
    let init = list.drop_last();
    let before = counted(init);
    let after = counted(list);
    let k = choose|k: int| 0 <= k < after.len() && after[k] == x;
    if k < before.len() {
        assert(before[k] == x);
        assert(before.contains(x));
        lemma_counted_members(init, x);
        let i = choose|i: int| 0 <= i < init.len() && #[trigger] init[i] == x && counts(init[i], i);
        assert(list[i] == x);
    } else {
        assert(list[list.len() - 1] == x);
    }
}

/// What counts in a list is in what counts of it.
proof fn lemma_counts_is_counted(list: Seq<Seq<char>>, i: int)
    requires
        0 <= i < list.len(),
        counts(list[i], i),
    ensures
        counted(list).contains(list[i]),
    decreases list.len(),
{
    let init = list.drop_last();
    if i < init.len() {
        assert(init[i] == list[i]);
        lemma_counts_is_counted(init, i);
        let before = counted(init);
        let k = choose|k: int| 0 <= k < before.len() && before[k] == list[i];
        assert(counted(list)[k] == list[i]);
    } else {
        assert(counted(list).last() == list[i]);
    }
}

/// The pieces of two texts with a slash between them are those of both.
proof fn lemma_pieces_join(a: Seq<char>, b: Seq<char>)
    ensures
        pieces(a + seq!['/'] + b) == pieces(a) + pieces(b),
    decreases b.len(),
{
    let whole = a + seq!['/'] + b;
    if b.len() == 0 {
        assert(whole.drop_last() =~= a);
        assert(whole.last() == '/');
        assert(pieces(b) =~= seq![Seq::<char>::empty()]);
        assert(pieces(a).push(seq![]) =~= pieces(a) + pieces(b));
    } else {
        lemma_pieces_join(a, b.drop_last());
        lemma_pieces_plain(b.drop_last());
        assert(whole.drop_last() =~= a + seq!['/'] + b.drop_last());
        assert(whole.last() == b.last());
        let left = pieces(a);
        let right = pieces(b.drop_last());
        assert((left + right).last() == right.last());
        if b.last() == '/' {
            assert((left + right).push(seq![]) =~= left + right.push(seq![]));
        } else {
            assert((left + right).update(
                (left + right).len() - 1,
                (left + right).last().push(b.last()),
            ) =~= left + right.update(right.len() - 1, right.last().push(b.last())));
        }
    }
}

/// What follows other pieces counts if it is neither empty nor a dot.
proof fn lemma_counted_after(a: Seq<Seq<char>>, b: Seq<Seq<char>>)
    requires
        a.len() > 0,
    ensures
        counted(a).len() <= counted(a + b).len(),
        counted(a + b).take(counted(a).len() as int) == counted(a),
        forall|k: int|
            counted(a).len() <= k < counted(a + b).len() ==> counted(b).contains(
                #[trigger] counted(a + b)[k],
            ),
    decreases b.len(),
{
    if b.len() == 0 {
        assert(a + b =~= a);
        assert(counted(a).take(counted(a).len() as int) =~= counted(a));
    } else {
        let init = b.drop_last();
        lemma_counted_after(a, init);
        assert((a + b).drop_last() =~= a + init);
        assert((a + b).last() == b.last());
        let before = counted(a + init);
        let after = counted(a + b);
        assert(after.take(counted(a).len() as int) =~= before.take(counted(a).len() as int));
        assert forall|k: int| counted(a).len() <= k < after.len() implies counted(b).contains(
            #[trigger] after[k],
        ) by {
            if k < before.len() {
                assert(after[k] == before[k]);
                assert(counted(init).contains(before[k]));
                let m = choose|m: int| 0 <= m < counted(init).len() && counted(init)[m] == before[k];
                assert(counted(b)[m] == before[k]);
            } else {
                assert(after[k] == b.last());
                assert(counts(b[b.len() - 1], b.len() - 1));
                lemma_counts_is_counted(b, b.len() - 1);
            }
        }
    }
}

/// A relative path below a directory has the directory's components first, and
/// then only components of its own.
proof fn lemma_child_of_relative(base: Seq<char>, rest: Seq<char>)
    requires
        !is_rooted(rest),
    ensures
        is_within(components(child(base, rest)), components(base)),
        forall|k: int|
            components(base).len() <= k < components(child(base, rest)).len() ==> components(
                rest,
            ).contains(#[trigger] components(child(base, rest))[k]),
{
    reveal_strlit("/");
    assert("/"@ =~= seq!['/']);
    let whole = child(base, rest);
    if base.len() == 0 {
        assert(whole =~= rest);
        crate::path::lemma_empty_path();
        assert(base =~= seq![]);
        assert(components(whole).take(0) =~= components(base));
        assert forall|k: int| 0 <= k < components(whole).len() implies components(rest).contains(
            #[trigger] components(whole)[k],
        ) by {}
    } else {
        let upper = if base.last() == '/' {
            base.drop_last()
        } else {
            base
        };
        assert(whole =~= upper + seq!['/'] + rest);
        lemma_pieces_join(upper, rest);
        lemma_pieces_plain(upper);
        lemma_counted_after(pieces(upper), pieces(rest));
        if base.last() == '/' {
            assert(pieces(base) == pieces(upper).push(seq![]));
            assert(pieces(base).drop_last() =~= pieces(upper));
        }
        assert(counted(pieces(base)) == counted(pieces(upper)));
        assert(whole[0] == base[0]) by {
            if upper.len() == 0 {
                assert(base[0] == '/');
            }
        }
        let own = counted(pieces(base));
        let all = counted(pieces(whole));
        let head = if is_rooted(base) {
            seq!["/"@]
        } else {
            seq![]
        };
        assert(components(whole) =~= head + all);
        assert(components(base) =~= head + own);
        assert((head + all).take((head + own).len() as int) =~= head + own) by {
            assert(all.take(own.len() as int) == own);
            assert forall|k: int| 0 <= k < own.len() implies all[k] == own[k] by {
                assert(all.take(own.len() as int)[k] == own[k]);
            }
        }
        assert forall|k: int| components(base).len() <= k < components(whole).len() implies components(
            rest,
        ).contains(#[trigger] components(whole)[k]) by {
            assert(components(whole)[k] == all[k - head.len()]);
        }
    }
}

/// What the index may remove lies below the messages of the board, has the name
/// of the indexed message, and has no parent traversal below the root.
pub proof fn law_expiry_target_is_contained(root: Seq<char>, stored: Seq<char>, id: Seq<char>)
    requires
        expiry_target(root, stored, id) is Ok,
    ensures
        ({
            let target = expiry_target(root, stored, id)->Ok_0;
            &&& is_within(components(target), components(root) + seq!["v2"@, "messages"@])
            &&& last_name(target) == Some(id + DOCUMENT_SUFFIX@)
            &&& forall|k: int|
                components(root).len() <= k < components(target).len() ==> #[trigger] components(
                    target,
                )[k] != ".."@
        }),
{
    let target = expiry_target(root, stored, id)->Ok_0;
    let normalized = with_forward_slashes(stored);
    let parts = components(normalized);
    let base = components(root);
    lemma_fixed_folders(root);
    assert forall|k: int| base.len() <= k < components(target).len() implies #[trigger] components(
        target,
    )[k] != ".."@ by {
        if is_within(parts, base) {
            assert(parts.contains(parts[k]));
        } else if parts.contains("v2"@) {
            lemma_position(parts, "v2"@);
            let at = position_of(parts, "v2"@) as int;
            let rest = parts.skip(at);
            assert forall|i: int| 0 <= i < rest.len() implies is_plain(#[trigger] rest[i]) by {
                assert(rest[i] == parts[at + i]);
                lemma_component_is_plain(normalized, at, at + i);
            }
            lemma_descendant_components(root, rest);
            assert(components(target)[k] == rest[k - base.len()]);
            assert(rest[k - base.len()] == parts[at + k - base.len()]);
            assert(parts.contains(parts[at + k - base.len()]));
        } else {
            lemma_child_of_relative(root, normalized);
            assert(parts.contains(components(target)[k]));
        }
    }
}

proof fn lemma_position(list: Seq<Seq<char>>, wanted: Seq<char>)
    requires
        list.contains(wanted),
    ensures
        position_of(list, wanted) < list.len(),
        list[position_of(list, wanted) as int] == wanted,
    decreases list.len(),
{
    if list[0] != wanted {
        let k = choose|k: int| 0 <= k < list.len() && list[k] == wanted;
        assert(list.drop_first()[k - 1] == wanted);
        lemma_position(list.drop_first(), wanted);
    }
}

/// The components of a path from one named `v2` on are plain.
proof fn lemma_component_is_plain(path: Seq<char>, at: int, k: int)
    requires
        0 <= at <= k < components(path).len(),
        components(path)[at] == "v2"@,
    ensures
        is_plain(components(path)[k]),
{
    lemma_fixed_names();
    reveal_strlit("/");
    reveal_strlit("v2");
    let list = pieces(path);
    lemma_pieces_plain(path);
    if k > at {
        if is_rooted(path) {
            assert(components(path)[k] == counted(list)[k - 1]);
            lemma_counted_later(list, k - 1);
        } else {
            assert(components(path)[k] == counted(list)[k]);
            lemma_counted_later(list, k);
        }
    }
}

/// All that counts but the first is no dot, no slash and not empty.
proof fn lemma_counted_later(list: Seq<Seq<char>>, k: int)
    requires
        0 <= k < counted(list).len(),
        forall|i: int| 0 <= i < list.len() ==> !(#[trigger] list[i]).contains('/'),
    ensures
        counted(list)[k].len() > 0,
        !counted(list)[k].contains('/'),
        counted(list)[k] != "."@ || (k == 0 && list.len() > 0 && list[0] == "."@),
    decreases list.len(),
{
    if list.len() > 0 {
        let init = list.drop_last();
        let before = counted(init);
        assert forall|i: int| 0 <= i < init.len() implies !(#[trigger] init[i]).contains('/') by {
            assert(init[i] == list[i]);
        }
        if k < before.len() {
            lemma_counted_later(init, k);
            assert(counted(list)[k] == before[k]);
            assert(init[0] == list[0]);
        } else {
            assert(counted(list)[k] == list.last());
            assert(list.last() == list[list.len() - 1]);
            if list.len() == 1 {
                assert(before =~= seq![]);
            }
        }
    }
}

/// Ten to a power.
spec fn ten_to(width: nat) -> int
    decreases width,
{
    if width == 0 {
        1
    } else {
        10 * ten_to((width - 1) as nat)
    }
}

/// The last `width` decimal digits of a number.
spec fn places(n: int, width: nat) -> Seq<char>
    decreases width,
{
    if width == 0 {
        seq![]
    } else {
        places(n / 10, (width - 1) as nat).push(digit_char(n % 10))
    }
}

proof fn lemma_ten_to_positive(width: nat)
    ensures
        ten_to(width) >= 1,
    decreases width,
{
    if width > 0 {
        lemma_ten_to_positive((width - 1) as nat);
    }
}

proof fn lemma_zero_places(width: nat)
    ensures
        places(0, width) == zeros(width as int),
    decreases width,
{
    if width > 0 {
        lemma_zero_places((width - 1) as nat);
        assert(places(0, width) =~= zeros(width as int));
    } else {
        assert(places(0, width) =~= zeros(width as int));
    }
}

/// A padded numeral that fits is its digits, place by place.
proof fn lemma_padded_places(n: int, width: nat)
    requires
        0 <= n < ten_to(width),
        width >= 1,
    ensures
        padded(n, width as int) == places(n, width),
        numeral(n as nat).len() <= width,
    decreases width,
{
    if n < 10 {
        assert(n / 10 == 0 && n % 10 == n);
        lemma_zero_places((width - 1) as nat);
        assert(padded(n, width as int) =~= places(n, width));
    } else {
        lemma_ten_to_positive((width - 1) as nat);
        if width == 1 {
            assert(ten_to(0) == 1);
            assert(ten_to(1) == 10 * ten_to(0));
        }
        assert(n / 10 < ten_to((width - 1) as nat));
        lemma_padded_places(n / 10, (width - 1) as nat);
        let shorter = numeral((n / 10) as nat);
        assert(numeral(n as nat) == shorter.push(digit_char(n % 10)));
        assert(padded(n, width as int) =~= (zeros(width - 1 - shorter.len()) + shorter).push(
            digit_char(n % 10),
        ));
        assert(padded(n / 10, width - 1) == zeros(width - 1 - shorter.len()) + shorter);
    }
}

proof fn lemma_places_len(n: int, width: nat)
    ensures
        places(n, width).len() == width,
    decreases width,
{
    if width > 0 {
        lemma_places_len(n / 10, (width - 1) as nat);
    }
}

/// Digits sort as numbers do.
proof fn lemma_places_order(a: int, b: int, width: nat)
    requires
        0 <= a < b < ten_to(width),
    ensures
        precedes(places(a, width), places(b, width)),
    decreases width,
{
    if width > 0 {
        lemma_places_len(a / 10, (width - 1) as nat);
        lemma_places_len(b / 10, (width - 1) as nat);
        if a / 10 < b / 10 {
            lemma_places_order(a / 10, b / 10, (width - 1) as nat);
            lemma_precedes_extended(
                places(a / 10, (width - 1) as nat),
                places(b / 10, (width - 1) as nat),
                digit_char(a % 10),
                digit_char(b % 10),
            );
        } else {
            let head = places(a / 10, (width - 1) as nat);
            let x = seq![digit_char(a % 10)];
            let y = seq![digit_char(b % 10)];
            lemma_precedes_common(head, x, y);
            assert(head + x =~= places(a, width));
            assert(head + y =~= places(b, width));
            assert(x[0] != y[0]);
        }
    }
}

/// Padded numerals of one width sort as numbers do.
proof fn lemma_padded_order(a: int, b: int, width: nat)
    requires
        0 <= a < b < ten_to(width),
        width >= 1,
    ensures
        precedes(padded(a, width as int), padded(b, width as int)),
        padded(a, width as int) != padded(b, width as int),
{
    lemma_padded_places(a, width);
    lemma_padded_places(b, width);
    lemma_places_order(a, b, width);
    crate::text::lemma_precedes_irreflexive(padded(a, width as int));
}

/// A minute of the years 0 to 9999.
pub open spec fn is_dated(m: (i32, u32, u32, u32, u32)) -> bool {
    0 <= m.0 <= 9999 && m.1 < 100 && m.2 < 100 && m.3 < 100 && m.4 < 100
}

/// The numbers of a minute, from the year down.
pub open spec fn field(m: (i32, u32, u32, u32, u32), i: int) -> int {
    if i == 0 {
        m.0 as int
    } else if i == 1 {
        m.1 as int
    } else if i == 2 {
        m.2 as int
    } else if i == 3 {
        m.3 as int
    } else {
        m.4 as int
    }
}

pub proof fn lemma_field_order(
    a: (i32, u32, u32, u32, u32),
    b: (i32, u32, u32, u32, u32),
    i: int,
)
    requires
        is_dated(a),
        is_dated(b),
        0 <= i < 5,
    ensures
        field(a, i) < field(b, i) ==> precedes(minute_names(a)[i], minute_names(b)[i])
            && minute_names(a)[i] != minute_names(b)[i],
        field(a, i) == field(b, i) ==> minute_names(a)[i] == minute_names(b)[i],
{
    reveal_with_fuel(ten_to, 6);
    let width: nat = if i == 0 {
        4
    } else {
        2
    };
    assert(ten_to(4) == 10_000);
    assert(ten_to(2) == 100);
    assert(minute_names(a)[i] == padded(field(a, i), width as int));
    assert(minute_names(b)[i] == padded(field(b, i), width as int));
    if field(a, i) < field(b, i) {
        lemma_padded_order(field(a, i), field(b, i), width);
    }
}

/// Lists of names that agree up to a name that decides.
proof fn lemma_names_decided(a: Seq<Seq<char>>, b: Seq<Seq<char>>, at: int)
    requires
        0 <= at < a.len(),
        at < b.len(),
        forall|j: int| 0 <= j < at ==> a[j] == b[j],
        a[at] != b[at],
    ensures
        names_no_later(a, b) == precedes(a[at], b[at]),
    decreases at,
{
    if at > 0 {
        let x = a.drop_first();
        let y = b.drop_first();
        assert forall|j: int| 0 <= j < at - 1 implies x[j] == y[j] by {
            assert(a[j + 1] == b[j + 1]);
        }
        lemma_names_decided(x, y, at - 1);
    }
}

/// Lists of names that agree.
proof fn lemma_names_agree(a: Seq<Seq<char>>, b: Seq<Seq<char>>)
    requires
        a.len() == b.len(),
        forall|j: int| 0 <= j < a.len() ==> a[j] == b[j],
    ensures
        names_no_later(a, b),
    decreases a.len(),
{
    if a.len() > 0 {
        let x = a.drop_first();
        let y = b.drop_first();
        assert forall|j: int| 0 <= j < x.len() implies x[j] == y[j] by {
            assert(a[j + 1] == b[j + 1]);
        }
        lemma_names_agree(x, y);
    }
}

/// The first number in which two minutes differ.
pub open spec fn first_difference(a: (i32, u32, u32, u32, u32), b: (i32, u32, u32, u32, u32)) -> int {
    if a.0 != b.0 {
        0
    } else if a.1 != b.1 {
        1
    } else if a.2 != b.2 {
        2
    } else if a.3 != b.3 {
        3
    } else if a.4 != b.4 {
        4
    } else {
        5
    }
}

/// The collection comes to every entry that is due: of a minute that is not
/// after the current one, each directory on the way is walked. Directories sort
/// as their minutes do in the years of four digits.
pub proof fn law_due_minutes_are_visited(
    minute: (i32, u32, u32, u32, u32),
    current: (i32, u32, u32, u32, u32),
    depth: int,
)
    requires
        is_dated(minute),
        is_dated(current),
        minute == current || earlier_minute(minute, current),
        0 <= depth <= 5,
    ensures
        is_due(minute_names(minute).take(depth), minute_names(current)),
{
    let a = minute_names(minute).take(depth);
    let b = minute_names(current).take(depth);
    let at = first_difference(minute, current);
    assert(minute_names(current).take(a.len() as int) =~= b);
    assert forall|j: int| 0 <= j < depth && j < at implies a[j] == b[j] by {
        lemma_field_order(minute, current, j);
    }
    if at < depth {
        lemma_field_order(minute, current, at);
        assert(field(minute, at) < field(current, at));
        lemma_names_decided(a, b, at);
    } else {
        lemma_names_agree(a, b);
    }
}

/// The collection does not come to the directory of a minute in the future.
pub proof fn law_future_minutes_are_not_visited(
    minute: (i32, u32, u32, u32, u32),
    current: (i32, u32, u32, u32, u32),
)
    requires
        is_dated(minute),
        is_dated(current),
        earlier_minute(current, minute),
    ensures
        !is_due(minute_names(minute), minute_names(current)),
{
    let a = minute_names(minute);
    let b = minute_names(current);
    let at = first_difference(minute, current);
    assert(b.take(5) =~= b);
    assert forall|j: int| 0 <= j < at implies a[j] == b[j] by {
        lemma_field_order(minute, current, j);
    }
    lemma_field_order(current, minute, at);
    assert(field(current, at) < field(minute, at));
    lemma_names_decided(a, b, at);
    if precedes(a[at], b[at]) {
        crate::text::lemma_precedes_transitive(a[at], b[at], a[at]);
        crate::text::lemma_precedes_irreflexive(a[at]);
    }
}

} // verus!
