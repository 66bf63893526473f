//! Messages by route: publication, delivery, checkpoints, history and expiry.
use crate::clock::{
    calendar_minute, epoch_millis, is_no_later, is_timestamp, millis_before, minute_directories,
    minute_names, no_later, on_clock, read_moment, rfc3339_reading, timestamp, utc_minute, Moment,
};
use crate::collections::{
    ascending, contains_text, in_order, listing, sort_texts, sorted_list, unique_texts, TextMap,
    TextSet,
};
use crate::error::{failure, failure_with, fault, BoardError};
use crate::model::{same_message, Agent, Message, MessageView, MESSAGE_SCHEMA};
use crate::path::{
    ancestors, begins_path, child, child_path, components, descendant, descendant_path, file_name,
    is_rooted, is_within, last_name, path_ancestors, path_components, same_path, slash_joined,
    with_slashes,
};
use crate::storage::{content_of, document_name, document_title, found, Filed, DOCUMENT_SUFFIX};
use crate::text::{
    begins_with, chars_of, comes_before, copy_texts, hex_digits, hex_text, joined, joined3,
    precedes, same_text, strip_prefix, text_between, texts, views,
};
use crate::ulids::{
    is_canonical, is_ulid, parse_ulid, ulid_decoding, ulid_encoding, ulid_millis, ulid_text,
    ulid_time, ulid_timestamp_ms, unordered_id,
};
use vstd::prelude::*;

verus! {

/// The schema of a checkpoint.
pub const CHECKPOINT_SCHEMA: &'static str = "aiboard.consumer.v1";

/// The schema of an entry of the expiry index.
pub const EXPIRY_SCHEMA: &'static str = "aiboard.expiry.v1";

/// The schema of a report on a migration.
pub const MIGRATION_SCHEMA: &'static str = "aiboard.migration.v1";

/// The most messages that are kept in memory, and the most identifiers that a
/// cursor remembers.
pub const CACHE_LIMIT: usize = 4096;

/// How many minutes back a scan looks for messages.
pub const RECENT_MINUTES: u32 = 10;

/// How far a consumer has come on a route: the newest identifier that it
/// acknowledged, and the recent ones among those.
#[derive(Debug, PartialEq, Eq)]
pub struct RouteCursor {
    pub high_water: String,
    pub overlap_ids: Vec<String>,
}

/// The content of a [`RouteCursor`].
#[verifier::ext_equal]
pub struct CursorView {
    pub high_water: Seq<char>,
    pub overlap_ids: Seq<Seq<char>>,
}

impl View for RouteCursor {
    type V = CursorView;

    open spec fn view(&self) -> CursorView {
        CursorView { high_water: self.high_water@, overlap_ids: texts(self.overlap_ids@) }
    }
}

impl Clone for RouteCursor {
    fn clone(&self) -> (r: Self)
        ensures
            r@ == self@,
    {
        RouteCursor {
            high_water: self.high_water.clone(),
            overlap_ids: copy_texts(&self.overlap_ids),
        }
    }
}

/// What a consumer knows of its routes.
pub struct RoutedState {
    pub agent_id: String,
    pub project: String,
    pub cursors: TextMap<RouteCursor>,
    pub loaded: TextSet,
    pub warned: TextSet,
    /// When expired messages were last collected, in nanoseconds of the
    /// process clock.
    pub last_gc: Option<u64>,
}

/// The content of a [`RoutedState`].
#[verifier::ext_equal]
pub struct RoutedView {
    pub agent_id: Seq<char>,
    pub project: Seq<char>,
    pub cursors: Map<Seq<char>, CursorView>,
    pub loaded: Set<Seq<char>>,
    pub warned: Set<Seq<char>>,
    pub last_gc: Option<u64>,
}

impl View for RoutedState {
    type V = RoutedView;

    open spec fn view(&self) -> RoutedView {
        RoutedView {
            agent_id: self.agent_id@,
            project: self.project@,
            cursors: self.cursors@,
            loaded: self.loaded@,
            warned: self.warned@,
            last_gc: self.last_gc,
        }
    }
}

/// The state of a consumer that knows nothing yet.
pub open spec fn no_routes() -> RoutedView {
    RoutedView {
        agent_id: seq![],
        project: seq![],
        cursors: Map::empty(),
        loaded: Set::empty(),
        warned: Set::empty(),
        last_gc: None,
    }
}

impl RoutedState {
    /// The state of a consumer that knows nothing yet.
    pub fn new() -> (r: Self)
        ensures
            r@ == no_routes(),
    {
        let r = RoutedState {
            agent_id: String::new(),
            project: String::new(),
            cursors: TextMap::new(),
            loaded: TextSet::new(),
            warned: TextSet::new(),
            last_gc: None,
        };
        assert(r.agent_id@ =~= seq![]);
        assert(r.project@ =~= seq![]);
        r
    }
}

/// The directories of the routed board.
pub open spec fn layout(root: Seq<char>) -> Seq<Seq<char>> {
    let v2 = child(root, "v2"@);
    seq![
        child(v2, "messages/global"@),
        child(v2, "messages/projects"@),
        child(v2, "messages/groups"@),
        child(v2, "messages/direct"@),
        child(v2, "consumers"@),
        child(v2, "expiry"@),
        child(v2, "migrations"@),
    ]
}

/// The directories that the routed board needs.
pub fn ensure(root: &str) -> (r: Vec<String>)
    ensures
        texts(r@) == layout(root@),
{
    let v2: String = child_path(root, "v2");
    let mut out: Vec<String> = Vec::new();
    out.push(child_path(v2.as_str(), "messages/global"));
    out.push(child_path(v2.as_str(), "messages/projects"));
    out.push(child_path(v2.as_str(), "messages/groups"));
    out.push(child_path(v2.as_str(), "messages/direct"));
    out.push(child_path(v2.as_str(), "consumers"));
    out.push(child_path(v2.as_str(), "expiry"));
    out.push(child_path(v2.as_str(), "migrations"));
    assert(texts(out@) =~= layout(root@));
    out
}

/// The route to everyone.
pub open spec fn global_route() -> Seq<char> {
    "global"@
}

/// The route to a project's agents.
pub open spec fn project_route(project: Seq<char>) -> Seq<char> {
    "project:"@ + project
}

/// The route to a group's members.
pub open spec fn group_route(group: Seq<char>) -> Seq<char> {
    "group:"@ + group
}

/// The route to one agent.
pub open spec fn direct_route(agent: Seq<char>) -> Seq<char> {
    "direct:"@ + agent
}

/// Whether a text names a route.
pub open spec fn is_route(route: Seq<char>) -> bool {
    route == global_route() || begins_with(route, "project:"@) || begins_with(route, "group:"@)
        || begins_with(route, "direct:"@)
}

/// The routes that a message takes: that of its group, or those of all who take
/// part in a direct conversation.
pub open spec fn routes_of(message: MessageView) -> Seq<Seq<char>> {
    match message.group {
        Some(group) => if group == "global"@ || begins_with(group, "project:"@) {
            seq![group]
        } else {
            seq![group_route(group)]
        },
        None => message.to.push(message.from).map_values(|agent: Seq<char>| direct_route(agent)),
    }
}

/// Every route of a message is one.
pub proof fn lemma_routes_are_routes(message: MessageView)
    ensures
        routes_of(message).len() > 0,
        forall|i: int| 0 <= i < routes_of(message).len() ==> is_route(#[trigger] routes_of(message)[i]),
{
    let routes = routes_of(message);
    assert forall|i: int| 0 <= i < routes.len() implies is_route(#[trigger] routes[i]) by {
        match message.group {
            Some(group) => {
                crate::text::lemma_prefix_prepended("group:"@, group);
            },
            None => {
                crate::text::lemma_prefix_prepended("direct:"@, message.to.push(message.from)[i]);
            },
        }
    }
}

/// The routes that a message takes.
pub fn message_routes(message: &Message) -> (r: Vec<String>)
    ensures
        texts(r@) == routes_of(message@),
{
    let mut out: Vec<String> = Vec::new();
    match &message.group {
        Some(group) => {
            if same_text(group.as_str(), "global") || strip_prefix(
                group.as_str(),
                "project:",
            ).is_some() {
                out.push(group.clone());
            } else {
                out.push(joined("group:", group.as_str()));
            }
            assert(texts(out@) =~= routes_of(message@));
        },
        None => {
            let ghost all = routes_of(message@);
            let mut i: usize = 0;
            assert(texts(out@) =~= all.take(0));
            while i < message.to.len()
                invariant
                    i <= message.to@.len(),
                    all == routes_of(message@),
                    message.group is None,
                    texts(out@) == all.take(i as int),
                decreases message.to@.len() - i,
            {
                let ghost had = texts(out@);
                out.push(joined("direct:", message.to[i].as_str()));
                assert(all[i as int] == direct_route(message.to@[i as int]@));
                assert(texts(out@) =~= had.push(all[i as int]));
                assert(all.take(i + 1) =~= had.push(all[i as int]));
                i += 1;
            }
            let ghost had = texts(out@);
            out.push(joined("direct:", message.from.as_str()));
            assert(all[i as int] == direct_route(message.from@));
            assert(texts(out@) =~= had.push(all[i as int]));
            assert(all =~= had.push(all[i as int]));
        },
    }
    out
}

/// Whether a route can concern a consumer.
pub open spec fn concerns(route: Seq<char>, agent: Seq<char>, project: Seq<char>) -> bool {
    route == global_route() || route == project_route(project) || route == direct_route(agent)
        || begins_with(route, "group:"@)
}

/// The routes of a message that can concern a consumer.
pub open spec fn routes_for(message: MessageView, agent: Seq<char>, project: Seq<char>) -> Seq<
    Seq<char>,
> {
    routes_of(message).filter(|route: Seq<char>| concerns(route, agent, project))
}

/// The routes of a message that can concern a consumer.
pub fn message_routes_for_consumer(message: &Message, agent: &str, project: &str) -> (r: Vec<String>)
    ensures
        texts(r@) == routes_for(message@, agent@, project@),
{
    let routes: Vec<String> = message_routes(message);
    let own_project: String = joined("project:", project);
    let own: String = joined("direct:", agent);
    let ghost all = routes_of(message@);
    let ghost keep = |route: Seq<char>| concerns(route, agent@, project@);
    let mut out: Vec<String> = Vec::new();
    let mut i: usize = 0;
    proof {
        reveal_with_fuel(Seq::filter, 1);
        assert(all.take(0) =~= seq![]);
        assert(texts(out@) =~= all.take(0).filter(keep));
    }
    while i < routes.len()
        invariant
            i <= routes@.len(),
            texts(routes@) == all,
            own_project@ == project_route(project@),
            own@ == direct_route(agent@),
            keep == (|route: Seq<char>| concerns(route, agent@, project@)),
            texts(out@) == all.take(i as int).filter(keep),
        decreases routes@.len() - i,
    {
        let ghost had = texts(out@);
        proof {
            reveal_with_fuel(Seq::filter, 2);
            assert(all.take(i + 1).drop_last() =~= all.take(i as int));
            assert(all.take(i + 1).last() == routes@[i as int]@);
        }
        let route: &str = routes[i].as_str();
        if same_text(route, "global") || same_text(route, own_project.as_str()) || same_text(
            route,
            own.as_str(),
        ) || strip_prefix(route, "group:").is_some() {
            out.push(routes[i].clone());
            assert(texts(out@) =~= had.push(all[i as int]));
        }
        i += 1;
    }
    assert(all.take(i as int) =~= all);
    out
}

/// The Fowler-Noll-Vo hash of bytes, in its 64-bit form that takes the byte
/// in first.
pub open spec fn fnv(bytes: Seq<u8>) -> u64
    decreases bytes.len(),
{
    if bytes.len() == 0 {
        0xcbf29ce484222325u64
    } else {
        (fnv(bytes.drop_last()) ^ (bytes.last() as u64)).wrapping_mul(0x100000001b3u64)
    }
}

/// The directory that a name is filed under: the last two hexadecimal digits of
/// the hash of its UTF-8 bytes.
pub open spec fn shard(value: Seq<char>) -> Seq<char> {
    hex_digits(fnv(vstd::utf8::encode_utf8(value)) as nat, 2)
}

/// The directory that a name is filed under.
pub fn stable_shard(value: &str) -> (r: String)
    ensures
        r@ == shard(value@),
{
    let bytes: &[u8] = value.as_bytes();
    let mut hash: u64 = 0xcbf29ce484222325u64;
    let mut i: usize = 0;
    assert(bytes@.take(0) =~= seq![]);
    while i < bytes.len()
        invariant
            i <= bytes@.len(),
            hash == fnv(bytes@.take(i as int)),
        decreases bytes@.len() - i,
    {
        assert(bytes@.take(i + 1).drop_last() =~= bytes@.take(i as int));
        assert(bytes@.take(i + 1).last() == bytes@[i as int]);
        hash = (hash ^ (bytes[i] as u64)).wrapping_mul(0x100000001b3u64);
        i += 1;
    }
    assert(bytes@.take(i as int) =~= bytes@);
    hex_text(hash, 2)
}

/// A name in a collection, under its shard.
pub open spec fn filed(collection: Seq<char>, name: Seq<char>) -> Seq<char> {
    child(child(collection, shard(name)), name)
}

/// The directory of a route.
pub open spec fn route_folder(root: Seq<char>, route: Seq<char>) -> Seq<char> {
    let messages = child(root, "v2/messages"@);
    if route == global_route() {
        child(messages, "global"@)
    } else if begins_with(route, "project:"@) {
        filed(child(messages, "projects"@), route.skip("project:"@.len() as int))
    } else if begins_with(route, "group:"@) {
        filed(child(messages, "groups"@), route.skip("group:"@.len() as int))
    } else {
        filed(child(messages, "direct"@), route.skip("direct:"@.len() as int))
    }
}

fn filed_path(collection: &str, name: &str) -> (r: String)
    ensures
        r@ == filed(collection@, name@),
{
    let folder: String = child_path(collection, stable_shard(name).as_str());
    child_path(folder.as_str(), name)
}

/// The directory of a route.
pub fn route_directory(root: &str, route: &str) -> (r: String)
    requires
        is_route(route@),
    ensures
        r@ == route_folder(root@, route@),
{
    let messages: String = child_path(root, "v2/messages");
    if same_text(route, "global") {
        return child_path(messages.as_str(), "global");
    }
    if let Some(name) = strip_prefix(route, "project:") {
        return filed_path(child_path(messages.as_str(), "projects").as_str(), name.as_str());
    }
    if let Some(name) = strip_prefix(route, "group:") {
        return filed_path(child_path(messages.as_str(), "groups").as_str(), name.as_str());
    }
    match strip_prefix(route, "direct:") {
        Some(name) => filed_path(child_path(messages.as_str(), "direct").as_str(), name.as_str()),
        None => messages,
    }
}

/// The directory of a consumer's checkpoints.
pub open spec fn consumer_folder(root: Seq<char>, agent: Seq<char>) -> Seq<char> {
    filed(child(root, "v2/consumers"@), agent)
}

/// The directory of a consumer's checkpoints.
pub fn consumer_directory(root: &str, agent: &str) -> (r: String)
    ensures
        r@ == consumer_folder(root@, agent@),
{
    filed_path(child_path(root, "v2/consumers").as_str(), agent)
}

/// The number since the epoch of the minute in which an identifier was made.
pub open spec fn minute_of(id: Seq<char>) -> int {
    ulid_millis(id) / 1000 / 60
}

/// The names of the directories of a minute and what follows below them.
pub open spec fn below_minute(minute: int, names: Seq<Seq<char>>) -> Seq<Seq<char>> {
    minute_names(utc_minute(minute)->Some_0) + names
}

/// Where a message with this identifier stands on a route: by the minute of its
/// creation and the last character of its identifier.
pub open spec fn message_location(root: Seq<char>, route: Seq<char>, id: Seq<char>) -> Seq<char> {
    descendant(
        route_folder(root, route),
        below_minute(minute_of(id), seq![seq![id.last()], id + DOCUMENT_SUFFIX@]),
    )
}

/// Why a message has no place, if it has none.
pub open spec fn location_fault(id: Seq<char>) -> Option<Seq<char>> {
    match ulid_decoding(id) {
        Ok(_) => None,
        Err(words) => Some("parse message ULID: "@ + words),
    }
}

/// Where a message stands on a route.
pub fn message_path(root: &str, route: &str, message: &Message) -> (r: Result<String, BoardError>)
    requires
        is_route(route@),
    ensures
        fault(r) == location_fault(message.id@),
        r matches Ok(path) ==> path@ == message_location(root@, route@, message.id@),
{
    let value: u128 = match parse_ulid(message.id.as_str()) {
        Ok(value) => value,
        Err(error) => {
            return Err(failure_with("parse message ULID: ", error.as_str()));
        },
    };
    let seconds: i64 = (ulid_timestamp_ms(value) / 1000) as i64;
    let mut names: Vec<String> = minute_path(seconds);
    let chars: Vec<char> = chars_of(message.id.as_str());
    let ghost had = texts(names@);
    names.push(text_between(&chars, chars.len() - 1, chars.len()));
    names.push(joined(message.id.as_str(), DOCUMENT_SUFFIX));
    proof {
        let id = message.id@;
        assert(id.subrange(id.len() - 1, id.len() as int) =~= seq![id.last()]);
        assert(texts(names@) =~= had + seq![seq![id.last()], id + DOCUMENT_SUFFIX@]);
        assert(had == minute_names(utc_minute(minute_of(id))->Some_0));
    }
    Ok(descendant_path(route_directory(root, route).as_str(), &names))
}

/// The names of the directories of the minute that holds a second.
fn minute_path(seconds: i64) -> (r: Vec<String>)
    requires
        -62_167_305_600 <= seconds <= 8_210_266_876_799,
    ensures
        texts(r@) == minute_names(utc_minute(seconds as int / 60)->Some_0),
{
    match calendar_minute(seconds) {
        Some(minute) => minute_directories(minute),
        None => Vec::new(),
    }
}

/// Where a message is published: on each of its routes, in their order.
pub open spec fn locations(root: Seq<char>, message: MessageView) -> Seq<Seq<char>> {
    listing(routes_of(message).to_set()).map_values(
        |route: Seq<char>| message_location(root, route, message.id),
    )
}

/// Where a message is to be published.
pub fn publication_paths(root: &str, message: &Message) -> (r: Result<Vec<String>, BoardError>)
    ensures
        fault(r) == location_fault(message.id@),
        r matches Ok(paths) ==> texts(paths@) == locations(root@, message@),
{
    let routes: Vec<String> = unique_texts(&message_routes(message));
    let ghost all = listing(routes_of(message@).to_set());
    let ghost wanted = locations(root@, message@);
    proof {
        lemma_routes_are_routes(message@);
        assert forall|i: int| 0 <= i < all.len() implies is_route(#[trigger] all[i]) by {
            assert(all.to_set().contains(all[i]));
            assert(routes_of(message@).contains(all[i]));
        }
        assert(all.len() > 0) by {
            assert(routes_of(message@).to_set().contains(routes_of(message@)[0]));
            assert(all.to_set().contains(routes_of(message@)[0]));
        }
    }
    let mut paths: Vec<String> = Vec::new();
    let mut i: usize = 0;
    assert(texts(paths@) =~= wanted.take(0));
    while i < routes.len()
        invariant
            i <= routes@.len(),
            all.len() > 0,
            all == texts(routes@),
            all == listing(routes_of(message@).to_set()),
            wanted == locations(root@, message@),
            forall|j: int| 0 <= j < all.len() ==> is_route(#[trigger] all[j]),
            i > 0 ==> location_fault(message.id@) is None,
            texts(paths@) == wanted.take(i as int),
        decreases routes@.len() - i,
    {
        assert(all[i as int] == routes@[i as int]@);
        let ghost had = texts(paths@);
        match message_path(root, routes[i].as_str(), message) {
            Ok(path) => {
                paths.push(path);
                assert(texts(paths@) =~= had.push(wanted[i as int]));
                assert(wanted.take(i + 1) =~= had.push(wanted[i as int]));
            },
            Err(error) => {
                return Err(error);
            },
        }
        i += 1;
    }
    assert(wanted.take(i as int) =~= wanted);
    Ok(paths)
}

/// What was found at each of `count` paths: nothing where the list has ended.
pub open spec fn all_found(stored: Seq<Option<Result<Message, String>>>, count: nat) -> Seq<
    Option<Result<MessageView, Seq<char>>>,
> {
    Seq::new(
        count,
        |i: int|
            if i < stored.len() {
                found(stored[i])
            } else {
                None
            },
    )
}

/// Why a message cannot be published where something is stored already.
pub open spec fn stored_fault(
    stored: Option<Result<MessageView, Seq<char>>>,
    message: MessageView,
) -> Option<Seq<char>> {
    match stored {
        None => None,
        Some(Err(words)) => Some(words),
        Some(Ok(other)) => if other == message {
            None
        } else {
            Some("conflicting routed message "@ + message.id)
        },
    }
}

/// How many paths can be published to before the first that cannot.
pub open spec fn cleared(
    stored: Seq<Option<Result<MessageView, Seq<char>>>>,
    message: MessageView,
) -> nat
    decreases stored.len(),
{
    if stored.len() == 0 {
        0
    } else {
        let before = cleared(stored.drop_last(), message);
        if before + 1 == stored.len() && stored_fault(stored.last(), message) is None {
            stored.len()
        } else {
            before
        }
    }
}

/// The first `count` paths at which nothing is stored.
pub open spec fn vacant(
    paths: Seq<Seq<char>>,
    stored: Seq<Option<Result<MessageView, Seq<char>>>>,
    count: nat,
) -> Seq<Seq<char>>
    decreases count,
{
    if count == 0 {
        seq![]
    } else {
        let before = vacant(paths, stored, (count - 1) as nat);
        if stored[count - 1] is None {
            before.push(paths[count - 1])
        } else {
            before
        }
    }
}

/// A publication: where the message has to be written, and all of its paths or
/// why it is refused. A refusal comes after the writes.
pub struct Publication {
    pub writes: Vec<String>,
    pub outcome: Result<Vec<String>, BoardError>,
    /// The entry of the expiry index that follows, for a message that expires.
    pub index: Option<Result<Filed<Expiry>, BoardError>>,
}

/// Whether this is the publication of a message, where `there` is what stands
/// at each of its paths.
pub open spec fn is_publication(
    publication: Publication,
    root: Seq<char>,
    message: MessageView,
    there: Seq<Option<Result<MessageView, Seq<char>>>>,
) -> bool {
    let paths = locations(root, message);
    let count = cleared(there, message);
    &&& match location_fault(message.id) {
        Some(words) => fault(publication.outcome) == Some(words) && publication.writes@.len() == 0,
        None => {
            &&& texts(publication.writes@) == vacant(paths, there, count)
            &&& fault(publication.outcome) == if count < paths.len() {
                stored_fault(there[count as int], message)
            } else {
                None
            }
            &&& publication.outcome matches Ok(list) ==> texts(list@) == paths
        },
    }
    &&& match publication.index {
        Some(entry) => publication.outcome is Ok && message.expires_at is Some && is_index_entry(
            entry,
            root,
            message.id,
            message.expires_at->Some_0,
            paths,
        ),
        None => publication.outcome is Err || message.expires_at is None,
    }
}

/// The first path that cannot be published to, if there is one, has a fault.
pub proof fn lemma_cleared_bound(stored: Seq<Option<Result<MessageView, Seq<char>>>>, message: MessageView)
    ensures
        cleared(stored, message) <= stored.len(),
        cleared(stored, message) < stored.len() ==> stored_fault(
            stored[cleared(stored, message) as int],
            message,
        ) is Some,
    decreases stored.len(),
{
    if stored.len() > 0 {
        lemma_cleared_bound(stored.drop_last(), message);
    }
}

proof fn lemma_cleared_stops(
    stored: Seq<Option<Result<MessageView, Seq<char>>>>,
    message: MessageView,
    at: int,
)
    requires
        0 <= at < stored.len(),
        cleared(stored.take(at), message) == at,
        stored_fault(stored[at], message) is Some,
    ensures
        cleared(stored, message) == at,
    decreases stored.len() - at,
{
    lemma_cleared_prefix(stored, message, at, stored.len() as int);
    assert(stored.take(stored.len() as int) =~= stored);
}

proof fn lemma_cleared_prefix(
    stored: Seq<Option<Result<MessageView, Seq<char>>>>,
    message: MessageView,
    at: int,
    end: int,
)
    requires
        0 <= at < end <= stored.len(),
        cleared(stored.take(at), message) == at,
        stored_fault(stored[at], message) is Some,
    ensures
        cleared(stored.take(end), message) == at,
    decreases end,
{
    assert(stored.take(end).drop_last() =~= stored.take(end - 1));
    if end > at + 1 {
        lemma_cleared_prefix(stored, message, at, end - 1);
    }
}

/// Plans the publication of a message. `stored` is what stands at each of its
/// [`publication_paths`]: the same message there is left as it is, another is a
/// conflict.
pub fn publish(root: &str, message: &Message, stored: &Vec<Option<Result<Message, String>>>) -> (r:
    Publication)
    ensures
        is_publication(
            r,
            root@,
            message@,
            all_found(stored@, locations(root@, message@).len()),
        ),
{
    let paths: Vec<String> = match publication_paths(root, message) {
        Ok(paths) => paths,
        Err(error) => {
            return Publication { writes: Vec::new(), outcome: Err(error), index: None };
        },
    };
    let ghost wanted = locations(root@, message@);
    let ghost there = all_found(stored@, wanted.len());
    let mut writes: Vec<String> = Vec::new();
    let mut i: usize = 0;
    assert(there.take(0) =~= seq![]);
    assert(texts(writes@) =~= vacant(wanted, there, 0));
    while i < paths.len()
        invariant
            i <= paths@.len(),
            location_fault(message.id@) is None,
            texts(paths@) == wanted,
            wanted == locations(root@, message@),
            there == all_found(stored@, wanted.len()),
            cleared(there.take(i as int), message@) == i,
            texts(writes@) == vacant(wanted, there, i as nat),
        decreases paths@.len() - i,
    {
        let ghost had = texts(writes@);
        assert(there.take(i + 1).drop_last() =~= there.take(i as int));
        assert(there.take(i + 1).last() == there[i as int]);
        let one: &Option<Result<Message, String>> = if i < stored.len() {
            &stored[i]
        } else {
            &None
        };
        assert(there[i as int] == found(*one));
        match one {
            None => {
                writes.push(paths[i].clone());
                assert(texts(writes@) =~= had.push(wanted[i as int]));
            },
            Some(Ok(existing)) => {
                if !same_message(existing, message) {
                    proof {
                        lemma_cleared_stops(there, message@, i as int);
                    }
                    return Publication {
                        writes,
                        outcome: Err(
                            failure_with("conflicting routed message ", message.id.as_str()),
                        ),
                        index: None,
                    };
                }
            },
            Some(Err(error)) => {
                proof {
                    lemma_cleared_stops(there, message@, i as int);
                }
                return Publication { writes, outcome: Err(failure(error.as_str())), index: None };
            },
        }
        i += 1;
    }
    assert(there.take(i as int) =~= there);
    let index: Option<Result<Filed<Expiry>, BoardError>> = match &message.expires_at {
        Some(expires_at) => Some(write_expiry(root, message, expires_at.as_str(), &paths)),
        None => None,
    };
    Publication { writes, outcome: Ok(paths), index }
}

/// An entry of the expiry index: a message, when it expires and where it is.
#[derive(Debug, PartialEq, Eq)]
pub struct Expiry {
    pub schema: String,
    pub message: String,
    pub expires_at: String,
    pub paths: Vec<String>,
}

/// The content of an [`Expiry`].
#[verifier::ext_equal]
pub struct ExpiryView {
    pub schema: Seq<char>,
    pub message: Seq<char>,
    pub expires_at: Seq<char>,
    pub paths: Seq<Seq<char>>,
}

impl View for Expiry {
    type V = ExpiryView;

    open spec fn view(&self) -> ExpiryView {
        ExpiryView {
            schema: self.schema@,
            message: self.message@,
            expires_at: self.expires_at@,
            paths: texts(self.paths@),
        }
    }
}

/// A path below the root with slashes between its names, or all of its
/// components if it lies elsewhere.
pub open spec fn portable(root: Seq<char>, path: Seq<char>) -> Seq<char> {
    let parts = components(path);
    let base = components(root);
    if is_within(parts, base) {
        with_slashes(parts.skip(base.len() as int))
    } else {
        with_slashes(parts)
    }
}

/// A path below the root with slashes between its names.
pub fn portable_relative_path(root: &str, path: &str) -> (r: String)
    ensures
        r@ == portable(root@, path@),
{
    let parts: Vec<String> = path_components(path);
    let base: Vec<String> = path_components(root);
    if begins_path(&parts, &base) {
        let rest: Vec<String> = after(&parts, base.len());
        slash_joined(&rest)
    } else {
        slash_joined(&parts)
    }
}

/// The texts of a list from a position on.
fn after(list: &Vec<String>, from: usize) -> (r: Vec<String>)
    requires
        from <= list@.len(),
    ensures
        texts(r@) == texts(list@).skip(from as int),
        r@ == list@.skip(from as int),
{
    let mut out: Vec<String> = Vec::new();
    let mut i: usize = from;
    assert(out@ =~= list@.subrange(from as int, i as int));
    while i < list.len()
        invariant
            from <= i <= list@.len(),
            out@ == list@.subrange(from as int, i as int),
        decreases list@.len() - i,
    {
        out.push(list[i].clone());
        assert(list@.subrange(from as int, i + 1) =~= list@.subrange(from as int, i as int).push(
            list@[i as int],
        ));
        i += 1;
    }
    assert(out@ =~= list@.skip(from as int));
    assert(texts(out@) =~= texts(list@).skip(from as int));
    out
}

/// The number since the epoch of the minute of a date that reads as a moment.
pub open spec fn minute_of_date(date: Seq<char>) -> int {
    rfc3339_reading(date)->Ok_0.0 as int / 60
}

/// Where the index has the entry of a message that expires at a date.
pub open spec fn expiry_location(root: Seq<char>, id: Seq<char>, expires_at: Seq<char>) -> Seq<char> {
    descendant(
        child(root, "v2/expiry"@),
        below_minute(minute_of_date(expires_at), seq![id + DOCUMENT_SUFFIX@]),
    )
}

/// The words of a reading that failed.
pub open spec fn reading_fault<T>(reading: Result<T, Seq<char>>) -> Option<Seq<char>> {
    match reading {
        Ok(_) => None,
        Err(words) => Some(words),
    }
}

/// Whether this is what the index has of a message at `paths` that expires.
pub open spec fn is_index_entry(
    entry: Result<Filed<Expiry>, BoardError>,
    root: Seq<char>,
    id: Seq<char>,
    expires_at: Seq<char>,
    paths: Seq<Seq<char>>,
) -> bool {
    &&& fault(entry) == reading_fault(rfc3339_reading(expires_at))
    &&& entry matches Ok(filed) ==> {
        &&& filed.path@ == expiry_location(root, id, expires_at)
        &&& filed.document@ == (ExpiryView {
            schema: EXPIRY_SCHEMA@,
            message: id,
            expires_at,
            paths: paths.map_values(|path: Seq<char>| portable(root, path)),
        })
    }
}

/// The index entry of a message that expires, with its place in the index.
pub fn write_expiry(root: &str, message: &Message, expires_at: &str, paths: &Vec<String>) -> (r: Result<
    Filed<Expiry>,
    BoardError,
>)
    ensures
        is_index_entry(r, root@, message.id@, expires_at@, texts(paths@)),
{
    let seconds: i64 = match read_moment(expires_at) {
        Ok(moment) => moment.seconds,
        Err(error) => {
            return Err(failure(error.as_str()));
        },
    };
    let mut relative: Vec<String> = Vec::new();
    let mut i: usize = 0;
    let ghost wanted = texts(paths@).map_values(|path: Seq<char>| portable(root@, path));
    assert(texts(relative@) =~= wanted.take(0));
    while i < paths.len()
        invariant
            i <= paths@.len(),
            wanted == texts(paths@).map_values(|path: Seq<char>| portable(root@, path)),
            texts(relative@) == wanted.take(i as int),
        decreases paths@.len() - i,
    {
        let ghost had = texts(relative@);
        relative.push(portable_relative_path(root, paths[i].as_str()));
        assert(texts(relative@) =~= had.push(wanted[i as int]));
        assert(wanted.take(i + 1) =~= had.push(wanted[i as int]));
        i += 1;
    }
    assert(wanted.take(i as int) =~= wanted);
    let mut names: Vec<String> = minute_path(seconds);
    let ghost had = texts(names@);
    names.push(joined(message.id.as_str(), DOCUMENT_SUFFIX));
    assert(texts(names@) =~= had + seq![message.id@ + DOCUMENT_SUFFIX@]);
    let path: String = descendant_path(child_path(root, "v2/expiry").as_str(), &names);
    let document = Expiry {
        schema: EXPIRY_SCHEMA.to_owned(),
        message: message.id.clone(),
        expires_at: expires_at.to_owned(),
        paths: relative,
    };
    Ok(Filed { document, path })
}

/// Backslashes become slashes.
pub open spec fn with_forward_slashes(text: Seq<char>) -> Seq<char> {
    text.map_values(
        |c: char|
            if c == '\\' {
                '/'
            } else {
                c
            },
    )
}

/// Backslashes become slashes.
fn forward_slashes(text: &str) -> (r: String)
    ensures
        r@ == with_forward_slashes(text@),
{
    let chars: Vec<char> = chars_of(text);
    let ghost wanted = with_forward_slashes(text@);
    let mut out: String = String::new();
    let mut i: usize = 0;
    assert(out@ =~= wanted.take(0));
    while i < chars.len()
        invariant
            chars@ == text@,
            i <= chars@.len(),
            wanted == with_forward_slashes(text@),
            out@ == wanted.take(i as int),
        decreases chars@.len() - i,
    {
        let c: char = chars[i];
        assert(wanted.take(i + 1) =~= wanted.take(i as int).push(wanted[i as int]));
        if c == '\\' {
            out.push('/');
        } else {
            out.push(c);
        }
        i += 1;
    }
    assert(wanted.take(i as int) =~= wanted);
    out
}

/// The first position of a text in a list, or the list's length.
pub open spec fn position_of(list: Seq<Seq<char>>, wanted: Seq<char>) -> nat
    decreases list.len(),
{
    if list.len() == 0 {
        0
    } else if list[0] == wanted {
        0
    } else {
        1 + position_of(list.drop_first(), wanted)
    }
}

fn find_text(list: &Vec<String>, wanted: &str) -> (r: usize)
    ensures
        r as nat == position_of(texts(list@), wanted@),
        r <= list@.len(),
        r < list@.len() <==> texts(list@).contains(wanted@),
{
    let ghost all = texts(list@);
    let mut i: usize = 0;
    assert(all.skip(0) =~= all);
    while i < list.len()
        invariant
            i <= list@.len(),
            all == texts(list@),
            position_of(all, wanted@) == i + position_of(all.skip(i as int), wanted@),
            forall|j: int| 0 <= j < i ==> all[j] != wanted@,
        decreases list@.len() - i,
    {
        assert(all[i as int] == list@[i as int]@);
        assert(all.skip(i as int)[0] == all[i as int]);
        if same_text(list[i].as_str(), wanted) {
            assert(all.contains(all[i as int]));
            return i;
        }
        assert(all.skip(i as int).drop_first() =~= all.skip(i + 1));
        i += 1;
    }
    i
}

/// Where a stored path leads on a board, wherever the board stands now; before
/// it is checked to be the message.
pub open spec fn target_candidate(root: Seq<char>, stored: Seq<char>) -> Option<Seq<char>> {
    let normalized = with_forward_slashes(stored);
    let parts = components(normalized);
    if is_within(parts, components(root)) {
        Some(normalized)
    } else if parts.contains("v2"@) {
        Some(descendant(root, parts.skip(position_of(parts, "v2"@) as int)))
    } else if !is_rooted(normalized) {
        Some(child(root, normalized))
    } else {
        None
    }
}

/// Whether a path is that of the message below the messages of the board.
pub open spec fn is_message_path(root: Seq<char>, path: Seq<char>, id: Seq<char>) -> bool {
    is_within(components(path), components(child(root, "v2/messages"@))) && last_name(path) == Some(
        id + DOCUMENT_SUFFIX@,
    )
}

/// The file that a path in the expiry index stands for, or why it is refused.
pub open spec fn expiry_target(root: Seq<char>, stored: Seq<char>, id: Seq<char>) -> Result<
    Seq<char>,
    Seq<char>,
> {
    if components(with_forward_slashes(stored)).contains(".."@) {
        Err("expiry target contains a parent traversal"@)
    } else {
        match target_candidate(root, stored) {
            None => Err("expiry target is outside the board root"@),
            Some(candidate) => if is_message_path(root, candidate, id) {
                Ok(candidate)
            } else {
                Err("expiry target is not the indexed message inside v2/messages"@)
            },
        }
    }
}

/// A result in words and views.
pub open spec fn told(result: Result<String, BoardError>) -> Result<Seq<char>, Seq<char>> {
    match result {
        Ok(text) => Ok(text@),
        Err(error) => Err(error@),
    }
}

/// The file that a path in the expiry index stands for.
pub fn resolve_expiry_target(root: &str, stored: &str, message: &str) -> (r: Result<
    String,
    BoardError,
>)
    ensures
        told(r) == expiry_target(root@, stored@, message@),
{
    let normalized: String = forward_slashes(stored);
    let parts: Vec<String> = path_components(normalized.as_str());
    let base: Vec<String> = path_components(root);
    if contains_text(&parts, "..") {
        return Err(failure("expiry target contains a parent traversal"));
    }
    let index: usize = find_text(&parts, "v2");
    let chars: Vec<char> = chars_of(normalized.as_str());
    let candidate: String = if begins_path(&parts, &base) {
        normalized
    } else if index < parts.len() {
        descendant_path(root, &after(&parts, index))
    } else if chars.len() == 0 || chars[0] != '/' {
        child_path(root, normalized.as_str())
    } else {
        return Err(failure("expiry target is outside the board root"));
    };
    let expected: String = joined(message, DOCUMENT_SUFFIX);
    let folder: Vec<String> = path_components(child_path(root, "v2/messages").as_str());
    let within: bool = begins_path(&path_components(candidate.as_str()), &folder);
    let named: bool = match file_name(candidate.as_str()) {
        Some(name) => same_text(name.as_str(), expected.as_str()),
        None => false,
    };
    if within && named {
        Ok(candidate)
    } else {
        Err(failure("expiry target is not the indexed message inside v2/messages"))
    }
}

/// Whether a message has expired.
pub open spec fn expired(message: MessageView, now: Moment) -> bool {
    match message.expires_at {
        Some(date) => match rfc3339_reading(date) {
            Ok(time) => no_later(Moment { seconds: time.0, nanos: time.1 }, now),
            Err(_) => false,
        },
        None => false,
    }
}

/// Whether a message has expired. A date that cannot be read never comes.
pub fn is_expired(message: &Message, now: Moment) -> (r: bool)
    ensures
        r == expired(message@, now),
{
    match &message.expires_at {
        Some(date) => match read_moment(date.as_str()) {
            Ok(time) => is_no_later(time, now),
            Err(_) => false,
        },
        None => false,
    }
}

/// The creation time in the name of a document, if its name is an identifier.
pub open spec fn document_time(path: Seq<char>) -> Option<int> {
    match document_title(path) {
        Some(title) => if is_ulid(title) {
            Some(ulid_millis(title))
        } else {
            None
        },
        None => None,
    }
}

/// The identifier that a document is named by.
pub fn document_id(path: &str) -> (r: Option<u128>)
    ensures
        match r {
            Some(value) => document_title(path@) is Some && ulid_decoding(
                document_title(path@)->Some_0,
            ) is Ok && ulid_decoding(document_title(path@)->Some_0)->Ok_0 == value,
            None => document_title(path@) is None || !is_ulid(document_title(path@)->Some_0),
        },
{
    match document_name(path) {
        Some(name) => match parse_ulid(name.as_str()) {
            Ok(value) => Some(value),
            Err(_) => None,
        },
        None => None,
    }
}

/// The routes that an agent reads: everyone's, its project's, its own, and its
/// groups'.
pub open spec fn read_routes(agent: Seq<char>, project: Seq<char>, groups: Seq<Seq<char>>) -> Seq<
    Seq<char>,
> {
    seq![global_route(), project_route(project), direct_route(agent)] + groups.map_values(
        |group: Seq<char>| group_route(group),
    )
}

/// The routes that an agent reads.
pub fn reading_routes(agent: &str, project: &str, groups: &Vec<String>) -> (r: Vec<String>)
    ensures
        texts(r@) == read_routes(agent@, project@, texts(groups@)),
        forall|i: int| 0 <= i < r@.len() ==> is_route(#[trigger] r@[i]@),
{
    let mut out: Vec<String> = Vec::new();
    out.push("global".to_owned());
    out.push(joined("project:", project));
    out.push(joined("direct:", agent));
    proof {
        crate::text::lemma_prefix_prepended("project:"@, project@);
        crate::text::lemma_prefix_prepended("direct:"@, agent@);
    }
    let ghost all = read_routes(agent@, project@, texts(groups@));
    let mut i: usize = 0;
    assert(texts(out@) =~= all.take(3));
    while i < groups.len()
        invariant
            i <= groups@.len(),
            all == read_routes(agent@, project@, texts(groups@)),
            texts(out@) == all.take(3 + i),
            forall|j: int| 0 <= j < out@.len() ==> is_route(#[trigger] out@[j]@),
        decreases groups@.len() - i,
    {
        let ghost had = texts(out@);
        out.push(joined("group:", groups[i].as_str()));
        proof {
            crate::text::lemma_prefix_prepended("group:"@, groups@[i as int]@);
            assert(all[3 + i] == group_route(texts(groups@)[i as int]));
            assert(texts(out@) =~= had.push(all[3 + i]));
            assert(all.take(4 + i) =~= had.push(all[3 + i]));
        }
        i += 1;
    }
    assert(all.take(3 + i) =~= all);
    out
}

/// The directories of the minutes in which a scan looks for a route's messages:
/// that of `now` and the ten before it, the latest first.
pub open spec fn recent_folders(root: Seq<char>, route: Seq<char>, now: Moment) -> Seq<Seq<char>> {
    Seq::new(
        (RECENT_MINUTES + 1) as nat,
        |i: int|
            descendant(
                route_folder(root, route),
                minute_names(utc_minute((now.seconds - 60 * i) / 60)->Some_0),
            ),
    )
}

/// The directories in which a scan looks for a route's messages.
pub fn recent_paths(root: &str, route: &str, now: Moment) -> (r: Vec<String>)
    requires
        is_route(route@),
        on_clock(now),
    ensures
        texts(r@) == recent_folders(root@, route@, now),
{
    let folder: String = route_directory(root, route);
    let ghost all = recent_folders(root@, route@, now);
    let mut out: Vec<String> = Vec::new();
    let mut offset: u32 = 0;
    assert(texts(out@) =~= all.take(0));
    while offset <= RECENT_MINUTES
        invariant
            offset <= RECENT_MINUTES + 1,
            on_clock(now),
            folder@ == route_folder(root@, route@),
            all == recent_folders(root@, route@, now),
            texts(out@) == all.take(offset as int),
        decreases RECENT_MINUTES + 1 - offset,
    {
        let ghost had = texts(out@);
        let names: Vec<String> = minute_path(now.seconds - 60 * (offset as i64));
        out.push(descendant_path(folder.as_str(), &names));
        assert(texts(out@) =~= had.push(all[offset as int]));
        assert(all.take(offset + 1) =~= had.push(all[offset as int]));
        offset += 1;
    }
    assert(all.take(offset as int) =~= all);
    out
}

/// A message document that was found on a route, or why it could not be read.
pub struct Sighting {
    pub route: String,
    pub path: String,
    pub content: Result<Message, String>,
}

/// The content of a [`Sighting`].
#[verifier::ext_equal]
pub struct SightingView {
    pub route: Seq<char>,
    pub path: Seq<char>,
    pub content: Result<MessageView, Seq<char>>,
}

impl View for Sighting {
    type V = SightingView;

    open spec fn view(&self) -> SightingView {
        SightingView {
            route: self.route@,
            path: self.path@,
            content: content_of(self.content),
        }
    }
}

/// Whether a message document has the schema of messages and is named by its
/// identifier.
pub open spec fn is_in_place(message: MessageView, path: Seq<char>) -> bool {
    message.schema == MESSAGE_SCHEMA@ && document_title(path) == Some(message.id)
}

/// The message that a document holds, or why there is none to accept.
pub open spec fn accepted(seen: SightingView) -> Result<MessageView, Seq<char>> {
    match seen.content {
        Ok(message) => if is_in_place(message, seen.path) {
            Ok(message)
        } else {
            Err("message path does not agree with document identity"@)
        },
        Err(words) => Err(words),
    }
}

/// The message that a document holds, or why there is none to accept.
fn accept(seen: &Sighting) -> (r: Result<&Message, &str>)
    ensures
        match r {
            Ok(message) => accepted(seen@) == Ok::<MessageView, Seq<char>>(message@),
            Err(words) => accepted(seen@) == Err::<MessageView, Seq<char>>(words@),
        },
{
    match &seen.content {
        Ok(message) => {
            let named: bool = match document_name(seen.path.as_str()) {
                Some(name) => same_text(name.as_str(), message.id.as_str()),
                None => false,
            };
            if named && same_text(message.schema.as_str(), MESSAGE_SCHEMA) {
                Ok(message)
            } else {
                Err("message path does not agree with document identity")
            }
        },
        Err(error) => Err(error.as_str()),
    }
}

/// Whether a message on a route is still to be delivered: it is newer than all
/// that were acknowledged, or it is not among those.
pub open spec fn undelivered(cursors: Map<Seq<char>, CursorView>, route: Seq<char>, id: Seq<char>) -> bool {
    ||| !cursors.contains_key(route)
    ||| precedes(cursors[route].high_water, id)
    ||| !cursors[route].overlap_ids.contains(id)
}

/// The warning about a document that could not be read.
pub open spec fn reading_warning(path: Seq<char>, words: Seq<char>) -> Seq<char> {
    "read "@ + path + ": "@ + words
}

/// The warning about a document that could not be read.
pub fn warn_reading(path: &str, words: &str) -> (r: String)
    ensures
        r@ == reading_warning(path@, words@),
{
    joined(joined3("read ", path, ": ").as_str(), words)
}

/// What a scan of routes has come to.
#[verifier::ext_equal]
pub struct RouteScanView {
    pub loaded: Set<Seq<char>>,
    pub warned: Set<Seq<char>>,
    pub messages: Map<Seq<char>, MessageView>,
    pub warnings: Seq<Seq<char>>,
}

/// A map with one more message, unless its identifier is there already.
pub open spec fn with_message(messages: Map<Seq<char>, MessageView>, message: MessageView) -> Map<
    Seq<char>,
    MessageView,
> {
    if messages.contains_key(message.id) {
        messages
    } else {
        messages.insert(message.id, message)
    }
}

/// What one document adds to a scan of routes.
pub open spec fn route_step(
    scan: RouteScanView,
    cursors: Map<Seq<char>, CursorView>,
    seen: SightingView,
    now: Moment,
) -> RouteScanView {
    if scan.loaded.contains(seen.path) {
        scan
    } else {
        match accepted(seen) {
            Ok(message) => if expired(message, now) {
                RouteScanView { loaded: scan.loaded.insert(seen.path), ..scan }
            } else {
                RouteScanView {
                    loaded: scan.loaded.insert(seen.path),
                    warned: scan.warned.remove(seen.path),
                    messages: if undelivered(cursors, seen.route, message.id) {
                        with_message(scan.messages, message)
                    } else {
                        scan.messages
                    },
                    ..scan
                }
            },
            Err(words) => if scan.warned.contains(seen.path) {
                scan
            } else {
                RouteScanView {
                    warned: scan.warned.insert(seen.path),
                    warnings: scan.warnings.push(reading_warning(seen.path, words)),
                    ..scan
                }
            },
        }
    }
}

/// What documents add to a scan of routes, one after the other.
pub open spec fn routes_scanned(
    scan: RouteScanView,
    cursors: Map<Seq<char>, CursorView>,
    seen: Seq<SightingView>,
    now: Moment,
) -> RouteScanView
    decreases seen.len(),
{
    if seen.len() == 0 {
        scan
    } else {
        route_step(routes_scanned(scan, cursors, seen.drop_last(), now), cursors, seen.last(), now)
    }
}

/// The start of a scan of routes.
pub open spec fn scan_start(state: RoutedView) -> RouteScanView {
    RouteScanView {
        loaded: state.loaded,
        warned: state.warned,
        messages: Map::empty(),
        warnings: seq![],
    }
}

/// The time from which documents are remembered as loaded: a minute before
/// those that a scan looks for.
pub open spec fn loaded_floor(now: Moment) -> int {
    epoch_millis(Moment { seconds: (now.seconds - 60 * 11) as i64, nanos: now.nanos })
}

/// Whether a document is recent enough to be remembered.
pub open spec fn is_remembered(path: Seq<char>, floor: int) -> bool {
    document_time(path) is Some && document_time(path)->Some_0 >= floor
}

/// The messages of a map in the order of their keys.
pub fn messages_in_order(map: &TextMap<Message>) -> (r: Vec<Message>)
    ensures
        views(r@) == in_order(map@),
{
    let count: usize = map.len();
    let ghost all = in_order(map@);
    let mut out: Vec<Message> = Vec::new();
    let mut i: usize = 0;
    assert(views(out@) =~= all.take(0));
    while i < count
        invariant
            i <= count,
            count == listing(map@.dom()).len(),
            all == in_order(map@),
            views(out@) == all.take(i as int),
        decreases count - i,
    {
        let ghost had = views(out@);
        let message: Message = map.value_at(i).clone();
        out.push(message);
        assert(views(out@) =~= had.push(all[i as int]));
        assert(all.take(i + 1) =~= had.push(all[i as int]));
        i += 1;
    }
    assert(all.take(i as int) =~= all);
    out
}

/// The members of a set that are documents from `floor` on.
fn remembered(paths: &TextSet, floor: u64) -> (r: TextSet)
    ensures
        r@ == paths@.filter(|path: Seq<char>| is_remembered(path, floor as int)),
{
    let list: &Vec<String> = paths.as_list();
    let ghost all = texts(list@);
    let ghost keep = |path: Seq<char>| is_remembered(path, floor as int);
    let mut out: TextSet = TextSet::new();
    let mut i: usize = 0;
    assert(out@ =~= all.take(0).to_set().filter(keep));
    while i < list.len()
        invariant
            i <= list@.len(),
            all == texts(list@),
            keep == (|path: Seq<char>| is_remembered(path, floor as int)),
            out@ == all.take(i as int).to_set().filter(keep),
        decreases list@.len() - i,
    {
        proof {
            crate::collections::lemma_take_set(all, i as int);
        }
        let ghost had = out@;
        let recent: bool = match document_id(list[i].as_str()) {
            Some(value) => ulid_timestamp_ms(value) >= floor,
            None => false,
        };
        assert(recent == keep(all[i as int]));
        if recent {
            out.insert(list[i].clone());
            assert(out@ =~= had.insert(all[i as int]));
        }
        assert(out@ =~= all.take(i + 1).to_set().filter(keep));
        i += 1;
    }
    assert(all.take(i as int) =~= all);
    out
}

/// The members of a list, taken out of a set.
pub fn remove_all(set: &mut TextSet, list: &Vec<String>)
    ensures
        final(set)@ == old(set)@.difference(texts(list@).to_set()),
{
    let ghost all = texts(list@);
    let ghost before = set@;
    let mut i: usize = 0;
    assert(set@ =~= before.difference(all.take(0).to_set()));
    while i < list.len()
        invariant
            i <= list@.len(),
            all == texts(list@),
            set@ == before.difference(all.take(i as int).to_set()),
        decreases list@.len() - i,
    {
        proof {
            crate::collections::lemma_take_set(all, i as int);
        }
        let ghost had = set@;
        set.remove(list[i].as_str());
        assert(set@ =~= before.difference(all.take(i + 1).to_set()));
        i += 1;
    }
    assert(all.take(i as int) =~= all);
}

/// What a scan of routes found.
pub struct Findings {
    pub messages: Vec<Message>,
    pub warnings: Vec<String>,
}

/// The state after a scan of routes: documents that are too old to be looked
/// for again are forgotten, and so are warnings about paths that are gone.
pub open spec fn scan_end(
    state: RoutedView,
    seen: Seq<SightingView>,
    gone: Set<Seq<char>>,
    now: Moment,
) -> RoutedView {
    let end = routes_scanned(scan_start(state), state.cursors, seen, now);
    RoutedView {
        loaded: end.loaded.filter(|path: Seq<char>| is_remembered(path, loaded_floor(now))),
        warned: end.warned.difference(gone),
        ..state
    }
}

/// Takes in the documents that were found in the [`recent_paths`] of the
/// [`reading_routes`]. `gone` are paths that are no longer there.
pub fn scan(state: &mut RoutedState, seen: &Vec<Sighting>, gone: &Vec<String>, now: Moment) -> (r: Findings)
    requires
        on_clock(now),
    ensures
        ({
            let end = routes_scanned(scan_start(old(state)@), old(state)@.cursors, views(seen@), now);
            &&& final(state)@ == scan_end(old(state)@, views(seen@), texts(gone@).to_set(), now)
            &&& views(r.messages@) == in_order(end.messages)
            &&& texts(r.warnings@) == end.warnings
        }),
{
    let ghost all = views(seen@);
    let ghost start = scan_start(state@);
    let ghost cursors = state@.cursors;
    let mut messages: TextMap<Message> = TextMap::new();
    let mut warnings: Vec<String> = Vec::new();
    let mut i: usize = 0;
    assert(all.take(0) =~= seq![]);
    assert(texts(warnings@) =~= seq![]);
    while i < seen.len()
        invariant
            i <= seen@.len(),
            all == views(seen@),
            cursors == old(state)@.cursors,
            state@ == (RoutedView { loaded: state@.loaded, warned: state@.warned, ..old(state)@ }),
            (RouteScanView {
                loaded: state@.loaded,
                warned: state@.warned,
                messages: messages@,
                warnings: texts(warnings@),
            }) == routes_scanned(start, cursors, all.take(i as int), now),
        decreases seen@.len() - i,
    {
        let ghost had = texts(warnings@);
        let ghost before = routes_scanned(start, cursors, all.take(i as int), now);
        assert(all.take(i + 1).drop_last() =~= all.take(i as int));
        assert(all.take(i + 1).last() == seen@[i as int]@);
        let one: &Sighting = &seen[i];
        if !state.loaded.contains(one.path.as_str()) {
            match accept(one) {
                Ok(message) => {
                    if is_expired(message, now) {
                        state.loaded.insert(one.path.clone());
                    } else {
                        let wanted: bool = match state.cursors.get(one.route.as_str()) {
                            Some(cursor) => comes_before(
                                cursor.high_water.as_str(),
                                message.id.as_str(),
                            ) || !contains_text(&cursor.overlap_ids, message.id.as_str()),
                            None => true,
                        };
                        assert(wanted == undelivered(cursors, one.route@, message.id@));
                        if wanted && !messages.contains(message.id.as_str()) {
                            let copy: Message = message.clone();
                            messages.insert(message.id.clone(), copy);
                        }
                        state.warned.remove(one.path.as_str());
                        state.loaded.insert(one.path.clone());
                    }
                },
                Err(error) => {
                    if state.warned.insert(one.path.clone()) {
                        warnings.push(warn_reading(one.path.as_str(), error));
                        assert(texts(warnings@) =~= had.push(
                            reading_warning(one.path@, error@),
                        ));
                    } else {
                        assert(state@.warned =~= before.warned);
                    }
                },
            }
        }
        i += 1;
    }
    assert(all.take(i as int) =~= all);
    let floor: u64 = millis_before(now, RECENT_MINUTES + 1);
    state.loaded = remembered(&state.loaded, floor);
    remove_all(&mut state.warned, gone);
    Findings { messages: messages_in_order(&messages), warnings }
}

/// How long expired messages may wait before they are collected, in
/// nanoseconds.
pub const COLLECTION_INTERVAL: u64 = 600_000_000_000;

/// Whether expired messages are to be collected again, at this time of the
/// process clock.
pub fn collection_due(state: &RoutedState, instant: u64) -> (r: bool)
    ensures
        r == match state.last_gc {
            None => true,
            Some(last) => instant - last >= COLLECTION_INTERVAL,
        },
{
    match state.last_gc {
        None => true,
        Some(last) => instant >= last && instant - last >= COLLECTION_INTERVAL,
    }
}

/// Notes that expired messages have been collected, and warns if it failed.
pub fn collection_done(state: &mut RoutedState, instant: u64, outcome: Result<(), String>) -> (r: Option<
    String,
>)
    ensures
        final(state)@ == (RoutedView { last_gc: Some(instant), ..old(state)@ }),
        crate::text::text_option(r) == match outcome {
            Ok(()) => None,
            Err(words) => Some("expiry collection: "@ + words@),
        },
{
    state.last_gc = Some(instant);
    match outcome {
        Ok(()) => None,
        Err(words) => Some(joined("expiry collection: ", words.as_str())),
    }
}

/// A cursor that has not moved yet.
pub open spec fn fresh_cursor() -> CursorView {
    CursorView { high_water: seq![], overlap_ids: seq![] }
}

/// A cursor after a message was acknowledged.
pub open spec fn advanced(cursor: CursorView, id: Seq<char>) -> CursorView {
    CursorView {
        high_water: if precedes(cursor.high_water, id) {
            id
        } else {
            cursor.high_water
        },
        overlap_ids: if cursor.overlap_ids.contains(id) {
            cursor.overlap_ids
        } else {
            cursor.overlap_ids.push(id)
        },
    }
}

/// The cursor of a route, fresh if there is none.
pub open spec fn cursor_of(cursors: Map<Seq<char>, CursorView>, route: Seq<char>) -> CursorView {
    if cursors.contains_key(route) {
        cursors[route]
    } else {
        fresh_cursor()
    }
}

/// Cursors after a message was acknowledged on some routes.
pub open spec fn advanced_on(
    cursors: Map<Seq<char>, CursorView>,
    routes: Seq<Seq<char>>,
    id: Seq<char>,
) -> Map<Seq<char>, CursorView>
    decreases routes.len(),
{
    if routes.len() == 0 {
        cursors
    } else {
        let before = advanced_on(cursors, routes.drop_last(), id);
        before.insert(routes.last(), advanced(cursor_of(before, routes.last()), id))
    }
}

/// Cursors after a consumer acknowledged messages.
pub open spec fn advanced_by(
    cursors: Map<Seq<char>, CursorView>,
    messages: Seq<MessageView>,
    agent: Seq<char>,
    project: Seq<char>,
) -> Map<Seq<char>, CursorView>
    decreases messages.len(),
{
    if messages.len() == 0 {
        cursors
    } else {
        advanced_on(
            advanced_by(cursors, messages.drop_last(), agent, project),
            routes_for(messages.last(), agent, project),
            messages.last().id,
        )
    }
}

/// Whether an identifier was made at or after a time.
pub open spec fn is_since(id: Seq<char>, floor: int) -> bool {
    is_ulid(id) && ulid_millis(id) >= floor
}

/// The last `limit` of a list.
pub open spec fn last_of<A>(list: Seq<A>, limit: nat) -> Seq<A> {
    if list.len() > limit {
        list.skip(list.len() - limit)
    } else {
        list
    }
}

/// A cursor that remembers only recent identifiers, in their order, and not too
/// many of them.
pub open spec fn trimmed(cursor: CursorView, floor: int) -> CursorView {
    CursorView {
        high_water: cursor.high_water,
        overlap_ids: last_of(
            sorted_list(cursor.overlap_ids.filter(|id: Seq<char>| is_since(id, floor))),
            CACHE_LIMIT as nat,
        ),
    }
}

/// The time from which a cursor remembers identifiers.
pub open spec fn overlap_floor(now: Moment) -> int {
    epoch_millis(Moment { seconds: (now.seconds - 60 * 10) as i64, nanos: now.nanos })
}

/// Cursors after a consumer acknowledged messages and forgot what is old.
pub open spec fn acknowledged(state: RoutedView, messages: Seq<MessageView>, now: Moment) -> Map<
    Seq<char>,
    CursorView,
> {
    advanced_by(state.cursors, messages, state.agent_id, state.project).map_values(
        |cursor: CursorView| trimmed(cursor, overlap_floor(now)),
    )
}

fn advance(cursors: &mut TextMap<RouteCursor>, routes: &Vec<String>, id: &str)
    ensures
        final(cursors)@ == advanced_on(old(cursors)@, texts(routes@), id@),
{
    let ghost all = texts(routes@);
    let ghost start = cursors@;
    let mut i: usize = 0;
    assert(all.take(0) =~= seq![]);
    while i < routes.len()
        invariant
            i <= routes@.len(),
            all == texts(routes@),
            cursors@ == advanced_on(start, all.take(i as int), id@),
        decreases routes@.len() - i,
    {
        assert(all.take(i + 1).drop_last() =~= all.take(i as int));
        assert(all.take(i + 1).last() == routes@[i as int]@);
        let ghost before = cursors@;
        let mut cursor: RouteCursor = match cursors.get(routes[i].as_str()) {
            Some(cursor) => cursor.clone(),
            None => RouteCursor { high_water: String::new(), overlap_ids: Vec::new() },
        };
        proof {
            if !before.contains_key(routes@[i as int]@) {
                assert(cursor@.high_water =~= seq![]);
                assert(cursor@.overlap_ids =~= seq![]);
            }
            assert(cursor@ == cursor_of(before, routes@[i as int]@));
        }
        let ghost had = cursor@;
        if comes_before(cursor.high_water.as_str(), id) {
            cursor.high_water = id.to_owned();
        }
        if !contains_text(&cursor.overlap_ids, id) {
            cursor.overlap_ids.push(id.to_owned());
            assert(texts(cursor.overlap_ids@) =~= had.overlap_ids.push(id@));
        }
        assert(cursor@ == advanced(had, id@));
        cursors.insert(routes[i].clone(), cursor);
        i += 1;
    }
    assert(all.take(i as int) =~= all);
}

/// The identifiers of a list that were made at or after a time.
fn ids_since(ids: &Vec<String>, floor: u64) -> (r: Vec<String>)
    ensures
        texts(r@) == texts(ids@).filter(|id: Seq<char>| is_since(id, floor as int)),
{
    let ghost all = texts(ids@);
    let ghost keep = |id: Seq<char>| is_since(id, floor as int);
    let mut out: Vec<String> = Vec::new();
    let mut i: usize = 0;
    proof {
        reveal_with_fuel(Seq::filter, 1);
        assert(all.take(0) =~= seq![]);
        assert(texts(out@) =~= all.take(0).filter(keep));
    }
    while i < ids.len()
        invariant
            i <= ids@.len(),
            all == texts(ids@),
            keep == (|id: Seq<char>| is_since(id, floor as int)),
            texts(out@) == all.take(i as int).filter(keep),
        decreases ids@.len() - i,
    {
        let ghost had = texts(out@);
        proof {
            reveal_with_fuel(Seq::filter, 2);
            assert(all.take(i + 1).drop_last() =~= all.take(i as int));
            assert(all.take(i + 1).last() == ids@[i as int]@);
        }
        let recent: bool = match ulid_time(ids[i].as_str()) {
            Some(millis) => millis >= floor,
            None => false,
        };
        if recent {
            out.push(ids[i].clone());
            assert(texts(out@) =~= had.push(all[i as int]));
        }
        i += 1;
    }
    assert(all.take(i as int) =~= all);
    out
}

fn trim(cursor: &RouteCursor, floor: u64) -> (r: RouteCursor)
    ensures
        r@ == trimmed(cursor@, floor as int),
{
    let recent: Vec<String> = sort_texts(&ids_since(&cursor.overlap_ids, floor));
    let overlap_ids: Vec<String> = if recent.len() > CACHE_LIMIT {
        after(&recent, recent.len() - CACHE_LIMIT)
    } else {
        recent
    };
    RouteCursor { high_water: cursor.high_water.clone(), overlap_ids }
}

fn trim_all(cursors: &TextMap<RouteCursor>, floor: u64) -> (r: TextMap<RouteCursor>)
    ensures
        r@ == cursors@.map_values(|cursor: CursorView| trimmed(cursor, floor as int)),
{
    let count: usize = cursors.len();
    let ghost keys = listing(cursors@.dom());
    let ghost wanted = cursors@.map_values(|cursor: CursorView| trimmed(cursor, floor as int));
    let mut out: TextMap<RouteCursor> = TextMap::new();
    let mut i: usize = 0;
    assert(out@ =~= wanted.restrict(keys.take(0).to_set()));
    while i < count
        invariant
            i <= count,
            count == keys.len(),
            keys == listing(cursors@.dom()),
            keys.to_set() == cursors@.dom(),
            wanted == cursors@.map_values(|cursor: CursorView| trimmed(cursor, floor as int)),
            out@ == wanted.restrict(keys.take(i as int).to_set()),
        decreases count - i,
    {
        proof {
            crate::collections::lemma_take_set(keys, i as int);
            assert(keys.to_set().contains(keys[i as int]));
        }
        let ghost had = out@;
        let key: String = cursors.key_at(i).clone();
        let cursor: RouteCursor = trim(cursors.value_at(i), floor);
        out.insert(key, cursor);
        assert(out@ =~= wanted.restrict(keys.take(i + 1).to_set()));
        i += 1;
    }
    assert(keys.take(i as int) =~= keys);
    assert(out@ =~= wanted);
    out
}

/// Acknowledges messages, and says whether a checkpoint has to be written.
/// Without messages, or before the consumer is known, nothing happens.
pub fn acknowledge(state: &mut RoutedState, messages: &Vec<Message>, now: Moment) -> (r: bool)
    requires
        on_clock(now),
    ensures
        r == (messages@.len() > 0 && old(state).agent_id@.len() > 0),
        !r ==> final(state)@ == old(state)@,
        r ==> final(state)@ == (RoutedView {
            cursors: acknowledged(old(state)@, views(messages@), now),
            ..old(state)@
        }),
{
    if messages.len() == 0 || same_text(state.agent_id.as_str(), "") {
        proof {
            reveal_strlit("");
            assert(""@ =~= seq![]);
        }
        return false;
    }
    proof {
        reveal_strlit("");
        if state.agent_id@.len() == 0 {
            assert(state.agent_id@ =~= ""@);
        }
    }
    let ghost all = views(messages@);
    let ghost agent = state@.agent_id;
    let ghost project = state@.project;
    let mut i: usize = 0;
    assert(all.take(0) =~= seq![]);
    while i < messages.len()
        invariant
            i <= messages@.len(),
            all == views(messages@),
            agent == old(state)@.agent_id,
            project == old(state)@.project,
            state@ == (RoutedView {
                cursors: advanced_by(old(state)@.cursors, all.take(i as int), agent, project),
                ..old(state)@
            }),
        decreases messages@.len() - i,
    {
        assert(all.take(i + 1).drop_last() =~= all.take(i as int));
        assert(all.take(i + 1).last() == messages@[i as int]@);
        let routes: Vec<String> = message_routes_for_consumer(
            &messages[i],
            state.agent_id.as_str(),
            state.project.as_str(),
        );
        advance(&mut state.cursors, &routes, messages[i].id.as_str());
        i += 1;
    }
    assert(all.take(i as int) =~= all);
    let floor: u64 = millis_before(now, RECENT_MINUTES);
    state.cursors = trim_all(&state.cursors, floor);
    true
}

/// A stored record of how far a consumer has come on its routes.
pub struct Checkpoint {
    pub schema: String,
    pub id: String,
    pub agent: String,
    pub updated_at: String,
    pub routes: TextMap<RouteCursor>,
}

/// The content of a [`Checkpoint`].
#[verifier::ext_equal]
pub struct CheckpointView {
    pub schema: Seq<char>,
    pub id: Seq<char>,
    pub agent: Seq<char>,
    pub updated_at: Seq<char>,
    pub routes: Map<Seq<char>, CursorView>,
}

impl View for Checkpoint {
    type V = CheckpointView;

    open spec fn view(&self) -> CheckpointView {
        CheckpointView {
            schema: self.schema@,
            id: self.id@,
            agent: self.agent@,
            updated_at: self.updated_at@,
            routes: self.routes@,
        }
    }
}

/// A copy of cursors.
fn copy_cursors(cursors: &TextMap<RouteCursor>) -> (r: TextMap<RouteCursor>)
    ensures
        r@ == cursors@,
{
    let count: usize = cursors.len();
    let ghost keys = listing(cursors@.dom());
    let mut out: TextMap<RouteCursor> = TextMap::new();
    let mut i: usize = 0;
    assert(out@ =~= cursors@.restrict(keys.take(0).to_set()));
    while i < count
        invariant
            i <= count,
            count == keys.len(),
            keys == listing(cursors@.dom()),
            keys.to_set() == cursors@.dom(),
            out@ == cursors@.restrict(keys.take(i as int).to_set()),
        decreases count - i,
    {
        proof {
            crate::collections::lemma_take_set(keys, i as int);
            assert(keys.to_set().contains(keys[i as int]));
        }
        let key: String = cursors.key_at(i).clone();
        let cursor: RouteCursor = cursors.value_at(i).clone();
        out.insert(key, cursor);
        assert(out@ =~= cursors@.restrict(keys.take(i + 1).to_set()));
        i += 1;
    }
    assert(keys.take(i as int) =~= keys);
    assert(out@ =~= cursors@);
    out
}

/// The checkpoint of a consumer under this identifier and at this time.
pub open spec fn checkpoint_of(state: RoutedView, id: Seq<char>, updated_at: Seq<char>) -> CheckpointView {
    CheckpointView {
        schema: CHECKPOINT_SCHEMA@,
        id,
        agent: state.agent_id,
        updated_at,
        routes: state.cursors,
    }
}

/// A new checkpoint of a consumer, with its place.
pub fn write_checkpoint(root: &str, state: &RoutedState) -> (r: Filed<Checkpoint>)
    ensures
        r.document@ == checkpoint_of(state@, r.document@.id, r.document@.updated_at),
        is_canonical(r.document@.id),
        is_timestamp(r.document@.updated_at),
        r.path@ == child(
            consumer_folder(root@, state@.agent_id),
            r.document@.id + DOCUMENT_SUFFIX@,
        ),
{
    let id: String = unordered_id();
    let directory: String = consumer_directory(root, state.agent_id.as_str());
    let path: String = child_path(
        directory.as_str(),
        joined(id.as_str(), DOCUMENT_SUFFIX).as_str(),
    );
    let document = Checkpoint {
        schema: CHECKPOINT_SCHEMA.to_owned(),
        id,
        agent: state.agent_id.clone(),
        updated_at: timestamp(),
        routes: copy_cursors(&state.cursors),
    };
    Filed { document, path }
}

/// How many checkpoints and signs of life of an agent are kept.
pub const RETAINED: usize = 4;

/// Whether a checkpoint is that of an agent.
pub open spec fn resumes(checkpoint: CheckpointView, agent: Seq<char>) -> bool {
    checkpoint.schema == CHECKPOINT_SCHEMA@ && checkpoint.agent == agent
}

/// Makes the state that of an agent. `stored` is the latest of its checkpoints,
/// if there is one; the agent resumes from it, unless it is not its own. An
/// agent that does not resume needs a first checkpoint.
pub fn initialize(
    state: &mut RoutedState,
    agent: &Agent,
    stored: Option<Result<Checkpoint, String>>,
) -> (r: Result<bool, BoardError>)
    ensures
        match found(stored) {
            Some(Err(words)) => fault(r) == Some(words),
            Some(Ok(checkpoint)) => r is Ok && r->Ok_0 == resumes(checkpoint, agent@.id),
            None => r is Ok && !r->Ok_0,
        },
        final(state)@ == (RoutedView {
            agent_id: agent@.id,
            project: agent@.project,
            cursors: if r is Ok && r->Ok_0 {
                found(stored)->Some_0->Ok_0.routes
            } else {
                old(state)@.cursors
            },
            ..old(state)@
        }),
{
    state.agent_id = agent.id.clone();
    state.project = agent.project.clone();
    match stored {
        Some(Ok(checkpoint)) => {
            if same_text(checkpoint.schema.as_str(), CHECKPOINT_SCHEMA) && same_text(
                checkpoint.agent.as_str(),
                agent.id.as_str(),
            ) {
                state.cursors = checkpoint.routes;
                return Ok(true);
            }
            Ok(false)
        },
        Some(Err(error)) => Err(failure(error.as_str())),
        None => Ok(false),
    }
}

/// The part of a map with the last `limit` keys.
pub open spec fn newest<V>(map: Map<Seq<char>, V>, limit: nat) -> Map<Seq<char>, V> {
    map.restrict(last_of(listing(map.dom()), limit).to_set())
}

/// Forgets the oldest messages beyond the cache's limit.
pub fn trim_cache(messages: &mut TextMap<Message>)
    ensures
        final(messages)@ == newest(old(messages)@, CACHE_LIMIT as nat),
        listing(final(messages)@.dom()) == last_of(listing(old(messages)@.dom()), CACHE_LIMIT as nat),
{
    let ghost start = messages@;
    let ghost keys = listing(start.dom());
    let mut count: usize = messages.len();
    let ghost mut gone: int = 0;
    assert(keys.skip(0) =~= keys);
    assert(start =~= start.restrict(keys.skip(0).to_set()));
    while count > CACHE_LIMIT
        invariant
            0 <= gone <= keys.len(),
            keys == listing(start.dom()),
            ascending(keys),
            keys.to_set() == start.dom(),
            count == keys.len() - gone,
            gone > 0 ==> count >= CACHE_LIMIT,
            listing(messages@.dom()) == keys.skip(gone),
            messages@ == start.restrict(keys.skip(gone).to_set()),
        decreases count,
    {
        let ghost had = messages@;
        let length: usize = messages.len();
        messages.remove_first();
        count -= 1;
        proof {
            assert(keys.skip(gone).drop_first() =~= keys.skip(gone + 1));
            let rest = keys.skip(gone + 1);
            assert(keys.skip(gone)[0] == keys[gone]);
            assert forall|k: Seq<char>| rest.to_set().contains(k) == (keys.skip(gone).to_set().contains(
                k,
            ) && k != keys[gone]) by {
                if rest.contains(k) {
                    let j = choose|j: int| 0 <= j < rest.len() && rest[j] == k;
                    assert(keys.skip(gone)[j + 1] == k);
                    assert(precedes(keys[gone], keys[gone + 1 + j]));
                    crate::text::lemma_precedes_irreflexive(k);
                }
                if keys.skip(gone).contains(k) && k != keys[gone] {
                    let j = choose|j: int| 0 <= j < keys.skip(gone).len() && keys.skip(gone)[j] == k;
                    assert(rest[j - 1] == k);
                }
            }
            assert(messages@ =~= start.restrict(rest.to_set()));
            gone = gone + 1;
        }
    }
    proof {
        if gone > 0 {
            assert(count == CACHE_LIMIT);
        }
        assert(keys.skip(gone) =~= last_of(keys, CACHE_LIMIT as nat));
    }
}

/// The route that a group's history is on.
pub open spec fn history_route(group: Seq<char>) -> Seq<char> {
    if group == "global"@ || begins_with(group, "project:"@) {
        group
    } else {
        group_route(group)
    }
}

/// The routes that a history is read from: all that the agent reads, or of them
/// that of one group.
pub open spec fn history_routes_of(
    agent: Seq<char>,
    project: Seq<char>,
    groups: Seq<Seq<char>>,
    group: Option<Seq<char>>,
) -> Seq<Seq<char>> {
    match group {
        Some(name) => read_routes(agent, project, groups).filter(
            |route: Seq<char>| route == history_route(name),
        ),
        None => read_routes(agent, project, groups),
    }
}

/// Whether a history reads all documents of its routes: it looks for a thread. Else
/// it reads the newest minutes only.
pub fn reads_whole_route(thread: &Option<String>) -> (r: bool)
    ensures
        r == (thread is Some),
{
    thread.is_some()
}

/// The routes that a history is read from.
pub fn history_routes(agent: &Agent, groups: &Vec<String>, group: &Option<String>) -> (r: Vec<String>)
    ensures
        texts(r@) == history_routes_of(
            agent@.id,
            agent@.project,
            texts(groups@),
            crate::text::text_option(*group),
        ),
        forall|i: int| 0 <= i < r@.len() ==> is_route(#[trigger] r@[i]@),
{
    let routes: Vec<String> = reading_routes(agent.id.as_str(), agent.project.as_str(), groups);
    match group {
        None => routes,
        Some(name) => {
            let expected: String = if same_text(name.as_str(), "global") || strip_prefix(
                name.as_str(),
                "project:",
            ).is_some() {
                name.clone()
            } else {
                joined("group:", name.as_str())
            };
            let ghost all = texts(routes@);
            let ghost keep = |route: Seq<char>| route == history_route(name@);
            let mut out: Vec<String> = Vec::new();
            let mut i: usize = 0;
            proof {
                reveal_with_fuel(Seq::filter, 1);
                assert(all.take(0) =~= seq![]);
                assert(texts(out@) =~= all.take(0).filter(keep));
            }
            while i < routes.len()
                invariant
                    i <= routes@.len(),
                    all == texts(routes@),
                    expected@ == history_route(name@),
                    keep == (|route: Seq<char>| route == history_route(name@)),
                    texts(out@) == all.take(i as int).filter(keep),
                    forall|j: int| 0 <= j < routes@.len() ==> is_route(#[trigger] routes@[j]@),
                    forall|j: int| 0 <= j < out@.len() ==> is_route(#[trigger] out@[j]@),
                decreases routes@.len() - i,
            {
                let ghost had = texts(out@);
                proof {
                    reveal_with_fuel(Seq::filter, 2);
                    assert(all.take(i + 1).drop_last() =~= all.take(i as int));
                    assert(all.take(i + 1).last() == routes@[i as int]@);
                }
                if same_text(routes[i].as_str(), expected.as_str()) {
                    out.push(routes[i].clone());
                    assert(texts(out@) =~= had.push(all[i as int]));
                }
                i += 1;
            }
            assert(all.take(i as int) =~= all);
            out
        },
    }
}

/// What a reading of history has come to.
#[verifier::ext_equal]
pub struct HistoryView {
    pub messages: Map<Seq<char>, MessageView>,
    pub warnings: Seq<Seq<char>>,
}

/// What one document adds to a history.
pub open spec fn history_step(
    history: HistoryView,
    seen: SightingView,
    thread: Option<Seq<char>>,
    now: Moment,
) -> HistoryView {
    match accepted(seen) {
        Ok(message) => if !expired(message, now) && (thread is None || thread == Some(message.thread)) {
            HistoryView { messages: with_message(history.messages, message), ..history }
        } else {
            history
        },
        Err(words) => HistoryView {
            warnings: history.warnings.push(reading_warning(seen.path, words)),
            ..history
        },
    }
}

/// What documents add to a history, one after the other.
pub open spec fn history_read(
    seen: Seq<SightingView>,
    thread: Option<Seq<char>>,
    now: Moment,
) -> HistoryView
    decreases seen.len(),
{
    if seen.len() == 0 {
        HistoryView { messages: Map::empty(), warnings: seq![] }
    } else {
        history_step(history_read(seen.drop_last(), thread, now), seen.last(), thread, now)
    }
}

/// The last `limit` messages of a history in the order of their identifiers,
/// from the documents that were found on its [`history_routes`].
pub fn history(seen: &Vec<Sighting>, thread: &Option<String>, limit: usize, now: Moment) -> (r: Findings)
    ensures
        ({
            let end = history_read(views(seen@), crate::text::text_option(*thread), now);
            &&& views(r.messages@) == last_of(in_order(end.messages), limit as nat)
            &&& texts(r.warnings@) == end.warnings
        }),
{
    let ghost all = views(seen@);
    let ghost wanted = crate::text::text_option(*thread);
    let mut messages: TextMap<Message> = TextMap::new();
    let mut warnings: Vec<String> = Vec::new();
    let mut i: usize = 0;
    assert(all.take(0) =~= seq![]);
    assert(texts(warnings@) =~= seq![]);
    while i < seen.len()
        invariant
            i <= seen@.len(),
            all == views(seen@),
            wanted == crate::text::text_option(*thread),
            (HistoryView { messages: messages@, warnings: texts(warnings@) }) == history_read(
                all.take(i as int),
                wanted,
                now,
            ),
        decreases seen@.len() - i,
    {
        let ghost had = texts(warnings@);
        assert(all.take(i + 1).drop_last() =~= all.take(i as int));
        assert(all.take(i + 1).last() == seen@[i as int]@);
        match accept(&seen[i]) {
            Ok(message) => {
                let in_thread: bool = match thread {
                    Some(id) => same_text(message.thread.as_str(), id.as_str()),
                    None => true,
                };
                if !is_expired(message, now) && in_thread && !messages.contains(
                    message.id.as_str(),
                ) {
                    let copy: Message = message.clone();
                    messages.insert(message.id.clone(), copy);
                }
            },
            Err(error) => {
                warnings.push(warn_reading(seen[i].path.as_str(), error));
                assert(texts(warnings@) =~= had.push(reading_warning(seen@[i as int].path@, error@)));
            },
        }
        i += 1;
    }
    assert(all.take(i as int) =~= all);
    let list: Vec<Message> = messages_in_order(&messages);
    if list.len() > limit {
        let from: usize = list.len() - limit;
        let mut out: Vec<Message> = Vec::new();
        let mut k: usize = from;
        let ghost full = views(list@);
        assert(views(out@) =~= full.subrange(from as int, k as int));
        while k < list.len()
            invariant
                from <= k <= list@.len(),
                full == views(list@),
                views(out@) == full.subrange(from as int, k as int),
            decreases list@.len() - k,
        {
            let ghost had = views(out@);
            let copy: Message = list[k].clone();
            out.push(copy);
            assert(views(out@) =~= had.push(full[k as int]));
            assert(full.subrange(from as int, k + 1) =~= had.push(full[k as int]));
            k += 1;
        }
        assert(full.subrange(from as int, k as int) =~= full.skip(from as int));
        Findings { messages: out, warnings }
    } else {
        Findings { messages: list, warnings }
    }
}

/// What a migration has done: how many messages it moved and how many had been
/// moved before. What was there stays.
#[derive(Debug, PartialEq, Eq)]
pub struct MigrationReport {
    pub schema: String,
    pub migrated: usize,
    pub already_present: usize,
    pub retained_legacy: bool,
}

/// The report of a migration that has moved nothing yet.
pub fn migration_report() -> (r: MigrationReport)
    ensures
        r.schema@ == MIGRATION_SCHEMA@,
        r.migrated == 0,
        r.already_present == 0,
        r.retained_legacy,
{
    MigrationReport {
        schema: MIGRATION_SCHEMA.to_owned(),
        migrated: 0,
        already_present: 0,
        retained_legacy: true,
    }
}

/// Whether something stands at every path.
pub open spec fn all_there(stored: Seq<Option<Result<MessageView, Seq<char>>>>) -> bool {
    forall|i: int| 0 <= i < stored.len() ==> #[trigger] stored[i] is Some
}

/// Whether a publication is refused in no part: neither at a path nor in the index.
pub open spec fn is_complete(publication: Publication) -> bool {
    publication.outcome is Ok && !(publication.index matches Some(entry) && entry is Err)
}

/// Moves one message and counts it. `stored` is what stands at each of its
/// [`publication_paths`]. A message is not counted if it is refused, at a path or in
/// the index.
pub fn migrate_v1(
    report: &mut MigrationReport,
    root: &str,
    message: &Message,
    stored: &Vec<Option<Result<Message, String>>>,
) -> (r: Publication)
    requires
        old(report).migrated < usize::MAX,
        old(report).already_present < usize::MAX,
    ensures
        ({
            let there = all_found(stored@, locations(root@, message@).len());
            let moved: int = if is_complete(r) && !all_there(there) {
                1
            } else {
                0
            };
            let known: int = if is_complete(r) && all_there(there) {
                1
            } else {
                0
            };
            &&& is_publication(r, root@, message@, there)
            &&& final(report).schema == old(report).schema
            &&& final(report).retained_legacy == old(report).retained_legacy
            &&& final(report).migrated == old(report).migrated + moved
            &&& final(report).already_present == old(report).already_present + known
        }),
{
    let publication: Publication = publish(root, message, stored);
    let indexed: bool = match &publication.index {
        Some(entry) => entry.is_ok(),
        None => true,
    };
    if publication.outcome.is_ok() && indexed {
        if publication.writes.len() == 0 {
            report.already_present += 1;
        } else {
            report.migrated += 1;
        }
    }
    proof {
        let paths = locations(root@, message@);
        let there = all_found(stored@, paths.len());
        if publication.outcome is Ok {
            lemma_cleared_bound(there, message@);
            lemma_vacant_all_there(paths, there, paths.len());
            assert(texts(publication.writes@).len() == publication.writes@.len());
        }
    }
    publication
}

/// Nothing is to be written exactly where something stands at every path.
proof fn lemma_vacant_all_there(
    paths: Seq<Seq<char>>,
    stored: Seq<Option<Result<MessageView, Seq<char>>>>,
    count: nat,
)
    requires
        count <= stored.len(),
    ensures
        vacant(paths, stored, count).len() == 0 <==> forall|i: int|
            0 <= i < count ==> #[trigger] stored[i] is Some,
    decreases count,
{
    if count > 0 {
        lemma_vacant_all_there(paths, stored, (count - 1) as nat);
        assert(vacant(paths, stored, count).len() > 0 ==> stored[count - 1] is None || vacant(
            paths,
            stored,
            (count - 1) as nat,
        ).len() > 0);
    }
}

/// Where the report of a migration is stored.
pub fn report_path(root: &str) -> (r: String)
    ensures
        exists|id: Seq<char>|
            #[trigger] is_canonical(id) && r@ == child(
                child(root@, "v2/migrations"@),
                id + DOCUMENT_SUFFIX@,
            ),
{
    let id: String = unordered_id();
    let r: String = child_path(
        child_path(root, "v2/migrations").as_str(),
        joined(id.as_str(), DOCUMENT_SUFFIX).as_str(),
    );
    assert(is_canonical(id@));
    r
}

/// The identifier that a document is named by, in its canonical form.
pub open spec fn document_identity(path: Seq<char>) -> Option<Seq<char>> {
    match document_title(path) {
        Some(title) => if is_ulid(title) {
            Some(ulid_encoding(ulid_decoding(title)->Ok_0))
        } else {
            None
        },
        None => None,
    }
}

/// The files that paths of the index stand for, up to the first that is
/// refused, and why it is.
pub open spec fn resolved(root: Seq<char>, paths: Seq<Seq<char>>, id: Seq<char>) -> (
    Seq<Seq<char>>,
    Option<Seq<char>>,
)
    decreases paths.len(),
{
    if paths.len() == 0 {
        (seq![], None)
    } else {
        let before = resolved(root, paths.drop_last(), id);
        if before.1 is Some {
            before
        } else {
            match expiry_target(root, paths.last(), id) {
                Ok(target) => (before.0.push(target), None),
                Err(words) => (before.0, Some(words)),
            }
        }
    }
}

/// What happens to an entry of the expiry index.
#[verifier::ext_equal]
pub enum DueView {
    /// It stays.
    Leave,
    /// The collection fails.
    Refuse(Seq<char>),
    /// These files go; then the entry itself, unless there is a failure.
    Remove(Seq<Seq<char>>, Option<Seq<char>>),
}

/// What happens to an entry of the expiry index. One that cannot be read stays.
pub open spec fn due_decision(
    root: Seq<char>,
    path: Seq<char>,
    content: Result<ExpiryView, Seq<char>>,
    now: Moment,
) -> DueView {
    match content {
        Err(_) => DueView::Leave,
        Ok(entry) => if entry.schema != EXPIRY_SCHEMA@ || document_identity(path) != Some(entry.message) {
            DueView::Refuse("expiry index path does not agree with its message identity"@)
        } else {
            match rfc3339_reading(entry.expires_at) {
                Err(words) => DueView::Refuse(words),
                Ok(time) => if no_later(Moment { seconds: time.0, nanos: time.1 }, now) {
                    let found = resolved(root, entry.paths, entry.message);
                    DueView::Remove(found.0, found.1)
                } else {
                    DueView::Leave
                },
            }
        },
    }
}

/// What happens to an entry of the expiry index.
pub enum Due {
    /// It stays.
    Leave,
    /// The collection fails.
    Refuse(BoardError),
    /// These files go; then the entry itself, unless there is a failure.
    Remove(Vec<String>, Option<BoardError>),
}

/// The words of a failure, if there is one.
pub open spec fn failure_words(failure: Option<BoardError>) -> Option<Seq<char>> {
    match failure {
        Some(error) => Some(error@),
        None => None,
    }
}

impl View for Due {
    type V = DueView;

    open spec fn view(&self) -> DueView {
        match *self {
            Due::Leave => DueView::Leave,
            Due::Refuse(error) => DueView::Refuse(error@),
            Due::Remove(targets, failure) => DueView::Remove(texts(targets@), failure_words(failure)),
        }
    }
}

fn resolve_all(root: &str, paths: &Vec<String>, id: &str) -> (r: (Vec<String>, Option<BoardError>))
    ensures
        (texts(r.0@), failure_words(r.1)) == resolved(root@, texts(paths@), id@),
{
    let ghost all = texts(paths@);
    let mut out: Vec<String> = Vec::new();
    let mut i: usize = 0;
    assert(all.take(0) =~= seq![]);
    assert(texts(out@) =~= seq![]);
    while i < paths.len()
        invariant
            i <= paths@.len(),
            all == texts(paths@),
            resolved(root@, all.take(i as int), id@) == (texts(out@), None::<Seq<char>>),
        decreases paths@.len() - i,
    {
        let ghost had = texts(out@);
        assert(all.take(i + 1).drop_last() =~= all.take(i as int));
        assert(all.take(i + 1).last() == paths@[i as int]@);
        match resolve_expiry_target(root, paths[i].as_str(), id) {
            Ok(target) => {
                let ghost added = target@;
                out.push(target);
                assert(texts(out@) =~= had.push(added));
            },
            Err(error) => {
                proof {
                    lemma_resolved_stops(root@, all, id@, i + 1);
                }
                return (out, Some(error));
            },
        }
        i += 1;
    }
    assert(all.take(i as int) =~= all);
    (out, None)
}

proof fn lemma_resolved_stops(root: Seq<char>, paths: Seq<Seq<char>>, id: Seq<char>, at: int)
    requires
        0 <= at <= paths.len(),
        resolved(root, paths.take(at), id).1 is Some,
    ensures
        resolved(root, paths, id) == resolved(root, paths.take(at), id),
    decreases paths.len() - at,
{
    if at == paths.len() {
        assert(paths.take(at) =~= paths);
    } else {
        assert(paths.take(at + 1).drop_last() =~= paths.take(at));
        lemma_resolved_stops(root, paths, id, at + 1);
    }
}

/// Decides on an entry of the expiry index, which was read from `path`.
pub fn collect_expired(root: &str, path: &str, content: &Result<Expiry, String>, now: Moment) -> (r: Due)
    ensures
        r@ == due_decision(root@, path@, content_of(*content), now),
{
    let entry: &Expiry = match content {
        Ok(entry) => entry,
        Err(_) => {
            return Due::Leave;
        },
    };
    let named: bool = match document_id(path) {
        Some(value) => same_text(ulid_text(value).as_str(), entry.message.as_str()),
        None => false,
    };
    if !same_text(entry.schema.as_str(), EXPIRY_SCHEMA) || !named {
        return Due::Refuse(failure("expiry index path does not agree with its message identity"));
    }
    match read_moment(entry.expires_at.as_str()) {
        Err(error) => Due::Refuse(failure(error.as_str())),
        Ok(time) => {
            if is_no_later(time, now) {
                let (targets, failed) = resolve_all(root, &entry.paths, entry.message.as_str());
                Due::Remove(targets, failed)
            } else {
                Due::Leave
            }
        },
    }
}

/// The directories that may have become empty once an entry of the index is
/// gone, from its own up to the root of the index, which stays.
pub fn prune_empty_expiry_ancestors(start: &str, root: &str) -> (r: Vec<String>)
    ensures
        ({
            let all = ancestors(start@);
            &&& r@.len() <= all.len()
            &&& texts(r@) == all.take(r@.len() as int)
            &&& forall|i: int|
                0 <= i < r@.len() ==> components(#[trigger] all[i]) != components(root@)
            &&& r@.len() < all.len() ==> components(all[r@.len() as int]) == components(root@)
        }),
{
    let list: Vec<String> = path_ancestors(start);
    let ghost all = ancestors(start@);
    let mut out: Vec<String> = Vec::new();
    let mut i: usize = 0;
    assert(texts(out@) =~= all.take(0));
    while i < list.len() && !same_path(list[i].as_str(), root)
        invariant
            i <= list@.len(),
            all == texts(list@),
            out@.len() == i,
            texts(out@) == all.take(i as int),
            forall|j: int| 0 <= j < i ==> components(#[trigger] all[j]) != components(root@),
        decreases list@.len() - i,
    {
        let ghost had = texts(out@);
        assert(all[i as int] == list@[i as int]@);
        out.push(list[i].clone());
        assert(texts(out@) =~= had.push(all[i as int]));
        assert(all.take(i + 1) =~= had.push(all[i as int]));
        i += 1;
    }
    proof {
        if i < list@.len() {
            assert(all[i as int] == list@[i as int]@);
        }
    }
    out
}

} // verus!
