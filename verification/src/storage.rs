//! Agents, groups, presence and messages of a board.
use crate::clock::{
    age_in_seconds, current_moment, is_timestamp, no_later, on_clock, read_moment, rfc3339_millis,
    rfc3339_reading, timestamp, whole_seconds, write_moment, Moment,
};
use crate::collections::{
    ascending, contains_text, in_order, insert_ascending, lemma_listing, lemma_take_set, listing,
    pairs, sort_texts, sorted_list, PairSet, TextMap, TextSet,
};
use crate::error::{failure, failure_around, failure_with, fault, BoardError};
use crate::frame::{decode_document, encode_document, zstd_content, zstd_frame};
use crate::model::{
    Agent, AgentStatus, AgentStatusView, AgentView, Group, GroupView, Membership, MembershipView,
    Message, MessageView, Presence, PresenceView, AGENT_SCHEMA, GROUP_SCHEMA, MEMBERSHIP_SCHEMA,
    MESSAGE_SCHEMA, PRESENCE_SCHEMA,
};
use crate::path::{child, child_path, file_name, last_name, parent, parent_path, paths_sorted};
use crate::routed::{
    expired, newest, no_routes, project_route, reading_warning, remove_all, trim_cache,
    warn_reading, Findings, RoutedState, RoutedView, CACHE_LIMIT,
};
use crate::text::{
    chars_of, comes_before, copy_texts, ends_with, hex_digits, hex_text, joined, joined3, precedes,
    same_text, strip_suffix, text_option, texts, views,
};
use crate::ulids::{is_alphanumeric, is_next_id, parse_ulid, random_number, ulid_decoding, IdSource};
use crate::walk::{is_document, prune, Entry, EntryView, Pruning};
use vstd::prelude::*;

verus! {

/// How the names of documents end.
pub const DOCUMENT_SUFFIX: &'static str = ".json.zst";

/// A capital ASCII letter becomes a small one.
pub open spec fn lower(c: char) -> char {
    if 'A' <= c && c <= 'Z' {
        (c as u8 + 32) as char
    } else {
        c
    }
}

/// The letters and digits of a session, in lower case.
pub open spec fn session_key(session: Seq<char>) -> Seq<char> {
    session.filter(|c: char| is_alphanumeric(c)).map_values(|c: char| lower(c))
}

/// The letters and digits of a session, in lower case; there must be one.
pub fn normalize_session(session: &str) -> (r: Result<String, BoardError>)
    ensures
        match r {
            Ok(key) => key@ == session_key(session@) && key@.len() > 0,
            Err(e) => session_key(session@).len() == 0 && e@
                == "session ID must contain an ASCII letter or number"@,
        },
{
    let chars: Vec<char> = chars_of(session);
    let mut out: String = String::new();
    let mut found: bool = false;
    let mut i: usize = 0;
    let ghost keep = |c: char| is_alphanumeric(c);
    proof {
        reveal_with_fuel(Seq::filter, 1);
        assert(session@.take(0) =~= seq![]);
        assert(out@ =~= session_key(session@.take(0)));
    }
    while i < chars.len()
        invariant
            chars@ == session@,
            i <= chars@.len(),
            out@ == session_key(session@.take(i as int)),
            found == (out@.len() > 0),
        decreases chars@.len() - i,
    {
        let c: char = chars[i];
        proof {
            lemma_session_key_step(session@, i as int);
        }
        if ('a' <= c && c <= 'z') || ('A' <= c && c <= 'Z') || ('0' <= c && c <= '9') {
            out.push(lower_case(c));
            found = true;
        }
        i += 1;
    }
    assert(session@.take(i as int) =~= session@);
    if !found {
        return Err(failure("session ID must contain an ASCII letter or number"));
    }
    Ok(out)
}

proof fn lemma_session_key_step(session: Seq<char>, i: int)
    requires
        0 <= i < session.len(),
    ensures
        session_key(session.take(i + 1)) == if is_alphanumeric(session[i]) {
            session_key(session.take(i)).push(lower(session[i]))
        } else {
            session_key(session.take(i))
        },
{
    reveal_with_fuel(Seq::filter, 2);
    let keep = |c: char| is_alphanumeric(c);
    assert(session.take(i + 1).drop_last() =~= session.take(i));
    assert(session.take(i + 1).last() == session[i]);
    let before = session.take(i).filter(keep);
    assert(session.take(i + 1).filter(keep) == if is_alphanumeric(session[i]) {
        before.push(session[i])
    } else {
        before
    });
    assert(session_key(session.take(i + 1)) =~= if is_alphanumeric(session[i]) {
        session_key(session.take(i)).push(lower(session[i]))
    } else {
        session_key(session.take(i))
    });
}

/// A capital ASCII letter becomes a small one.
pub fn lower_case(c: char) -> (r: char)
    ensures
        r == lower(c),
{
    if 'A' <= c && c <= 'Z' {
        ((c as u8) + 32) as char
    } else {
        c
    }
}

/// A character of project and group names.
pub open spec fn is_slug_char(c: char) -> bool {
    ('a' <= c && c <= 'z') || ('0' <= c && c <= '9') || c == '-' || c == '_'
}

/// A project or group name.
pub open spec fn is_slug(value: Seq<char>) -> bool {
    value.len() > 0 && forall|i: int| 0 <= i < value.len() ==> is_slug_char(#[trigger] value[i])
}

/// Accepts project and group names only.
pub fn validate_slug(value: &str, kind: &str) -> (r: Result<(), BoardError>)
    ensures
        match r {
            Ok(()) => is_slug(value@),
            Err(e) => !is_slug(value@) && e@ == slug_refusal(kind@),
        },
{
    let chars: Vec<char> = chars_of(value);
    let mut good: bool = chars.len() > 0;
    let mut i: usize = 0;
    while i < chars.len()
        invariant
            chars@ == value@,
            i <= chars@.len(),
            good == (chars@.len() > 0 && forall|j: int|
                0 <= j < i ==> is_slug_char(#[trigger] value@[j])),
        decreases chars@.len() - i,
    {
        let c: char = chars[i];
        if !(('a' <= c && c <= 'z') || ('0' <= c && c <= '9') || c == '-' || c == '_') {
            good = false;
        }
        i += 1;
    }
    if good {
        Ok(())
    } else {
        Err(failure_with(kind, " must contain only lowercase ASCII letters, numbers, '-' or '_'"))
    }
}

/// The words that refuse a name.
pub open spec fn slug_refusal(kind: Seq<char>) -> Seq<char> {
    kind + " must contain only lowercase ASCII letters, numbers, '-' or '_'"@
}

/// A document with its place on the board. A new one has still to be stored.
pub struct Placed<T> {
    pub document: T,
    pub path: String,
    pub is_new: bool,
}

/// A document and where it is to be stored.
pub struct Filed<T> {
    pub document: T,
    pub path: String,
}

/// What was found at a document's path: nothing, a document, or one that
/// cannot be read and why.
pub open spec fn found<T: View>(stored: Option<Result<T, String>>) -> Option<Result<T::V, Seq<char>>> {
    match stored {
        None => None,
        Some(Ok(document)) => Some(Ok(document@)),
        Some(Err(error)) => Some(Err(error@)),
    }
}

/// A document that was read, or why it could not be.
pub open spec fn content_of<T: View>(content: Result<T, String>) -> Result<T::V, Seq<char>> {
    match content {
        Ok(document) => Ok(document@),
        Err(error) => Err(error@),
    }
}

/// The identity of an agent.
pub open spec fn agent_identity(project: Seq<char>, key: Seq<char>) -> Seq<char> {
    project + "-"@ + key
}

/// Where an agent is registered.
pub open spec fn agent_path(version_root: Seq<char>, project: Seq<char>, key: Seq<char>) -> Seq<char> {
    child(
        child(child(version_root, "agents"@), project),
        key + DOCUMENT_SUFFIX@,
    )
}

/// Why a registration does not belong at its path, if it does not.
pub open spec fn agent_fault(agent: AgentView, project: Seq<char>, key: Seq<char>) -> Option<Seq<char>> {
    if agent.schema != AGENT_SCHEMA@ {
        Some("unsupported agent schema '"@ + agent.schema + "'"@)
    } else if agent.project == project && session_key(agent.session_id).len() == 0 {
        Some("session ID must contain an ASCII letter or number"@)
    } else if agent.project != project || session_key(agent.session_id) != key {
        Some("agent path does not agree with document identity"@)
    } else if agent.id != agent_identity(project, key) {
        Some("agent ID does not agree with project and session"@)
    } else {
        None
    }
}

/// Checks that a registration belongs at its path.
pub fn validate_agent(agent: &Agent, project: &str, session_key: &str) -> (r: Result<(), BoardError>)
    ensures
        fault(r) == agent_fault(agent@, project@, session_key@),
{
    if !same_text(agent.schema.as_str(), AGENT_SCHEMA) {
        return Err(failure_around("unsupported agent schema '", agent.schema.as_str(), "'"));
    }
    if !same_text(agent.project.as_str(), project) {
        return Err(failure("agent path does not agree with document identity"));
    }
    let key: String = match normalize_session(agent.session_id.as_str()) {
        Ok(key) => key,
        Err(error) => {
            return Err(error);
        },
    };
    if !same_text(key.as_str(), session_key) {
        return Err(failure("agent path does not agree with document identity"));
    }
    let id: String = joined3(project, "-", session_key);
    if !same_text(agent.id.as_str(), id.as_str()) {
        return Err(failure("agent ID does not agree with project and session"));
    }
    Ok(())
}

/// Why a conversation cannot be registered, if it cannot.
pub open spec fn registration_fault(
    project: Seq<char>,
    session_id: Seq<char>,
    stored: Option<Result<AgentView, Seq<char>>>,
) -> Option<Seq<char>> {
    if !is_slug(project) {
        Some(slug_refusal("project"@))
    } else if session_key(session_id).len() == 0 {
        Some("session ID must contain an ASCII letter or number"@)
    } else {
        match stored {
            None => None,
            Some(Err(error)) => Some(error),
            Some(Ok(agent)) => if agent_fault(agent, project, session_key(session_id)) is Some {
                agent_fault(agent, project, session_key(session_id))
            } else if agent.session_id != session_id {
                Some("agent registration conflicts with an existing normalized session ID"@)
            } else {
                None
            },
        }
    }
}

/// Where the registration of a conversation stands.
pub fn agent_document(version_root: &str, project: &str, session_id: &str) -> (r: Result<
    String,
    BoardError,
>)
    ensures
        fault(r) == registration_fault(project@, session_id@, None),
        r matches Ok(path) ==> path@ == agent_path(version_root@, project@, session_key(session_id@)),
{
    match validate_slug(project, "project") {
        Ok(()) => {},
        Err(error) => {
            return Err(error);
        },
    }
    let key: String = match normalize_session(session_id) {
        Ok(key) => key,
        Err(error) => {
            return Err(error);
        },
    };
    let folder: String = child_path(child_path(version_root, "agents").as_str(), project);
    let name: String = joined(key.as_str(), DOCUMENT_SUFFIX);
    Ok(child_path(folder.as_str(), name.as_str()))
}

/// The registration of a conversation.
pub open spec fn registration(
    project: Seq<char>,
    session_id: Seq<char>,
    platform: Seq<char>,
    project_path: Seq<char>,
    registered_at: Seq<char>,
) -> AgentView {
    AgentView {
        schema: AGENT_SCHEMA@,
        id: agent_identity(project, session_key(session_id)),
        project,
        session_id,
        platform,
        path: project_path,
        registered_at,
    }
}

/// Registers a conversation. `stored` is what stands at its
/// [`agent_document`]; an earlier registration of the conversation is kept as
/// it is.
pub fn register_agent(
    version_root: &str,
    project: &str,
    session_id: &str,
    platform: &str,
    project_path: &str,
    stored: Option<Result<Agent, String>>,
) -> (r: Result<Placed<Agent>, BoardError>)
    ensures
        fault(r) == registration_fault(project@, session_id@, found(stored)),
        r matches Ok(placed) ==> {
            &&& placed.path@ == agent_path(version_root@, project@, session_key(session_id@))
            &&& placed.is_new == (stored is None)
            &&& match found(stored) {
                Some(Ok(agent)) => placed.document@ == agent,
                _ => is_timestamp(placed.document@.registered_at) && placed.document@
                    == registration(
                    project@,
                    session_id@,
                    platform@,
                    project_path@,
                    placed.document@.registered_at,
                ),
            }
        },
{
    let path: String = match agent_document(version_root, project, session_id) {
        Ok(path) => path,
        Err(error) => {
            return Err(error);
        },
    };
    let key: String = match normalize_session(session_id) {
        Ok(key) => key,
        Err(error) => {
            return Err(error);
        },
    };
    match stored {
        Some(Err(error)) => Err(failure(error.as_str())),
        Some(Ok(existing)) => {
            match validate_agent(&existing, project, key.as_str()) {
                Ok(()) => {},
                Err(error) => {
                    return Err(error);
                },
            }
            if !same_text(existing.session_id.as_str(), session_id) {
                return Err(
                    failure(
                        "agent registration conflicts with an existing normalized session ID",
                    ),
                );
            }
            Ok(Placed { document: existing, path, is_new: false })
        },
        None => {
            let agent = Agent {
                schema: AGENT_SCHEMA.to_owned(),
                id: joined3(project, "-", key.as_str()),
                project: project.to_owned(),
                session_id: session_id.to_owned(),
                platform: platform.to_owned(),
                path: project_path.to_owned(),
                registered_at: timestamp(),
            };
            Ok(Placed { document: agent, path, is_new: true })
        },
    }
}

/// The directory of a group.
pub open spec fn group_folder(version_root: Seq<char>, name: Seq<char>) -> Seq<char> {
    child(child(version_root, "groups"@), name)
}

/// Where a group is described.
pub open spec fn group_path(version_root: Seq<char>, name: Seq<char>) -> Seq<char> {
    child(group_folder(version_root, name), "group"@ + DOCUMENT_SUFFIX@)
}

/// Where an agent's place in a group is recorded.
pub open spec fn membership_path(
    version_root: Seq<char>,
    name: Seq<char>,
    agent: Seq<char>,
) -> Seq<char> {
    child(child(group_folder(version_root, name), "members"@), agent + DOCUMENT_SUFFIX@)
}

/// Why a group does not belong at its path, if it does not.
pub open spec fn group_fault(group: GroupView, name: Seq<char>) -> Option<Seq<char>> {
    if group.schema == GROUP_SCHEMA@ && group.name == name {
        None
    } else {
        Some("group path does not agree with document identity"@)
    }
}

/// Checks that a group belongs at its path.
pub fn validate_group(group: &Group, name: &str) -> (r: Result<(), BoardError>)
    ensures
        fault(r) == group_fault(group@, name@),
{
    if same_text(group.schema.as_str(), GROUP_SCHEMA) && same_text(group.name.as_str(), name) {
        Ok(())
    } else {
        Err(failure("group path does not agree with document identity"))
    }
}

/// Why a membership does not belong at its path, if it does not.
pub open spec fn membership_fault(
    membership: MembershipView,
    group: Seq<char>,
    agent: Seq<char>,
) -> Option<Seq<char>> {
    if membership.schema == MEMBERSHIP_SCHEMA@ && membership.group == group && membership.agent
        == agent {
        None
    } else {
        Some("membership path does not agree with document identity"@)
    }
}

/// Checks that a membership belongs at its path.
pub fn validate_membership(membership: &Membership, group: &str, agent: &str) -> (r: Result<
    (),
    BoardError,
>)
    ensures
        fault(r) == membership_fault(membership@, group@, agent@),
{
    if same_text(membership.schema.as_str(), MEMBERSHIP_SCHEMA) && same_text(
        membership.group.as_str(),
        group,
    ) && same_text(membership.agent.as_str(), agent) {
        Ok(())
    } else {
        Err(failure("membership path does not agree with document identity"))
    }
}

/// Where a group is described.
pub fn group_document(version_root: &str, name: &str) -> (r: String)
    ensures
        r@ == group_path(version_root@, name@),
{
    let folder: String = child_path(child_path(version_root, "groups").as_str(), name);
    child_path(folder.as_str(), joined("group", DOCUMENT_SUFFIX).as_str())
}

/// Where an agent's place in a group is recorded.
pub fn membership_document(version_root: &str, name: &str, agent_id: &str) -> (r: String)
    ensures
        r@ == membership_path(version_root@, name@, agent_id@),
{
    let folder: String = child_path(child_path(version_root, "groups").as_str(), name);
    let members: String = child_path(folder.as_str(), "members");
    child_path(members.as_str(), joined(agent_id, DOCUMENT_SUFFIX).as_str())
}

/// Why a group cannot be created, if it cannot.
pub open spec fn creation_fault(
    name: Seq<char>,
    stored: Option<Result<GroupView, Seq<char>>>,
) -> Option<Seq<char>> {
    if !is_slug(name) {
        Some(slug_refusal("group"@))
    } else if name == "global"@ {
        Some("global is a built-in group"@)
    } else {
        match stored {
            None => None,
            Some(Err(error)) => Some(error),
            Some(Ok(group)) => group_fault(group, name),
        }
    }
}

/// Creates a group. `stored` is what stands at its [`group_document`]; a group
/// that is there already is kept as it is.
pub fn create_group(
    version_root: &str,
    name: &str,
    agent_id: &str,
    stored: Option<Result<Group, String>>,
) -> (r: Result<Placed<Group>, BoardError>)
    ensures
        fault(r) == creation_fault(name@, found(stored)),
        r matches Ok(placed) ==> {
            &&& placed.path@ == group_path(version_root@, name@)
            &&& placed.is_new == (stored is None)
            &&& match found(stored) {
                Some(Ok(group)) => placed.document@ == group,
                _ => is_timestamp(placed.document@.created_at) && placed.document@ == (GroupView {
                    schema: GROUP_SCHEMA@,
                    name: name@,
                    created_by: agent_id@,
                    created_at: placed.document@.created_at,
                }),
            }
        },
{
    match validate_slug(name, "group") {
        Ok(()) => {},
        Err(error) => {
            return Err(error);
        },
    }
    if same_text(name, "global") {
        return Err(failure("global is a built-in group"));
    }
    let path: String = group_document(version_root, name);
    match stored {
        Some(Err(error)) => Err(failure(error.as_str())),
        Some(Ok(existing)) => match validate_group(&existing, name) {
            Ok(()) => Ok(Placed { document: existing, path, is_new: false }),
            Err(error) => Err(error),
        },
        None => {
            let group = Group {
                schema: GROUP_SCHEMA.to_owned(),
                name: name.to_owned(),
                created_by: agent_id.to_owned(),
                created_at: timestamp(),
            };
            Ok(Placed { document: group, path, is_new: true })
        },
    }
}

/// Why an agent cannot join a group, if it cannot.
pub open spec fn joining_fault(
    name: Seq<char>,
    agent_id: Seq<char>,
    group_exists: bool,
    stored: Option<Result<MembershipView, Seq<char>>>,
) -> Option<Seq<char>> {
    if !is_slug(name) {
        Some(slug_refusal("group"@))
    } else if !group_exists {
        Some("unknown group '"@ + name + "'"@)
    } else {
        match stored {
            None => None,
            Some(Err(error)) => Some(error),
            Some(Ok(membership)) => membership_fault(membership, name, agent_id),
        }
    }
}

/// Joins a group. `group_exists` says whether its [`group_document`] is there
/// and `stored` is what stands at the [`membership_document`]; an agent that
/// has joined already stays a member as it is.
pub fn join_group(
    version_root: &str,
    name: &str,
    agent_id: &str,
    group_exists: bool,
    stored: Option<Result<Membership, String>>,
) -> (r: Result<Placed<Membership>, BoardError>)
    ensures
        fault(r) == joining_fault(name@, agent_id@, group_exists, found(stored)),
        r matches Ok(placed) ==> {
            &&& placed.path@ == membership_path(version_root@, name@, agent_id@)
            &&& placed.is_new == (stored is None)
            &&& match found(stored) {
                Some(Ok(membership)) => placed.document@ == membership,
                _ => is_timestamp(placed.document@.joined_at) && placed.document@ == (MembershipView {
                    schema: MEMBERSHIP_SCHEMA@,
                    group: name@,
                    agent: agent_id@,
                    joined_at: placed.document@.joined_at,
                }),
            }
        },
{
    match validate_slug(name, "group") {
        Ok(()) => {},
        Err(error) => {
            return Err(error);
        },
    }
    if !group_exists {
        return Err(failure_around("unknown group '", name, "'"));
    }
    let path: String = membership_document(version_root, name, agent_id);
    match stored {
        Some(Err(error)) => Err(failure(error.as_str())),
        Some(Ok(existing)) => match validate_membership(&existing, name, agent_id) {
            Ok(()) => Ok(Placed { document: existing, path, is_new: false }),
            Err(error) => Err(error),
        },
        None => {
            let membership = Membership {
                schema: MEMBERSHIP_SCHEMA.to_owned(),
                group: name.to_owned(),
                agent: agent_id.to_owned(),
                joined_at: timestamp(),
            };
            Ok(Placed { document: membership, path, is_new: true })
        },
    }
}

/// The name of a document, without its suffix.
pub open spec fn document_title(path: Seq<char>) -> Option<Seq<char>> {
    match last_name(path) {
        Some(name) => if ends_with(name, DOCUMENT_SUFFIX@) {
            Some(name.take(name.len() - DOCUMENT_SUFFIX@.len()))
        } else {
            None
        },
        None => None,
    }
}

/// The name of a document, without its suffix.
pub fn document_name(path: &str) -> (r: Option<String>)
    ensures
        crate::text::text_option(r) == document_title(path@),
{
    match file_name(path) {
        Some(name) => strip_suffix(name.as_str(), DOCUMENT_SUFFIX),
        None => None,
    }
}

/// The directory of the board's first version.
pub open spec fn version_root_of(root: Seq<char>) -> Seq<char> {
    child(root, "v1"@)
}

/// A board's directories, and the one that holds its agents and groups.
pub struct Layout {
    pub version_root: String,
    pub directories: Vec<String>,
}

/// The directories that a board needs for its agents, groups, old messages and
/// presence.
pub fn ensure_layout(root: &str) -> (r: Layout)
    ensures
        r.version_root@ == version_root_of(root@),
        texts(r.directories@) == seq![
            child(version_root_of(root@), "agents"@),
            child(version_root_of(root@), "groups"@),
            child(version_root_of(root@), "messages"@),
            child(version_root_of(root@), "presence"@),
        ],
{
    let version_root: String = child_path(root, "v1");
    let mut directories: Vec<String> = Vec::new();
    directories.push(child_path(version_root.as_str(), "agents"));
    directories.push(child_path(version_root.as_str(), "groups"));
    directories.push(child_path(version_root.as_str(), "messages"));
    directories.push(child_path(version_root.as_str(), "presence"));
    assert(texts(directories@) =~= seq![
        child(version_root_of(root@), "agents"@),
        child(version_root_of(root@), "groups"@),
        child(version_root_of(root@), "messages"@),
        child(version_root_of(root@), "presence"@),
    ]);
    Layout { version_root, directories }
}

/// Why a message does not belong at its path, if it does not.
pub open spec fn message_fault(message: MessageView, id: Seq<char>) -> Option<Seq<char>> {
    if message.schema != MESSAGE_SCHEMA@ || message.id != id {
        Some("message path does not agree with document identity"@)
    } else {
        match ulid_decoding(message.id) {
            Err(words) => Some("invalid message ULID: "@ + words),
            Ok(_) => if (message.to.len() == 0) == (message.group is None) {
                Some("message must target direct recipients or one group"@)
            } else {
                None
            },
        }
    }
}

/// Checks that a message belongs at its path and has one kind of target.
pub fn validate_message(message: &Message, id: &str) -> (r: Result<(), BoardError>)
    ensures
        fault(r) == message_fault(message@, id@),
{
    if !same_text(message.schema.as_str(), MESSAGE_SCHEMA) || !same_text(message.id.as_str(), id) {
        return Err(failure("message path does not agree with document identity"));
    }
    match parse_ulid(message.id.as_str()) {
        Ok(_) => {},
        Err(error) => {
            return Err(failure_with("invalid message ULID: ", error.as_str()));
        },
    }
    if (message.to.len() == 0) == message.group.is_none() {
        return Err(failure("message must target direct recipients or one group"));
    }
    Ok(())
}

/// Why a presence document does not belong at its path, if it does not.
pub open spec fn presence_fault(presence: PresenceView, id: Seq<char>, agent: Seq<char>) -> Option<
    Seq<char>,
> {
    if presence.schema != PRESENCE_SCHEMA@ || presence.id != id || presence.agent != agent {
        Some("presence path does not agree with document identity"@)
    } else {
        match ulid_decoding(presence.id) {
            Err(words) => Some("invalid presence ULID: "@ + words),
            Ok(_) => match rfc3339_reading(presence.last_seen) {
                Err(words) => Some("invalid presence timestamp: "@ + words),
                Ok(_) => None,
            },
        }
    }
}

/// Checks that a presence document belongs at its path.
pub fn validate_presence(presence: &Presence, id: &str, agent_id: &str) -> (r: Result<(), BoardError>)
    ensures
        fault(r) == presence_fault(presence@, id@, agent_id@),
{
    if !same_text(presence.schema.as_str(), PRESENCE_SCHEMA) || !same_text(presence.id.as_str(), id)
        || !same_text(presence.agent.as_str(), agent_id) {
        return Err(failure("presence path does not agree with document identity"));
    }
    match parse_ulid(presence.id.as_str()) {
        Ok(_) => {},
        Err(error) => {
            return Err(failure_with("invalid presence ULID: ", error.as_str()));
        },
    }
    match read_moment(presence.last_seen.as_str()) {
        Ok(_) => Ok(()),
        Err(error) => Err(failure_with("invalid presence timestamp: ", error.as_str())),
    }
}

/// The directory of an agent's signs of life.
pub open spec fn presence_folder(version_root: Seq<char>, agent: Seq<char>) -> Seq<char> {
    child(child(version_root, "presence"@), agent)
}

/// The directory of an agent's signs of life.
pub fn presence_directory(version_root: &str, agent_id: &str) -> (r: String)
    ensures
        r@ == presence_folder(version_root@, agent_id@),
{
    child_path(child_path(version_root, "presence").as_str(), agent_id)
}

/// A new sign of life of an agent, with its place.
pub fn touch_presence(ids: &mut IdSource, version_root: &str, agent_id: &str) -> (r: Filed<Presence>)
    ensures
        is_next_id(r.document@.id, *old(ids), *final(ids)),
        is_timestamp(r.document@.last_seen),
        r.document@ == (PresenceView {
            schema: PRESENCE_SCHEMA@,
            id: r.document@.id,
            agent: agent_id@,
            last_seen: r.document@.last_seen,
        }),
        r.path@ == child(
            presence_folder(version_root@, agent_id@),
            r.document@.id + DOCUMENT_SUFFIX@,
        ),
{
    let id: String = ids.next_id();
    let directory: String = presence_directory(version_root, agent_id);
    let path: String = child_path(
        directory.as_str(),
        joined(id.as_str(), DOCUMENT_SUFFIX).as_str(),
    );
    let document = Presence {
        schema: PRESENCE_SCHEMA.to_owned(),
        id,
        agent: agent_id.to_owned(),
        last_seen: timestamp(),
    };
    Filed { document, path }
}

/// The paths of entries with the names of documents.
pub open spec fn named_documents(entries: Seq<EntryView>) -> Seq<Seq<char>>
    decreases entries.len(),
{
    if entries.len() == 0 {
        seq![]
    } else {
        let before = named_documents(entries.drop_last());
        if is_document(entries.last().path) {
            before.push(entries.last().path)
        } else {
            before
        }
    }
}

/// Parts the documents of a directory: all but the last `retain` go.
pub fn prune_presence(entries: &Vec<Entry>, retain: usize) -> (r: Pruning)
    ensures
        ({
            let all = named_documents(views(entries@));
            &&& paths_sorted(texts(r.removed@) + texts(r.kept@))
            &&& (texts(r.removed@) + texts(r.kept@)).to_multiset() == all.to_multiset()
            &&& r.kept@.len() == if all.len() < retain {
                all.len() as int
            } else {
                retain as int
            }
        }),
{
    let mut named: Vec<String> = Vec::new();
    let ghost all = views(entries@);
    let mut i: usize = 0;
    assert(all.take(0) =~= seq![]);
    assert(texts(named@) =~= seq![]);
    while i < entries.len()
        invariant
            i <= entries@.len(),
            all == views(entries@),
            texts(named@) == named_documents(all.take(i as int)),
        decreases entries@.len() - i,
    {
        let ghost had = texts(named@);
        assert(all.take(i + 1).drop_last() =~= all.take(i as int));
        assert(all.take(i + 1).last() == entries@[i as int]@);
        if document_name(entries[i].path.as_str()).is_some() {
            named.push(entries[i].path.clone());
            assert(texts(named@) =~= had.push(entries@[i as int].path@));
        }
        i += 1;
    }
    assert(all.take(i as int) =~= all);
    prune(&named, retain)
}

/// What a process knows of a board.
pub struct BoardState {
    pub agents: TextMap<Agent>,
    pub groups: TextMap<Group>,
    /// Pairs of a group and a member.
    pub memberships: PairSet,
    pub messages: TextMap<Message>,
    pub presence: TextMap<Presence>,
    pub routed: RoutedState,
    pub loaded_paths: TextSet,
    pub loaded_presence_paths: TextSet,
    pub warned_paths: TextSet,
}

/// The content of a [`BoardState`].
#[verifier::ext_equal]
pub struct BoardView {
    pub agents: Map<Seq<char>, AgentView>,
    pub groups: Map<Seq<char>, GroupView>,
    pub memberships: Set<(Seq<char>, Seq<char>)>,
    pub messages: Map<Seq<char>, MessageView>,
    pub presence: Map<Seq<char>, PresenceView>,
    pub routed: RoutedView,
    pub loaded_paths: Set<Seq<char>>,
    pub loaded_presence_paths: Set<Seq<char>>,
    pub warned_paths: Set<Seq<char>>,
}

impl View for BoardState {
    type V = BoardView;

    open spec fn view(&self) -> BoardView {
        BoardView {
            agents: self.agents@,
            groups: self.groups@,
            memberships: self.memberships@,
            messages: self.messages@,
            presence: self.presence@,
            routed: self.routed@,
            loaded_paths: self.loaded_paths@,
            loaded_presence_paths: self.loaded_presence_paths@,
            warned_paths: self.warned_paths@,
        }
    }
}

/// A board of which nothing is known yet.
pub open spec fn unknown_board() -> BoardView {
    BoardView {
        agents: Map::empty(),
        groups: Map::empty(),
        memberships: Set::empty(),
        messages: Map::empty(),
        presence: Map::empty(),
        routed: no_routes(),
        loaded_paths: Set::empty(),
        loaded_presence_paths: Set::empty(),
        warned_paths: Set::empty(),
    }
}

impl BoardState {
    /// A board of which nothing is known yet.
    pub fn new() -> (r: Self)
        ensures
            r@ == unknown_board(),
    {
        BoardState {
            agents: TextMap::new(),
            groups: TextMap::new(),
            memberships: PairSet::new(),
            messages: TextMap::new(),
            presence: TextMap::new(),
            routed: RoutedState::new(),
            loaded_paths: TextSet::new(),
            loaded_presence_paths: TextSet::new(),
            warned_paths: TextSet::new(),
        }
    }
}

/// What a scan found that is new, and what it warns of.
#[derive(Debug, PartialEq, Eq)]
pub struct ScanResult {
    pub new_messages: Vec<String>,
    pub warnings: Vec<String>,
}

/// A board and what a scan of it has come to.
#[verifier::ext_equal]
pub struct ScanView {
    pub board: BoardView,
    pub new_messages: Seq<Seq<char>>,
    pub warnings: Seq<Seq<char>>,
}

/// A board and what a scan of it has come to.
pub open spec fn scan_view(state: BoardState, result: ScanResult) -> ScanView {
    ScanView {
        board: state@,
        new_messages: texts(result.new_messages@),
        warnings: texts(result.warnings@),
    }
}

/// What a scan meets on its way: a document in a directory, or a directory that
/// cannot be listed.
pub enum Seen<T> {
    Document { folder: String, path: String, content: Result<T, String> },
    Unlisted { warning: String },
}

/// The content of a [`Seen`].
pub enum SeenView<V> {
    Document { folder: Seq<char>, path: Seq<char>, content: Result<V, Seq<char>> },
    Unlisted { warning: Seq<char> },
}

impl<T: View> View for Seen<T> {
    type V = SeenView<T::V>;

    open spec fn view(&self) -> SeenView<T::V> {
        match *self {
            Seen::Document { folder, path, content } => SeenView::Document {
                folder: folder@,
                path: path@,
                content: content_of(content),
            },
            Seen::Unlisted { warning } => SeenView::Unlisted { warning: warning@ },
        }
    }
}

/// What a scan of groups meets: a group's own document, a member's, or a
/// directory that cannot be listed.
#[allow(inconsistent_fields)]
pub enum SeenGroup {
    Group { folder: String, content: Result<Group, String> },
    Member { folder: String, path: String, content: Result<Membership, String> },
    Unlisted { warning: String },
}

/// The content of a [`SeenGroup`].
#[allow(inconsistent_fields)]
pub enum SeenGroupView {
    Group { folder: Seq<char>, content: Result<GroupView, Seq<char>> },
    Member { folder: Seq<char>, path: Seq<char>, content: Result<MembershipView, Seq<char>> },
    Unlisted { warning: Seq<char> },
}

impl View for SeenGroup {
    type V = SeenGroupView;

    open spec fn view(&self) -> SeenGroupView {
        match *self {
            SeenGroup::Group { folder, content } => SeenGroupView::Group {
                folder: folder@,
                content: content_of(content),
            },
            SeenGroup::Member { folder, path, content } => SeenGroupView::Member {
                folder: folder@,
                path: path@,
                content: content_of(content),
            },
            SeenGroup::Unlisted { warning } => SeenGroupView::Unlisted { warning: warning@ },
        }
    }
}

/// A board that has taken in the document at a path.
pub open spec fn accepted(board: BoardView, path: Seq<char>) -> BoardView {
    BoardView {
        warned_paths: board.warned_paths.remove(path),
        loaded_paths: board.loaded_paths.insert(path),
        ..board
    }
}

/// A scan that could not take in the document at a path. It warns once, until
/// the document is taken in.
pub open spec fn warned(scan: ScanView, path: Seq<char>, words: Seq<char>) -> ScanView {
    if scan.board.warned_paths.contains(path) {
        scan
    } else {
        ScanView {
            board: BoardView { warned_paths: scan.board.warned_paths.insert(path), ..scan.board },
            warnings: scan.warnings.push(reading_warning(path, words)),
            ..scan
        }
    }
}

/// A scan that could not list a directory.
pub open spec fn unlisted(scan: ScanView, warning: Seq<char>) -> ScanView {
    ScanView { warnings: scan.warnings.push(warning), ..scan }
}

/// Notes that the document at a path has been taken in.
fn accept_path(state: &mut BoardState, path: &str)
    ensures
        final(state)@ == accepted(old(state)@, path@),
{
    state.warned_paths.remove(path);
    state.loaded_paths.insert(path.to_owned());
}

/// Warns of the document at a path, if it has not been done.
fn warn_path(state: &mut BoardState, result: &mut ScanResult, path: &str, error: &str)
    ensures
        scan_view(*final(state), *final(result)) == warned(
            scan_view(*old(state), *old(result)),
            path@,
            error@,
        ),
{
    let ghost had = texts(result.warnings@);
    let ghost before = state@.warned_paths;
    if state.warned_paths.insert(path.to_owned()) {
        result.warnings.push(warn_reading(path, error));
        assert(texts(result.warnings@) =~= had.push(reading_warning(path@, error@)));
    } else {
        assert(state@.warned_paths =~= before);
    }
}

fn warn_unlisted(result: &mut ScanResult, warning: &str)
    ensures
        texts(final(result).warnings@) == texts(old(result).warnings@).push(warning@),
        final(result).new_messages == old(result).new_messages,
{
    let ghost had = texts(result.warnings@);
    result.warnings.push(warning.to_owned());
    assert(texts(result.warnings@) =~= had.push(warning@));
}

/// What one registration, or what else is met on the way, adds to a scan.
pub open spec fn agent_step(scan: ScanView, seen: SeenView<AgentView>) -> ScanView {
    match seen {
        SeenView::Unlisted { warning } => unlisted(scan, warning),
        SeenView::Document { folder, path, content } => match (
            last_name(folder),
            document_title(path),
        ) {
            (Some(project), Some(key)) => if scan.board.loaded_paths.contains(path) {
                scan
            } else {
                match content {
                    Err(words) => warned(scan, path, words),
                    Ok(agent) => match agent_fault(agent, project, key) {
                        Some(words) => warned(scan, path, words),
                        None => ScanView {
                            board: accepted(
                                BoardView {
                                    agents: scan.board.agents.insert(agent.id, agent),
                                    ..scan.board
                                },
                                path,
                            ),
                            ..scan
                        },
                    },
                }
            },
            _ => scan,
        },
    }
}

/// What registrations add to a scan, one after the other.
pub open spec fn agents_scanned(scan: ScanView, seen: Seq<SeenView<AgentView>>) -> ScanView
    decreases seen.len(),
{
    if seen.len() == 0 {
        scan
    } else {
        agent_step(agents_scanned(scan, seen.drop_last()), seen.last())
    }
}

fn see_agent(state: &mut BoardState, result: &mut ScanResult, seen: &Seen<Agent>)
    ensures
        scan_view(*final(state), *final(result)) == agent_step(
            scan_view(*old(state), *old(result)),
            seen@,
        ),
{
    match seen {
        Seen::Unlisted { warning } => warn_unlisted(result, warning.as_str()),
        Seen::Document { folder, path, content } => {
            let project: String = match file_name(folder.as_str()) {
                Some(name) => name,
                None => {
                    return ;
                },
            };
            let key: String = match document_name(path.as_str()) {
                Some(name) => name,
                None => {
                    return ;
                },
            };
            if state.loaded_paths.contains(path.as_str()) {
                return ;
            }
            match content {
                Err(error) => warn_path(state, result, path.as_str(), error.as_str()),
                Ok(agent) => match validate_agent(agent, project.as_str(), key.as_str()) {
                    Err(error) => warn_path(state, result, path.as_str(), error.message.as_str()),
                    Ok(()) => {
                        let copy: Agent = agent.clone();
                        state.agents.insert(agent.id.clone(), copy);
                        accept_path(state, path.as_str());
                    },
                },
            }
        },
    }
}

/// Takes in registrations. `seen` is what was met in the directories of the
/// projects.
pub fn scan_agents(state: &mut BoardState, result: &mut ScanResult, seen: &Vec<Seen<Agent>>)
    ensures
        scan_view(*final(state), *final(result)) == agents_scanned(
            scan_view(*old(state), *old(result)),
            views(seen@),
        ),
{
    let ghost all = views(seen@);
    let ghost start = scan_view(*state, *result);
    let mut i: usize = 0;
    assert(all.take(0) =~= seq![]);
    while i < seen.len()
        invariant
            i <= seen@.len(),
            all == views(seen@),
            scan_view(*state, *result) == agents_scanned(start, all.take(i as int)),
        decreases seen@.len() - i,
    {
        assert(all.take(i + 1).drop_last() =~= all.take(i as int));
        assert(all.take(i + 1).last() == seen@[i as int]@);
        see_agent(state, result, &seen[i]);
        i += 1;
    }
    assert(all.take(i as int) =~= all);
}

/// What one document of a group adds to a scan.
pub open spec fn group_step(scan: ScanView, seen: SeenGroupView) -> ScanView {
    match seen {
        SeenGroupView::Unlisted { warning } => unlisted(scan, warning),
        SeenGroupView::Group { folder, content } => {
            let path = child(folder, "group"@ + DOCUMENT_SUFFIX@);
            match last_name(folder) {
                Some(name) => if scan.board.loaded_paths.contains(path) {
                    scan
                } else {
                    match content {
                        Err(words) => warned(scan, path, words),
                        Ok(group) => match group_fault(group, name) {
                            Some(words) => warned(scan, path, words),
                            None => ScanView {
                                board: accepted(
                                    BoardView {
                                        groups: scan.board.groups.insert(group.name, group),
                                        ..scan.board
                                    },
                                    path,
                                ),
                                ..scan
                            },
                        },
                    }
                },
                None => scan,
            }
        },
        SeenGroupView::Member { folder, path, content } => match (
            last_name(folder),
            document_title(path),
        ) {
            (Some(name), Some(agent)) => if scan.board.loaded_paths.contains(path) {
                scan
            } else {
                match content {
                    Err(words) => warned(scan, path, words),
                    Ok(membership) => match membership_fault(membership, name, agent) {
                        Some(words) => warned(scan, path, words),
                        None => ScanView {
                            board: accepted(
                                BoardView {
                                    memberships: scan.board.memberships.insert(
                                        (membership.group, membership.agent),
                                    ),
                                    ..scan.board
                                },
                                path,
                            ),
                            ..scan
                        },
                    },
                }
            },
            _ => scan,
        },
    }
}

/// What documents of groups add to a scan, one after the other.
pub open spec fn groups_scanned(scan: ScanView, seen: Seq<SeenGroupView>) -> ScanView
    decreases seen.len(),
{
    if seen.len() == 0 {
        scan
    } else {
        group_step(groups_scanned(scan, seen.drop_last()), seen.last())
    }
}

fn see_group(state: &mut BoardState, result: &mut ScanResult, seen: &SeenGroup)
    ensures
        scan_view(*final(state), *final(result)) == group_step(
            scan_view(*old(state), *old(result)),
            seen@,
        ),
{
    match seen {
        SeenGroup::Unlisted { warning } => warn_unlisted(result, warning.as_str()),
        SeenGroup::Group { folder, content } => {
            let path: String = child_path(
                folder.as_str(),
                joined("group", DOCUMENT_SUFFIX).as_str(),
            );
            let name: String = match file_name(folder.as_str()) {
                Some(name) => name,
                None => {
                    return ;
                },
            };
            if state.loaded_paths.contains(path.as_str()) {
                return ;
            }
            match content {
                Err(error) => warn_path(state, result, path.as_str(), error.as_str()),
                Ok(group) => match validate_group(group, name.as_str()) {
                    Err(error) => warn_path(state, result, path.as_str(), error.message.as_str()),
                    Ok(()) => {
                        let copy: Group = group.clone();
                        state.groups.insert(group.name.clone(), copy);
                        accept_path(state, path.as_str());
                    },
                },
            }
        },
        SeenGroup::Member { folder, path, content } => {
            let name: String = match file_name(folder.as_str()) {
                Some(name) => name,
                None => {
                    return ;
                },
            };
            let agent: String = match document_name(path.as_str()) {
                Some(name) => name,
                None => {
                    return ;
                },
            };
            if state.loaded_paths.contains(path.as_str()) {
                return ;
            }
            match content {
                Err(error) => warn_path(state, result, path.as_str(), error.as_str()),
                Ok(membership) => match validate_membership(
                    membership,
                    name.as_str(),
                    agent.as_str(),
                ) {
                    Err(error) => warn_path(state, result, path.as_str(), error.message.as_str()),
                    Ok(()) => {
                        state.memberships.insert(
                            membership.group.clone(),
                            membership.agent.clone(),
                        );
                        accept_path(state, path.as_str());
                    },
                },
            }
        },
    }
}

/// Takes in groups and their members. `seen` is what was met in the directories
/// of the groups.
pub fn scan_groups(state: &mut BoardState, result: &mut ScanResult, seen: &Vec<SeenGroup>)
    ensures
        scan_view(*final(state), *final(result)) == groups_scanned(
            scan_view(*old(state), *old(result)),
            views(seen@),
        ),
{
    let ghost all = views(seen@);
    let ghost start = scan_view(*state, *result);
    let mut i: usize = 0;
    assert(all.take(0) =~= seq![]);
    while i < seen.len()
        invariant
            i <= seen@.len(),
            all == views(seen@),
            scan_view(*state, *result) == groups_scanned(start, all.take(i as int)),
        decreases seen@.len() - i,
    {
        assert(all.take(i + 1).drop_last() =~= all.take(i as int));
        assert(all.take(i + 1).last() == seen@[i as int]@);
        see_group(state, result, &seen[i]);
        i += 1;
    }
    assert(all.take(i as int) =~= all);
}

/// What one sign of life adds to a scan. Of two of an agent the one with the
/// later identifier counts.
pub open spec fn presence_step(scan: ScanView, seen: SeenView<PresenceView>) -> ScanView {
    match seen {
        SeenView::Unlisted { warning } => unlisted(scan, warning),
        SeenView::Document { folder, path, content } => match (
            last_name(folder),
            document_title(path),
        ) {
            (Some(agent), Some(id)) => if scan.board.loaded_presence_paths.contains(path) {
                scan
            } else {
                match content {
                    Err(words) => warned(scan, path, words),
                    Ok(presence) => match presence_fault(presence, id, agent) {
                        Some(words) => warned(scan, path, words),
                        None => ScanView {
                            board: BoardView {
                                presence: if scan.board.presence.contains_key(agent) && !precedes(
                                    scan.board.presence[agent].id,
                                    presence.id,
                                ) {
                                    scan.board.presence
                                } else {
                                    scan.board.presence.insert(agent, presence)
                                },
                                warned_paths: scan.board.warned_paths.remove(path),
                                loaded_presence_paths: scan.board.loaded_presence_paths.insert(
                                    path,
                                ),
                                ..scan.board
                            },
                            ..scan
                        },
                    },
                }
            },
            _ => scan,
        },
    }
}

/// What signs of life add to a scan, one after the other.
pub open spec fn presence_scanned(scan: ScanView, seen: Seq<SeenView<PresenceView>>) -> ScanView
    decreases seen.len(),
{
    if seen.len() == 0 {
        scan
    } else {
        presence_step(presence_scanned(scan, seen.drop_last()), seen.last())
    }
}

/// A scan that has forgotten the signs of life that are no longer there.
pub open spec fn without_gone(scan: ScanView, gone: Seq<Seq<char>>) -> ScanView {
    ScanView {
        board: BoardView {
            loaded_presence_paths: scan.board.loaded_presence_paths.difference(gone.to_set()),
            ..scan.board
        },
        ..scan
    }
}

fn see_presence(state: &mut BoardState, result: &mut ScanResult, seen: &Seen<Presence>)
    ensures
        scan_view(*final(state), *final(result)) == presence_step(
            scan_view(*old(state), *old(result)),
            seen@,
        ),
{
    match seen {
        Seen::Unlisted { warning } => warn_unlisted(result, warning.as_str()),
        Seen::Document { folder, path, content } => {
            let agent: String = match file_name(folder.as_str()) {
                Some(name) => name,
                None => {
                    return ;
                },
            };
            let id: String = match document_name(path.as_str()) {
                Some(name) => name,
                None => {
                    return ;
                },
            };
            if state.loaded_presence_paths.contains(path.as_str()) {
                return ;
            }
            match content {
                Err(error) => warn_path(state, result, path.as_str(), error.as_str()),
                Ok(presence) => match validate_presence(presence, id.as_str(), agent.as_str()) {
                    Err(error) => warn_path(state, result, path.as_str(), error.message.as_str()),
                    Ok(()) => {
                        let replace: bool = match state.presence.get(agent.as_str()) {
                            Some(current) => comes_before(
                                current.id.as_str(),
                                presence.id.as_str(),
                            ),
                            None => true,
                        };
                        if replace {
                            let copy: Presence = presence.clone();
                            state.presence.insert(agent, copy);
                        }
                        state.warned_paths.remove(path.as_str());
                        state.loaded_presence_paths.insert(path.clone());
                    },
                },
            }
        },
    }
}

/// Takes in signs of life. `gone` are paths that are no longer there, and
/// `seen` is what was met in the directories of the agents.
pub fn scan_presence(
    state: &mut BoardState,
    result: &mut ScanResult,
    gone: &Vec<String>,
    seen: &Vec<Seen<Presence>>,
)
    ensures
        scan_view(*final(state), *final(result)) == presence_scanned(
            without_gone(scan_view(*old(state), *old(result)), texts(gone@)),
            views(seen@),
        ),
{
    let ghost all = views(seen@);
    let ghost start = without_gone(scan_view(*state, *result), texts(gone@));
    remove_all(&mut state.loaded_presence_paths, gone);
    let mut i: usize = 0;
    assert(all.take(0) =~= seq![]);
    while i < seen.len()
        invariant
            i <= seen@.len(),
            all == views(seen@),
            scan_view(*state, *result) == presence_scanned(start, all.take(i as int)),
        decreases seen@.len() - i,
    {
        assert(all.take(i + 1).drop_last() =~= all.take(i as int));
        assert(all.take(i + 1).last() == seen@[i as int]@);
        see_presence(state, result, &seen[i]);
        i += 1;
    }
    assert(all.take(i as int) =~= all);
}

/// What is new after one more message: a message that is known already is not
/// new, wherever else its document stands.
pub open spec fn announced(
    new_messages: Seq<Seq<char>>,
    known: Map<Seq<char>, MessageView>,
    id: Seq<char>,
) -> Seq<Seq<char>> {
    if known.contains_key(id) {
        new_messages
    } else {
        new_messages.push(id)
    }
}

/// What one message adds to a scan.
pub open spec fn message_step(scan: ScanView, seen: SeenView<MessageView>) -> ScanView {
    match seen {
        SeenView::Unlisted { warning } => unlisted(scan, warning),
        SeenView::Document { folder, path, content } => match document_title(path) {
            Some(id) => if scan.board.loaded_paths.contains(path) {
                scan
            } else {
                match content {
                    Err(words) => warned(scan, path, words),
                    Ok(message) => match message_fault(message, id) {
                        Some(words) => warned(scan, path, words),
                        None => ScanView {
                            board: accepted(
                                BoardView {
                                    messages: scan.board.messages.insert(message.id, message),
                                    ..scan.board
                                },
                                path,
                            ),
                            new_messages: announced(
                                scan.new_messages,
                                scan.board.messages,
                                message.id,
                            ),
                            ..scan
                        },
                    },
                }
            },
            None => scan,
        },
    }
}

/// What messages add to a scan, one after the other.
pub open spec fn messages_scanned(scan: ScanView, seen: Seq<SeenView<MessageView>>) -> ScanView
    decreases seen.len(),
{
    if seen.len() == 0 {
        scan
    } else {
        message_step(messages_scanned(scan, seen.drop_last()), seen.last())
    }
}

fn see_message(state: &mut BoardState, result: &mut ScanResult, seen: &Seen<Message>)
    ensures
        scan_view(*final(state), *final(result)) == message_step(
            scan_view(*old(state), *old(result)),
            seen@,
        ),
{
    match seen {
        Seen::Unlisted { warning } => warn_unlisted(result, warning.as_str()),
        Seen::Document { folder: _, path, content } => {
            let id: String = match document_name(path.as_str()) {
                Some(name) => name,
                None => {
                    return ;
                },
            };
            if state.loaded_paths.contains(path.as_str()) {
                return ;
            }
            match content {
                Err(error) => warn_path(state, result, path.as_str(), error.as_str()),
                Ok(message) => match validate_message(message, id.as_str()) {
                    Err(error) => warn_path(state, result, path.as_str(), error.message.as_str()),
                    Ok(()) => {
                        let copy: Message = message.clone();
                        let ghost had = texts(result.new_messages@);
                        if !state.messages.contains(message.id.as_str()) {
                            result.new_messages.push(message.id.clone());
                            assert(texts(result.new_messages@) =~= had.push(message.id@));
                        }
                        state.messages.insert(message.id.clone(), copy);
                        accept_path(state, path.as_str());
                    },
                },
            }
        },
    }
}

/// Takes in messages of the board's first version. `seen` is what was met in
/// the directories of the days. What is new stands in order.
pub fn scan_messages(state: &mut BoardState, result: &mut ScanResult, seen: &Vec<Seen<Message>>)
    ensures
        ({
            let end = messages_scanned(scan_view(*old(state), *old(result)), views(seen@));
            scan_view(*final(state), *final(result)) == (ScanView {
                new_messages: sorted_list(end.new_messages),
                ..end
            })
        }),
{
    let ghost all = views(seen@);
    let ghost start = scan_view(*state, *result);
    let mut i: usize = 0;
    assert(all.take(0) =~= seq![]);
    while i < seen.len()
        invariant
            i <= seen@.len(),
            all == views(seen@),
            scan_view(*state, *result) == messages_scanned(start, all.take(i as int)),
        decreases seen@.len() - i,
    {
        assert(all.take(i + 1).drop_last() =~= all.take(i as int));
        assert(all.take(i + 1).last() == seen@[i as int]@);
        see_message(state, result, &seen[i]);
        i += 1;
    }
    assert(all.take(i as int) =~= all);
    let ordered: Vec<String> = sort_texts(&result.new_messages);
    result.new_messages = ordered;
}

/// What was met on a scan of the board: its agents, groups, presence and old
/// messages, and the signs of life that are no longer there.
pub struct Snapshot {
    pub agents: Vec<Seen<Agent>>,
    pub groups: Vec<SeenGroup>,
    pub gone_presence: Vec<String>,
    pub presence: Vec<Seen<Presence>>,
    pub messages: Vec<Seen<Message>>,
}

/// A board after a scan, and what the scan found.
pub open spec fn scanned(
    board: BoardView,
    agents: Seq<SeenView<AgentView>>,
    groups: Seq<SeenGroupView>,
    gone: Seq<Seq<char>>,
    presence: Seq<SeenView<PresenceView>>,
    messages: Seq<SeenView<MessageView>>,
) -> ScanView {
    let start = ScanView { board, new_messages: seq![], warnings: seq![] };
    let people = groups_scanned(agents_scanned(start, agents), groups);
    let end = messages_scanned(presence_scanned(without_gone(people, gone), presence), messages);
    ScanView { new_messages: sorted_list(end.new_messages), ..end }
}

/// Takes in what was met on a scan of the board.
pub fn scan(state: &mut BoardState, snapshot: &Snapshot) -> (r: ScanResult)
    ensures
        scan_view(*final(state), r) == scanned(
            old(state)@,
            views(snapshot.agents@),
            views(snapshot.groups@),
            texts(snapshot.gone_presence@),
            views(snapshot.presence@),
            views(snapshot.messages@),
        ),
{
    let mut result = ScanResult { new_messages: Vec::new(), warnings: Vec::new() };
    assert(texts(result.new_messages@) =~= seq![]);
    assert(texts(result.warnings@) =~= seq![]);
    scan_agents(state, &mut result, &snapshot.agents);
    scan_groups(state, &mut result, &snapshot.groups);
    scan_presence(state, &mut result, &snapshot.gone_presence, &snapshot.presence);
    scan_messages(state, &mut result, &snapshot.messages);
    result
}

/// What one routed message adds to a scan.
pub open spec fn routed_step(scan: ScanView, message: MessageView) -> ScanView {
    ScanView {
        board: BoardView {
            messages: scan.board.messages.insert(message.id, message),
            ..scan.board
        },
        new_messages: announced(scan.new_messages, scan.board.messages, message.id),
        ..scan
    }
}

/// What routed messages add to a scan, one after the other.
pub open spec fn routed_merged(scan: ScanView, messages: Seq<MessageView>) -> ScanView
    decreases messages.len(),
{
    if messages.len() == 0 {
        scan
    } else {
        routed_step(routed_merged(scan, messages.drop_last()), messages.last())
    }
}

/// A scan with what was found on the routes. What is new stands in order, and the
/// oldest messages are forgotten.
pub open spec fn with_routed(
    scan: ScanView,
    messages: Seq<MessageView>,
    warnings: Seq<Seq<char>>,
) -> ScanView {
    let end = routed_merged(scan, messages);
    ScanView {
        board: BoardView { messages: newest(end.board.messages, CACHE_LIMIT as nat), ..end.board },
        new_messages: sorted_list(end.new_messages),
        warnings: end.warnings + warnings,
    }
}

/// Adds what was found on the routes to a scan. A message that is known already
/// is not new.
pub fn scan_routed(state: &mut BoardState, result: &mut ScanResult, findings: &Findings)
    ensures
        scan_view(*final(state), *final(result)) == with_routed(
            scan_view(*old(state), *old(result)),
            views(findings.messages@),
            texts(findings.warnings@),
        ),
{
    let ghost all = views(findings.messages@);
    let ghost start = scan_view(*state, *result);
    let mut i: usize = 0;
    assert(all.take(0) =~= seq![]);
    while i < findings.messages.len()
        invariant
            i <= findings.messages@.len(),
            all == views(findings.messages@),
            scan_view(*state, *result) == routed_merged(start, all.take(i as int)),
        decreases findings.messages@.len() - i,
    {
        assert(all.take(i + 1).drop_last() =~= all.take(i as int));
        assert(all.take(i + 1).last() == findings.messages@[i as int]@);
        let message: &Message = &findings.messages[i];
        let copy: Message = message.clone();
        let ghost had = texts(result.new_messages@);
        if !state.messages.contains(message.id.as_str()) {
            result.new_messages.push(message.id.clone());
            assert(texts(result.new_messages@) =~= had.push(message.id@));
        }
        state.messages.insert(message.id.clone(), copy);
        i += 1;
    }
    assert(all.take(i as int) =~= all);
    let ordered: Vec<String> = sort_texts(&result.new_messages);
    result.new_messages = ordered;
    let mut more: Vec<String> = copy_texts(&findings.warnings);
    let ghost had = texts(result.warnings@);
    result.warnings.append(&mut more);
    assert(texts(result.warnings@) =~= had + texts(findings.warnings@));
    trim_cache(&mut state.messages);
}

/// The members of a group.
pub open spec fn members_of(memberships: Set<(Seq<char>, Seq<char>)>, group: Seq<char>) -> Set<Seq<char>> {
    Set::new(|agent: Seq<char>| memberships.contains((group, agent)))
}

/// The groups that an agent has joined.
pub open spec fn groups_of(memberships: Set<(Seq<char>, Seq<char>)>, agent: Seq<char>) -> Set<Seq<char>> {
    Set::new(|group: Seq<char>| memberships.contains((group, agent)))
}

/// The members of a group, in order.
pub fn group_members(state: &BoardState, group: &str) -> (r: Vec<String>)
    ensures
        texts(r@) == listing(members_of(state@.memberships, group@)),
        ascending(texts(r@)),
        texts(r@).to_set() == members_of(state@.memberships, group@),
{
    let list: &Vec<(String, String)> = state.memberships.as_list();
    let ghost all = pairs(list@);
    let mut out: Vec<String> = Vec::new();
    let mut i: usize = 0;
    assert(texts(out@).to_set() =~= members_of(all.take(0).to_set(), group@));
    while i < list.len()
        invariant
            i <= list@.len(),
            all == pairs(list@),
            ascending(texts(out@)),
            texts(out@).to_set() == members_of(all.take(i as int).to_set(), group@),
        decreases list@.len() - i,
    {
        proof {
            lemma_take_set(all, i as int);
            assert(all[i as int] == (list@[i as int].0@, list@[i as int].1@));
        }
        if same_text(list[i].0.as_str(), group) {
            insert_ascending(&mut out, list[i].1.clone());
        }
        assert(texts(out@).to_set() =~= members_of(all.take(i + 1).to_set(), group@));
        i += 1;
    }
    assert(all.take(i as int) =~= all);
    proof {
        lemma_listing(texts(out@));
    }
    out
}

/// The groups that an agent has joined, in order.
pub fn joined_groups(state: &BoardState, agent_id: &str) -> (r: Vec<String>)
    ensures
        texts(r@) == listing(groups_of(state@.memberships, agent_id@)),
        ascending(texts(r@)),
        texts(r@).to_set() == groups_of(state@.memberships, agent_id@),
{
    let list: &Vec<(String, String)> = state.memberships.as_list();
    let ghost all = pairs(list@);
    let mut out: Vec<String> = Vec::new();
    let mut i: usize = 0;
    assert(texts(out@).to_set() =~= groups_of(all.take(0).to_set(), agent_id@));
    while i < list.len()
        invariant
            i <= list@.len(),
            all == pairs(list@),
            ascending(texts(out@)),
            texts(out@).to_set() == groups_of(all.take(i as int).to_set(), agent_id@),
        decreases list@.len() - i,
    {
        proof {
            lemma_take_set(all, i as int);
            assert(all[i as int] == (list@[i as int].0@, list@[i as int].1@));
        }
        if same_text(list[i].1.as_str(), agent_id) {
            insert_ascending(&mut out, list[i].0.clone());
        }
        assert(texts(out@).to_set() =~= groups_of(all.take(i + 1).to_set(), agent_id@));
        i += 1;
    }
    assert(all.take(i as int) =~= all);
    proof {
        lemma_listing(texts(out@));
    }
    out
}

/// Whole seconds since an agent's last sign of life, if it can be told.
pub open spec fn presence_age(presence: Option<PresenceView>, now: Moment) -> Option<u64> {
    match presence {
        Some(sign) => match rfc3339_reading(sign.last_seen) {
            Ok(time) => Some(
                whole_seconds(now, Moment { seconds: time.0, nanos: time.1 }) as u64,
            ),
            Err(_) => None,
        },
        None => None,
    }
}

/// The value of a key, if it has one.
pub open spec fn lookup<V>(map: Map<Seq<char>, V>, key: Seq<char>) -> Option<V> {
    if map.contains_key(key) {
        Some(map[key])
    } else {
        None
    }
}

/// An agent with its presence: online for a minute after a sign of life.
pub open spec fn status_of(agent: AgentView, presence: Option<PresenceView>, now: Moment) -> AgentStatusView {
    AgentStatusView {
        agent,
        online: presence_age(presence, now) is Some && presence_age(presence, now)->Some_0 <= 60,
        last_seen: match presence {
            Some(sign) => Some(sign.last_seen),
            None => None,
        },
        age_seconds: presence_age(presence, now),
    }
}

/// The agents of a board with their presence, in the order of their names.
pub open spec fn statuses_of(board: BoardView, now: Moment) -> Seq<AgentStatusView> {
    in_order(board.agents).map_values(
        |agent: AgentView| status_of(agent, lookup(board.presence, agent.id), now),
    )
}

/// The agents of a board with their presence at a time.
pub fn agent_statuses_at(state: &BoardState, now: Moment) -> (r: Vec<AgentStatus>)
    requires
        on_clock(now),
    ensures
        views(r@) == statuses_of(state@, now),
{
    let count: usize = state.agents.len();
    let ghost all = statuses_of(state@, now);
    let mut out: Vec<AgentStatus> = Vec::new();
    let mut i: usize = 0;
    assert(views(out@) =~= all.take(0));
    while i < count
        invariant
            i <= count,
            count == listing(state@.agents.dom()).len(),
            on_clock(now),
            all == statuses_of(state@, now),
            views(out@) == all.take(i as int),
        decreases count - i,
    {
        let agent: Agent = state.agents.value_at(i).clone();
        let ghost had = views(out@);
        let ghost sign = lookup(state@.presence, agent@.id);
        let mut last_seen: Option<String> = None;
        let mut age_seconds: Option<u64> = None;
        if let Some(presence) = state.presence.get(agent.id.as_str()) {
            last_seen = Some(presence.last_seen.clone());
            if let Ok(time) = read_moment(presence.last_seen.as_str()) {
                age_seconds = Some(age_in_seconds(now, time));
            }
        }
        assert(age_seconds == presence_age(sign, now));
        let online: bool = match age_seconds {
            Some(age) => age <= 60,
            None => false,
        };
        let status = AgentStatus { agent, online, last_seen, age_seconds };
        assert(status@ == all[i as int]);
        out.push(status);
        assert(views(out@) =~= had.push(all[i as int]));
        assert(all.take(i + 1) =~= had.push(all[i as int]));
        i += 1;
    }
    assert(all.take(i as int) =~= all);
    out
}

/// The agents of a board with their presence now.
pub fn agent_statuses(state: &BoardState) -> (r: Vec<AgentStatus>)
    ensures
        exists|now: Moment| on_clock(now) && views(r@) == #[trigger] statuses_of(state@, now),
{
    let now: Moment = current_moment();
    let r: Vec<AgentStatus> = agent_statuses_at(state, now);
    assert(views(r@) == statuses_of(state@, now));
    r
}

/// Whether a message concerns an agent: it names the agent, or it goes to
/// everyone, to the agent's project or to a group that the agent has joined. The
/// agent's own messages do not.
pub open spec fn is_relevant(
    memberships: Set<(Seq<char>, Seq<char>)>,
    agent: AgentView,
    message: MessageView,
) -> bool {
    message.from != agent.id && (message.to.contains(agent.id) || match message.group {
        Some(group) => group == "global"@ || group == project_route(agent.project)
            || memberships.contains((group, agent.id)),
        None => false,
    })
}

/// Whether a message concerns an agent.
pub fn message_is_relevant(state: &BoardState, agent: &Agent, message: &Message) -> (r: bool)
    ensures
        r == is_relevant(state@.memberships, agent@, message@),
{
    let own: bool = same_text(message.from.as_str(), agent.id.as_str());
    if own || contains_text(&message.to, agent.id.as_str()) {
        return !own;
    }
    match &message.group {
        Some(group) => {
            if same_text(group.as_str(), "global") {
                return true;
            }
            let project: String = joined("project:", agent.project.as_str());
            if same_text(group.as_str(), project.as_str()) {
                return true;
            }
            state.memberships.contains(group.as_str(), agent.id.as_str())
        },
        None => false,
    }
}

/// Those who take part in a direct conversation, but for one.
pub open spec fn others(message: MessageView, agent: Seq<char>) -> Set<Seq<char>> {
    message.to.to_set().insert(message.from).remove(agent)
}

/// Whom a reply to a direct message goes to: all who take part but the replying
/// agent.
pub fn direct_reply_recipients(message: &Message, replying_agent: &str) -> (r: Vec<String>)
    ensures
        texts(r@) == listing(others(message@, replying_agent@)),
        ascending(texts(r@)),
        texts(r@).to_set() == others(message@, replying_agent@),
{
    let ghost me = replying_agent@;
    let ghost all = texts(message.to@);
    let mut out: Vec<String> = Vec::new();
    let mut i: usize = 0;
    assert(texts(out@).to_set() =~= all.take(0).to_set().remove(me));
    while i < message.to.len()
        invariant
            i <= message.to@.len(),
            all == texts(message.to@),
            me == replying_agent@,
            ascending(texts(out@)),
            texts(out@).to_set() == all.take(i as int).to_set().remove(me),
        decreases message.to@.len() - i,
    {
        proof {
            lemma_take_set(all, i as int);
        }
        if !same_text(message.to[i].as_str(), replying_agent) {
            insert_ascending(&mut out, message.to[i].clone());
        }
        assert(texts(out@).to_set() =~= all.take(i + 1).to_set().remove(me));
        i += 1;
    }
    assert(all.take(i as int) =~= all);
    if !same_text(message.from.as_str(), replying_agent) {
        insert_ascending(&mut out, message.from.clone());
    }
    assert(texts(out@).to_set() =~= others(message@, me));
    proof {
        lemma_listing(texts(out@));
    }
    out
}

/// A message that is to be published.
#[derive(Debug, PartialEq, Eq)]
pub struct MessageDraft {
    pub to: Vec<String>,
    pub group: Option<String>,
    pub thread: Option<String>,
    pub reply_to: Option<String>,
    pub body: String,
    pub meta: Option<String>,
    pub ttl_seconds: Option<u64>,
}

/// The content of a [`MessageDraft`].
#[verifier::ext_equal]
pub struct DraftView {
    pub to: Seq<Seq<char>>,
    pub group: Option<Seq<char>>,
    pub thread: Option<Seq<char>>,
    pub reply_to: Option<Seq<char>>,
    pub body: Seq<char>,
    pub meta: Option<Seq<char>>,
    pub ttl_seconds: Option<u64>,
}

impl View for MessageDraft {
    type V = DraftView;

    open spec fn view(&self) -> DraftView {
        DraftView {
            to: texts(self.to@),
            group: text_option(self.group),
            thread: text_option(self.thread),
            reply_to: text_option(self.reply_to),
            body: self.body@,
            meta: text_option(self.meta),
            ttl_seconds: self.ttl_seconds,
        }
    }
}

/// The characters with Unicode's property `White_Space`.
pub open spec fn is_blank_char(c: char) -> bool {
    let code = c as u32;
    9 <= code <= 13 || code == 0x20 || code == 0x85 || code == 0xa0 || code == 0x1680 || 0x2000 <= code
        <= 0x200a || code == 0x2028 || code == 0x2029 || code == 0x202f || code == 0x205f || code
        == 0x3000
}

/// `char::is_whitespace`: whether a character has Unicode's property
/// `White_Space`.
pub assume_specification[ char::is_whitespace ](c: char) -> (r: bool)
    ensures
        r == is_blank_char(c),
;

/// Whether a text has nothing but white space.
pub open spec fn is_blank(text: Seq<char>) -> bool {
    forall|i: int| 0 <= i < text.len() ==> is_blank_char(#[trigger] text[i])
}

fn blank(text: &str) -> (r: bool)
    ensures
        r == is_blank(text@),
{
    let chars: Vec<char> = chars_of(text);
    let mut i: usize = 0;
    while i < chars.len()
        invariant
            chars@ == text@,
            i <= chars@.len(),
            forall|j: int| 0 <= j < i ==> is_blank_char(#[trigger] text@[j]),
        decreases chars@.len() - i,
    {
        if !chars[i].is_whitespace() {
            assert(!is_blank_char(text@[i as int]));
            return false;
        }
        i += 1;
    }
    true
}

/// The last second that a message can expire in.
pub const LAST_SECOND: i64 = 8_210_266_876_799;

/// Why a draft cannot be published, if it cannot.
pub open spec fn draft_fault(draft: DraftView, now: Moment) -> Option<Seq<char>> {
    if (draft.to.len() > 0) == (draft.group is Some) {
        Some("provide direct recipients or one group, but not both"@)
    } else if is_blank(draft.body) {
        Some("message must not be empty"@)
    } else if draft.ttl_seconds is Some && now.seconds + draft.ttl_seconds->Some_0 > LAST_SECOND {
        Some("message lifetime is out of range"@)
    } else {
        None
    }
}

/// The message that a draft becomes. One that starts a conversation names its
/// thread.
pub open spec fn composed(from: Seq<char>, draft: DraftView, id: Seq<char>, now: Moment) -> MessageView {
    MessageView {
        schema: MESSAGE_SCHEMA@,
        id,
        timestamp: rfc3339_millis(now.seconds, now.nanos)->Some_0,
        from,
        to: draft.to,
        group: draft.group,
        thread: match draft.thread {
            Some(thread) => thread,
            None => id,
        },
        reply_to: draft.reply_to,
        message: draft.body,
        meta: draft.meta,
        expires_at: match draft.ttl_seconds {
            Some(seconds) => rfc3339_millis((now.seconds + seconds) as i64, now.nanos),
            None => None,
        },
    }
}

/// Checks a draft at a time.
pub fn check_draft(draft: &MessageDraft, now: Moment) -> (r: Result<(), BoardError>)
    requires
        on_clock(now),
    ensures
        fault(r) == draft_fault(draft@, now),
{
    let has_recipients: bool = draft.to.len() > 0;
    if has_recipients == draft.group.is_some() {
        return Err(failure("provide direct recipients or one group, but not both"));
    }
    if blank(draft.body.as_str()) {
        return Err(failure("message must not be empty"));
    }
    if let Some(seconds) = draft.ttl_seconds {
        if seconds > (LAST_SECOND - now.seconds) as u64 {
            return Err(failure("message lifetime is out of range"));
        }
    }
    Ok(())
}

/// Makes the message of a draft that was checked, under an identifier and at a
/// time. One with a lifetime expires when its lifetime is over, to the
/// millisecond, where that is in a year of four digits.
pub fn compose_message(from: &str, draft: MessageDraft, id: String, now: Moment) -> (r: Message)
    requires
        on_clock(now),
        draft_fault(draft@, now) is None,
    ensures
        r@ == composed(from@, draft@, id@, now),
        draft@.ttl_seconds is Some ==> r@.expires_at is Some,
        draft@.ttl_seconds is Some && now.seconds + draft@.ttl_seconds->Some_0 <= 253_402_300_799
            ==> forall|later: Moment|
            #![trigger expired(r@, later)]
            expired(r@, later) <==> no_later(
                Moment {
                    seconds: (now.seconds + draft@.ttl_seconds->Some_0) as i64,
                    nanos: (now.nanos - now.nanos % 1_000_000) as u32,
                },
                later,
            ),
{
    let expires_at: Option<String> = match draft.ttl_seconds {
        Some(seconds) => write_moment(
            Moment { seconds: now.seconds + seconds as i64, nanos: now.nanos },
        ),
        None => None,
    };
    let stamp: String = match write_moment(now) {
        Some(text) => text,
        None => String::new(),
    };
    let thread: String = match draft.thread {
        Some(thread) => thread,
        None => id.clone(),
    };
    Message {
        schema: MESSAGE_SCHEMA.to_owned(),
        id,
        timestamp: stamp,
        from: from.to_owned(),
        to: draft.to,
        group: draft.group,
        thread,
        reply_to: draft.reply_to,
        message: draft.body,
        meta: draft.meta,
        expires_at,
    }
}

/// Whether this is what becomes of a draft at a time.
pub open spec fn is_composed(
    result: Result<Message, BoardError>,
    from: Seq<char>,
    draft: DraftView,
    now: Moment,
) -> bool {
    &&& fault(result) == draft_fault(draft, now)
    &&& result matches Ok(message) ==> message@ == composed(from, draft, message@.id, now)
}

/// Makes a message of a draft, now and under the next identifier.
pub fn publish_message(ids: &mut IdSource, from: &str, draft: MessageDraft) -> (r: Result<
    Message,
    BoardError,
>)
    ensures
        exists|now: Moment| on_clock(now) && #[trigger] is_composed(r, from@, draft@, now),
        r matches Ok(message) ==> is_next_id(message@.id, *old(ids), *final(ids)),
        r is Err ==> *final(ids) == *old(ids),
{
    let now: Moment = current_moment();
    match check_draft(&draft, now) {
        Ok(()) => {},
        Err(error) => {
            let r: Result<Message, BoardError> = Err(error);
            assert(is_composed(r, from@, draft@, now));
            return r;
        },
    }
    let ghost view = draft@;
    let id: String = ids.next_id();
    let r: Result<Message, BoardError> = Ok(compose_message(from, draft, id, now));
    assert(is_composed(r, from@, view, now));
    r
}

/// The directory that a document is stored in.
pub fn document_directory(path: &str) -> (r: Result<String, BoardError>)
    ensures
        match r {
            Ok(directory) => parent(path@) == Some(directory@),
            Err(e) => parent(path@) is None && e@ == "document path has no parent: "@ + path@,
        },
{
    match parent_path(path) {
        Some(directory) => Ok(directory),
        None => Err(failure_with("document path has no parent: ", path)),
    }
}

/// The hidden name that a document is written under before it takes its own.
pub open spec fn temporary_name(name: Seq<char>, suffix: u64) -> Seq<char> {
    "."@ + name + "."@ + hex_digits(suffix as nat, 16) + ".part"@
}

/// A document as it is written: first under a temporary path, then renamed.
pub struct EncodedDocument {
    pub temporary_path: String,
    pub bytes: Vec<u8>,
}

/// The temporary path beside a document.
pub open spec fn temporary_beside(path: Seq<char>, suffix: u64) -> Seq<char> {
    child(parent(path)->Some_0, temporary_name(last_name(path)->Some_0, suffix))
}

/// Why a document cannot be written to a path, if it cannot.
pub open spec fn writing_fault(path: Seq<char>, frame: Result<Seq<u8>, Seq<char>>) -> Option<Seq<char>> {
    if parent(path) is None {
        Some("document path has no parent: "@ + path)
    } else if last_name(path) is None {
        Some("document path is not UTF-8: "@ + path)
    } else {
        match frame {
            Ok(_) => None,
            Err(words) => Some("encode document JSON: "@ + words),
        }
    }
}

/// Bytes, or the words about why there are none.
pub open spec fn bytes_of(result: Result<Vec<u8>, String>) -> Result<Seq<u8>, Seq<char>> {
    match result {
        Ok(bytes) => Ok(bytes@),
        Err(words) => Err(words@),
    }
}

/// Places the frame of a document, if it could be made, beside the document's
/// path.
pub fn place_document(path: &str, suffix: u64, frame: Result<Vec<u8>, String>) -> (r: Result<
    EncodedDocument,
    BoardError,
>)
    ensures
        fault(r) == writing_fault(path@, bytes_of(frame)),
        r matches Ok(document) ==> {
            &&& document.temporary_path@ == temporary_beside(path@, suffix)
            &&& Ok::<Seq<u8>, Seq<char>>(document.bytes@) == bytes_of(frame)
        },
{
    let directory: String = match document_directory(path) {
        Ok(directory) => directory,
        Err(error) => {
            return Err(error);
        },
    };
    let name: String = match file_name(path) {
        Some(name) => name,
        None => {
            return Err(failure_with("document path is not UTF-8: ", path));
        },
    };
    let hidden: String = joined3(
        joined3(".", name.as_str(), ".").as_str(),
        hex_text(suffix, 16).as_str(),
        ".part",
    );
    match frame {
        Ok(bytes) => Ok(
            EncodedDocument {
                temporary_path: child_path(directory.as_str(), hidden.as_str()),
                bytes,
            },
        ),
        Err(error) => Err(failure_with("encode document JSON: ", error.as_str())),
    }
}

/// Whether this is the JSON text of a document, encoded for its path under a
/// temporary name from chance. Whether the frame can be made is up to the
/// machine's memory.
pub open spec fn is_encoded(
    result: Result<EncodedDocument, BoardError>,
    path: Seq<char>,
    json: Seq<u8>,
    suffix: u64,
) -> bool {
    match result {
        Ok(document) => {
            &&& writing_fault(path, Ok(document.bytes@)) is None
            &&& document.temporary_path@ == temporary_beside(path, suffix)
            &&& document.bytes@ == zstd_frame(json, 3, true)
            &&& zstd_content(document.bytes@) == Some(json)
        },
        Err(error) => exists|words: Seq<char>|
            #![trigger writing_fault(path, Err(words))]
            writing_fault(path, Err(words)) == Some(error@),
    }
}

/// Encodes the JSON text of a document for its path.
pub fn write_document(path: &str, json: &[u8]) -> (r: Result<EncodedDocument, BoardError>)
    ensures
        exists|suffix: u64| #[trigger] is_encoded(r, path@, json@, suffix),
{
    let suffix: u64 = random_number();
    let frame: Result<Vec<u8>, String> = encode_document(json);
    let ghost made = bytes_of(frame);
    let r: Result<EncodedDocument, BoardError> = place_document(path, suffix, frame);
    proof {
        if r is Err {
            let words = if made is Err {
                made->Err_0
            } else {
                seq![]
            };
            assert(writing_fault(path@, Err(words)) == writing_fault(path@, made));
        }
        assert(is_encoded(r, path@, json@, suffix));
    }
    r
}

/// The words about a document that cannot be decoded.
pub open spec fn decoding_words(path: Seq<char>, words: Seq<char>) -> Seq<char> {
    "decode JSON "@ + path + ": "@ + words
}

/// The content of the frame that was read from a path, if there is one.
pub fn unpack_document(path: &str, content: Result<Vec<u8>, String>) -> (r: Result<Vec<u8>, BoardError>)
    ensures
        match content {
            Ok(json) => r is Ok && r->Ok_0@ == json@,
            Err(words) => fault(r) == Some(decoding_words(path@, words@)),
        },
{
    match content {
        Ok(json) => Ok(json),
        Err(error) => {
            let words: String = joined3("decode JSON ", path, ": ");
            Err(failure_with(words.as_str(), error.as_str()))
        },
    }
}

/// Whether this is the JSON text of the document whose bytes were read from a
/// path. What is not sound is refused; whether what is sound can be decoded is up
/// to the machine's memory.
pub open spec fn is_decoded(
    result: Result<Vec<u8>, BoardError>,
    path: Seq<char>,
    bytes: Seq<u8>,
) -> bool {
    match result {
        Ok(json) => zstd_content(bytes) == Some(json@),
        Err(error) => exists|words: Seq<char>| error@ == #[trigger] decoding_words(path, words),
    }
}

/// The JSON text of the document that was read from a path.
pub fn read_document(path: &str, bytes: &[u8]) -> (r: Result<Vec<u8>, BoardError>)
    ensures
        is_decoded(r, path@, bytes@),
{
    unpack_document(path, decode_document(bytes))
}

/// Whether a failure to synchronize a file is let pass: some network volumes
/// answer with "not a typewriter".
pub fn synchronize_document(os_error: Option<i32>) -> (r: bool)
    ensures
        r == (os_error == Some(25i32)),
{
    match os_error {
        Some(code) => code == 25,
        None => false,
    }
}

} // verus!
