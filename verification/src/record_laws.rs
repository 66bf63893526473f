//! What holds of the records of a board: registrations, groups, memberships, signs of
//! life, and the documents that hold them.
use crate::clock::{on_clock, rfc3339_reading, Moment};
use crate::collections::ascending;
use crate::error::BoardError;
use crate::laws::{lemma_document_name, lemma_slug_is_plain};
use crate::model::{Agent, AgentView, Group, Membership, Message, Presence};
use crate::path::{
    child, components, is_name, is_plain, last_name, lemma_child_components, parent, path_precedes,
};
use crate::storage::{
    check_draft, create_group, document_title, ensure_layout, group_members, is_slug, join_group,
    joined_groups, lower, named_documents, normalize_session, place_document, prune_presence,
    read_document, register_agent, session_key, synchronize_document, temporary_name,
    touch_presence, unpack_document, validate_agent, validate_group, validate_membership,
    validate_message, validate_presence, validate_slug, write_document, BoardState, EncodedDocument,
    Filed, Layout, MessageDraft, Placed,
};
use crate::text::{hex_digits, precedes, texts, views};
use crate::ulids::{is_alphanumeric, is_ulid, random_suffix, IdSource};
use crate::walk::{is_document, Entry, EntryView, Pruning};
use vstd::prelude::*;

verus! {

/// The key of a session has its ASCII letters and digits in their order, the letters
/// small, and nothing else of it.
pub proof fn law_session_key_has_letters_and_digits(a: Seq<char>, b: Seq<char>, c: char)
    ensures
        session_key(seq![]) == Seq::<char>::empty(),
        session_key(a + b) == session_key(a) + session_key(b),
        ('a' <= c && c <= 'z') || ('0' <= c && c <= '9') ==> session_key(seq![c]) == seq![c],
        'A' <= c && c <= 'Z' ==> session_key(seq![c]) == seq![(c as u8 + 32) as char],
        !('a' <= c && c <= 'z') && !('0' <= c && c <= '9') && !('A' <= c && c <= 'Z')
            ==> session_key(seq![c]) == Seq::<char>::empty(),
{
    reveal_with_fuel(Seq::filter, 2);
    let keep = |one: char| is_alphanumeric(one);
    Seq::filter_distributes_over_add(a, b, keep);
    assert(session_key(a + b) =~= session_key(a) + session_key(b));
    let one = seq![c];
    assert(one.drop_last() =~= Seq::<char>::empty());
    assert(one.drop_last().filter(keep) =~= Seq::<char>::empty());
    assert(one.filter(keep) =~= if keep(c) {
        seq![c]
    } else {
        seq![]
    });
    assert(session_key(seq![]) =~= Seq::<char>::empty());
    if keep(c) {
        assert(session_key(one) =~= seq![lower(c)]);
    } else {
        assert(session_key(one) =~= Seq::<char>::empty());
    }
}

/// A session is accepted exactly if something is left of it, and gives its key.
pub proof fn law_session_is_normalized(session: &str, r: Result<String, BoardError>)
    requires
        call_ensures(normalize_session, (session,), r),
    ensures
        r is Ok <==> session_key(session@).len() > 0,
        r matches Ok(key) ==> key@ == session_key(session@),
        r matches Err(error) ==> error.message@
            == "session ID must contain an ASCII letter or number"@,
{
}

/// A name of a project or group is one or more of small letters, digits, `-` and `_`.
pub proof fn law_name_is_accepted_by_its_characters(value: &str, kind: &str, r: Result<(), BoardError>)
    requires
        call_ensures(validate_slug, (value, kind), r),
    ensures
        r is Ok <==> value@.len() > 0 && forall|i: int|
            0 <= i < value@.len() ==> {
                let c = #[trigger] value@[i];
                ('a' <= c && c <= 'z') || ('0' <= c && c <= '9') || c == '-' || c == '_'
            },
        r matches Err(error) ==> error.message@ == kind@
            + " must contain only lowercase ASCII letters, numbers, '-' or '_'"@,
{
}

/// Whether a registration is that of a conversation of a project: its schema, project and
/// session agree, and its identity is made of both.
pub open spec fn is_registered_as(agent: AgentView, project: Seq<char>, key: Seq<char>) -> bool {
    agent.schema == "aiboard.agent.v1"@ && agent.project == project && key.len() > 0 && session_key(
        agent.session_id,
    ) == key && agent.id == project + "-"@ + key
}

/// A registration belongs at a path exactly if it is that of the path's project and
/// session.
pub proof fn law_registration_belongs_at_its_path(
    agent: &Agent,
    project: &str,
    key: &str,
    r: Result<(), BoardError>,
)
    requires
        call_ensures(validate_agent, (agent, project, key), r),
    ensures
        r is Ok <==> is_registered_as(agent@, project@, key@),
{
    reveal_strlit("aiboard.agent.v1");
}

/// A conversation is registered under its project and the key of its session: a new one
/// as it was given, one that is there as it was made. It is refused where the project is
/// no name, the session has no key, or what is there cannot be read or is another's.
pub proof fn law_conversation_is_registered(
    version_root: &str,
    project: &str,
    session_id: &str,
    platform: &str,
    project_path: &str,
    stored: Option<Result<Agent, String>>,
    r: Result<Placed<Agent>, BoardError>,
)
    requires
        call_ensures(
            register_agent,
            (version_root, project, session_id, platform, project_path, stored),
            r,
        ),
    ensures
        ({
            let key = session_key(session_id@);
            &&& r is Ok <==> is_slug(project@) && key.len() > 0 && (stored is None || (
            stored->Some_0 is Ok && is_registered_as(stored->Some_0->Ok_0@, project@, key)
                && stored->Some_0->Ok_0.session_id@ == session_id@))
            &&& r matches Ok(placed) ==> {
                &&& components(placed.path@) == components(version_root@) + seq![
                    "agents"@,
                    project@,
                    key + ".json.zst"@,
                ]
                &&& placed.is_new <==> stored is None
                &&& stored is Some ==> placed.document@ == stored->Some_0->Ok_0@
                &&& stored is None ==> {
                    &&& placed.document.schema@ == "aiboard.agent.v1"@
                    &&& placed.document.id@ == project@ + "-"@ + key
                    &&& placed.document.project@ == project@
                    &&& placed.document.session_id@ == session_id@
                    &&& placed.document.platform@ == platform@
                    &&& placed.document.path@ == project_path@
                }
            }
        }),
{
    let key = session_key(session_id@);
    reveal_strlit("aiboard.agent.v1");
    match r {
        Ok(placed) => {
            lemma_registration_components(version_root@, project@, session_id@);
        },
        Err(_) => {},
    }
}

proof fn lemma_key_without_slash(session: Seq<char>)
    ensures
        !session_key(session).contains('/'),
{
    crate::laws::law_session_key_is_plain(session);
    let key = session_key(session);
    assert forall|i: int| 0 <= i < key.len() implies key[i] != '/' by {
        assert(is_alphanumeric(key[i]));
    }
}

pub proof fn lemma_literal_names()
    ensures
        is_plain("agents"@),
        is_plain("groups"@),
        is_plain("members"@),
        is_plain("messages"@),
        is_plain("presence"@),
        is_plain("group.json.zst"@),
        is_plain("v1"@),
        "group"@ + ".json.zst"@ == "group.json.zst"@,
{
    reveal_strlit("agents");
    reveal_strlit("groups");
    reveal_strlit("members");
    reveal_strlit("messages");
    reveal_strlit("presence");
    reveal_strlit("group");
    reveal_strlit(".json.zst");
    reveal_strlit("group.json.zst");
    reveal_strlit("v1");
    reveal_strlit(".");
    assert("group"@ + ".json.zst"@ =~= "group.json.zst"@);
    assert("v1"@.len() == 2);
    assert("agents"@.len() == 6);
    assert("groups"@.len() == 6);
    assert("members"@.len() == 7);
    assert("messages"@.len() == 8);
    assert("presence"@.len() == 8);
    assert("group.json.zst"@.len() == 14);
}

pub proof fn lemma_registration_components(
    version_root: Seq<char>,
    project: Seq<char>,
    session_id: Seq<char>,
)
    requires
        is_slug(project),
    ensures
        components(crate::storage::agent_path(version_root, project, session_key(session_id)))
            == components(version_root) + seq![
            "agents"@,
            project,
            session_key(session_id) + ".json.zst"@,
        ],
{
    let key = session_key(session_id);
    lemma_literal_names();
    lemma_slug_is_plain(project);
    lemma_key_without_slash(session_id);
    lemma_document_name(key);
    let a = child(version_root, "agents"@);
    let b = child(a, project);
    lemma_child_components(version_root, "agents"@);
    lemma_child_components(a, project);
    lemma_child_components(b, key + ".json.zst"@);
    assert(components(child(b, key + ".json.zst"@)) =~= components(version_root) + seq![
        "agents"@,
        project,
        key + ".json.zst"@,
    ]);
}

/// A group is created under its name by the agent that asks: a new one as it was given,
/// one that is there as it was made. It is refused where its name is none or that of
/// everyone's group, or what is there cannot be read or is another's.
pub proof fn law_group_is_created(
    version_root: &str,
    name: &str,
    agent_id: &str,
    stored: Option<Result<Group, String>>,
    r: Result<Placed<Group>, BoardError>,
)
    requires
        call_ensures(create_group, (version_root, name, agent_id, stored), r),
    ensures
        r is Ok <==> is_slug(name@) && name@ != "global"@ && (stored is None || (stored->Some_0 is Ok
            && stored->Some_0->Ok_0.schema@ == "aiboard.group.v1"@ && stored->Some_0->Ok_0.name@
            == name@)),
        r matches Ok(placed) ==> {
            &&& components(placed.path@) == components(version_root@) + seq![
                "groups"@,
                name@,
                "group.json.zst"@,
            ]
            &&& placed.is_new <==> stored is None
            &&& stored is Some ==> placed.document@ == stored->Some_0->Ok_0@
            &&& stored is None ==> {
                &&& placed.document.schema@ == "aiboard.group.v1"@
                &&& placed.document.name@ == name@
                &&& placed.document.created_by@ == agent_id@
            }
        },
{
    reveal_strlit("aiboard.group.v1");
    match r {
        Ok(placed) => {
            lemma_literal_names();
            lemma_slug_is_plain(name@);
            let a = child(version_root@, "groups"@);
            let b = child(a, name@);
            lemma_child_components(version_root@, "groups"@);
            lemma_child_components(a, name@);
            lemma_child_components(b, "group.json.zst"@);
            assert(components(placed.path@) =~= components(version_root@) + seq![
                "groups"@,
                name@,
                "group.json.zst"@,
            ]);
        },
        Err(_) => {},
    }
}

/// An agent joins a group that is there: a new membership is its own, one that is there
/// stays as it was made.
pub proof fn law_group_is_joined(
    version_root: &str,
    name: &str,
    agent_id: &str,
    group_exists: bool,
    stored: Option<Result<Membership, String>>,
    r: Result<Placed<Membership>, BoardError>,
)
    requires
        call_ensures(join_group, (version_root, name, agent_id, group_exists, stored), r),
        !agent_id@.contains('/'),
    ensures
        r is Ok <==> is_slug(name@) && group_exists && (stored is None || (stored->Some_0 is Ok
            && stored->Some_0->Ok_0.schema@ == "aiboard.membership.v1"@
            && stored->Some_0->Ok_0.group@ == name@ && stored->Some_0->Ok_0.agent@ == agent_id@)),
        r matches Ok(placed) ==> {
            &&& components(placed.path@) == components(version_root@) + seq![
                "groups"@,
                name@,
                "members"@,
                agent_id@ + ".json.zst"@,
            ]
            &&& placed.is_new <==> stored is None
            &&& stored is Some ==> placed.document@ == stored->Some_0->Ok_0@
            &&& stored is None ==> {
                &&& placed.document.schema@ == "aiboard.membership.v1"@
                &&& placed.document.group@ == name@
                &&& placed.document.agent@ == agent_id@
            }
        },
{
    reveal_strlit("aiboard.membership.v1");
    match r {
        Ok(placed) => {
            lemma_literal_names();
            lemma_slug_is_plain(name@);
            lemma_document_name(agent_id@);
            let a = child(version_root@, "groups"@);
            let b = child(a, name@);
            let c = child(b, "members"@);
            lemma_child_components(version_root@, "groups"@);
            lemma_child_components(a, name@);
            lemma_child_components(b, "members"@);
            lemma_child_components(c, agent_id@ + ".json.zst"@);
            assert(components(placed.path@) =~= components(version_root@) + seq![
                "groups"@,
                name@,
                "members"@,
                agent_id@ + ".json.zst"@,
            ]);
        },
        Err(_) => {},
    }
}

/// A group and a membership belong at a path exactly if their schema and names are the
/// path's.
pub proof fn law_group_records_belong_at_their_paths(
    group: &Group,
    membership: &Membership,
    name: &str,
    agent: &str,
    r: Result<(), BoardError>,
    joined: Result<(), BoardError>,
)
    requires
        call_ensures(validate_group, (group, name), r),
        call_ensures(validate_membership, (membership, name, agent), joined),
    ensures
        r is Ok <==> group.schema@ == "aiboard.group.v1"@ && group.name@ == name@,
        joined is Ok <==> membership.schema@ == "aiboard.membership.v1"@ && membership.group@
            == name@ && membership.agent@ == agent@,
{
    reveal_strlit("aiboard.group.v1");
    reveal_strlit("aiboard.membership.v1");
}

/// A message belongs at a path exactly if its schema and identifier are the path's, the
/// identifier is sound, and it goes either to agents or to one group.
pub proof fn law_message_belongs_at_its_path(message: &Message, id: &str, r: Result<(), BoardError>)
    requires
        call_ensures(validate_message, (message, id), r),
    ensures
        r is Ok <==> message.schema@ == "aiboard.message.v1"@ && message.id@ == id@ && is_ulid(id@)
            && (message.to@.len() > 0 <==> message.group is None),
{
    reveal_strlit("aiboard.message.v1");
    assert(texts(message.to@).len() == message.to@.len());
}

/// A sign of life belongs at a path exactly if its schema, identifier and agent are the
/// path's, the identifier is sound, and its date can be read.
pub proof fn law_sign_of_life_belongs_at_its_path(
    presence: &Presence,
    id: &str,
    agent_id: &str,
    r: Result<(), BoardError>,
)
    requires
        call_ensures(validate_presence, (presence, id, agent_id), r),
    ensures
        r is Ok <==> presence.schema@ == "aiboard.presence.v1"@ && presence.id@ == id@
            && presence.agent@ == agent_id@ && is_ulid(id@) && rfc3339_reading(presence.last_seen@)
            is Ok,
{
    reveal_strlit("aiboard.presence.v1");
}

/// A new sign of life is its agent's, is stored among its signs under its own identifier,
/// and belongs there.
pub proof fn law_sign_of_life_is_its_agents(
    ids: &mut IdSource,
    version_root: &str,
    agent_id: &str,
    r: Filed<Presence>,
)
    requires
        call_ensures(touch_presence, (ids, version_root, agent_id), r),
        is_plain(agent_id@),
    ensures
        r.document.schema@ == "aiboard.presence.v1"@,
        r.document.agent@ == agent_id@,
        is_ulid(r.document.id@),
        components(r.path@) == components(version_root@) + seq![
            "presence"@,
            agent_id@,
            r.document.id@ + ".json.zst"@,
        ],
{
    lemma_literal_names();
    crate::expiry_laws::lemma_identifier_names(r.document.id@);
    lemma_document_name(r.document.id@);
    let a = child(version_root@, "presence"@);
    let b = child(a, agent_id@);
    lemma_child_components(version_root@, "presence"@);
    lemma_child_components(a, agent_id@);
    lemma_child_components(b, r.document.id@ + ".json.zst"@);
    assert(components(r.path@) =~= components(version_root@) + seq![
        "presence"@,
        agent_id@,
        r.document.id@ + ".json.zst"@,
    ]);
}

/// The first version of a board stands in its own directory, with one for each kind of
/// record.
pub proof fn law_layout_has_a_directory_for_each_kind(root: &str, r: Layout)
    requires
        call_ensures(ensure_layout, (root,), r),
    ensures
        components(r.version_root@) == components(root@).push("v1"@),
        r.directories@.len() == 4,
        components(r.directories@[0]@) == components(r.version_root@).push("agents"@),
        components(r.directories@[1]@) == components(r.version_root@).push("groups"@),
        components(r.directories@[2]@) == components(r.version_root@).push("messages"@),
        components(r.directories@[3]@) == components(r.version_root@).push("presence"@),
{
    lemma_literal_names();
    let list = texts(r.directories@);
    assert(list.len() == r.directories@.len());
    assert(list[0] == r.directories@[0]@);
    assert(list[1] == r.directories@[1]@);
    assert(list[2] == r.directories@[2]@);
    assert(list[3] == r.directories@[3]@);
    lemma_child_components(root@, "v1"@);
    lemma_child_components(r.version_root@, "agents"@);
    lemma_child_components(r.version_root@, "groups"@);
    lemma_child_components(r.version_root@, "messages"@);
    lemma_child_components(r.version_root@, "presence"@);
}

/// The members of a group are those who joined it, and the groups of an agent those that
/// it joined, in order and each once.
pub proof fn law_members_are_those_who_joined(
    state: &BoardState,
    group: &str,
    agent: &str,
    members: Vec<String>,
    groups: Vec<String>,
    name: Seq<char>,
)
    requires
        call_ensures(group_members, (state, group), members),
        call_ensures(joined_groups, (state, agent), groups),
    ensures
        ascending(texts(members@)),
        ascending(texts(groups@)),
        texts(members@).contains(name) <==> state@.memberships.contains((group@, name)),
        texts(groups@).contains(name) <==> state@.memberships.contains((name, agent@)),
{
    assert(texts(members@).contains(name) <==> texts(members@).to_set().contains(name));
    assert(texts(groups@).contains(name) <==> texts(groups@).to_set().contains(name));
}

/// A draft is accepted exactly if it goes either to agents or to one group, has a
/// character that is not white space, and does not outlast the calendar.
pub proof fn law_draft_is_accepted(draft: &MessageDraft, now: Moment, r: Result<(), BoardError>)
    requires
        on_clock(now),
        call_ensures(check_draft, (draft, now), r),
    ensures
        r is Ok <==> {
            &&& draft.to@.len() > 0 <==> draft.group is None
            &&& exists|i: int|
                0 <= i < draft.body@.len() && !crate::storage::is_blank_char(
                    #[trigger] draft.body@[i],
                )
            &&& draft.ttl_seconds matches Some(ttl) ==> now.seconds + ttl <= 8_210_266_876_799
        },
{
    assert(texts(draft.to@).len() == draft.to@.len());
}

/// A document is written beside its place under a hidden name that no reader takes for a
/// document, with the bytes that were made.
pub proof fn law_unfinished_document_is_hidden(
    path: &str,
    suffix: u64,
    frame: Result<Vec<u8>, String>,
    r: Result<EncodedDocument, BoardError>,
)
    requires
        call_ensures(place_document, (path, suffix, frame), r),
    ensures
        r is Ok <==> parent(path@) is Some && last_name(path@) is Some && frame is Ok,
        r matches Ok(document) ==> {
            &&& document.bytes@ == frame->Ok_0@
            &&& !is_document(document.temporary_path@)
            &&& components(document.temporary_path@) == components(parent(path@)->Some_0).push(
                "."@ + last_name(path@)->Some_0 + "."@ + hex_digits(suffix as nat, 16) + ".part"@,
            )
        },
{
    match r {
        Ok(document) => {
            let name = last_name(path@)->Some_0;
            let hidden = temporary_name(name, suffix);
            lemma_hidden_name(path@, name, suffix);
            lemma_child_components(parent(path@)->Some_0, hidden);
            assert(last_name(document.temporary_path@) == Some(hidden));
        },
        Err(_) => {},
    }
}

proof fn lemma_hex_chars(n: nat, width: nat)
    ensures
        hex_digits(n, width).len() == width,
        forall|i: int|
            0 <= i < width ==> {
                let c = #[trigger] hex_digits(n, width)[i];
                ('0' <= c && c <= '9') || ('a' <= c && c <= 'f')
            },
    decreases width,
{
    if width > 0 {
        lemma_hex_chars(n / 16, (width - 1) as nat);
    }
}

proof fn lemma_counted_from(list: Seq<Seq<char>>, piece: Seq<char>)
    ensures
        crate::path::counted(list).contains(piece) ==> list.contains(piece),
    decreases list.len(),
{
    if list.len() > 0 {
        let init = list.drop_last();
        let all = crate::path::counted(list);
        lemma_counted_from(init, piece);
        if all.contains(piece) {
            let before = crate::path::counted(init);
            let k = choose|k: int| 0 <= k < all.len() && all[k] == piece;
            if k < before.len() {
                assert(before[k] == piece);
                let j = choose|j: int| 0 <= j < init.len() && init[j] == piece;
                assert(list[j] == piece);
            } else {
                assert(list[list.len() - 1] == piece);
            }
        }
    }
}

/// The name that a path ends in has no slash.
proof fn lemma_name_without_slash(path: Seq<char>)
    requires
        last_name(path) is Some,
    ensures
        !last_name(path)->Some_0.contains('/'),
{
    reveal_strlit("/");
    let parts = components(path);
    let name = parts.last();
    let list = crate::path::pieces(path);
    crate::expiry_laws::lemma_pieces_plain(path);
    lemma_counted_from(list, name);
    assert(crate::path::counted(list).contains(name)) by {
        let inner = crate::path::counted(list);
        if crate::path::is_rooted(path) {
            assert(parts.len() > 1);
            assert(inner[parts.len() - 2] == name);
        } else {
            assert(inner[parts.len() - 1] == name);
        }
    }
    let k = choose|k: int| 0 <= k < list.len() && list[k] == name;
    assert(!list[k].contains('/'));
}

proof fn lemma_hidden_name(path: Seq<char>, name: Seq<char>, suffix: u64)
    requires
        last_name(path) == Some(name),
    ensures
        is_plain(temporary_name(name, suffix)),
        is_name(temporary_name(name, suffix)),
        !crate::text::ends_with(temporary_name(name, suffix), ".json.zst"@),
{
    reveal_strlit(".");
    reveal_strlit("..");
    reveal_strlit("/");
    reveal_strlit(".part");
    reveal_strlit(".json.zst");
    let hidden = temporary_name(name, suffix);
    let digits = hex_digits(suffix as nat, 16);
    lemma_hex_chars(suffix as nat, 16);
    lemma_name_without_slash(path);
    assert(!name.contains('/'));
    assert(hidden.len() == name.len() + 23);
    assert forall|i: int| 0 <= i < hidden.len() implies hidden[i] != '/' by {
        if 1 <= i < 1 + name.len() {
            assert(hidden[i] == name[i - 1]);
            assert(name.contains(name[i - 1]));
        } else if name.len() + 2 <= i < name.len() + 18 {
            assert(hidden[i] == digits[i - name.len() - 2]);
        }
    }
    assert(hidden[hidden.len() - 1] == 't');
    assert(hidden[hidden.len() - 2] == 'r');
    let tail = hidden.skip(hidden.len() - 9);
    assert(tail[8] == 't' && tail[7] == 'r');
    assert(".json.zst"@[7] == 's');
}

/// What is read of a document is its content; a failure says which document it was.
pub proof fn law_document_is_unpacked(
    path: &str,
    content: Result<Vec<u8>, String>,
    r: Result<Vec<u8>, BoardError>,
)
    requires
        call_ensures(unpack_document, (path, content), r),
    ensures
        r is Ok <==> content is Ok,
        r matches Ok(json) ==> json@ == content->Ok_0@,
        r matches Err(error) ==> error.message@ == "decode JSON "@ + path@ + ": "@
            + content->Err_0@,
{
}

/// Only "not a typewriter" lets a failed synchronization pass.
pub proof fn law_one_failure_passes(os_error: Option<i32>, r: bool)
    requires
        call_ensures(synchronize_document, (os_error,), r),
    ensures
        r <==> os_error is Some && os_error->Some_0 == 25,
{
}

/// The documents of a directory are its entries with the names of documents, in their
/// order.
pub proof fn law_documents_are_told_by_their_names(entries: Seq<EntryView>, next: EntryView)
    ensures
        named_documents(seq![]) == Seq::<Seq<char>>::empty(),
        named_documents(entries.push(next)) == if document_title(next.path) is Some {
            named_documents(entries).push(next.path)
        } else {
            named_documents(entries)
        },
{
    assert(entries.push(next).drop_last() =~= entries);
}

/// What is written of a document is read back from its bytes, and is written under a name
/// that no reader takes for a document.
pub proof fn law_written_document_is_read_back(
    path: &str,
    json: &[u8],
    written: Result<EncodedDocument, BoardError>,
    bytes: &[u8],
    read: Result<Vec<u8>, BoardError>,
)
    requires
        call_ensures(write_document, (path, json), written),
        written is Ok,
        bytes@ == written->Ok_0.bytes@,
        call_ensures(read_document, (path, bytes), read),
    ensures
        read is Ok ==> read->Ok_0@ == json@,
        !is_document(written->Ok_0.temporary_path@),
        parent(path@) is Some,
        last_name(path@) is Some,
{
    let suffix = choose|suffix: u64| #[trigger]
        crate::storage::is_encoded(written, path@, json@, suffix);
    let name = last_name(path@)->Some_0;
    let hidden = temporary_name(name, suffix);
    lemma_hidden_name(path@, name, suffix);
    lemma_child_components(parent(path@)->Some_0, hidden);
    assert(last_name(written->Ok_0.temporary_path@) == Some(hidden));
}

/// Of the signs of life of an agent the last ones are kept, as many as are to be retained,
/// and the others go; what is no document is left alone.
pub proof fn law_pruning_keeps_the_last_signs(
    entries: &Vec<Entry>,
    retain: usize,
    r: Pruning,
    gone: int,
    kept: int,
)
    requires
        call_ensures(prune_presence, (entries, retain), r),
        0 <= gone < r.removed@.len(),
        0 <= kept < r.kept@.len(),
    ensures
        r.kept@.len() == retain,
        r.removed@.len() + r.kept@.len() == named_documents(views(entries@)).len(),
        named_documents(views(entries@)).contains(r.removed@[gone]@),
        !path_precedes(components(r.kept@[kept]@), components(r.removed@[gone]@)),
{
    let all = texts(r.removed@) + texts(r.kept@);
    let named = named_documents(views(entries@));
    all.to_multiset_ensures();
    named.to_multiset_ensures();
    assert(texts(r.removed@).len() == r.removed@.len());
    assert(texts(r.kept@).len() == r.kept@.len());
    assert(all[gone] == r.removed@[gone]@);
    assert(all[r.removed@.len() + kept] == r.kept@[kept]@);
    assert(all.contains(all[gone]));
    assert(all.to_multiset().count(all[gone]) > 0);
}

/// A process that takes identifiers one after the other takes larger ones, in canonical
/// form, as long as there are some left in the millisecond.
pub proof fn law_identifiers_are_taken_in_order(
    first: &mut IdSource,
    second: &mut IdSource,
    a: String,
    b: String,
)
    requires
        call_ensures(IdSource::next_id, (first,), a),
        call_ensures(IdSource::next_id, (second,), b),
        *final(first) == *old(second),
        !crate::ulids::is_exhausted(old(first).last()),
        !crate::ulids::is_exhausted(old(second).last()),
    ensures
        crate::ulids::is_canonical(a@),
        crate::ulids::is_canonical(b@),
        precedes(a@, b@),
{
    crate::laws::law_identifiers_of_a_process_ascend(
        a@,
        b@,
        *old(first),
        *final(first),
        *final(second),
    );
}

/// The bits from chance in a temporary name are the last 64 of an identifier.
pub proof fn law_suffix_is_the_end_of_an_identifier(value: u128, r: u64)
    requires
        call_ensures(random_suffix, (value,), r),
    ensures
        r == value % 0x1_0000_0000_0000_0000u128,
{
}

} // verus!
