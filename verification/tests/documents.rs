//! Agents, groups, presence and messages, one by one.
use zboard::clock::{current_moment, read_moment, write_moment, Moment};
use zboard::frame::{decode_document, encode_document};
use zboard::model::{
    Agent, Group, Membership, Message, Presence, AGENT_SCHEMA, GROUP_SCHEMA, MEMBERSHIP_SCHEMA,
    MESSAGE_SCHEMA, PRESENCE_SCHEMA,
};
use zboard::routed::is_expired;
use zboard::storage::{
    agent_statuses_at, check_draft, compose_message, create_group, direct_reply_recipients,
    group_members, join_group, joined_groups, message_is_relevant, normalize_session,
    publish_message, read_document, register_agent, synchronize_document, touch_presence,
    validate_agent, validate_group, validate_membership, validate_message, validate_presence,
    validate_slug, BoardState, MessageDraft,
};
use zboard::ulids::{random_suffix, ulid_time, unordered_id, IdSource};

const ID: &str = "01K4FQ1983KJF2D2J7FQ0FJ3T4";

fn agent() -> Agent {
    Agent {
        schema: AGENT_SCHEMA.to_owned(),
        id: "infra-session123".to_owned(),
        project: "infra".to_owned(),
        session_id: "session-123".to_owned(),
        platform: "linux".to_owned(),
        path: "/one".to_owned(),
        registered_at: "2026-09-06T15:10:00.000Z".to_owned(),
    }
}

fn message() -> Message {
    Message {
        schema: MESSAGE_SCHEMA.to_owned(),
        id: ID.to_owned(),
        timestamp: "2026-09-06T15:20:31.418Z".to_owned(),
        from: "worka-one".to_owned(),
        to: vec!["infra-two".to_owned(), "keldra-three".to_owned()],
        group: None,
        thread: ID.to_owned(),
        reply_to: None,
        message: "hello".to_owned(),
        meta: None,
        expires_at: None,
    }
}

fn draft(body: &str) -> MessageDraft {
    MessageDraft {
        to: vec!["infra-two".to_owned()],
        group: None,
        thread: None,
        reply_to: None,
        body: body.to_owned(),
        meta: None,
        ttl_seconds: None,
    }
}

const NOW: Moment = Moment { seconds: 1_788_708_031, nanos: 418_999_999 };

#[test]
fn sessions_are_normalized() {
    assert_eq!(normalize_session("Session-123").unwrap(), "session123");
    assert_eq!(normalize_session("019923B8-c112 ä").unwrap(), "019923b8c112");
    assert_eq!(normalize_session("session123").unwrap(), "session123");
    assert_eq!(
        normalize_session("-- ä").unwrap_err().message,
        "session ID must contain an ASCII letter or number"
    );
}

#[test]
fn slugs_are_lowercase_words() {
    assert!(validate_slug("job-01_m1", "group").is_ok());
    for refused in ["", "Job", "a b", "a/b", "ä", "a."] {
        assert_eq!(
            validate_slug(refused, "project").unwrap_err().message,
            "project must contain only lowercase ASCII letters, numbers, '-' or '_'"
        );
    }
}

fn register(project: &str, session: &str, stored: Option<Result<Agent, String>>) -> Result<Agent, String> {
    register_agent("/board/v1", project, session, "macos", "/two", stored)
        .map(|placed| {
            assert_eq!(placed.path, "/board/v1/agents/infra/session123.json.zst");
            placed.document
        })
        .map_err(|error| error.message)
}

#[test]
fn registration_finds_or_makes_an_agent() {
    let made = register("infra", "session-123", None).unwrap();
    assert_eq!(made.id, "infra-session123");
    assert_eq!(made.platform, "macos");
    assert_eq!(made.path, "/two");
    assert!(read_moment(&made.registered_at).is_ok());
    assert_eq!(register("infra", "session-123", Some(Ok(agent()))).unwrap(), agent());
}

#[test]
fn registration_refuses_conflicts() {
    assert_eq!(
        register("Infra", "session-123", None).unwrap_err(),
        "project must contain only lowercase ASCII letters, numbers, '-' or '_'"
    );
    assert_eq!(
        register("infra", "---", None).unwrap_err(),
        "session ID must contain an ASCII letter or number"
    );
    assert_eq!(
        register("infra", "session-123", Some(Err("open x: gone".to_owned()))).unwrap_err(),
        "open x: gone"
    );
    assert_eq!(
        register("infra", "SESSION123", Some(Ok(agent()))).unwrap_err(),
        "agent registration conflicts with an existing normalized session ID"
    );
}

#[test]
fn agents_belong_at_their_paths() {
    let check = |agent: &Agent| {
        validate_agent(agent, "infra", "session123").map_err(|error| error.message)
    };
    assert_eq!(check(&agent()), Ok(()));
    let mut other = agent();
    other.schema = "aiboard.agent.v2".to_owned();
    assert_eq!(check(&other), Err("unsupported agent schema 'aiboard.agent.v2'".to_owned()));
    let mut other = agent();
    other.project = "worka".to_owned();
    let elsewhere = Err("agent path does not agree with document identity".to_owned());
    assert_eq!(check(&other), elsewhere);
    let mut other = agent();
    other.session_id = "other".to_owned();
    assert_eq!(check(&other), elsewhere);
    let mut other = agent();
    other.session_id = "-".to_owned();
    assert_eq!(
        check(&other),
        Err("session ID must contain an ASCII letter or number".to_owned())
    );
    let mut other = agent();
    other.id = "infra-x".to_owned();
    assert_eq!(
        check(&other),
        Err("agent ID does not agree with project and session".to_owned())
    );
}

#[test]
fn groups_are_created_once() {
    let group = Group {
        schema: GROUP_SCHEMA.to_owned(),
        name: "release".to_owned(),
        created_by: "worka-one".to_owned(),
        created_at: "2026-09-06T15:30:00.000Z".to_owned(),
    };
    let create = |name: &str, stored| {
        create_group("/board/v1", name, "infra-two", stored).map_err(|error| error.message)
    };
    let made = create("release", None).unwrap();
    assert!(made.is_new);
    assert_eq!(made.path, "/board/v1/groups/release/group.json.zst");
    assert_eq!(made.document.created_by, "infra-two");
    let found = create("release", Some(Ok(group.clone()))).unwrap();
    assert!(!found.is_new);
    assert_eq!(found.document, group);
    assert_eq!(create("global", None).err().unwrap(), "global is a built-in group");
    assert_eq!(
        create("project:x", None).err().unwrap(),
        "group must contain only lowercase ASCII letters, numbers, '-' or '_'"
    );
    assert_eq!(
        create("other", Some(Ok(group.clone()))).err().unwrap(),
        "group path does not agree with document identity"
    );
    assert_eq!(create("other", Some(Err("bad".to_owned()))).err().unwrap(), "bad");
    assert!(validate_group(&group, "release").is_ok());
}

#[test]
fn groups_are_joined_once() {
    let membership = Membership {
        schema: MEMBERSHIP_SCHEMA.to_owned(),
        group: "release".to_owned(),
        agent: "infra-two".to_owned(),
        joined_at: "2026-09-06T15:31:00.000Z".to_owned(),
    };
    let join = |name: &str, there: bool, stored| {
        join_group("/board/v1", name, "infra-two", there, stored).map_err(|error| error.message)
    };
    let made = join("release", true, None).unwrap();
    assert!(made.is_new);
    assert_eq!(made.path, "/board/v1/groups/release/members/infra-two.json.zst");
    let found = join("release", true, Some(Ok(membership.clone()))).unwrap();
    assert!(!found.is_new);
    assert_eq!(found.document, membership);
    assert_eq!(join("release", false, None).err().unwrap(), "unknown group 'release'");
    assert_eq!(
        join("Release", true, None).err().unwrap(),
        "group must contain only lowercase ASCII letters, numbers, '-' or '_'"
    );
    assert_eq!(
        join("other", true, Some(Ok(membership.clone()))).err().unwrap(),
        "membership path does not agree with document identity"
    );
    assert_eq!(join("other", true, Some(Err("bad".to_owned()))).err().unwrap(), "bad");
    assert!(validate_membership(&membership, "release", "infra-two").is_ok());
}

#[test]
fn messages_belong_at_their_paths() {
    let check = |message: &Message, id: &str| {
        validate_message(message, id).map_err(|error| error.message)
    };
    assert_eq!(check(&message(), ID), Ok(()));
    assert_eq!(
        check(&message(), "other"),
        Err("message path does not agree with document identity".to_owned())
    );
    let mut other = message();
    other.id = "short".to_owned();
    assert_eq!(check(&other, "short"), Err("invalid message ULID: invalid length".to_owned()));
    let target = Err("message must target direct recipients or one group".to_owned());
    let mut other = message();
    other.group = Some("release".to_owned());
    assert_eq!(check(&other, ID), target);
    other.to.clear();
    assert_eq!(check(&other, ID), Ok(()));
    other.group = None;
    assert_eq!(check(&other, ID), target);
}

#[test]
fn signs_of_life_belong_at_their_paths() {
    let sign = Presence {
        schema: PRESENCE_SCHEMA.to_owned(),
        id: ID.to_owned(),
        agent: "infra-two".to_owned(),
        last_seen: "2026-09-06T15:20:31.418Z".to_owned(),
    };
    let check = |sign: &Presence, id: &str| {
        validate_presence(sign, id, "infra-two").map_err(|error| error.message)
    };
    assert_eq!(check(&sign, ID), Ok(()));
    assert_eq!(
        check(&sign, "other"),
        Err("presence path does not agree with document identity".to_owned())
    );
    let mut other = sign.clone();
    other.id = "0!".to_owned();
    assert_eq!(check(&other, "0!"), Err("invalid presence ULID: invalid length".to_owned()));
    let mut other = sign.clone();
    other.last_seen = "yesterday".to_owned();
    let expected = chrono::DateTime::parse_from_rfc3339("yesterday").unwrap_err();
    assert_eq!(check(&other, ID), Err(format!("invalid presence timestamp: {expected}")));
}

#[test]
fn presence_is_touched_in_order() {
    let mut ids = IdSource::new();
    let first = touch_presence(&mut ids, "/board/v1", "infra-two");
    let second = touch_presence(&mut ids, "/board/v1", "infra-two");
    assert!(first.document.id < second.document.id);
    assert_eq!(
        second.path,
        format!("/board/v1/presence/infra-two/{}.json.zst", second.document.id)
    );
    assert!(validate_presence(&first.document, &first.document.id, "infra-two").is_ok());
}

#[test]
fn drafts_are_checked() {
    let check = |draft: &MessageDraft| check_draft(draft, NOW).map_err(|error| error.message);
    assert_eq!(check(&draft("hello")), Ok(()));
    let both = Err("provide direct recipients or one group, but not both".to_owned());
    let mut other = draft("hello");
    other.group = Some("global".to_owned());
    assert_eq!(check(&other), both);
    other.to.clear();
    assert_eq!(check(&other), Ok(()));
    other.group = None;
    assert_eq!(check(&other), both);
    let empty = Err("message must not be empty".to_owned());
    assert_eq!(check(&draft("")), empty);
    assert_eq!(check(&draft(" \t\n\u{a0}\u{2003}\u{3000}")), empty);
    assert_eq!(check(&draft(" \u{200b} ")), Ok(()));
    let mut other = draft("hello");
    other.ttl_seconds = Some(u64::MAX);
    assert_eq!(check(&other), Err("message lifetime is out of range".to_owned()));
    let mut ids = IdSource::new();
    assert_eq!(
        publish_message(&mut ids, "worka-one", draft("")).unwrap_err().message,
        "message must not be empty"
    );
}

#[test]
fn messages_are_composed() {
    let mut with_lifetime = draft("hello");
    with_lifetime.ttl_seconds = Some(86_400);
    with_lifetime.meta = Some("{\"a\":1}".to_owned());
    let message = compose_message("worka-one", with_lifetime, ID.to_owned(), NOW);
    assert_eq!(message.schema, "aiboard.message.v1");
    assert_eq!(message.timestamp, "2026-09-06T15:20:31.418Z");
    assert_eq!(message.expires_at.as_deref(), Some("2026-09-07T15:20:31.418Z"));
    assert_eq!(message.thread, ID);
    assert_eq!(message.reply_to, None);
    assert_eq!(message.from, "worka-one");
    assert_eq!(message.meta.as_deref(), Some("{\"a\":1}"));
    let end = NOW.seconds + 86_400;
    assert!(!is_expired(&message, Moment { seconds: end, nanos: 417_999_999 }));
    assert!(is_expired(&message, Moment { seconds: end, nanos: 418_000_000 }));
    assert!(!is_expired(&message, NOW));

    let mut answer = draft("yes");
    answer.thread = Some("THREAD".to_owned());
    answer.reply_to = Some("PARENT".to_owned());
    let reply = compose_message("infra-two", answer, ID.to_owned(), NOW);
    assert_eq!(reply.thread, "THREAD");
    assert_eq!(reply.reply_to.as_deref(), Some("PARENT"));
    assert_eq!(reply.expires_at, None);
    assert!(!is_expired(&reply, NOW));
}

#[test]
fn unreadable_dates_never_expire() {
    let mut other = message();
    other.expires_at = Some("soon".to_owned());
    assert!(!is_expired(&other, current_moment()));
}

#[test]
fn published_messages_are_in_order() {
    let mut ids = IdSource::new();
    let mut last = String::new();
    for body in ["one", "two", "three"] {
        let message = publish_message(&mut ids, "worka-one", draft(body)).unwrap();
        assert!(last < message.id);
        assert!(validate_message(&message, &message.id).is_ok());
        last = message.id;
    }
}

#[test]
fn replies_go_to_the_others() {
    assert_eq!(
        direct_reply_recipients(&message(), "infra-two"),
        vec!["keldra-three".to_owned(), "worka-one".to_owned()]
    );
    assert_eq!(
        direct_reply_recipients(&message(), "worka-one"),
        vec!["infra-two".to_owned(), "keldra-three".to_owned()]
    );
    let mut alone = message();
    alone.to = vec!["worka-one".to_owned(), "worka-one".to_owned()];
    assert!(direct_reply_recipients(&alone, "worka-one").is_empty());
}

#[test]
fn own_messages_are_not_relevant() {
    let state = BoardState::new();
    let mut me = agent();
    me.id = "worka-one".to_owned();
    assert!(!message_is_relevant(&state, &me, &message()));
    let mut to_all = message();
    to_all.to.clear();
    to_all.group = Some("global".to_owned());
    assert!(!message_is_relevant(&state, &me, &to_all));
    assert!(message_is_relevant(&state, &agent(), &to_all));
    to_all.to = vec!["worka-one".to_owned()];
    assert!(!message_is_relevant(&state, &me, &to_all));
}

#[test]
fn members_are_listed_in_order() {
    let mut state = BoardState::new();
    for (group, agent) in [("b", "z"), ("a", "z"), ("a", "y"), ("a", "z")] {
        state.memberships.insert(group.to_owned(), agent.to_owned());
    }
    assert_eq!(group_members(&state, "a"), vec!["y".to_owned(), "z".to_owned()]);
    assert!(group_members(&state, "c").is_empty());
    assert_eq!(joined_groups(&state, "z"), vec!["a".to_owned(), "b".to_owned()]);
}

#[test]
fn presence_lasts_sixty_seconds() {
    let mut state = BoardState::new();
    state.agents.insert(agent().id, agent());
    let status = agent_statuses_at(&state, NOW).pop().unwrap();
    assert!(!status.online);
    assert_eq!(status.last_seen, None);
    assert_eq!(status.age_seconds, None);
    for (before, nanos, age, online) in [
        (0, 418_999_999, 0, true),
        (60, 0, 60, true),
        (61, 418_999_999, 61, false),
        (61, 500_000_000, 60, true),
        (-5, 0, 0, true),
    ] {
        let seen = Moment { seconds: NOW.seconds - before, nanos };
        let sign = Presence {
            schema: PRESENCE_SCHEMA.to_owned(),
            id: ID.to_owned(),
            agent: agent().id,
            last_seen: write_moment(seen).unwrap(),
        };
        state.presence.insert(agent().id, sign);
        let status = agent_statuses_at(&state, NOW).pop().unwrap();
        assert_eq!(status.age_seconds, Some(age), "{before}");
        assert_eq!(status.online, online, "{before}");
    }
}

#[test]
fn identifiers_read_and_sort() {
    assert_eq!(ulid_time(ID), Some(1_757_169_100_035));
    assert_eq!(ulid_time(&ID.to_lowercase()), Some(1_757_169_100_035));
    assert_eq!(ulid_time("short"), None);
    assert_eq!(ulid_time("7ZZZZZZZZZZZZZZZZZZZZZZZZZ"), Some(0xffff_ffff_ffff));
    assert_eq!(ulid_time("8000000000000000000000000A"), Some(0));
    assert_eq!(ulid_time("0000000001U000000000000000"), None);
    assert_eq!(ulid_time("000000000\u{e9}00000000000000A"), None);
    assert_eq!(random_suffix(2_124_287_094_462_052_303_972_708_103_900_172_100), 2_777_110_725_661_364_036);
    let id = unordered_id();
    assert_eq!(id.len(), 26);
    let millis = ulid_time(&id).unwrap() as i64;
    assert!((current_moment().seconds - millis / 1000).abs() <= 5);
    let mut ids = IdSource::new();
    let list: Vec<String> = (0..100).map(|_| ids.next_id()).collect();
    assert!(list.windows(2).all(|pair| pair[0] < pair[1]));
}

#[test]
fn dates_are_read_and_written() {
    let moment = read_moment("2026-09-06T17:20:31.418+02:00").unwrap();
    assert_eq!((moment.seconds, moment.nanos), (1_788_708_031, 418_000_000));
    assert_eq!(write_moment(moment).as_deref(), Some("2026-09-06T15:20:31.418Z"));
    assert_eq!(write_moment(NOW).as_deref(), Some("2026-09-06T15:20:31.418Z"));
    assert!(read_moment("2026-09-06").is_err());
    assert_eq!(write_moment(Moment { seconds: i64::MAX, nanos: 0 }), None);
}

#[test]
fn frames_hold_documents() {
    let json = b"{\"message\":\"hello hello hello hello hello hello hello\"}";
    let bytes = encode_document(json).unwrap();
    assert_eq!(&bytes[..4], &[0x28, 0xb5, 0x2f, 0xfd]);
    assert_eq!(decode_document(&bytes).unwrap(), json);
    let mut spoiled = bytes.clone();
    let last = spoiled.len() - 1;
    spoiled[last] ^= 1;
    assert!(decode_document(&spoiled).is_err());
    assert!(decode_document(&bytes[..last]).is_err());
    let failure = read_document("/x/y.json.zst", b"not zstd").unwrap_err().message;
    assert!(failure.starts_with("decode JSON /x/y.json.zst: "));
}

#[test]
fn only_one_failure_to_synchronize_passes() {
    assert!(synchronize_document(Some(25)));
    assert!(!synchronize_document(Some(5)));
    assert!(!synchronize_document(None));
}
