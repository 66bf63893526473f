//! What holds over several calls, on small boards.
use std::collections::BTreeMap;

use zboard::app::{reconcile, run};
use zboard::clock::Moment;
use zboard::model::{
    Agent, Group, Membership, Message, Output, Presence, AGENT_SCHEMA, GROUP_SCHEMA,
    MEMBERSHIP_SCHEMA, MESSAGE_SCHEMA, PRESENCE_SCHEMA,
};
use zboard::routed::{
    acknowledge, history, initialize, message_path, migrate_v1, migration_report,
    publication_paths, publish, reading_routes, recent_paths, scan, write_checkpoint, Findings, RoutedState,
    Sighting,
};
use zboard::storage::{
    agent_document, join_group, place_document, register_agent, scan as scan_board, scan_routed,
    unpack_document, validate_agent, BoardState, ScanResult, Seen, SeenGroup, Snapshot,
};
use zboard::walk::{child_directories, document_files, document_files_recursive, Entry, ListingFailure};

const NOW: Moment = Moment { seconds: 1_757_169_100, nanos: 100_000_000 };
const ID: &str = "01K4FQ1983KJF2D2J7FQ0FJ3T4";
const LATER: &str = "01K4FQ1983KJF2D2J7FQ0FJ3T5";
const OLD: &str = "01K4F00000000000000000000A";

fn agent(id: &str, project: &str, session: &str) -> Agent {
    Agent {
        schema: AGENT_SCHEMA.to_owned(),
        id: id.to_owned(),
        project: project.to_owned(),
        session_id: session.to_owned(),
        platform: "linux".to_owned(),
        path: "/".to_owned(),
        registered_at: String::new(),
    }
}

fn message(id: &str, to: &[&str], group: Option<&str>) -> Message {
    Message {
        schema: MESSAGE_SCHEMA.to_owned(),
        id: id.to_owned(),
        timestamp: "2025-09-06T14:31:40.035Z".to_owned(),
        from: "worka-one".to_owned(),
        to: to.iter().map(|one| one.to_string()).collect(),
        group: group.map(str::to_owned),
        thread: id.to_owned(),
        reply_to: None,
        message: "hello".to_owned(),
        meta: None,
        expires_at: None,
    }
}

/// The documents of a message on all the routes that an agent reads.
fn seen_by(reader: &Agent, groups: &[&str], message: &Message) -> Vec<Sighting> {
    let groups = groups.iter().map(|one| one.to_string()).collect();
    let published = publication_paths("/b", message).unwrap();
    reading_routes(&reader.id, &reader.project, &groups)
        .into_iter()
        .filter_map(|route| {
            let path = message_path("/b", &route, message).unwrap();
            let looked_at = recent_paths("/b", &route, NOW)
                .iter()
                .any(|folder| path.starts_with(&format!("{folder}/")));
            (looked_at && published.contains(&path)).then_some(Sighting {
                route,
                path,
                content: Ok(message.clone()),
            })
        })
        .collect()
}

#[test]
fn sent_messages_are_delivered_to_whom_they_concern() {
    let two = agent("infra-two", "infra", "two");
    for (to, group) in [
        (vec!["infra-two"], None),
        (vec!["keldra-three", "infra-two"], None),
        (vec![], Some("global")),
        (vec![], Some("project:infra")),
        (vec![], Some("release")),
    ] {
        let sent = message(ID, &to, group);
        let seen = seen_by(&two, &["release"], &sent);
        let mut state = RoutedState::new();
        initialize(&mut state, &two, None).unwrap();
        let found = scan(&mut state, &seen, &Vec::new(), NOW);
        assert_eq!(found.messages, vec![sent]);
        let found = scan(&mut state, &seen, &Vec::new(), NOW);
        assert!(found.messages.is_empty());
    }
}

#[test]
fn unrelated_messages_are_not_seen() {
    let two = agent("infra-two", "infra", "two");
    for (to, group) in [
        (vec!["keldra-three"], None),
        (vec![], Some("project:worka")),
        (vec![], Some("other")),
    ] {
        let sent = message(ID, &to, group);
        assert!(seen_by(&two, &["release"], &sent).is_empty());
        assert!(!publication_paths("/b", &sent).unwrap().is_empty());
    }
}

#[test]
fn messages_out_of_place_are_warned_of_and_retried() {
    let path = format!("/r/{ID}.json.zst");
    let put = |content: Message| Sighting {
        route: "global".to_owned(),
        path: path.clone(),
        content: Ok(content),
    };
    let words = format!("read {path}: message path does not agree with document identity");
    let mut state = RoutedState::new();
    let found = scan(&mut state, &vec![put(message(LATER, &["x"], None))], &Vec::new(), NOW);
    assert!(found.messages.is_empty());
    assert_eq!(found.warnings, vec![words.clone()]);
    let mut foreign = message(ID, &["x"], None);
    foreign.schema = "aiboard.message.v9".to_owned();
    let found = scan(&mut state, &vec![put(foreign)], &Vec::new(), NOW);
    assert!(found.messages.is_empty());
    assert!(found.warnings.is_empty());
    let fixed = message(ID, &["x"], None);
    let found = scan(&mut state, &vec![put(fixed.clone())], &Vec::new(), NOW);
    assert_eq!(found.messages, vec![fixed]);
    let told = history(&vec![put(message(LATER, &["x"], None))], &None, 50, NOW);
    assert!(told.messages.is_empty());
    assert_eq!(told.warnings, vec![words]);
}

#[test]
fn restart_delivers_what_was_missed_and_nothing_twice() {
    let two = agent("infra-two", "infra", "two");
    let first = message(ID, &["infra-two"], None);
    let second = message(LATER, &["infra-two"], None);
    let mut state = RoutedState::new();
    initialize(&mut state, &two, None).unwrap();
    acknowledge(&mut state, &vec![second.clone()], NOW);
    let checkpoint = write_checkpoint("/b", &state).document;

    let mut again = RoutedState::new();
    assert!(initialize(&mut again, &two, Some(Ok(checkpoint))).unwrap());
    let mut seen = seen_by(&two, &[], &first);
    seen.extend(seen_by(&two, &[], &second));
    let found = scan(&mut again, &seen, &Vec::new(), NOW);
    assert_eq!(found.messages, vec![first]);
}

#[test]
fn a_second_migration_moves_nothing() {
    let value = message(ID, &["infra-two"], None);
    let mut first = migration_report();
    let moved = migrate_v1(&mut first, "/b", &value, &vec![None, None]);
    assert_eq!(moved.writes, moved.outcome.unwrap());
    assert_eq!((first.migrated, first.already_present), (1, 0));
    let mut second = migration_report();
    let there = vec![Some(Ok(value.clone())), Some(Ok(value.clone()))];
    let moved = migrate_v1(&mut second, "/b", &value, &there);
    assert!(moved.outcome.is_ok());
    assert!(moved.writes.is_empty());
    assert_eq!((second.migrated, second.already_present), (0, 1));
}

fn nothing() -> Snapshot {
    Snapshot {
        agents: Vec::new(),
        groups: Vec::new(),
        gone_presence: Vec::new(),
        presence: Vec::new(),
        messages: Vec::new(),
    }
}

fn sign(id: &str, seconds: u32) -> Seen<Presence> {
    Seen::Document {
        folder: "/b/v1/presence/infra-two".to_owned(),
        path: format!("/b/v1/presence/infra-two/{id}.json.zst"),
        content: Ok(Presence {
            schema: PRESENCE_SCHEMA.to_owned(),
            id: id.to_owned(),
            agent: "infra-two".to_owned(),
            last_seen: format!("2025-09-06T14:31:{seconds:02}.000Z"),
        }),
    }
}

fn full() -> Snapshot {
    let mut all = nothing();
    all.agents.push(Seen::Document {
        folder: "/b/v1/agents/infra".to_owned(),
        path: "/b/v1/agents/infra/two.json.zst".to_owned(),
        content: Ok(agent("infra-two", "infra", "two")),
    });
    all.agents.push(Seen::Unlisted { warning: "scan /b/v1/agents/x: closed".to_owned() });
    all.groups.push(SeenGroup::Group {
        folder: "/b/v1/groups/release".to_owned(),
        content: Ok(Group {
            schema: GROUP_SCHEMA.to_owned(),
            name: "release".to_owned(),
            created_by: "infra-two".to_owned(),
            created_at: String::new(),
        }),
    });
    all.groups.push(SeenGroup::Member {
        folder: "/b/v1/groups/release".to_owned(),
        path: "/b/v1/groups/release/members/infra-two.json.zst".to_owned(),
        content: Ok(Membership {
            schema: MEMBERSHIP_SCHEMA.to_owned(),
            group: "release".to_owned(),
            agent: "infra-two".to_owned(),
            joined_at: String::new(),
        }),
    });
    all.groups.push(SeenGroup::Group {
        folder: "/b/v1/groups/broken".to_owned(),
        content: Err("no".to_owned()),
    });
    all.presence.push(sign(LATER, 5));
    all.presence.push(sign(ID, 1));
    all.messages.push(Seen::Document {
        folder: "/b/v1/messages/2025-09-06".to_owned(),
        path: format!("/b/v1/messages/2025-09-06/{ID}.json.zst"),
        content: Ok(message(ID, &["infra-two"], None)),
    });
    all
}

#[test]
fn a_scan_takes_a_board_in_and_a_second_is_quiet() {
    let mut state = BoardState::new();
    let first = scan_board(&mut state, &full());
    assert_eq!(first.new_messages, vec![ID.to_owned()]);
    assert_eq!(
        first.warnings,
        vec![
            "scan /b/v1/agents/x: closed".to_owned(),
            "read /b/v1/groups/broken/group.json.zst: no".to_owned()
        ]
    );
    assert_eq!(state.agents.get("infra-two"), Some(&agent("infra-two", "infra", "two")));
    assert!(state.memberships.contains("release", "infra-two"));
    assert_eq!(state.groups.len(), 1);
    assert_eq!(state.presence.get("infra-two").unwrap().id, LATER);
    let second = scan_board(&mut state, &full());
    assert!(second.new_messages.is_empty());
    assert_eq!(second.warnings, vec!["scan /b/v1/agents/x: closed".to_owned()]);
}

#[test]
fn presence_and_memberships_never_go_back() {
    let mut state = BoardState::new();
    scan_board(&mut state, &full());
    let mut older = nothing();
    older.presence.push(sign("01K4F00000000000000000000A", 0));
    scan_board(&mut state, &older);
    assert_eq!(state.presence.get("infra-two").unwrap().id, LATER);
    assert!(state.memberships.contains("release", "infra-two"));
    let mut newer = nothing();
    newer.presence.push(sign("01K4FQ1983KJF2D2J7FQ0FJ3T6", 9));
    scan_board(&mut state, &newer);
    assert_eq!(state.presence.get("infra-two").unwrap().last_seen, "2025-09-06T14:31:09.000Z");
}

#[test]
fn routed_messages_join_a_scan() {
    let mut state = BoardState::new();
    state.messages.insert(LATER.to_owned(), message(LATER, &["x"], None));
    let mut result = ScanResult {
        new_messages: vec![LATER.to_owned()],
        warnings: vec!["one".to_owned()],
    };
    let findings = Findings {
        messages: vec![message(ID, &["x"], None), message(LATER, &["x"], None)],
        warnings: vec!["two".to_owned()],
    };
    scan_routed(&mut state, &mut result, &findings);
    assert_eq!(result.new_messages, vec![ID.to_owned(), LATER.to_owned()]);
    assert_eq!(result.warnings, vec!["one".to_owned(), "two".to_owned()]);
    assert_eq!(state.messages.len(), 2);
}

fn under(day: &str, id: &str) -> Seen<Message> {
    Seen::Document {
        folder: format!("/b/v1/messages/{day}"),
        path: format!("/b/v1/messages/{day}/{id}.json.zst"),
        content: Ok(message(id, &["infra-two"], None)),
    }
}

#[test]
fn a_message_under_two_days_is_told_once() {
    let mut state = BoardState::new();
    let mut days = nothing();
    days.messages.push(under("2025-09-06", ID));
    days.messages.push(under("2025-09-07", ID));
    let first = scan_board(&mut state, &days);
    assert_eq!(first.new_messages, vec![ID.to_owned()]);
    assert!(first.warnings.is_empty());
    assert_eq!(state.messages.len(), 1);
    days.messages.push(under("2025-09-08", ID));
    days.messages.push(under("2025-09-08", LATER));
    let second = scan_board(&mut state, &days);
    assert_eq!(second.new_messages, vec![LATER.to_owned()]);
}

#[test]
fn a_known_message_on_a_route_is_not_told_again() {
    let mut state = BoardState::new();
    let mut days = nothing();
    days.messages.push(under("2025-09-06", ID));
    let mut result = scan_board(&mut state, &days);
    let findings = Findings {
        messages: vec![message(ID, &["infra-two"], None), message(LATER, &["infra-two"], None)],
        warnings: Vec::new(),
    };
    scan_routed(&mut state, &mut result, &findings);
    assert_eq!(result.new_messages, vec![ID.to_owned(), LATER.to_owned()]);
    let mut result = scan_board(&mut state, &days);
    scan_routed(&mut state, &mut result, &findings);
    assert!(result.new_messages.is_empty());
    // Found on a route first, it is not new among the days either.
    days.messages.push(under("2025-09-06", LATER));
    assert!(scan_board(&mut state, &days).new_messages.is_empty());
}

#[test]
fn a_routed_scan_gives_what_is_due_and_then_nothing() {
    let mut over = message(OLD, &["infra-two"], None);
    over.expires_at = Some("2025-09-06T14:31:40.000Z".to_owned());
    let direct = message(LATER, &["infra-two"], None);
    let shared = message(ID, &[], Some("global"));
    let put = |route: &str, value: &Message| Sighting {
        route: route.to_owned(),
        path: format!("/{route}/{}.json.zst", value.id),
        content: Ok(value.clone()),
    };
    let seen = vec![
        put("direct:infra-two", &direct),
        put("direct:infra-two", &over),
        put("global", &shared),
        put("group:release", &direct),
    ];
    let mut state = RoutedState::new();
    let found = scan(&mut state, &seen, &Vec::new(), NOW);
    assert_eq!(found.messages, vec![shared, direct]);
    let loaded = state.loaded.as_list().clone();
    let found = scan(&mut state, &seen, &Vec::new(), NOW);
    assert!(found.messages.is_empty() && found.warnings.is_empty());
    assert_eq!(state.loaded.as_list(), &loaded);
}

#[test]
fn publications_have_one_place_per_route_and_stand() {
    let sent = message(ID, &["infra-two", "worka-one", "infra-two", "keldra-three"], None);
    let paths = publication_paths("/b", &sent).unwrap();
    assert_eq!(paths.len(), 3);
    assert!(paths.windows(2).all(|pair| pair[0] < pair[1]));
    let mut disk: BTreeMap<String, Message> = BTreeMap::new();
    let store = |disk: &mut BTreeMap<String, Message>, value: &Message| {
        let stored = paths.iter().map(|path| disk.get(path).cloned().map(Ok)).collect();
        let publication = publish("/b", value, &stored);
        for path in &publication.writes {
            disk.insert(path.clone(), value.clone());
        }
        publication.outcome.map_err(|error| error.message)
    };
    assert_eq!(store(&mut disk, &sent), Ok(paths.clone()));
    let before = disk.clone();
    assert_eq!(store(&mut disk, &sent), Ok(paths.clone()));
    assert_eq!(disk, before);
    let mut other = sent.clone();
    other.message = "other".to_owned();
    assert_eq!(store(&mut disk, &other), Err(format!("conflicting routed message {ID}")));
    assert_eq!(disk, before);
}

#[test]
fn own_messages_are_not_told() {
    let two = agent("infra-two", "infra", "two");
    let mut state = BoardState::new();
    let mut own = message(ID, &["worka-one"], None);
    own.from = "infra-two".to_owned();
    let other = message(LATER, &["infra-two"], None);
    state.messages.insert(own.id.clone(), own.clone());
    state.messages.insert(other.id.clone(), other.clone());
    let result = ScanResult {
        new_messages: vec![ID.to_owned(), LATER.to_owned(), "gone".to_owned()],
        warnings: vec!["careful".to_owned()],
    };
    let told = reconcile(&state, &two, &result);
    assert_eq!(
        told.outputs,
        vec![
            Output::Warning { message: "careful".to_owned() },
            Output::Incoming { message: other.clone() }
        ]
    );
    assert_eq!(told.acknowledged, vec![own.clone(), other.clone()]);

    let ready = Output::Ready { agent: "infra-two".to_owned(), latest: Some(LATER.to_owned()) };
    let fresh = run(&state, &two, false, &result);
    assert_eq!(fresh.acknowledge_first, vec![own, other.clone()]);
    assert_eq!(fresh.outputs[1], ready);
    assert_eq!(fresh.outputs.len(), 2);
    let resumed = run(&state, &two, true, &result);
    assert!(resumed.acknowledge_first.is_empty());
    assert_eq!(resumed.outputs[2], Output::Incoming { message: other.clone() });
    assert_eq!(resumed.acknowledge_after, vec![other]);
}

#[test]
fn identities_tell_projects_and_sessions_apart() {
    let id = |project: &str, session: &str| {
        register_agent("/b/v1", project, session, "linux", "/", None).unwrap().document.id
    };
    assert_eq!(id("infra", "one"), id("infra", "O-N-E"));
    assert_ne!(id("infra", "one"), id("infra", "two"));
    assert_ne!(id("infra", "one"), id("infra-one", "one"));
    let placed = register_agent("/b/v1", "infra", "one", "linux", "/", None).unwrap();
    assert_eq!(placed.path, agent_document("/b/v1", "infra", "one").unwrap());
    assert!(validate_agent(&placed.document, "infra", "one").is_ok());
}

#[test]
fn joining_again_changes_nothing() {
    let first = join_group("/b/v1", "release", "infra-two", true, None).unwrap();
    let again =
        join_group("/b/v1", "release", "infra-two", true, Some(Ok(first.document.clone()))).unwrap();
    assert_eq!(again.document, first.document);
    assert_eq!(again.path, first.path);
    assert!(!again.is_new);
}

#[test]
fn frames_are_placed_or_refused() {
    let placed = place_document("/a/b.json.zst", 0xbeef, Ok(vec![1, 2])).unwrap();
    assert_eq!(placed.temporary_path, "/a/.b.json.zst.000000000000beef.part");
    assert_eq!(placed.bytes, vec![1, 2]);
    let refused = |path: &str, frame| place_document(path, 0, frame).err().unwrap().message;
    assert_eq!(refused("/", Ok(Vec::new())), "document path has no parent: /");
    assert_eq!(refused("a/..", Ok(Vec::new())), "document path is not UTF-8: a/..");
    assert_eq!(refused("a/b", Err("full".to_owned())), "encode document JSON: full");
    assert_eq!(unpack_document("/a", Ok(vec![3])).unwrap(), vec![3]);
    assert_eq!(
        unpack_document("/a", Err("short".to_owned())).unwrap_err().message,
        "decode JSON /a: short"
    );
}

fn entry(path: &str, is_directory: bool) -> Entry {
    Entry { path: path.to_owned(), is_directory, is_file: !is_directory }
}

#[test]
fn a_walk_finds_every_document_once() {
    let tree = |directory: &str| match directory {
        "/t" => vec![entry("/t/a", true), entry("/t/x.json.zst", false), entry("/t/b", true)],
        "/t/a" => vec![entry("/t/a/y.json.zst", false), entry("/t/a/.y.part", false)],
        "/t/b" => vec![entry("/t/b/c.json.zst", true)],
        "/t/b/c.json.zst" => vec![entry("/t/b/c.json.zst/z.json.zst", false)],
        _ => Vec::new(),
    };
    let mut walk = document_files_recursive("/t");
    let mut order = Vec::new();
    while let Some(directory) = walk.next() {
        walk.visit(&tree(&directory));
        order.push(directory);
    }
    assert_eq!(order, vec!["/t", "/t/b", "/t/b/c.json.zst", "/t/a"]);
    assert_eq!(
        walk.files,
        vec!["/t/x.json.zst", "/t/b/c.json.zst/z.json.zst", "/t/a/y.json.zst"]
    );
}

#[test]
fn directories_are_listed_or_warned_of() {
    let listing = Ok(vec![
        entry("/t/a", true),
        entry("/t/x.json.zst", false),
        entry("/t/y.txt", false),
        entry("/t/z.json.zst", true),
    ]);
    assert_eq!(child_directories("/t", &listing).paths, vec!["/t/a", "/t/z.json.zst"]);
    assert_eq!(document_files("/t", &listing).paths, vec!["/t/x.json.zst"]);
    let failed = |absent| Err(ListingFailure { absent, words: "closed".to_owned() });
    let warning = Some("scan /t: closed".to_owned());
    assert_eq!(child_directories("/t", &failed(true)).warning, warning);
    assert_eq!(document_files("/t", &failed(false)).warning, warning);
    assert_eq!(document_files("/t", &failed(true)).warning, None);
}
