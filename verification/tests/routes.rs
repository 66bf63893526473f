//! Routes, cursors, history and the expiry index, one by one.
use zboard::clock::Moment;
use zboard::collections::TextMap;
use zboard::model::{Agent, Message};
use zboard::routed::{
    acknowledge, collect_expired, collection_done, collection_due, history, history_routes,
    initialize, is_expired, message_routes, message_routes_for_consumer, migrate_v1,
    migration_report, publication_paths, publish, reading_routes, reads_whole_route, recent_paths,
    report_path, scan, trim_cache, write_checkpoint, write_expiry, Checkpoint, Due, Expiry,
    RouteCursor, RoutedState, Sighting, CHECKPOINT_SCHEMA, EXPIRY_SCHEMA, MIGRATION_SCHEMA,
};
use zboard::walk::{due_expiry_files, newest_paths, Entry};

const NOW: Moment = Moment { seconds: 1_757_169_100, nanos: 100_000_000 };
// Made at 14:31:40.035 of the day, the second of NOW.
const ID: &str = "01K4FQ1983KJF2D2J7FQ0FJ3T4";
const LATER: &str = "01K4FQ1983KJF2D2J7FQ0FJ3T5";
const OLD: &str = "01K4F00000000000000000000A";

fn agent() -> Agent {
    Agent {
        schema: "aiboard.agent.v1".to_owned(),
        id: "infra-two".to_owned(),
        project: "infra".to_owned(),
        session_id: "two".to_owned(),
        platform: "linux".to_owned(),
        path: "/infra".to_owned(),
        registered_at: String::new(),
    }
}

fn message(id: &str) -> Message {
    Message {
        schema: "aiboard.message.v1".to_owned(),
        id: id.to_owned(),
        timestamp: "2025-09-06T14:31:40.035Z".to_owned(),
        from: "worka-one".to_owned(),
        to: vec!["infra-two".to_owned()],
        group: None,
        thread: id.to_owned(),
        reply_to: None,
        message: "hello".to_owned(),
        meta: None,
        expires_at: None,
    }
}

fn to_group(id: &str, group: &str) -> Message {
    let mut other = message(id);
    other.to.clear();
    other.group = Some(group.to_owned());
    other
}

fn sighting(route: &str, path: &str, content: Result<Message, String>) -> Sighting {
    Sighting { route: route.to_owned(), path: path.to_owned(), content }
}

fn seen(route: &str, message: &Message) -> Sighting {
    sighting(route, &format!("/{route}/{}.json.zst", message.id), Ok(message.clone()))
}

#[test]
fn messages_take_routes() {
    assert_eq!(message_routes(&message(ID)), vec!["direct:infra-two", "direct:worka-one"]);
    assert_eq!(message_routes(&to_group(ID, "global")), vec!["global"]);
    assert_eq!(message_routes(&to_group(ID, "project:infra")), vec!["project:infra"]);
    assert_eq!(message_routes(&to_group(ID, "release")), vec!["group:release"]);
    let for_two = |message: &Message| message_routes_for_consumer(message, "infra-two", "infra");
    assert_eq!(for_two(&message(ID)), vec!["direct:infra-two"]);
    assert_eq!(for_two(&to_group(ID, "global")), vec!["global"]);
    assert_eq!(for_two(&to_group(ID, "project:infra")), vec!["project:infra"]);
    assert!(for_two(&to_group(ID, "project:worka")).is_empty());
    assert_eq!(for_two(&to_group(ID, "release")), vec!["group:release"]);
}

#[test]
fn agents_read_their_routes() {
    let groups = vec!["release".to_owned()];
    assert_eq!(
        reading_routes("infra-two", "infra", &groups),
        vec!["global", "project:infra", "direct:infra-two", "group:release"]
    );
    assert_eq!(
        history_routes(&agent(), &groups, &None),
        vec!["global", "project:infra", "direct:infra-two", "group:release"]
    );
    let of = |group: &str| history_routes(&agent(), &groups, &Some(group.to_owned()));
    assert_eq!(of("release"), vec!["group:release"]);
    assert_eq!(of("global"), vec!["global"]);
    assert_eq!(of("project:infra"), vec!["project:infra"]);
    assert!(of("project:worka").is_empty());
    assert!(of("other").is_empty());
}

#[test]
fn recent_minutes_are_looked_into() {
    let folders = recent_paths("/b", "global", NOW);
    assert_eq!(folders.len(), 11);
    assert_eq!(folders[0], "/b/v2/messages/global/2025/09/06/14/31");
    assert_eq!(folders[10], "/b/v2/messages/global/2025/09/06/14/21");
    let new_year = Moment { seconds: 1_767_225_600, nanos: 0 };
    let folders = recent_paths("/b", "global", new_year);
    assert_eq!(folders[0], "/b/v2/messages/global/2026/01/01/00/00");
    assert_eq!(folders[1], "/b/v2/messages/global/2025/12/31/23/59");
}

#[test]
fn publication_writes_what_is_missing() {
    let message = message(ID);
    let paths = publication_paths("/b", &message).unwrap();
    assert_eq!(
        paths,
        vec![
            format!("/b/v2/messages/direct/8a/infra-two/2025/09/06/14/31/4/{ID}.json.zst"),
            format!("/b/v2/messages/direct/c2/worka-one/2025/09/06/14/31/4/{ID}.json.zst"),
        ]
    );
    let fresh = publish("/b", &message, &vec![None, None]);
    assert_eq!(fresh.writes, paths);
    assert_eq!(fresh.outcome.unwrap(), paths);
    assert!(fresh.index.is_none());
    let again = publish("/b", &message, &vec![Some(Ok(message.clone())), Some(Ok(message.clone()))]);
    assert!(again.writes.is_empty());
    assert_eq!(again.outcome.unwrap(), paths);
    let mut other = message.clone();
    other.message = "other".to_owned();
    let conflict = publish("/b", &message, &vec![None, Some(Ok(other))]);
    assert_eq!(conflict.writes, vec![paths[0].clone()]);
    assert_eq!(
        conflict.outcome.unwrap_err().message,
        format!("conflicting routed message {ID}")
    );
    let unreadable = publish("/b", &message, &vec![Some(Err("bad".to_owned())), None]);
    assert!(unreadable.writes.is_empty());
    assert_eq!(unreadable.outcome.unwrap_err().message, "bad");
    let nameless = publish("/b", &self::message("x"), &Vec::new());
    assert_eq!(nameless.outcome.unwrap_err().message, "parse message ULID: invalid length");
    let mut twice = message.clone();
    twice.to = vec!["worka-one".to_owned(), "worka-one".to_owned()];
    assert_eq!(publication_paths("/b", &twice).unwrap().len(), 1);
}

#[test]
fn expiring_messages_are_indexed() {
    let mut message = message(ID);
    message.expires_at = Some("2025-09-06T16:00:00+01:00".to_owned());
    let publication = publish("/b", &message, &Vec::new());
    let filed = publication.index.unwrap().unwrap();
    assert_eq!(filed.path, format!("/b/v2/expiry/2025/09/06/15/00/{ID}.json.zst"));
    assert_eq!(filed.document.schema, EXPIRY_SCHEMA);
    assert_eq!(filed.document.message, ID);
    assert_eq!(filed.document.expires_at, "2025-09-06T16:00:00+01:00");
    assert_eq!(
        filed.document.paths,
        vec![
            format!("v2/messages/direct/8a/infra-two/2025/09/06/14/31/4/{ID}.json.zst"),
            format!("v2/messages/direct/c2/worka-one/2025/09/06/14/31/4/{ID}.json.zst"),
        ]
    );
    message.expires_at = Some("never".to_owned());
    let publication = publish("/b", &message, &Vec::new());
    let expected = chrono::DateTime::parse_from_rfc3339("never").unwrap_err().to_string();
    assert_eq!(publication.index.unwrap().err().unwrap().message, expected);
}

#[test]
fn scans_deliver_in_order_and_once() {
    let mut state = RoutedState::new();
    let list = vec![
        seen("direct:infra-two", &message(LATER)),
        seen("direct:infra-two", &message(ID)),
        seen("global", &message(ID)),
        sighting("global", "/bad.json.zst", Err("broken".to_owned())),
    ];
    let found = scan(&mut state, &list, &Vec::new(), NOW);
    assert_eq!(found.messages, vec![message(ID), message(LATER)]);
    assert_eq!(found.warnings, vec!["read /bad.json.zst: broken"]);
    let found = scan(&mut state, &list, &Vec::new(), NOW);
    assert!(found.messages.is_empty());
    assert!(found.warnings.is_empty());
    // A path that is gone is warned of again.
    scan(&mut state, &Vec::new(), &vec!["/bad.json.zst".to_owned()], NOW);
    let found = scan(&mut state, &list, &Vec::new(), NOW);
    assert_eq!(found.warnings.len(), 1);
    // Documents of eleven minutes ago are forgotten.
    scan(&mut state, &Vec::new(), &Vec::new(), Moment { seconds: NOW.seconds + 661, nanos: 0 });
    assert!(state.loaded.as_list().is_empty());
}

#[test]
fn scans_skip_what_has_expired() {
    let mut state = RoutedState::new();
    let mut over = message(ID);
    over.expires_at = Some("2025-09-06T14:31:40.000Z".to_owned());
    assert!(is_expired(&over, NOW));
    let found = scan(&mut state, &vec![seen("global", &over)], &Vec::new(), NOW);
    assert!(found.messages.is_empty());
    assert_eq!(state.loaded.as_list().len(), 1);
}

fn known(state: &mut RoutedState) {
    assert_eq!(initialize(state, &agent(), None).unwrap(), false);
}

#[test]
fn acknowledged_messages_are_not_delivered_again() {
    let mut state = RoutedState::new();
    assert!(!acknowledge(&mut state, &vec![message(ID)], NOW));
    known(&mut state);
    assert!(!acknowledge(&mut state, &Vec::new(), NOW));
    assert!(acknowledge(&mut state, &vec![message(LATER)], NOW));
    let cursor = state.cursors.get("direct:infra-two").unwrap();
    assert_eq!(cursor.high_water, LATER);
    assert_eq!(cursor.overlap_ids, vec![LATER.to_owned()]);
    assert!(state.cursors.get("direct:worka-one").is_none());
    // The late one is delivered, the acknowledged one is not.
    let list = vec![seen("direct:infra-two", &message(LATER)), seen("direct:infra-two", &message(ID))];
    let found = scan(&mut state, &list, &Vec::new(), NOW);
    assert_eq!(found.messages, vec![message(ID)]);
    acknowledge(&mut state, &found.messages, NOW);
    let cursor = state.cursors.get("direct:infra-two").unwrap();
    assert_eq!(cursor.high_water, LATER);
    assert_eq!(cursor.overlap_ids, vec![ID.to_owned(), LATER.to_owned()]);
}

#[test]
fn marks_are_the_greatest_acknowledged() {
    let mut state = RoutedState::new();
    known(&mut state);
    let marks = |state: &RoutedState| -> Vec<Option<String>> {
        ["global", "direct:infra-two", "group:release", "project:worka"]
            .iter()
            .map(|route| state.cursors.get(route).map(|cursor| cursor.high_water.clone()))
            .collect()
    };
    let (id, later, old) = (Some(ID.to_owned()), Some(LATER.to_owned()), Some(OLD.to_owned()));
    let list = vec![
        message(LATER),
        message(ID),
        to_group(OLD, "release"),
        to_group(LATER, "project:worka"),
        message(LATER),
    ];
    acknowledge(&mut state, &list, NOW);
    assert_eq!(marks(&state), vec![None, later.clone(), old, None]);
    let cursor = state.cursors.get("direct:infra-two").unwrap();
    assert_eq!(cursor.overlap_ids, vec![ID.to_owned(), LATER.to_owned()]);
    acknowledge(&mut state, &vec![to_group(ID, "release"), to_group(ID, "global")], NOW);
    assert_eq!(marks(&state), vec![id.clone(), later.clone(), id.clone(), None]);
    acknowledge(&mut state, &vec![message(OLD)], NOW);
    assert_eq!(marks(&state), vec![id.clone(), later, id, None]);
}

#[test]
fn threads_are_looked_for_in_whole_routes() {
    assert!(reads_whole_route(&Some(ID.to_owned())));
    assert!(!reads_whole_route(&None));
}

#[test]
fn cursors_forget_what_is_old() {
    let mut state = RoutedState::new();
    known(&mut state);
    acknowledge(&mut state, &vec![message(OLD), message(ID)], NOW);
    let cursor = state.cursors.get("direct:infra-two").unwrap();
    assert_eq!(cursor.overlap_ids, vec![ID.to_owned()]);
    let end = Moment { seconds: NOW.seconds + 600, nanos: 35_000_000 };
    acknowledge(&mut state, &vec![message(ID)], end);
    assert_eq!(state.cursors.get("direct:infra-two").unwrap().overlap_ids, vec![ID.to_owned()]);
    let past = Moment { seconds: NOW.seconds + 600, nanos: 36_000_000 };
    acknowledge(&mut state, &vec![message(ID)], past);
    let cursor = state.cursors.get("direct:infra-two").unwrap();
    assert!(cursor.overlap_ids.is_empty());
    assert_eq!(cursor.high_water, ID);
}

#[test]
fn cursors_are_bounded() {
    let digits: Vec<char> = "0123456789ABCDEFGHJKMNPQRSTVWXYZ".chars().collect();
    let ids: Vec<String> = (0..4097)
        .map(|n| {
            let tail: String = [digits[n / 1024], digits[n / 32 % 32], digits[n % 32]].iter().collect();
            format!("01K4FQ1983KJF2D2J7FQ0FJ{tail}")
        })
        .collect();
    let mut state = RoutedState::new();
    known(&mut state);
    state.cursors.insert(
        "direct:infra-two".to_owned(),
        RouteCursor { high_water: String::new(), overlap_ids: ids[..4096].to_vec() },
    );
    acknowledge(&mut state, &vec![message(&ids[4096])], NOW);
    let cursor = state.cursors.get("direct:infra-two").unwrap();
    assert_eq!(cursor.overlap_ids, ids[1..].to_vec());
    assert_eq!(cursor.high_water, ids[4096]);
}

#[test]
fn checkpoints_resume() {
    let mut state = RoutedState::new();
    known(&mut state);
    acknowledge(&mut state, &vec![message(ID)], NOW);
    let filed = write_checkpoint("/b", &state);
    assert_eq!(filed.document.schema, CHECKPOINT_SCHEMA);
    assert_eq!(filed.document.agent, "infra-two");
    assert_eq!(
        filed.path,
        format!("/b/v2/consumers/8a/infra-two/{}.json.zst", filed.document.id)
    );
    let mut resumed = RoutedState::new();
    assert!(initialize(&mut resumed, &agent(), Some(Ok(filed.document))).unwrap());
    assert_eq!(resumed.cursors.get("direct:infra-two").unwrap().high_water, ID);
    let foreign = Checkpoint {
        schema: CHECKPOINT_SCHEMA.to_owned(),
        id: ID.to_owned(),
        agent: "other".to_owned(),
        updated_at: String::new(),
        routes: TextMap::new(),
    };
    assert!(!initialize(&mut RoutedState::new(), &agent(), Some(Ok(foreign))).unwrap());
    let failed = initialize(&mut RoutedState::new(), &agent(), Some(Err("bad".to_owned())));
    assert_eq!(failed.unwrap_err().message, "bad");
}

#[test]
fn the_cache_keeps_the_newest() {
    let mut messages = TextMap::new();
    for n in 0..4100 {
        let id = format!("{n:05}");
        messages.insert(id.clone(), message(&id));
    }
    trim_cache(&mut messages);
    assert_eq!(messages.len(), 4096);
    assert_eq!(messages.key_at(0), "00004");
    trim_cache(&mut messages);
    assert_eq!(messages.len(), 4096);
}

#[test]
fn histories_are_ordered_unique_and_limited() {
    let mut over = message("01K4FQ1983KJF2D2J7FQ0FJ3T6");
    over.expires_at = Some("2025-09-06T14:31:40.000Z".to_owned());
    let list = vec![
        seen("global", &message(LATER)),
        seen("global", &over),
        seen("direct:infra-two", &message(ID)),
        seen("direct:infra-two", &message(LATER)),
        seen("global", &message(OLD)),
        sighting("global", "/bad", Err("broken".to_owned())),
    ];
    let found = history(&list, &None, 50, NOW);
    assert_eq!(found.messages, vec![message(OLD), message(ID), message(LATER)]);
    assert_eq!(found.warnings, vec!["read /bad: broken"]);
    assert_eq!(history(&list, &None, 2, NOW).messages, vec![message(ID), message(LATER)]);
    assert!(history(&list, &None, 0, NOW).messages.is_empty());
    assert_eq!(history(&list, &Some(ID.to_owned()), 50, NOW).messages, vec![message(ID)]);
}

#[test]
fn migrations_count() {
    let mut report = migration_report();
    assert_eq!(report.schema, MIGRATION_SCHEMA);
    let value = message(ID);
    migrate_v1(&mut report, "/b", &value, &vec![None, Some(Ok(value.clone()))]);
    migrate_v1(&mut report, "/b", &value, &vec![Some(Ok(value.clone())), Some(Ok(value.clone()))]);
    migrate_v1(&mut report, "/b", &value, &vec![Some(Ok(message(LATER))), None]);
    assert_eq!((report.migrated, report.already_present), (1, 1));
    assert!(report.retained_legacy);
    // Neither is a message whose expiry cannot be indexed, new or moved before.
    let mut undated = message(ID);
    undated.expires_at = Some("never".to_owned());
    let there = vec![Some(Ok(undated.clone())), Some(Ok(undated.clone()))];
    for stored in [vec![None, None], there] {
        let publication = migrate_v1(&mut report, "/b", &undated, &stored);
        assert!(publication.outcome.is_ok());
        assert!(publication.index.unwrap().is_err());
    }
    assert_eq!((report.migrated, report.already_present), (1, 1));
    let mut dated = message(ID);
    dated.expires_at = Some("2025-09-06T16:00:00Z".to_owned());
    migrate_v1(&mut report, "/b", &dated, &vec![None, None]);
    assert_eq!((report.migrated, report.already_present), (2, 1));
    let path = report_path("/b");
    assert!(path.starts_with("/b/v2/migrations/"));
    assert_eq!(path.len(), "/b/v2/migrations/".len() + 26 + ".json.zst".len());
}

#[test]
fn collection_is_due_every_ten_minutes() {
    let mut state = RoutedState::new();
    assert!(collection_due(&state, 5));
    assert_eq!(collection_done(&mut state, 5, Ok(())), None);
    assert!(!collection_due(&state, 600_000_000_004));
    assert!(collection_due(&state, 600_000_000_005));
    assert_eq!(
        collection_done(&mut state, 9, Err("stuck".to_owned())).as_deref(),
        Some("expiry collection: stuck")
    );
    assert_eq!(state.last_gc, Some(9));
}

fn entry(id: &str, expires_at: &str, paths: &[&str]) -> Result<Expiry, String> {
    Ok(Expiry {
        schema: EXPIRY_SCHEMA.to_owned(),
        message: id.to_owned(),
        expires_at: expires_at.to_owned(),
        paths: paths.iter().map(|path| path.to_string()).collect(),
    })
}

#[test]
fn index_entries_are_collected_or_refused() {
    let path = format!("/b/v2/expiry/2025/09/06/14/31/{ID}.json.zst");
    let target = format!("v2/messages/global/{ID}.json.zst");
    let due = "2025-09-06T14:31:40.100Z";
    match collect_expired("/b", &path, &entry(ID, due, &[&target]), NOW) {
        Due::Remove(targets, failure) => {
            assert_eq!(targets, vec![format!("/b/{target}")]);
            assert!(failure.is_none());
        }
        _ => panic!("the entry is due"),
    }
    match collect_expired("/b", &path, &entry(ID, due, &[&target, "/etc/x", &target]), NOW) {
        Due::Remove(targets, failure) => {
            assert_eq!(targets, vec![format!("/b/{target}")]);
            assert_eq!(failure.unwrap().message, "expiry target is outside the board root");
        }
        _ => panic!("the entry is due"),
    }
    let early = entry(ID, "2025-09-06T14:31:40.101Z", &[&target]);
    assert!(matches!(collect_expired("/b", &path, &early, NOW), Due::Leave));
    let unread = Err("bad".to_owned());
    assert!(matches!(collect_expired("/b", &path, &unread, NOW), Due::Leave));
    let refused = |content: &Result<Expiry, String>| match collect_expired("/b", &path, content, NOW) {
        Due::Refuse(error) => error.message,
        _ => panic!("the entry is refused"),
    };
    let disagrees = "expiry index path does not agree with its message identity";
    assert_eq!(refused(&entry(LATER, due, &[])), disagrees);
    assert_eq!(refused(&entry(&ID.to_lowercase(), due, &[])), disagrees);
    let mut foreign = entry(ID, due, &[]).unwrap();
    foreign.schema = "other".to_owned();
    assert_eq!(refused(&Ok(foreign)), disagrees);
    let expected = chrono::DateTime::parse_from_rfc3339("soon").unwrap_err().to_string();
    assert_eq!(refused(&entry(ID, "soon", &[])), expected);
}

fn directory(path: &str) -> Entry {
    Entry { path: path.to_owned(), is_directory: true, is_file: false }
}

fn file(path: &str) -> Entry {
    Entry { path: path.to_owned(), is_directory: false, is_file: true }
}

#[test]
fn only_due_minutes_are_walked() {
    let mut walk = due_expiry_files("/e", NOW);
    assert_eq!(walk.current, vec!["2025", "09", "06", "14", "31"]);
    let root = walk.next().unwrap();
    walk.visit(&root, &vec![directory("/e/2024"), directory("/e/2025"), directory("/e/2026"), file("/e/x")]);
    let year = walk.next().unwrap();
    assert_eq!(year.path, "/e/2025");
    walk.visit(&year, &vec![directory("/e/2025/10"), directory("/e/2025/08")]);
    let month = walk.next().unwrap();
    assert_eq!(month.path, "/e/2025/08");
    walk.visit(&month, &vec![directory("/e/2025/08/31")]);
    let day = walk.next().unwrap();
    walk.visit(&day, &vec![directory("/e/2025/08/31/23")]);
    let hour = walk.next().unwrap();
    walk.visit(&hour, &vec![directory("/e/2025/08/31/23/59")]);
    let minute = walk.next().unwrap();
    let document = format!("/e/2025/08/31/23/59/{ID}.json.zst");
    walk.visit(&minute, &vec![file(&document), file("/e/2025/08/31/23/59/x.part")]);
    assert_eq!(walk.files, vec![document]);
    assert_eq!(walk.next().unwrap().path, "/e/2024");
    assert!(walk.next().is_none());
}

#[test]
fn the_newest_minutes_are_walked_first() {
    let mut walk = newest_paths("/r");
    for level in ["2025", "09", "06", "14"] {
        let folder = walk.next(3).unwrap();
        assert!(!walk.at_minutes());
        walk.visit(&vec![directory(&format!("{folder}/{level}")), file(&format!("{folder}/x"))]);
    }
    assert_eq!(walk.next(3).as_deref(), Some("/r/2025/09/06/14"));
    walk.visit(&vec![directory("/r/2025/09/06/14/30"), directory("/r/2025/09/06/14/31")]);
    assert!(walk.at_minutes());
    assert_eq!(walk.next(1).as_deref(), Some("/r/2025/09/06/14/31"));
    walk.collect(&vec!["a".to_owned()]);
    assert_eq!(walk.next(1), None);
    assert_eq!(walk.next(2).as_deref(), Some("/r/2025/09/06/14/30"));
    walk.collect(&vec!["b".to_owned(), "c".to_owned()]);
    assert_eq!(walk.next(9), None);
    assert_eq!(walk.found, vec!["a", "b", "c"]);
}

#[test]
fn a_history_of_few_leaves_out_older_minutes() {
    let minutes = [
        "/r/2024/12/31/23/59",
        "/r/2025/01/01/00/00",
        "/r/2025/01/01/00/01",
        "/r/2025/10/01/00/00",
    ];
    let children = |folder: &str| -> Vec<Entry> {
        let prefix = format!("{folder}/");
        let names = minutes.iter().filter_map(|minute| minute.strip_prefix(&prefix));
        let mut found: Vec<Entry> = names
            .map(|rest| directory(&format!("{prefix}{}", rest.split('/').next().unwrap())))
            .collect();
        found.dedup_by(|a, b| a.path == b.path);
        found
    };
    let visited = |limit: usize| -> Vec<String> {
        let mut walk = newest_paths("/r");
        let mut order = Vec::new();
        while let Some(folder) = walk.next(limit) {
            if walk.at_minutes() {
                walk.collect(&vec![format!("{folder}/4/{ID}.json.zst")]);
                order.push(folder);
            } else {
                walk.visit(&children(&folder));
            }
        }
        assert_eq!(walk.found.len(), order.len());
        order
    };
    assert_eq!(visited(1), vec![minutes[3]]);
    assert_eq!(visited(3), vec![minutes[3], minutes[2], minutes[1]]);
    assert_eq!(visited(9), vec![minutes[3], minutes[2], minutes[1], minutes[0]]);
    assert_eq!(visited(0), vec![minutes[3]]);
}

#[test]
fn index_entries_of_early_years_have_places() {
    let filed = write_expiry("/b", &message(ID), "0000-01-01T00:00:00+01:00", &Vec::new()).unwrap();
    assert_eq!(filed.path, format!("/b/v2/expiry/-001/12/31/23/00/{ID}.json.zst"));
}
