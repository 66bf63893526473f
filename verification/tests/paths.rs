//! Paths as texts, held against those of the standard library.
use std::path::{Component, Path};

use zboard::app::{default_root, root_candidates};
use zboard::path::{
    child_path, descendant_path, file_name, parent_path, path_ancestors, path_comes_before,
    path_components, same_path, slash_joined, sort_paths,
};
use zboard::routed::{
    consumer_directory, ensure, message_path, portable_relative_path, prune_empty_expiry_ancestors,
    resolve_expiry_target, route_directory, stable_shard,
};
use zboard::storage::{
    agent_document, document_directory, document_name, ensure_layout, group_document,
    membership_document, presence_directory, write_document,
};
use zboard::walk::{latest, prune};

const PATHS: [&str; 22] = [
    "",
    "/",
    ".",
    "..",
    "./a",
    "a",
    "a/",
    "a/b",
    "a//b",
    "a/./b",
    "a/../b",
    "/a",
    "/a/b/",
    "//a",
    "/./a",
    "/a/.",
    "/a/..",
    "./.",
    "a/b/c.json.zst",
    "/shared/board/v2/messages",
    "größe/b",
    ".hidden",
];

fn std_components(path: &str) -> Vec<String> {
    Path::new(path)
        .components()
        .map(|component| match component {
            Component::RootDir => "/".to_owned(),
            other => other.as_os_str().to_str().unwrap().to_owned(),
        })
        .collect()
}

#[test]
fn components_are_those_of_std() {
    for path in PATHS {
        assert_eq!(path_components(path), std_components(path), "{path:?}");
    }
}

#[test]
fn file_names_are_those_of_std() {
    for path in PATHS {
        let expected = Path::new(path).file_name().map(|name| name.to_str().unwrap().to_owned());
        assert_eq!(file_name(path), expected, "{path:?}");
    }
}

#[test]
fn parents_are_those_of_std() {
    for path in PATHS {
        let expected = Path::new(path).parent();
        let found = parent_path(path);
        assert_eq!(found.is_some(), expected.is_some(), "{path:?}");
        if let (Some(found), Some(expected)) = (found, expected) {
            assert_eq!(Path::new(&found), expected, "{path:?}");
        }
    }
}

#[test]
fn ancestors_are_those_of_std() {
    for path in PATHS {
        let expected: Vec<&Path> = Path::new(path).ancestors().collect();
        let found = path_ancestors(path);
        assert_eq!(found.len(), expected.len(), "{path:?}");
        for (one, other) in found.iter().zip(expected) {
            assert_eq!(Path::new(one), other, "{path:?}");
        }
    }
}

#[test]
fn joins_and_orders_are_those_of_std() {
    for left in PATHS {
        for right in PATHS {
            let joined = Path::new(left).join(right);
            assert_eq!(child_path(left, right), joined.to_str().unwrap());
            assert_eq!(path_comes_before(left, right), Path::new(left) < Path::new(right));
            assert_eq!(same_path(left, right), Path::new(left) == Path::new(right));
        }
    }
}

#[test]
fn sorted_paths_are_those_of_std() {
    let list: Vec<String> = PATHS.iter().map(|path| path.to_string()).collect();
    let mut expected = list.clone();
    expected.sort_by(|left, right| Path::new(left).cmp(Path::new(right)));
    let found = sort_paths(&list);
    for (one, other) in found.iter().zip(&expected) {
        assert_eq!(Path::new(one), Path::new(other));
    }
}

#[test]
fn names_are_joined_with_slashes() {
    let names = vec!["a".to_owned(), "b".to_owned(), "c".to_owned()];
    assert_eq!(slash_joined(&names), "a/b/c");
    assert_eq!(slash_joined(&Vec::new()), "");
    assert_eq!(descendant_path("/root", &names), "/root/a/b/c");
}

#[test]
fn layout_names_the_directories() {
    let layout = ensure_layout("/board");
    assert_eq!(layout.version_root, "/board/v1");
    assert_eq!(
        layout.directories,
        vec![
            "/board/v1/agents",
            "/board/v1/groups",
            "/board/v1/messages",
            "/board/v1/presence"
        ]
    );
    assert_eq!(
        ensure("/board"),
        vec![
            "/board/v2/messages/global",
            "/board/v2/messages/projects",
            "/board/v2/messages/groups",
            "/board/v2/messages/direct",
            "/board/v2/consumers",
            "/board/v2/expiry",
            "/board/v2/migrations"
        ]
    );
}

#[test]
fn documents_have_their_places() {
    assert_eq!(
        agent_document("/board/v1", "infra", "Session-123").unwrap(),
        "/board/v1/agents/infra/session123.json.zst"
    );
    assert_eq!(
        group_document("/board/v1", "release"),
        "/board/v1/groups/release/group.json.zst"
    );
    assert_eq!(
        membership_document("/board/v1", "release", "infra-two"),
        "/board/v1/groups/release/members/infra-two.json.zst"
    );
    assert_eq!(presence_directory("/board/v1", "infra-two"), "/board/v1/presence/infra-two");
    assert_eq!(consumer_directory("/board", "infra-two"), "/board/v2/consumers/8a/infra-two");
    assert_eq!(document_name("/x/01K4.json.zst").as_deref(), Some("01K4"));
    assert_eq!(document_name("/x/01K4.json"), None);
    assert_eq!(document_name("/"), None);
}

#[test]
fn shards_are_stable() {
    for (value, shard) in [
        ("", "25"),
        ("a", "8c"),
        ("infra", "dd"),
        ("infra-two", "8a"),
        ("release", "fe"),
        ("worka-one", "c2"),
        ("größe", "da"),
    ] {
        assert_eq!(stable_shard(value), shard);
    }
}

#[test]
fn routes_have_their_directories() {
    assert_eq!(route_directory("/board", "global"), "/board/v2/messages/global");
    assert_eq!(
        route_directory("/board", "project:infra"),
        "/board/v2/messages/projects/dd/infra"
    );
    assert_eq!(
        route_directory("/board", "group:release"),
        "/board/v2/messages/groups/fe/release"
    );
    assert_eq!(
        route_directory("/board", "direct:infra-two"),
        "/board/v2/messages/direct/8a/infra-two"
    );
}

#[test]
fn directories_of_routes_are_apart() {
    let routes = [
        "global",
        "project:global",
        "project:infra",
        "group:infra",
        "direct:infra",
        "direct:infra-two",
        "direct:a\\b",
        "group:projects",
    ];
    for one in routes {
        for other in routes {
            let below = Path::new(&route_directory("/board", one))
                .starts_with(route_directory("/board", other));
            assert_eq!(below, one == other);
        }
        assert!(Path::new(&route_directory("/board", one)).starts_with("/board/v2/messages"));
    }
}

fn message(id: &str) -> zboard::model::Message {
    zboard::model::Message {
        schema: "aiboard.message.v1".to_owned(),
        id: id.to_owned(),
        timestamp: String::new(),
        from: "worka-one".to_owned(),
        to: vec!["infra-two".to_owned()],
        group: None,
        thread: id.to_owned(),
        reply_to: None,
        message: "hello".to_owned(),
        meta: None,
        expires_at: None,
    }
}

#[test]
fn messages_stand_by_the_minute_of_their_identifier() {
    assert_eq!(
        message_path("/board", "global", &message("01K4FQ1983KJF2D2J7FQ0FJ3T4")).unwrap(),
        "/board/v2/messages/global/2025/09/06/14/31/4/01K4FQ1983KJF2D2J7FQ0FJ3T4.json.zst"
    );
    assert_eq!(
        message_path("/board", "direct:infra-two", &message("7ZZZZZZZZZZZZZZZZZZZZZZZZZ")).unwrap(),
        "/board/v2/messages/direct/8a/infra-two/10889/08/02/05/31/Z/7ZZZZZZZZZZZZZZZZZZZZZZZZZ.json.zst"
    );
    assert_eq!(
        message_path("/board", "global", &message("short")).unwrap_err().message,
        "parse message ULID: invalid length"
    );
    assert_eq!(
        message_path("/board", "global", &message("01K4FQ1983KJF2D2J7FQ0FJ3T!")).unwrap_err().message,
        "parse message ULID: invalid character"
    );
}

#[test]
fn relative_paths_are_portable() {
    assert_eq!(portable_relative_path("/board", "/board/v2/messages/x"), "v2/messages/x");
    assert_eq!(portable_relative_path("/board/", "/board//v2/./x"), "v2/x");
    assert_eq!(portable_relative_path("/other", "/board/v2"), "//board/v2");
    assert_eq!(portable_relative_path("", "v2/x"), "v2/x");
}

#[test]
fn expiry_targets_are_resolved_or_refused() {
    let id = "01K4FQ1983KJF2D2J7FQ0FJ3T4";
    let target = "v2/messages/global/2025/09/06/14/31/4/01K4FQ1983KJF2D2J7FQ0FJ3T4.json.zst";
    let resolve = |stored: &str| {
        resolve_expiry_target("/board", stored, id).map_err(|error| error.message)
    };
    let expected = Ok(format!("/board/{target}"));
    assert_eq!(resolve(target), expected);
    assert_eq!(resolve(&target.replace('/', "\\")), expected);
    assert_eq!(resolve(&format!("/board/{target}")), expected);
    assert_eq!(resolve(&format!("/elsewhere/{target}")), expected);
    assert_eq!(resolve(&format!("C:\\old\\{}", target.replace('/', "\\"))), expected);
    assert_eq!(
        resolve("v2/messages/../x"),
        Err("expiry target contains a parent traversal".to_owned())
    );
    assert_eq!(
        resolve("..\\x"),
        Err("expiry target contains a parent traversal".to_owned())
    );
    assert_eq!(
        resolve("/keep-me"),
        Err("expiry target is outside the board root".to_owned())
    );
    let foreign = Err("expiry target is not the indexed message inside v2/messages".to_owned());
    assert_eq!(resolve("keep-me"), foreign);
    assert_eq!(resolve("v2/expiry/01K4FQ1983KJF2D2J7FQ0FJ3T4.json.zst"), foreign);
    assert_eq!(resolve("v2/messages/global/other.json.zst"), foreign);
    assert_eq!(resolve("/board/v2/consumers/01K4FQ1983KJF2D2J7FQ0FJ3T4.json.zst"), foreign);
}

#[test]
fn stored_paths_survive_a_move() {
    let id = "01K4FQ1983KJF2D2J7FQ0FJ3T4";
    for rest in [format!("{id}.json.zst"), format!("v2/messages/größe/..x/{id}.json.zst")] {
        let stored =
            portable_relative_path("/old/board", &format!("/old//board/./v2/messages/{rest}"));
        assert_eq!(stored, format!("v2/messages/{rest}"));
        for moved in ["/", "/new", "/v2/messages", "new", ".", "messages"] {
            let target = resolve_expiry_target(moved, &stored, id).unwrap();
            assert_eq!(Path::new(&target), Path::new(moved).join(format!("v2/messages/{rest}")));
        }
        assert_eq!(resolve_expiry_target("", &stored, id).unwrap(), stored);
        // A relative root at the beginning of the path is taken for the board's.
        assert!(resolve_expiry_target("v2", &stored, id).is_err());
    }
}

#[test]
fn empty_directories_are_pruned_up_to_the_index() {
    assert_eq!(
        prune_empty_expiry_ancestors("/board/v2/expiry/2026/09/06", "/board/v2/expiry"),
        vec![
            "/board/v2/expiry/2026/09/06",
            "/board/v2/expiry/2026/09",
            "/board/v2/expiry/2026"
        ]
    );
    assert!(prune_empty_expiry_ancestors("/board/v2/expiry", "/board/v2/expiry/").is_empty());
    assert_eq!(prune_empty_expiry_ancestors("a/b", "/x"), vec!["a/b", "a", ""]);
}

#[test]
fn pruning_keeps_the_last() {
    let list: Vec<String> = ["/p/c", "/p/a", "/p/d", "/p/b", "/p/e"].map(str::to_owned).to_vec();
    let parted = prune(&list, 4);
    assert_eq!(parted.removed, vec!["/p/a"]);
    assert_eq!(parted.kept, vec!["/p/b", "/p/c", "/p/d", "/p/e"]);
    assert!(prune(&list, 9).removed.is_empty());
    assert_eq!(latest(&list).as_deref(), Some("/p/e"));
    assert_eq!(latest(&Vec::new()), None);
}

#[test]
fn default_root_is_the_nearest_board() {
    assert_eq!(
        root_candidates("/home/me/project"),
        vec![
            "/home/me/project/.ai/message-board",
            "/home/me/.ai/message-board",
            "/home/.ai/message-board",
            "/.ai/message-board"
        ]
    );
    let start = "/home/me/project";
    assert_eq!(
        default_root(start, &vec![false, true, true, false]),
        "/home/me/.ai/message-board"
    );
    assert_eq!(default_root(start, &vec![false; 4]), "/home/me/project/.ai/message-board");
}

#[test]
fn documents_are_written_beside_their_place() {
    assert_eq!(document_directory("/a/b.json.zst").unwrap(), "/a");
    assert_eq!(document_directory("b.json.zst").unwrap(), "");
    assert_eq!(
        document_directory("/").unwrap_err().message,
        "document path has no parent: /"
    );
    assert_eq!(
        write_document("", b"{}").err().unwrap().message,
        "document path has no parent: "
    );
    assert_eq!(
        write_document("a/..", b"{}").err().unwrap().message,
        "document path is not UTF-8: a/.."
    );
    let document = write_document("/a/b.json.zst", b"{}").unwrap();
    let hidden = document.temporary_path.strip_prefix("/a/.b.json.zst.").unwrap();
    let digits = hidden.strip_suffix(".part").unwrap();
    assert_eq!(digits.len(), 16);
    assert!(digits.chars().all(|c| c.is_ascii_digit() || ('a'..='f').contains(&c)));
}
