//! Commands, tools, options and the clockwork of a session.
use zboard::app::{
    command_failed, command_name, draft_reply, handle_command, handle_line, limit_history,
    parse_duration_seconds, required_value, run_command, run_options, try_main,
    validate_recipients, validate_target_group, Arguments, EventLoop, Line, LoopEvent, LoopStep,
    Mode, Payload, Request, Work,
};
use zboard::clock::{Interval, Moment};
use zboard::mcp::{derived_project, poll_bounds, ZboardServer};
use zboard::model::{Agent, Command, Group, Membership, Message, Output, Presence};
use zboard::storage::{BoardState, ScanResult};

const NOW: Moment = Moment { seconds: 1_757_169_100, nanos: 0 };

fn agent(id: &str, project: &str) -> Agent {
    Agent {
        schema: "aiboard.agent.v1".to_owned(),
        id: id.to_owned(),
        project: project.to_owned(),
        session_id: "x".to_owned(),
        platform: "linux".to_owned(),
        path: "/".to_owned(),
        registered_at: String::new(),
    }
}

fn me() -> Agent {
    agent("infra-two", "infra")
}

fn presence() -> Presence {
    Presence {
        schema: "aiboard.presence.v1".to_owned(),
        id: "01K4FQ1983KJF2D2J7FQ0FJ3T4".to_owned(),
        agent: "infra-two".to_owned(),
        last_seen: "2025-09-06T14:31:40.000Z".to_owned(),
    }
}

fn message(id: &str, group: Option<&str>) -> Message {
    Message {
        schema: "aiboard.message.v1".to_owned(),
        id: id.to_owned(),
        timestamp: String::new(),
        from: "worka-one".to_owned(),
        to: if group.is_some() { Vec::new() } else { vec!["infra-two".to_owned()] },
        group: group.map(str::to_owned),
        thread: "T".to_owned(),
        reply_to: None,
        message: "hello".to_owned(),
        meta: None,
        expires_at: None,
    }
}

fn payload() -> Payload {
    Payload { message: "answer".to_owned(), meta: Some("1".to_owned()), ttl_seconds: Some(7) }
}

fn board() -> BoardState {
    let mut state = BoardState::new();
    for one in [me(), agent("worka-one", "worka")] {
        state.agents.insert(one.id.clone(), one);
    }
    for name in ["release", "other"] {
        let group = Group {
            schema: "aiboard.group.v1".to_owned(),
            name: name.to_owned(),
            created_by: "worka-one".to_owned(),
            created_at: String::new(),
        };
        state.groups.insert(name.to_owned(), group);
    }
    state.memberships.insert("release".to_owned(), "infra-two".to_owned());
    state
}

fn send(to: &[&str], group: Option<&str>) -> Command {
    Command::Send {
        to: to.iter().map(|one| one.to_string()).collect(),
        group: group.map(str::to_owned),
        message: "answer".to_owned(),
        meta: None,
        ttl_seconds: None,
    }
}

fn work(state: &mut BoardState, command: Command) -> Work {
    handle_command(state, &me(), presence(), command, NOW)
}

fn refusal(state: &mut BoardState, command: Command) -> String {
    match work(state, command) {
        Work::Refuse(error) => error.message,
        _ => panic!("the command is refused"),
    }
}

#[test]
fn recipients_must_be_known() {
    let state = board();
    let check = |list: &[&str]| {
        let list = list.iter().map(|one| one.to_string()).collect();
        validate_recipients(&state, &list).map_err(|error| error.message)
    };
    assert_eq!(check(&["worka-one", "infra-two"]), Ok(()));
    assert_eq!(check(&[]), Err("provide at least one recipient".to_owned()));
    assert_eq!(
        check(&["x\"y", "worka-one", "z"]),
        Err("unknown recipient(s): [\"x\\\"y\", \"z\"]".to_owned())
    );
}

#[test]
fn groups_must_be_known_and_joined() {
    let state = board();
    let check = |group: &str| {
        validate_target_group(&state, &me(), group).map_err(|error| error.message)
    };
    for open in ["global", "project:infra", "release"] {
        assert_eq!(check(open), Ok(()));
    }
    assert_eq!(check("project:worka"), Err("unknown group 'project:worka'".to_owned()));
    assert_eq!(check("other"), Err("join group 'other' before sending to it".to_owned()));
}

#[test]
fn commands_are_decided() {
    let mut state = board();
    match work(&mut state, send(&["worka-one"], None)) {
        Work::Publish(draft) => {
            assert_eq!(draft.to, vec!["worka-one"]);
            assert_eq!(draft.body, "answer");
            assert_eq!(draft.thread, None);
        }
        _ => panic!("the message is published"),
    }
    assert_eq!(state.presence.get("infra-two").unwrap(), &presence());
    assert_eq!(refusal(&mut state, send(&[], None)), "provide at least one recipient");
    assert_eq!(
        refusal(&mut state, send(&["worka-one"], Some("other"))),
        "join group 'other' before sending to it"
    );
    let create = Command::GroupCreate { name: "x".to_owned() };
    assert!(matches!(work(&mut state, create), Work::CreateGroup(name) if name == "x"));
    let join = Command::GroupJoin { name: "x".to_owned() };
    assert!(matches!(work(&mut state, join), Work::JoinGroup(name) if name == "x"));
    assert!(matches!(work(&mut state, Command::Ping), Work::Answer(Output::Pong)));
    let history = Command::History { thread: Some("T".to_owned()), group: None, limit: Some(5000) };
    match work(&mut state, history) {
        Work::ReadHistory(thread, group, limit) => {
            assert_eq!(thread.as_deref(), Some("T"));
            assert_eq!(group, None);
            assert_eq!(limit, 1000);
        }
        _ => panic!("a history is read"),
    }
    match work(&mut state, Command::Agents) {
        Work::Answer(Output::Agents { agents }) => {
            assert_eq!(agents[0].agent, me());
            assert!(agents[0].online);
            assert!(!agents[1].online);
        }
        _ => panic!("the agents are told"),
    }
}

#[test]
fn replies_are_drafted() {
    let mut state = board();
    state.messages.insert("D".to_owned(), message("D", None));
    state.messages.insert("G".to_owned(), message("G", Some("release")));
    let direct = draft_reply(&state, "infra-two", "D", payload()).unwrap();
    assert_eq!(direct.to, vec!["worka-one"]);
    assert_eq!(direct.group, None);
    assert_eq!(direct.thread.as_deref(), Some("T"));
    assert_eq!(direct.reply_to.as_deref(), Some("D"));
    assert_eq!(direct.meta.as_deref(), Some("1"));
    assert_eq!(direct.ttl_seconds, Some(7));
    let grouped = draft_reply(&state, "infra-two", "G", payload()).unwrap();
    assert!(grouped.to.is_empty());
    assert_eq!(grouped.group.as_deref(), Some("release"));
    assert_eq!(
        draft_reply(&state, "infra-two", "X", payload()).unwrap_err().message,
        "unknown message 'X'"
    );
    let mut alone = message("A", None);
    alone.from = "infra-two".to_owned();
    state.messages.insert("A".to_owned(), alone);
    assert_eq!(
        draft_reply(&state, "infra-two", "A", payload()).unwrap_err().message,
        "reply has no participant other than the current agent"
    );
}

#[test]
fn commands_have_names() {
    let name = |command: Command| command_name(&command);
    assert_eq!(name(send(&[], None)), "send");
    let reply = Command::Reply {
        to: String::new(),
        message: String::new(),
        meta: None,
        ttl_seconds: None,
    };
    assert_eq!(name(reply), "reply");
    assert_eq!(name(Command::GroupCreate { name: String::new() }), "group.create");
    assert_eq!(name(Command::GroupJoin { name: String::new() }), "group.join");
    assert_eq!(name(Command::Agents), "agents");
    assert_eq!(name(Command::Groups), "groups");
    assert_eq!(name(Command::History { thread: None, group: None, limit: None }), "history");
    assert_eq!(name(Command::Ping), "ping");
    assert!(matches!(handle_line(Ok(Command::Groups)), Line::Run(name, _) if name == "groups"));
    assert_eq!(
        command_failed("send".to_owned(), "no"),
        Output::Error { op: Some("send".to_owned()), message: "no".to_owned() }
    );
}

#[test]
fn limits_are_bounded() {
    assert_eq!(limit_history(None), 50);
    assert_eq!(limit_history(Some(0)), 0);
    assert_eq!(limit_history(Some(1000)), 1000);
    assert_eq!(limit_history(Some(1001)), 1000);
    let bounds = poll_bounds(None, None);
    assert_eq!((bounds.timeout_ms, bounds.limit), (0, 50));
    let bounds = poll_bounds(Some(30_001), Some(0));
    assert_eq!((bounds.timeout_ms, bounds.limit), (30_000, 1));
    let bounds = poll_bounds(Some(7), Some(2000));
    assert_eq!((bounds.timeout_ms, bounds.limit), (7, 1000));
}

#[test]
fn intervals_are_whole_seconds() {
    let read = |text: &str| {
        parse_duration_seconds(text)
            .map(|interval| (interval.seconds, interval.nanos))
            .map_err(|error| error.message)
    };
    assert_eq!(read("3"), Ok((3, 0)));
    assert_eq!(read("+07"), Ok((7, 0)));
    assert_eq!(read("18446744073709551615"), Ok((u64::MAX, 0)));
    assert_eq!(read("0"), Err("poll interval must be at least one second".to_owned()));
    for text in ["", "+", "-", "-1", "1x", " 1", "1.5", "18446744073709551616", "99999999999999999999x", "٣"] {
        let expected = text.parse::<u64>().unwrap_err();
        assert_eq!(read(text), Err(format!("poll interval must be seconds: {expected}")));
    }
}

#[test]
fn flags_require_values() {
    let args = vec!["--root".to_owned(), "/b".to_owned()];
    assert_eq!(required_value(&args, 1, "--root").unwrap(), ("/b".to_owned(), 2));
    assert_eq!(
        required_value(&args, 2, "--root").unwrap_err().message,
        "--root requires a value"
    );
}

fn arguments(list: &[&str]) -> Result<Request, String> {
    let args = list.iter().map(|one| one.to_string()).collect();
    run_command("run", &args, Some("/env".to_owned()), None, Some("s".to_owned()))
        .map_err(|error| error.message)
}

#[test]
fn options_are_read() {
    let all = [
        "run", "--root", "/b", "--project", "infra", "--session", "two", "--path", "/p",
        "--poll-interval", "1",
    ];
    match arguments(&all).unwrap() {
        Request::Run(found) => assert_eq!(
            found,
            Arguments {
                root: Some("/b".to_owned()),
                project: Some("infra".to_owned()),
                session: Some("two".to_owned()),
                project_path: Some("/p".to_owned()),
                poll_interval: Interval { seconds: 1, nanos: 0 },
            }
        ),
        Request::Help => panic!("no help is asked for"),
    }
    match arguments(&["run"]).unwrap() {
        Request::Run(found) => {
            assert_eq!(found.root.as_deref(), Some("/env"));
            assert_eq!(found.project, None);
            assert_eq!(found.poll_interval, Interval { seconds: 3, nanos: 0 });
            let refused = run_options(found, "/cwd", "/default").unwrap_err();
            assert_eq!(refused.message, "set --project or ZBOARD_PROJECT");
        }
        Request::Help => panic!("no help is asked for"),
    }
    assert!(matches!(arguments(&["run", "--project", "x", "-h", "--nonsense"]), Ok(Request::Help)));
    let failed = |list: &[&str]| arguments(list).err().unwrap();
    assert_eq!(failed(&["run", "--path"]), "--path requires a value");
    assert_eq!(failed(&["run", "--nonsense"]), "unknown run option '--nonsense'");
    assert_eq!(
        failed(&["run", "--poll-interval", "0"]),
        "poll interval must be at least one second"
    );
}

#[test]
fn sessions_have_options() {
    let given = || Arguments {
        root: None,
        project: Some("infra".to_owned()),
        session: Some("two".to_owned()),
        project_path: None,
        poll_interval: Interval { seconds: 3, nanos: 0 },
    };
    let options = run_options(given(), "/cwd", "/default").unwrap();
    assert_eq!(options.root, "/default");
    assert_eq!(options.project_path, "/cwd");
    assert_eq!(options.project, "infra");
    let mut nameless = given();
    nameless.session = None;
    assert_eq!(
        run_options(nameless, "/cwd", "/default").unwrap_err().message,
        "set --session, ZBOARD_SESSION_ID, CODEX_THREAD_ID, or CODEX_SESSION_ID so registration is stable"
    );
}

#[test]
fn modes_are_named() {
    let mode = |list: &[&str]| {
        try_main(&list.iter().map(|one| one.to_string()).collect()).map_err(|error| error.message)
    };
    assert_eq!(mode(&[]), Ok(Mode::Help));
    assert_eq!(mode(&["-h"]), Ok(Mode::Help));
    assert_eq!(mode(&["--help"]), Ok(Mode::Help));
    assert_eq!(mode(&["run"]), Ok(Mode::Run));
    assert_eq!(mode(&["mcp"]), Ok(Mode::Mcp));
    assert_eq!(mode(&["migrate"]), Ok(Mode::Migrate));
    assert_eq!(
        mode(&["walk"]),
        Err("unknown command 'walk'; expected 'run', 'mcp' or 'migrate'".to_owned())
    );
}

#[test]
fn the_clockwork_keeps_time() {
    let mut clockwork = EventLoop::new(Interval { seconds: 3, nanos: 0 }, 1_000);
    assert_eq!(clockwork.timeout(1_000), 3_000_000_000);
    assert!(!clockwork.is_due(3_000_000_999));
    assert!(clockwork.is_due(3_000_001_000));
    assert_eq!(clockwork.timeout(9_000_000_000), 0);
    assert!(matches!(clockwork.receive(LoopEvent::Filesystem, 2_000), LoopStep::Wait));
    assert_eq!(clockwork.timeout(2_000), 50_000_000);
    assert!(matches!(clockwork.receive(LoopEvent::Filesystem, 40_000_000), LoopStep::Wait));
    assert_eq!(clockwork.reconcile_at, 50_002_000);
    assert!(matches!(clockwork.receive(LoopEvent::Timeout, 50_002_000), LoopStep::Reconcile));
    clockwork.reconciled(60_000_000);
    assert_eq!(clockwork.reconcile_at, 3_060_000_000);
    assert!(matches!(
        clockwork.receive(LoopEvent::Input("x".to_owned()), 0),
        LoopStep::Handle(line) if line == "x"
    ));
    assert!(matches!(
        clockwork.receive(LoopEvent::WatchWarning("w".to_owned()), 0),
        LoopStep::Emit(Output::Warning { message }) if message == "w"
    ));
    assert!(matches!(clockwork.receive(LoopEvent::InputClosed, 0), LoopStep::Stop));
    assert!(matches!(clockwork.receive(LoopEvent::Disconnected, 0), LoopStep::Stop));
    let longest = EventLoop::new(Interval { seconds: u64::MAX, nanos: 999_999_999 }, u64::MAX);
    assert!(!longest.is_due(u64::MAX));
}

fn server() -> ZboardServer {
    let none = ScanResult { new_messages: Vec::new(), warnings: Vec::new() };
    let interval = Interval { seconds: 1, nanos: 0 };
    ZboardServer::new("/b".to_owned(), me(), interval, board(), false, &none).server
}

#[test]
fn tools_check_targets() {
    let server = server();
    let check = |to: &[&str], group: Option<&str>| {
        let to = to.iter().map(|one| one.to_string()).collect();
        server
            .message_send(to, group.map(str::to_owned), payload())
            .map(|draft| draft.body)
            .map_err(|error| error.message)
    };
    assert_eq!(check(&["worka-one"], None), Ok("answer".to_owned()));
    assert_eq!(check(&[], Some("release")), Ok("answer".to_owned()));
    assert_eq!(check(&[], None), Err("provide at least one recipient or a group".to_owned()));
    assert_eq!(check(&["x"], None), Err("unknown recipient(s): [\"x\"]".to_owned()));
    assert_eq!(check(&[], Some("x")), Err("unknown group 'x'".to_owned()));
    assert_eq!(
        server.message_reply("X", payload()).unwrap_err().message,
        "unknown message 'X'"
    );
    assert_eq!(server.identity(), me());
    assert_eq!(server.agents_list(NOW).len(), 2);
    assert_eq!(server.groups_list()[1].members, vec!["infra-two"]);
}

#[test]
fn tools_keep_groups() {
    let mut server = server();
    let membership = |group: &str| Membership {
        schema: "aiboard.membership.v1".to_owned(),
        group: group.to_owned(),
        agent: "infra-two".to_owned(),
        joined_at: String::new(),
    };
    let joined = server.group_join(membership("other"), "other").unwrap();
    assert_eq!(joined.created_by, "worka-one");
    assert_eq!(joined.members, vec!["infra-two"]);
    assert_eq!(
        server.group_join(membership("x"), "x").unwrap_err().message,
        "unknown group 'x'"
    );
    let group = Group {
        schema: "aiboard.group.v1".to_owned(),
        name: "x".to_owned(),
        created_by: "infra-two".to_owned(),
        created_at: String::new(),
    };
    assert!(server.group_create(group).members.is_empty());
    assert_eq!(server.groups_list()[2].members, vec!["infra-two"]);
}

#[test]
fn the_inbox_is_polled_in_batches() {
    let mut server = server();
    assert!(server.inbox_poll(2, false).is_none());
    assert!(server.inbox_poll(2, true).unwrap().is_empty());
    for id in ["A", "B", "C"] {
        server.board.messages.insert(id.to_owned(), message(id, None));
    }
    let own = Message { from: "infra-two".to_owned(), ..message("D", None) };
    server.board.messages.insert("D".to_owned(), own);
    let found = ScanResult {
        new_messages: ["A", "B", "C", "D", "E"].map(str::to_owned).to_vec(),
        warnings: vec!["careful".to_owned()],
    };
    assert_eq!(server.refresh(found), vec!["careful"]);
    let ids = |messages: &Vec<Message>| messages.iter().map(|one| one.id.clone()).collect::<Vec<_>>();
    let first = server.inbox_poll(2, false).unwrap();
    assert_eq!(ids(&first), vec!["A", "B"]);
    assert_eq!(server.pending_ack, first);
    assert_eq!(ids(&server.inbox), vec!["C"]);
    let delivered = server.begin_poll();
    assert_eq!(delivered, first);
    assert!(server.pending_ack.is_empty());
    server.abandon_poll(delivered);
    assert_eq!(server.pending_ack, first);
    assert_eq!(server.sleep_time(5_000_000_000), 1_000_000_000);
    assert_eq!(server.sleep_time(7), 7);
}

#[test]
fn opened_servers_report_warnings() {
    let found = ScanResult {
        new_messages: vec!["A".to_owned()],
        warnings: vec!["one".to_owned(), "two".to_owned()],
    };
    let mut state = board();
    state.messages.insert("A".to_owned(), message("A", None));
    let interval = Interval { seconds: 1, nanos: 0 };
    let opened = ZboardServer::new("/b".to_owned(), me(), interval, state, false, &found);
    assert_eq!(opened.log.as_deref(), Some("zboard: initial scan warnings: one; two"));
    assert_eq!(opened.acknowledge.len(), 1);
    assert!(opened.server.inbox.is_empty());
}

#[test]
fn projects_are_named_by_their_directories() {
    assert_eq!(derived_project("/home/me/My Project.rs").as_deref(), Some("my-project-rs"));
    assert_eq!(derived_project("/home/me/job_01-x/").as_deref(), Some("job_01-x"));
    assert_eq!(derived_project("/"), None);
}
