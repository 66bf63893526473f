//! The board as a whole, on a file system in memory.
use std::collections::{BTreeMap, BTreeSet};

use zboard::app::{
    command_failed, group_created, group_joined, handle_command, handle_line, history_told,
    message_sent, reconcile, run, Line, Payload, Work,
};
use zboard::clock::{current_moment, write_moment, Interval, Moment};
use zboard::frame::{decode_document, encode_document};
use zboard::mcp::{poll_bounds, ZboardServer};
use zboard::model::{
    Agent, Command, Group, Membership, Message, Output, Presence, AGENT_SCHEMA, MESSAGE_SCHEMA,
    PRESENCE_SCHEMA,
};
use zboard::path::parent_path;
use zboard::routed::{
    acknowledge, collect_expired, collection_done, collection_due, ensure, history, history_routes,
    initialize, message_path, message_routes, migrate_v1, migration_report, publication_paths,
    publish, prune_empty_expiry_ancestors, reading_routes, reads_whole_route, recent_paths,
    route_directory, scan, write_checkpoint, Checkpoint, Due, Expiry, Findings, MigrationReport, RoutedState, Sighting,
    EXPIRY_SCHEMA, RETAINED,
};
use zboard::storage::{
    agent_document, agent_statuses, create_group, ensure_layout, group_document, join_group,
    joined_groups, membership_document, message_is_relevant, presence_directory, prune_presence,
    publish_message, register_agent, scan_routed, touch_presence, validate_agent, BoardState,
    MessageDraft, ScanResult, Seen, SeenGroup, Snapshot, DOCUMENT_SUFFIX,
};
use zboard::ulids::{unordered_id, IdSource};
use zboard::walk::{
    child_directories, document_files, document_files_recursive, due_expiry_files, latest,
    newest_paths, prune, Entry, ListingFailure,
};

enum Document {
    Agent(Agent),
    Group(Group),
    Membership(Membership),
    Presence(Presence),
    Message(Message),
    Checkpoint(Checkpoint),
    Expiry(Expiry),
    Corrupt,
}

struct Disk {
    documents: BTreeMap<String, Document>,
    directories: BTreeSet<String>,
    clock: u64,
}

impl Disk {
    fn new() -> Disk {
        Disk { documents: BTreeMap::new(), directories: BTreeSet::new(), clock: 0 }
    }

    fn with_board(root: &str) -> Disk {
        let mut disk = Disk::new();
        for directory in ensure_layout(root).directories {
            disk.create(&directory);
        }
        for directory in ensure(root) {
            disk.create(&directory);
        }
        disk
    }

    fn create(&mut self, directory: &str) {
        let mut current = Some(directory.to_owned());
        while let Some(path) = current {
            if path.is_empty() || path == "/" {
                break;
            }
            current = parent_path(&path);
            self.directories.insert(path);
        }
    }

    fn write(&mut self, path: &str, document: Document) {
        if let Some(parent) = parent_path(path) {
            self.create(&parent);
        }
        self.documents.insert(path.to_owned(), document);
    }

    fn holds(&self, path: &str) -> bool {
        self.documents.contains_key(path) || self.directories.contains(path)
    }

    fn entries(&self, directory: &str) -> Vec<Entry> {
        let prefix = format!("{directory}/");
        let mut found = Vec::new();
        for path in &self.directories {
            if let Some(rest) = path.strip_prefix(&prefix) {
                if !rest.contains('/') {
                    found.push(Entry { path: path.clone(), is_directory: true, is_file: false });
                }
            }
        }
        for path in self.documents.keys() {
            if let Some(rest) = path.strip_prefix(&prefix) {
                if !rest.contains('/') {
                    found.push(Entry { path: path.clone(), is_directory: false, is_file: true });
                }
            }
        }
        found
    }

    fn list(&self, directory: &str) -> Result<Vec<Entry>, ListingFailure> {
        if self.directories.contains(directory) {
            Ok(self.entries(directory))
        } else {
            Err(ListingFailure { absent: true, words: "No such file or directory".to_owned() })
        }
    }

    fn tree(&self, root: &str) -> Vec<String> {
        let mut walk = document_files_recursive(root);
        while let Some(directory) = walk.next() {
            let entries = self.entries(&directory);
            walk.visit(&entries);
        }
        walk.files
    }

    fn message(&self, path: &str) -> Result<Message, String> {
        match self.documents.get(path) {
            Some(Document::Message(message)) => Ok(message.clone()),
            _ => Err("unreadable".to_owned()),
        }
    }

    fn stored(&self, paths: &Vec<String>) -> Vec<Option<Result<Message, String>>> {
        paths
            .iter()
            .map(|path| if self.holds(path) { Some(self.message(path)) } else { None })
            .collect()
    }

    fn store_message(&mut self, root: &str, message: &Message) -> Result<Vec<String>, String> {
        let paths = publication_paths(root, message).map_err(|error| error.message)?;
        let stored = self.stored(&paths);
        let publication = publish(root, message, &stored);
        for path in &publication.writes {
            self.write(path, Document::Message(message.clone()));
        }
        let paths = publication.outcome.map_err(|error| error.message)?;
        if let Some(index) = publication.index {
            let filed = index.map_err(|error| error.message)?;
            self.write(&filed.path, Document::Expiry(filed.document));
        }
        Ok(paths)
    }

    fn collect(&mut self, root: &str) -> Result<(), String> {
        let now = current_moment();
        let expiry_root = format!("{root}/v2/expiry");
        let mut walk = due_expiry_files(&expiry_root, now);
        while let Some(folder) = walk.next() {
            let entries = self.entries(&folder.path);
            walk.visit(&folder, &entries);
        }
        for path in walk.files {
            let content = match self.documents.get(&path) {
                Some(Document::Expiry(entry)) => Ok(Expiry {
                    schema: entry.schema.clone(),
                    message: entry.message.clone(),
                    expires_at: entry.expires_at.clone(),
                    paths: entry.paths.clone(),
                }),
                _ => Err("unreadable".to_owned()),
            };
            match collect_expired(root, &path, &content, now) {
                Due::Leave => {}
                Due::Refuse(error) => return Err(error.message),
                Due::Remove(targets, failure) => {
                    for target in targets {
                        self.documents.remove(&target);
                    }
                    if let Some(error) = failure {
                        return Err(error.message);
                    }
                    self.documents.remove(&path);
                    let parent = parent_path(&path).unwrap();
                    for directory in prune_empty_expiry_ancestors(&parent, &expiry_root) {
                        if !self.entries(&directory).is_empty() {
                            break;
                        }
                        self.directories.remove(&directory);
                    }
                }
            }
        }
        Ok(())
    }

    fn store_checkpoint(&mut self, root: &str, state: &RoutedState) {
        next_millisecond();
        let filed = write_checkpoint(root, state);
        let directory = parent_path(&filed.path).unwrap();
        self.write(&filed.path, Document::Checkpoint(filed.document));
        for path in prune(&self.tree(&directory), RETAINED).removed {
            self.documents.remove(&path);
        }
    }

    fn initialize(&mut self, root: &str, state: &mut RoutedState, agent: &Agent) -> bool {
        let directory = zboard::routed::consumer_directory(root, &agent.id);
        let stored = latest(&self.tree(&directory)).map(|path| match self.documents.get(&path) {
            Some(Document::Checkpoint(checkpoint)) => Ok(copy_checkpoint(checkpoint)),
            _ => Err("unreadable".to_owned()),
        });
        let resumed = initialize(state, agent, stored).unwrap();
        if !resumed {
            self.store_checkpoint(root, state);
        }
        resumed
    }

    fn acknowledge(&mut self, root: &str, state: &mut RoutedState, messages: &Vec<Message>) {
        if acknowledge(state, messages, current_moment()) {
            self.store_checkpoint(root, state);
        }
    }

    fn scan_routes(&mut self, root: &str, state: &mut RoutedState, groups: &Vec<String>) -> Findings {
        let now = current_moment();
        let mut seen = Vec::new();
        for route in reading_routes(&state.agent_id, &state.project, groups) {
            for directory in recent_paths(root, &route, now) {
                for path in self.tree(&directory) {
                    let content = self.message(&path);
                    seen.push(Sighting { route: route.clone(), path, content });
                }
            }
        }
        let mut findings = scan(state, &seen, &Vec::new(), now);
        if collection_due(state, self.clock) {
            let outcome = self.collect(root);
            if let Some(warning) = collection_done(state, self.clock, outcome) {
                findings.warnings.push(warning);
            }
        }
        findings
    }

    fn scan(&mut self, root: &str, state: &mut BoardState) -> ScanResult {
        let version_root = ensure_layout(root).version_root;
        let snapshot = Snapshot {
            agents: self.agents(&version_root),
            groups: self.groups(&version_root),
            gone_presence: state
                .loaded_presence_paths
                .as_list()
                .iter()
                .filter(|path| !self.holds(path))
                .cloned()
                .collect(),
            presence: self.presence(&version_root),
            messages: self.old_messages(&version_root),
        };
        let mut result = zboard::storage::scan(state, &snapshot);
        let groups = joined_groups(state, &state.routed.agent_id);
        let findings = self.scan_routes(root, &mut state.routed, &groups);
        scan_routed(state, &mut result, &findings);
        result
    }

    fn agents(&self, version_root: &str) -> Vec<Seen<Agent>> {
        let root = format!("{version_root}/agents");
        let mut seen = Vec::new();
        for folder in child_directories(&root, &self.list(&root)).paths {
            for path in document_files(&folder, &self.list(&folder)).paths {
                let content = match self.documents.get(&path) {
                    Some(Document::Agent(agent)) => Ok(agent.clone()),
                    _ => Err("unreadable".to_owned()),
                };
                seen.push(Seen::Document { folder: folder.clone(), path, content });
            }
        }
        seen
    }

    fn groups(&self, version_root: &str) -> Vec<SeenGroup> {
        let root = format!("{version_root}/groups");
        let mut seen = Vec::new();
        for folder in child_directories(&root, &self.list(&root)).paths {
            let path = format!("{folder}/group{DOCUMENT_SUFFIX}");
            if let Some(document) = self.documents.get(&path) {
                let content = match document {
                    Document::Group(group) => Ok(group.clone()),
                    _ => Err("unreadable".to_owned()),
                };
                seen.push(SeenGroup::Group { folder: folder.clone(), content });
            }
            let members = format!("{folder}/members");
            for path in document_files(&members, &self.list(&members)).paths {
                let content = match self.documents.get(&path) {
                    Some(Document::Membership(membership)) => Ok(membership.clone()),
                    _ => Err("unreadable".to_owned()),
                };
                seen.push(SeenGroup::Member { folder: folder.clone(), path, content });
            }
        }
        seen
    }

    fn presence(&self, version_root: &str) -> Vec<Seen<Presence>> {
        let root = format!("{version_root}/presence");
        let mut seen = Vec::new();
        for folder in child_directories(&root, &self.list(&root)).paths {
            for path in document_files(&folder, &self.list(&folder)).paths {
                let content = match self.documents.get(&path) {
                    Some(Document::Presence(presence)) => Ok(presence.clone()),
                    _ => Err("unreadable".to_owned()),
                };
                seen.push(Seen::Document { folder: folder.clone(), path, content });
            }
        }
        seen
    }

    fn old_messages(&self, version_root: &str) -> Vec<Seen<Message>> {
        let root = format!("{version_root}/messages");
        let mut seen = Vec::new();
        for folder in child_directories(&root, &self.list(&root)).paths {
            for path in document_files(&folder, &self.list(&folder)).paths {
                let content = self.message(&path);
                seen.push(Seen::Document { folder: folder.clone(), path, content });
            }
        }
        seen
    }

    fn history(
        &self,
        root: &str,
        agent: &Agent,
        groups: &Vec<String>,
        thread: &Option<String>,
        group: &Option<String>,
        limit: usize,
    ) -> Findings {
        let mut seen = Vec::new();
        for route in history_routes(agent, groups, group) {
            let folder = route_directory(root, &route);
            let paths = if reads_whole_route(thread) {
                self.tree(&folder)
            } else {
                let mut walk = newest_paths(&folder);
                while let Some(directory) = walk.next(limit) {
                    if walk.at_minutes() {
                        let documents = self.tree(&directory);
                        walk.collect(&documents);
                    } else {
                        let entries = self.entries(&directory);
                        walk.visit(&entries);
                    }
                }
                walk.found
            };
            for path in paths {
                let content = self.message(&path);
                seen.push(Sighting { route: route.clone(), path, content });
            }
        }
        history(&seen, thread, limit, current_moment())
    }

    fn touch(&mut self, ids: &mut IdSource, version_root: &str, agent_id: &str) -> Presence {
        let filed = touch_presence(ids, version_root, agent_id);
        self.write(&filed.path, Document::Presence(filed.document.clone()));
        let directory = presence_directory(version_root, agent_id);
        for path in prune_presence(&self.entries(&directory), RETAINED).removed {
            self.documents.remove(&path);
        }
        filed.document
    }

    fn register(&mut self, version_root: &str, project: &str, session: &str, path: &str) -> Agent {
        let document = agent_document(version_root, project, session).unwrap();
        let stored = self.documents.get(&document).map(|found| match found {
            Document::Agent(agent) => Ok(agent.clone()),
            _ => Err("unreadable".to_owned()),
        });
        let placed = register_agent(version_root, project, session, "linux", path, stored).unwrap();
        if placed.is_new {
            self.write(&placed.path, Document::Agent(placed.document.clone()));
        }
        placed.document
    }

    /// Runs a command to its end and gives its events.
    fn command(
        &mut self,
        root: &str,
        ids: &mut IdSource,
        agent: &Agent,
        state: &mut BoardState,
        command: Command,
    ) -> Vec<Output> {
        let version_root = ensure_layout(root).version_root;
        let (name, command) = match handle_line(Ok(command)) {
            Line::Run(name, command) => (name, command),
            Line::Report(output) => return vec![output],
        };
        let presence = self.touch(ids, &version_root, &agent.id);
        match handle_command(state, agent, presence, command, current_moment()) {
            Work::Refuse(error) => vec![command_failed(name, &error.message)],
            Work::Publish(draft) => {
                let message = match publish_message(ids, &agent.id, draft) {
                    Ok(message) => message,
                    Err(error) => return vec![command_failed(name, &error.message)],
                };
                self.store_message(root, &message).unwrap();
                self.acknowledge(root, &mut state.routed, &vec![message.clone()]);
                vec![message_sent(state, &message)]
            }
            Work::CreateGroup(group) => {
                let path = group_document(&version_root, &group);
                let stored = self.documents.get(&path).map(|found| match found {
                    Document::Group(group) => Ok(group.clone()),
                    _ => Err("unreadable".to_owned()),
                });
                match create_group(&version_root, &group, &agent.id, stored) {
                    Ok(placed) => {
                        if placed.is_new {
                            self.write(&placed.path, Document::Group(placed.document.clone()));
                        }
                        vec![group_created(state, placed.document, &group)]
                    }
                    Err(error) => vec![command_failed(name, &error.message)],
                }
            }
            Work::JoinGroup(group) => {
                let exists = self.holds(&group_document(&version_root, &group));
                let path = membership_document(&version_root, &group, &agent.id);
                let stored = self.documents.get(&path).map(|found| match found {
                    Document::Membership(membership) => Ok(membership.clone()),
                    _ => Err("unreadable".to_owned()),
                });
                match join_group(&version_root, &group, &agent.id, exists, stored) {
                    Ok(placed) => {
                        if placed.is_new {
                            self.write(&placed.path, Document::Membership(placed.document.clone()));
                        }
                        vec![group_joined(state, placed.document, &group)]
                    }
                    Err(error) => vec![command_failed(name, &error.message)],
                }
            }
            Work::ReadHistory(thread, group, limit) => {
                let groups = joined_groups(state, &agent.id);
                history_told(self.history(root, agent, &groups, &thread, &group, limit))
            }
            Work::Answer(output) => vec![output],
        }
    }

    /// Opens a tool server as an agent's client does.
    fn serve(&mut self, root: &str, ids: &mut IdSource, project: &str, session: &str) -> ZboardServer {
        let version_root = ensure_layout(root).version_root;
        let agent = self.register(&version_root, project, session, &format!("/{project}"));
        self.touch(ids, &version_root, &agent.id);
        let mut board = BoardState::new();
        let resumed = self.initialize(root, &mut board.routed, &agent);
        let initial = self.scan(root, &mut board);
        let interval = Interval { seconds: 0, nanos: 10_000_000 };
        let opened = ZboardServer::new(root.to_owned(), agent, interval, board, resumed, &initial);
        let mut server = opened.server;
        self.acknowledge(root, &mut server.board.routed, &opened.acknowledge);
        server
    }

    fn send(&mut self, ids: &mut IdSource, server: &mut ZboardServer, to: &str, body: &str, meta: Option<&str>) {
        let root = server.root.clone();
        let version_root = ensure_layout(&root).version_root;
        let presence = self.touch(ids, &version_root, &server.agent.id);
        server.touch(presence);
        self.refresh(server);
        let draft = server
            .message_send(
                vec![to.to_owned()],
                None,
                Payload {
                    message: body.to_owned(),
                    meta: meta.map(str::to_owned),
                    ttl_seconds: None,
                },
            )
            .unwrap();
        let message = publish_message(ids, &server.agent.id, draft).unwrap();
        self.store_message(&root, &message).unwrap();
        self.acknowledge(&root, &mut server.board.routed, &vec![message.clone()]);
        server.message_recorded(&message);
    }

    fn refresh(&mut self, server: &mut ZboardServer) -> Vec<String> {
        let root = server.root.clone();
        let result = self.scan(&root, &mut server.board);
        server.refresh(result)
    }

    fn poll(&mut self, ids: &mut IdSource, server: &mut ZboardServer) -> Vec<Message> {
        let root = server.root.clone();
        let version_root = ensure_layout(&root).version_root;
        let presence = self.touch(ids, &version_root, &server.agent.id);
        server.touch(presence);
        let delivered = server.begin_poll();
        self.acknowledge(&root, &mut server.board.routed, &delivered);
        self.refresh(server);
        let bounds = poll_bounds(None, None);
        server.inbox_poll(bounds.limit, bounds.timeout_ms == 0).unwrap()
    }
}

fn copy_checkpoint(checkpoint: &Checkpoint) -> Checkpoint {
    let mut routes = zboard::collections::TextMap::new();
    for position in 0..checkpoint.routes.len() {
        routes.insert(
            checkpoint.routes.key_at(position).clone(),
            checkpoint.routes.value_at(position).clone(),
        );
    }
    Checkpoint {
        schema: checkpoint.schema.clone(),
        id: checkpoint.id.clone(),
        agent: checkpoint.agent.clone(),
        updated_at: checkpoint.updated_at.clone(),
        routes,
    }
}

/// Identifiers that follow are later than those before.
fn next_millisecond() {
    let start = current_moment();
    loop {
        let now = current_moment();
        if now.seconds != start.seconds || now.nanos / 1_000_000 != start.nanos / 1_000_000 {
            return;
        }
    }
}

fn stamp_after(seconds: i64) -> String {
    let now = current_moment();
    write_moment(Moment { seconds: now.seconds + seconds, nanos: now.nanos }).unwrap()
}

fn session_agent() -> Agent {
    Agent {
        schema: AGENT_SCHEMA.to_owned(),
        id: "infra-session".to_owned(),
        project: "infra".to_owned(),
        session_id: "session".to_owned(),
        platform: "linux".to_owned(),
        path: "/infra".to_owned(),
        registered_at: "2026-09-06T00:00:00.000Z".to_owned(),
    }
}

fn second_agent() -> Agent {
    Agent {
        schema: "aiboard.agent.v1".to_owned(),
        id: "infra-two".to_owned(),
        project: "infra".to_owned(),
        session_id: "two".to_owned(),
        platform: "linux".to_owned(),
        path: "/infra".to_owned(),
        registered_at: stamp_after(0),
    }
}

fn direct_message(id: String) -> Message {
    Message {
        schema: "aiboard.message.v1".to_owned(),
        id: id.clone(),
        timestamp: stamp_after(0),
        from: "worka-one".to_owned(),
        to: vec!["infra-two".to_owned()],
        group: None,
        thread: id,
        reply_to: None,
        message: "hello".to_owned(),
        meta: None,
        expires_at: None,
    }
}

fn draft(to: Vec<String>, body: &str) -> MessageDraft {
    MessageDraft {
        to,
        group: None,
        thread: None,
        reply_to: None,
        body: body.to_owned(),
        meta: None,
        ttl_seconds: None,
    }
}

const ROOT: &str = "/board";

#[test]
fn malformed_command_is_nonfatal() {
    match handle_line(Err("expected ident at line 1 column 2".to_owned())) {
        Line::Report(Output::Error { op, message }) => {
            assert_eq!(op, None);
            assert_eq!(message, "invalid command JSON: expected ident at line 1 column 2");
        }
        _ => panic!("a line that is no command is reported as an error"),
    }
    // What follows is handled as ever.
    assert!(matches!(handle_line(Ok(Command::Ping)), Line::Run(name, Command::Ping) if name == "ping"));
}

#[test]
fn reply_preserves_thread_and_reconstructs_participants() {
    let mut disk = Disk::with_board(ROOT);
    let mut ids = IdSource::new();
    let me = session_agent();
    let other = Agent {
        id: "worka-other".to_owned(),
        project: "worka".to_owned(),
        session_id: "other".to_owned(),
        ..me.clone()
    };
    let mut state = BoardState::new();
    state.agents.insert(me.id.clone(), me.clone());
    state.agents.insert(other.id.clone(), other.clone());
    let parent = publish_message(&mut ids, &other.id, draft(vec![me.id.clone()], "question")).unwrap();
    disk.store_message(ROOT, &parent).unwrap();
    state.messages.insert(parent.id.clone(), parent.clone());

    let command = Command::Reply {
        to: parent.id.clone(),
        message: "answer".to_owned(),
        meta: None,
        ttl_seconds: None,
    };
    disk.command(ROOT, &mut ids, &me, &mut state, command);
    let reply = state.messages.value_at(state.messages.len() - 1);
    assert_eq!(reply.thread, parent.thread);
    assert_eq!(reply.reply_to.as_deref(), Some(parent.id.as_str()));
    assert_eq!(reply.to, vec![other.id]);
}

#[test]
fn history_is_ordered_and_limited() {
    let mut disk = Disk::with_board(ROOT);
    let mut ids = IdSource::new();
    let mut state = BoardState::new();
    for body in ["one", "two", "three"] {
        let draft = draft(vec!["infra-session".to_owned()], body);
        let message = publish_message(&mut ids, "worka-other", draft).unwrap();
        disk.store_message(ROOT, &message).unwrap();
        state.messages.insert(message.id.clone(), message);
    }
    let command = Command::History { thread: None, group: None, limit: Some(2) };
    let output = disk.command(ROOT, &mut ids, &session_agent(), &mut state, command);
    match &output[0] {
        Output::History { messages } => {
            assert_eq!(messages.len(), 2);
            assert_eq!(messages[1].message, "three");
        }
        _ => panic!("a history is told"),
    }
}

#[test]
fn history_excludes_unrelated_conversations() {
    let mut disk = Disk::with_board(ROOT);
    let mut ids = IdSource::new();
    let mut state = BoardState::new();
    for (recipients, body) in [
        (vec!["infra-session".to_owned()], "relevant"),
        (vec!["keldra-other".to_owned()], "unrelated"),
    ] {
        let message = publish_message(&mut ids, "worka-other", draft(recipients, body)).unwrap();
        disk.store_message(ROOT, &message).unwrap();
        state.messages.insert(message.id.clone(), message);
    }
    let command = Command::History { thread: None, group: None, limit: None };
    let output = disk.command(ROOT, &mut ids, &session_agent(), &mut state, command);
    match &output[0] {
        Output::History { messages } => {
            assert_eq!(messages.len(), 1);
            assert_eq!(messages[0].message, "relevant");
        }
        _ => panic!("a history is told"),
    }
}

#[test]
fn direct_message_reaches_recipient_inbox() {
    let mut disk = Disk::with_board(ROOT);
    let mut ids = IdSource::new();
    let mut sender = disk.serve(ROOT, &mut ids, "worka", "one");
    let mut recipient = disk.serve(ROOT, &mut ids, "infra", "two");
    let meta = "{\"count\":2,\"schema\":\"example.v1\"}";
    disk.send(&mut ids, &mut sender, &recipient.agent.id, "handoff", Some(meta));

    assert!(disk.refresh(&mut recipient).is_empty());
    let received = recipient.inbox.remove(0);
    assert_eq!(received.message, "handoff");
    assert_eq!(received.meta.as_deref(), Some(meta));
    assert_eq!(received.from, sender.agent.id);
}

#[test]
fn group_send_requires_membership() {
    let mut disk = Disk::with_board(ROOT);
    let mut ids = IdSource::new();
    let mut server = disk.serve(ROOT, &mut ids, "infra", "one");
    let version_root = ensure_layout(ROOT).version_root;
    let placed = create_group(&version_root, "release", &server.agent.id, None).unwrap();
    assert_eq!(placed.document.created_by, "infra-one");
    server.group_create(placed.document);
    let refused = server.validate_send(&Vec::new(), &Some("release".to_owned()));
    assert_eq!(refused.unwrap_err().message, "join group 'release' before sending to it");
}

#[test]
fn restart_delivers_messages_received_while_offline() {
    let mut disk = Disk::with_board(ROOT);
    let mut ids = IdSource::new();
    let recipient = disk.serve(ROOT, &mut ids, "infra", "two");
    let recipient_id = recipient.agent.id.clone();
    drop(recipient);
    let mut sender = disk.serve(ROOT, &mut ids, "worka", "one");
    disk.send(&mut ids, &mut sender, &recipient_id, "while offline", None);

    let resumed = disk.serve(ROOT, &mut ids, "infra", "two");
    assert_eq!(resumed.inbox.len(), 1);
    assert_eq!(resumed.inbox[0].message, "while offline");
}

#[test]
fn mcp_poll_acknowledges_only_after_the_next_poll() {
    let mut disk = Disk::with_board(ROOT);
    let mut ids = IdSource::new();
    let mut recipient = disk.serve(ROOT, &mut ids, "infra", "two");
    let recipient_id = recipient.agent.id.clone();
    let mut sender = disk.serve(ROOT, &mut ids, "worka", "one");
    disk.send(&mut ids, &mut sender, &recipient_id, "at least once", None);

    let first = disk.poll(&mut ids, &mut recipient);
    assert_eq!(first.len(), 1);
    drop(recipient);

    let mut resumed = disk.serve(ROOT, &mut ids, "infra", "two");
    let replayed = disk.poll(&mut ids, &mut resumed);
    assert_eq!(replayed.len(), 1);
    let acknowledged = disk.poll(&mut ids, &mut resumed);
    assert!(acknowledged.is_empty());
    drop(resumed);

    let final_restart = disk.serve(ROOT, &mut ids, "infra", "two");
    assert!(final_restart.inbox.is_empty());
}

#[test]
fn direct_message_is_routed_only_to_participants() {
    let mut disk = Disk::with_board(ROOT);
    let value = direct_message(unordered_id());
    let paths = disk.store_message(ROOT, &value).unwrap();
    assert_eq!(paths.len(), 2);
    assert!(paths.iter().any(|path| path.contains("infra-two")));
    assert!(!paths.iter().any(|path| path.contains("other-three")));
}

#[test]
fn history_can_select_one_joined_group() {
    let mut disk = Disk::with_board(ROOT);
    let mut selected = direct_message(unordered_id());
    selected.to.clear();
    selected.group = Some("job-selected".to_owned());
    selected.message = "selected".to_owned();
    disk.store_message(ROOT, &selected).unwrap();
    let mut unrelated = direct_message(unordered_id());
    unrelated.to.clear();
    unrelated.group = Some("job-unrelated".to_owned());
    unrelated.message = "unrelated".to_owned();
    disk.store_message(ROOT, &unrelated).unwrap();

    let found = disk.history(
        ROOT,
        &second_agent(),
        &vec!["job-selected".to_owned(), "job-unrelated".to_owned()],
        &None,
        &Some("job-selected".to_owned()),
        50,
    );
    assert!(found.warnings.is_empty());
    assert_eq!(found.messages, vec![selected]);
}

#[test]
fn checkpoint_resumes_and_overlap_delivers_late_message() {
    let mut disk = Disk::with_board(ROOT);
    let late = direct_message(unordered_id());
    let newer = direct_message(unordered_id());
    disk.store_message(ROOT, &newer).unwrap();

    let mut first = RoutedState::new();
    assert!(!disk.initialize(ROOT, &mut first, &second_agent()));
    let received = disk.scan_routes(ROOT, &mut first, &Vec::new());
    assert!(received.warnings.is_empty());
    assert_eq!(received.messages, vec![newer]);
    disk.acknowledge(ROOT, &mut first, &received.messages);

    let mut resumed = RoutedState::new();
    assert!(disk.initialize(ROOT, &mut resumed, &second_agent()));
    assert!(disk.scan_routes(ROOT, &mut resumed, &Vec::new()).messages.is_empty());

    disk.store_message(ROOT, &late).unwrap();
    assert_eq!(disk.scan_routes(ROOT, &mut resumed, &Vec::new()).messages, vec![late]);
}

#[test]
fn expired_message_and_index_are_collected() {
    let mut disk = Disk::with_board(ROOT);
    let mut value = direct_message(unordered_id());
    value.expires_at = Some(stamp_after(-1));
    let paths = disk.store_message(ROOT, &value).unwrap();
    assert!(paths.iter().all(|path| disk.holds(path)));

    disk.collect(ROOT).unwrap();
    assert!(paths.iter().all(|path| !disk.holds(path)));
    assert!(disk.tree("/board/v2/expiry").is_empty());
}

#[test]
fn expiry_collection_does_not_visit_future_partitions() {
    let mut disk = Disk::with_board(ROOT);
    let mut value = direct_message(unordered_id());
    value.expires_at = Some(stamp_after(24 * 60 * 60));
    let paths = disk.store_message(ROOT, &value).unwrap();

    disk.collect(ROOT).unwrap();

    assert!(paths.iter().all(|path| disk.holds(path)));
    assert_eq!(disk.tree("/board/v2/expiry").len(), 1);
}

#[test]
fn expiry_paths_survive_board_root_relocation() {
    let first_root = "/shared/debian-board";
    let mut disk = Disk::with_board(first_root);
    let mut value = direct_message(unordered_id());
    value.expires_at = Some(stamp_after(-1));
    disk.store_message(first_root, &value).unwrap();
    let expiry_path = disk.tree("/shared/debian-board/v2/expiry").pop().unwrap();
    match disk.documents.get(&expiry_path) {
        Some(Document::Expiry(expiry)) => assert!(expiry
            .paths
            .iter()
            .all(|path| path.starts_with("v2/messages/") && !path.contains('\\'))),
        _ => panic!("the index has an entry"),
    }
    let relocated = "/shared/macos-board";
    let mut moved = Disk::new();
    for directory in &disk.directories {
        moved.create(&directory.replace("debian-board", "macos-board"));
    }
    for (path, document) in disk.documents {
        moved.write(&path.replace("debian-board", "macos-board"), document);
    }

    moved.collect(relocated).unwrap();

    assert!(moved.tree("/shared/macos-board/v2/messages").is_empty());
    assert!(moved.tree("/shared/macos-board/v2/expiry").is_empty());
}

#[test]
fn expiry_index_cannot_delete_outside_message_storage() {
    let root = "/shared/board";
    let mut disk = Disk::with_board(root);
    let secret = "/shared/keep-me";
    disk.write(secret, Document::Corrupt);
    let id = unordered_id();
    let mut expired = direct_message(id.clone());
    expired.expires_at = Some(stamp_after(-1));
    let expires_at = expired.expires_at.clone().unwrap();
    let filed =
        zboard::routed::write_expiry(root, &expired, &expires_at, &vec![secret.to_owned()]).unwrap();
    assert_eq!(filed.document.schema, EXPIRY_SCHEMA);
    let index = Expiry { paths: vec![secret.to_owned()], ..filed.document };
    disk.write(&filed.path, Document::Expiry(index));

    assert_eq!(disk.collect(root).unwrap_err(), "expiry target is outside the board root");
    assert!(disk.holds(secret));
}

#[test]
fn migration_is_idempotent_and_retains_legacy_messages() {
    let mut disk = Disk::with_board(ROOT);
    let value = direct_message(unordered_id());
    let legacy = format!("/board/v1/messages/2026-09-06/{}.json.zst", value.id);
    disk.write(&legacy, Document::Message(value.clone()));

    let first = migrate(&mut disk, ROOT);
    assert_eq!(first.migrated, 1);
    assert_eq!(first.already_present, 0);
    assert!(first.retained_legacy);
    assert!(disk.holds(&legacy));
    for route in message_routes(&value) {
        let destination = message_path(ROOT, &route, &value).unwrap();
        assert_eq!(disk.message(&destination).unwrap(), value);
    }

    let second = migrate(&mut disk, ROOT);
    assert_eq!(second.migrated, 0);
    assert_eq!(second.already_present, 1);
    assert!(disk.holds(&legacy));
}

fn migrate(disk: &mut Disk, root: &str) -> MigrationReport {
    let mut report = migration_report();
    for path in disk.tree(&format!("{root}/v1/messages")) {
        let message = disk.message(&path).unwrap();
        let paths = publication_paths(root, &message).unwrap();
        let stored = disk.stored(&paths);
        let publication = migrate_v1(&mut report, root, &message, &stored);
        for path in &publication.writes {
            disk.write(path, Document::Message(message.clone()));
        }
        publication.outcome.unwrap();
    }
    report
}

#[test]
fn compressed_document_round_trip() {
    let value = vec!["hello", "shared", "board"];
    let json = serde_json::to_vec(&value).unwrap();
    let document = zboard::storage::write_document("/somewhere/message.json.zst", &json).unwrap();
    assert_ne!(document.bytes, json);
    let read = zboard::storage::read_document("/somewhere/message.json.zst", &document.bytes).unwrap();
    assert_eq!(serde_json::from_slice::<Vec<String>>(&read).unwrap(), value);
    assert!(document.temporary_path.starts_with("/somewhere/.message.json.zst."));
    assert!(document.temporary_path.ends_with(".part"));
    assert_eq!(decode_document(&encode_document(&json).unwrap()).unwrap(), json);
}

#[test]
fn registration_is_idempotent() {
    let mut disk = Disk::with_board(ROOT);
    let version_root = ensure_layout(ROOT).version_root;
    let first = disk.register(&version_root, "infra", "session-123", "/one");
    let second = disk.register(&version_root, "infra", "session-123", "/two");
    assert_eq!(first, second);
    assert_eq!(first.id, "infra-session123");
    assert!(validate_agent(&first, "infra", "session123").is_ok());
}

#[test]
fn presence_expires_after_one_minute() {
    let mut disk = Disk::with_board(ROOT);
    let mut ids = IdSource::new();
    let version_root = ensure_layout(ROOT).version_root;
    let agent = disk.register(&version_root, "infra", "session", "/infra");
    let current = disk.touch(&mut ids, &version_root, &agent.id);
    let mut state = BoardState::new();
    disk.scan(ROOT, &mut state);
    let status = agent_statuses(&state).pop().unwrap();
    assert!(status.online);
    assert_eq!(status.last_seen.as_deref(), Some(current.last_seen.as_str()));

    state.presence.insert(
        agent.id.clone(),
        Presence {
            schema: PRESENCE_SCHEMA.to_owned(),
            id: unordered_id(),
            agent: agent.id,
            last_seen: stamp_after(-61),
        },
    );
    assert!(!agent_statuses(&state).pop().unwrap().online);
}

#[test]
fn corrupt_document_is_retried_after_replacement() {
    let mut disk = Disk::with_board(ROOT);
    let id = unordered_id();
    let path = format!("/board/v1/messages/2026-09-06/{id}{DOCUMENT_SUFFIX}");
    disk.write(&path, Document::Corrupt);

    let mut state = BoardState::new();
    assert_eq!(disk.scan(ROOT, &mut state).warnings.len(), 1);
    assert_eq!(disk.scan(ROOT, &mut state).warnings.len(), 0);

    let message = Message {
        schema: MESSAGE_SCHEMA.to_owned(),
        id: id.clone(),
        timestamp: stamp_after(0),
        from: "worka-a".to_owned(),
        to: vec!["infra-b".to_owned()],
        group: None,
        thread: id.clone(),
        reply_to: None,
        message: "fixed".to_owned(),
        meta: None,
        expires_at: None,
    };
    disk.write(&path, Document::Message(message));
    assert_eq!(disk.scan(ROOT, &mut state).new_messages, vec![id]);
    assert!(disk.scan(ROOT, &mut state).new_messages.is_empty());
}

#[test]
fn relevance_covers_direct_virtual_and_custom_groups() {
    let agent = Agent {
        schema: AGENT_SCHEMA.to_owned(),
        id: "infra-a".to_owned(),
        project: "infra".to_owned(),
        session_id: "a".to_owned(),
        platform: "linux".to_owned(),
        path: "/infra".to_owned(),
        registered_at: stamp_after(0),
    };
    let mut state = BoardState::new();
    state.memberships.insert("storage".to_owned(), agent.id.clone());
    let make = |to: Vec<&str>, group: Option<&str>| Message {
        schema: MESSAGE_SCHEMA.to_owned(),
        id: unordered_id(),
        timestamp: stamp_after(0),
        from: "worka-b".to_owned(),
        to: to.into_iter().map(str::to_owned).collect(),
        group: group.map(str::to_owned),
        thread: unordered_id(),
        reply_to: None,
        message: "hello".to_owned(),
        meta: None,
        expires_at: None,
    };
    assert!(message_is_relevant(&state, &agent, &make(vec!["infra-a"], None)));
    assert!(message_is_relevant(&state, &agent, &make(vec![], Some("global"))));
    assert!(message_is_relevant(&state, &agent, &make(vec![], Some("project:infra"))));
    assert!(message_is_relevant(&state, &agent, &make(vec![], Some("storage"))));
    assert!(!message_is_relevant(&state, &agent, &make(vec![], Some("other"))));
}

#[test]
fn jsonl_restart_emits_message_received_while_offline() {
    let mut disk = Disk::with_board(ROOT);
    let mut ids = IdSource::new();
    let (recipient, ready) = start(&mut disk, &mut ids, "infra", "two");
    assert!(matches!(&ready[0], Output::Ready { agent, .. } if *agent == recipient.0.id));
    assert_eq!(ready.len(), 1);
    let recipient_id = recipient.0.id.clone();
    drop(recipient);

    let (mut sender, ready) = start(&mut disk, &mut ids, "worka", "one");
    assert!(matches!(&ready[0], Output::Ready { .. }));
    let send = Command::Send {
        to: vec![recipient_id],
        group: None,
        message: "while offline".to_owned(),
        meta: None,
        ttl_seconds: None,
    };
    let sent = disk.command(ROOT, &mut ids, &sender.0, &mut sender.1, send);
    assert!(matches!(&sent[0], Output::Sent { .. }));

    let (_resumed, events) = start(&mut disk, &mut ids, "infra", "two");
    assert!(matches!(&events[0], Output::Ready { .. }));
    assert!(matches!(&events[1], Output::Incoming { message } if message.message == "while offline"));

    let (_again, events) = start(&mut disk, &mut ids, "infra", "two");
    assert_eq!(events.len(), 1);
}

fn start(
    disk: &mut Disk,
    ids: &mut IdSource,
    project: &str,
    session: &str,
) -> ((Agent, BoardState), Vec<Output>) {
    let version_root = ensure_layout(ROOT).version_root;
    let agent = disk.register(&version_root, project, session, "/somewhere");
    disk.touch(ids, &version_root, &agent.id);
    let mut state = BoardState::new();
    let resumed = disk.initialize(ROOT, &mut state.routed, &agent);
    let initial = disk.scan(ROOT, &mut state);
    let startup = run(&state, &agent, resumed, &initial);
    disk.acknowledge(ROOT, &mut state.routed, &startup.acknowledge_first);
    disk.acknowledge(ROOT, &mut state.routed, &startup.acknowledge_after);
    ((agent, state), startup.outputs)
}

#[test]
fn session_is_told_of_new_messages_once() {
    let mut disk = Disk::with_board(ROOT);
    let mut ids = IdSource::new();
    let (mut sender, _) = start(&mut disk, &mut ids, "worka", "one");
    let (mut reader, _) = start(&mut disk, &mut ids, "infra", "two");
    disk.scan(ROOT, &mut sender.1);
    let create = Command::GroupCreate { name: "release".to_owned() };
    disk.command(ROOT, &mut ids, &sender.0, &mut sender.1, create);
    let join = Command::GroupJoin { name: "release".to_owned() };
    disk.command(ROOT, &mut ids, &sender.0, &mut sender.1, join);
    let join = Command::GroupJoin { name: "release".to_owned() };
    let joined = disk.command(ROOT, &mut ids, &reader.0, &mut reader.1, join);
    assert!(matches!(&joined[0], Output::GroupJoined { name } if name == "release"));
    let send = Command::Send {
        to: Vec::new(),
        group: Some("release".to_owned()),
        message: "ready".to_owned(),
        meta: None,
        ttl_seconds: Some(86_400),
    };
    let sent = disk.command(ROOT, &mut ids, &sender.0, &mut sender.1, send);
    assert!(matches!(&sent[0], Output::Sent { .. }));

    let result = disk.scan(ROOT, &mut reader.1);
    let told = reconcile(&reader.1, &reader.0, &result);
    assert_eq!(told.outputs.len(), 1);
    assert!(matches!(&told.outputs[0], Output::Incoming { message } if message.message == "ready"));
    disk.acknowledge(ROOT, &mut reader.1.routed, &told.acknowledged);
    let result = disk.scan(ROOT, &mut reader.1);
    assert!(reconcile(&reader.1, &reader.0, &result).outputs.is_empty());

    // The sender is not told of its own message.
    let result = disk.scan(ROOT, &mut sender.1);
    assert!(reconcile(&sender.1, &sender.0, &result).outputs.is_empty());

    let groups = disk.command(ROOT, &mut ids, &reader.0, &mut reader.1, Command::Groups);
    match &groups[0] {
        Output::Groups { groups } => {
            assert_eq!(groups.len(), 1);
            assert_eq!(groups[0].name, "release");
            assert_eq!(groups[0].created_by, "worka-one");
            assert_eq!(groups[0].members, vec!["infra-two".to_owned(), "worka-one".to_owned()]);
        }
        _ => panic!("the groups are told"),
    }
    let agents = disk.command(ROOT, &mut ids, &reader.0, &mut reader.1, Command::Agents);
    match &agents[0] {
        Output::Agents { agents } => {
            assert_eq!(agents.len(), 2);
            assert_eq!(agents[0].agent.id, "infra-two");
            assert!(agents[0].online);
        }
        _ => panic!("the agents are told"),
    }
}

#[test]
fn old_signs_of_life_are_pruned() {
    let mut disk = Disk::with_board(ROOT);
    let mut ids = IdSource::new();
    let version_root = ensure_layout(ROOT).version_root;
    let mut last = String::new();
    for _ in 0..7 {
        last = disk.touch(&mut ids, &version_root, "infra-two").id;
    }
    let kept = disk.tree("/board/v1/presence/infra-two");
    assert_eq!(kept.len(), 4);
    assert!(kept.iter().any(|path| path.contains(&last)));
}

#[test]
fn conflicting_message_is_refused() {
    let mut disk = Disk::with_board(ROOT);
    let value = direct_message(unordered_id());
    disk.store_message(ROOT, &value).unwrap();
    disk.store_message(ROOT, &value).unwrap();
    let mut other = value.clone();
    other.message = "changed".to_owned();
    assert_eq!(
        disk.store_message(ROOT, &other).unwrap_err(),
        format!("conflicting routed message {}", value.id)
    );
}
