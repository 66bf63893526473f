//! What holds of scans of the board.
use crate::clock::rfc3339_reading;
use crate::collections::{ascending, lemma_sorted_list, sorted, sorted_list};
use crate::model::{Agent, AgentView, GroupView, MembershipView, Message, MessageView, PresenceView};
use crate::path::{child, last_name};
use crate::record_laws::is_registered_as;
use crate::routed::Findings;
use crate::storage::{
    agent_fault, agent_step, agents_scanned, announced, document_title, group_fault, group_step,
    groups_scanned, membership_fault, message_fault, message_step, messages_scanned, presence_fault,
    presence_scanned, presence_step, routed_merged, scan, scan_agents, scan_groups, scan_messages,
    scan_routed, scan_view, scanned, warned, with_routed, without_gone, BoardState, BoardView,
    ScanResult, ScanView, Seen, SeenGroup, SeenGroupView, SeenView, Snapshot, DOCUMENT_SUFFIX,
};
use crate::text::{
    begins_with, lemma_precedes_irreflexive, lemma_precedes_total, lemma_precedes_transitive,
    precedes, texts, views,
};
use crate::ulids::is_ulid;
use vstd::prelude::*;

verus! {

/// A scan that has found nothing yet.
pub open spec fn fresh(board: BoardView) -> ScanView {
    ScanView { board, new_messages: seq![], warnings: seq![] }
}

/// The path of a group's document that was met.
pub open spec fn path_of_group(seen: SeenGroupView) -> Seq<char> {
    match seen {
        SeenGroupView::Group { folder, content } => child(folder, "group"@ + DOCUMENT_SUFFIX@),
        SeenGroupView::Member { folder, path, content } => path,
        SeenGroupView::Unlisted { warning } => warning,
    }
}

/// What a scan never undoes of a document: that it was taken in, and that it was
/// warned of, unless it is taken in.
spec fn settled_still(before: BoardView, after: BoardView, path: Seq<char>) -> bool {
    &&& before.loaded_paths.contains(path) ==> after.loaded_paths.contains(path)
    &&& before.warned_paths.contains(path) ==> after.warned_paths.contains(path)
        || after.loaded_paths.contains(path)
}

/// What a scan never undoes of a sign of life.
spec fn sign_settled_still(before: BoardView, after: BoardView, path: Seq<char>) -> bool {
    &&& before.loaded_presence_paths.contains(path) ==> after.loaded_presence_paths.contains(path)
    &&& before.warned_paths.contains(path) ==> after.warned_paths.contains(path)
        || after.loaded_presence_paths.contains(path)
}

/// Whether a scan of one registration changes nothing.
spec fn agent_quiet(board: BoardView, seen: SeenView<AgentView>) -> bool {
    agent_step(fresh(board), seen) == fresh(board)
}

/// Whether a scan of one document of a group changes nothing.
spec fn group_quiet(board: BoardView, seen: SeenGroupView) -> bool {
    group_step(fresh(board), seen) == fresh(board)
}

/// Whether a scan of one sign of life changes nothing.
spec fn presence_quiet(board: BoardView, seen: SeenView<PresenceView>) -> bool {
    presence_step(fresh(board), seen) == fresh(board)
}

/// Whether a scan of one message changes nothing.
spec fn message_quiet(board: BoardView, seen: SeenView<MessageView>) -> bool {
    message_step(fresh(board), seen) == fresh(board)
}

proof fn lemma_push_is_new<A>(list: Seq<A>, x: A)
    ensures
        list.push(x) != list,
{
    assert(list.push(x).len() != list.len());
}

/// When a registration is quiet.
proof fn lemma_agent_quiet(board: BoardView, seen: SeenView<AgentView>)
    requires
        seen is Document,
    ensures
        agent_quiet(board, seen) <==> {
            ||| last_name(seen->Document_folder) is None
            ||| document_title(seen->Document_path) is None
            ||| board.loaded_paths.contains(seen->Document_path)
            ||| board.warned_paths.contains(seen->Document_path) && (seen->Document_content is Err
                || agent_fault(
                seen->Document_content->Ok_0,
                last_name(seen->Document_folder)->Some_0,
                document_title(seen->Document_path)->Some_0,
            ) is Some)
        },
{
    let none = Seq::<Seq<char>>::empty();
    assert forall|words: Seq<char>| #[trigger] none.push(words) != none by {
        lemma_push_is_new(none, words);
    }
    let after = agent_step(fresh(board), seen);
    if after == fresh(board) {
        assert(after.board.loaded_paths == board.loaded_paths);
    }
}

proof fn lemma_agent_step(scan: ScanView, seen: SeenView<AgentView>, path: Seq<char>)
    ensures
        settled_still(scan.board, agent_step(scan, seen).board, path),
        seen is Document && path != seen->Document_path ==> sign_settled_still(
            scan.board,
            agent_step(scan, seen).board,
            path,
        ),
        seen is Unlisted ==> agent_step(scan, seen).board == scan.board,
        seen is Document ==> agent_quiet(agent_step(scan, seen).board, seen),
{
    if seen is Document {
        lemma_agent_quiet(agent_step(scan, seen).board, seen);
    }
}

proof fn lemma_agents_scanned(scan: ScanView, seen: Seq<SeenView<AgentView>>, path: Seq<char>)
    requires
        forall|i: int| 0 <= i < seen.len() ==> #[trigger] seen[i] is Document,
    ensures
        settled_still(scan.board, agents_scanned(scan, seen).board, path),
        (forall|i: int| 0 <= i < seen.len() ==> path != (#[trigger] seen[i])->Document_path)
            ==> sign_settled_still(scan.board, agents_scanned(scan, seen).board, path),
    decreases seen.len(),
{
    if seen.len() > 0 {
        let init = seen.drop_last();
        assert(forall|i: int| 0 <= i < init.len() ==> init[i] == seen[i]);
        lemma_agents_scanned(scan, init, path);
        lemma_agent_step(agents_scanned(scan, init), seen.last(), path);
        assert(seen.last() == seen[seen.len() - 1]);
    }
}

proof fn lemma_agents_settle(scan: ScanView, seen: Seq<SeenView<AgentView>>, i: int)
    requires
        forall|j: int| 0 <= j < seen.len() ==> #[trigger] seen[j] is Document,
        0 <= i < seen.len(),
    ensures
        agent_quiet(agents_scanned(scan, seen).board, seen[i]),
    decreases seen.len(),
{
    let init = seen.drop_last();
    assert(forall|j: int| 0 <= j < init.len() ==> init[j] == seen[j]);
    let before = agents_scanned(scan, init);
    lemma_agent_step(before, seen.last(), seen[i]->Document_path);
    if i < init.len() {
        lemma_agents_settle(scan, init, i);
        lemma_agent_quiet(before.board, seen[i]);
        lemma_agent_quiet(agents_scanned(scan, seen).board, seen[i]);
    }
}

proof fn lemma_agents_quiet(board: BoardView, seen: Seq<SeenView<AgentView>>)
    requires
        forall|j: int| 0 <= j < seen.len() ==> agent_quiet(board, #[trigger] seen[j]),
    ensures
        agents_scanned(fresh(board), seen) == fresh(board),
    decreases seen.len(),
{
    if seen.len() > 0 {
        let init = seen.drop_last();
        assert forall|j: int| 0 <= j < init.len() implies agent_quiet(board, #[trigger] init[j]) by {
            assert(init[j] == seen[j]);
        }
        lemma_agents_quiet(board, init);
        assert(seen.last() == seen[seen.len() - 1]);
    }
}

/// When a document of a group is quiet.
proof fn lemma_group_quiet(board: BoardView, seen: SeenGroupView)
    requires
        !(seen is Unlisted),
    ensures
        group_quiet(board, seen) <==> {
            ||| group_nameless(seen)
            ||| board.loaded_paths.contains(path_of_group(seen))
            ||| board.warned_paths.contains(path_of_group(seen)) && group_unfit(seen)
        },
{
    let none = Seq::<Seq<char>>::empty();
    assert forall|words: Seq<char>| #[trigger] none.push(words) != none by {
        lemma_push_is_new(none, words);
    }
    let after = group_step(fresh(board), seen);
    if after == fresh(board) {
        assert(after.board.loaded_paths == board.loaded_paths);
    }
}

spec fn group_nameless(seen: SeenGroupView) -> bool {
    match seen {
        SeenGroupView::Group { folder, content } => last_name(folder) is None,
        SeenGroupView::Member { folder, path, content } => last_name(folder) is None
            || document_title(path) is None,
        SeenGroupView::Unlisted { warning } => false,
    }
}

spec fn group_unfit(seen: SeenGroupView) -> bool {
    match seen {
        SeenGroupView::Group { folder, content } => match content {
            Ok(group) => group_fault(group, last_name(folder)->Some_0) is Some,
            Err(_) => true,
        },
        SeenGroupView::Member { folder, path, content } => match content {
            Ok(membership) => membership_fault(
                membership,
                last_name(folder)->Some_0,
                document_title(path)->Some_0,
            ) is Some,
            Err(_) => true,
        },
        SeenGroupView::Unlisted { warning } => false,
    }
}

proof fn lemma_group_step(scan: ScanView, seen: SeenGroupView, path: Seq<char>)
    ensures
        settled_still(scan.board, group_step(scan, seen).board, path),
        !(seen is Unlisted) && path != path_of_group(seen) ==> sign_settled_still(
            scan.board,
            group_step(scan, seen).board,
            path,
        ),
        !(seen is Unlisted) ==> group_quiet(group_step(scan, seen).board, seen),
{
    if !(seen is Unlisted) {
        lemma_group_quiet(group_step(scan, seen).board, seen);
    }
}

proof fn lemma_groups_scanned(scan: ScanView, seen: Seq<SeenGroupView>, path: Seq<char>)
    requires
        forall|i: int| 0 <= i < seen.len() ==> !(#[trigger] seen[i] is Unlisted),
    ensures
        settled_still(scan.board, groups_scanned(scan, seen).board, path),
        (forall|i: int| 0 <= i < seen.len() ==> path != path_of_group(#[trigger] seen[i]))
            ==> sign_settled_still(scan.board, groups_scanned(scan, seen).board, path),
    decreases seen.len(),
{
    if seen.len() > 0 {
        let init = seen.drop_last();
        assert(forall|i: int| 0 <= i < init.len() ==> init[i] == seen[i]);
        lemma_groups_scanned(scan, init, path);
        lemma_group_step(groups_scanned(scan, init), seen.last(), path);
        assert(seen.last() == seen[seen.len() - 1]);
    }
}

proof fn lemma_groups_settle(scan: ScanView, seen: Seq<SeenGroupView>, i: int)
    requires
        forall|j: int| 0 <= j < seen.len() ==> !(#[trigger] seen[j] is Unlisted),
        0 <= i < seen.len(),
    ensures
        group_quiet(groups_scanned(scan, seen).board, seen[i]),
    decreases seen.len(),
{
    let init = seen.drop_last();
    assert(forall|j: int| 0 <= j < init.len() ==> init[j] == seen[j]);
    let before = groups_scanned(scan, init);
    lemma_group_step(before, seen.last(), path_of_group(seen[i]));
    if i < init.len() {
        lemma_groups_settle(scan, init, i);
        lemma_group_quiet(before.board, seen[i]);
        lemma_group_quiet(groups_scanned(scan, seen).board, seen[i]);
    }
}

proof fn lemma_groups_quiet(board: BoardView, seen: Seq<SeenGroupView>)
    requires
        forall|j: int| 0 <= j < seen.len() ==> group_quiet(board, #[trigger] seen[j]),
    ensures
        groups_scanned(fresh(board), seen) == fresh(board),
    decreases seen.len(),
{
    if seen.len() > 0 {
        let init = seen.drop_last();
        assert forall|j: int| 0 <= j < init.len() implies group_quiet(board, #[trigger] init[j]) by {
            assert(init[j] == seen[j]);
        }
        lemma_groups_quiet(board, init);
        assert(seen.last() == seen[seen.len() - 1]);
    }
}

/// When a sign of life is quiet.
proof fn lemma_presence_quiet(board: BoardView, seen: SeenView<PresenceView>)
    requires
        seen is Document,
    ensures
        presence_quiet(board, seen) <==> {
            ||| last_name(seen->Document_folder) is None
            ||| document_title(seen->Document_path) is None
            ||| board.loaded_presence_paths.contains(seen->Document_path)
            ||| board.warned_paths.contains(seen->Document_path) && (seen->Document_content is Err
                || presence_fault(
                seen->Document_content->Ok_0,
                document_title(seen->Document_path)->Some_0,
                last_name(seen->Document_folder)->Some_0,
            ) is Some)
        },
{
    let none = Seq::<Seq<char>>::empty();
    assert forall|words: Seq<char>| #[trigger] none.push(words) != none by {
        lemma_push_is_new(none, words);
    }
    let after = presence_step(fresh(board), seen);
    if after == fresh(board) {
        assert(after.board.loaded_presence_paths == board.loaded_presence_paths);
    }
}

proof fn lemma_presence_step(scan: ScanView, seen: SeenView<PresenceView>, path: Seq<char>)
    ensures
        sign_settled_still(scan.board, presence_step(scan, seen).board, path),
        seen is Document && path != seen->Document_path ==> settled_still(
            scan.board,
            presence_step(scan, seen).board,
            path,
        ),
        seen is Document ==> presence_quiet(presence_step(scan, seen).board, seen),
{
    if seen is Document {
        lemma_presence_quiet(presence_step(scan, seen).board, seen);
    }
}

proof fn lemma_presence_scanned(scan: ScanView, seen: Seq<SeenView<PresenceView>>, path: Seq<char>)
    requires
        forall|i: int| 0 <= i < seen.len() ==> #[trigger] seen[i] is Document,
    ensures
        sign_settled_still(scan.board, presence_scanned(scan, seen).board, path),
        (forall|i: int| 0 <= i < seen.len() ==> path != (#[trigger] seen[i])->Document_path)
            ==> settled_still(scan.board, presence_scanned(scan, seen).board, path),
    decreases seen.len(),
{
    if seen.len() > 0 {
        let init = seen.drop_last();
        assert(forall|i: int| 0 <= i < init.len() ==> init[i] == seen[i]);
        lemma_presence_scanned(scan, init, path);
        lemma_presence_step(presence_scanned(scan, init), seen.last(), path);
        assert(seen.last() == seen[seen.len() - 1]);
    }
}

proof fn lemma_presence_settle(scan: ScanView, seen: Seq<SeenView<PresenceView>>, i: int)
    requires
        forall|j: int| 0 <= j < seen.len() ==> #[trigger] seen[j] is Document,
        0 <= i < seen.len(),
    ensures
        presence_quiet(presence_scanned(scan, seen).board, seen[i]),
    decreases seen.len(),
{
    let init = seen.drop_last();
    assert(forall|j: int| 0 <= j < init.len() ==> init[j] == seen[j]);
    let before = presence_scanned(scan, init);
    lemma_presence_step(before, seen.last(), seen[i]->Document_path);
    if i < init.len() {
        lemma_presence_settle(scan, init, i);
        lemma_presence_quiet(before.board, seen[i]);
        lemma_presence_quiet(presence_scanned(scan, seen).board, seen[i]);
    }
}

proof fn lemma_presences_quiet(board: BoardView, seen: Seq<SeenView<PresenceView>>)
    requires
        forall|j: int| 0 <= j < seen.len() ==> presence_quiet(board, #[trigger] seen[j]),
    ensures
        presence_scanned(fresh(board), seen) == fresh(board),
    decreases seen.len(),
{
    if seen.len() > 0 {
        let init = seen.drop_last();
        assert forall|j: int| 0 <= j < init.len() implies presence_quiet(board, #[trigger] init[j]) by {
            assert(init[j] == seen[j]);
        }
        lemma_presences_quiet(board, init);
        assert(seen.last() == seen[seen.len() - 1]);
    }
}

/// When a message is quiet.
proof fn lemma_message_quiet(board: BoardView, seen: SeenView<MessageView>)
    requires
        seen is Document,
    ensures
        message_quiet(board, seen) <==> {
            ||| document_title(seen->Document_path) is None
            ||| board.loaded_paths.contains(seen->Document_path)
            ||| board.warned_paths.contains(seen->Document_path) && (seen->Document_content is Err
                || message_fault(
                seen->Document_content->Ok_0,
                document_title(seen->Document_path)->Some_0,
            ) is Some)
        },
{
    let none = Seq::<Seq<char>>::empty();
    assert forall|words: Seq<char>| #[trigger] none.push(words) != none by {
        lemma_push_is_new(none, words);
    }
    let after = message_step(fresh(board), seen);
    if after == fresh(board) {
        assert(after.board.loaded_paths == board.loaded_paths);
    }
}

proof fn lemma_message_step(scan: ScanView, seen: SeenView<MessageView>, path: Seq<char>)
    ensures
        settled_still(scan.board, message_step(scan, seen).board, path),
        seen is Document && path != seen->Document_path ==> sign_settled_still(
            scan.board,
            message_step(scan, seen).board,
            path,
        ),
        seen is Document ==> message_quiet(message_step(scan, seen).board, seen),
{
    if seen is Document {
        lemma_message_quiet(message_step(scan, seen).board, seen);
    }
}

proof fn lemma_messages_scanned(scan: ScanView, seen: Seq<SeenView<MessageView>>, path: Seq<char>)
    requires
        forall|i: int| 0 <= i < seen.len() ==> #[trigger] seen[i] is Document,
    ensures
        settled_still(scan.board, messages_scanned(scan, seen).board, path),
        (forall|i: int| 0 <= i < seen.len() ==> path != (#[trigger] seen[i])->Document_path)
            ==> sign_settled_still(scan.board, messages_scanned(scan, seen).board, path),
    decreases seen.len(),
{
    if seen.len() > 0 {
        let init = seen.drop_last();
        assert(forall|i: int| 0 <= i < init.len() ==> init[i] == seen[i]);
        lemma_messages_scanned(scan, init, path);
        lemma_message_step(messages_scanned(scan, init), seen.last(), path);
        assert(seen.last() == seen[seen.len() - 1]);
    }
}

proof fn lemma_messages_settle(scan: ScanView, seen: Seq<SeenView<MessageView>>, i: int)
    requires
        forall|j: int| 0 <= j < seen.len() ==> #[trigger] seen[j] is Document,
        0 <= i < seen.len(),
    ensures
        message_quiet(messages_scanned(scan, seen).board, seen[i]),
    decreases seen.len(),
{
    let init = seen.drop_last();
    assert(forall|j: int| 0 <= j < init.len() ==> init[j] == seen[j]);
    let before = messages_scanned(scan, init);
    lemma_message_step(before, seen.last(), seen[i]->Document_path);
    if i < init.len() {
        lemma_messages_settle(scan, init, i);
        lemma_message_quiet(before.board, seen[i]);
        lemma_message_quiet(messages_scanned(scan, seen).board, seen[i]);
    }
}

proof fn lemma_messages_quiet(board: BoardView, seen: Seq<SeenView<MessageView>>)
    requires
        forall|j: int| 0 <= j < seen.len() ==> message_quiet(board, #[trigger] seen[j]),
    ensures
        messages_scanned(fresh(board), seen) == fresh(board),
    decreases seen.len(),
{
    if seen.len() > 0 {
        let init = seen.drop_last();
        assert forall|j: int| 0 <= j < init.len() implies message_quiet(board, #[trigger] init[j]) by {
            assert(init[j] == seen[j]);
        }
        lemma_messages_quiet(board, init);
        assert(seen.last() == seen[seen.len() - 1]);
    }
}

/// Scanning the same documents again finds nothing new, warns of nothing and
/// changes nothing. Signs of life stand apart from the other documents.
pub proof fn law_rescan_is_quiet(
    board: BoardView,
    agents: Seq<SeenView<AgentView>>,
    groups: Seq<SeenGroupView>,
    gone: Seq<Seq<char>>,
    presence: Seq<SeenView<PresenceView>>,
    messages: Seq<SeenView<MessageView>>,
)
    requires
        forall|i: int| 0 <= i < agents.len() ==> #[trigger] agents[i] is Document,
        forall|i: int| 0 <= i < groups.len() ==> !(#[trigger] groups[i] is Unlisted),
        forall|i: int| 0 <= i < presence.len() ==> #[trigger] presence[i] is Document,
        forall|i: int| 0 <= i < messages.len() ==> #[trigger] messages[i] is Document,
        forall|i: int, j: int|
            0 <= i < presence.len() && 0 <= j < agents.len() ==> (
            #[trigger] presence[i])->Document_path != (#[trigger] agents[j])->Document_path,
        forall|i: int, j: int|
            0 <= i < presence.len() && 0 <= j < groups.len() ==> (
            #[trigger] presence[i])->Document_path != path_of_group(#[trigger] groups[j]),
        forall|i: int, j: int|
            0 <= i < presence.len() && 0 <= j < messages.len() ==> (
            #[trigger] presence[i])->Document_path != (#[trigger] messages[j])->Document_path,
    ensures
        ({
            let after = scanned(board, agents, groups, gone, presence, messages).board;
            scanned(after, agents, groups, seq![], presence, messages) == fresh(after)
        }),
{
    let start = fresh(board);
    let one = agents_scanned(start, agents);
    let two = groups_scanned(one, groups);
    let three = without_gone(two, gone);
    let four = presence_scanned(three, presence);
    let five = messages_scanned(four, messages);
    let after = five.board;
    assert(scanned(board, agents, groups, gone, presence, messages).board == after);
    assert forall|i: int| 0 <= i < agents.len() implies agent_quiet(after, #[trigger] agents[i]) by {
        let path = agents[i]->Document_path;
        lemma_agents_settle(start, agents, i);
        lemma_groups_scanned(one, groups, path);
        lemma_presence_scanned(three, presence, path);
        lemma_messages_scanned(four, messages, path);
        lemma_agent_quiet(one.board, agents[i]);
        lemma_agent_quiet(after, agents[i]);
    }
    assert forall|i: int| 0 <= i < groups.len() implies group_quiet(after, #[trigger] groups[i]) by {
        let path = path_of_group(groups[i]);
        lemma_groups_settle(one, groups, i);
        lemma_presence_scanned(three, presence, path);
        lemma_messages_scanned(four, messages, path);
        lemma_group_quiet(two.board, groups[i]);
        lemma_group_quiet(after, groups[i]);
    }
    assert forall|i: int| 0 <= i < presence.len() implies presence_quiet(
        after,
        #[trigger] presence[i],
    ) by {
        let path = presence[i]->Document_path;
        lemma_presence_settle(three, presence, i);
        lemma_messages_scanned(four, messages, path);
        lemma_presence_quiet(four.board, presence[i]);
        lemma_presence_quiet(after, presence[i]);
    }
    assert forall|i: int| 0 <= i < messages.len() implies message_quiet(
        after,
        #[trigger] messages[i],
    ) by {
        lemma_messages_settle(four, messages, i);
    }
    lemma_agents_quiet(after, agents);
    lemma_groups_quiet(after, groups);
    lemma_presences_quiet(after, presence);
    lemma_messages_quiet(after, messages);
    let again = fresh(after);
    assert(after.loaded_presence_paths.difference(Seq::<Seq<char>>::empty().to_set())
        =~= after.loaded_presence_paths);
    assert(without_gone(again, seq![]) == again);
    let none = Seq::<Seq<char>>::empty();
    assert(crate::collections::sorted(none));
    crate::collections::lemma_sorted_unique(none, crate::collections::sorted_list(none));
}

/// A message that could not be read stays eligible: once it can be read and
/// belongs at its path, it is taken in as new, and no longer warned of.
pub proof fn law_unreadable_message_is_retried(
    scan: ScanView,
    folder: Seq<char>,
    path: Seq<char>,
    words: Seq<char>,
    message: MessageView,
)
    requires
        !scan.board.loaded_paths.contains(path),
        !scan.board.messages.contains_key(message.id),
        document_title(path) is Some,
        message_fault(message, document_title(path)->Some_0) is None,
    ensures
        ({
            let failed = message_step(
                scan,
                SeenView::Document { folder, path, content: Err(words) },
            );
            let after = message_step(
                failed,
                SeenView::Document { folder, path, content: Ok(message) },
            );
            &&& failed.new_messages == scan.new_messages
            &&& failed.board.warned_paths.contains(path)
            &&& !failed.board.loaded_paths.contains(path)
            &&& after.new_messages == scan.new_messages.push(message.id)
            &&& after.board.messages == scan.board.messages.insert(message.id, message)
            &&& after.board.loaded_paths.contains(path)
            &&& !after.board.warned_paths.contains(path)
        }),
{
}

/// A message that belongs at its path is taken in, whatever else is met on the
/// scan: its path is not read again, and where it was not before, the message is
/// known, and new unless it was known. Documents of one message agree.
pub proof fn law_fitting_message_is_taken_in(
    scan: ScanView,
    seen: Seq<SeenView<MessageView>>,
    i: int,
)
    requires
        0 <= i < seen.len(),
        forall|j: int| 0 <= j < seen.len() ==> #[trigger] seen[j] is Document,
        is_fitting(seen[i]),
        forall|j: int|
            0 <= j < seen.len() && is_fitting(#[trigger] seen[j]) && seen[j]->Document_content->Ok_0.id
                == seen[i]->Document_content->Ok_0.id ==> seen[j]->Document_content
                == seen[i]->Document_content,
    ensures
        ({
            let message = seen[i]->Document_content->Ok_0;
            let path = seen[i]->Document_path;
            let after = messages_scanned(scan, seen);
            &&& after.board.loaded_paths.contains(path)
            &&& !scan.board.loaded_paths.contains(path) ==> {
                &&& after.board.messages.contains_key(message.id)
                &&& after.board.messages[message.id] == message
                &&& after.new_messages.contains(message.id) || scan.board.messages.contains_key(
                    message.id,
                )
            }
        }),
{
    lemma_messages_settle(scan, seen, i);
    lemma_message_quiet(messages_scanned(scan, seen).board, seen[i]);
    if !scan.board.loaded_paths.contains(seen[i]->Document_path) {
        lemma_loaded_is_known(scan, seen, seen[i]->Document_path, seen[i]->Document_content->Ok_0);
    }
}

/// Whether a document holds a message that belongs at its path.
pub open spec fn is_fitting(seen: SeenView<MessageView>) -> bool {
    &&& seen is Document
    &&& seen->Document_content is Ok
    &&& document_title(seen->Document_path) is Some
    &&& message_fault(
        seen->Document_content->Ok_0,
        document_title(seen->Document_path)->Some_0,
    ) is None
}

/// The message of a path that a scan has taken in is known.
proof fn lemma_loaded_is_known(
    scan: ScanView,
    seen: Seq<SeenView<MessageView>>,
    path: Seq<char>,
    message: MessageView,
)
    requires
        !scan.board.loaded_paths.contains(path),
        document_title(path) == Some(message.id),
        forall|j: int| 0 <= j < seen.len() ==> #[trigger] seen[j] is Document,
        forall|j: int|
            0 <= j < seen.len() && is_fitting(#[trigger] seen[j]) && seen[j]->Document_content->Ok_0.id
                == message.id ==> seen[j]->Document_content->Ok_0 == message,
    ensures
        ({
            let after = messages_scanned(scan, seen);
            after.board.loaded_paths.contains(path) ==> {
                &&& after.board.messages.contains_key(message.id)
                &&& after.board.messages[message.id] == message
                &&& after.new_messages.contains(message.id) || scan.board.messages.contains_key(
                    message.id,
                )
            }
        }),
    decreases seen.len(),
{
    if seen.len() > 0 {
        let init = seen.drop_last();
        assert(forall|j: int| 0 <= j < init.len() ==> init[j] == seen[j]);
        lemma_loaded_is_known(scan, init, path, message);
        lemma_known_is_told(scan, init, message.id);
        let before = messages_scanned(scan, init);
        let after = messages_scanned(scan, seen);
        let one = seen[seen.len() - 1];
        assert(seen.last() == one);
        if is_fitting(one) && !before.board.loaded_paths.contains(one->Document_path) {
            let id = one->Document_content->Ok_0.id;
            if id == message.id {
                assert(one->Document_content->Ok_0 == message);
            }
            if !before.board.messages.contains_key(id) {
                assert(after.new_messages == before.new_messages.push(id));
                assert(after.new_messages[before.new_messages.len() as int] == id);
                if before.new_messages.contains(message.id) {
                    let k = choose|k: int|
                        0 <= k < before.new_messages.len() && before.new_messages[k] == message.id;
                    assert(after.new_messages[k] == message.id);
                }
            }
        } else {
            assert(after.board.messages == before.board.messages);
            assert(after.new_messages == before.new_messages);
            assert(after.board.loaded_paths == before.board.loaded_paths);
        }
    }
}

/// What a scan came to know, it tells as new.
proof fn lemma_known_is_told(scan: ScanView, seen: Seq<SeenView<MessageView>>, id: Seq<char>)
    ensures
        messages_scanned(scan, seen).board.messages.contains_key(id)
            ==> scan.board.messages.contains_key(id) || messages_scanned(
            scan,
            seen,
        ).new_messages.contains(id),
    decreases seen.len(),
{
    if seen.len() > 0 {
        let before = messages_scanned(scan, seen.drop_last());
        let after = messages_scanned(scan, seen);
        lemma_known_is_told(scan, seen.drop_last(), id);
        if before.new_messages.contains(id) && after.new_messages != before.new_messages {
            let k = choose|k: int| 0 <= k < before.new_messages.len() && before.new_messages[k] == id;
            assert(after.new_messages[k] == id);
        }
        if after.board.messages.contains_key(id) && !before.board.messages.contains_key(id) {
            assert(after.new_messages[before.new_messages.len() as int] == id);
        }
    }
}

/// Whether no message is told as new twice, and each is known.
pub open spec fn tells_once(scan: ScanView) -> bool {
    &&& scan.new_messages.no_duplicates()
    &&& forall|id: Seq<char>| #[trigger]
        scan.new_messages.contains(id) ==> scan.board.messages.contains_key(id)
}

/// Telling of one more message tells no message twice.
proof fn lemma_announced(scan: ScanView, id: Seq<char>, message: MessageView, other: Seq<char>)
    requires
        tells_once(scan),
    ensures
        ({
            let list = announced(scan.new_messages, scan.board.messages, id);
            let known = scan.board.messages.insert(id, message);
            &&& list.no_duplicates()
            &&& forall|one: Seq<char>| #[trigger] list.contains(one) ==> known.contains_key(one)
            &&& scan.board.messages.contains_key(other) && list.contains(other)
                ==> scan.new_messages.contains(other)
        }),
{
    let list = announced(scan.new_messages, scan.board.messages, id);
    let known = scan.board.messages.insert(id, message);
    let count = scan.new_messages.len() as int;
    assert forall|i: int, j: int| 0 <= i < j < list.len() implies list[i] != list[j] by {
        if j == count {
            assert(scan.new_messages.contains(scan.new_messages[i]));
        }
    }
    assert forall|one: Seq<char>| #[trigger] list.contains(one) implies known.contains_key(one) && (one
        == id || scan.new_messages.contains(one)) by {
        let k = choose|k: int| 0 <= k < list.len() && list[k] == one;
        if k < count {
            assert(scan.new_messages[k] == one);
            assert(scan.new_messages.contains(one));
            assert(scan.board.messages.contains_key(one));
        }
    }
}

/// A scan of messages tells each as new once, in however many places its
/// documents stand, and never one that was known before: what is known is
/// suppressed by its identifier.
pub proof fn law_no_message_is_new_twice(scan: ScanView, seen: Seq<SeenView<MessageView>>)
    requires
        tells_once(scan),
    ensures
        tells_once(messages_scanned(scan, seen)),
        forall|id: Seq<char>| #[trigger]
            messages_scanned(scan, seen).new_messages.contains(id)
                ==> !scan.board.messages.contains_key(id) || scan.new_messages.contains(id),
        forall|id: Seq<char>| #[trigger]
            scan.board.messages.contains_key(id) ==> messages_scanned(
                scan,
                seen,
            ).board.messages.contains_key(id),
    decreases seen.len(),
{
    if seen.len() > 0 {
        let init = seen.drop_last();
        law_no_message_is_new_twice(scan, init);
        let before = messages_scanned(scan, init);
        let one = seen.last();
        if is_fitting(one) && !before.board.loaded_paths.contains(one->Document_path) {
            let message = one->Document_content->Ok_0;
            assert forall|id: Seq<char>| #[trigger]
                messages_scanned(scan, seen).new_messages.contains(
                    id,
                ) implies !scan.board.messages.contains_key(id) || scan.new_messages.contains(id) by {
                lemma_announced(before, message.id, message, id);
            }
            lemma_announced(before, message.id, message, message.id);
        }
    }
}

/// What was found on the routes adds to a scan each message once, and none that
/// was known before.
pub proof fn law_no_routed_message_is_new_twice(scan: ScanView, messages: Seq<MessageView>)
    requires
        tells_once(scan),
    ensures
        tells_once(routed_merged(scan, messages)),
        forall|id: Seq<char>| #[trigger]
            routed_merged(scan, messages).new_messages.contains(id)
                ==> !scan.board.messages.contains_key(id) || scan.new_messages.contains(id),
    decreases messages.len(),
{
    if messages.len() > 0 {
        let init = messages.drop_last();
        law_no_routed_message_is_new_twice(scan, init);
        lemma_merged_keeps(scan, init);
        let before = routed_merged(scan, init);
        let message = messages.last();
        assert forall|id: Seq<char>| #[trigger]
            routed_merged(scan, messages).new_messages.contains(
                id,
            ) implies !scan.board.messages.contains_key(id) || scan.new_messages.contains(id) by {
            lemma_announced(before, message.id, message, id);
        }
        lemma_announced(before, message.id, message, message.id);
    }
}

proof fn lemma_merged_keeps(scan: ScanView, messages: Seq<MessageView>)
    ensures
        forall|id: Seq<char>| #[trigger]
            scan.board.messages.contains_key(id) ==> routed_merged(
                scan,
                messages,
            ).board.messages.contains_key(id),
    decreases messages.len(),
{
    if messages.len() > 0 {
        lemma_merged_keeps(scan, messages.drop_last());
    }
}

/// Sorting a list without duplicates gives one in ascending order, with the same
/// members.
proof fn lemma_sorted_once(list: Seq<Seq<char>>)
    requires
        list.no_duplicates(),
    ensures
        sorted_list(list).no_duplicates(),
        ascending(sorted_list(list)),
        forall|x: Seq<char>| #[trigger] sorted_list(list).contains(x) <==> list.contains(x),
{
    let ordered = sorted_list(list);
    lemma_sorted_list(list);
    list.to_multiset_ensures();
    ordered.to_multiset_ensures();
    list.lemma_multiset_has_no_duplicates();
    ordered.lemma_multiset_has_no_duplicates_conv();
    assert forall|x: Seq<char>| #[trigger] ordered.contains(x) <==> list.contains(x) by {
        assert(ordered.to_multiset().count(x) == list.to_multiset().count(x));
    }
    assert forall|i: int, j: int| 0 <= i < j < ordered.len() implies precedes(
        #[trigger] ordered[i],
        #[trigger] ordered[j],
    ) by {
        lemma_precedes_total(ordered[i], ordered[j]);
        assert(!precedes(ordered[j], ordered[i]));
    }
}

/// A whole scan of the board, with what was found on its routes, tells each
/// message as new once, in ascending order, and none that was known before.
pub proof fn law_whole_scan_tells_each_message_once(
    board: BoardView,
    agents: Seq<SeenView<AgentView>>,
    groups: Seq<SeenGroupView>,
    gone: Seq<Seq<char>>,
    presence: Seq<SeenView<PresenceView>>,
    messages: Seq<SeenView<MessageView>>,
    routed: Seq<MessageView>,
    warnings: Seq<Seq<char>>,
)
    ensures
        ({
            let first = scanned(board, agents, groups, gone, presence, messages);
            let whole = with_routed(first, routed, warnings);
            &&& ascending(first.new_messages)
            &&& ascending(whole.new_messages)
            &&& forall|id: Seq<char>| #[trigger]
                whole.new_messages.contains(id) ==> !board.messages.contains_key(id)
            &&& forall|id: Seq<char>| #[trigger]
                first.new_messages.contains(id) ==> !board.messages.contains_key(id)
        }),
{
    let start = fresh(board);
    let one = agents_scanned(start, agents);
    let two = groups_scanned(one, groups);
    let four = presence_scanned(without_gone(two, gone), presence);
    let five = messages_scanned(four, messages);
    let first = scanned(board, agents, groups, gone, presence, messages);
    lemma_agents_keep_messages(start, agents);
    lemma_groups_keep_messages(one, groups);
    lemma_presence_keeps_messages(without_gone(two, gone), presence);
    law_no_message_is_new_twice(four, messages);
    lemma_sorted_once(five.new_messages);
    assert(tells_once(first));
    law_no_routed_message_is_new_twice(first, routed);
    lemma_sorted_once(routed_merged(first, routed).new_messages);
    let whole = with_routed(first, routed, warnings);
    assert forall|id: Seq<char>| #[trigger]
        whole.new_messages.contains(id) implies !board.messages.contains_key(id) by {
        assert(routed_merged(first, routed).new_messages.contains(id));
        if board.messages.contains_key(id) {
            assert(four.board.messages.contains_key(id));
            assert(first.board.messages.contains_key(id));
            assert(first.new_messages.contains(id));
        }
    }
}

proof fn lemma_agents_keep_messages(scan: ScanView, seen: Seq<SeenView<AgentView>>)
    ensures
        agents_scanned(scan, seen).board.messages == scan.board.messages,
        agents_scanned(scan, seen).new_messages == scan.new_messages,
    decreases seen.len(),
{
    if seen.len() > 0 {
        lemma_agents_keep_messages(scan, seen.drop_last());
    }
}

proof fn lemma_groups_keep_messages(scan: ScanView, seen: Seq<SeenGroupView>)
    ensures
        groups_scanned(scan, seen).board.messages == scan.board.messages,
        groups_scanned(scan, seen).new_messages == scan.new_messages,
    decreases seen.len(),
{
    if seen.len() > 0 {
        lemma_groups_keep_messages(scan, seen.drop_last());
    }
}

proof fn lemma_presence_keeps_messages(scan: ScanView, seen: Seq<SeenView<PresenceView>>)
    ensures
        presence_scanned(scan, seen).board.messages == scan.board.messages,
        presence_scanned(scan, seen).new_messages == scan.new_messages,
    decreases seen.len(),
{
    if seen.len() > 0 {
        lemma_presence_keeps_messages(scan, seen.drop_last());
    }
}

/// A scan takes no membership away.
pub proof fn law_memberships_only_grow(scan: ScanView, seen: Seq<SeenGroupView>)
    ensures
        scan.board.memberships.subset_of(groups_scanned(scan, seen).board.memberships),
    decreases seen.len(),
{
    if seen.len() > 0 {
        law_memberships_only_grow(scan, seen.drop_last());
    }
}

/// A scan never replaces an agent's sign of life by an earlier one.
pub proof fn law_presence_never_goes_back(
    scan: ScanView,
    seen: Seq<SeenView<PresenceView>>,
    agent: Seq<char>,
)
    requires
        scan.board.presence.contains_key(agent),
    ensures
        presence_scanned(scan, seen).board.presence.contains_key(agent),
        !precedes(
            presence_scanned(scan, seen).board.presence[agent].id,
            scan.board.presence[agent].id,
        ),
    decreases seen.len(),
{
    lemma_precedes_irreflexive(scan.board.presence[agent].id);
    if seen.len() > 0 {
        law_presence_never_goes_back(scan, seen.drop_last(), agent);
        let first = scan.board.presence[agent].id;
        let before = presence_scanned(scan, seen.drop_last()).board.presence[agent].id;
        let after = presence_scanned(scan, seen).board.presence[agent].id;
        if after != before && precedes(after, first) {
            lemma_precedes_transitive(before, after, first);
        }
    }
}

/// Whether a scan has only warned of a document, once until it is taken in.
pub open spec fn has_only_warned(before: ScanView, after: ScanView, path: Seq<char>) -> bool {
    &&& after.board == (BoardView {
        warned_paths: before.board.warned_paths.insert(path),
        ..before.board
    })
    &&& after.new_messages == before.new_messages
    &&& before.board.warned_paths.contains(path) ==> after.warnings == before.warnings
    &&& !before.board.warned_paths.contains(path) ==> {
        &&& after.warnings.len() == before.warnings.len() + 1
        &&& after.warnings.drop_last() == before.warnings
        &&& begins_with(after.warnings.last(), "read "@ + path + ": "@)
    }
}

proof fn lemma_has_only_warned(before: ScanView, path: Seq<char>, words: Seq<char>)
    ensures
        has_only_warned(before, warned(before, path, words), path),
{
    let after = warned(before, path, words);
    crate::text::lemma_prefix_prepended("read "@ + path + ": "@, words);
    if before.board.warned_paths.contains(path) {
        assert(before.board.warned_paths.insert(path) =~= before.board.warned_paths);
    } else {
        assert(after.warnings.drop_last() =~= before.warnings);
    }
}

/// A registration that belongs at its path, and was not taken in before, is taken in under
/// its identity; any other is warned of. Nothing else of the board changes.
pub proof fn law_scan_takes_in_registrations(
    before: ScanView,
    folder: Seq<char>,
    path: Seq<char>,
    content: Result<AgentView, Seq<char>>,
    project: Seq<char>,
    key: Seq<char>,
)
    requires
        last_name(folder) == Some(project),
        document_title(path) == Some(key),
    ensures
        ({
            let after = agent_step(before, SeenView::Document { folder, path, content });
            let fits = content is Ok && is_registered_as(content->Ok_0, project, key);
            &&& before.board.loaded_paths.contains(path) ==> after == before
            &&& !before.board.loaded_paths.contains(path) && fits ==> after == (ScanView {
                board: BoardView {
                    agents: before.board.agents.insert(content->Ok_0.id, content->Ok_0),
                    loaded_paths: before.board.loaded_paths.insert(path),
                    warned_paths: before.board.warned_paths.remove(path),
                    ..before.board
                },
                ..before
            })
            &&& !before.board.loaded_paths.contains(path) && !fits ==> has_only_warned(
                before,
                after,
                path,
            )
        }),
{
    reveal_strlit("aiboard.agent.v1");
    match content {
        Err(words) => {
            lemma_has_only_warned(before, path, words);
        },
        Ok(agent) => {
            if agent_fault(agent, project, key) is Some {
                lemma_has_only_warned(before, path, agent_fault(agent, project, key)->Some_0);
            }
        },
    }
}

/// A group that belongs at its path, and was not taken in before, is taken in under its
/// name; any other is warned of. Nothing else of the board changes.
pub proof fn law_scan_takes_in_groups(
    before: ScanView,
    folder: Seq<char>,
    content: Result<GroupView, Seq<char>>,
    name: Seq<char>,
)
    requires
        last_name(folder) == Some(name),
    ensures
        ({
            let after = group_step(before, SeenGroupView::Group { folder, content });
            let path = child(folder, "group"@ + ".json.zst"@);
            let fits = content is Ok && content->Ok_0.schema == "aiboard.group.v1"@
                && content->Ok_0.name == name;
            &&& before.board.loaded_paths.contains(path) ==> after == before
            &&& !before.board.loaded_paths.contains(path) && fits ==> after == (ScanView {
                board: BoardView {
                    groups: before.board.groups.insert(name, content->Ok_0),
                    loaded_paths: before.board.loaded_paths.insert(path),
                    warned_paths: before.board.warned_paths.remove(path),
                    ..before.board
                },
                ..before
            })
            &&& !before.board.loaded_paths.contains(path) && !fits ==> has_only_warned(
                before,
                after,
                path,
            )
        }),
{
    reveal_strlit("aiboard.group.v1");
    let path = child(folder, "group"@ + ".json.zst"@);
    match content {
        Err(words) => {
            lemma_has_only_warned(before, path, words);
        },
        Ok(group) => {
            if group_fault(group, name) is Some {
                lemma_has_only_warned(before, path, group_fault(group, name)->Some_0);
            }
        },
    }
}

/// A membership that belongs at its path, and was not taken in before, makes its agent a
/// member of its group; any other is warned of. Nothing else of the board changes.
pub proof fn law_scan_takes_in_memberships(
    before: ScanView,
    folder: Seq<char>,
    path: Seq<char>,
    content: Result<MembershipView, Seq<char>>,
    name: Seq<char>,
    agent: Seq<char>,
)
    requires
        last_name(folder) == Some(name),
        document_title(path) == Some(agent),
    ensures
        ({
            let after = group_step(before, SeenGroupView::Member { folder, path, content });
            let fits = content is Ok && content->Ok_0.schema == "aiboard.membership.v1"@
                && content->Ok_0.group == name && content->Ok_0.agent == agent;
            &&& before.board.loaded_paths.contains(path) ==> after == before
            &&& !before.board.loaded_paths.contains(path) && fits ==> after == (ScanView {
                board: BoardView {
                    memberships: before.board.memberships.insert((name, agent)),
                    loaded_paths: before.board.loaded_paths.insert(path),
                    warned_paths: before.board.warned_paths.remove(path),
                    ..before.board
                },
                ..before
            })
            &&& !before.board.loaded_paths.contains(path) && !fits ==> has_only_warned(
                before,
                after,
                path,
            )
        }),
{
    reveal_strlit("aiboard.membership.v1");
    match content {
        Err(words) => {
            lemma_has_only_warned(before, path, words);
        },
        Ok(membership) => {
            if membership_fault(membership, name, agent) is Some {
                lemma_has_only_warned(
                    before,
                    path,
                    membership_fault(membership, name, agent)->Some_0,
                );
            }
        },
    }
}

/// A sign of life that belongs at its path, and was not taken in before, is its agent's
/// unless a sign with the same or a later identifier is known; any other is warned of.
/// Nothing else of the board changes.
pub proof fn law_scan_takes_in_signs_of_life(
    before: ScanView,
    folder: Seq<char>,
    path: Seq<char>,
    content: Result<PresenceView, Seq<char>>,
    agent: Seq<char>,
    id: Seq<char>,
)
    requires
        last_name(folder) == Some(agent),
        document_title(path) == Some(id),
    ensures
        ({
            let after = presence_step(before, SeenView::Document { folder, path, content });
            let sign = content->Ok_0;
            let fits = content is Ok && sign.schema == "aiboard.presence.v1"@ && sign.id == id
                && sign.agent == agent && is_ulid(id) && rfc3339_reading(sign.last_seen) is Ok;
            let newer = !before.board.presence.contains_key(agent) || precedes(
                before.board.presence[agent].id,
                id,
            );
            &&& before.board.loaded_presence_paths.contains(path) ==> after == before
            &&& !before.board.loaded_presence_paths.contains(path) && fits ==> after == (ScanView {
                board: BoardView {
                    presence: if newer {
                        before.board.presence.insert(agent, sign)
                    } else {
                        before.board.presence
                    },
                    loaded_presence_paths: before.board.loaded_presence_paths.insert(path),
                    warned_paths: before.board.warned_paths.remove(path),
                    ..before.board
                },
                ..before
            })
            &&& !before.board.loaded_presence_paths.contains(path) && !fits ==> has_only_warned(
                before,
                after,
                path,
            )
        }),
{
    reveal_strlit("aiboard.presence.v1");
    match content {
        Err(words) => {
            lemma_has_only_warned(before, path, words);
        },
        Ok(sign) => {
            if presence_fault(sign, id, agent) is Some {
                lemma_has_only_warned(before, path, presence_fault(sign, id, agent)->Some_0);
            }
        },
    }
}

/// A message that belongs at its path, and was not taken in before, is known under its
/// identifier, and new if it was not known; any other is warned of. Nothing else of the
/// board changes.
pub proof fn law_scan_takes_in_messages(
    before: ScanView,
    folder: Seq<char>,
    path: Seq<char>,
    content: Result<MessageView, Seq<char>>,
    id: Seq<char>,
)
    requires
        document_title(path) == Some(id),
    ensures
        ({
            let after = message_step(before, SeenView::Document { folder, path, content });
            let message = content->Ok_0;
            let fits = content is Ok && message.schema == "aiboard.message.v1"@ && message.id == id
                && is_ulid(id) && (message.to.len() > 0 <==> message.group is None);
            &&& before.board.loaded_paths.contains(path) ==> after == before
            &&& !before.board.loaded_paths.contains(path) && fits ==> after == (ScanView {
                board: BoardView {
                    messages: before.board.messages.insert(id, message),
                    loaded_paths: before.board.loaded_paths.insert(path),
                    warned_paths: before.board.warned_paths.remove(path),
                    ..before.board
                },
                new_messages: if before.board.messages.contains_key(id) {
                    before.new_messages
                } else {
                    before.new_messages.push(id)
                },
                ..before
            })
            &&& !before.board.loaded_paths.contains(path) && !fits ==> has_only_warned(
                before,
                after,
                path,
            )
        }),
{
    reveal_strlit("aiboard.message.v1");
    match content {
        Err(words) => {
            lemma_has_only_warned(before, path, words);
        },
        Ok(message) => {
            if message_fault(message, id) is Some {
                lemma_has_only_warned(before, path, message_fault(message, id)->Some_0);
            }
        },
    }
}

/// A directory that could not be listed is warned of, and a document without the name of
/// one, or in a directory without a name, is passed over.
pub proof fn law_scan_passes_over_what_is_no_document(
    before: ScanView,
    warning: Seq<char>,
    folder: Seq<char>,
    path: Seq<char>,
    agent: Result<AgentView, Seq<char>>,
    group: Result<GroupView, Seq<char>>,
    member: Result<MembershipView, Seq<char>>,
    sign: Result<PresenceView, Seq<char>>,
    message: Result<MessageView, Seq<char>>,
)
    ensures
        ({
            let told = ScanView { warnings: before.warnings.push(warning), ..before };
            &&& agent_step(before, SeenView::Unlisted { warning }) == told
            &&& group_step(before, SeenGroupView::Unlisted { warning }) == told
            &&& presence_step(before, SeenView::Unlisted { warning }) == told
            &&& message_step(before, SeenView::Unlisted { warning }) == told
        }),
        last_name(folder) is None ==> {
            &&& agent_step(before, SeenView::Document { folder, path, content: agent }) == before
            &&& group_step(before, SeenGroupView::Group { folder, content: group }) == before
            &&& group_step(before, SeenGroupView::Member { folder, path, content: member })
                == before
            &&& presence_step(before, SeenView::Document { folder, path, content: sign }) == before
        },
        document_title(path) is None ==> {
            &&& agent_step(before, SeenView::Document { folder, path, content: agent }) == before
            &&& group_step(before, SeenGroupView::Member { folder, path, content: member })
                == before
            &&& presence_step(before, SeenView::Document { folder, path, content: sign }) == before
            &&& message_step(before, SeenView::Document { folder, path, content: message })
                == before
        },
{
}

/// What is met is taken in one after the other.
pub proof fn law_scan_goes_on_document_by_document(
    scan: ScanView,
    agents: Seq<SeenView<AgentView>>,
    agent: SeenView<AgentView>,
    groups: Seq<SeenGroupView>,
    group: SeenGroupView,
    signs: Seq<SeenView<PresenceView>>,
    sign: SeenView<PresenceView>,
    messages: Seq<SeenView<MessageView>>,
    message: SeenView<MessageView>,
)
    ensures
        agents_scanned(scan, seq![]) == scan,
        groups_scanned(scan, seq![]) == scan,
        presence_scanned(scan, seq![]) == scan,
        messages_scanned(scan, seq![]) == scan,
        agents_scanned(scan, agents.push(agent)) == agent_step(agents_scanned(scan, agents), agent),
        groups_scanned(scan, groups.push(group)) == group_step(groups_scanned(scan, groups), group),
        presence_scanned(scan, signs.push(sign)) == presence_step(
            presence_scanned(scan, signs),
            sign,
        ),
        messages_scanned(scan, messages.push(message)) == message_step(
            messages_scanned(scan, messages),
            message,
        ),
{
    assert(agents.push(agent).drop_last() =~= agents);
    assert(groups.push(group).drop_last() =~= groups);
    assert(signs.push(sign).drop_last() =~= signs);
    assert(messages.push(message).drop_last() =~= messages);
}

/// A scan takes in registrations, groups, signs of life and messages, from a board that
/// has forgotten the signs that are gone, and tells what is new in order.
pub proof fn law_scan_takes_in_all_kinds(state: &mut BoardState, snapshot: &Snapshot, r: ScanResult)
    requires
        call_ensures(scan, (state, snapshot), r),
    ensures
        ({
            let start = ScanView { board: old(state)@, new_messages: seq![], warnings: seq![] };
            let people = groups_scanned(
                agents_scanned(start, views(snapshot.agents@)),
                views(snapshot.groups@),
            );
            let rest = ScanView {
                board: BoardView {
                    loaded_presence_paths: people.board.loaded_presence_paths.difference(
                        texts(snapshot.gone_presence@).to_set(),
                    ),
                    ..people.board
                },
                ..people
            };
            let end = messages_scanned(
                presence_scanned(rest, views(snapshot.presence@)),
                views(snapshot.messages@),
            );
            &&& final(state)@ == end.board
            &&& texts(r.warnings@) == end.warnings
            &&& texts(r.new_messages@).to_multiset() == end.new_messages.to_multiset()
            &&& sorted(texts(r.new_messages@))
        }),
{
    let start = ScanView { board: old(state)@, new_messages: seq![], warnings: seq![] };
    let people = groups_scanned(
        agents_scanned(start, views(snapshot.agents@)),
        views(snapshot.groups@),
    );
    let end = messages_scanned(
        presence_scanned(
            without_gone(people, texts(snapshot.gone_presence@)),
            views(snapshot.presence@),
        ),
        views(snapshot.messages@),
    );
    crate::collections::lemma_sorted_list(end.new_messages);
    assert(scan_view(*final(state), r).board == end.board);
    assert(scan_view(*final(state), r).warnings == end.warnings);
}

/// A message that was found on a route is known under its identifier, and new if it was
/// not known. Nothing else of the board changes.
pub proof fn law_routed_message_is_taken_in(
    scan: ScanView,
    messages: Seq<MessageView>,
    message: MessageView,
)
    ensures
        routed_merged(scan, seq![]) == scan,
        ({
            let before = routed_merged(scan, messages);
            routed_merged(scan, messages.push(message)) == (ScanView {
                board: BoardView {
                    messages: before.board.messages.insert(message.id, message),
                    ..before.board
                },
                new_messages: if before.board.messages.contains_key(message.id) {
                    before.new_messages
                } else {
                    before.new_messages.push(message.id)
                },
                ..before
            })
        }),
{
    assert(messages.push(message).drop_last() =~= messages);
}

/// What was found on the routes joins a scan: its messages are taken in, all that is new
/// stands in order, and its warnings follow. Of the messages the newest 4096 stay.
pub proof fn law_routed_findings_join_a_scan(
    state: &mut BoardState,
    result: &mut ScanResult,
    findings: &Findings,
)
    requires
        call_ensures(scan_routed, (state, result, findings), ()),
    ensures
        ({
            let end = routed_merged(
                ScanView {
                    board: old(state)@,
                    new_messages: texts(old(result).new_messages@),
                    warnings: texts(old(result).warnings@),
                },
                views(findings.messages@),
            );
            &&& texts(final(result).warnings@) == texts(old(result).warnings@) + texts(
                findings.warnings@,
            )
            &&& texts(final(result).new_messages@).to_multiset() == end.new_messages.to_multiset()
            &&& sorted(texts(final(result).new_messages@))
            &&& final(state)@.messages == crate::routed::newest(end.board.messages, 4096)
            &&& final(state)@ == (BoardView { messages: final(state)@.messages, ..old(state)@ })
        }),
{
    let start = scan_view(*old(state), *old(result));
    let end = routed_merged(start, views(findings.messages@));
    crate::collections::lemma_sorted_list(end.new_messages);
    lemma_merged_frame(start, views(findings.messages@));
    let last = scan_view(*final(state), *final(result));
    assert(last.board.messages == crate::routed::newest(end.board.messages, 4096));
    assert(last.warnings == end.warnings + texts(findings.warnings@));
    assert(last.new_messages == sorted_list(end.new_messages));
}

proof fn lemma_merged_frame(scan: ScanView, messages: Seq<MessageView>)
    ensures
        routed_merged(scan, messages).warnings == scan.warnings,
        routed_merged(scan, messages).board == (BoardView {
            messages: routed_merged(scan, messages).board.messages,
            ..scan.board
        }),
    decreases messages.len(),
{
    if messages.len() > 0 {
        lemma_merged_frame(scan, messages.drop_last());
    }
}

/// The parts of a scan take in what is met of their kind, one after the other.
pub proof fn law_parts_of_a_scan_take_in_their_kind(
    state: &mut BoardState,
    result: &mut ScanResult,
    agents: &Vec<Seen<Agent>>,
    other: &mut BoardState,
    told: &mut ScanResult,
    groups: &Vec<SeenGroup>,
    third: &mut BoardState,
    found: &mut ScanResult,
    messages: &Vec<Seen<Message>>,
)
    requires
        call_ensures(scan_agents, (state, result, agents), ()),
        call_ensures(scan_groups, (other, told, groups), ()),
        call_ensures(scan_messages, (third, found, messages), ()),
    ensures
        ({
            let start = ScanView {
                board: old(state)@,
                new_messages: texts(old(result).new_messages@),
                warnings: texts(old(result).warnings@),
            };
            let end = agents_scanned(start, views(agents@));
            &&& final(state)@ == end.board
            &&& texts(final(result).warnings@) == end.warnings
            &&& texts(final(result).new_messages@) == end.new_messages
        }),
        ({
            let start = ScanView {
                board: old(other)@,
                new_messages: texts(old(told).new_messages@),
                warnings: texts(old(told).warnings@),
            };
            let end = groups_scanned(start, views(groups@));
            &&& final(other)@ == end.board
            &&& texts(final(told).warnings@) == end.warnings
            &&& texts(final(told).new_messages@) == end.new_messages
        }),
        ({
            let start = ScanView {
                board: old(third)@,
                new_messages: texts(old(found).new_messages@),
                warnings: texts(old(found).warnings@),
            };
            let end = messages_scanned(start, views(messages@));
            &&& final(third)@ == end.board
            &&& texts(final(found).warnings@) == end.warnings
            &&& texts(final(found).new_messages@).to_multiset() == end.new_messages.to_multiset()
            &&& sorted(texts(final(found).new_messages@))
        }),
{
    let first = scan_view(*final(state), *final(result));
    let second = scan_view(*final(other), *final(told));
    let last = scan_view(*final(third), *final(found));
    assert(first.board == final(state)@ && second.board == final(other)@);
    let start = scan_view(*old(third), *old(found));
    let end = messages_scanned(start, views(messages@));
    lemma_sorted_list(end.new_messages);
    assert(last.board == end.board && last.warnings == end.warnings);
    assert(last.new_messages == sorted_list(end.new_messages));
}

} // verus!
