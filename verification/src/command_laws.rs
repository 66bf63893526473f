//! What holds of the commands of a session, of the tools of an agent, and of the command
//! line.
use crate::app::{
    board_of, check_recipients, command_failed, default_root, digits_reading, first_true,
    group_created, group_joined, group_summaries, group_summary, handle_command, handle_line,
    limit_history, number_reading, options_reading, parse_duration_seconds, required_value,
    root_candidates, run_command, run_options, try_main, validate_recipients, validate_target_group,
    Arguments, ArgumentsView, EventLoop, Line, LoopEvent, LoopStep, Mode, Request, RequestView,
    RunOptions, Work,
};
use crate::clock::{on_clock, Interval, Moment};
use crate::collections::{ascending, in_order, listing};
use crate::conversation_laws::may_send;
use crate::error::BoardError;
use crate::laws::lemma_listing_of;
use crate::mcp::{
    derived_project, poll_bounds, with_semicolons, PollBounds, ServerView, ZboardServer,
};
use crate::model::{
    Agent, AgentStatus, Command, Group, GroupSummary, Membership, Message, Output, OutputView,
    Presence,
};
use crate::path::{ancestors, child, components, is_plain, last_name, lemma_child_components};
use crate::storage::{members_of, statuses_of, BoardState, BoardView};
use crate::text::{digit_char, numeral, padded, text_option, texts, views, zeros};
use vstd::prelude::*;

verus! {

/// A command keeps the agent's sign of life and changes nothing else of the board.
pub proof fn law_command_keeps_the_sign_of_life(
    state: &mut BoardState,
    agent: &Agent,
    presence: Presence,
    command: Command,
    now: Moment,
    r: Work,
)
    requires
        on_clock(now),
        call_ensures(handle_command, (state, agent, presence, command, now), r),
    ensures
        final(state)@ == (BoardView {
            presence: old(state)@.presence.insert(agent.id@, presence@),
            ..old(state)@
        }),
{
}

/// Commands about groups ask for the group that they name; those that ask what is on the
/// board are answered; a history is asked for as it was, 50 messages if not said
/// otherwise and never more than 1000; a ping is answered.
pub proof fn law_command_asks_for_its_work(
    state: &mut BoardState,
    agent: &Agent,
    presence: Presence,
    command: Command,
    now: Moment,
    r: Work,
)
    requires
        on_clock(now),
        call_ensures(handle_command, (state, agent, presence, command, now), r),
    ensures
        match command {
            Command::GroupCreate { name } => r matches Work::CreateGroup(wanted) && wanted@
                == name@,
            Command::GroupJoin { name } => r matches Work::JoinGroup(wanted) && wanted@ == name@,
            Command::Agents => r matches Work::Answer(Output::Agents { agents }) && views(agents@)
                == statuses_of(final(state)@, now),
            Command::Groups => r matches Work::Answer(Output::Groups { groups }) && views(groups@)
                == crate::app::summaries_of(old(state)@),
            Command::History { thread, group, limit } => {
                &&& r matches Work::ReadHistory(t, g, n)
                &&& text_option(t) == text_option(thread)
                &&& text_option(g) == text_option(group)
                &&& limit is None ==> n == 50
                &&& limit is Some && limit->Some_0 <= 1000 ==> n == limit->Some_0
                &&& limit is Some && limit->Some_0 > 1000 ==> n == 1000
            },
            Command::Ping => r matches Work::Answer(Output::Pong),
            _ => r is Publish || r is Refuse,
        },
{
    let board = final(state)@;
    assert(board.groups == old(state)@.groups);
    assert(board.memberships == old(state)@.memberships);
    if command is Groups {
        assert(crate::app::summaries_of(board) =~= crate::app::summaries_of(old(state)@)) by {
            let all = in_order(board.groups);
            assert forall|i: int| 0 <= i < all.len() implies crate::app::summary_of(
                board,
                #[trigger] all[i],
            ) == crate::app::summary_of(old(state)@, all[i]) by {}
        }
    }
}

/// A history has 50 messages if not said otherwise, and never more than 1000.
pub proof fn law_history_is_limited(limit: Option<usize>, r: usize)
    requires
        call_ensures(limit_history, (limit,), r),
    ensures
        limit is None ==> r == 50,
        limit matches Some(n) ==> r <= 1000 && r <= n && (r == n || r == 1000),
{
}

/// Recipients are refused where there are none or one is no agent of the board.
pub proof fn law_recipients_must_be_agents(
    state: &BoardState,
    recipients: &Vec<String>,
    r: Result<(), BoardError>,
)
    requires
        call_ensures(validate_recipients, (state, recipients), r),
    ensures
        r is Ok <==> recipients@.len() > 0 && forall|i: int|
            0 <= i < recipients@.len() ==> state@.agents.contains_key(
                (#[trigger] recipients@[i])@,
            ),
{
    let list = texts(recipients@);
    crate::conversation_laws::lemma_no_strangers(state@, list);
    assert(list.len() == recipients@.len());
    assert forall|i: int| 0 <= i < recipients@.len() implies list[i] == (
    #[trigger] recipients@[i])@ by {}
    if forall|i: int| 0 <= i < list.len() ==> state@.agents.contains_key(#[trigger] list[i]) {
        assert forall|i: int| 0 <= i < recipients@.len() implies state@.agents.contains_key(
            (#[trigger] recipients@[i])@,
        ) by {
            assert(state@.agents.contains_key(list[i]));
        }
    }
    if forall|i: int|
        0 <= i < recipients@.len() ==> state@.agents.contains_key((#[trigger] recipients@[i])@) {
        assert forall|i: int| 0 <= i < list.len() implies state@.agents.contains_key(
            #[trigger] list[i],
        ) by {
            assert(state@.agents.contains_key(recipients@[i]@));
        }
    }
}

/// An agent may send to everyone's group and its project's, and to a group that is known
/// and that it has joined.
pub proof fn law_target_group_must_be_open(
    state: &BoardState,
    agent: &Agent,
    group: &str,
    r: Result<(), BoardError>,
)
    requires
        call_ensures(validate_target_group, (state, agent, group), r),
    ensures
        r is Ok <==> group@ == "global"@ || group@ == "project:"@ + agent.project@ || (
        state@.groups.contains_key(group@) && state@.memberships.contains((group@, agent.id@))),
{
}

/// Each group of the board is listed once, in the order of names, with who created it and
/// its members in order.
pub proof fn law_groups_are_listed_with_their_members(state: &BoardState, r: Vec<GroupSummary>)
    requires
        call_ensures(group_summaries, (state,), r),
        state@.groups.dom().finite(),
        state@.memberships.finite(),
        forall|name: Seq<char>| #[trigger]
            state@.groups.contains_key(name) ==> state@.groups[name].name == name,
    ensures
        ascending(Seq::new(r@.len(), |i: int| r@[i].name@)),
        forall|name: Seq<char>| #[trigger]
            state@.groups.contains_key(name) ==> exists|i: int|
                0 <= i < r@.len() && (#[trigger] r@[i]).name@ == name,
        forall|i: int|
            0 <= i < r@.len() ==> {
                let summary = #[trigger] r@[i];
                &&& state@.groups.contains_key(summary.name@)
                &&& summary.created_by@ == state@.groups[summary.name@].created_by
                &&& ascending(texts(summary.members@))
                &&& forall|who: Seq<char>| #[trigger]
                    texts(summary.members@).contains(who) <==> state@.memberships.contains(
                        (summary.name@, who),
                    )
            },
{
    let keys = listing(state@.groups.dom());
    lemma_listing_of(state@.groups.dom());
    assert(views(r@).len() == r@.len());
    assert forall|i: int| 0 <= i < r@.len() implies {
        let summary = #[trigger] r@[i];
        &&& state@.groups.contains_key(keys[i])
        &&& summary.name@ == keys[i]
        &&& summary.created_by@ == state@.groups[keys[i]].created_by
        &&& ascending(texts(summary.members@))
        &&& forall|who: Seq<char>| #[trigger]
            texts(summary.members@).contains(who) <==> state@.memberships.contains((keys[i], who))
    } by {
        assert(views(r@)[i] == r@[i]@);
        assert(keys.to_set().contains(keys[i]));
        assert(state@.groups.contains_key(keys[i]));
        lemma_members_listed(state@.memberships, keys[i]);
    }
    assert forall|name: Seq<char>| #[trigger] state@.groups.contains_key(name) implies exists|
        i: int,
    |
        0 <= i < r@.len() && (#[trigger] r@[i]).name@ == name by {
        assert(keys.to_set().contains(name));
        let k = choose|k: int| 0 <= k < keys.len() && keys[k] == name;
        assert(r@[k].name@ == name);
    }
}

proof fn lemma_members_listed(memberships: Set<(Seq<char>, Seq<char>)>, group: Seq<char>)
    requires
        memberships.finite(),
    ensures
        ascending(listing(members_of(memberships, group))),
        forall|who: Seq<char>| #[trigger]
            listing(members_of(memberships, group)).contains(who) <==> memberships.contains(
                (group, who),
            ),
{
    let set = members_of(memberships, group);
    let second = |pair: (Seq<char>, Seq<char>)| pair.1;
    memberships.lemma_map_finite(second);
    assert(set.subset_of(memberships.map(second))) by {
        assert forall|who: Seq<char>| set.contains(who) implies memberships.map(second).contains(
            who,
        ) by {
            assert(second((group, who)) == who);
        }
    }
    vstd::set_lib::lemma_set_subset_finite(memberships.map(second), set);
    lemma_listing_of(set);
    let list = listing(set);
    assert forall|who: Seq<char>| #[trigger] list.contains(who) <==> memberships.contains(
        (group, who),
    ) by {
        assert(list.contains(who) <==> list.to_set().contains(who));
    }
}

/// A group that was created is known under its name and told of, and one that was joined
/// has its agent as a member; nothing else of the board changes.
pub proof fn law_group_commands_are_kept(
    state: &mut BoardState,
    group: Group,
    membership: Membership,
    joining: &mut BoardState,
    name: &str,
    created: Output,
    joined: Output,
)
    requires
        call_ensures(group_created, (state, group, name), created),
        call_ensures(group_joined, (joining, membership, name), joined),
    ensures
        final(state)@ == (BoardView {
            groups: old(state)@.groups.insert(group.name@, group@),
            ..old(state)@
        }),
        created matches Output::GroupCreated { name: told } && told@ == name@,
        final(joining)@ == (BoardView {
            memberships: old(joining)@.memberships.insert((membership.group@, membership.agent@)),
            ..old(joining)@
        }),
        joined matches Output::GroupJoined { name: told } && told@ == name@,
{
}

/// A line that is a command is run under its name; one that is none is reported, and so is
/// a command that fails.
pub proof fn law_lines_are_run_or_reported(
    parsed: Result<Command, String>,
    line: Line,
    name: String,
    error: &str,
    failed: Output,
)
    requires
        call_ensures(handle_line, (parsed,), line),
        call_ensures(command_failed, (name, error), failed),
    ensures
        parsed matches Ok(command) ==> {
            &&& line matches Line::Run(_, same)
            &&& same == command
            &&& line matches Line::Run(op, _)
            &&& match command {
                Command::Send { .. } => op@ == "send"@,
                Command::Reply { .. } => op@ == "reply"@,
                Command::GroupCreate { .. } => op@ == "group.create"@,
                Command::GroupJoin { .. } => op@ == "group.join"@,
                Command::Agents => op@ == "agents"@,
                Command::Groups => op@ == "groups"@,
                Command::History { .. } => op@ == "history"@,
                Command::Ping => op@ == "ping"@,
            }
        },
        parsed matches Err(words) ==> {
            &&& line matches Line::Report(Output::Error { op, message })
            &&& op is None
            &&& message@ == "invalid command JSON: "@ + words@
        },
        ({
            &&& failed matches Output::Error { op, message }
            &&& text_option(op) == Some(name@)
            &&& message@ == error@
        }),
{
    match parsed {
        Err(words) => {
            assert(line->Report_0@ == (OutputView::Error {
                op: None,
                message: "invalid command JSON: "@ + words@,
            }));
        },
        _ => {},
    }
}

/// A session scans one interval after it begins and after each scan, waits no longer than
/// until then, and a change of the file system brings the scan up to 50 milliseconds
/// after it, never further away.
pub proof fn law_session_scans_in_time(
    interval: Interval,
    start: u64,
    fresh: EventLoop,
    waiting: &EventLoop,
    now: u64,
    wait: u128,
    due: bool,
    clock: &mut EventLoop,
    event: LoopEvent,
    step: LoopStep,
    done: &mut EventLoop,
)
    requires
        call_ensures(EventLoop::new, (interval, start), fresh),
        call_ensures(EventLoop::timeout, (waiting, now), wait),
        call_ensures(EventLoop::is_due, (waiting, now), due),
        old(clock).wf(),
        call_ensures(EventLoop::receive, (clock, event, now), step),
        old(done).wf(),
        call_ensures(EventLoop::reconciled, (done, now), ()),
    ensures
        fresh.poll_interval == interval.seconds * 1_000_000_000 + interval.nanos,
        fresh.reconcile_at == start + interval.seconds * 1_000_000_000 + interval.nanos,
        due <==> now >= waiting.reconcile_at,
        due <==> wait == 0,
        !due ==> now + wait == waiting.reconcile_at,
        final(done).reconcile_at == now + old(done).poll_interval,
        final(done).poll_interval == old(done).poll_interval,
        final(clock).poll_interval == old(clock).poll_interval,
        final(clock).reconcile_at <= old(clock).reconcile_at,
        event is Filesystem ==> final(clock).reconcile_at <= now + 50_000_000,
        event is Filesystem || final(clock).reconcile_at == old(clock).reconcile_at,
        final(clock).reconcile_at == old(clock).reconcile_at || final(clock).reconcile_at == now
            + 50_000_000,
        match event {
            LoopEvent::Input(line) => step matches LoopStep::Handle(same) && same@ == line@,
            LoopEvent::InputClosed => step is Stop,
            LoopEvent::Disconnected => step is Stop,
            LoopEvent::WatchWarning(words) => step matches LoopStep::Emit(
                Output::Warning { message },
            ) && message@ == words@,
            LoopEvent::Timeout => step is Reconcile,
            LoopEvent::Filesystem => step is Wait,
        },
{
    match event {
        LoopEvent::WatchWarning(words) => {
            assert(step->Emit_0@ == (OutputView::Warning { message: words@ }));
        },
        _ => {},
    }
}

/// The board of a directory is the first that is there, of that in the directory and
/// those in the directories above it, or else that of the directory itself.
pub proof fn law_board_is_the_nearest(start: &str, existing: &Vec<bool>, r: String)
    requires
        existing@.len() == ancestors(start@).len(),
        call_ensures(default_root, (start, existing), r),
    ensures
        forall|i: int|
            0 <= i < existing@.len() && #[trigger] existing@[i] && (forall|j: int|
                0 <= j < i ==> !#[trigger] existing@[j]) ==> components(r@) == components(
                ancestors(start@)[i],
            ) + seq![".ai"@, "message-board"@],
        (forall|i: int| 0 <= i < existing@.len() ==> !#[trigger] existing@[i]) ==> components(r@)
            == components(start@) + seq![".ai"@, "message-board"@],
{
    lemma_first_true(existing@);
    assert forall|i: int|
        0 <= i < existing@.len() && #[trigger] existing@[i] && (forall|j: int|
            0 <= j < i ==> !#[trigger] existing@[j]) implies components(r@) == components(
        ancestors(start@)[i],
    ) + seq![".ai"@, "message-board"@] by {
        let first = first_true(existing@);
        if first is Some && first->Some_0 < i {
            assert(existing@[first->Some_0]);
        }
        lemma_board_components(ancestors(start@)[i]);
    }
    lemma_board_components(start@);
}

proof fn lemma_first_true(list: Seq<bool>)
    ensures
        first_true(list) is None <==> forall|i: int| 0 <= i < list.len() ==> !#[trigger] list[i],
        first_true(list) matches Some(at) ==> 0 <= at < list.len() && list[at] && forall|i: int|
            0 <= i < at ==> !#[trigger] list[i],
    decreases list.len(),
{
    if list.len() > 0 {
        let init = list.drop_last();
        lemma_first_true(init);
        assert forall|i: int| 0 <= i < init.len() implies #[trigger] list[i] == init[i] by {}
        if first_true(init) is None {
            assert forall|i: int| 0 <= i < list.len() - 1 implies !#[trigger] list[i] by {
                assert(!init[i]);
            }
            if list.last() {
                assert(list[list.len() - 1]);
            }
        } else {
            let at = first_true(init)->Some_0;
            assert(list[at] == init[at]);
            assert forall|i: int| 0 <= i < at implies !#[trigger] list[i] by {
                assert(!init[i]);
            }
        }
    }
}

proof fn lemma_board_components(directory: Seq<char>)
    ensures
        components(board_of(directory)) == components(directory) + seq![".ai"@, "message-board"@],
{
    reveal_strlit(".ai");
    reveal_strlit("message-board");
    reveal_strlit(".");
    assert(".ai"@.len() == 3);
    assert("message-board"@.len() == 13);
    assert(is_plain(".ai"@));
    assert(is_plain("message-board"@));
    lemma_child_components(directory, ".ai"@);
    lemma_child_components(child(directory, ".ai"@), "message-board"@);
    assert(components(board_of(directory)) =~= components(directory) + seq![
        ".ai"@,
        "message-board"@,
    ]);
}

proof fn lemma_read_zeros(count: int)
    requires
        0 <= count,
    ensures
        digits_reading(zeros(count)) == Ok::<int, Seq<char>>(0),
    decreases count,
{
    if count > 0 {
        lemma_read_zeros(count - 1);
        assert(zeros(count).drop_last() =~= zeros(count - 1));
    }
}

proof fn lemma_read_numeral(count: int, n: nat)
    requires
        0 <= count,
        n <= u64::MAX,
    ensures
        digits_reading(zeros(count) + numeral(n)) == Ok::<int, Seq<char>>(n as int),
    decreases n,
{
    let text = zeros(count) + numeral(n);
    if n < 10 {
        lemma_read_zeros(count);
        assert(text.drop_last() =~= zeros(count));
        assert(text.last() == digit_char(n as int));
    } else {
        lemma_read_numeral(count, n / 10);
        assert(text.drop_last() =~= zeros(count) + numeral(n / 10));
        assert(text.last() == digit_char((n % 10) as int));
    }
}

/// Digits read as a number exactly if the number, with zeros before it, is written so.
pub proof fn law_digits_are_the_number_they_write(digits: Seq<char>, n: int)
    requires
        digits.len() > 0,
        0 <= n <= u64::MAX,
    ensures
        digits_reading(digits) == Ok::<int, Seq<char>>(n) <==> digits == padded(
            n,
            digits.len() as int,
        ),
{
    let width = digits.len() as int;
    if digits_reading(digits) == Ok::<int, Seq<char>>(n) {
        lemma_written(digits, n);
    }
    if digits == padded(n, width) {
        let count = width - numeral(n as nat).len();
        if count < 0 {
            assert(zeros(count) =~= zeros(0));
            lemma_read_numeral(0, n as nat);
        } else {
            lemma_read_numeral(count, n as nat);
        }
    }
}

proof fn lemma_written(digits: Seq<char>, n: int)
    requires
        digits.len() > 0,
        digits_reading(digits) == Ok::<int, Seq<char>>(n),
    ensures
        0 <= n,
        numeral(n as nat).len() <= digits.len(),
        digits =~= zeros(digits.len() - numeral(n as nat).len()) + numeral(n as nat),
    decreases digits.len(),
{
    let init = digits.drop_last();
    let c = digits.last();
    let d = c as int - 48;
    assert(c == digit_char(d));
    if init.len() == 0 {
        assert(n == d);
        assert(digits =~= zeros(0) + numeral(n as nat));
    } else {
        let m = digits_reading(init)->Ok_0;
        lemma_written(init, m);
        assert(n == m * 10 + d);
        if m > 0 {
            assert(n / 10 == m && n % 10 == d);
            assert(numeral(n as nat) == numeral(m as nat).push(c));
            let before = zeros(init.len() - numeral(m as nat).len());
            assert(init == before + numeral(m as nat));
            let shorter = numeral(m as nat);
            assert(digits =~= init.push(c));
            assert((before + shorter).push(c) =~= before + shorter.push(c));
        } else {
            assert(numeral(0) =~= seq!['0']);
            assert(numeral(0).len() == 1);
            assert(init =~= zeros(init.len() - 1) + seq!['0']);
            assert(init =~= zeros(init.len() as int)) by {
                assert forall|i: int| 0 <= i < init.len() implies init[i] == '0' by {
                    assert((zeros(init.len() - 1) + seq!['0'])[i] == '0');
                }
            }
            assert(numeral(n as nat) == seq![c]);
            assert(digits =~= init + seq![c]);
        }
    }
}

/// An interval between scans is a whole number of seconds, one at least, in decimal
/// digits, with or without a plus sign.
pub proof fn law_interval_is_whole_seconds(value: &str, r: Result<Interval, BoardError>, n: int, width: int)
    requires
        call_ensures(parse_duration_seconds, (value,), r),
        0 <= n <= u64::MAX,
    ensures
        r matches Ok(interval) ==> {
            let digits = if value@[0] == '+' {
                value@.skip(1)
            } else {
                value@
            };
            &&& interval.nanos == 0
            &&& interval.seconds > 0
            &&& digits == padded(interval.seconds as int, digits.len() as int)
        },
        n > 0 && (value@ == padded(n, width) || value@ == "+"@ + padded(n, width)) ==> r is Ok
            && r->Ok_0.seconds == n,
        n == 0 && (value@ == padded(n, width) || value@ == "+"@ + padded(n, width)) ==> r is Err,
{
    reveal_strlit("+");
    match r {
        Ok(interval) => {
            let digits = if value@[0] == '+' {
                value@.skip(1)
            } else {
                value@
            };
            law_digits_are_the_number_they_write(digits, interval.seconds as int);
        },
        Err(_) => {},
    }
    let text = padded(n, width);
    crate::expiry_laws::lemma_numeral_chars(n as nat);
    assert(text.len() > 0);
    assert(text == padded(n, text.len() as int)) by {
        let digits = numeral(n as nat);
        assert(zeros(width - digits.len()) =~= zeros(text.len() - digits.len()));
    }
    law_digits_are_the_number_they_write(text, n);
    assert(text[0] != '+') by {
        let digits = numeral(n as nat);
        if width > digits.len() {
            assert(text[0] == '0');
        } else {
            assert(text[0] == digits[0]);
        }
    }
    let signed = "+"@ + text;
    assert(signed.skip(1) =~= text);
    assert(signed[0] == '+');
}

/// Options of a command are read one after the other: each sets its own value, the last
/// of a kind stands, help is given when it is asked for, and what is unknown or lacks its
/// value is refused.
pub proof fn law_options_are_read_in_order(
    command: Seq<char>,
    so_far: ArgumentsView,
    value: Seq<char>,
    rest: Seq<Seq<char>>,
    flag: Seq<char>,
)
    ensures
        options_reading(command, so_far, seq![]) == Ok::<RequestView, Seq<char>>(
            RequestView::Run(so_far),
        ),
        options_reading(command, so_far, seq!["--help"@] + rest) == Ok::<RequestView, Seq<char>>(
            RequestView::Help,
        ),
        options_reading(command, so_far, seq!["-h"@] + rest) == Ok::<RequestView, Seq<char>>(
            RequestView::Help,
        ),
        options_reading(command, so_far, seq!["--root"@, value] + rest) == options_reading(
            command,
            ArgumentsView { root: Some(value), ..so_far },
            rest,
        ),
        options_reading(command, so_far, seq!["--project"@, value] + rest) == options_reading(
            command,
            ArgumentsView { project: Some(value), ..so_far },
            rest,
        ),
        options_reading(command, so_far, seq!["--session"@, value] + rest) == options_reading(
            command,
            ArgumentsView { session: Some(value), ..so_far },
            rest,
        ),
        options_reading(command, so_far, seq!["--path"@, value] + rest) == options_reading(
            command,
            ArgumentsView { project_path: Some(value), ..so_far },
            rest,
        ),
        number_reading(value) is Ok && number_reading(value)->Ok_0 > 0 ==> options_reading(
            command,
            so_far,
            seq!["--poll-interval"@, value] + rest,
        ) == options_reading(
            command,
            ArgumentsView {
                poll_interval: Interval {
                    seconds: number_reading(value)->Ok_0 as u64,
                    nanos: 0,
                },
                ..so_far
            },
            rest,
        ),
        number_reading(value) is Err || number_reading(value)->Ok_0 == 0 ==> options_reading(
            command,
            so_far,
            seq!["--poll-interval"@, value] + rest,
        ) is Err,
        flag == "--root"@ || flag == "--project"@ || flag == "--session"@ || flag == "--path"@
            || flag == "--poll-interval"@ ==> options_reading(command, so_far, seq![flag]) is Err,
        flag != "--root"@ && flag != "--project"@ && flag != "--session"@ && flag != "--path"@
            && flag != "--poll-interval"@ && flag != "--help"@ && flag != "-h"@ ==> options_reading(
            command,
            so_far,
            seq![flag] + rest,
        ) is Err,
{
    lemma_flags_differ();
    assert((seq!["--root"@, value] + rest).skip(2) =~= rest);
    assert((seq!["--project"@, value] + rest).skip(2) =~= rest);
    assert((seq!["--session"@, value] + rest).skip(2) =~= rest);
    assert((seq!["--path"@, value] + rest).skip(2) =~= rest);
    assert((seq!["--poll-interval"@, value] + rest).skip(2) =~= rest);
}

proof fn lemma_flags_differ()
    ensures
        "--root"@ != "--help"@ && "--root"@ != "-h"@,
        "--project"@ != "--help"@ && "--project"@ != "-h"@ && "--project"@ != "--root"@,
        "--session"@ != "--help"@ && "--session"@ != "-h"@ && "--session"@ != "--root"@
            && "--session"@ != "--project"@,
        "--path"@ != "--help"@ && "--path"@ != "-h"@ && "--path"@ != "--root"@ && "--path"@
            != "--project"@ && "--path"@ != "--session"@,
        "--poll-interval"@ != "--help"@ && "--poll-interval"@ != "-h"@ && "--poll-interval"@
            != "--root"@ && "--poll-interval"@ != "--project"@ && "--poll-interval"@ != "--session"@
            && "--poll-interval"@ != "--path"@,
{
    reveal_strlit("--root");
    reveal_strlit("--help");
    reveal_strlit("-h");
    reveal_strlit("--project");
    reveal_strlit("--session");
    reveal_strlit("--path");
    reveal_strlit("--poll-interval");
    assert("--root"@.len() == 6 && "--root"@[2] == 'r');
    assert("--help"@.len() == 6 && "--help"@[2] == 'h');
    assert("-h"@.len() == 2);
    assert("--project"@.len() == 9 && "--project"@[2] == 'p');
    assert("--session"@.len() == 9 && "--session"@[2] == 's');
    assert("--path"@.len() == 6 && "--path"@[2] == 'p');
    assert("--poll-interval"@.len() == 15);
}

/// A command line without options asks to run with what the environment gives, every
/// three seconds and in the current directory.
pub proof fn law_environment_stands_without_options(
    command: &str,
    args: &Vec<String>,
    root: Option<String>,
    project: Option<String>,
    session: Option<String>,
    r: Result<Request, BoardError>,
)
    requires
        args@.len() == 1,
        call_ensures(run_command, (command, args, root, project, session), r),
    ensures
        ({
            &&& r matches Ok(Request::Run(arguments))
            &&& text_option(arguments.root) == text_option(root)
            &&& text_option(arguments.project) == text_option(project)
            &&& text_option(arguments.session) == text_option(session)
            &&& arguments.project_path is None
            &&& arguments.poll_interval.seconds == 3
            &&& arguments.poll_interval.nanos == 0
        }),
{
    assert(texts(args@).skip(1) =~= seq![]);
    assert(r is Ok);
    match r {
        Ok(Request::Run(arguments)) => {
            assert(arguments@.project_path is None);
        },
        _ => {},
    }
}

/// A command line is read by its arguments after the first, from what the environment
/// gives.
pub proof fn law_command_line_is_its_options(
    command: &str,
    args: &Vec<String>,
    root: Option<String>,
    project: Option<String>,
    session: Option<String>,
    r: Result<Request, BoardError>,
)
    requires
        args@.len() > 0,
        call_ensures(run_command, (command, args, root, project, session), r),
    ensures
        ({
            let read = options_reading(
                command@,
                ArgumentsView {
                    root: text_option(root),
                    project: text_option(project),
                    session: text_option(session),
                    project_path: None,
                    poll_interval: Interval { seconds: 3, nanos: 0 },
                },
                texts(args@).skip(1),
            );
            &&& r is Err <==> read is Err
            &&& r is Ok && r->Ok_0 is Help <==> read == Ok::<RequestView, Seq<char>>(
                RequestView::Help,
            )
            &&& r is Ok && r->Ok_0 is Run ==> read == Ok::<RequestView, Seq<char>>(
                RequestView::Run(r->Ok_0->Run_0@),
            )
        }),
{
}

/// A session needs a project and a session; its board and path are those that were given,
/// or else the nearest board and the current directory.
pub proof fn law_session_options_are_complete(
    arguments: Arguments,
    current_directory: &str,
    default_root: &str,
    r: Result<RunOptions, BoardError>,
)
    requires
        call_ensures(run_options, (arguments, current_directory, default_root), r),
    ensures
        r is Ok <==> arguments.project is Some && arguments.session is Some,
        r matches Ok(options) ==> {
            &&& options.project@ == arguments.project->Some_0@
            &&& options.session@ == arguments.session->Some_0@
            &&& options.root@ == if arguments.root is Some {
                arguments.root->Some_0@
            } else {
                default_root@
            }
            &&& options.project_path@ == if arguments.project_path is Some {
                arguments.project_path->Some_0@
            } else {
                current_directory@
            }
            &&& options.poll_interval == arguments.poll_interval
        },
{
}

/// The first argument names the mode; none, or a call for help, gives help.
pub proof fn law_first_argument_names_the_mode(args: &Vec<String>, r: Result<Mode, BoardError>)
    requires
        call_ensures(try_main, (args,), r),
    ensures
        args@.len() == 0 ==> r is Ok && r->Ok_0 is Help,
        args@.len() > 0 && (args@[0]@ == "--help"@ || args@[0]@ == "-h"@) ==> r is Ok
            && r->Ok_0 is Help,
        args@.len() > 0 && args@[0]@ == "run"@ ==> r is Ok && r->Ok_0 is Run,
        args@.len() > 0 && args@[0]@ == "mcp"@ ==> r is Ok && r->Ok_0 is Mcp,
        args@.len() > 0 && args@[0]@ == "migrate"@ ==> r is Ok && r->Ok_0 is Migrate,
        r is Err <==> args@.len() > 0 && args@[0]@ != "--help"@ && args@[0]@ != "-h"@ && args@[0]@
            != "run"@ && args@[0]@ != "mcp"@ && args@[0]@ != "migrate"@,
{
    reveal_strlit("--help");
    reveal_strlit("-h");
    reveal_strlit("run");
    reveal_strlit("mcp");
    reveal_strlit("migrate");
    assert("--help"@.len() == 6);
    assert("-h"@.len() == 2);
    assert("run"@.len() == 3 && "run"@[0] == 'r');
    assert("mcp"@.len() == 3 && "mcp"@[0] == 'm');
    assert("migrate"@.len() == 7);
}

/// A flag takes the argument after it.
pub proof fn law_flag_takes_the_next_argument(
    args: &Vec<String>,
    position: usize,
    flag: &str,
    r: Result<(String, usize), BoardError>,
)
    requires
        call_ensures(required_value, (args, position, flag), r),
    ensures
        r is Ok <==> position < args@.len(),
        r matches Ok(found) ==> found.0@ == args@[position as int]@ && found.1 == position + 1,
        r matches Err(error) ==> error.message@ == flag@ + " requires a value"@,
{
}

/// A poll waits not at all if not said otherwise and at most 30 seconds, and gives 50
/// messages if not said otherwise, at least one and at most 1000.
pub proof fn law_polls_are_bounded(timeout_ms: Option<u64>, limit: Option<usize>, r: PollBounds)
    requires
        call_ensures(poll_bounds, (timeout_ms, limit), r),
    ensures
        timeout_ms is None ==> r.timeout_ms == 0,
        timeout_ms matches Some(wanted) ==> r.timeout_ms == if wanted <= 30_000 {
            wanted
        } else {
            30_000
        },
        limit is None ==> r.limit == 50,
        limit matches Some(wanted) ==> r.limit == if wanted == 0 {
            1
        } else if wanted <= 1000 {
            wanted
        } else {
            1000
        },
{
}

/// What the tools of an agent keep: a sign of life, a group, a membership and a message
/// each in its place, and nothing else changes.
pub proof fn law_tools_keep_what_was_stored(
    touched: &mut ZboardServer,
    presence: Presence,
    creating: &mut ZboardServer,
    group: Group,
    created: GroupSummary,
    joining: &mut ZboardServer,
    membership: Membership,
    name: &str,
    joined: Result<GroupSummary, BoardError>,
    sending: &mut ZboardServer,
    message: &Message,
)
    requires
        call_ensures(ZboardServer::touch, (touched, presence), ()),
        call_ensures(ZboardServer::group_create, (creating, group), created),
        call_ensures(ZboardServer::group_join, (joining, membership, name), joined),
        call_ensures(ZboardServer::message_recorded, (sending, message), ()),
    ensures
        final(touched)@ == (ServerView {
            board: BoardView {
                presence: old(touched)@.board.presence.insert(
                    old(touched)@.agent.id,
                    presence@,
                ),
                ..old(touched)@.board
            },
            ..old(touched)@
        }),
        final(creating)@ == (ServerView {
            board: BoardView {
                groups: old(creating)@.board.groups.insert(group.name@, group@),
                ..old(creating)@.board
            },
            ..old(creating)@
        }),
        created.name@ == group.name@,
        created.created_by@ == group.created_by@,
        created.members@.len() == 0,
        final(joining)@ == (ServerView {
            board: BoardView {
                memberships: old(joining)@.board.memberships.insert(
                    (membership.group@, membership.agent@),
                ),
                ..old(joining)@.board
            },
            ..old(joining)@
        }),
        joined is Ok <==> old(joining)@.board.groups.contains_key(name@),
        final(sending)@ == (ServerView {
            board: BoardView {
                messages: old(sending)@.board.messages.insert(message.id@, message@),
                ..old(sending)@.board
            },
            ..old(sending)@
        }),
{
    assert(texts(created.members@).len() == created.members@.len());
    assert(created@.members.len() == 0);
}

/// A group that was joined is told with who created it and all of its members.
pub proof fn law_joined_group_is_told(
    server: &mut ZboardServer,
    membership: Membership,
    name: &str,
    r: Result<GroupSummary, BoardError>,
)
    requires
        call_ensures(ZboardServer::group_join, (server, membership, name), r),
        r is Ok,
        old(server)@.board.memberships.finite(),
    ensures
        r->Ok_0.name@ == old(server)@.board.groups[name@].name,
        r->Ok_0.created_by@ == old(server)@.board.groups[name@].created_by,
        ascending(texts(r->Ok_0.members@)),
        forall|who: Seq<char>| #[trigger]
            texts(r->Ok_0.members@).contains(who) <==> old(server)@.board.memberships.contains(
                (name@, who),
            ) || (name@, who) == (membership.group@, membership.agent@),
{
    lemma_members_listed(final(server)@.board.memberships, name@);
    assert(r->Ok_0@.members == texts(r->Ok_0.members@));
}

/// The tools tell the agent, the agents and the groups of the server's board.
pub proof fn law_tools_tell_of_the_board(
    server: &ZboardServer,
    now: Moment,
    who: Agent,
    agents: Vec<AgentStatus>,
    groups: Vec<GroupSummary>,
)
    requires
        on_clock(now),
        call_ensures(ZboardServer::identity, (server,), who),
        call_ensures(ZboardServer::agents_list, (server, now), agents),
        call_ensures(ZboardServer::groups_list, (server,), groups),
    ensures
        who@ == server.agent@,
        views(agents@) == statuses_of(server.board@, now),
        views(groups@) == crate::app::summaries_of(server.board@),
{
}

/// A poll first gives back what the last one gave, to be acknowledged; if that fails it is
/// kept. Then it gives the first messages of the inbox in order, as many as the limit,
/// once there are any or the time is up, and keeps them to be acknowledged by the next.
pub proof fn law_poll_gives_and_keeps_messages(
    beginning: &mut ZboardServer,
    last: Vec<Message>,
    failing: &mut ZboardServer,
    kept: Vec<Message>,
    server: &mut ZboardServer,
    limit: usize,
    time_is_up: bool,
    r: Option<Vec<Message>>,
)
    requires
        call_ensures(ZboardServer::begin_poll, (beginning,), last),
        call_ensures(ZboardServer::abandon_poll, (failing, kept), ()),
        call_ensures(ZboardServer::inbox_poll, (server, limit, time_is_up), r),
    ensures
        views(last@) == old(beginning)@.pending_ack,
        final(beginning)@ == (ServerView { pending_ack: seq![], ..old(beginning)@ }),
        final(failing)@ == (ServerView { pending_ack: views(kept@), ..old(failing)@ }),
        r is None <==> old(server)@.inbox.len() == 0 && !time_is_up,
        r is None ==> final(server)@ == old(server)@,
        r matches Some(given) ==> {
            &&& given@.len() <= limit
            &&& given@.len() == limit || final(server)@.inbox.len() == 0
            &&& views(given@) + final(server)@.inbox == old(server)@.inbox
            &&& final(server)@ == (ServerView {
                inbox: final(server)@.inbox,
                pending_ack: views(given@),
                ..old(server)@
            })
        },
{
    match r {
        Some(given) => {
            crate::laws::law_polls_lose_nothing(old(server)@, limit as nat);
            assert(views(given@).len() == given@.len());
        },
        None => {},
    }
}

/// A poll sleeps for the server's interval, or for what is left of its time.
pub proof fn law_poll_sleeps_no_longer_than_it_may(server: &ZboardServer, remaining: u128, r: u128)
    requires
        call_ensures(ZboardServer::sleep_time, (server, remaining), r),
    ensures
        ({
            let interval = server.poll_interval.seconds * 1_000_000_000
                + server.poll_interval.nanos;
            r == if interval <= remaining {
                interval
            } else {
                remaining as int
            }
        }),
{
}

/// The project of a directory is the directory's name with capital letters made small and
/// every other character that names do not have made a hyphen.
pub proof fn law_project_is_named_by_its_directory(directory: &str, r: Option<String>)
    requires
        call_ensures(derived_project, (directory,), r),
    ensures
        r is Some <==> last_name(directory@) is Some,
        r matches Some(project) ==> {
            let name = last_name(directory@)->Some_0;
            &&& project@.len() == name.len()
            &&& forall|i: int|
                0 <= i < name.len() ==> #[trigger] project@[i] == {
                    let c = name[i];
                    if ('a' <= c && c <= 'z') || ('0' <= c && c <= '9') || c == '-' || c == '_' {
                        c
                    } else if 'A' <= c && c <= 'Z' {
                        (c as u8 + 32) as char
                    } else {
                        '-'
                    }
                }
        },
{
}

/// Warnings that are logged together stand in order, with a semicolon between them.
pub proof fn law_warnings_are_joined(list: Seq<Seq<char>>, next: Seq<char>)
    ensures
        with_semicolons(seq![next]) == next,
        list.len() > 0 ==> with_semicolons(list.push(next)) == with_semicolons(list) + "; "@ + next,
{
    assert(list.push(next).drop_last() =~= list);
}

/// A board may be in a directory and in each above it, in their order.
pub proof fn law_boards_are_looked_for_upward(start: &str, r: Vec<String>, i: int)
    requires
        call_ensures(root_candidates, (start,), r),
        0 <= i < ancestors(start@).len(),
    ensures
        r@.len() == ancestors(start@).len(),
        components(r@[i]@) == components(ancestors(start@)[i]) + seq![".ai"@, "message-board"@],
{
    assert(texts(r@).len() == r@.len());
    assert(texts(r@)[i] == r@[i]@);
    lemma_board_components(ancestors(start@)[i]);
}

/// The tools check targets as they send: a group must be open to the agent, and there must
/// be recipients that are agents of the board.
pub proof fn law_tools_check_targets(
    server: &ZboardServer,
    to: &Vec<String>,
    group: &Option<String>,
    r: Result<(), BoardError>,
    state: &BoardState,
    recipients: &Vec<String>,
    checked: Result<(), BoardError>,
)
    requires
        call_ensures(ZboardServer::validate_send, (server, to, group), r),
        call_ensures(check_recipients, (state, recipients), checked),
    ensures
        r is Ok <==> may_send(server@.board, server@.agent, texts(to@), text_option(*group)),
        checked is Ok <==> forall|i: int|
            0 <= i < texts(recipients@).len() ==> state@.agents.contains_key(
                #[trigger] texts(recipients@)[i],
            ),
{
    crate::conversation_laws::lemma_no_strangers(server@.board, texts(to@));
    crate::conversation_laws::lemma_no_strangers(state@, texts(recipients@));
    assert(texts(to@).len() == to@.len());
}

/// The summary of a group has its name, who created it, and its members in order.
pub proof fn law_group_is_summed_up(state: &BoardState, group: &Group, r: GroupSummary)
    requires
        call_ensures(group_summary, (state, group), r),
        state@.memberships.finite(),
    ensures
        r.name@ == group.name@,
        r.created_by@ == group.created_by@,
        ascending(texts(r.members@)),
        forall|who: Seq<char>| #[trigger]
            texts(r.members@).contains(who) <==> state@.memberships.contains((group.name@, who)),
{
    lemma_members_listed(state@.memberships, group.name@);
    assert(r@.members == texts(r.members@));
}

} // verus!
