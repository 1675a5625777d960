//! What a round of a session comes to: from the model's reply, and what came of each of its tasks,
//! to what the model is told and when the session stops.

use vstd::prelude::*;

use crate::agent;
use crate::agent::{Log, SessionView, StepView, TaskKind, TaskView, TurnView};
use crate::blocks;
use crate::blocks::BlocksView;
use crate::chat;
use crate::chat::MessageView;
use crate::guarantees;
use crate::guarantees::Event;
use crate::order;
use crate::paths;
use crate::paths::Platform;
use crate::prompts;
use crate::text;

verus! {

/// What came of a task, as a text.
pub open spec fn report_of(outcome: Result<Seq<char>, Seq<char>>) -> Seq<char> {
    match outcome {
        Ok(s) => s,
        Err(s) => s,
    }
}

/// The task is a command whose report does not tell of success.
pub open spec fn failed(task: TaskView, outcome: Result<Seq<char>, Seq<char>>) -> bool {
    task.kind == TaskKind::Run && !text::occurs(report_of(outcome), "exit code: 0"@)
}

/// One of the commands failed, at whatever place.
pub open spec fn any_failed(
    tasks: Seq<TaskView>,
    outcomes: Seq<Result<Seq<char>, Seq<char>>>,
) -> bool {
    exists|k: int| 0 <= k < tasks.len() && failed(#[trigger] tasks[k], outcomes[k])
}

/// One of the tasks is a command.
pub open spec fn any_run(tasks: Seq<TaskView>) -> bool {
    exists|k: int| 0 <= k < tasks.len() && (#[trigger] tasks[k]).kind == TaskKind::Run
}

/// What the model is told of a task: what was done, or why not; of what was read, searched for or
/// run all that came of it.
pub open spec fn told_of(task: TaskView, outcome: Result<Seq<char>, Seq<char>>) -> Seq<char> {
    match (task.kind, outcome) {
        (TaskKind::Delete, Ok(_)) => "deleted "@ + task.target + "\n"@,
        (TaskKind::Delete, Err(e)) => "delete "@ + task.target + " ERROR: "@ + e + "\n"@,
        (TaskKind::Read, Ok(content)) => "--- "@ + task.target + " ---\n"@ + content + "\n\n"@,
        (TaskKind::Read, Err(e)) => "read "@ + task.target + " ERROR: "@ + e + "\n"@,
        (TaskKind::Search, _) => "search '"@ + task.target + "':\n"@ + report_of(outcome)
            + "\n\n"@,
        (TaskKind::Write, Ok(_)) => "wrote "@ + task.target + "\n"@,
        (TaskKind::Write, Err(e)) => "write "@ + task.target + " ERROR: "@ + e + "\n"@,
        (TaskKind::Run, _) => "$ "@ + task.target + "\n"@ + report_of(outcome) + "\n"@,
    }
}

/// The action that is noted of a task, if any is: reading, searching and running are noted
/// whatever came of them, deleting and writing where they were done.
pub open spec fn noted_of(task: TaskView, outcome: Result<Seq<char>, Seq<char>>) -> Seq<Seq<char>> {
    match (task.kind, outcome) {
        (TaskKind::Delete, Ok(_)) => seq!["🗑️ 삭제: "@ + task.target],
        (TaskKind::Read, _) => seq!["👀 읽기: "@ + task.target],
        (TaskKind::Search, _) => seq!["🔍 검색: "@ + task.target],
        (TaskKind::Write, Ok(_)) => seq!["✏️ 쓰기: "@ + task.target],
        (TaskKind::Run, _) => seq!["⚙️ 실행: "@ + task.target],
        _ => seq![],
    }
}

/// The path that a task changed, if it did.
pub open spec fn changed_by(task: TaskView, outcome: Result<Seq<char>, Seq<char>>) -> Seq<
    Seq<char>,
> {
    match (task.kind, outcome) {
        (TaskKind::Delete, Ok(_)) => seq![task.target],
        (TaskKind::Write, Ok(_)) => seq![task.target],
        _ => seq![],
    }
}

/// What the model is told of the tasks, in their order.
pub open spec fn tellings(
    tasks: Seq<TaskView>,
    outcomes: Seq<Result<Seq<char>, Seq<char>>>,
) -> Seq<char>
    decreases tasks.len(),
{
    if tasks.len() == 0 {
        seq![]
    } else {
        told_of(tasks[0], outcomes[0]) + tellings(tasks.drop_first(), outcomes.drop_first())
    }
}

/// The actions that are noted of the tasks, in their order.
pub open spec fn notes(
    tasks: Seq<TaskView>,
    outcomes: Seq<Result<Seq<char>, Seq<char>>>,
) -> Seq<Seq<char>>
    decreases tasks.len(),
{
    if tasks.len() == 0 {
        seq![]
    } else {
        noted_of(tasks[0], outcomes[0]) + notes(tasks.drop_first(), outcomes.drop_first())
    }
}

/// The paths that the tasks changed, in their order.
pub open spec fn changes(
    tasks: Seq<TaskView>,
    outcomes: Seq<Result<Seq<char>, Seq<char>>>,
) -> Seq<Seq<char>>
    decreases tasks.len(),
{
    if tasks.len() == 0 {
        seq![]
    } else {
        changed_by(tasks[0], outcomes[0]) + changes(tasks.drop_first(), outcomes.drop_first())
    }
}

/// The commands among the tasks, each with its report.
pub open spec fn signature(
    tasks: Seq<TaskView>,
    outcomes: Seq<Result<Seq<char>, Seq<char>>>,
) -> Seq<char>
    decreases tasks.len(),
{
    if tasks.len() == 0 {
        seq![]
    } else {
        let rest = signature(tasks.drop_first(), outcomes.drop_first());
        if tasks[0].kind == TaskKind::Run {
            tasks[0].target + "\n"@ + report_of(outcomes[0]) + rest
        } else {
            rest
        }
    }
}

/// The report of the last command among the tasks, and `before` where there is none.
pub open spec fn last_report(
    tasks: Seq<TaskView>,
    outcomes: Seq<Result<Seq<char>, Seq<char>>>,
    before: Seq<char>,
) -> Seq<char>
    decreases tasks.len(),
{
    if tasks.len() == 0 {
        before
    } else {
        last_report(
            tasks.drop_first(),
            outcomes.drop_first(),
            if tasks[0].kind == TaskKind::Run {
                report_of(outcomes[0])
            } else {
                before
            },
        )
    }
}

/// The log once all of `tasks` are settled.
pub open spec fn after_tasks(
    log: Log,
    tasks: Seq<TaskView>,
    outcomes: Seq<Result<Seq<char>, Seq<char>>>,
) -> Log
    decreases tasks.len(),
{
    if tasks.len() == 0 {
        log
    } else {
        after_tasks(
            agent::settle(log, tasks[0], outcomes[0]),
            tasks.drop_first(),
            outcomes.drop_first(),
        )
    }
}

/// What is logged of the tasks of a round adds up, task by task and whatever was logged before.
/// In particular the round has failed exactly where the report of one of its commands, at
/// whatever place, does not tell of success.
pub proof fn tasks_add_up(
    log: Log,
    tasks: Seq<TaskView>,
    outcomes: Seq<Result<Seq<char>, Seq<char>>>,
)
    requires
        outcomes.len() == tasks.len(),
    ensures
        after_tasks(log, tasks, outcomes) == (Log {
            actions: log.actions + notes(tasks, outcomes),
            changed: log.changed + changes(tasks, outcomes),
            feedback: log.feedback + tellings(tasks, outcomes),
            any_fail: log.any_fail || any_failed(tasks, outcomes),
            run_sig: log.run_sig + signature(tasks, outcomes),
            last_output: last_report(tasks, outcomes, log.last_output),
            ran: log.ran || any_run(tasks),
        }),
    decreases tasks.len(),
{
    let after = after_tasks(log, tasks, outcomes);
    if tasks.len() == 0 {
        assert(log.actions + notes(tasks, outcomes) =~= log.actions);
        assert(log.changed + changes(tasks, outcomes) =~= log.changed);
        assert(log.feedback + tellings(tasks, outcomes) =~= log.feedback);
        assert(log.run_sig + signature(tasks, outcomes) =~= log.run_sig);
    } else {
        let task = tasks[0];
        let outcome = outcomes[0];
        let rest = tasks.drop_first();
        let others = outcomes.drop_first();
        let next = agent::settle(log, task, outcome);
        tasks_add_up(next, rest, others);
        assert(next.actions =~= log.actions + noted_of(task, outcome));
        assert(next.changed =~= log.changed + changed_by(task, outcome));
        assert(next.feedback =~= log.feedback + told_of(task, outcome));
        assert(after.actions =~= log.actions + notes(tasks, outcomes));
        assert(after.changed =~= log.changed + changes(tasks, outcomes));
        assert(after.feedback =~= log.feedback + tellings(tasks, outcomes));
        assert(after.run_sig =~= log.run_sig + signature(tasks, outcomes));
        lemma_first_of_any(tasks, outcomes);
        assert(next.any_fail == (log.any_fail || failed(task, outcome)));
        assert(next.ran == (log.ran || task.kind == TaskKind::Run));
    }
}

proof fn lemma_first_of_any(
    tasks: Seq<TaskView>,
    outcomes: Seq<Result<Seq<char>, Seq<char>>>,
)
    requires
        outcomes.len() == tasks.len(),
        tasks.len() > 0,
    ensures
        any_failed(tasks, outcomes) <==> failed(tasks[0], outcomes[0]) || any_failed(
            tasks.drop_first(),
            outcomes.drop_first(),
        ),
        any_run(tasks) <==> tasks[0].kind == TaskKind::Run || any_run(tasks.drop_first()),
{
    let rest = tasks.drop_first();
    let others = outcomes.drop_first();
    if any_failed(tasks, outcomes) {
        let k = choose|k: int| 0 <= k < tasks.len() && failed(#[trigger] tasks[k], outcomes[k]);
        if k > 0 {
            assert(rest[k - 1] == tasks[k]);
            assert(failed(rest[k - 1], others[k - 1]));
        }
    }
    if any_failed(rest, others) {
        let k = choose|k: int| 0 <= k < rest.len() && failed(#[trigger] rest[k], others[k]);
        assert(failed(tasks[k + 1], outcomes[k + 1]));
    }
    if any_run(tasks) {
        let k = choose|k: int|
            0 <= k < tasks.len() && (#[trigger] tasks[k]).kind == TaskKind::Run;
        if k > 0 {
            assert(rest[k - 1] == tasks[k]);
        }
    }
    if any_run(rest) {
        let k = choose|k: int| 0 <= k < rest.len() && (#[trigger] rest[k]).kind == TaskKind::Run;
        assert(tasks[k + 1] == rest[k]);
    }
}

/// What the session is handed of `outcomes`: those of the tasks that are not refused.
pub open spec fn handed_over(
    platform: Platform,
    tasks: Seq<TaskView>,
    outcomes: Seq<Result<Seq<char>, Seq<char>>>,
) -> Seq<Event>
    decreases tasks.len(),
{
    if tasks.len() == 0 {
        seq![]
    } else {
        let rest = handed_over(platform, tasks.drop_first(), outcomes.drop_first());
        if agent::step_of(platform, tasks[0]) is Ok {
            seq![Event::Outcome(outcomes[0])] + rest
        } else {
            rest
        }
    }
}

/// There is an outcome for each task, which for one that is refused is the reason.
pub open spec fn outcomes_fit(
    platform: Platform,
    tasks: Seq<TaskView>,
    outcomes: Seq<Result<Seq<char>, Seq<char>>>,
) -> bool {
    &&& outcomes.len() == tasks.len()
    &&& forall|k: int|
        0 <= k < tasks.len() ==> (agent::step_of(platform, #[trigger] tasks[k]) matches Err(e)
            ==> outcomes[k] == Err::<Seq<char>, Seq<char>>(e))
}

/// A turn that is driven on with `events`.
pub open spec fn resumed(turn: TurnView, events: Seq<Event>) -> TurnView {
    match turn {
        TurnView::Next(next, step) => guarantees::after_events(next, step, events),
        TurnView::Finished(result) => TurnView::Finished(result),
    }
}

proof fn lemma_outcome_drives_on(
    s: SessionView,
    step: StepView,
    outcome: Result<Seq<char>, Seq<char>>,
    events: Seq<Event>,
)
    ensures
        guarantees::after_events(s, step, seq![Event::Outcome(outcome)] + events) == resumed(
            agent::perform(agent::settled(s, outcome)),
            events,
        ),
{
    let all = seq![Event::Outcome(outcome)] + events;
    assert(all[0] == Event::Outcome(outcome));
    assert(all.drop_first() =~= events);
    assert(guarantees::after_event(s, all[0]) == agent::perform(agent::settled(s, outcome)));
}

proof fn lemma_refusal_is_settled(s: SessionView, e: Seq<char>)
    requires
        s.pending.len() > 0,
        agent::step_of(s.platform, s.pending[0]) == Err::<StepView, Seq<char>>(e),
    ensures
        agent::perform(s) == agent::perform(agent::settled(s, Err(e))),
{
}

proof fn lemma_rounds_play_out(
    s: SessionView,
    outcomes: Seq<Result<Seq<char>, Seq<char>>>,
)
    requires
        outcomes_fit(s.platform, s.pending, outcomes),
    ensures
        resumed(agent::perform(s), handed_over(s.platform, s.pending, outcomes))
            == agent::end_round(
            SessionView {
                log: after_tasks(s.log, s.pending, outcomes),
                pending: seq![],
                ..s
            },
        ),
    decreases s.pending.len(),
{
    if s.pending.len() == 0 {
        lemma_empty_round(s, outcomes);
    } else {
        let later = agent::settled(s, outcomes[0]);
        let others = outcomes.drop_first();
        let rest = s.pending.drop_first();
        assert forall|k: int| 0 <= k < rest.len() implies (agent::step_of(
            s.platform,
            #[trigger] rest[k],
        ) matches Err(e) ==> others[k] == Err::<Seq<char>, Seq<char>>(e)) by {
            assert(rest[k] == s.pending[k + 1]);
        }
        assert(later.platform == s.platform && later.pending == rest);
        lemma_rounds_play_out(later, others);
        lemma_round_steps(s, outcomes);
    }
}

proof fn lemma_empty_round(s: SessionView, outcomes: Seq<Result<Seq<char>, Seq<char>>>)
    requires
        s.pending.len() == 0,
    ensures
        resumed(agent::perform(s), handed_over(s.platform, s.pending, outcomes))
            == agent::end_round(
            SessionView {
                log: after_tasks(s.log, s.pending, outcomes),
                pending: seq![],
                ..s
            },
        ),
{
    let e = SessionView {
        log: after_tasks(s.log, s.pending, outcomes),
        pending: seq![],
        ..s
    };
    assert(s.pending =~= seq![]);
    assert(e == s);
    assert(agent::perform(s) == agent::end_round(s));
    let turn = agent::end_round(s);
    match turn {
        TurnView::Next(next, step) => {
            assert(guarantees::after_events(next, step, seq![]) == turn);
        },
        TurnView::Finished(result) => {},
    }
}

/// One step of a round leads to the same as the whole: the rest of it.
proof fn lemma_round_steps(s: SessionView, outcomes: Seq<Result<Seq<char>, Seq<char>>>)
    requires
        s.pending.len() > 0,
        outcomes_fit(s.platform, s.pending, outcomes),
    ensures
        resumed(agent::perform(s), handed_over(s.platform, s.pending, outcomes)) == resumed(
            agent::perform(agent::settled(s, outcomes[0])),
            handed_over(s.platform, s.pending.drop_first(), outcomes.drop_first()),
        ),
{
    let rest = handed_over(s.platform, s.pending.drop_first(), outcomes.drop_first());
    match agent::step_of(s.platform, s.pending[0]) {
        Ok(step) => {
            lemma_outcome_drives_on(s, step, outcomes[0], rest);
        },
        Err(e) => {
            assert(outcomes[0] == Err::<Seq<char>, Seq<char>>(e));
            lemma_refusal_is_settled(s, e);
        },
    }
}

/// The model's reply asks for these tasks: deletions, then reads, searches, writes and commands,
/// each in the order of the reply, and every one of them.
pub proof fn every_request_is_a_task(b: BlocksView, k: int)
    ensures
        ({
            let tasks = agent::round_tasks(b);
            let r = b.deletes.len() as int;
            let q = r + b.reads.len();
            let w = q + b.searches.len();
            let c = w + b.files.len();
            &&& tasks.len() == c + b.runs.len()
            &&& 0 <= k < r ==> tasks[k].kind == TaskKind::Delete && tasks[k].target == b.deletes[k]
            &&& r <= k < q ==> tasks[k].kind == TaskKind::Read && tasks[k].target == b.reads[k - r]
            &&& q <= k < w ==> tasks[k].kind == TaskKind::Search && tasks[k].target
                == b.searches[k - q]
            &&& w <= k < c ==> tasks[k].kind == TaskKind::Write && (
            tasks[k].target,
            tasks[k].content,
            ) == b.files[k - w]
            &&& c <= k < tasks.len() ==> tasks[k].kind == TaskKind::Run && tasks[k].target
                == b.runs[k - c]
        }),
{
}

/// A task is performed by a step that carries all of it: what is searched for or run is handed on
/// whole, what is written with all of its content, and a path is followed along its names; one
/// that is refused is the only task without a step.
pub proof fn steps_carry_their_task(platform: Platform, task: TaskView)
    ensures
        match (task.kind, paths::relative_names(platform, task.target)) {
            (TaskKind::Search, _) => agent::step_of(platform, task) == Ok::<StepView, Seq<char>>(
                StepView::Search(task.target),
            ),
            (TaskKind::Run, _) => agent::step_of(platform, task) == Ok::<StepView, Seq<char>>(
                StepView::Run(task.target),
            ),
            (TaskKind::Delete, Ok(names)) => agent::step_of(platform, task) == Ok::<
                StepView,
                Seq<char>,
            >(StepView::Delete(names)),
            (TaskKind::Read, Ok(names)) => agent::step_of(platform, task) == Ok::<
                StepView,
                Seq<char>,
            >(StepView::Read(names)),
            (TaskKind::Write, Ok(names)) => agent::step_of(platform, task) == Ok::<
                StepView,
                Seq<char>,
            >(StepView::Write(names, task.content)),
            (_, Err(e)) => agent::step_of(platform, task) == Err::<StepView, Seq<char>>(e),
        },
{
}

proof fn lemma_runs_are_tasks(b: BlocksView)
    ensures
        any_run(agent::round_tasks(b)) <==> b.runs.len() > 0,
{
    let tasks = agent::round_tasks(b);
    every_request_is_a_task(b, 0);
    if b.runs.len() > 0 {
        let k = (tasks.len() - 1) as int;
        every_request_is_a_task(b, k);
        assert(tasks[k].kind == TaskKind::Run);
    }
    if any_run(tasks) {
        let k = choose|k: int|
            0 <= k < tasks.len() && (#[trigger] tasks[k]).kind == TaskKind::Run;
        every_request_is_a_task(b, k);
    }
}

/// Where a session stands once it was handed `reply`, and then what came of each task of it that
/// was not refused.
pub open spec fn after_round(
    s: SessionView,
    reply: Seq<char>,
    outcomes: Seq<Result<Seq<char>, Seq<char>>>,
) -> TurnView {
    guarantees::after_events(
        s,
        StepView::Ask,
        seq![Event::Reply(reply)] + handed_over(
            s.platform,
            agent::round_tasks(blocks::requested(reply)),
            outcomes,
        ),
    )
}

/// What a round comes to. The model is told of every task, in order, and given advice: where a
/// command failed, whichever it was, that one failed, or that the round failed just as the one
/// before it; where no command ran, how to go on. The same failure for the third time in a row
/// stops the session with the report of the last command, and so does the last round.
pub proof fn rounds_tell_and_stop(
    s: SessionView,
    reply: Seq<char>,
    outcomes: Seq<Result<Seq<char>, Seq<char>>>,
)
    requires
        s.repeats >= 0,
        blocks::requested(reply) != BlocksView::none(),
        outcomes_fit(s.platform, agent::round_tasks(blocks::requested(reply)), outcomes),
    ensures
        ({
            let b = blocks::requested(reply);
            let tasks = agent::round_tasks(b);
            let sig = signature(tasks, outcomes);
            let fails = any_failed(tasks, outcomes);
            let same = fails && sig == s.last_run_sig;
            let actions = s.log.actions + notes(tasks, outcomes);
            let changed = s.log.changed + changes(tasks, outcomes);
            let told = tellings(tasks, outcomes) + (if same {
                prompts::SAME_FAILURE@
            } else if fails {
                prompts::COMMAND_FAILED@
            } else if b.runs.len() == 0 {
                prompts::NOTHING_RAN@
            } else {
                seq![]
            });
            match after_round(s, reply, outcomes) {
                TurnView::Next(next, step) => {
                    &&& !(same && s.repeats >= 2)
                    &&& s.rounds < 24
                    &&& step is Ask
                    &&& next.convo == s.convo.push(chat::message("assistant"@, reply)).push(
                        chat::message("user"@, told),
                    )
                    &&& next.log.actions == actions
                    &&& next.log.changed == changed
                    &&& next.last_run_sig == sig
                    &&& next.repeats == (if same {
                        s.repeats + 1
                    } else {
                        0
                    })
                    &&& next.rounds == s.rounds + 1
                    &&& next.retries == s.retries
                    &&& next.temperature == s.temperature
                },
                TurnView::Finished(result) => {
                    &&& result.actions == actions
                    &&& forall|path: Seq<char>| #[trigger]
                        result.changed.contains(path) <==> changed.contains(path)
                    &&& result.reply == (if same && s.repeats >= 2 {
                        prompts::STUCK_BEFORE@ + last_report(tasks, outcomes, seq![])
                            + prompts::STUCK_BEHIND@
                    } else {
                        prompts::TOO_MANY_ROUNDS@
                    })
                    &&& (same && s.repeats >= 2) || s.rounds >= 24
                },
            }
        }),
{
    let tasks = agent::round_tasks(blocks::requested(reply));
    lemma_after_round(s, reply, outcomes);
    lemma_runs_are_tasks(blocks::requested(reply));
    lemma_failed_rounds_have_a_signature(tasks, outcomes);
    lemma_end_of_round(round_end(s, reply, outcomes));
}

/// The session at the end of the round, before anything is decided.
spec fn round_end(
    s: SessionView,
    reply: Seq<char>,
    outcomes: Seq<Result<Seq<char>, Seq<char>>>,
) -> SessionView {
    let tasks = agent::round_tasks(blocks::requested(reply));
    SessionView {
        convo: s.convo.push(chat::message("assistant"@, reply)),
        log: Log {
            actions: s.log.actions + notes(tasks, outcomes),
            changed: s.log.changed + changes(tasks, outcomes),
            feedback: tellings(tasks, outcomes),
            any_fail: any_failed(tasks, outcomes),
            run_sig: signature(tasks, outcomes),
            last_output: last_report(tasks, outcomes, seq![]),
            ran: any_run(tasks),
        },
        pending: seq![],
        ..s
    }
}

proof fn lemma_after_round(
    s: SessionView,
    reply: Seq<char>,
    outcomes: Seq<Result<Seq<char>, Seq<char>>>,
)
    requires
        blocks::requested(reply) != BlocksView::none(),
        outcomes_fit(s.platform, agent::round_tasks(blocks::requested(reply)), outcomes),
    ensures
        after_round(s, reply, outcomes) == agent::end_round(round_end(s, reply, outcomes)),
{
    let tasks = agent::round_tasks(blocks::requested(reply));
    let log = agent::fresh(s.log);
    let round = SessionView { log, pending: tasks, ..agent::told(s, reply) };
    let events = handed_over(s.platform, tasks, outcomes);
    let all = seq![Event::Reply(reply)] + events;
    let none = Seq::<char>::empty();
    lemma_rounds_play_out(round, outcomes);
    assert(all[0] == Event::Reply(reply));
    assert(all.drop_first() =~= events);
    assert(guarantees::after_event(s, all[0]) == agent::perform(round));
    tasks_add_up(log, tasks, outcomes);
    let end = SessionView { log: after_tasks(log, tasks, outcomes), pending: seq![], ..round };
    assert(none + tellings(tasks, outcomes) =~= tellings(tasks, outcomes));
    assert(none + signature(tasks, outcomes) =~= signature(tasks, outcomes));
    assert(end == round_end(s, reply, outcomes));
}

proof fn lemma_end_of_round(e: SessionView)
    requires
        e.log.any_fail ==> e.log.ran,
        e.log.ran ==> e.log.run_sig.len() > 0,
    ensures
        ({
            let same = e.log.any_fail && e.log.run_sig == e.last_run_sig;
            let told = e.log.feedback + (if same {
                prompts::SAME_FAILURE@
            } else if e.log.any_fail {
                prompts::COMMAND_FAILED@
            } else if !e.log.ran {
                prompts::NOTHING_RAN@
            } else {
                seq![]
            });
            match agent::end_round(e) {
                TurnView::Next(next, step) => {
                    &&& !(same && e.repeats >= 2)
                    &&& e.rounds < 24
                    &&& step is Ask
                    &&& e.repeats >= 0 ==> next.convo == e.convo.push(
                        chat::message("user"@, told),
                    )
                    &&& next.log.actions == e.log.actions
                    &&& next.log.changed == e.log.changed
                    &&& next.last_run_sig == e.log.run_sig
                    &&& next.repeats == (if same {
                        e.repeats + 1
                    } else {
                        0
                    })
                    &&& next.rounds == e.rounds + 1
                    &&& next.retries == e.retries
                    &&& next.temperature == e.temperature
                },
                TurnView::Finished(result) => {
                    &&& result.actions == e.log.actions
                    &&& forall|path: Seq<char>| #[trigger]
                        result.changed.contains(path) <==> e.log.changed.contains(path)
                    &&& result.reply == (if same && e.repeats >= 2 {
                        prompts::STUCK_BEFORE@ + e.log.last_output + prompts::STUCK_BEHIND@
                    } else {
                        prompts::TOO_MANY_ROUNDS@
                    })
                    &&& (same && e.repeats >= 2) || e.rounds >= 24
                },
            }
        }),
{
    order::distinct_in_order_is_the_sorted_set(e.log.changed);
}

proof fn lemma_failed_rounds_have_a_signature(
    tasks: Seq<TaskView>,
    outcomes: Seq<Result<Seq<char>, Seq<char>>>,
)
    requires
        outcomes.len() == tasks.len(),
    ensures
        any_run(tasks) <==> signature(tasks, outcomes).len() > 0,
        any_failed(tasks, outcomes) ==> any_run(tasks),
    decreases tasks.len(),
{
    reveal_strlit("\n");
    if tasks.len() > 0 {
        lemma_first_of_any(tasks, outcomes);
        lemma_failed_rounds_have_a_signature(tasks.drop_first(), outcomes.drop_first());
    }
}

/// Rounds of the same commands with the same reports are told apart by nothing else: whatever
/// other tasks they hold, they count as the same.
pub proof fn the_same_commands_and_reports_count_as_the_same(
    tasks: Seq<TaskView>,
    outcomes: Seq<Result<Seq<char>, Seq<char>>>,
    task: TaskView,
    outcome: Result<Seq<char>, Seq<char>>,
)
    requires
        outcomes.len() == tasks.len(),
    ensures
        task.kind != TaskKind::Run ==> signature(seq![task] + tasks, seq![outcome] + outcomes)
            == signature(tasks, outcomes),
        task.kind == TaskKind::Run ==> signature(seq![task] + tasks, seq![outcome] + outcomes)
            == task.target + "\n"@ + report_of(outcome) + signature(tasks, outcomes),
{
    assert((seq![task] + tasks).drop_first() =~= tasks);
    assert((seq![outcome] + outcomes).drop_first() =~= outcomes);
}

/// A reply that refuses or gives up says one of these phrases, anywhere in it.
pub proof fn giving_up_is_said_by_these_phrases(reply: Seq<char>, lower: Seq<char>)
    ensures
        agent::is_giving_up(reply, lower) <==> {
            ||| exists|phrase: Seq<char>| #[trigger]
                text::occurs(lower, phrase) && seq![
                    "cannot"@,
                    "can't"@,
                    "unable"@,
                    "impossible"@,
                    "not possible"@,
                    "i'm sorry"@,
                    "i am sorry"@,
                ].contains(phrase)
            ||| exists|phrase: Seq<char>| #[trigger]
                text::occurs(reply, phrase) && seq![
                    "안 됩니다"@,
                    "안됩니다"@,
                    "할 수 없"@,
                    "불가능"@,
                    "죄송"@,
                    "못 하"@,
                    "못합니다"@,
                    "안돼"@,
                    "안 돼"@,
                    "어렵습니다"@,
                ].contains(phrase)
        },
{
    let a = seq![
        "cannot"@,
        "can't"@,
        "unable"@,
        "impossible"@,
        "not possible"@,
        "i'm sorry"@,
        "i am sorry"@,
    ];
    let b = seq![
        "안 됩니다"@,
        "안됩니다"@,
        "할 수 없"@,
        "불가능"@,
        "죄송"@,
        "못 하"@,
        "못합니다"@,
        "안돼"@,
        "안 돼"@,
        "어렵습니다"@,
    ];
    assert(a[0] == "cannot"@ && a[1] == "can't"@ && a[2] == "unable"@ && a[3] == "impossible"@);
    assert(a[4] == "not possible"@ && a[5] == "i'm sorry"@ && a[6] == "i am sorry"@);
    assert(b[0] == "안 됩니다"@ && b[1] == "안됩니다"@ && b[2] == "할 수 없"@ && b[3] == "불가능"@);
    assert(b[4] == "죄송"@ && b[5] == "못 하"@ && b[6] == "못합니다"@ && b[7] == "안돼"@);
    assert(b[8] == "안 돼"@ && b[9] == "어렵습니다"@);
}

/// What gives up still gives up with more said around it.
pub proof fn more_words_do_not_take_back_giving_up(
    reply: Seq<char>,
    lower: Seq<char>,
    before: Seq<char>,
    behind: Seq<char>,
    lower_before: Seq<char>,
    lower_behind: Seq<char>,
)
    requires
        agent::is_giving_up(reply, lower),
    ensures
        agent::is_giving_up(before + reply + behind, lower_before + lower + lower_behind),
{
    let r = before + reply + behind;
    let l = lower_before + lower + lower_behind;
    assert forall|part: Seq<char>| #[trigger] text::occurs(lower, part) implies text::occurs(
        l,
        part,
    ) by {
        text::parts_occur_in_longer_texts(lower_before, lower, lower_behind, part);
    }
    assert forall|part: Seq<char>| #[trigger] text::occurs(reply, part) implies text::occurs(
        r,
        part,
    ) by {
        text::parts_occur_in_longer_texts(before, reply, behind, part);
    }
}

/// A reply that asks for nothing is taken as the end of the task, with that reply, unless the
/// model is to be pushed on: up to three times, where it has done nothing yet or gives up. Then it
/// is told to keep trying, and replies more freely from then on.
pub proof fn replies_that_ask_for_nothing_end_or_are_pushed(s: SessionView, reply: Seq<char>)
    requires
        blocks::requested(reply) == BlocksView::none(),
    ensures
        ({
            let pushed = s.retries < 3 && (s.log.actions.len() == 0 || agent::is_giving_up(
                reply,
                text::lowercase(reply),
            ));
            match agent::after_reply(s, reply) {
                TurnView::Next(next, step) => {
                    &&& pushed && s.rounds < 24
                    &&& step is Ask
                    &&& next.convo == s.convo.push(chat::message("assistant"@, reply)).push(
                        chat::message("user"@, prompts::KEEP_TRYING@),
                    )
                    &&& next.retries == s.retries + 1
                    &&& next.temperature == agent::Temperature::Varied
                    &&& next.rounds == s.rounds + 1
                    &&& next.log == s.log
                    &&& next.repeats == s.repeats
                    &&& next.last_run_sig == s.last_run_sig
                },
                TurnView::Finished(result) => {
                    &&& !pushed || s.rounds >= 24
                    &&& result.reply == (if pushed {
                        prompts::TOO_MANY_ROUNDS@
                    } else {
                        reply
                    })
                    &&& result.actions == s.log.actions
                    &&& forall|path: Seq<char>| #[trigger]
                        result.changed.contains(path) <==> s.log.changed.contains(path)
                },
            }
        }),
{
    order::distinct_in_order_is_the_sorted_set(s.log.changed);
}

/// A session begins with what the model is to do, then the project's file list and the snapshot,
/// each whole and where it is not blank, and then all that the user said, in order.
pub proof fn sessions_begin_with_the_project(
    platform: Platform,
    tree: Seq<char>,
    snapshot: Seq<char>,
    user: Seq<MessageView>,
)
    ensures
        ({
            let intro = agent::introduction(tree, snapshot);
            let convo = agent::start_view(platform, intro + user).convo;
            let files: int = if text::is_blank(tree) {
                0
            } else {
                1
            };
            let contents: int = if text::is_blank(snapshot) {
                0
            } else {
                1
            };
            &&& convo.len() == 1 + files + contents + user.len()
            &&& convo[0] == chat::message("system"@, prompts::AGENT_SYSTEM@)
            &&& files == 1 ==> convo[1] == chat::message("system"@, prompts::TREE_INTRO@ + tree)
            &&& contents == 1 ==> convo[1 + files] == chat::message(
                "system"@,
                prompts::SNAPSHOT_INTRO@ + snapshot,
            )
            &&& convo.skip(1 + files + contents) == user
        }),
{
    let intro = agent::introduction(tree, snapshot);
    lemma_blank_is_trimmed_away(tree);
    lemma_blank_is_trimmed_away(snapshot);
    assert((intro + user).skip(intro.len() as int) =~= user);
}

proof fn lemma_blank_is_trimmed_away(s: Seq<char>)
    ensures
        text::is_blank(s) <==> text::trim(s).len() == 0,
{
    if text::is_blank(s) {
        text::trimming_takes_off_white_space(s, seq![], seq![]);
        assert(s + seq![] + seq![] =~= s);
    } else {
        let i = choose|i: int| 0 <= i < s.len() && !text::is_white_space(#[trigger] s[i]);
        text::lemma_trim_keeps_what_is_no_white_space(s, i);
    }
}

} // verus!
