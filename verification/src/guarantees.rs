//! What holds of every session, whatever the model replies and whatever comes of its tasks.

use vstd::prelude::*;

use crate::agent;
use crate::agent::{Log, ResultView, SessionView, StepView, TaskKind, TaskView, TurnView};
use crate::blocks;
use crate::blocks::BlocksView;
use crate::clip;
use crate::number;
use crate::order;
use crate::paths;
use crate::paths::Platform;
use crate::prompts;
use crate::shell;
use crate::text;

verus! {

/// `next` says all that `before` says, in the same order, and maybe more.
pub open spec fn extends<T>(before: Seq<T>, next: Seq<T>) -> bool {
    before.len() <= next.len() && next.take(before.len() as int) == before
}

/// Every path of `changed` is one that is accepted.
pub open spec fn all_accepted(platform: Platform, changed: Seq<Seq<char>>) -> bool {
    forall|i: int|
        0 <= i < changed.len() ==> paths::relative_names(platform, #[trigger] changed[i]) is Ok
}

/// What holds of the turn that follows `s`: the limits are kept, the conversation and the list of
/// actions are only added to, only accepted paths were changed, and the session comes closer to
/// its end.
pub open spec fn goes_on_well(s: SessionView, turn: TurnView) -> bool {
    match turn {
        TurnView::Next(next, step) => {
            &&& next.wf()
            &&& next.platform == s.platform
            &&& extends(s.convo, next.convo)
            &&& extends(s.log.actions, next.log.actions)
            &&& all_accepted(next.platform, next.log.changed)
            &&& (step is Ask ==> next.rounds == s.rounds + 1 && next.awaits_reply())
            &&& (!(step is Ask) ==> {
                &&& next.rounds == s.rounds
                &&& next.awaits_outcome()
                &&& agent::step_of(next.platform, next.pending[0]) == Ok::<StepView, Seq<char>>(
                    step,
                )
            })
        },
        TurnView::Finished(result) => {
            &&& extends(s.log.actions, result.actions)
            &&& all_accepted(s.platform, result.changed)
            &&& rises_strictly(result.changed)
        },
    }
}

/// Each text of `s` comes before the next one, and no two are equal.
pub open spec fn rises_strictly(s: Seq<Seq<char>>) -> bool {
    forall|i: int, j: int|
        0 <= i < j < s.len() ==> order::at_most(#[trigger] s[i], #[trigger] s[j]) && s[i] != s[j]
}

proof fn lemma_extends_push<T>(before: Seq<T>, next: Seq<T>, x: T)
    requires
        extends(before, next),
    ensures
        extends(before, next.push(x)),
{
    assert(next.push(x).take(before.len() as int) =~= next.take(before.len() as int));
}

proof fn lemma_extends_itself<T>(s: Seq<T>)
    ensures
        extends(s, s),
{
    assert(s.take(s.len() as int) =~= s);
}

proof fn lemma_extends_further<T>(a: Seq<T>, b: Seq<T>, c: Seq<T>)
    requires
        extends(a, b),
        extends(b, c),
    ensures
        extends(a, c),
{
    assert(c.take(a.len() as int) =~= c.take(b.len() as int).take(a.len() as int));
}

proof fn lemma_finished(s: SessionView, reply: Seq<char>)
    requires
        all_accepted(s.platform, s.log.changed),
    ensures
        goes_on_well(s, agent::finished(s.log, reply)),
{
    let changed = order::distinct_in_order(s.log.changed);
    order::distinct_in_order_is_the_sorted_set(s.log.changed);
    lemma_extends_itself(s.log.actions);
    assert forall|i: int| 0 <= i < changed.len() implies paths::relative_names(
        s.platform,
        #[trigger] changed[i],
    ) is Ok by {
        assert(changed.contains(changed[i]));
        assert(s.log.changed.contains(changed[i]));
        let k = choose|k: int| 0 <= k < s.log.changed.len() && s.log.changed[k] == changed[i];
        assert(paths::relative_names(s.platform, s.log.changed[k]) is Ok);
    }
}

proof fn lemma_next_round(s: SessionView)
    requires
        s.wf(),
        s.awaits_reply(),
        all_accepted(s.platform, s.log.changed),
    ensures
        goes_on_well(s, agent::next_round(s)),
{
    lemma_finished(s, prompts::TOO_MANY_ROUNDS@);
    lemma_extends_itself(s.convo);
    lemma_extends_itself(s.log.actions);
}

/// A turn that goes on well from a later state goes on well from an earlier one of the same round.
proof fn lemma_goes_on_well_before(s: SessionView, later: SessionView, turn: TurnView)
    requires
        goes_on_well(later, turn),
        later.platform == s.platform,
        later.rounds == s.rounds,
        extends(s.convo, later.convo),
        extends(s.log.actions, later.log.actions),
    ensures
        goes_on_well(s, turn),
{
    match turn {
        TurnView::Next(next, step) => {
            lemma_extends_further(s.convo, later.convo, next.convo);
            lemma_extends_further(s.log.actions, later.log.actions, next.log.actions);
        },
        TurnView::Finished(result) => {
            lemma_extends_further(s.log.actions, later.log.actions, result.actions);
        },
    }
}

proof fn lemma_end_round(s: SessionView)
    requires
        s.wf(),
        s.pending.len() == 0,
        all_accepted(s.platform, s.log.changed),
    ensures
        goes_on_well(s, agent::end_round(s)),
{
    let repeats: int = if agent::is_repeat(s) {
        s.repeats + 1
    } else {
        0
    };
    if repeats >= agent::MAX_REPEATS {
        lemma_finished(
            s,
            prompts::STUCK_BEFORE@ + s.log.last_output + prompts::STUCK_BEHIND@,
        );
    } else {
        let feedback = s.log.feedback + agent::advice(s.log, repeats);
        let later = SessionView {
            convo: s.convo.push(crate::chat::message("user"@, feedback)),
            log: Log { feedback, ..s.log },
            last_run_sig: s.log.run_sig,
            repeats,
            ..s
        };
        lemma_next_round(later);
        lemma_extends_itself(s.convo);
        lemma_extends_push(s.convo, s.convo, crate::chat::message("user"@, feedback));
        lemma_extends_itself(s.log.actions);
        lemma_goes_on_well_before(s, later, agent::next_round(later));
    }
}

/// Settling a task adds to the actions, and changes a path only where the task acted on it.
proof fn lemma_settle(
    platform: Platform,
    log: Log,
    task: TaskView,
    outcome: Result<Seq<char>, Seq<char>>,
)
    requires
        all_accepted(platform, log.changed),
        outcome is Ok && agent::has_path(task.kind) ==> paths::relative_names(
            platform,
            task.target,
        ) is Ok,
    ensures
        extends(log.actions, agent::settle(log, task, outcome).actions),
        all_accepted(platform, agent::settle(log, task, outcome).changed),
{
    lemma_extends_itself(log.actions);
    let after = agent::settle(log, task, outcome);
    if after.actions != log.actions {
        lemma_extends_push(log.actions, log.actions, after.actions.last());
    }
    assert forall|i: int| 0 <= i < after.changed.len() implies paths::relative_names(
        platform,
        #[trigger] after.changed[i],
    ) is Ok by {
        if i < log.changed.len() {
            assert(after.changed[i] == log.changed[i]);
        }
    }
}

proof fn lemma_perform(s: SessionView)
    requires
        s.wf(),
        all_accepted(s.platform, s.log.changed),
    ensures
        goes_on_well(s, agent::perform(s)),
    decreases s.pending.len(),
{
    if s.pending.len() == 0 {
        lemma_end_round(s);
    } else {
        match agent::step_of(s.platform, s.pending[0]) {
            Ok(step) => {
                lemma_extends_itself(s.convo);
                lemma_extends_itself(s.log.actions);
            },
            Err(e) => {
                let refused = Err::<Seq<char>, Seq<char>>(e);
                let later = agent::settled(s, refused);
                lemma_settle(s.platform, s.log, s.pending[0], refused);
                lemma_perform(later);
                lemma_extends_itself(s.convo);
                lemma_goes_on_well_before(s, later, agent::perform(later));
            },
        }
    }
}

/// Whatever comes of a step, the session goes on well, and where it does not ask for a reply, it
/// has fewer tasks to do than before.
pub proof fn outcomes_lead_on(s: SessionView, outcome: Result<Seq<char>, Seq<char>>)
    requires
        s.wf(),
        s.awaits_outcome(),
        all_accepted(s.platform, s.log.changed),
    ensures
        goes_on_well(s, agent::after_outcome(s, outcome)),
        agent::after_outcome(s, outcome) matches TurnView::Next(next, step) ==> !(step is Ask)
            ==> next.pending.len() < s.pending.len(),
{
    let later = agent::settled(s, outcome);
    lemma_settle(s.platform, s.log, s.pending[0], outcome);
    lemma_perform(later);
    lemma_perform_shortens(later);
    lemma_extends_itself(s.convo);
    lemma_goes_on_well_before(s, later, agent::perform(later));
}

proof fn lemma_perform_shortens(s: SessionView)
    ensures
        agent::perform(s) matches TurnView::Next(next, step) ==> next.pending.len()
            <= s.pending.len(),
    decreases s.pending.len(),
{
    if s.pending.len() > 0 {
        match agent::step_of(s.platform, s.pending[0]) {
            Ok(step) => {},
            Err(e) => {
                lemma_perform_shortens(agent::settled(s, Err(e)));
            },
        }
    }
}

/// Whatever the model replies, the session goes on well. As every reply ends in a round of its
/// own and rounds are limited, no session takes more replies than the limit allows.
pub proof fn replies_lead_on(s: SessionView, reply: Seq<char>)
    requires
        s.wf(),
        s.awaits_reply(),
        all_accepted(s.platform, s.log.changed),
    ensures
        goes_on_well(s, agent::after_reply(s, reply)),
{
    let told = agent::told(s, reply);
    let requested = blocks::requested(reply);
    let turn = agent::after_reply(s, reply);
    lemma_extends_itself(s.convo);
    lemma_extends_push(s.convo, s.convo, crate::chat::message("assistant"@, reply));
    lemma_extends_itself(s.log.actions);
    if requested == BlocksView::none() {
        let gave_up = agent::is_giving_up(reply, text::lowercase(reply));
        if s.retries < agent::MAX_RETRIES && (s.log.actions.len() == 0 || gave_up) {
            let later = SessionView {
                convo: told.convo.push(crate::chat::message("user"@, prompts::KEEP_TRYING@)),
                retries: s.retries + 1,
                temperature: agent::Temperature::Varied,
                ..told
            };
            lemma_next_round(later);
            lemma_extends_push(
                s.convo,
                told.convo,
                crate::chat::message("user"@, prompts::KEEP_TRYING@),
            );
            lemma_goes_on_well_before(s, later, turn);
        } else {
            lemma_finished(s, reply);
        }
    } else {
        let later = SessionView {
            log: agent::fresh(s.log),
            pending: agent::round_tasks(requested),
            ..told
        };
        lemma_perform(later);
        lemma_goes_on_well_before(s, later, turn);
    }
}

/// A session begins within its limits, and nothing is changed.
pub proof fn sessions_begin_well(
    platform: Platform,
    convo: Seq<crate::chat::MessageView>,
)
    ensures
        agent::start_view(platform, convo).wf(),
        agent::start_view(platform, convo).awaits_reply(),
        all_accepted(platform, agent::start_view(platform, convo).log.changed),
{
}

/// Where a session acts on a path, it acts at or below the project folder: the names of the step
/// are none that is empty, leads up, stays in place, holds a separator or names a drive. A step
/// without names, as for the path `.`, acts on the project folder itself.
pub proof fn steps_do_not_leave_the_project(platform: Platform, task: TaskView, step: StepView)
    requires
        agent::step_of(platform, task) == Ok::<StepView, Seq<char>>(step),
    ensures
        match step {
            StepView::Delete(names) => leads_down(platform, names),
            StepView::Read(names) => leads_down(platform, names),
            StepView::Write(names, content) => leads_down(platform, names) && content
                == task.content,
            _ => true,
        },
{
    paths::accepted_paths_do_not_leave_the_root(platform, task.target);
}

/// Every one of `names` leads to an entry of the folder that is reached before it; where there is
/// none, they stay where they begin.
pub open spec fn leads_down(platform: Platform, names: Seq<Seq<char>>) -> bool {
    forall|k: int|
        0 <= k < names.len() ==> paths::is_entry_name(platform, #[trigger] names[k])
}

/// A reply without blocks ends the task with that reply, unless the model has done nothing yet or
/// gives up, and is still to be told to keep trying.
pub proof fn plain_replies_end_the_task(s: SessionView, reply: Seq<char>)
    requires
        forall|i: int|
            0 <= i < text::lines(reply).len() ==> !blocks::is_fence(
                #[trigger] text::lines(reply)[i],
            ),
        s.retries >= agent::MAX_RETRIES || (s.log.actions.len() > 0 && !agent::is_giving_up(
            reply,
            text::lowercase(reply),
        )),
    ensures
        agent::after_reply(s, reply) == TurnView::Finished(
            ResultView {
                reply,
                actions: s.log.actions,
                changed: order::distinct_in_order(s.log.changed),
            },
        ),
{
    blocks::text_alone_asks_for_nothing(reply);
}

/// A model that only talks before it has done anything is told to keep trying, and may reply more
/// freely from then on.
pub proof fn idle_replies_are_pushed_back(s: SessionView, reply: Seq<char>)
    requires
        forall|i: int|
            0 <= i < text::lines(reply).len() ==> !blocks::is_fence(
                #[trigger] text::lines(reply)[i],
            ),
        s.retries < agent::MAX_RETRIES,
        s.log.actions.len() == 0,
        s.rounds + 1 < agent::MAX_ROUNDS,
    ensures
        agent::after_reply(s, reply) matches TurnView::Next(next, step) && {
            &&& step is Ask
            &&& next.retries == s.retries + 1
            &&& next.temperature == agent::Temperature::Varied
            &&& next.convo == s.convo.push(crate::chat::message("assistant"@, reply)).push(
                crate::chat::message("user"@, prompts::KEEP_TRYING@),
            )
        },
{
    blocks::text_alone_asks_for_nothing(reply);
}

/// A round that fails as the one before it counts as a repetition, and the third in a row ends
/// the session with the last output; any other round starts the count anew.
pub proof fn repeated_failures_end_the_session(s: SessionView)
    requires
        s.wf(),
    ensures
        agent::is_repeat(s) && s.repeats + 1 == agent::MAX_REPEATS ==> (agent::end_round(
            s,
        ) matches TurnView::Finished(result) && result.reply == prompts::STUCK_BEFORE@
            + s.log.last_output + prompts::STUCK_BEHIND@),
        agent::end_round(s) matches TurnView::Next(next, step) ==> {
            &&& next.repeats == (if agent::is_repeat(s) {
                s.repeats + 1
            } else {
                0
            })
            &&& next.last_run_sig == s.log.run_sig
        },
{
}

/// What a session is handed: the model's reply, or what came of a step.
pub enum Event {
    Reply(Seq<char>),
    Outcome(Result<Seq<char>, Seq<char>>),
}

/// The turn behind one event.
pub open spec fn after_event(s: SessionView, event: Event) -> TurnView {
    match event {
        Event::Reply(reply) => agent::after_reply(s, reply),
        Event::Outcome(outcome) => agent::after_outcome(s, outcome),
    }
}

/// Where a session stands that was at `s` with `step` to do, once it was handed `events`. What
/// follows its end is left alone.
pub open spec fn after_events(s: SessionView, step: StepView, events: Seq<Event>) -> TurnView
    decreases events.len(),
{
    if events.len() == 0 {
        TurnView::Next(s, step)
    } else {
        match after_event(s, events[0]) {
            TurnView::Next(next, then) => after_events(next, then, events.drop_first()),
            TurnView::Finished(result) => TurnView::Finished(result),
        }
    }
}

/// The session is handed a reply where it asks for one, and elsewhere what came of its step.
pub open spec fn answers(s: SessionView, step: StepView, events: Seq<Event>) -> bool
    decreases events.len(),
{
    events.len() > 0 ==> {
        &&& (events[0] is Reply <==> step is Ask)
        &&& match after_event(s, events[0]) {
            TurnView::Next(next, then) => answers(next, then, events.drop_first()),
            TurnView::Finished(_) => true,
        }
    }
}

/// The number of replies among `events`.
pub open spec fn replies(events: Seq<Event>) -> nat {
    events.filter(|e: Event| e is Reply).len()
}

/// The session waits for what `step` brings.
pub open spec fn waits_for(s: SessionView, step: StepView) -> bool {
    if step is Ask {
        s.awaits_reply()
    } else {
        s.awaits_outcome()
    }
}

/// The number of replies that the session has taken.
pub open spec fn taken(s: SessionView, step: StepView) -> int {
    if step is Ask {
        s.rounds
    } else {
        s.rounds + 1
    }
}

proof fn lemma_first_reply(events: Seq<Event>)
    requires
        events.len() > 0,
    ensures
        replies(events) == replies(events.drop_first()) + (if events[0] is Reply {
            1nat
        } else {
            0nat
        }),
{
    let first = seq![events[0]];
    let is_reply = |e: Event| e is Reply;
    assert(events =~= first + events.drop_first());
    Seq::filter_distributes_over_add(first, events.drop_first(), is_reply);
    assert(first.drop_last() =~= seq![]);
    reveal_with_fuel(Seq::filter, 2);
}

proof fn lemma_after_events(s: SessionView, step: StepView, events: Seq<Event>)
    requires
        s.wf(),
        waits_for(s, step),
        all_accepted(s.platform, s.log.changed),
        answers(s, step, events),
    ensures
        match after_events(s, step, events) {
            TurnView::Next(next, then) => {
                &&& next.wf()
                &&& next.platform == s.platform
                &&& waits_for(next, then)
                &&& extends(s.convo, next.convo)
                &&& extends(s.log.actions, next.log.actions)
                &&& all_accepted(next.platform, next.log.changed)
                &&& taken(next, then) == taken(s, step) + replies(events)
            },
            TurnView::Finished(result) => {
                &&& extends(s.log.actions, result.actions)
                &&& all_accepted(s.platform, result.changed)
                &&& rises_strictly(result.changed)
            },
        },
    decreases events.len(),
{
    if events.len() == 0 {
        lemma_extends_itself(s.convo);
        lemma_extends_itself(s.log.actions);
        assert(events.filter(|e: Event| e is Reply) =~= seq![]) by {
            reveal_with_fuel(Seq::filter, 1);
        }
    } else {
        lemma_first_reply(events);
        match events[0] {
            Event::Reply(reply) => {
                replies_lead_on(s, reply);
            },
            Event::Outcome(outcome) => {
                outcomes_lead_on(s, outcome);
            },
        }
        match after_event(s, events[0]) {
            TurnView::Next(next, then) => {
                let rest = events.drop_first();
                lemma_after_events(next, then, rest);
                match after_events(next, then, rest) {
                    TurnView::Next(last, _) => {
                        lemma_extends_further(s.convo, next.convo, last.convo);
                        lemma_extends_further(
                            s.log.actions,
                            next.log.actions,
                            last.log.actions,
                        );
                    },
                    TurnView::Finished(result) => {
                        lemma_extends_further(s.log.actions, next.log.actions, result.actions);
                    },
                }
            },
            TurnView::Finished(_) => {},
        }
    }
}

/// A session ends by itself: whatever it is handed, it takes no more replies than the limit. The
/// paths that it reports as changed are accepted ones, in order and each once, and as long as it
/// goes on, its conversation begins with what it was given at the start.
pub proof fn sessions_end(
    platform: Platform,
    convo: Seq<crate::chat::MessageView>,
    events: Seq<Event>,
)
    requires
        answers(agent::start_view(platform, convo), StepView::Ask, events),
    ensures
        match after_events(agent::start_view(platform, convo), StepView::Ask, events) {
            TurnView::Next(next, then) => {
                &&& taken(next, then) == replies(events)
                &&& replies(events) <= agent::MAX_ROUNDS
                &&& extends(convo, next.convo)
                &&& all_accepted(platform, next.log.changed)
            },
            TurnView::Finished(result) => {
                &&& all_accepted(platform, result.changed)
                &&& rises_strictly(result.changed)
            },
        },
        replies(events) > agent::MAX_ROUNDS ==> after_events(
            agent::start_view(platform, convo),
            StepView::Ask,
            events,
        ) is Finished,
{
    lemma_after_events(agent::start_view(platform, convo), StepView::Ask, events);
}

/// A command whose report is shown whole counts as a success exactly where it ended with code
/// zero, or wrote itself that it did.
pub proof fn commands_succeed_by_their_code(
    code: Option<i32>,
    stdout: Seq<char>,
    stderr: Seq<char>,
)
    requires
        clip::byte_len(shell::finished_text(code, stdout, stderr)) <= shell::MAX_OUTPUT,
    ensures
        agent::is_success(shell::shown_output(shell::finished_text(code, stdout, stderr))) <==> (
        code == Some(0i32) || text::occurs(stdout + stderr, "exit code: 0"@)),
{
    reveal_strlit("exit code: 0");
    reveal_strlit("exit code: ");
    reveal_strlit("\n");
    let shown: int = match code {
        Some(c) => c as int,
        None => -1,
    };
    let mark = "exit code: 0"@;
    let number = number::signed_decimal(shown);
    let out = stdout + stderr;
    let head = "exit code: "@ + number + "\n"@;
    let whole = shell::finished_text(code, stdout, stderr);
    let n = head.len() as int;
    assert(whole =~= head + out);
    number::only_zero_begins_with_zero(shown);
    assert(whole[11] == number[0]);
    if shown == 0 {
        assert(number =~= seq!['0']);
        assert(whole.skip(0).take(12) =~= mark);
        assert(text::has_prefix(whole.skip(0), mark));
    }
    if text::occurs(out, mark) {
        let i = choose|i: int| 0 <= i <= out.len() && text::has_prefix(#[trigger] out.skip(i), mark);
        assert(whole.skip(n + i) =~= out.skip(i));
    }
    if text::occurs(whole, mark) && shown != 0 {
        let i = choose|i: int|
            0 <= i <= whole.len() && text::has_prefix(#[trigger] whole.skip(i), mark);
        let found = whole.skip(i).take(12);
        assert(forall|k: int| 0 <= k < 12 ==> #[trigger] found[k] == whole[i + k]);
        assert(found[0] == 'e' && found[1] == 'x' && found[11] == '0');
        if i < n {
            assert(whole[i] == head[i]);
            if i >= 11 && i < n - 1 {
                lemma_number_holds_no_letter(shown, i - 11);
                assert(whole[i] == number[i - 11]);
            }
            assert(whole[i] != 'e' || whole[i + 1] != 'x' || whole[i + 11] != '0');
        }
        assert(whole.skip(i) =~= out.skip(i - n));
    }
}

proof fn lemma_number_holds_no_letter(n: int, i: int)
    requires
        0 <= i < number::signed_decimal(n).len(),
    ensures
        number::signed_decimal(n)[i] != 'e',
{
    if n < 0 {
        let d = number::decimal((-n) as nat);
        number::lemma_decimal_reads_back((-n) as nat);
        if i > 0 {
            assert(number::signed_decimal(n)[i] == d[i - 1]);
            assert(number::is_digit(d[i - 1]));
        }
    } else {
        number::lemma_decimal_reads_back(n as nat);
        assert(number::is_digit(number::decimal(n as nat)[i]));
    }
}

/// A task of this kind changes the file or folder that it acts on.
pub open spec fn makes_changes(kind: TaskKind) -> bool {
    kind == TaskKind::Write || kind == TaskKind::Delete
}

/// Among `events` is the success of a write or a deletion of `path`, where the session was at `s`.
pub open spec fn was_changed(s: SessionView, events: Seq<Event>, path: Seq<char>) -> bool
    decreases events.len(),
{
    events.len() > 0 && {
        ||| events[0] matches Event::Outcome(outcome) && outcome is Ok && makes_changes(
            s.pending[0].kind,
        ) && s.pending[0].target == path
        ||| after_event(s, events[0]) matches TurnView::Next(next, then) && was_changed(
            next,
            events.drop_first(),
            path,
        )
    }
}

/// The path is among those that the session has changed, as far as it has come.
pub open spec fn is_changed(turn: TurnView, path: Seq<char>) -> bool {
    match turn {
        TurnView::Next(next, then) => next.log.changed.contains(path),
        TurnView::Finished(result) => result.changed.contains(path),
    }
}

proof fn lemma_perform_changes_nothing(s: SessionView, path: Seq<char>)
    ensures
        is_changed(agent::perform(s), path) == s.log.changed.contains(path),
    decreases s.pending.len(),
{
    order::distinct_in_order_is_the_sorted_set(s.log.changed);
    if s.pending.len() > 0 {
        match agent::step_of(s.platform, s.pending[0]) {
            Ok(step) => {},
            Err(e) => {
                lemma_perform_changes_nothing(agent::settled(s, Err(e)), path);
            },
        }
    }
}

proof fn lemma_event_changes(s: SessionView, event: Event, path: Seq<char>)
    ensures
        is_changed(after_event(s, event), path) <==> s.log.changed.contains(path) || (
        event matches Event::Outcome(outcome) && outcome is Ok && makes_changes(s.pending[0].kind)
            && s.pending[0].target == path),
{
    match event {
        Event::Reply(reply) => {
            let requested = blocks::requested(reply);
            order::distinct_in_order_is_the_sorted_set(s.log.changed);
            lemma_perform_changes_nothing(
                SessionView {
                    log: agent::fresh(s.log),
                    pending: agent::round_tasks(requested),
                    ..agent::told(s, reply)
                },
                path,
            );
        },
        Event::Outcome(outcome) => {
            let later = agent::settled(s, outcome);
            lemma_perform_changes_nothing(later, path);
            let task = s.pending[0];
            if outcome is Ok && makes_changes(task.kind) {
                let before = s.log.changed;
                assert(later.log.changed == before.push(task.target));
                assert(before.push(task.target)[before.len() as int] == task.target);
                if before.contains(path) {
                    let k = choose|k: int| 0 <= k < before.len() && before[k] == path;
                    assert(before.push(task.target)[k] == path);
                }
            } else {
                assert(later.log.changed == s.log.changed);
            }
        },
    }
}

proof fn lemma_changed_by_events(
    s: SessionView,
    step: StepView,
    events: Seq<Event>,
    path: Seq<char>,
)
    ensures
        is_changed(after_events(s, step, events), path) <==> s.log.changed.contains(path)
            || was_changed(s, events, path),
    decreases events.len(),
{
    if events.len() > 0 {
        lemma_event_changes(s, events[0], path);
        if let TurnView::Next(next, then) = after_event(s, events[0]) {
            lemma_changed_by_events(next, then, events.drop_first(), path);
        }
    }
}

/// Over a whole session, a path is reported as changed exactly where a write or a deletion of it
/// was done.
pub proof fn what_was_done_is_reported(
    platform: Platform,
    convo: Seq<crate::chat::MessageView>,
    events: Seq<Event>,
    path: Seq<char>,
)
    requires
        answers(agent::start_view(platform, convo), StepView::Ask, events),
    ensures
        is_changed(
            after_events(agent::start_view(platform, convo), StepView::Ask, events),
            path,
        ) <==> was_changed(agent::start_view(platform, convo), events, path),
{
    lemma_changed_by_events(agent::start_view(platform, convo), StepView::Ask, events, path);
}

/// What a turn tells the model: what it is told in the next request, or so far in the round.
pub open spec fn telling(next: SessionView, step: StepView) -> Seq<char> {
    if step is Ask {
        next.convo.last().content
    } else {
        next.log.feedback
    }
}

proof fn lemma_perform_tells(s: SessionView)
    ensures
        agent::perform(s) matches TurnView::Next(next, step) ==> {
            &&& extends(s.log.feedback, telling(next, step))
            &&& step is Ask ==> next.convo.last().role == "user"@
        },
    decreases s.pending.len(),
{
    lemma_extends_itself(s.log.feedback);
    if s.pending.len() == 0 {
        let repeats: int = if agent::is_repeat(s) {
            s.repeats + 1
        } else {
            0
        };
        let whole = s.log.feedback + agent::advice(s.log, repeats);
        assert(whole.take(s.log.feedback.len() as int) =~= s.log.feedback);
    } else {
        match agent::step_of(s.platform, s.pending[0]) {
            Ok(step) => {},
            Err(e) => {
                let later = agent::settled(s, Err(e));
                lemma_perform_tells(later);
                lemma_settle_tells(s.log, s.pending[0], Err(e));
                if let TurnView::Next(next, step) = agent::perform(later) {
                    lemma_extends_further(
                        s.log.feedback,
                        later.log.feedback,
                        telling(next, step),
                    );
                }
            },
        }
    }
}

proof fn lemma_settle_tells(log: Log, task: TaskView, outcome: Result<Seq<char>, Seq<char>>)
    ensures
        extends(log.feedback, agent::settle(log, task, outcome).feedback),
{
    let after = agent::settle(log, task, outcome);
    assert(after.feedback.take(log.feedback.len() as int) =~= log.feedback);
}

/// What a round has told the model so far stays, through all that follows in the round, and
/// stands at the beginning of the user's message in the next request.
pub proof fn what_is_told_reaches_the_model(
    s: SessionView,
    outcome: Result<Seq<char>, Seq<char>>,
)
    requires
        s.awaits_outcome(),
    ensures
        extends(s.log.feedback, agent::settled(s, outcome).log.feedback),
        agent::after_outcome(s, outcome) matches TurnView::Next(next, step) ==> {
            &&& extends(agent::settled(s, outcome).log.feedback, telling(next, step))
            &&& step is Ask ==> next.convo.last().role == "user"@
        },
{
    lemma_settle_tells(s.log, s.pending[0], outcome);
    lemma_perform_tells(agent::settled(s, outcome));
}

/// A file that is read comes back whole: behind what the model was told before, its path and all
/// of its content are told. The action is noted, and nothing is changed by it.
pub proof fn read_files_come_back_whole(s: SessionView, content: Seq<char>)
    requires
        s.awaits_outcome(),
        s.pending[0].kind == TaskKind::Read,
    ensures
        ({
            let path = s.pending[0].target;
            let after = agent::settled(s, Ok(content)).log;
            &&& after.feedback == s.log.feedback + ("--- "@ + path + " ---\n"@ + content
                + "\n\n"@)
            &&& after.actions == s.log.actions.push("👀 읽기: "@ + path)
            &&& after.changed == s.log.changed
        }),
        agent::after_outcome(s, Ok(content)) matches TurnView::Next(next, step) ==> extends(
            s.log.feedback + ("--- "@ + s.pending[0].target + " ---\n"@ + content + "\n\n"@),
            telling(next, step),
        ),
{
    what_is_told_reaches_the_model(s, Ok(content));
}

} // verus!
