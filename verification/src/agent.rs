//! A model that works on a project by itself, round after round.
//!
//! An [`AgentSession`] decides; its caller acts. The caller asks the model, hands in its reply, and
//! from then on performs one step after the other and hands in what came of it, until the session
//! asks for the next reply or is finished.

use vstd::prelude::*;

use crate::blocks;
use crate::blocks::{Blocks, BlocksView};
use crate::chat;
use crate::chat::{ChatMessage, MessageView};
use crate::order;
use crate::paths;
use crate::paths::Platform;
use crate::prompts;
use crate::text;
use crate::workspace;

verus! {

/// The most replies that a session takes.
pub const MAX_ROUNDS: u32 = 25;

/// The most times that the model is told to keep trying.
pub const MAX_RETRIES: u32 = 3;

/// The number of repetitions of the same failure that ends a session.
pub const MAX_REPEATS: u32 = 3;

/// How freely the model replies.
#[derive(Clone, Copy, Debug, PartialEq, Eq, Structural)]
pub enum Temperature {
    /// As it does at first.
    Steady,
    /// With more variation, so that a retry is not identical.
    Varied,
}

/// What a task does.
#[derive(Clone, Copy, Debug, PartialEq, Eq, Structural)]
pub enum TaskKind {
    Delete,
    Read,
    Search,
    Write,
    Run,
}

/// A task of a round: what it does, to which path, text or command, and what it writes.
#[derive(Debug)]
pub struct Task {
    pub kind: TaskKind,
    pub target: String,
    pub content: String,
}

/// What a [`Task`] holds, as texts.
pub struct TaskView {
    pub kind: TaskKind,
    pub target: Seq<char>,
    pub content: Seq<char>,
}

impl View for Task {
    type V = TaskView;

    open spec fn view(&self) -> TaskView {
        TaskView { kind: self.kind, target: self.target@, content: self.content@ }
    }
}

/// What the tasks of `v` hold.
pub open spec fn tasks(v: Seq<Task>) -> Seq<TaskView> {
    v.map_values(|t: Task| t@)
}

/// A task that writes nothing.
pub open spec fn simple_task(kind: TaskKind, target: Seq<char>) -> TaskView {
    TaskView { kind, target, content: seq![] }
}

/// Tasks of one kind, for each of `targets`.
pub open spec fn simple_tasks(kind: TaskKind, targets: Seq<Seq<char>>) -> Seq<TaskView> {
    targets.map_values(|target: Seq<char>| simple_task(kind, target))
}

/// The tasks that write `files`.
pub open spec fn write_tasks(files: Seq<(Seq<char>, Seq<char>)>) -> Seq<TaskView> {
    files.map_values(
        |f: (Seq<char>, Seq<char>)|
            TaskView { kind: TaskKind::Write, target: f.0, content: f.1 },
    )
}

/// The tasks of a round, in the order in which they are performed.
pub open spec fn round_tasks(b: BlocksView) -> Seq<TaskView> {
    simple_tasks(TaskKind::Delete, b.deletes) + simple_tasks(TaskKind::Read, b.reads)
        + simple_tasks(TaskKind::Search, b.searches) + write_tasks(b.files) + simple_tasks(
        TaskKind::Run,
        b.runs,
    )
}

/// What a session has done, and what the current round has to tell the model.
#[verifier::ext_equal]
pub struct Log {
    /// What was done, for the user.
    pub actions: Seq<Seq<char>>,
    /// The paths that were written or deleted.
    pub changed: Seq<Seq<char>>,
    /// What the model is told of the round.
    pub feedback: Seq<char>,
    /// A command of the round failed.
    pub any_fail: bool,
    /// The commands of the round, each with its output.
    pub run_sig: Seq<char>,
    /// The output of the round's last command.
    pub last_output: Seq<char>,
    /// The round ran a command.
    pub ran: bool,
}

/// A command's report tells of success.
pub open spec fn is_success(report: Seq<char>) -> bool {
    text::occurs(report, "exit code: 0"@)
}

/// The text of an outcome, whatever it says.
pub open spec fn outcome_text(outcome: Result<Seq<char>, Seq<char>>) -> Seq<char> {
    match outcome {
        Ok(s) => s,
        Err(s) => s,
    }
}

/// The log behind `task`. A deletion and a write are done where the outcome is `Ok`; reading gives
/// the whole content or fails; of a search and a command the outcome is a report.
pub open spec fn settle(
    log: Log,
    task: TaskView,
    outcome: Result<Seq<char>, Seq<char>>,
) -> Log {
    let target = task.target;
    match task.kind {
        TaskKind::Delete => match outcome {
            Ok(_) => Log {
                actions: log.actions.push("🗑️ 삭제: "@ + target),
                changed: log.changed.push(target),
                feedback: log.feedback + ("deleted "@ + target + "\n"@),
                ..log
            },
            Err(e) => Log {
                feedback: log.feedback + ("delete "@ + target + " ERROR: "@ + e + "\n"@),
                ..log
            },
        },
        TaskKind::Read => Log {
            actions: log.actions.push("👀 읽기: "@ + target),
            feedback: log.feedback + match outcome {
                Ok(content) => workspace::file_section(target, content),
                Err(e) => "read "@ + target + " ERROR: "@ + e + "\n"@,
            },
            ..log
        },
        TaskKind::Search => Log {
            actions: log.actions.push("🔍 검색: "@ + target),
            feedback: log.feedback + ("search '"@ + target + "':\n"@ + outcome_text(outcome)
                + "\n\n"@),
            ..log
        },
        TaskKind::Write => match outcome {
            Ok(_) => Log {
                actions: log.actions.push("✏️ 쓰기: "@ + target),
                changed: log.changed.push(target),
                feedback: log.feedback + ("wrote "@ + target + "\n"@),
                ..log
            },
            Err(e) => Log {
                feedback: log.feedback + ("write "@ + target + " ERROR: "@ + e + "\n"@),
                ..log
            },
        },
        TaskKind::Run => {
            let report = outcome_text(outcome);
            Log {
                actions: log.actions.push("⚙️ 실행: "@ + target),
                any_fail: log.any_fail || !is_success(report),
                run_sig: log.run_sig + (target + "\n"@ + report),
                last_output: report,
                feedback: log.feedback + ("$ "@ + target + "\n"@ + report + "\n"@),
                ran: true,
                ..log
            }
        },
    }
}

/// Where a session stands.
#[verifier::ext_equal]
pub struct SessionView {
    pub platform: Platform,
    /// The conversation with the model.
    pub convo: Seq<MessageView>,
    pub log: Log,
    /// The tasks of the round that are not done, the one in progress first.
    pub pending: Seq<TaskView>,
    /// The commands and outputs of the round before.
    pub last_run_sig: Seq<char>,
    /// The number of times that the model was told to keep trying.
    pub retries: int,
    pub temperature: Temperature,
    /// The number of rounds in a row that failed just as the one before.
    pub repeats: int,
    /// The number of rounds that are over.
    pub rounds: int,
}

/// What the caller has to do next.
#[derive(Debug)]
pub enum Step {
    /// Ask the model for its reply to the conversation.
    Ask,
    /// Delete the file or folder that these names lead to: without names, the project folder.
    Delete(Vec<String>),
    /// Read the file that these names lead to.
    Read(Vec<String>),
    /// Search the project for this text.
    Search(String),
    /// Write this content to the file that these names lead to.
    Write(Vec<String>, String),
    /// Run this command.
    Run(String),
}

/// What a [`Step`] says, as texts.
pub enum StepView {
    Ask,
    Delete(Seq<Seq<char>>),
    Read(Seq<Seq<char>>),
    Search(Seq<char>),
    Write(Seq<Seq<char>>, Seq<char>),
    Run(Seq<char>),
}

impl View for Step {
    type V = StepView;

    open spec fn view(&self) -> StepView {
        match self {
            Step::Ask => StepView::Ask,
            Step::Delete(names) => StepView::Delete(text::texts(names@)),
            Step::Read(names) => StepView::Read(text::texts(names@)),
            Step::Search(query) => StepView::Search(query@),
            Step::Write(names, content) => StepView::Write(text::texts(names@), content@),
            Step::Run(command) => StepView::Run(command@),
        }
    }
}

/// What a session came to.
#[derive(Debug)]
pub struct AgentResult {
    pub reply: String,
    pub actions: Vec<String>,
    pub changed: Vec<String>,
}

/// What an [`AgentResult`] holds, as texts.
pub struct ResultView {
    pub reply: Seq<char>,
    pub actions: Seq<Seq<char>>,
    pub changed: Seq<Seq<char>>,
}

impl View for AgentResult {
    type V = ResultView;

    open spec fn view(&self) -> ResultView {
        ResultView {
            reply: self.reply@,
            actions: text::texts(self.actions@),
            changed: text::texts(self.changed@),
        }
    }
}

/// How a session goes on.
pub enum TurnView {
    Next(SessionView, StepView),
    Finished(ResultView),
}

/// The end of a session that answers `reply`.
pub open spec fn finished(log: Log, reply: Seq<char>) -> TurnView {
    TurnView::Finished(
        ResultView { reply, actions: log.actions, changed: order::distinct_in_order(log.changed) },
    )
}

/// The session behind a round: it asks for the next reply, unless there were enough.
pub open spec fn next_round(s: SessionView) -> TurnView {
    if s.rounds + 1 >= MAX_ROUNDS {
        finished(s.log, prompts::TOO_MANY_ROUNDS@)
    } else {
        TurnView::Next(SessionView { rounds: s.rounds + 1, ..s }, StepView::Ask)
    }
}

/// The round failed, and its commands and their outputs are those of the round before.
pub open spec fn is_repeat(s: SessionView) -> bool {
    s.log.any_fail && s.log.run_sig.len() > 0 && s.log.run_sig == s.last_run_sig
}

/// What the model is told at the end of a round.
pub open spec fn advice(log: Log, repeats: int) -> Seq<char> {
    if log.any_fail && repeats >= 1 {
        prompts::SAME_FAILURE@
    } else if log.any_fail {
        prompts::COMMAND_FAILED@
    } else if !log.ran {
        prompts::NOTHING_RAN@
    } else {
        seq![]
    }
}

/// The session at the end of a round: it stops where the same failure came too often, else the
/// model is told what came of its tasks.
pub open spec fn end_round(s: SessionView) -> TurnView {
    let repeats: int = if is_repeat(s) {
        s.repeats + 1
    } else {
        0
    };
    if repeats >= MAX_REPEATS {
        finished(s.log, prompts::STUCK_BEFORE@ + s.log.last_output + prompts::STUCK_BEHIND@)
    } else {
        let feedback = s.log.feedback + advice(s.log, repeats);
        next_round(
            SessionView {
                convo: s.convo.push(chat::message("user"@, feedback)),
                log: Log { feedback, ..s.log },
                last_run_sig: s.log.run_sig,
                repeats,
                ..s
            },
        )
    }
}

/// The task acts on a path.
pub open spec fn has_path(kind: TaskKind) -> bool {
    kind == TaskKind::Delete || kind == TaskKind::Read || kind == TaskKind::Write
}

/// The step that performs `task`, or why it is refused.
pub open spec fn step_of(platform: Platform, task: TaskView) -> Result<StepView, Seq<char>> {
    match task.kind {
        TaskKind::Search => Ok(StepView::Search(task.target)),
        TaskKind::Run => Ok(StepView::Run(task.target)),
        _ => match paths::relative_names(platform, task.target) {
            Ok(names) => Ok(
                match task.kind {
                    TaskKind::Delete => StepView::Delete(names),
                    TaskKind::Read => StepView::Read(names),
                    _ => StepView::Write(names, task.content),
                },
            ),
            Err(e) => Err(e),
        },
    }
}

/// The session with its first pending task settled.
pub open spec fn settled(s: SessionView, outcome: Result<Seq<char>, Seq<char>>) -> SessionView {
    SessionView {
        log: settle(s.log, s.pending[0], outcome),
        pending: s.pending.drop_first(),
        ..s
    }
}

/// The session at its next pending task that is not refused, or at the end of the round.
pub open spec fn perform(s: SessionView) -> TurnView
    decreases s.pending.len(),
{
    if s.pending.len() == 0 {
        end_round(s)
    } else {
        match step_of(s.platform, s.pending[0]) {
            Ok(step) => TurnView::Next(s, step),
            Err(e) => perform(settled(s, Err(e))),
        }
    }
}

/// The session behind the task in progress.
pub open spec fn after_outcome(s: SessionView, outcome: Result<Seq<char>, Seq<char>>) -> TurnView {
    perform(settled(s, outcome))
}

/// A reply that refuses or gives up. `lower` is its lower case.
pub open spec fn is_giving_up(reply: Seq<char>, lower: Seq<char>) -> bool {
    ||| text::occurs(lower, "cannot"@)
    ||| text::occurs(lower, "can't"@)
    ||| text::occurs(lower, "unable"@)
    ||| text::occurs(lower, "impossible"@)
    ||| text::occurs(lower, "not possible"@)
    ||| text::occurs(lower, "i'm sorry"@)
    ||| text::occurs(lower, "i am sorry"@)
    ||| text::occurs(reply, "안 됩니다"@)
    ||| text::occurs(reply, "안됩니다"@)
    ||| text::occurs(reply, "할 수 없"@)
    ||| text::occurs(reply, "불가능"@)
    ||| text::occurs(reply, "죄송"@)
    ||| text::occurs(reply, "못 하"@)
    ||| text::occurs(reply, "못합니다"@)
    ||| text::occurs(reply, "안돼"@)
    ||| text::occurs(reply, "안 돼"@)
    ||| text::occurs(reply, "어렵습니다"@)
}

/// The session with the model's reply in its conversation.
pub open spec fn told(s: SessionView, reply: Seq<char>) -> SessionView {
    SessionView { convo: s.convo.push(chat::message("assistant"@, reply)), ..s }
}

/// The session behind a reply that asks for nothing. `gave_up` says that the reply gives up.
pub open spec fn without_tasks(s: SessionView, reply: Seq<char>, gave_up: bool) -> TurnView {
    if s.retries < MAX_RETRIES && (s.log.actions.len() == 0 || gave_up) {
        next_round(
            SessionView {
                convo: s.convo.push(chat::message("user"@, prompts::KEEP_TRYING@)),
                retries: s.retries + 1,
                temperature: Temperature::Varied,
                ..s
            },
        )
    } else {
        finished(s.log, reply)
    }
}

/// The log at the beginning of a round.
pub open spec fn fresh(log: Log) -> Log {
    Log {
        feedback: seq![],
        any_fail: false,
        run_sig: seq![],
        last_output: seq![],
        ran: false,
        ..log
    }
}

/// The session behind a reply that asks for `requested`. `gave_up` says that the reply gives up.
pub open spec fn after_request(
    s: SessionView,
    reply: Seq<char>,
    requested: BlocksView,
    gave_up: bool,
) -> TurnView {
    if requested == BlocksView::none() {
        without_tasks(told(s, reply), reply, gave_up)
    } else {
        perform(
            SessionView {
                log: fresh(s.log),
                pending: round_tasks(requested),
                ..told(s, reply)
            },
        )
    }
}

/// The session behind the model's reply.
pub open spec fn after_reply(s: SessionView, reply: Seq<char>) -> TurnView {
    after_request(
        s,
        reply,
        blocks::requested(reply),
        is_giving_up(reply, text::lowercase(reply)),
    )
}

impl SessionView {
    /// The session's counters keep to their limits.
    pub open spec fn wf(self) -> bool {
        &&& 0 <= self.rounds < MAX_ROUNDS
        &&& 0 <= self.retries <= MAX_RETRIES
        &&& 0 <= self.repeats < MAX_REPEATS
    }

    /// The session waits for the model's reply.
    pub open spec fn awaits_reply(self) -> bool {
        self.pending.len() == 0
    }

    /// The session waits for what comes of a step: its first task is one that is not refused.
    pub open spec fn awaits_outcome(self) -> bool {
        self.pending.len() > 0 && step_of(self.platform, self.pending[0]) is Ok
    }
}

/// A session in progress.
#[derive(Debug)]
pub struct AgentSession {
    platform: Platform,
    convo: Vec<ChatMessage>,
    actions: Vec<String>,
    changed: Vec<String>,
    feedback: String,
    any_fail: bool,
    run_sig: String,
    last_output: String,
    ran: bool,
    tasks: Vec<Task>,
    at: usize,
    last_run_sig: String,
    retries: u32,
    temperature: Temperature,
    repeats: u32,
    rounds: u32,
}

impl View for AgentSession {
    type V = SessionView;

    closed spec fn view(&self) -> SessionView {
        SessionView {
            platform: self.platform,
            convo: chat::messages(self.convo@),
            log: Log {
                actions: text::texts(self.actions@),
                changed: text::texts(self.changed@),
                feedback: self.feedback@,
                any_fail: self.any_fail,
                run_sig: self.run_sig@,
                last_output: self.last_output@,
                ran: self.ran,
            },
            pending: tasks(self.tasks@).skip(self.at as int),
            last_run_sig: self.last_run_sig@,
            retries: self.retries as int,
            temperature: self.temperature,
            repeats: self.repeats as int,
            rounds: self.rounds as int,
        }
    }
}

/// How a session goes on.
#[derive(Debug)]
pub enum Turn {
    /// The session goes on with a step.
    Next(AgentSession, Step),
    /// The session is over.
    Finished(AgentResult),
}

impl View for Turn {
    type V = TurnView;

    open spec fn view(&self) -> TurnView {
        match self {
            Turn::Next(session, step) => TurnView::Next(session@, step@),
            Turn::Finished(result) => TurnView::Finished(result@),
        }
    }
}

/// Adds a task of this kind for each of `targets`.
fn add_tasks(list: &mut Vec<Task>, kind: TaskKind, targets: &Vec<String>)
    ensures
        tasks(final(list)@) == tasks(old(list)@) + simple_tasks(kind, text::texts(targets@)),
{
    let ghost before = tasks(list@);
    let ghost all = text::texts(targets@);
    let mut i: usize = 0;
    assert(tasks(list@) =~= before + simple_tasks(kind, all.take(0)));
    while i < targets.len()
        invariant
            all == text::texts(targets@),
            i <= targets@.len(),
            tasks(list@) == before + simple_tasks(kind, all.take(i as int)),
        decreases targets@.len() - i,
    {
        let ghost now = tasks(list@);
        let task = Task { kind, target: targets[i].clone(), content: String::new() };
        assert(task@.content =~= seq![]);
        assert(all[i as int] == task@.target);
        list.push(task);
        assert(tasks(list@) =~= now.push(task@));
        assert(tasks(list@) =~= before + simple_tasks(kind, all.take(i + 1)));
        i = i + 1;
    }
    assert(all.take(i as int) =~= all);
}

/// Adds a task that writes each of `files`.
fn add_writes(list: &mut Vec<Task>, files: &Vec<(String, String)>)
    ensures
        tasks(final(list)@) == tasks(old(list)@) + write_tasks(text::text_pairs(files@)),
{
    let ghost before = tasks(list@);
    let ghost all = text::text_pairs(files@);
    let mut i: usize = 0;
    assert(tasks(list@) =~= before + write_tasks(all.take(0)));
    while i < files.len()
        invariant
            all == text::text_pairs(files@),
            i <= files@.len(),
            tasks(list@) == before + write_tasks(all.take(i as int)),
        decreases files@.len() - i,
    {
        let ghost now = tasks(list@);
        let task = Task {
            kind: TaskKind::Write,
            target: files[i].0.clone(),
            content: files[i].1.clone(),
        };
        assert(all[i as int] == (task@.target, task@.content));
        list.push(task);
        assert(tasks(list@) =~= now.push(task@));
        assert(tasks(list@) =~= before + write_tasks(all.take(i + 1)));
        i = i + 1;
    }
    assert(all.take(i as int) =~= all);
}

/// The tasks of a round, in the order in which they are performed.
fn tasks_of(b: &Blocks) -> (list: Vec<Task>)
    ensures
        tasks(list@) == round_tasks(b@),
{
    let mut list: Vec<Task> = Vec::new();
    assert(tasks(list@) =~= seq![]);
    add_tasks(&mut list, TaskKind::Delete, &b.deletes);
    assert(tasks(list@) =~= simple_tasks(TaskKind::Delete, b@.deletes));
    add_tasks(&mut list, TaskKind::Read, &b.reads);
    add_tasks(&mut list, TaskKind::Search, &b.searches);
    add_writes(&mut list, &b.files);
    add_tasks(&mut list, TaskKind::Run, &b.runs);
    list
}

/// `before`, `middle` and `behind`, one after the other.
fn concat3(before: &str, middle: &str, behind: &str) -> (s: String)
    ensures
        s@ == before@ + middle@ + behind@,
{
    let mut s: String = before.to_owned();
    s.append(middle);
    s.append(behind);
    s
}

/// What the model is told where `what` failed on `target`.
fn failure(what: &str, target: &str, e: &str) -> (s: String)
    ensures
        s@ == what@ + target@ + " ERROR: "@ + e@ + "\n"@,
{
    let mut s: String = concat3(what, target, " ERROR: ");
    s.append(e);
    s.append("\n");
    s
}

/// Whether a reply gives up, where `lower` is its lower case.
pub fn giving_up(reply: &str, lower: &str) -> (b: bool)
    ensures
        b == is_giving_up(reply@, lower@),
{
    text::contains(lower, "cannot") || text::contains(lower, "can't") || text::contains(
        lower,
        "unable",
    ) || text::contains(lower, "impossible") || text::contains(lower, "not possible")
        || text::contains(lower, "i'm sorry") || text::contains(lower, "i am sorry")
        || text::contains(reply, "안 됩니다") || text::contains(reply, "안됩니다")
        || text::contains(reply, "할 수 없") || text::contains(reply, "불가능")
        || text::contains(reply, "죄송") || text::contains(reply, "못 하")
        || text::contains(reply, "못합니다") || text::contains(reply, "안돼")
        || text::contains(reply, "안 돼") || text::contains(reply, "어렵습니다")
}

/// The step that performs `task`, or why it is refused.
pub fn plan_step(platform: Platform, task: &Task) -> (r: Result<Step, String>)
    ensures
        match r {
            Ok(step) => step_of(platform, task@) == Ok::<StepView, Seq<char>>(step@),
            Err(e) => step_of(platform, task@) == Err::<StepView, Seq<char>>(e@),
        },
{
    match task.kind {
        TaskKind::Search => Ok(Step::Search(task.target.clone())),
        TaskKind::Run => Ok(Step::Run(task.target.clone())),
        _ => match paths::names_below(platform, task.target.as_str()) {
            Ok(names) => Ok(
                match task.kind {
                    TaskKind::Delete => Step::Delete(names),
                    TaskKind::Read => Step::Read(names),
                    _ => Step::Write(names, task.content.clone()),
                },
            ),
            Err(e) => Err(e),
        },
    }
}

/// The view of what came of a step.
pub open spec fn outcome_view(outcome: Result<String, String>) -> Result<Seq<char>, Seq<char>> {
    match outcome {
        Ok(s) => Ok(s@),
        Err(s) => Err(s@),
    }
}

/// What the model is told before the user's messages.
pub open spec fn introduction(tree: Seq<char>, snapshot: Seq<char>) -> Seq<MessageView> {
    let system = seq![chat::message("system"@, prompts::AGENT_SYSTEM@)];
    let files = if text::trim(tree).len() > 0 {
        seq![chat::message("system"@, prompts::TREE_INTRO@ + tree)]
    } else {
        seq![]
    };
    let contents = if text::trim(snapshot).len() > 0 {
        seq![chat::message("system"@, prompts::SNAPSHOT_INTRO@ + snapshot)]
    } else {
        seq![]
    };
    system + files + contents
}

/// A session that has done nothing, about to ask the model for its first reply.
pub open spec fn start_view(platform: Platform, convo: Seq<MessageView>) -> SessionView {
    SessionView {
        platform,
        convo,
        log: Log {
            actions: seq![],
            changed: seq![],
            feedback: seq![],
            any_fail: false,
            run_sig: seq![],
            last_output: seq![],
            ran: false,
        },
        pending: seq![],
        last_run_sig: seq![],
        retries: 0,
        temperature: Temperature::Steady,
        repeats: 0,
        rounds: 0,
    }
}

impl AgentSession {
    /// The session's counters and its place in the round keep to their limits.
    pub closed spec fn valid(&self) -> bool {
        self.at <= self.tasks@.len() && self@.wf()
    }

    /// A session on a project with this file list and this snapshot, for the user's messages.
    pub fn start(
        platform: Platform,
        tree: &str,
        snapshot: &str,
        user: Vec<ChatMessage>,
    ) -> (session: AgentSession)
        ensures
            session@ == start_view(
                platform,
                introduction(tree@, snapshot@) + chat::messages(user@),
            ),
            session.valid(),
            session@.awaits_reply(),
    {
        let mut user = user;
        let ghost asked = user@;
        let mut convo: Vec<ChatMessage> = Vec::new();
        convo.push(chat::new_message("system", prompts::AGENT_SYSTEM.to_owned()));
        assert(chat::messages(convo@) =~= seq![
            chat::message("system"@, prompts::AGENT_SYSTEM@),
        ]);
        if !text::trimmed(tree).as_str().is_empty() {
            let ghost before = convo@;
            let mut content: String = prompts::TREE_INTRO.to_owned();
            content.append(tree);
            convo.push(chat::new_message("system", content));
            assert(chat::messages(convo@) =~= chat::messages(before) + seq![
                chat::message("system"@, prompts::TREE_INTRO@ + tree@),
            ]);
        }
        let ghost middle = convo@;
        if !text::trimmed(snapshot).as_str().is_empty() {
            let mut content: String = prompts::SNAPSHOT_INTRO.to_owned();
            content.append(snapshot);
            convo.push(chat::new_message("system", content));
            assert(chat::messages(convo@) =~= chat::messages(middle) + seq![
                chat::message("system"@, prompts::SNAPSHOT_INTRO@ + snapshot@),
            ]);
        }
        assert(chat::messages(convo@) =~= introduction(tree@, snapshot@));
        let ghost before = convo@;
        convo.append(&mut user);
        assert(chat::messages(convo@) =~= chat::messages(before) + chat::messages(asked));
        let session = AgentSession {
            platform,
            convo,
            actions: Vec::new(),
            changed: Vec::new(),
            feedback: String::new(),
            any_fail: false,
            run_sig: String::new(),
            last_output: String::new(),
            ran: false,
            tasks: Vec::new(),
            at: 0,
            last_run_sig: String::new(),
            retries: 0,
            temperature: Temperature::Steady,
            repeats: 0,
            rounds: 0,
        };
        assert(session@ =~= start_view(
            platform,
            introduction(tree@, snapshot@) + chat::messages(asked),
        ));
        session
    }

    /// The conversation with the model.
    pub fn conversation(&self) -> (convo: &Vec<ChatMessage>)
        ensures
            chat::messages(convo@) == self@.convo,
    {
        &self.convo
    }

    /// How freely the model is to reply.
    pub fn temperature(&self) -> (t: Temperature)
        ensures
            t == self@.temperature,
    {
        self.temperature
    }

    /// Adds a message to the conversation.
    fn say(&mut self, role: &str, content: String)
        ensures
            final(self)@ == (SessionView {
                convo: old(self)@.convo.push(chat::message(role@, content@)),
                ..old(self)@
            }),
            final(self).tasks == old(self).tasks,
            final(self).at == old(self).at,
    {
        let ghost before = self.convo@;
        self.convo.push(chat::new_message(role, content));
        assert(chat::messages(self.convo@) =~= chat::messages(before).push(
            chat::message(role@, content@),
        ));
    }

    /// Ends the session with `reply`.
    fn end(self, reply: String) -> (turn: Turn)
        ensures
            turn@ == finished(self@.log, reply@),
    {
        let changed: Vec<String> = order::sort_distinct(self.changed);
        Turn::Finished(AgentResult { reply, actions: self.actions, changed })
    }

    /// Goes on to the next round, unless there were enough.
    fn next_round(self) -> (turn: Turn)
        requires
            self.valid(),
        ensures
            turn@ == next_round(self@),
            turn matches Turn::Next(session, step) ==> session.valid(),
    {
        let mut session = self;
        if session.rounds + 1 >= MAX_ROUNDS {
            session.end(prompts::TOO_MANY_ROUNDS.to_owned())
        } else {
            session.rounds = session.rounds + 1;
            assert(session@ =~= (SessionView { rounds: self@.rounds + 1, ..self@ }));
            Turn::Next(session, Step::Ask)
        }
    }

    /// Logs an action.
    fn act(&mut self, mark: &str, target: &str)
        ensures
            final(self)@ == (SessionView {
                log: Log {
                    actions: old(self)@.log.actions.push(mark@ + target@),
                    ..old(self)@.log
                },
                ..old(self)@
            }),
            final(self).tasks == old(self).tasks,
            final(self).at == old(self).at,
    {
        let ghost before = self.actions@;
        let mut action: String = mark.to_owned();
        action.append(target);
        self.actions.push(action);
        assert(text::texts(self.actions@) =~= text::texts(before).push(mark@ + target@));
    }

    /// Notes a path as changed.
    fn change(&mut self, target: &str)
        ensures
            final(self)@ == (SessionView {
                log: Log {
                    changed: old(self)@.log.changed.push(target@),
                    ..old(self)@.log
                },
                ..old(self)@
            }),
            final(self).tasks == old(self).tasks,
            final(self).at == old(self).at,
    {
        let ghost before = self.changed@;
        self.changed.push(target.to_owned());
        assert(text::texts(self.changed@) =~= text::texts(before).push(target@));
    }

    /// Adds to what the model is told.
    fn tell(&mut self, s: &str)
        ensures
            final(self)@ == (SessionView {
                log: Log { feedback: old(self)@.log.feedback + s@, ..old(self)@.log },
                ..old(self)@
            }),
            final(self).tasks == old(self).tasks,
            final(self).at == old(self).at,
    {
        self.feedback.append(s);
    }

    /// Settles the first pending task.
    fn settle_first(&mut self, outcome: Result<String, String>)
        requires
            old(self).valid(),
            old(self)@.pending.len() > 0,
        ensures
            final(self)@ == settled(old(self)@, outcome_view(outcome)),
            final(self).valid(),
    {
        let kind: TaskKind = self.tasks[self.at].kind;
        let target: String = self.tasks[self.at].target.clone();
        let ghost task = self@.pending[0];
        assert(task.kind == kind && task.target == target@);
        let at: &str = target.as_str();
        match kind {
            TaskKind::Delete => match outcome {
                Ok(_) => {
                    self.act("🗑️ 삭제: ", at);
                    self.change(at);
                    self.tell(concat3("deleted ", at, "\n").as_str());
                },
                Err(e) => {
                    self.tell(failure("delete ", at, e.as_str()).as_str());
                },
            },
            TaskKind::Read => {
                self.act("👀 읽기: ", at);
                match outcome {
                    Ok(content) => {
                        self.tell(workspace::section_of(at, content.as_str()).as_str());
                    },
                    Err(e) => {
                        self.tell(failure("read ", at, e.as_str()).as_str());
                    },
                }
            },
            TaskKind::Search => {
                self.act("🔍 검색: ", at);
                let report: String = match outcome {
                    Ok(s) => s,
                    Err(s) => s,
                };
                let mut found: String = concat3("search '", at, "':\n");
                found.append(report.as_str());
                found.append("\n\n");
                self.tell(found.as_str());
            },
            TaskKind::Write => match outcome {
                Ok(_) => {
                    self.act("✏️ 쓰기: ", at);
                    self.change(at);
                    self.tell(concat3("wrote ", at, "\n").as_str());
                },
                Err(e) => {
                    self.tell(failure("write ", at, e.as_str()).as_str());
                },
            },
            TaskKind::Run => {
                self.act("⚙️ 실행: ", at);
                let report: String = match outcome {
                    Ok(s) => s,
                    Err(s) => s,
                };
                if !text::contains(report.as_str(), "exit code: 0") {
                    self.any_fail = true;
                }
                self.run_sig.append(concat3(at, "\n", report.as_str()).as_str());
                let mut told: String = concat3("$ ", at, "\n");
                told.append(report.as_str());
                told.append("\n");
                self.tell(told.as_str());
                self.last_output = report;
                self.ran = true;
            },
        }
        let count: usize = self.tasks.len();
        assert(self.at < count);
        self.at = self.at + 1;
        proof {
            assert(self@.pending =~= old(self)@.pending.drop_first());
            assert(self@.log =~= settle(old(self)@.log, task, outcome_view(outcome)));
            assert(self@ =~= settled(old(self)@, outcome_view(outcome)));
        }
    }

    /// Ends a round that has no task left.
    fn end_round(self) -> (turn: Turn)
        requires
            self.valid(),
        ensures
            turn@ == end_round(self@),
            turn matches Turn::Next(session, step) ==> session.valid(),
    {
        let mut session = self;
        let repeat: bool = session.any_fail && !session.run_sig.as_str().is_empty()
            && session.run_sig == session.last_run_sig;
        session.repeats = if repeat {
            session.repeats + 1
        } else {
            0
        };
        session.last_run_sig = session.run_sig.clone();
        if session.repeats >= MAX_REPEATS {
            let reply: String = concat3(
                prompts::STUCK_BEFORE,
                session.last_output.as_str(),
                prompts::STUCK_BEHIND,
            );
            return session.end(reply);
        }
        if session.any_fail && session.repeats >= 1 {
            session.feedback.append(prompts::SAME_FAILURE);
        } else if session.any_fail {
            session.feedback.append(prompts::COMMAND_FAILED);
        } else if !session.ran {
            session.feedback.append(prompts::NOTHING_RAN);
        }
        let feedback: String = session.feedback.clone();
        assert(feedback@ =~= self@.log.feedback + advice(self@.log, session@.repeats));
        session.say("user", feedback);
        session.next_round()
    }

    /// Goes on to the next task that is not refused, or to the end of the round.
    fn perform(self) -> (turn: Turn)
        requires
            self.valid(),
        ensures
            turn@ == perform(self@),
            turn matches Turn::Next(session, step) ==> session.valid(),
    {
        let mut session = self;
        while session.at < session.tasks.len()
            invariant
                session.valid(),
                perform(session@) == perform(self@),
            decreases session@.pending.len(),
        {
            assert(session@.pending[0] == session.tasks@[session.at as int]@);
            match plan_step(session.platform, &session.tasks[session.at]) {
                Ok(step) => {
                    return Turn::Next(session, step);
                },
                Err(e) => {
                    session.settle_first(Err(e));
                },
            }
        }
        session.end_round()
    }

    /// Takes what came of the step in progress. A deletion or a write that was done gives `Ok` of
    /// any text, a file that was read its content, a search and a command their reports; what
    /// failed gives the reason.
    pub fn on_outcome(self, outcome: Result<String, String>) -> (turn: Turn)
        requires
            self.valid(),
            self@.awaits_outcome(),
        ensures
            turn@ == after_outcome(self@, outcome_view(outcome)),
            turn matches Turn::Next(session, step) ==> {
                &&& session.valid()
                &&& step is Ask ==> session@.awaits_reply()
                &&& !(step is Ask) ==> session@.awaits_outcome()
            },
    {
        let mut session = self;
        session.settle_first(outcome);
        proof {
            lemma_perform_waits(session@);
        }
        session.perform()
    }

    /// Takes the model's reply, which asks for `requested` and gives up where `gave_up` says so.
    pub fn on_request(self, reply: String, requested: Blocks, gave_up: bool) -> (turn: Turn)
        requires
            self.valid(),
            self@.awaits_reply(),
        ensures
            turn@ == after_request(self@, reply@, requested@, gave_up),
            turn matches Turn::Next(session, step) ==> {
                &&& session.valid()
                &&& step is Ask ==> session@.awaits_reply()
                &&& !(step is Ask) ==> session@.awaits_outcome()
            },
    {
        let mut session = self;
        session.say("assistant", reply.clone());
        assert(session@ =~= told(self@, reply@));
        if requested.is_empty() {
            if session.retries < MAX_RETRIES && (session.actions.len() == 0 || gave_up) {
                assert(session@.log.actions.len() == session.actions@.len());
                session.retries = session.retries + 1;
                session.temperature = Temperature::Varied;
                session.say("user", prompts::KEEP_TRYING.to_owned());
                session.next_round()
            } else {
                assert(session@.log.actions.len() == session.actions@.len());
                session.end(reply)
            }
        } else {
            session.feedback = String::new();
            session.any_fail = false;
            session.run_sig = String::new();
            session.last_output = String::new();
            session.ran = false;
            session.tasks = tasks_of(&requested);
            session.at = 0;
            proof {
                assert(session@.pending =~= round_tasks(requested@));
                assert(session@ =~= (SessionView {
                    log: fresh(self@.log),
                    pending: round_tasks(requested@),
                    ..told(self@, reply@)
                }));
                lemma_perform_waits(session@);
            }
            session.perform()
        }
    }

    /// Takes the model's reply.
    pub fn on_reply(self, reply: String) -> (turn: Turn)
        requires
            self.valid(),
            self@.awaits_reply(),
        ensures
            turn@ == after_reply(self@, reply@),
            blocks::lowers_ascii(reply@),
            vstd::utf8::is_ascii_chars(reply@) ==> text::lowercase(reply@)
                == text::ascii_lowercase(reply@),
            turn matches Turn::Next(session, step) ==> {
                &&& session.valid()
                &&& step is Ask ==> session@.awaits_reply()
                &&& !(step is Ask) ==> session@.awaits_outcome()
            },
    {
        let requested: Blocks = blocks::parse_blocks(reply.as_str());
        let lower: String = text::lowercased(reply.as_str());
        let gave_up: bool = giving_up(reply.as_str(), lower.as_str());
        self.on_request(reply, requested, gave_up)
    }
}

/// Where a round stops, the session waits: for a reply if it is to ask, else for an outcome.
proof fn lemma_perform_waits(s: SessionView)
    ensures
        perform(s) matches TurnView::Next(next, step) ==> {
            &&& step is Ask ==> next.awaits_reply()
            &&& !(step is Ask) ==> next.awaits_outcome()
        },
    decreases s.pending.len(),
{
    if s.pending.len() > 0 {
        match step_of(s.platform, s.pending[0]) {
            Ok(step) => {},
            Err(e) => {
                lemma_perform_waits(settled(s, Err(e)));
            },
        }
    }
}

} // verus!
