use lothelper::agent::{
    giving_up, plan_step, AgentResult, AgentSession, Step, Task, TaskKind, Temperature, Turn,
};
use lothelper::blocks::Blocks;
use lothelper::chat::{new_message, ChatMessage};
use lothelper::paths::Platform;
use lothelper::prompts::{
    AGENT_SYSTEM, COMMAND_FAILED, KEEP_TRYING, NOTHING_RAN, SAME_FAILURE, STUCK_BEFORE,
    STUCK_BEHIND, TOO_MANY_ROUNDS, TREE_INTRO,
};
use lothelper::shell::{run_report, ShellOutcome};

fn begin() -> AgentSession {
    AgentSession::start(Platform::Unix, "", "", vec![new_message("user", "do it".to_string())])
}

fn next(turn: Turn) -> (AgentSession, Step) {
    match turn {
        Turn::Next(session, step) => (session, step),
        Turn::Finished(result) => panic!("{result:?}"),
    }
}

fn result(turn: Turn) -> AgentResult {
    match turn {
        Turn::Next(_, step) => panic!("{step:?}"),
        Turn::Finished(result) => result,
    }
}

fn asked(turn: Turn) -> AgentSession {
    let (session, step) = next(turn);
    assert!(matches!(step, Step::Ask), "{step:?}");
    session
}

fn ok() -> Result<String, String> {
    Ok(String::new())
}

fn last(session: &AgentSession) -> &ChatMessage {
    match session.conversation().last() {
        Some(m) => m,
        None => panic!(),
    }
}

#[test]
fn a_session_begins_with_the_project() {
    let session = AgentSession::start(
        Platform::Unix,
        "a.rs\nb.rs",
        "--- a.rs ---\nx\n\n",
        vec![new_message("user", "hi".to_string())],
    );
    let convo = session.conversation();
    assert_eq!(convo.len(), 4);
    assert_eq!((convo[0].role.as_str(), convo[0].content.as_str()), ("system", AGENT_SYSTEM));
    assert_eq!(convo[1].role, "system");
    assert_eq!(convo[1].content, "Project files (workspace-relative paths):\na.rs\nb.rs");
    assert_eq!(convo[2].role, "system");
    assert_eq!(
        convo[2].content,
        "Snapshot of small files (larger ones are truncated — use ```read:<path> for full content). To edit a file, re-emit a ```file:<path> block with its FULL new content:\n\n--- a.rs ---\nx\n\n"
    );
    assert_eq!((convo[3].role.as_str(), convo[3].content.as_str()), ("user", "hi"));
    assert_eq!(session.temperature(), Temperature::Steady);
    assert_eq!(TREE_INTRO, "Project files (workspace-relative paths):\n");
    let session = AgentSession::start(Platform::Unix, " \n", "", Vec::new());
    assert_eq!(session.conversation().len(), 1);
}

#[test]
fn tasks_are_done_in_their_order() {
    let reply = "```run\nmake\n```\n```file:b.txt\nnew\n```\n```search:todo\n```\n```read:src/a.rs\n```\n```delete:old\n```";
    let (session, step) = next(begin().on_reply(reply.to_string()));
    assert!(matches!(&step, Step::Delete(names) if names == &["old"]), "{step:?}");
    let (session, step) = next(session.on_outcome(ok()));
    assert!(matches!(&step, Step::Read(names) if names == &["src", "a.rs"]), "{step:?}");
    let (session, step) = next(session.on_outcome(Ok("fn a() {}".to_string())));
    assert!(matches!(&step, Step::Search(query) if query == "todo"), "{step:?}");
    let (session, step) = next(session.on_outcome(Ok("x:1: todo\n".to_string())));
    assert!(matches!(&step, Step::Write(names, content) if names == &["b.txt"] && content == "new"), "{step:?}");
    let (session, step) = next(session.on_outcome(ok()));
    assert!(matches!(&step, Step::Run(command) if command == "make"), "{step:?}");
    let session = asked(session.on_outcome(Ok("exit code: 0\nfine".to_string())));
    let convo = session.conversation();
    assert_eq!(convo.len(), 4);
    assert_eq!((convo[2].role.as_str(), convo[2].content.as_str()), ("assistant", reply));
    assert_eq!(convo[3].role, "user");
    assert_eq!(
        convo[3].content,
        "deleted old\n--- src/a.rs ---\nfn a() {}\n\nsearch 'todo':\nx:1: todo\n\n\nwrote b.txt\n$ make\nexit code: 0\nfine\n"
    );
    let end = result(session.on_reply("All done.".to_string()));
    assert_eq!(end.reply, "All done.");
    assert_eq!(
        end.actions,
        vec!["🗑️ 삭제: old", "👀 읽기: src/a.rs", "🔍 검색: todo", "✏️ 쓰기: b.txt", "⚙️ 실행: make"]
    );
    assert_eq!(end.changed, vec!["b.txt", "old"]);
}

#[test]
fn failures_are_told_to_the_model() {
    let (session, _) = next(begin().on_reply("```delete:a\n```\n```read:b\n```\n```file:c\nx\n```".to_string()));
    let (session, _) = next(session.on_outcome(Err("gone".to_string())));
    let (session, _) = next(session.on_outcome(Err("no text".to_string())));
    let session = asked(session.on_outcome(Err("read-only".to_string())));
    assert_eq!(
        last(&session).content,
        format!("delete a ERROR: gone\nread b ERROR: no text\nwrite c ERROR: read-only\n{NOTHING_RAN}")
    );
    let end = result(session.on_reply("done".to_string()));
    assert_eq!(end.actions, vec!["👀 읽기: b"]);
    assert!(end.changed.is_empty());
}

#[test]
fn refused_paths_are_not_acted_on() {
    let session = asked(begin().on_reply(
        "```delete:../a\n```\n```read:/etc/passwd\n```\n```file:x/../y\nz\n```".to_string(),
    ));
    assert_eq!(
        last(&session).content,
        format!(
            "delete ../a ERROR: '..' 경로는 허용되지 않습니다.\nread /etc/passwd ERROR: 절대 경로는 허용되지 않습니다.\nwrite x/../y ERROR: '..' 경로는 허용되지 않습니다.\n{NOTHING_RAN}"
        )
    );
    let end = result(session.on_reply("done".to_string()));
    assert_eq!(end.actions, vec!["👀 읽기: /etc/passwd"]);
    assert!(end.changed.is_empty());
}

#[test]
fn a_refused_path_does_not_stop_the_others() {
    let (session, step) = next(begin().on_reply("```file:../a\nx\n```\n```file:b\ny\n```".to_string()));
    assert!(matches!(&step, Step::Write(names, content) if names == &["b"] && content == "y"), "{step:?}");
    let session = asked(session.on_outcome(ok()));
    assert!(last(&session).content.starts_with("write ../a ERROR: "));
}

#[test]
fn a_long_file_is_read_whole() {
    let (session, _) = next(begin().on_reply("```read:big\n```".to_string()));
    let session = asked(session.on_outcome(Ok("가".repeat(30000))));
    assert_eq!(last(&session).content, format!("--- big ---\n{}\n\n{NOTHING_RAN}", "가".repeat(30000)));
    let end = result(session.on_reply("done".to_string()));
    assert_eq!(end.actions, vec!["👀 읽기: big"]);
    assert!(end.changed.is_empty());
}

#[test]
fn an_idle_model_is_pushed_three_times() {
    let mut session = begin();
    for _ in 0..3 {
        session = asked(session.on_reply("Sure, I will.".to_string()));
        assert_eq!((last(&session).role.as_str(), last(&session).content.as_str()), ("user", KEEP_TRYING));
        assert_eq!(session.temperature(), Temperature::Varied);
    }
    let end = result(session.on_reply("Sure, I will.".to_string()));
    assert_eq!(end.reply, "Sure, I will.");
    assert!(end.actions.is_empty() && end.changed.is_empty());
}

#[test]
fn a_model_that_gives_up_is_pushed() {
    let (session, _) = next(begin().on_reply("```run\nmake\n```".to_string()));
    let session = asked(session.on_outcome(Ok("exit code: 0\n".to_string())));
    let session = asked(session.on_reply("I CANNOT go on.".to_string()));
    assert_eq!(last(&session).content, KEEP_TRYING);
    let session = asked(session.on_reply("죄송합니다.".to_string()));
    let end = result(session.on_reply("The build passed.".to_string()));
    assert_eq!(end.reply, "The build passed.");
}

#[test]
fn giving_up_has_its_words() {
    for reply in [
        "I cannot", "I CAN'T", "Unable", "impossible", "Not possible", "I'm sorry", "I am sorry",
        "안 됩니다", "안됩니다", "할 수 없", "불가능", "죄송", "못 하", "못합니다", "안돼", "안 돼",
        "어렵습니다",
    ] {
        assert!(giving_up(reply, &reply.to_lowercase()), "{reply}");
    }
    assert!(!giving_up("Done", "done") && !giving_up("CANNOT", "done"));
}

#[test]
fn the_same_failure_ends_the_session() {
    let failing = "```file:a.c\nx\n```\n```run\nmake\n```";
    let output = "exit code: 2\nerror";
    let mut session = begin();
    for round in 0..3 {
        let (s, _) = next(session.on_reply(failing.to_string()));
        let (s, _) = next(s.on_outcome(ok()));
        session = asked(s.on_outcome(Ok(output.to_string())));
        let advice = if round == 0 { COMMAND_FAILED } else { SAME_FAILURE };
        assert_eq!(last(&session).content, format!("wrote a.c\n$ make\n{output}\n{advice}"));
    }
    let (session, _) = next(session.on_reply(failing.to_string()));
    let (session, _) = next(session.on_outcome(ok()));
    let end = result(session.on_outcome(Ok(output.to_string())));
    assert_eq!(end.reply, format!("{STUCK_BEFORE}{output}{STUCK_BEHIND}"));
    assert_eq!(
        end.reply,
        "다른 방법을 시도했는데도 같은 오류가 계속 나서 중단했습니다.\n\n```\nexit code: 2\nerror\n```\n\n오류를 직접 보고 고치거나, 더 작게 나눠 지시해 주세요."
    );
    assert_eq!(end.changed, vec!["a.c"]);
    assert_eq!(end.actions.len(), 8);
}

#[test]
fn another_failure_starts_the_count_anew() {
    let mut session = begin();
    for output in ["exit code: 1\na", "exit code: 1\na", "exit code: 1\nb", "exit code: 1\nb", "exit code: 1\nb"] {
        let (s, _) = next(session.on_reply("```run\nmake\n```".to_string()));
        session = asked(s.on_outcome(Ok(output.to_string())));
    }
    assert!(last(&session).content.ends_with(SAME_FAILURE));
    let (s, _) = next(session.on_reply("```run\nmake\n```".to_string()));
    let end = result(s.on_outcome(Ok("exit code: 1\nb".to_string())));
    assert!(end.reply.starts_with(STUCK_BEFORE));
}

#[test]
fn a_command_succeeds_by_its_report() {
    let (session, _) = next(begin().on_reply("```run\na\nb\n```".to_string()));
    let (session, step) = next(session.on_outcome(Ok("TIMEOUT: 240".to_string())));
    assert!(matches!(&step, Step::Run(command) if command == "b"), "{step:?}");
    let session = asked(session.on_outcome(Ok("exit code: 0\n".to_string())));
    assert_eq!(last(&session).content, format!("$ a\nTIMEOUT: 240\n$ b\nexit code: 0\n\n{COMMAND_FAILED}"));
}

#[test]
fn a_command_succeeds_by_its_code() {
    for (code, output, failed) in [
        (Some(0), "fine".to_string(), false),
        (Some(10), "bad".to_string(), true),
        (None, "bad".to_string(), true),
        (Some(1), "nested exit code: 0".to_string(), false),
        // The code is no longer in the report.
        (Some(0), "x".repeat(5000), true),
    ] {
        let report = run_report(ShellOutcome::Finished { code, stdout: output.into_bytes(), stderr: Vec::new() });
        let (session, _) = next(begin().on_reply("```run\nmake\n```".to_string()));
        let session = asked(session.on_outcome(Ok(report)));
        assert_eq!(last(&session).content.ends_with(COMMAND_FAILED), failed, "{code:?}");
    }
}

#[test]
fn a_session_takes_no_more_replies_than_the_limit() {
    let mut session = begin();
    for _ in 0..24 {
        let (s, _) = next(session.on_reply("```run\nmake\n```".to_string()));
        session = asked(s.on_outcome(Ok("exit code: 0\n".to_string())));
    }
    let (s, _) = next(session.on_reply("```run\nmake\n```".to_string()));
    let end = result(s.on_outcome(Ok("exit code: 0\n".to_string())));
    assert_eq!(end.reply, TOO_MANY_ROUNDS);
    assert_eq!(end.reply, "(반복 한도에 도달해 중단했습니다. 더 작게 나눠 다시 시도해 주세요.)");
    assert_eq!(end.actions.len(), 25);
}

#[test]
fn a_request_is_taken_as_it_is_read() {
    let mut requested = Blocks::default();
    requested.add_block("read:x", "read:x", String::new());
    let (_, step) = next(begin().on_request("anything".to_string(), requested, false));
    assert!(matches!(&step, Step::Read(names) if names == &["x"]), "{step:?}");
    let (session, _) = next(begin().on_reply("```run\nmake\n```".to_string()));
    let session = asked(session.on_outcome(Ok("exit code: 0".to_string())));
    let session = asked(session.on_request("no".to_string(), Blocks::default(), true));
    let end = result(session.on_request("no".to_string(), Blocks::default(), false));
    assert_eq!(end.reply, "no");
}

#[test]
fn a_block_without_tasks_is_a_plain_reply() {
    let session = asked(begin().on_reply("```run\n\n```".to_string()));
    assert_eq!(last(&session).content, KEEP_TRYING);
}

#[test]
fn a_step_is_planned_for_each_task() {
    let task = |kind: TaskKind, target: &str| Task {
        kind,
        target: target.to_string(),
        content: "c".to_string(),
    };
    assert!(matches!(plan_step(Platform::Unix, &task(TaskKind::Run, "../x")), Ok(Step::Run(c)) if c == "../x"));
    assert!(matches!(plan_step(Platform::Unix, &task(TaskKind::Search, "/x")), Ok(Step::Search(q)) if q == "/x"));
    assert!(matches!(plan_step(Platform::Unix, &task(TaskKind::Delete, "./x")), Ok(Step::Delete(n)) if n == ["x"]));
    assert!(matches!(plan_step(Platform::Unix, &task(TaskKind::Write, "x/y")), Ok(Step::Write(n, c)) if n == ["x", "y"] && c == "c"));
    assert!(matches!(plan_step(Platform::Windows, &task(TaskKind::Read, "C:x")), Err(e) if e == "절대 경로는 허용되지 않습니다."));
}

#[test]
fn what_was_changed_is_reported_once_and_in_order() {
    let (mut session, _) = next(begin().on_reply(
        "```file:b\n1\n```\n```file:a\n2\n```\n```file:b\n3\n```\n```run\nmake\n```".to_string(),
    ));
    for _ in 0..3 {
        session = next(session.on_outcome(ok())).0;
    }
    let session = asked(session.on_outcome(Ok("exit code: 0".to_string())));
    let end = result(session.on_reply("done".to_string()));
    assert_eq!(end.changed, vec!["a", "b"]);
    assert_eq!(end.actions.len(), 4);
}

#[test]
fn only_what_was_done_is_reported_as_changed() {
    let (session, _) = next(begin().on_reply(
        "```delete:gone\n```\n```delete:old\n```\n```read:seen\n```\n```file:kept\n1\n```\n```file:new\n2\n```".to_string(),
    ));
    let (session, _) = next(session.on_outcome(Err("gone".to_string())));
    let (session, _) = next(session.on_outcome(ok()));
    let (session, _) = next(session.on_outcome(Ok("text".to_string())));
    let (session, _) = next(session.on_outcome(Err("read-only".to_string())));
    let session = asked(session.on_outcome(ok()));
    let end = result(session.on_reply("done".to_string()));
    assert_eq!(end.changed, vec!["new", "old"]);
}

#[test]
fn a_path_without_names_is_the_project_folder() {
    let (session, step) = next(begin().on_reply("```delete:.\n```".to_string()));
    assert!(matches!(&step, Step::Delete(names) if names.is_empty()), "{step:?}");
    let session = asked(session.on_outcome(Err("in use".to_string())));
    assert!(last(&session).content.starts_with("delete . ERROR: in use\n"));
}
