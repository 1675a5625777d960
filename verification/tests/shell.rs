use lothelper::paths::Platform;
use lothelper::shell::{
    clip_output, dump_script, dumped_environment, editor_command, environment_of, file_manager,
    finished, found_installation, installation_of, kill_command, msvc_env, run_report,
    shell_command, vswhere_args, CommandLine, MsvcEnv, ShellOutcome, DUMP_SCRIPT, VCVARS, VSWHERE,
};

fn line(c: CommandLine) -> Vec<String> {
    let mut all = vec![c.program];
    all.extend(c.args);
    all
}

#[test]
fn programs_are_called_as_the_platform_wants() {
    assert_eq!(line(shell_command(Platform::Windows, "dir x")), vec!["cmd", "/C", "dir x"]);
    assert_eq!(line(shell_command(Platform::Unix, "ls x")), vec!["sh", "-c", "ls x"]);
    assert_eq!(line(shell_command(Platform::MacOs, "ls x")), vec!["sh", "-c", "ls x"]);
    assert_eq!(line(kill_command(Platform::Windows, 42)), vec!["taskkill", "/PID", "42", "/T", "/F"]);
    assert_eq!(line(kill_command(Platform::Unix, 42)), vec!["kill", "-9", "42"]);
    assert_eq!(line(editor_command(Platform::Windows)), vec!["cmd", "/C", "code"]);
    assert_eq!(line(editor_command(Platform::Unix)), vec!["code"]);
    assert_eq!(file_manager(Platform::Windows), "explorer");
    assert_eq!(file_manager(Platform::MacOs), "open");
    assert_eq!(file_manager(Platform::Unix), "xdg-open");
}

#[test]
fn a_finished_command_is_reported_with_its_code() {
    let report = run_report(ShellOutcome::Finished {
        code: Some(0),
        stdout: b"out\n".to_vec(),
        stderr: b"err".to_vec(),
    });
    assert_eq!(report, "exit code: 0\nout\nerr");
    let report = run_report(ShellOutcome::Finished { code: None, stdout: Vec::new(), stderr: Vec::new() });
    assert_eq!(report, "exit code: -1\n");
    assert_eq!(finished(Some(-1073741819), "a", "b"), "exit code: -1073741819\nab");
}

#[test]
fn bytes_that_are_no_text_are_replaced() {
    let report = run_report(ShellOutcome::Finished {
        code: Some(1),
        stdout: vec![0xff, b'a', 0xea, 0xb0],
        stderr: "가".as_bytes().to_vec(),
    });
    assert_eq!(report, "exit code: 1\n\u{fffd}a\u{fffd}가");
}

#[test]
fn other_ends_of_a_command_are_reported() {
    assert_eq!(run_report(ShellOutcome::NotStarted("no such file".to_string())), "실행 실패: no such file");
    assert_eq!(run_report(ShellOutcome::Lost("broken".to_string())), "실행 오류: broken");
    assert_eq!(run_report(ShellOutcome::TimedOut(240)), "TIMEOUT: 240초 내에 끝나지 않아 종료했습니다.");
    let long = "x".repeat(5000);
    assert_eq!(run_report(ShellOutcome::NotStarted(long.clone())).len(), "실행 실패: ".len() + 5000);
    assert_eq!(
        run_report(ShellOutcome::Lost(long)),
        format!("...(앞부분 생략)...\n{}", "x".repeat(4000))
    );
}

#[test]
fn a_long_output_keeps_its_end() {
    let short = "y".repeat(4000);
    assert_eq!(clip_output(short.clone()), short);
    assert_eq!(clip_output(format!("a{short}")), format!("...(앞부분 생략)...\n{short}"));
    let wide = "가".repeat(2000);
    assert_eq!(clip_output(wide), format!("...(앞부분 생략)...\n{}", "가".repeat(1333)));
    let report = run_report(ShellOutcome::Finished {
        code: Some(0),
        stdout: "z".repeat(6000).into_bytes(),
        stderr: b"end".to_vec(),
    });
    assert_eq!(report, format!("...(앞부분 생략)...\n{}end", "z".repeat(3997)));
}

#[test]
fn the_compilers_are_looked_for() {
    assert_eq!(vswhere_args(), vec!["-latest", "-products", "*", "-property", "installationPath"]);
    assert_eq!(VSWHERE, "Microsoft Visual Studio\\Installer\\vswhere.exe");
    assert_eq!(VCVARS, "VC\\Auxiliary\\Build\\vcvars64.bat");
    assert_eq!(DUMP_SCRIPT, "cppai_vcvars_dump.bat");
    assert_eq!(installation_of(" C:\\VS \r\nD:\\VS\r\n").as_deref(), Some("C:\\VS"));
    assert_eq!(installation_of(""), None);
    assert_eq!(installation_of("  \nC:\\VS"), None);
    assert_eq!(found_installation(b"C:\\VS\r\n").as_deref(), Some("C:\\VS"));
    assert_eq!(found_installation(&[b'C', 0xff]).as_deref(), Some("C\u{fffd}"));
    assert_eq!(found_installation(b""), None);
    assert_eq!(dump_script("C:\\v.bat"), "@echo off\r\ncall \"C:\\v.bat\" >nul 2>&1\r\nset\r\n");
}

#[test]
fn a_dumped_environment_is_read() {
    let pair = |k: &str, v: &str| (k.to_string(), v.to_string());
    assert_eq!(
        environment_of("PATH=a;b\r\nnothing\r\nX=1=2\r\n=C:=x\r\nEMPTY="),
        Some(vec![pair("PATH", "a;b"), pair("X", "1=2"), pair("", "C:=x"), pair("EMPTY", "")])
    );
    assert_eq!(environment_of("nothing here\n"), None);
    assert_eq!(dumped_environment(b"A=\xff\r\n"), Some(vec![pair("A", "\u{fffd}")]));
    assert_eq!(dumped_environment(b""), None);
}

#[test]
fn there_is_no_environment_without_the_compilers() {
    let pair = |k: &str, v: &str| (k.to_string(), v.to_string());
    assert_eq!(msvc_env(Some(b"C:\\VS\r\n"), Some(b"A=1=2\r\n")), Some(vec![pair("A", "1=2")]));
    assert_eq!(msvc_env(None, Some(b"A=1")), None);
    assert_eq!(msvc_env(Some(b"C:\\VS"), None), None);
    assert_eq!(msvc_env(Some(b""), Some(b"A=1")), None);
    assert_eq!(msvc_env(Some(b"C:\\VS"), Some(b"nothing")), None);
    assert_eq!(msvc_env(None, None), None);
}

#[test]
fn the_environment_is_looked_for_once() {
    let mut env = MsvcEnv::new();
    assert!(env.is_unknown());
    assert_eq!(env.variables(), None);
    env.learn(Some(b"C:\\VS"), Some(b"A=1"));
    assert!(!env.is_unknown());
    env.learn(Some(b"C:\\VS"), Some(b"B=2"));
    env.learn(None, None);
    assert_eq!(env.variables(), Some(&vec![("A".to_string(), "1".to_string())]));
    let mut env = MsvcEnv::new();
    env.learn(None, None);
    assert!(!env.is_unknown());
    env.learn(Some(b"C:\\VS"), Some(b"A=1"));
    assert_eq!(env.variables(), None);
}
