//! Commands of the operating system: how they are called, and what is reported of them.

use vstd::prelude::*;

use crate::clip;
use crate::number;
use crate::paths::Platform;
use crate::text;

verus! {

/// The most bytes of a command's output that are reported: its end, where errors usually appear.
pub const MAX_OUTPUT: usize = 4000;

/// Where the finder of the Microsoft compilers lies below the 32-bit program folder.
pub const VSWHERE: &'static str = "Microsoft Visual Studio\\Installer\\vswhere.exe";

/// Where the script that sets up the compilers lies below their installation.
pub const VCVARS: &'static str = "VC\\Auxiliary\\Build\\vcvars64.bat";

/// The file that the environment of the compilers is dumped by.
pub const DUMP_SCRIPT: &'static str = "cppai_vcvars_dump.bat";

/// A program and what it is called with.
#[derive(Debug)]
pub struct CommandLine {
    pub program: String,
    pub args: Vec<String>,
}

/// `line` calls `program` with `args`.
pub open spec fn calls(line: CommandLine, program: Seq<char>, args: Seq<Seq<char>>) -> bool {
    line.program@ == program && text::texts(line.args@) == args
}

/// How a shell is called to run `command`: the program, and what it is called with.
pub open spec fn shell_line(platform: Platform, command: Seq<char>) -> (Seq<char>, Seq<Seq<char>>) {
    if platform == Platform::Windows {
        ("cmd"@, seq!["/C"@, command])
    } else {
        ("sh"@, seq!["-c"@, command])
    }
}

/// How a shell is called to run `command`.
pub fn shell_command(platform: Platform, command: &str) -> (line: CommandLine)
    ensures
        if platform == Platform::Windows {
            calls(line, "cmd"@, seq!["/C"@, command@])
        } else {
            calls(line, "sh"@, seq!["-c"@, command@])
        },
        line.program@ == shell_line(platform, command@).0,
        text::texts(line.args@) == shell_line(platform, command@).1,
{
    let mut args: Vec<String> = Vec::new();
    if platform == Platform::Windows {
        args.push("/C".to_owned());
        args.push(command.to_owned());
        assert(text::texts(args@) =~= seq!["/C"@, command@]);
        CommandLine { program: "cmd".to_owned(), args }
    } else {
        args.push("-c".to_owned());
        args.push(command.to_owned());
        assert(text::texts(args@) =~= seq!["-c"@, command@]);
        CommandLine { program: "sh".to_owned(), args }
    }
}

/// How the process `pid` is killed: the program, and what it is called with.
pub open spec fn kill_line(platform: Platform, pid: u32) -> (Seq<char>, Seq<Seq<char>>) {
    if platform == Platform::Windows {
        ("taskkill"@, seq!["/PID"@, number::decimal(pid as nat), "/T"@, "/F"@])
    } else {
        ("kill"@, seq!["-9"@, number::decimal(pid as nat)])
    }
}

/// How the process `pid` is killed.
pub fn kill_command(platform: Platform, pid: u32) -> (line: CommandLine)
    ensures
        if platform == Platform::Windows {
            calls(
                line,
                "taskkill"@,
                seq!["/PID"@, number::decimal(pid as nat), "/T"@, "/F"@],
            )
        } else {
            calls(line, "kill"@, seq!["-9"@, number::decimal(pid as nat)])
        },
        line.program@ == kill_line(platform, pid).0,
        text::texts(line.args@) == kill_line(platform, pid).1,
{
    let mut args: Vec<String> = Vec::new();
    let id: String = number::decimal_text(pid as u64);
    if platform == Platform::Windows {
        args.push("/PID".to_owned());
        args.push(id);
        args.push("/T".to_owned());
        args.push("/F".to_owned());
        assert(text::texts(args@) =~= seq!["/PID"@, id@, "/T"@, "/F"@]);
        CommandLine { program: "taskkill".to_owned(), args }
    } else {
        args.push("-9".to_owned());
        args.push(id);
        assert(text::texts(args@) =~= seq!["-9"@, id@]);
        CommandLine { program: "kill".to_owned(), args }
    }
}

/// How the editor is called; what it opens comes behind the arguments.
pub fn editor_command(platform: Platform) -> (line: CommandLine)
    ensures
        if platform == Platform::Windows {
            calls(line, "cmd"@, seq!["/C"@, "code"@])
        } else {
            calls(line, "code"@, seq![])
        },
{
    let mut args: Vec<String> = Vec::new();
    if platform == Platform::Windows {
        args.push("/C".to_owned());
        args.push("code".to_owned());
        assert(text::texts(args@) =~= seq!["/C"@, "code"@]);
        CommandLine { program: "cmd".to_owned(), args }
    } else {
        assert(text::texts(args@) =~= seq![]);
        CommandLine { program: "code".to_owned(), args }
    }
}

/// The file manager that is opened where the editor cannot be.
pub fn file_manager(platform: Platform) -> (program: &'static str)
    ensures
        program@ == match platform {
            Platform::Windows => "explorer"@,
            Platform::MacOs => "open"@,
            Platform::Unix => "xdg-open"@,
        },
{
    match platform {
        Platform::Windows => "explorer",
        Platform::MacOs => "open",
        Platform::Unix => "xdg-open",
    }
}

/// What became of a command.
#[derive(Debug)]
pub enum ShellOutcome {
    /// It could not be started.
    NotStarted(String),
    /// It ended, with what it wrote.
    Finished { code: Option<i32>, stdout: Vec<u8>, stderr: Vec<u8> },
    /// It was started and could not be waited for.
    Lost(String),
    /// It did not end within so many seconds.
    TimedOut(u64),
}

/// What is told of a command that ended with `code` and wrote `stdout` and `stderr`.
pub open spec fn finished_text(code: Option<i32>, stdout: Seq<char>, stderr: Seq<char>) -> Seq<
    char,
> {
    let shown: int = match code {
        Some(c) => c as int,
        None => -1,
    };
    "exit code: "@ + number::signed_decimal(shown) + "\n"@ + stdout + stderr
}

/// The part of `out` that is reported: all of it, or its end behind a mark.
pub open spec fn shown_output(out: Seq<char>) -> Seq<char> {
    if clip::byte_len(out) > MAX_OUTPUT {
        "...(앞부분 생략)...\n"@ + clip::tail(out, MAX_OUTPUT as nat)
    } else {
        out
    }
}

/// What is reported of a command.
pub open spec fn report(outcome: ShellOutcome) -> Seq<char> {
    match outcome {
        ShellOutcome::NotStarted(e) => "실행 실패: "@ + e@,
        ShellOutcome::Finished { code, stdout, stderr } => shown_output(
            finished_text(code, text::utf8_lossy(stdout@), text::utf8_lossy(stderr@)),
        ),
        ShellOutcome::Lost(e) => shown_output("실행 오류: "@ + e@),
        ShellOutcome::TimedOut(seconds) => shown_output(
            "TIMEOUT: "@ + number::decimal(seconds as nat) + "초 내에 끝나지 않아 종료했습니다."@,
        ),
    }
}

/// What is told of a command that ended with `code` and wrote `stdout` and `stderr`.
pub fn finished(code: Option<i32>, stdout: &str, stderr: &str) -> (s: String)
    ensures
        s@ == finished_text(code, stdout@, stderr@),
{
    let shown: i32 = match code {
        Some(c) => c,
        None => -1,
    };
    let mut s: String = "exit code: ".to_owned();
    s.append(number::signed_decimal_text(shown).as_str());
    s.append("\n");
    s.append(stdout);
    s.append(stderr);
    s
}

/// The part of `out` that is reported: all of it, or its end behind a mark.
pub fn clip_output(out: String) -> (s: String)
    ensures
        s@ == shown_output(out@),
{
    if clip::bytes_of(out.as_str()) > MAX_OUTPUT {
        let mut s: String = "...(앞부분 생략)...\n".to_owned();
        s.append(clip::keep_tail(out.as_str(), MAX_OUTPUT).as_str());
        s
    } else {
        out
    }
}

/// What is reported of a command.
pub fn run_report(outcome: ShellOutcome) -> (s: String)
    ensures
        s@ == report(outcome),
{
    match outcome {
        ShellOutcome::NotStarted(e) => {
            let mut s: String = "실행 실패: ".to_owned();
            s.append(e.as_str());
            s
        },
        ShellOutcome::Finished { code, stdout, stderr } => {
            let out: String = text::lossy_text(stdout.as_slice());
            let err: String = text::lossy_text(stderr.as_slice());
            clip_output(finished(code, out.as_str(), err.as_str()))
        },
        ShellOutcome::Lost(e) => {
            let mut s: String = "실행 오류: ".to_owned();
            s.append(e.as_str());
            clip_output(s)
        },
        ShellOutcome::TimedOut(seconds) => {
            let mut s: String = "TIMEOUT: ".to_owned();
            s.append(number::decimal_text(seconds).as_str());
            s.append("초 내에 끝나지 않아 종료했습니다.");
            clip_output(s)
        },
    }
}

/// How the finder of the Microsoft compilers is called.
pub fn vswhere_args() -> (args: Vec<String>)
    ensures
        text::texts(args@) == seq![
            "-latest"@,
            "-products"@,
            "*"@,
            "-property"@,
            "installationPath"@,
        ],
{
    let mut args: Vec<String> = Vec::new();
    args.push("-latest".to_owned());
    args.push("-products".to_owned());
    args.push("*".to_owned());
    args.push("-property".to_owned());
    args.push("installationPath".to_owned());
    assert(text::texts(args@) =~= seq![
        "-latest"@,
        "-products"@,
        "*"@,
        "-property"@,
        "installationPath"@,
    ]);
    args
}

/// The installation that the finder's output names: its first line, unless that is blank.
pub open spec fn installation(out: Seq<char>) -> Option<Seq<char>> {
    if text::lines(out).len() > 0 && text::trim(text::lines(out)[0]).len() > 0 {
        Some(text::trim(text::lines(out)[0]))
    } else {
        None
    }
}

/// The installation that the finder's output names.
pub fn installation_of(out: &str) -> (r: Option<String>)
    ensures
        match r {
            Some(path) => installation(out@) == Some(path@),
            None => installation(out@) is None,
        },
{
    let lines: Vec<String> = text::lines_of(out);
    assert(text::texts(lines@).len() == lines@.len());
    if lines.len() == 0 {
        return None;
    }
    assert(text::texts(lines@)[0] == lines@[0]@);
    let path: String = text::trimmed(lines[0].as_str());
    if path.as_str().is_empty() {
        None
    } else {
        Some(path)
    }
}

/// The installation that the finder wrote.
pub fn found_installation(stdout: &[u8]) -> (r: Option<String>)
    ensures
        match r {
            Some(path) => installation(text::utf8_lossy(stdout@)) == Some(path@),
            None => installation(text::utf8_lossy(stdout@)) is None,
        },
{
    installation_of(text::lossy_text(stdout).as_str())
}

/// The script that sets up the compilers by `vcvars` and dumps the environment they get.
pub open spec fn script_of(vcvars: Seq<char>) -> Seq<char> {
    "@echo off\r\ncall \""@ + vcvars + "\" >nul 2>&1\r\nset\r\n"@
}

/// The script that sets up the compilers by `vcvars` and dumps the environment they get.
pub fn dump_script(vcvars: &str) -> (s: String)
    ensures
        s@ == "@echo off\r\ncall \""@ + vcvars@ + "\" >nul 2>&1\r\nset\r\n"@,
        s@ == script_of(vcvars@),
{
    let mut s: String = "@echo off\r\ncall \"".to_owned();
    s.append(vcvars);
    s.append("\" >nul 2>&1\r\nset\r\n");
    s
}

/// The variables that `lines` set: what stands before and behind the first equals sign of each
/// line that has one.
pub open spec fn variables(lines: Seq<Seq<char>>) -> Seq<(Seq<char>, Seq<char>)>
    decreases lines.len(),
{
    if lines.len() == 0 {
        seq![]
    } else {
        let before = variables(lines.drop_last());
        match text::split_at_first(lines.last(), '=') {
            Some(variable) => before.push(variable),
            None => before,
        }
    }
}

/// The environment that a dump holds, if it holds any.
pub fn environment_of(dump: &str) -> (r: Option<Vec<(String, String)>>)
    ensures
        match r {
            Some(found) => found@.len() > 0 && text::text_pairs(found@) == variables(text::lines(dump@)),
            None => variables(text::lines(dump@)).len() == 0,
        },
{
    let lines: Vec<String> = text::lines_of(dump);
    let ghost all = text::lines(dump@);
    let mut found: Vec<(String, String)> = Vec::new();
    let mut i: usize = 0;
    assert(all.take(0) =~= seq![]);
    assert(text::text_pairs(found@) =~= seq![]);
    while i < lines.len()
        invariant
            all == text::texts(lines@),
            all == text::lines(dump@),
            i <= lines@.len(),
            text::text_pairs(found@) == variables(all.take(i as int)),
        decreases lines@.len() - i,
    {
        assert(all.take(i + 1).drop_last() =~= all.take(i as int));
        assert(all.take(i + 1).last() == lines@[i as int]@);
        let ghost before = found@;
        if let Some(variable) = text::split_once(lines[i].as_str(), '=') {
            found.push(variable);
            assert(text::text_pairs(found@) =~= text::text_pairs(before).push((variable.0@, variable.1@)));
        }
        i = i + 1;
    }
    assert(all.take(i as int) =~= all);
    assert(text::text_pairs(found@).len() == found@.len());
    if found.len() == 0 {
        None
    } else {
        Some(found)
    }
}

/// The environment that was dumped, if any was.
pub fn dumped_environment(stdout: &[u8]) -> (r: Option<Vec<(String, String)>>)
    ensures
        match r {
            Some(found) => {
                &&& found@.len() > 0
                &&& text::text_pairs(found@) == variables(text::lines(text::utf8_lossy(stdout@)))
            },
            None => variables(text::lines(text::utf8_lossy(stdout@))).len() == 0,
        },
{
    environment_of(text::lossy_text(stdout).as_str())
}

/// The environment of the compilers, by what their finder wrote and what the dump of their
/// environment wrote. `None` stands for a program that is missing or could not be run.
pub open spec fn compiler_environment(finder: Option<Seq<u8>>, dump: Option<Seq<u8>>) -> Option<
    Seq<(Seq<char>, Seq<char>)>,
> {
    match (finder, dump) {
        (Some(found), Some(dumped)) => {
            let vars = variables(text::lines(text::utf8_lossy(dumped)));
            if installation(text::utf8_lossy(found)) is Some && vars.len() > 0 {
                Some(vars)
            } else {
                None
            }
        },
        _ => None,
    }
}

/// The view of what a program wrote, if it ran.
pub open spec fn written(out: Option<&[u8]>) -> Option<Seq<u8>> {
    match out {
        Some(bytes) => Some(bytes@),
        None => None,
    }
}

/// The environment of the compilers, by what their finder wrote and what the dump of their
/// environment wrote; none where either is missing.
pub fn msvc_env(finder: Option<&[u8]>, dump: Option<&[u8]>) -> (r: Option<Vec<(String, String)>>)
    ensures
        match r {
            Some(vars) => compiler_environment(written(finder), written(dump)) == Some(
                text::text_pairs(vars@),
            ),
            None => compiler_environment(written(finder), written(dump)) is None,
        },
{
    match (finder, dump) {
        (Some(found), Some(dumped)) => match found_installation(found) {
            Some(_) => dumped_environment(dumped),
            None => None,
        },
        _ => None,
    }
}

/// The environment of the compilers, looked for once.
#[derive(Debug)]
pub struct MsvcEnv {
    known: bool,
    vars: Option<Vec<(String, String)>>,
}

impl View for MsvcEnv {
    type V = Option<Option<Seq<(Seq<char>, Seq<char>)>>>;

    /// What is known of the environment, if it was looked for.
    closed spec fn view(&self) -> Option<Option<Seq<(Seq<char>, Seq<char>)>>> {
        if self.known {
            Some(
                match self.vars {
                    Some(vars) => Some(text::text_pairs(vars@)),
                    None => None,
                },
            )
        } else {
            None
        }
    }
}

/// What is known of the environment, once a search for it brought `found`: what was known before,
/// and else that.
pub open spec fn learned(
    known: Option<Option<Seq<(Seq<char>, Seq<char>)>>>,
    found: Option<Seq<(Seq<char>, Seq<char>)>>,
) -> Option<Option<Seq<(Seq<char>, Seq<char>)>>> {
    match known {
        Some(vars) => Some(vars),
        None => Some(found),
    }
}

impl MsvcEnv {
    /// An environment that was not looked for.
    pub fn new() -> (e: MsvcEnv)
        ensures
            e@ is None,
    {
        MsvcEnv { known: false, vars: None }
    }

    /// Whether the environment is still to be looked for.
    pub fn is_unknown(&self) -> (b: bool)
        ensures
            b == (self@ is None),
    {
        !self.known
    }

    /// Takes what the finder and the dump wrote. What is known already stays.
    pub fn learn(&mut self, finder: Option<&[u8]>, dump: Option<&[u8]>)
        ensures
            final(self)@ == learned(
                old(self)@,
                compiler_environment(written(finder), written(dump)),
            ),
    {
        if !self.known {
            self.vars = msvc_env(finder, dump);
            self.known = true;
        }
    }

    /// The variables of the environment, if it is known and there is one.
    pub fn variables(&self) -> (r: Option<&Vec<(String, String)>>)
        ensures
            match r {
                Some(vars) => self@ == Some(Some(text::text_pairs(vars@))),
                None => self@ is None || self@ == Some(None::<Seq<(Seq<char>, Seq<char>)>>),
            },
    {
        if self.known {
            self.vars.as_ref()
        } else {
            None
        }
    }
}

proof fn lemma_variable_is_a_cut_line(lines: Seq<Seq<char>>, k: int)
    requires
        0 <= k < variables(lines).len(),
    ensures
        !variables(lines)[k].0.contains('='),
        lines.contains(variables(lines)[k].0 + seq!['='] + variables(lines)[k].1),
    decreases lines.len(),
{
    let init = lines.drop_last();
    let line = lines.last();
    let before = variables(init);
    if k < before.len() {
        lemma_variable_is_a_cut_line(init, k);
        let whole = before[k].0 + seq!['='] + before[k].1;
        let j = choose|j: int| 0 <= j < init.len() && init[j] == whole;
        assert(lines[j] == whole);
        assert(variables(lines)[k] == before[k]);
    } else {
        text::lemma_position_of(line, '=');
        let n = text::position_of(line, '=');
        assert(variables(lines)[k] == (line.take(n), line.skip(n + 1)));
        assert(line =~= line.take(n) + seq!['='] + line.skip(n + 1));
        assert(lines[lines.len() - 1] == line);
    }
}

/// There is no environment where the finder or the dump is missing, and where there is one, it
/// is not empty and holds lines of the dump, each cut at its first equals sign.
pub proof fn environments_are_cut_lines(finder: Option<Seq<u8>>, dump: Option<Seq<u8>>)
    ensures
        finder is None || dump is None ==> compiler_environment(finder, dump) is None,
        compiler_environment(finder, dump) matches Some(vars) ==> {
            &&& vars.len() > 0
            &&& forall|k: int|
                0 <= k < vars.len() ==> {
                    &&& !(#[trigger] vars[k]).0.contains('=')
                    &&& text::lines(text::utf8_lossy(dump->0)).contains(
                        vars[k].0 + seq!['='] + vars[k].1,
                    )
                }
        },
{
    if let Some(vars) = compiler_environment(finder, dump) {
        let lines = text::lines(text::utf8_lossy(dump->0));
        assert forall|k: int| 0 <= k < vars.len() implies {
            &&& !(#[trigger] vars[k]).0.contains('=')
            &&& lines.contains(vars[k].0 + seq!['='] + vars[k].1)
        } by {
            lemma_variable_is_a_cut_line(lines, k);
        }
    }
}

/// An environment that is known stays as it is, whatever a later search brings.
pub proof fn known_environments_stay(
    first: Option<Seq<(Seq<char>, Seq<char>)>>,
    later: Option<Seq<(Seq<char>, Seq<char>)>>,
)
    ensures
        learned(None, first) == Some(first),
        learned(learned(None, first), later) == learned(None, first),
{
}

/// What is reported of an output ends as the output does: it is the whole output where that keeps
/// to the limit, and else, behind a mark, the longest end that does.
pub proof fn reports_end_as_the_output(out: Seq<char>)
    ensures
        clip::byte_len(out) <= MAX_OUTPUT ==> shown_output(out) == out,
        clip::byte_len(out) > MAX_OUTPUT ==> {
            let end = clip::tail(out, MAX_OUTPUT as nat);
            &&& shown_output(out) == "...(앞부분 생략)...\n"@ + end
            &&& end == out.skip(out.len() - end.len())
            &&& clip::byte_len(end) <= MAX_OUTPUT
            &&& forall|k: int|
                0 <= k < out.len() - end.len() ==> clip::byte_len(#[trigger] out.skip(k))
                    > MAX_OUTPUT
        },
{
    clip::tail_is_longest_that_fits(out, MAX_OUTPUT as nat);
}

/// The shell is handed the command whole, as its last argument, and nothing else of it depends on
/// the command.
pub proof fn shells_are_handed_the_whole_command(
    platform: Platform,
    command: Seq<char>,
    other: Seq<char>,
)
    ensures
        shell_line(platform, command).1.len() == 2,
        shell_line(platform, command).1[1] == command,
        shell_line(platform, command).1[0] == shell_line(platform, other).1[0],
        shell_line(platform, command).0 == shell_line(platform, other).0,
{
}

/// What kills a process names it by a number that reads back as the process.
pub proof fn the_process_that_overran_is_killed(platform: Platform, pid: u32)
    ensures
        ({
            let (program, args) = kill_line(platform, pid);
            &&& args.len() == (if platform == Platform::Windows {
                4int
            } else {
                2int
            })
            &&& number::all_digits(args[1])
            &&& number::digits_value(args[1]) == pid
        }),
{
    number::lemma_decimal_reads_back(pid as nat);
}

/// The report of a command that ended says its exit code, as a number that reads back, on a first
/// line of its own, then all that it wrote to its output, and then all that it wrote as errors.
pub proof fn reports_tell_all_that_was_written(code: i32, stdout: Seq<char>, stderr: Seq<char>)
    ensures
        ({
            let report = finished_text(Some(code), stdout, stderr);
            let n = text::position_of(report, '\n');
            &&& 11 <= n < report.len()
            &&& report.take(11) == "exit code: "@
            &&& number::written_i32(report.subrange(11, n)) == Some(code)
            &&& report.skip(n + 1) == stdout + stderr
        }),
        finished_text(None, stdout, stderr) == finished_text(Some(-1i32), stdout, stderr),
{
    reveal_strlit("exit code: ");
    reveal_strlit("\n");
    let report = finished_text(Some(code), stdout, stderr);
    let number = number::signed_decimal(code as int);
    let n = 11 + number.len() as int;
    number::signed_decimal_reads_back(code);
    assert forall|i: int| 0 <= i < n implies report[i] != '\n' by {
        if i < 11 {
            assert(report[i] == "exit code: "@[i]);
        } else {
            lemma_number_holds_no_line_feed(code as int, i - 11);
            assert(report[i] == number[i - 11]);
        }
    }
    assert(report[n] == "\n"@[0]);
    text::lemma_position_is(report, '\n', n);
    assert(report.take(11) =~= "exit code: "@);
    assert(report.subrange(11, n) =~= number);
    assert(report.skip(n + 1) =~= stdout + stderr);
}

proof fn lemma_number_holds_no_line_feed(n: int, i: int)
    requires
        0 <= i < number::signed_decimal(n).len(),
    ensures
        number::signed_decimal(n)[i] != '\n',
{
    if n < 0 {
        let d = number::decimal((-n) as nat);
        number::lemma_decimal_reads_back((-n) as nat);
        if i > 0 {
            assert(number::signed_decimal(n)[i] == d[i - 1]);
            assert(number::is_digit(d[i - 1]));
        }
    } else {
        number::lemma_decimal_reads_back(n as nat);
        assert(number::is_digit(number::decimal(n as nat)[i]));
    }
}

/// A report says how a command ended: which of its ends it was, and all that is known of it, the
/// reason, the seconds, or what it wrote.
pub proof fn reports_say_how_a_command_ended(outcome: ShellOutcome)
    ensures
        match outcome {
            ShellOutcome::NotStarted(e) => report(outcome) == "실행 실패: "@ + e@,
            ShellOutcome::Finished { code, stdout, stderr } => report(outcome) == shown_output(
                finished_text(code, text::utf8_lossy(stdout@), text::utf8_lossy(stderr@)),
            ),
            ShellOutcome::Lost(e) => clip::byte_len("실행 오류: "@ + e@) <= 4000 ==> report(outcome)
                == "실행 오류: "@ + e@,
            ShellOutcome::TimedOut(seconds) => {
                let told = "TIMEOUT: "@ + number::decimal(seconds as nat)
                    + "초 내에 끝나지 않아 종료했습니다."@;
                clip::byte_len(told) <= 4000 ==> report(outcome) == told
            },
        },
{
}

/// The installation is what the first line of the finder's output names, without the white space
/// around it, whatever comes behind that line.
pub proof fn the_first_line_names_the_installation(
    before: Seq<char>,
    path: Seq<char>,
    behind: Seq<char>,
    rest: Seq<char>,
)
    requires
        text::is_blank(before),
        text::is_blank(behind),
        path.len() > 0 ==> !text::is_white_space(path[0]) && !text::is_white_space(path.last()),
        forall|i: int|
            0 <= i < (before + path + behind).len() ==> #[trigger] (before + path + behind)[i]
                != '\n',
    ensures
        installation(before + path + behind + seq!['\n'] + rest) == (if path.len() > 0 {
            Some(path)
        } else {
            None
        }),
{
    let line = before + path + behind;
    text::lines_behind_a_line(line, rest);
    let shown = text::without_return(line);
    assert(text::lines(line + seq!['\n'] + rest)[0] == shown);
    if shown != line {
        assert(text::is_white_space('\r'));
        if behind.len() > 0 {
            let less = behind.drop_last();
            assert(shown =~= before + path + less);
            assert forall|i: int| 0 <= i < less.len() implies text::is_white_space(
                #[trigger] less[i],
            ) by {
                assert(less[i] == behind[i]);
            }
            text::trimming_takes_off_white_space(before, path, less);
        } else {
            assert(path.len() > 0 ==> line.last() == path.last());
            let less = before.drop_last();
            assert(shown =~= less + path + behind);
            assert forall|i: int| 0 <= i < less.len() implies text::is_white_space(
                #[trigger] less[i],
            ) by {
                assert(less[i] == before[i]);
            }
            text::trimming_takes_off_white_space(less, path, behind);
        }
    } else {
        text::trimming_takes_off_white_space(before, path, behind);
    }
}

/// The variables of a dump are those of its lines, in order: a line sets one exactly where it
/// holds an equals sign, by what stands before and behind the first.
pub proof fn every_line_with_a_sign_sets_a_variable(
    a: Seq<Seq<char>>,
    key: Seq<char>,
    value: Seq<char>,
    b: Seq<Seq<char>>,
)
    requires
        !key.contains('='),
    ensures
        variables(a + b) == variables(a) + variables(b),
        variables(seq![key + seq!['='] + value]) == seq![(key, value)],
        variables(seq![key]) == Seq::<(Seq<char>, Seq<char>)>::empty(),
    decreases b.len(),
{
    text::texts_are_cut_at_the_first(key, '=', value);
    let none = Seq::<Seq<char>>::empty();
    assert(variables(none) =~= seq![]);
    assert(seq![key].drop_last() =~= none);
    assert(seq![key + seq!['='] + value].drop_last() =~= none);
    assert(variables(seq![key + seq!['='] + value]) =~= seq![(key, value)]);
    if b.len() == 0 {
        assert(a + b =~= a);
        assert(variables(a) + variables(b) =~= variables(a));
    } else {
        every_line_with_a_sign_sets_a_variable(a, key, value, b.drop_last());
        assert((a + b).drop_last() =~= a + b.drop_last());
        assert((a + b).last() == b.last());
        assert(variables(a + b) =~= variables(a) + variables(b));
    }
}

/// The script calls the set-up by its whole path, in quotes.
pub proof fn scripts_call_the_whole_path(vcvars: Seq<char>, other: Seq<char>)
    ensures
        text::occurs(script_of(vcvars), "call \""@ + vcvars + "\" >nul"@),
        script_of(vcvars) == script_of(other) ==> vcvars == other,
{
    let a = "@echo off\r\ncall \""@;
    let b = "\" >nul 2>&1\r\nset\r\n"@;
    reveal_strlit("@echo off\r\ncall \"");
    reveal_strlit("\" >nul 2>&1\r\nset\r\n");
    reveal_strlit("call \"");
    reveal_strlit("\" >nul");
    let part = "call \""@ + vcvars + "\" >nul"@;
    assert(a =~= a.take(11) + "call \""@);
    assert(b =~= "\" >nul"@ + b.skip(6));
    assert(script_of(vcvars) =~= a.take(11) + part + b.skip(6));
    text::occurring_parts_stand_in_the_text(script_of(vcvars), part);
    if script_of(vcvars) == script_of(other) {
        assert(script_of(vcvars).len() == a.len() + vcvars.len() + b.len());
        assert(script_of(vcvars).subrange(a.len() as int, (a.len() + vcvars.len()) as int)
            =~= vcvars);
        assert(script_of(other).subrange(a.len() as int, (a.len() + other.len()) as int) =~= other);
    }
}

/// Where the compilers are installed, their environment is all that the dump sets.
pub proof fn installed_compilers_have_the_dumped_environment(finder: Seq<u8>, dump: Seq<u8>)
    requires
        installation(text::utf8_lossy(finder)) is Some,
        variables(text::lines(text::utf8_lossy(dump))).len() > 0,
    ensures
        compiler_environment(Some(finder), Some(dump)) == Some(
            variables(text::lines(text::utf8_lossy(dump))),
        ),
{
}

} // verus!
