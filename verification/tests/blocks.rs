use lothelper::blocks::{commands_of, parse_blocks, run_word, Blocks};
use lothelper::prompts::AGENT_SYSTEM;

#[test]
fn parses_file_and_run_blocks() {
    let t = "Sure:\n```file:src/main.cpp\nint main(){return 0;}\n```\nNow build:\n```run\ncl /EHsc src/main.cpp\n```";
    let b = parse_blocks(t);
    assert_eq!(b.files.len(), 1);
    assert_eq!(b.files[0].0, "src/main.cpp");
    assert!(b.files[0].1.contains("int main"));
    assert_eq!(b.runs, vec!["cl /EHsc src/main.cpp".to_string()]);
}

#[test]
fn parses_read_search_delete_blocks() {
    let b = parse_blocks("Look:\n```read:src/lib.rs\n```\n```search:TODO\n```\n```delete:src\n```");
    assert_eq!(b.reads, vec!["src/lib.rs".to_string()]);
    assert_eq!(b.searches, vec!["TODO".to_string()]);
    assert_eq!(b.deletes, vec!["src".to_string()]);
    assert!(b.files.is_empty() && b.runs.is_empty());
    assert!(!b.is_empty());
}

#[test]
fn no_blocks_means_done() {
    let b = parse_blocks("All done. The build succeeded.");
    assert!(b.is_empty());
}

#[test]
fn agent_system_example_uses_real_newlines() {
    // Guard against the `\\n`-in-the-example bug (model parroted literal \n).
    assert!(!AGENT_SYSTEM.contains("\\n"), "system prompt has literal backslash-n");
    assert!(AGENT_SYSTEM.contains("```run\ncl /EHsc main.cpp\n```"));
    // The example must itself parse as a valid run block.
    let b = parse_blocks(AGENT_SYSTEM);
    assert!(b.runs.iter().any(|c| c == "cl /EHsc main.cpp"));
}

#[test]
fn every_spelling_of_a_block_is_known() {
    let b = parse_blocks(
        "```File: a.txt \nA\n```\n```Read: b.txt\n```\n```Search: x y \n```\n```grep:z\n```\n```Delete:c\n```\n```remove:d\n```\n```rm: e\n```",
    );
    assert_eq!(b.files, vec![("a.txt".to_string(), "A".to_string())]);
    assert_eq!(b.reads, vec!["b.txt".to_string()]);
    assert_eq!(b.searches, vec!["x y".to_string(), "z".to_string()]);
    assert_eq!(b.deletes, vec!["c".to_string(), "d".to_string(), "e".to_string()]);
    assert!(b.runs.is_empty());
}

#[test]
fn shell_blocks_are_known_in_any_case() {
    for word in ["run", "sh", "bash", "cmd", "shell", "console", "powershell", "ps", "bat", "RUN", "Bash", "PowerShell"] {
        let b = parse_blocks(&format!("```{word}\n  make all \n\n\tmake test\n```"));
        assert_eq!(b.runs, vec!["make all".to_string(), "make test".to_string()], "{word}");
    }
    assert!(parse_blocks("```python\nprint(1)\n```").is_empty());
    assert!(parse_blocks("```FILE:a\nx\n```").is_empty());
    assert!(parse_blocks("```\nplain\n```").is_empty());
}

#[test]
fn a_block_keeps_its_lines() {
    let b = parse_blocks("```file:a\n\n  one\n\ntwo\n\n```");
    assert_eq!(b.files[0].1, "\n  one\n\ntwo\n");
    let b = parse_blocks("```file:a\n```");
    assert_eq!(b.files[0].1, "");
    let b = parse_blocks("```file:a\r\none\r\ntwo\r\n```\r\n");
    assert_eq!(b.files[0], ("a".to_string(), "one\ntwo".to_string()));
}

#[test]
fn an_open_block_reaches_to_the_end() {
    let b = parse_blocks("  ```file:a\none\ntwo");
    assert_eq!(b.files, vec![("a".to_string(), "one\ntwo".to_string())]);
    let b = parse_blocks("```file:a\none\n   ```run\nmake\n");
    assert_eq!(b.files, vec![("a".to_string(), "one".to_string())]);
    assert!(b.runs.is_empty());
}

#[test]
fn a_written_file_is_read_back() {
    let content = "fn main() {\n\n    println!();\n}";
    let b = parse_blocks(&format!("```file:src/main.rs\n{content}\n```\nDone."));
    assert_eq!(b.files, vec![("src/main.rs".to_string(), content.to_string())]);
}

#[test]
fn a_block_adds_to_what_is_there() {
    let mut b = Blocks::default();
    assert!(b.is_empty());
    b.add_block("RUN", "run", "a\nb".to_string());
    b.add_block("file:x", "file:x", "y".to_string());
    b.add_block("text", "text", "z".to_string());
    assert_eq!(b.runs, vec!["a".to_string(), "b".to_string()]);
    assert_eq!(b.files, vec![("x".to_string(), "y".to_string())]);
    assert!(b.reads.is_empty() && b.searches.is_empty() && b.deletes.is_empty());
    assert!(run_word("bat") && !run_word("BAT") && !run_word("file"));
    assert_eq!(commands_of(" a \r\n\u{3000}\nb"), vec!["a".to_string(), "b".to_string()]);
}

#[test]
fn a_reply_cut_between_blocks_asks_for_the_same() {
    let first = "Now:\n```file:a\nx\n```\nthen\n";
    let second = "```run\nmake\n```\n```file:b\ny\n```";
    let whole = parse_blocks(&format!("{first}{second}"));
    let (a, b) = (parse_blocks(first), parse_blocks(second));
    let mut files = a.files;
    files.extend(b.files);
    assert_eq!(whole.files, files);
    assert_eq!(whole.runs, b.runs);
}
