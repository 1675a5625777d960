use lothelper::paths::{names_below, Platform};
use lothelper::walk::{skipped, Entry, EntryKind, Walker, MAX_FILES};
use lothelper::workspace::{
    search_workspace, section_of, workspace_snapshot, workspace_tree, ws_root, ProjectFile, Search,
    Snapshot,
};

fn folder(name: &str, id: usize) -> Entry {
    Entry { name: name.to_string(), kind: EntryKind::Folder(id) }
}

fn file(name: &str, rel: &str) -> Entry {
    Entry { name: name.to_string(), kind: EntryKind::File(rel.to_string()) }
}

fn project_file(path: &str, content: &str) -> ProjectFile {
    ProjectFile { path: path.to_string(), content: Some(content.to_string()) }
}

fn unreadable(path: &str) -> ProjectFile {
    ProjectFile { path: path.to_string(), content: None }
}

#[test]
fn a_walk_lists_the_files_folder_by_folder() {
    let mut walker = Walker::new();
    walker.listed(vec![
        file("z.txt", "z.txt"),
        folder("src", 1),
        folder("node_modules", 2),
        file("a.txt", "a.txt"),
        Entry { name: "odd".to_string(), kind: EntryKind::Other },
    ]);
    assert_eq!(walker.next_folder(), Some(1));
    walker.listed(vec![file("main.rs", "src\\main.rs"), folder("deep", 3), file("target", "src/target")]);
    assert_eq!(walker.next_folder(), Some(3));
    walker.listed(vec![file("x", "src/deep/x")]);
    assert_eq!(walker.next_folder(), None);
    assert_eq!(walker.next_folder(), None);
    assert_eq!(walker.finish(), vec!["z.txt", "src/main.rs", "src/deep/x", "a.txt"]);
}

#[test]
fn build_folders_are_left_out() {
    for name in ["node_modules", "target", ".git", "dist", "build", ".venv"] {
        assert!(skipped(name), "{name}");
        let mut walker = Walker::new();
        walker.listed(vec![folder(name, 1)]);
        assert_eq!(walker.next_folder(), None);
    }
    assert!(!skipped("Target") && !skipped("builds") && !skipped("src") && !skipped(""));
}

#[test]
fn a_walk_stops_at_its_limit() {
    let mut walker = Walker::new();
    let mut entries: Vec<Entry> = (0..MAX_FILES + 10).map(|i| file("f", &format!("f{i}"))).collect();
    entries.push(folder("more", 1));
    walker.listed(entries);
    assert_eq!(walker.next_folder(), None);
    let found = walker.finish();
    assert_eq!(found.len(), 2000);
    assert_eq!(found[1999], "f1999");
}

#[test]
fn an_empty_project_has_no_files() {
    let mut walker = Walker::new();
    assert_eq!(walker.next_folder(), None);
    assert!(walker.finish().is_empty());
}

#[test]
fn a_listed_path_leads_back_to_its_file() {
    let mut walker = Walker::new();
    walker.listed(vec![file("main.rs", "src\\deep\\main.rs")]);
    assert_eq!(walker.next_folder(), None);
    let found = walker.finish();
    assert_eq!(found, vec!["src/deep/main.rs"]);
    for platform in [Platform::Windows, Platform::Unix] {
        let expected: Vec<String> = ["src", "deep", "main.rs"].iter().map(|s| s.to_string()).collect();
        assert_eq!(names_below(platform, &found[0]), Ok(expected));
    }
}

#[test]
fn a_folder_must_be_selected() {
    assert_eq!(ws_root(Some(7)), Ok(7));
    assert_eq!(ws_root::<u8>(None), Err("작업 폴더가 선택되지 않았습니다.".to_string()));
}

#[test]
fn the_tree_is_sorted_and_limited() {
    assert_eq!(workspace_tree(vec!["b".to_string(), "a/c".to_string(), "A".to_string()]), "A\na/c\nb");
    assert_eq!(workspace_tree(Vec::new()), "");
    let many: Vec<String> = (0..500).rev().map(|i| format!("f{i:03}")).collect();
    let tree = workspace_tree(many);
    assert_eq!(tree.lines().count(), 400);
    assert_eq!(tree.lines().next(), Some("f000"));
    assert_eq!(tree.lines().last(), Some("f399"));
}

#[test]
fn a_snapshot_shows_small_files_whole() {
    assert_eq!(section_of("a", "b"), "--- a ---\nb\n\n");
    let files = vec![project_file("a", "x\ny"), unreadable("b"), project_file("c", "")];
    assert_eq!(workspace_snapshot(&files), "--- a ---\nx\ny\n\n--- c ---\n\n\n");
    assert_eq!(workspace_snapshot(&Vec::new()), "");
}

#[test]
fn a_snapshot_keeps_to_its_limits() {
    let big = "x".repeat(3000);
    let files: Vec<ProjectFile> = (0..5).map(|i| project_file(&format!("f{i}"), &big)).collect();
    let snippet = "x".repeat(2500);
    assert_eq!(
        workspace_snapshot(&files),
        format!(
            "--- f0 ---\n{snippet}\n\n--- f1 ---\n{snippet}\n\n--- f2 ---\n{snippet}\n\n...(나머지 파일 생략)...\n"
        )
    );
    let files: Vec<ProjectFile> = (0..3).map(|i| project_file(&format!("f{i}"), &big)).collect();
    assert!(!workspace_snapshot(&files).contains("생략"));
    // Exactly at the limit, one more file is still taken.
    let even = "y".repeat(2000);
    let files: Vec<ProjectFile> = (0..5).map(|i| project_file(&format!("g{i}"), &even)).collect();
    let shown = workspace_snapshot(&files);
    assert!(shown.contains("--- g3 ---") && !shown.contains("--- g4 ---"));
}

#[test]
fn a_snapshot_is_taken_file_by_file() {
    let mut snapshot = Snapshot::new();
    assert!(snapshot.wants_file());
    snapshot.add_file("a", "가나");
    assert!(snapshot.wants_file());
    assert_eq!(snapshot.finish(), "--- a ---\n가나\n\n");
}

#[test]
fn a_search_reports_lines_with_their_numbers() {
    let files = vec![
        project_file("a.rs", "fn main() {\n    // TODO: one\n}\r\n  todo two  "),
        unreadable("b.bin"),
        project_file("c.rs", "nothing"),
        project_file("d.rs", "Todo"),
    ];
    assert_eq!(
        search_workspace("ToDo", &files),
        "a.rs:2: // TODO: one\na.rs:4: todo two\nd.rs:1: Todo\n"
    );
    assert_eq!(search_workspace("absent", &files), "'absent' 검색 결과 없음");
    assert_eq!(search_workspace("", &files), "(빈 검색어)");
    assert_eq!(search_workspace("x", &Vec::new()), "'x' 검색 결과 없음");
}

#[test]
fn a_search_disregards_case_beyond_ascii() {
    let files = vec![project_file("a", "ÄRGER\nstraße"), project_file("b", "ärger")];
    assert_eq!(search_workspace("Ärger", &files), "a:1: ÄRGER\nb:1: ärger\n");
}

#[test]
fn a_search_clips_long_lines() {
    let line = format!("  key {}", "가".repeat(100));
    let report = search_workspace("KEY", &vec![project_file("a", &line)]);
    assert_eq!(report, format!("a:1: key {}\n", "가".repeat(65)));
}

#[test]
fn a_search_stops_at_its_limit() {
    let many = "hit\n".repeat(100);
    let report = search_workspace("hit", &vec![project_file("a", &many), project_file("b", "hit")]);
    assert_eq!(report.lines().count(), 61);
    assert_eq!(report.lines().nth(59), Some("a:60: hit"));
    assert_eq!(report.lines().last(), Some("...(검색 결과 더 있음)..."));
    let report = search_workspace("hit", &vec![project_file("a", &many)]);
    assert_eq!(report.lines().count(), 60);
    let forty = "hit\n".repeat(40);
    let report = search_workspace("hit", &vec![project_file("a", &forty), project_file("b", &forty)]);
    assert_eq!(report.lines().count(), 60);
    assert_eq!(report.lines().last(), Some("b:20: hit"));
}

#[test]
fn a_search_looks_at_one_line_at_a_time() {
    let mut search = Search::for_lowercase("ab".to_string());
    assert!(search.wants_file());
    search.look_at("p", 7, " xAB ", " xab ");
    search.look_at("p", 8, "ab", "cd");
    assert_eq!(search.finish("AB"), "p:7: xAB\n");
    let mut search = Search::new("Q");
    search.add_file("f", "a\nq");
    assert_eq!(search.finish("Q"), "f:2: q\n");
}
