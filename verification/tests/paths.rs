use lothelper::paths::{names_below, open_target, resolve, Platform};

const ABSOLUTE: &str = "절대 경로는 허용되지 않습니다.";
const UP: &str = "'..' 경로는 허용되지 않습니다.";

fn names(platform: Platform, rel: &str) -> Vec<String> {
    match names_below(platform, rel) {
        Ok(found) => found,
        Err(e) => panic!("{rel:?}: {e}"),
    }
}

fn refusal(platform: Platform, rel: &str) -> String {
    match names_below(platform, rel) {
        Ok(found) => panic!("{rel:?}: {found:?}"),
        Err(e) => e,
    }
}

#[test]
fn a_relative_path_resolves_below_the_root() {
    match resolve("root", "src/./deep//main.rs/", Platform::Unix) {
        Ok(path) => {
            assert_eq!(path.root, "root");
            assert_eq!(path.names, vec!["src", "deep", "main.rs"]);
        },
        Err(e) => panic!("{e}"),
    }
    assert!(names(Platform::Unix, "").is_empty());
    assert!(names(Platform::Unix, "./.").is_empty());
    assert_eq!(names(Platform::Unix, "...").len(), 1);
    assert_eq!(names(Platform::Unix, "..a/b..").len(), 2);
}

#[test]
fn paths_out_of_the_root_are_refused() {
    assert_eq!(refusal(Platform::Unix, ".."), UP);
    assert_eq!(refusal(Platform::Unix, "a/../b"), UP);
    assert_eq!(refusal(Platform::Unix, "/etc"), ABSOLUTE);
    assert_eq!(refusal(Platform::MacOs, "/../a"), ABSOLUTE);
    match resolve((), "../x", Platform::Unix) {
        Ok(path) => panic!("{path:?}"),
        Err(e) => assert_eq!(e, UP),
    }
}

#[test]
fn drives_and_backslashes_count_on_windows_only() {
    assert_eq!(names(Platform::Windows, "a\\b/c"), vec!["a", "b", "c"]);
    assert_eq!(names(Platform::Unix, "a\\b/c"), vec!["a\\b", "c"]);
    assert_eq!(refusal(Platform::Windows, "C:\\x"), ABSOLUTE);
    assert_eq!(refusal(Platform::Windows, "c:x"), ABSOLUTE);
    assert_eq!(refusal(Platform::Windows, "\\x"), ABSOLUTE);
    assert_eq!(refusal(Platform::Windows, "\\\\server\\share"), ABSOLUTE);
    assert_eq!(refusal(Platform::Windows, "a\\..\\b"), UP);
    assert_eq!(refusal(Platform::Windows, "./C:/x"), ABSOLUTE);
    assert_eq!(refusal(Platform::Windows, "../C:/x"), UP);
    assert_eq!(names(Platform::Windows, "1:x"), vec!["1:x"]);
    assert_eq!(names(Platform::Unix, "C:/x"), vec!["C:", "x"]);
    assert_eq!(names(Platform::Unix, "\\x"), vec!["\\x"]);
}

#[test]
fn unix_paths_resolve_as_the_standard_library_reads_them() {
    for rel in ["", ".", "a", "a/", "a//b", "./a/./b", "a/.b/..c", "~", "a b/c", "a/./."] {
        let expected: Vec<String> = std::path::Path::new(rel)
            .components()
            .filter(|c| matches!(c, std::path::Component::Normal(_)))
            .map(|c| c.as_os_str().to_string_lossy().to_string())
            .collect();
        assert_eq!(names(Platform::Unix, rel), expected, "{rel:?}");
    }
}

#[test]
fn the_root_is_opened_where_no_path_is_named() {
    match open_target("root", None, Platform::Unix) {
        Ok(target) => {
            assert_eq!(target.root, "root");
            assert!(target.names.is_empty());
        },
        Err(e) => panic!("{e}"),
    }
    match open_target("root", Some("a/b"), Platform::Unix) {
        Ok(target) => {
            assert_eq!(target.root, "root");
            assert_eq!(target.names, vec!["a", "b"]);
        },
        Err(e) => panic!("{e}"),
    }
    match open_target("root", Some("../a"), Platform::Unix) {
        Ok(target) => panic!("{target:?}"),
        Err(e) => assert_eq!(e, UP),
    }
}

#[test]
fn two_steps_lead_where_one_does() {
    for (rel, then) in [("a", "b"), ("a/./", "b//c"), (".", "x"), ("a", ""), ("a/b", "./c")] {
        let mut both = names(Platform::Unix, rel);
        both.extend(names(Platform::Unix, then));
        assert_eq!(names(Platform::Unix, &format!("{rel}/{then}")), both);
    }
    for (rel, then) in [("a", ".."), ("..", "a"), ("/a", "b")] {
        assert!(names_below(Platform::Unix, &format!("{rel}/{then}")).is_err());
    }
}
