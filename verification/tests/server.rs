use lothelper::paths::Platform;
use lothelper::server::{
    chat_url, choose_notice, find_models, health_url, llama_binary, llama_status, load_ngl,
    missing_binary, model_name, resource_base, restart_llama, reuse_notice, save_ngl, server_address,
    server_args, set_ngl, spawn_llama, start_model, startup, BaseCandidate, StartPlan, Startup,
};

fn owned(parts: &[&str]) -> Vec<String> {
    parts.iter().map(|s| s.to_string()).collect()
}

fn candidate(folder: &str, has_llama: bool, has_models: bool) -> BaseCandidate<String> {
    BaseCandidate { folder: folder.to_string(), has_llama, has_models }
}

#[test]
fn the_server_has_its_addresses() {
    assert_eq!(server_address(), "127.0.0.1:8080");
    assert_eq!(chat_url(), "http://127.0.0.1:8080/v1/chat/completions");
    assert_eq!(health_url(), "http://127.0.0.1:8080/health");
}

#[test]
fn the_base_is_the_first_folder_that_fits() {
    let all = vec![candidate("a", false, false), candidate("b", false, true), candidate("c", true, true)];
    assert_eq!(resource_base(all, "here".to_string()), "b");
    assert_eq!(resource_base(vec![candidate("a", true, false)], "here".to_string()), "a");
    assert_eq!(resource_base(vec![candidate("a", false, false)], "here".to_string()), "here");
    assert_eq!(resource_base(Vec::new(), "here".to_string()), "here");
}

#[test]
fn the_server_is_called_by_its_program() {
    let path = llama_binary("base", Platform::Windows);
    assert_eq!(path.root, "base");
    assert_eq!(path.names, vec!["llama", "llama-server.exe"]);
    assert_eq!(llama_binary("base", Platform::Unix).names, vec!["llama", "llama-server"]);
    assert_eq!(llama_binary("base", Platform::MacOs).names, vec!["llama", "llama-server"]);
    assert_eq!(missing_binary("/x/llama-server"), "llama-server를 찾을 수 없습니다: /x/llama-server");
    assert_eq!(
        server_args("models/m.gguf", 99),
        vec![
            "-m", "models/m.gguf", "--host", "127.0.0.1", "--port", "8080", "-ngl", "99", "-c",
            "8192", "--jinja",
        ]
    );
    assert_eq!(server_args("m", -1)[7], "-1");
}

#[test]
fn models_are_found_by_their_extension() {
    assert_eq!(
        find_models(&owned(&["b.gguf", "readme.md", "a.GGUF", ".gguf", "c.gguf.part", "x.Gguf", "gguf"])),
        vec!["a.GGUF", "b.gguf", "x.Gguf"]
    );
    assert!(find_models(&Vec::new()).is_empty());
    for name in ["a.gguf", ".gguf", "..gguf", "a.gguf.", "a.b.GgUf", "gguf", "a.xgguf", "가.gguf", "."] {
        let expected = std::path::Path::new(name)
            .extension()
            .map_or(false, |x| x.eq_ignore_ascii_case("gguf"));
        assert_eq!(model_name(name), expected, "{name:?}");
    }
}

#[test]
fn the_layer_count_is_kept() {
    assert_eq!(load_ngl(None), 99);
    assert_eq!(load_ngl(Some("")), 99);
    assert_eq!(load_ngl(Some("many")), 99);
    assert_eq!(load_ngl(Some(" 12\r\n")), 12);
    assert_eq!(load_ngl(Some("+7")), 7);
    assert_eq!(load_ngl(Some("-3")), -3);
    assert_eq!(load_ngl(Some("2147483648")), 99);
    assert_eq!(save_ngl(42), "42");
    assert_eq!(save_ngl(-42), "-42");
    for (value, set) in [(-5, 0), (0, 0), (33, 33), (999, 999), (1000, 999), (i32::MIN, 0)] {
        assert_eq!(set_ngl(value), set);
        assert_eq!(load_ngl(Some(&save_ngl(set_ngl(value)))), set);
        assert_eq!(set_ngl(set_ngl(value)), set);
    }
}

#[test]
fn the_status_says_what_to_do() {
    let status = llama_status(true, owned(&["a.gguf"]));
    assert_eq!(status.state, "starting");
    assert!(status.models.is_empty());
    let status = llama_status(false, owned(&["a.gguf", "b.gguf"]));
    assert_eq!(status.state, "choose");
    assert_eq!(status.models, vec!["a.gguf", "b.gguf"]);
    let status = llama_status(false, Vec::new());
    assert_eq!(status.state, "no_model");
    assert!(status.models.is_empty());
}

#[test]
fn a_model_is_started_once() {
    assert_eq!(start_model("m", true, false), Ok(StartPlan::Nothing));
    assert_eq!(start_model("m", true, true), Ok(StartPlan::Nothing));
    assert_eq!(start_model("m", false, true), Ok(StartPlan::Spawn));
    assert_eq!(start_model("m", false, false), Err("모델을 찾을 수 없습니다: m".to_string()));
}

#[test]
fn a_restart_takes_the_last_or_the_only_model() {
    match restart_llama(Some("last".to_string()), owned(&["a", "b"]), true, true) {
        Ok(plan) => {
            assert_eq!(plan.model, "last");
            assert!(plan.stop_first);
        },
        Err(e) => panic!("{e}"),
    }
    match restart_llama(None, owned(&["only"]), false, false) {
        Ok(plan) => {
            assert_eq!(plan.model, "only");
            assert!(!plan.stop_first);
        },
        Err(e) => panic!("{e}"),
    }
    for models in [owned(&[]), owned(&["a", "b"])] {
        match restart_llama(None, models, false, true) {
            Ok(plan) => panic!("{plan:?}"),
            Err(e) => assert_eq!(e, "재시작할 모델을 알 수 없습니다. 모델을 먼저 선택하세요."),
        }
    }
    match restart_llama(Some("m".to_string()), owned(&[]), false, true) {
        Ok(plan) => panic!("{plan:?}"),
        Err(e) => {
            assert_eq!(e, "외부에서 실행한 서버는 앱이 재시작할 수 없습니다. 수동으로 다시 띄워주세요.")
        },
    }
}

#[test]
fn the_only_model_is_started_at_once() {
    assert!(matches!(startup(true, owned(&["a"])), Startup::Reuse));
    assert!(matches!(startup(false, owned(&["a"])), Startup::Start(name) if name == "a"));
    assert!(matches!(startup(false, owned(&[])), Startup::NoModel));
    assert!(matches!(startup(false, owned(&["a", "b", "c"])), Startup::Choose(3)));
    assert_eq!(reuse_notice(), "llama-server가 이미 8080 포트에서 실행 중 — 재사용합니다.");
    assert_eq!(choose_notice(3), "모델 3개 발견 — 사용자 선택을 기다립니다.");
}

#[test]
fn the_server_is_started_where_its_program_is() {
    assert_eq!(spawn_llama("/x/llama-server", true, "m.gguf", 20), Ok(server_args("m.gguf", 20)));
    assert_eq!(
        spawn_llama("/x/llama-server", false, "m.gguf", 20),
        Err("llama-server를 찾을 수 없습니다: /x/llama-server".to_string())
    );
}
