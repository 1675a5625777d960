use lothelper::chat::{
    chat_messages, chat_result, failed_request, first_choice, greet, new_message,
    unreachable_server, unreadable_reply, ChatOutcome,
};
use lothelper::json::{message_of, reply_content};
use lothelper::prompts::{BASE_SYSTEM, EDIT_SYSTEM};

#[test]
fn a_chat_begins_with_the_system_prompt() {
    let chat = vec![new_message("user", "hi".to_string()), new_message("assistant", "yes".to_string())];
    let all = chat_messages(chat, false);
    assert_eq!(all.len(), 3);
    assert_eq!((all[0].role.as_str(), all[0].content.as_str()), ("system", BASE_SYSTEM));
    assert_eq!((all[1].role.as_str(), all[1].content.as_str()), ("user", "hi"));
    assert_eq!((all[2].role.as_str(), all[2].content.as_str()), ("assistant", "yes"));
    let all = chat_messages(Vec::new(), true);
    assert_eq!(all.len(), 1);
    assert_eq!(all[0].content, format!("{BASE_SYSTEM}\n{EDIT_SYSTEM}"));
}

#[test]
fn the_prompts_say_what_they_say() {
    assert_eq!(
        BASE_SYSTEM,
        "You are CppAI, a helpful coding assistant powered by Qwen2.5-Coder. Answer concisely and use Markdown code blocks for code."
    );
    assert_eq!(
        EDIT_SYSTEM,
        "When you want to create or modify a file, output its FULL new content in a fenced code block whose info string is `file:<relative/path>` (for example ```file:src/main.py). Use one block per file and keep explanations brief."
    );
}

#[test]
fn the_first_choice_is_taken() {
    let choices = vec![new_message("assistant", "one".to_string()), new_message("assistant", "two".to_string())];
    assert_eq!(first_choice(choices), Ok("one".to_string()));
    assert_eq!(first_choice(Vec::new()), Err("응답에 choices가 없습니다.".to_string()));
}

#[test]
fn failures_of_the_server_are_told() {
    assert_eq!(
        unreachable_server("http://x", "refused"),
        "llama-server에 연결할 수 없습니다 (http://x): refused"
    );
    assert_eq!(failed_request("500 Internal Server Error", "oops"), "llama-server 오류 500 Internal Server Error: oops");
    assert_eq!(unreadable_reply("bad"), "응답 파싱 실패: bad");
    assert_eq!(greet("Kim"), "Hello, Kim! You've been greeted from Rust!");
}

#[test]
fn a_reply_is_read_from_its_body() {
    let body = "{\"id\": 7, \"choices\": [{\"index\": 0, \"message\": {\"role\": \"assistant\", \"content\": \"a\\n\\uac00\"}}, {\"message\": {\"content\": \"b\"}}]}";
    assert_eq!(reply_content(body.as_bytes()), Ok("a\n가".to_string()));
}

#[test]
fn a_reply_without_a_message_is_empty() {
    for body in [
        "null",
        "3.5",
        "\"content\"",
        "[]",
        "{}",
        "{\"choices\": []}",
        "{\"choices\": {}}",
        "{\"choices\": [{}]}",
        "{\"choices\": [{\"message\": \"x\"}]}",
        "{\"choices\": [{\"message\": {\"content\": null}}]}",
        "{\"choices\": [{\"message\": {\"content\": 1}}]}",
        "{\"choices\": [{\"message\": {\"role\": \"x\"}}, {\"message\": {\"content\": \"b\"}}]}",
    ] {
        assert_eq!(reply_content(body.as_bytes()), Ok(String::new()), "{body}");
    }
}

#[test]
fn a_body_that_is_no_json_is_told() {
    for body in ["", "{", "{\"a\": }", "[1,]", "\u{feff}{}", "{} x"] {
        assert_eq!(
            reply_content(body.as_bytes()),
            Err("응답 파싱 실패: error decoding response body".to_string()),
            "{body:?}"
        );
    }
    assert!(reply_content(&[0xff, 0xfe]).is_err());
}

#[test]
fn a_parsed_reply_offers_its_message() {
    let value: serde_json::Value = match serde_json::from_str("{\"choices\": [{\"message\": {\"content\": \"hello\"}}]}") {
        Ok(value) => value,
        Err(e) => panic!("{e}"),
    };
    assert_eq!(message_of(&value), "hello");
    assert_eq!(message_of(&serde_json::Value::Null), "");
}

#[test]
fn a_chat_comes_to_a_message_or_a_failure() {
    let url = "http://x";
    let choices = vec![new_message("assistant", "one".to_string()), new_message("assistant", "two".to_string())];
    assert_eq!(chat_result(url, ChatOutcome::Choices(choices)), Ok("one".to_string()));
    assert_eq!(
        chat_result(url, ChatOutcome::Choices(vec![new_message("assistant", String::new())])),
        Ok(String::new())
    );
    assert_eq!(
        chat_result(url, ChatOutcome::Choices(Vec::new())),
        Err("응답에 choices가 없습니다.".to_string())
    );
    assert_eq!(
        chat_result(url, ChatOutcome::Unreachable("refused".to_string())),
        Err("llama-server에 연결할 수 없습니다 (http://x): refused".to_string())
    );
    assert_eq!(
        chat_result(url, ChatOutcome::Failed { status: "503 Service Unavailable".to_string(), body: "loading".to_string() }),
        Err("llama-server 오류 503 Service Unavailable: loading".to_string())
    );
    assert_eq!(
        chat_result(url, ChatOutcome::Unreadable("bad".to_string())),
        Err("응답 파싱 실패: bad".to_string())
    );
}
