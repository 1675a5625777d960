//! The messages of a chat, and what is said where the model server fails.

use vstd::prelude::*;

use crate::prompts::{BASE_SYSTEM, EDIT_SYSTEM};
use crate::text;

verus! {

/// One message of a chat.
#[derive(Debug)]
pub struct ChatMessage {
    pub role: String,
    pub content: String,
}

/// What a [`ChatMessage`] holds, as texts.
pub struct MessageView {
    pub role: Seq<char>,
    pub content: Seq<char>,
}

impl View for ChatMessage {
    type V = MessageView;

    open spec fn view(&self) -> MessageView {
        MessageView { role: self.role@, content: self.content@ }
    }
}

/// What the messages of `v` hold.
pub open spec fn messages(v: Seq<ChatMessage>) -> Seq<MessageView> {
    v.map_values(|m: ChatMessage| m@)
}

/// A message of the given role.
pub open spec fn message(role: Seq<char>, content: Seq<char>) -> MessageView {
    MessageView { role, content }
}

/// A message of the given role.
pub fn new_message(role: &str, content: String) -> (m: ChatMessage)
    ensures
        m@ == message(role@, content@),
{
    ChatMessage { role: role.to_owned(), content }
}

/// What the model is told first in a chat, where `edit_blocks` lets it propose files.
pub open spec fn system_prompt(edit_blocks: bool) -> Seq<char> {
    if edit_blocks {
        BASE_SYSTEM@ + "\n"@ + EDIT_SYSTEM@
    } else {
        BASE_SYSTEM@
    }
}

/// The messages of a chat as the model gets them: first what it is told of its task, then `chat`.
pub open spec fn request(chat: Seq<MessageView>, edit_blocks: bool) -> Seq<MessageView> {
    seq![message("system"@, system_prompt(edit_blocks))] + chat
}

/// The messages of a chat as the model gets them: first what it is told of its task, then `chat`.
pub fn chat_messages(chat: Vec<ChatMessage>, edit_blocks: bool) -> (r: Vec<ChatMessage>)
    ensures
        messages(r@) == seq![message("system"@, system_prompt(edit_blocks))] + messages(chat@),
        messages(r@) == request(messages(chat@), edit_blocks),
{
    let mut system: String = BASE_SYSTEM.to_owned();
    if edit_blocks {
        system.append("\n");
        system.append(EDIT_SYSTEM);
    }
    let mut chat = chat;
    let ghost given = chat@;
    let mut r: Vec<ChatMessage> = Vec::new();
    r.push(new_message("system", system));
    let ghost first = r@;
    r.append(&mut chat);
    assert(messages(r@) =~= messages(first) + messages(given));
    assert(messages(first) =~= seq![message("system"@, system_prompt(edit_blocks))]);
    r
}

/// The text of the first message that a reply offers.
pub fn first_choice(choices: Vec<ChatMessage>) -> (r: Result<String, String>)
    ensures
        match r {
            Ok(content) => choices@.len() > 0 && content@ == choices@[0]@.content,
            Err(e) => choices@.len() == 0 && e@ == "응답에 choices가 없습니다."@,
        },
{
    let mut choices = choices;
    if choices.len() > 0 {
        Ok(choices.remove(0).content)
    } else {
        Err("응답에 choices가 없습니다.".to_owned())
    }
}

/// What is said where the server at `url` does not answer.
pub fn unreachable_server(url: &str, e: &str) -> (s: String)
    ensures
        s@ == "llama-server에 연결할 수 없습니다 ("@ + url@ + "): "@ + e@,
{
    let mut s: String = "llama-server에 연결할 수 없습니다 (".to_owned();
    s.append(url);
    s.append("): ");
    s.append(e);
    s
}

/// What is said where the server answers with a failure.
pub fn failed_request(status: &str, body: &str) -> (s: String)
    ensures
        s@ == "llama-server 오류 "@ + status@ + ": "@ + body@,
{
    let mut s: String = "llama-server 오류 ".to_owned();
    s.append(status);
    s.append(": ");
    s.append(body);
    s
}

/// What is said where the server's answer cannot be read.
pub fn unreadable_reply(e: &str) -> (s: String)
    ensures
        s@ == "응답 파싱 실패: "@ + e@,
{
    let mut s: String = "응답 파싱 실패: ".to_owned();
    s.append(e);
    s
}

/// What came of asking the server for a chat completion.
#[derive(Debug)]
pub enum ChatOutcome {
    /// The server did not answer, for this reason.
    Unreachable(String),
    /// The server answered with a failure.
    Failed { status: String, body: String },
    /// The server's answer could not be read, for this reason.
    Unreadable(String),
    /// The server answered with these messages to choose from.
    Choices(Vec<ChatMessage>),
}

/// What a chat comes to, where the server at `url` was asked: the text of the first message where
/// there is one, and else what is said of the failure.
pub open spec fn chat_answer(url: Seq<char>, outcome: ChatOutcome) -> Result<Seq<char>, Seq<char>> {
    match outcome {
        ChatOutcome::Unreachable(e) => Err(
            "llama-server에 연결할 수 없습니다 ("@ + url + "): "@ + e@,
        ),
        ChatOutcome::Failed { status, body } => Err(
            "llama-server 오류 "@ + status@ + ": "@ + body@,
        ),
        ChatOutcome::Unreadable(e) => Err("응답 파싱 실패: "@ + e@),
        ChatOutcome::Choices(choices) => if choices@.len() > 0 {
            Ok(choices@[0]@.content)
        } else {
            Err("응답에 choices가 없습니다."@)
        },
    }
}

/// What a chat comes to, where the server at `url` was asked.
pub fn chat_result(url: &str, outcome: ChatOutcome) -> (r: Result<String, String>)
    ensures
        match r {
            Ok(content) => chat_answer(url@, outcome) == Ok::<Seq<char>, Seq<char>>(content@),
            Err(e) => chat_answer(url@, outcome) == Err::<Seq<char>, Seq<char>>(e@),
        },
        r is Ok <==> (outcome matches ChatOutcome::Choices(choices) && choices@.len() > 0),
{
    match outcome {
        ChatOutcome::Unreachable(e) => Err(unreachable_server(url, e.as_str())),
        ChatOutcome::Failed { status, body } => Err(failed_request(status.as_str(), body.as_str())),
        ChatOutcome::Unreadable(e) => Err(unreadable_reply(e.as_str())),
        ChatOutcome::Choices(choices) => first_choice(choices),
    }
}

/// A greeting for `name`.
pub open spec fn greeting(name: Seq<char>) -> Seq<char> {
    "Hello, "@ + name + "! You've been greeted from Rust!"@
}

/// A greeting for `name`.
pub fn greet(name: &str) -> (s: String)
    ensures
        s@ == "Hello, "@ + name@ + "! You've been greeted from Rust!"@,
        s@ == greeting(name@),
{
    let mut s: String = "Hello, ".to_owned();
    s.append(name);
    s.append("! You've been greeted from Rust!");
    s
}

/// The model gets the whole chat, in its order, behind one message of the system, which says what
/// the model is and, exactly where it may propose files, how.
pub proof fn the_model_gets_the_whole_chat(chat: Seq<MessageView>, edit_blocks: bool)
    ensures
        request(chat, edit_blocks).len() == chat.len() + 1,
        request(chat, edit_blocks).skip(1) == chat,
        request(chat, edit_blocks)[0].role == "system"@,
        request(chat, false)[0].content == BASE_SYSTEM@,
        request(chat, true)[0].content == BASE_SYSTEM@ + "\n"@ + EDIT_SYSTEM@,
{
    assert(request(chat, edit_blocks).skip(1) =~= chat);
}

/// A chat comes to the text of the first message that is offered, whole and whatever follows it;
/// a failure is told with all that is known of it.
pub proof fn the_first_message_answers(
    url: Seq<char>,
    first: ChatMessage,
    choices: Vec<ChatMessage>,
)
    ensures
        choices@.len() > 0 && choices@[0] == first ==> chat_answer(
            url,
            ChatOutcome::Choices(choices),
        ) == Ok::<Seq<char>, Seq<char>>(first.content@),
        choices@.len() == 0 ==> chat_answer(url, ChatOutcome::Choices(choices)) is Err,
{
}

/// Failures of the server are told with all that is known of them: where it was asked and why it
/// could not be reached, with which status and text it refused, or why its answer is unreadable.
pub proof fn failures_are_told_whole(url: Seq<char>, outcome: ChatOutcome)
    requires
        !(outcome is Choices),
    ensures
        chat_answer(url, outcome) matches Err(told) && match outcome {
            ChatOutcome::Unreachable(e) => {
                &&& text::occurs(told, "("@ + url + "): "@)
                &&& told.len() >= e@.len()
                &&& told.skip(told.len() - e@.len()) == e@
            },
            ChatOutcome::Failed { status, body } => {
                &&& text::occurs(told, status@ + ": "@)
                &&& told.len() >= body@.len()
                &&& told.skip(told.len() - body@.len()) == body@
            },
            ChatOutcome::Unreadable(e) => {
                &&& told.len() >= e@.len()
                &&& told.skip(told.len() - e@.len()) == e@
            },
            ChatOutcome::Choices(_) => true,
        },
{
    let told = chat_answer(url, outcome)->Err_0;
    match outcome {
        ChatOutcome::Unreachable(e) => {
            reveal_strlit("llama-server에 연결할 수 없습니다 (");
            reveal_strlit("(");
            let before = "llama-server에 연결할 수 없습니다 ("@;
            let part = "("@ + url + "): "@;
            assert(before =~= before.drop_last() + "("@);
            assert(told =~= before.drop_last() + part + e@);
            text::occurring_parts_stand_in_the_text(told, part);
            assert(told.skip(told.len() - e@.len()) =~= e@);
        },
        ChatOutcome::Failed { status, body } => {
            let before = "llama-server 오류 "@;
            let part = status@ + ": "@;
            assert(told =~= before + part + body@);
            text::occurring_parts_stand_in_the_text(told, part);
            assert(told.skip(told.len() - body@.len()) =~= body@);
        },
        ChatOutcome::Unreadable(e) => {
            assert(told.skip(told.len() - e@.len()) =~= e@);
        },
        ChatOutcome::Choices(_) => {},
    }
}

/// A greeting greets by the whole name, and differs for different names.
pub proof fn greetings_hold_the_name(name: Seq<char>, other: Seq<char>)
    ensures
        text::occurs(greeting(name), ", "@ + name + "!"@),
        greeting(name) == greeting(other) ==> name == other,
{
    reveal_strlit("Hello, ");
    reveal_strlit(", ");
    reveal_strlit("!");
    reveal_strlit("! You've been greeted from Rust!");
    let a = "Hello, "@;
    let b = "! You've been greeted from Rust!"@;
    let part = ", "@ + name + "!"@;
    assert(a =~= a.take(5) + ", "@);
    assert(b =~= "!"@ + b.skip(1));
    assert(greeting(name) =~= a.take(5) + part + b.skip(1));
    text::occurring_parts_stand_in_the_text(greeting(name), part);
    if greeting(name) == greeting(other) {
        let n = greeting(name).len() - b.len();
        assert(greeting(name).subrange(7, n) =~= name);
        assert(greeting(other).subrange(7, n) =~= other);
    }
}

} // verus!
