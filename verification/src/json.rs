//! What a model server's JSON reply says.

use vstd::prelude::*;

use crate::chat;

verus! {

/// A JSON document, as far as a reply is read: the value of a number is left out.
pub enum Json {
    Null,
    Bool(bool),
    Number,
    Text(Seq<char>),
    Array(Seq<Json>),
    Object(Map<Seq<char>, Json>),
}

/// `serde_json::Value`, a parsed JSON document.
#[verifier::external_type_specification]
#[verifier::external_body]
pub struct ExValue(serde_json::Value);

/// `serde_json::Error`, the reason why a text is no JSON document.
#[verifier::external_type_specification]
#[verifier::external_body]
pub struct ExError(serde_json::Error);

/// What a parsed document holds.
pub uninterp spec fn document(value: serde_json::Value) -> Json;

/// The document that `serde_json::from_slice` reads from bytes, if they are one.
pub uninterp spec fn parsed(bytes: Seq<u8>) -> Option<Json>;

/// The member `key` of an object, and null where there is none.
pub open spec fn member(json: Json, key: Seq<char>) -> Json {
    match json {
        Json::Object(members) => if members.dom().contains(key) {
            members[key]
        } else {
            Json::Null
        },
        _ => Json::Null,
    }
}

/// The item at position `i` of an array, and null where there is none.
pub open spec fn item(json: Json, i: int) -> Json {
    match json {
        Json::Array(items) => if 0 <= i < items.len() {
            items[i]
        } else {
            Json::Null
        },
        _ => Json::Null,
    }
}

/// `serde_json::from_slice`, into a `serde_json::Value`. Whether the bytes are a document, and
/// which one, depends on the bytes alone and is called [`parsed`]; the grammar is left to it.
#[verifier::external_body]
fn from_slice(bytes: &[u8]) -> (r: Result<serde_json::Value, serde_json::Error>)
    ensures
        match r {
            Ok(value) => parsed(bytes@) == Some(document(value)),
            Err(_) => parsed(bytes@) is None,
        },
{
    serde_json::from_slice(bytes)
}

/// Indexing a `serde_json::Value` by a text: the member of that name, where the value is an
/// object that has it, else null.
#[verifier::external_body]
fn member_of<'a>(value: &'a serde_json::Value, key: &str) -> (r: &'a serde_json::Value)
    ensures
        document(*r) == member(document(*value), key@),
{
    &value[key]
}

/// Indexing a `serde_json::Value` by a number: the item at that position, where the value is an
/// array that has it, else null.
#[verifier::external_body]
fn item_of<'a>(value: &'a serde_json::Value, i: usize) -> (r: &'a serde_json::Value)
    ensures
        document(*r) == item(document(*value), i as int),
{
    &value[i]
}

/// `serde_json::Value::as_str`: the text, where the value is one.
pub assume_specification[ serde_json::Value::as_str ](value: &serde_json::Value) -> (r: Option<
    &str,
>)
    ensures
        match r {
            Some(s) => document(*value) == Json::Text(s@),
            None => !(document(*value) is Text),
        },
;

/// The text of the first message that a reply offers, and nothing where there is none.
pub open spec fn first_message(reply: Json) -> Seq<char> {
    match member(member(item(member(reply, "choices"@), 0), "message"@), "content"@) {
        Json::Text(content) => content,
        _ => seq![],
    }
}

/// The text of the first message that the parsed reply offers, and nothing where there is none.
pub fn message_of(reply: &serde_json::Value) -> (content: String)
    ensures
        content@ == first_message(document(*reply)),
{
    let message: &serde_json::Value = member_of(item_of(member_of(reply, "choices"), 0), "message");
    match member_of(message, "content").as_str() {
        Some(content) => content.to_owned(),
        None => String::new(),
    }
}

/// The text of the first message that the body of a reply offers, or what is said where the body
/// is no JSON document.
pub fn reply_content(body: &[u8]) -> (r: Result<String, String>)
    ensures
        match parsed(body@) {
            Some(reply) => r matches Ok(content) && content@ == first_message(reply),
            None => r matches Err(e) && e@ == "응답 파싱 실패: "@
                + "error decoding response body"@,
        },
{
    match from_slice(body) {
        Ok(reply) => Ok(message_of(&reply)),
        Err(_) => Err(chat::unreadable_reply("error decoding response body")),
    }
}

/// The text that a reply gives is that of the message in its first choice, whatever else the
/// reply, the choice and the message hold and whatever choices follow. Without a choice there is
/// none.
pub proof fn the_first_choice_is_read(
    reply: Map<Seq<char>, Json>,
    choice: Map<Seq<char>, Json>,
    message: Map<Seq<char>, Json>,
    rest: Seq<Json>,
    content: Seq<char>,
)
    ensures
        first_message(
            Json::Object(
                reply.insert(
                    "choices"@,
                    Json::Array(
                        seq![
                            Json::Object(
                                choice.insert(
                                    "message"@,
                                    Json::Object(message.insert("content"@, Json::Text(content))),
                                ),
                            ),
                        ] + rest,
                    ),
                ),
            ),
        ) == content,
        first_message(Json::Object(reply.insert("choices"@, Json::Array(seq![])))) == Seq::<
            char,
        >::empty(),
        first_message(Json::Object(reply.remove("choices"@))) == Seq::<char>::empty(),
{
}

} // verus!
