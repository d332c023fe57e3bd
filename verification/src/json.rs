//! The JSON text of control-channel messages, written and read with `serde_json`.

use vstd::prelude::*;
use crate::text::str_eq;

verus! {

/// A member value of a control message.
pub enum JsonField {
    Text(String),
    Number(u64),
    TextList(Vec<String>),
}

pub enum JsonFieldView {
    Text(Seq<char>),
    Number(u64),
    TextList(Seq<Seq<char>>),
}

impl View for JsonField {
    type V = JsonFieldView;

    open spec fn view(&self) -> JsonFieldView {
        match self {
            JsonField::Text(s) => JsonFieldView::Text(s@),
            JsonField::Number(n) => JsonFieldView::Number(*n),
            JsonField::TextList(l) => JsonFieldView::TextList(l@.map_values(|s: String| s@)),
        }
    }
}

/// The members of an object, each name with its value.
pub open spec fn members_view(members: Seq<(String, JsonField)>) -> Seq<(Seq<char>, JsonFieldView)> {
    members.map_values(|m: (String, JsonField)| (m.0@, m.1@))
}

/// The text that `serde_json` writes for the object with these members.
pub uninterp spec fn json_object_text(members: Seq<(Seq<char>, JsonFieldView)>) -> Seq<char>;

/// The string value of the member `key` of the JSON object that `text` holds, as
/// `serde_json` reads it; absent when `text` is not JSON, not an object, has no
/// such member, or the member is not a string.
pub uninterp spec fn json_string_member(text: Seq<char>, key: Seq<char>) -> Option<Seq<char>>;

/// Writes the object with the given members as JSON text, with `serde_json`'s
/// `Value::to_string`. The contract names the text: it is the same for the same
/// members, and nothing more of it is stated here (`serde_json` writes the members
/// ordered by name and escapes strings as JSON requires).
#[verifier::external_body]
fn write_json_object(members: &Vec<(String, JsonField)>) -> (res: String)
    ensures
        res@ == json_object_text(members_view(members@)),
{
    let mut object = serde_json::Map::new();
    for (name, field) in members.iter() {
        let value = match field {
            JsonField::Text(s) => serde_json::Value::from(s.as_str()),
            JsonField::Number(n) => serde_json::Value::from(*n),
            JsonField::TextList(items) => serde_json::Value::from(items.clone()),
        };
        object.insert(name.clone(), value);
    }
    serde_json::Value::Object(object).to_string()
}

/// Reads `text` with `serde_json::from_str` as a JSON value and gives back the string
/// value of its member `key`, with `Value::get` and `Value::as_str`. The contract
/// names the result: it is the same for the same text and key.
#[verifier::external_body]
fn read_json_string_member(text: &str, key: &str) -> (res: Option<String>)
    ensures
        opt_chars(res) == json_string_member(text@, key@),
{
    serde_json::from_str::<serde_json::Value>(text).ok().and_then(
        |value| value.get(key).and_then(|member| member.as_str()).map(|s| s.to_string()),
    )
}

pub open spec fn opt_chars(s: Option<String>) -> Option<Seq<char>> {
    match s {
        Some(t) => Some(t@),
        None => None,
    }
}

/// The view of a list of strings.
pub open spec fn strings_view(l: Seq<String>) -> Seq<Seq<char>> {
    l.map_values(|s: String| s@)
}

/// The text of `{"type":"sync","connectionIds":[..]}`.
pub open spec fn sync_text(ids: Seq<Seq<char>>) -> Seq<char> {
    json_object_text(
        seq![("type"@, JsonFieldView::Text("sync"@)), ("connectionIds"@, JsonFieldView::TextList(ids))],
    )
}

/// The text of `{"type":"connected","connectionId":..}`.
pub open spec fn connected_text(id: Seq<char>) -> Seq<char> {
    json_object_text(
        seq![("type"@, JsonFieldView::Text("connected"@)), ("connectionId"@, JsonFieldView::Text(id))],
    )
}

/// The text of `{"type":"disconnected","connectionId":..}`.
pub open spec fn disconnected_text(id: Seq<char>) -> Seq<char> {
    json_object_text(
        seq![("type"@, JsonFieldView::Text("disconnected"@)), ("connectionId"@, JsonFieldView::Text(id))],
    )
}

/// The text of `{"type":"pong","ts":..}`.
pub open spec fn pong_text(ts: u64) -> Seq<char> {
    json_object_text(seq![("type"@, JsonFieldView::Text("pong"@)), ("ts"@, JsonFieldView::Number(ts))])
}

/// A control text is a ping when it is a JSON object whose `type` is the string `ping`.
pub open spec fn is_ping_text(text: Seq<char>) -> bool {
    json_string_member(text, "type"@) == Some("ping"@)
}

fn two_members(k1: &str, v1: JsonField, k2: &str, v2: JsonField) -> (res: String)
    ensures
        res@ == json_object_text(seq![(k1@, v1@), (k2@, v2@)]),
{
    let mut members: Vec<(String, JsonField)> = Vec::new();
    members.push((String::from_str(k1), v1));
    members.push((String::from_str(k2), v2));
    assert(members_view(members@) =~= seq![(k1@, v1@), (k2@, v2@)]);
    write_json_object(&members)
}

pub fn clone_strings(l: &Vec<String>) -> (res: Vec<String>)
    ensures
        res@ == l@,
{
    let mut out: Vec<String> = Vec::new();
    let mut i: usize = 0;
    while i < l.len()
        invariant
            i <= l.len(),
            out@ == l@.subrange(0, i as int),
        decreases l.len() - i,
    {
        out.push(l[i].clone());
        assert(out@ =~= l@.subrange(0, i + 1));
        i = i + 1;
    }
    assert(out@ =~= l@);
    out
}

/// The sync message that lists the given connection ids.
pub fn sync_message(ids: &Vec<String>) -> (res: String)
    ensures
        res@ == sync_text(strings_view(ids@)),
{
    let list = clone_strings(ids);
    two_members("type", JsonField::Text(String::from_str("sync")), "connectionIds", JsonField::TextList(list))
}

/// The message that tells the control socket a client arrived on `id`.
pub fn connected_message(id: &str) -> (res: String)
    ensures
        res@ == connected_text(id@),
{
    two_members(
        "type",
        JsonField::Text(String::from_str("connected")),
        "connectionId",
        JsonField::Text(String::from_str(id)),
    )
}

/// The message that tells the control socket the last client of `id` left.
pub fn disconnected_message(id: &str) -> (res: String)
    ensures
        res@ == disconnected_text(id@),
{
    two_members(
        "type",
        JsonField::Text(String::from_str("disconnected")),
        "connectionId",
        JsonField::Text(String::from_str(id)),
    )
}

/// The answer to a control ping, stamped with `ts`.
pub fn pong_message(ts: u64) -> (res: String)
    ensures
        res@ == pong_text(ts),
{
    two_members("type", JsonField::Text(String::from_str("pong")), "ts", JsonField::Number(ts))
}

/// Whether a control text is a ping.
pub fn text_is_ping(text: &str) -> (res: bool)
    ensures
        res == is_ping_text(text@),
{
    match read_json_string_member(text, "type") {
        Some(kind) => str_eq(kind.as_str(), "ping"),
        None => false,
    }
}

} // verus!
