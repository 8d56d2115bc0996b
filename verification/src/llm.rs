//! What the chat clients and the server say to one another: messages, tool calls, the metrics of
//! a streamed answer, and the refusals a client can act on.

use vstd::prelude::*;
use vstd::string::*;
use vstd::utf8::*;
use crate::json;
use crate::json::{node_of, object_of, parse_object, write_value, Node, Tree};
use crate::text;

verus! {

/// What every surface says when a turn ended with [`StreamMetrics::truncated`].
///
/// One wording in one place because two clients say it, and a user who learns to recognise the
/// sentence on one should not meet a different one on the other.
pub const TRUNCATED_NOTICE: &'static str =
    "answer cut off at the server's response-length cap — an unfinished tool call was not run; raise [orangu].code_max_tokens";

/// The phrase the server puts in the `400` it answers a request whose context is longer than its
/// device can hold with, and that a client matches to recognise one.
///
/// Matched on the message rather than the status code because a `400` on its own says nothing
/// about *what* to shorten.
pub const CONTEXT_TOO_LONG_MARKER: &'static str = "tokens of KV cache";

/// Whether a failed request failed because its context was too long for the server's device — the
/// one failure a caller can do something about by sending less.
pub fn is_context_too_long(error: &str) -> (yes: bool)
    ensures
        yes == text::occurs(error@, CONTEXT_TOO_LONG_MARKER@),
{
    text::contains(error, CONTEXT_TOO_LONG_MARKER)
}

/// The phrase the server refuses an `id_slot` it has no slot for with.
pub const SLOT_OUT_OF_RANGE_MARKER: &'static str = "out of range (server has";

/// Whether a failed request failed because the `id_slot` it pinned does not exist on the server
/// that answered.
pub fn is_slot_out_of_range(error: &str) -> (yes: bool)
    ensures
        yes == text::occurs(error@, SLOT_OUT_OF_RANGE_MARKER@),
{
    text::contains(error, SLOT_OUT_OF_RANGE_MARKER)
}

/// A refusal is recognised however a client's own error context wraps it.
pub proof fn law_a_wrapped_refusal_is_recognised(
    marker: Seq<char>,
    context: Seq<char>,
    refusal: Seq<char>,
    rest: Seq<char>,
)
    requires
        text::occurs(refusal, marker),
    ensures
        text::occurs(context + refusal + rest, marker),
{
    let at = choose|at: int| text::stands_at(refusal, marker, at);
    let whole = context + refusal + rest;
    assert(whole.subrange(context.len() + at, context.len() + at + marker.len())
        =~= refusal.subrange(at, at + marker.len()));
    assert(text::stands_at(whole, marker, context.len() + at));
}

/// How far the server has got with a prompt.
#[derive(Debug, Clone, Copy, PartialEq, Eq, Structural)]
pub struct StreamPromptProgress {
    pub total: i32,
    pub cache: i32,
    pub processed: i32,
    pub time_ms: i64,
}

impl Default for StreamPromptProgress {
    fn default() -> (progress: StreamPromptProgress)
        ensures
            progress == (StreamPromptProgress { total: 0, cache: 0, processed: 0, time_ms: 0 }),
    {
        StreamPromptProgress { total: 0, cache: 0, processed: 0, time_ms: 0 }
    }
}

/// What a streamed answer reports about itself. Rates are double precision bit patterns.
#[derive(Debug, Clone, Copy, PartialEq, Eq, Structural)]
pub struct StreamMetrics {
    pub prompt_progress: Option<StreamPromptProgress>,
    pub prompt_per_second: Option<u64>,
    pub predicted_per_second: Option<u64>,
    /// The server stopped because the answer reached its response-length cap, not because the
    /// model was done.
    ///
    /// Not a rate, and here anyway: a cut-off answer looks exactly like a finished one, and when
    /// what it cut off was a tool call, nothing runs. Every surface that reports a turn should be
    /// able to say it happened.
    pub truncated: bool,
}

impl Default for StreamMetrics {
    fn default() -> (metrics: StreamMetrics)
        ensures
            metrics == no_metrics(),
    {
        StreamMetrics {
            prompt_progress: None,
            prompt_per_second: None,
            predicted_per_second: None,
            truncated: false,
        }
    }
}

/// Nothing reported yet.
pub open spec fn no_metrics() -> StreamMetrics {
    StreamMetrics {
        prompt_progress: None,
        prompt_per_second: None,
        predicted_per_second: None,
        truncated: false,
    }
}

/// The later of two reports of one thing.
pub open spec fn later<T>(held: Option<T>, update: Option<T>) -> Option<T> {
    if update is Some { update } else { held }
}

/// Metrics after an update.
pub open spec fn merged(held: StreamMetrics, update: StreamMetrics) -> StreamMetrics {
    StreamMetrics {
        prompt_progress: later(held.prompt_progress, update.prompt_progress),
        prompt_per_second: later(held.prompt_per_second, update.prompt_per_second),
        predicted_per_second: later(held.predicted_per_second, update.predicted_per_second),
        truncated: held.truncated || update.truncated,
    }
}

/// Metrics after a run of updates, in turn.
pub open spec fn merged_all(held: StreamMetrics, updates: Seq<StreamMetrics>) -> StreamMetrics
    decreases updates.len(),
{
    if updates.len() == 0 {
        held
    } else {
        merged(merged_all(held, updates.drop_last()), updates.last())
    }
}

impl StreamMetrics {
    pub fn is_empty(&self) -> (yes: bool)
        ensures
            yes == (*self == no_metrics()),
    {
        self.prompt_progress.is_none() && self.prompt_per_second.is_none()
            && self.predicted_per_second.is_none() && !self.truncated
    }

    /// Takes what an update reports, and keeps the rest. One truncated response stays truncated.
    pub fn merge(&mut self, update: StreamMetrics)
        ensures
            *final(self) == merged(*old(self), update),
    {
        if let Some(progress) = update.prompt_progress {
            self.prompt_progress = Some(progress);
        }
        if let Some(prompt_per_second) = update.prompt_per_second {
            self.prompt_per_second = Some(prompt_per_second);
        }
        if let Some(predicted_per_second) = update.predicted_per_second {
            self.predicted_per_second = Some(predicted_per_second);
        }
        self.truncated = self.truncated || update.truncated;
    }
}

/// One truncated response stays truncated however many further updates arrive after it, and no
/// update makes what was reported go missing.
pub proof fn law_truncation_is_sticky(held: StreamMetrics, updates: Seq<StreamMetrics>)
    ensures
        merged_all(held, updates).truncated == (held.truncated || exists|i: int|
            0 <= i < updates.len() && (#[trigger] updates[i]).truncated),
        held.prompt_progress is Some ==> merged_all(held, updates).prompt_progress is Some,
        held.prompt_per_second is Some ==> merged_all(held, updates).prompt_per_second is Some,
        held.predicted_per_second is Some ==> merged_all(
            held,
            updates,
        ).predicted_per_second is Some,
    decreases updates.len(),
{
    if updates.len() > 0 {
        let rest = updates.drop_last();
        law_truncation_is_sticky(held, rest);
        assert(forall|i: int| 0 <= i < rest.len() ==> #[trigger] rest[i] == updates[i]);
        assert(updates.last() == updates[updates.len() - 1]);
        if exists|i: int| 0 <= i < rest.len() && (#[trigger] rest[i]).truncated {
            let i = choose|i: int| 0 <= i < rest.len() && (#[trigger] rest[i]).truncated;
            assert(updates[i].truncated);
        }
        if exists|i: int| 0 <= i < updates.len() && (#[trigger] updates[i]).truncated {
            let i = choose|i: int| 0 <= i < updates.len() && (#[trigger] updates[i]).truncated;
            assert(i < rest.len() ==> rest[i].truncated);
        }
    }
}

/// A function to call, and what to call it with: arguments by name.
#[derive(Debug)]
pub struct ToolCallFunction {
    pub name: String,
    pub arguments: Vec<(String, serde_json::Value)>,
}

#[derive(Debug)]
pub struct ToolCall {
    pub id: String,
    pub tool_type: String,
    pub function: ToolCallFunction,
}

#[derive(Debug)]
pub struct FunctionDefinition {
    pub name: String,
    pub description: String,
    pub parameters: serde_json::Value,
}

#[derive(Debug)]
pub struct ToolDefinition {
    pub tool_type: String,
    pub function: FunctionDefinition,
}

#[derive(Debug)]
pub enum LlmResponse {
    Text(String),
    ToolCalls(Vec<ToolCall>),
}

#[derive(Debug)]
pub struct ChatMessage {
    pub role: String,
    pub content: String,
    pub tool_calls: Option<Vec<ToolCall>>,
    pub tool_call_id: Option<String>,
}

impl ChatMessage {
    /// Whether the message is nothing but its role and its content.
    pub open spec fn says(self, role: Seq<char>, content: Seq<char>) -> bool {
        self.role@ == role && self.content@ == content && self.tool_calls is None
            && self.tool_call_id is None
    }

    pub fn system(content: &str) -> (message: ChatMessage)
        ensures
            message.says("system"@, content@),
    {
        ChatMessage {
            role: "system".to_string(),
            content: content.to_string(),
            tool_calls: None,
            tool_call_id: None,
        }
    }

    pub fn user(content: &str) -> (message: ChatMessage)
        ensures
            message.says("user"@, content@),
    {
        ChatMessage {
            role: "user".to_string(),
            content: content.to_string(),
            tool_calls: None,
            tool_call_id: None,
        }
    }

    pub fn assistant(content: &str) -> (message: ChatMessage)
        ensures
            message.says("assistant"@, content@),
    {
        ChatMessage {
            role: "assistant".to_string(),
            content: content.to_string(),
            tool_calls: None,
            tool_call_id: None,
        }
    }

    pub fn assistant_tool_calls(tool_calls: Vec<ToolCall>) -> (message: ChatMessage)
        ensures
            message.role@ == "assistant"@,
            message.content@.len() == 0,
            message.tool_calls == Some(tool_calls),
            message.tool_call_id is None,
    {
        ChatMessage {
            role: "assistant".to_string(),
            content: String::new(),
            tool_calls: Some(tool_calls),
            tool_call_id: None,
        }
    }

    pub fn tool_result(tool_call_id: &str, content: &str) -> (message: ChatMessage)
        ensures
            message.role@ == "tool"@,
            message.content@ == content@,
            message.tool_calls is None,
            message.tool_call_id matches Some(id) && id@ == tool_call_id@,
    {
        ChatMessage {
            role: "tool".to_string(),
            content: content.to_string(),
            tool_calls: None,
            tool_call_id: Some(tool_call_id.to_string()),
        }
    }
}

/// Why a payload gives no arguments.
#[derive(Debug)]
pub enum ArgumentsError {
    /// A text that is not JSON, or is not an object.
    NotAnObject,
    /// Something else than a text, an object or nothing at all.
    Unsupported,
}

/// The arguments a payload spells: those of an object, or of an object written out as a text, and
/// none for null.
pub open spec fn arguments_of(payload: Tree) -> Result<Seq<(Seq<char>, Tree)>, ArgumentsError> {
    match payload {
        Tree::Text(s) => match json::object_text(encode_utf8(s)) {
            Some(fields) => Ok(fields),
            None => Err(ArgumentsError::NotAnObject),
        },
        Tree::Object(fields) => Ok(fields),
        Tree::Null => Ok(Seq::empty()),
        _ => Err(ArgumentsError::Unsupported),
    }
}

pub open spec fn arguments_view(
    arguments: Result<Vec<(String, serde_json::Value)>, ArgumentsError>,
) -> Result<Seq<(Seq<char>, Tree)>, ArgumentsError> {
    match arguments {
        Ok(fields) => Ok(json::field_trees(fields@)),
        Err(e) => Err(e),
    }
}

/// Reads the arguments of a tool call: servers send them as an object or as the text of one.
pub fn read_arguments(payload: serde_json::Value) -> (arguments: Result<
    Vec<(String, serde_json::Value)>,
    ArgumentsError,
>)
    ensures
        arguments_view(arguments) == arguments_of(json::contents(payload)),
{
    match node_of(payload) {
        Node::Text(s) => match parse_object(s.as_str().as_bytes()) {
            Some(fields) => Ok(fields),
            None => Err(ArgumentsError::NotAnObject),
        },
        Node::Object(fields) => Ok(fields),
        Node::Null => {
            let none: Vec<(String, serde_json::Value)> = Vec::new();
            assert(json::field_trees(none@) =~= Seq::empty());
            Ok(none)
        },
        _ => Err(ArgumentsError::Unsupported),
    }
}

/// Writes the arguments of a tool call as the text of an object. What is written is read back as
/// the same arguments, as long as their numbers are whole, they are not nested too deeply to be
/// parsed at all, and no object among them has the key that the parser keeps for itself.
pub fn write_arguments(arguments: Vec<(String, serde_json::Value)>) -> (written: String)
    ensures
        ({
            let fields = json::collected(json::field_trees(arguments@));
            let object = Tree::Object(fields);
            &&& written@ == json::written(object)
            &&& json::fields_read_back(fields) ==> arguments_of(
                Tree::Text(written@),
            ) == Ok::<_, ArgumentsError>(fields)
        }),
{
    let object = object_of(arguments);
    match write_value(&object) {
        Some(s) => s,
        None => String::new(),
    }
}

/// An update says the last word on what it reports, and none on what it does not.
pub proof fn law_the_last_report_counts(held: StreamMetrics, update: StreamMetrics)
    ensures
        ({
            let now = merged(held, update);
            &&& update.prompt_progress is Some ==> now.prompt_progress == update.prompt_progress
            &&& update.prompt_progress is None ==> now.prompt_progress == held.prompt_progress
            &&& update.prompt_per_second is Some ==> now.prompt_per_second
                == update.prompt_per_second
            &&& update.prompt_per_second is None ==> now.prompt_per_second == held.prompt_per_second
            &&& update.predicted_per_second is Some ==> now.predicted_per_second
                == update.predicted_per_second
            &&& update.predicted_per_second is None ==> now.predicted_per_second
                == held.predicted_per_second
        }),
        merged(held, no_metrics()) == held,
        merged(no_metrics(), update) == update,
        no_metrics().prompt_progress is None && no_metrics().prompt_per_second is None
            && no_metrics().predicted_per_second is None && !no_metrics().truncated,
{
}

/// Arguments come as an object, as the text of one, or not at all; a payload of any other shape
/// is refused, and so is a text that spells no object.
pub proof fn law_arguments_are_an_object_or_its_text(
    payload: Tree,
    fields: Seq<(Seq<char>, Tree)>,
    s: Seq<char>,
)
    ensures
        arguments_of(Tree::Object(fields)) == Ok::<_, ArgumentsError>(fields),
        json::object_text(encode_utf8(s)) is Some ==> arguments_of(Tree::Text(s)) == arguments_of(
            Tree::Object(json::object_text(encode_utf8(s))->0),
        ),
        json::object_text(encode_utf8(s)) is None ==> arguments_of(Tree::Text(s)) == Err::<
            Seq<(Seq<char>, Tree)>,
            ArgumentsError,
        >(ArgumentsError::NotAnObject),
        arguments_of(Tree::Null) == Ok::<_, ArgumentsError>(Seq::<(Seq<char>, Tree)>::empty()),
        !(payload is Object || payload is Text || payload is Null) ==> arguments_of(payload)
            == Err::<Seq<(Seq<char>, Tree)>, ArgumentsError>(ArgumentsError::Unsupported),
{
}

/// The phrases a client knows the two refusals by.
pub proof fn law_refusals_are_known_by_their_phrases()
    ensures
        CONTEXT_TOO_LONG_MARKER@ == "tokens of KV cache"@,
        SLOT_OUT_OF_RANGE_MARKER@ == "out of range (server has"@,
{
}

} // verus!
