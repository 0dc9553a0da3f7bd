//! The conversation as the turn loop sees it: messages, tool calls and tool
//! results.
use vstd::prelude::*;
use crate::chars;
use crate::json::{self, Json, JsonV};

verus! {

/// Who said a message.
#[derive(Clone, Copy, Debug, PartialEq, Eq, Structural)]
pub enum Role {
    User,
    Assistant,
}

/// A tool call that the model asks for.
#[derive(Debug)]
pub struct ToolCall {
    pub id: String,
    pub name: String,
    pub args: Json,
}

pub struct CallV {
    pub id: Seq<char>,
    pub name: Seq<char>,
    pub args: JsonV,
}

/// The schema of a plugin that a result declares for its payload.
#[derive(Debug)]
pub struct OutputSchemaRef {
    pub plugin_id: String,
    pub schema_name: String,
}

pub struct SchemaV {
    pub plugin_id: Seq<char>,
    pub schema_name: Seq<char>,
}

/// What a tool gave back.
#[derive(Debug)]
pub struct ToolResult {
    /// The call it answers.
    pub id: String,
    /// The text for humans, verbatim.
    pub content: String,
    pub is_error: bool,
    /// The payload for the model.
    pub structured: Option<Json>,
    pub output_schema: Option<OutputSchemaRef>,
    /// How the payload breaks its declared schema.
    pub schema_violation: Option<String>,
}

pub struct ResultV {
    pub id: Seq<char>,
    pub content: Seq<char>,
    pub is_error: bool,
    pub structured: Option<JsonV>,
    pub output_schema: Option<SchemaV>,
    pub schema_violation: Option<Seq<char>>,
}

/// A message of the conversation.
#[derive(Debug)]
pub struct Msg {
    pub role: Role,
    pub text: String,
    pub tool_calls: Vec<ToolCall>,
    pub tool_results: Vec<ToolResult>,
    /// What the backend keeps of its own reply.
    pub raw: Option<Json>,
}

#[verifier::ext_equal]
pub struct MsgV {
    pub role: Role,
    pub text: Seq<char>,
    pub tool_calls: Seq<CallV>,
    pub tool_results: Seq<ResultV>,
    pub raw: Option<JsonV>,
}

pub open spec fn json_view(v: Option<Json>) -> Option<JsonV> {
    match v {
        Some(j) => Some(j.view()),
        None => None,
    }
}

pub open spec fn text_view(s: Option<String>) -> Option<Seq<char>> {
    match s {
        Some(t) => Some(t@),
        None => None,
    }
}

/// The view of a list of calls.
pub open spec fn calls(v: Seq<ToolCall>) -> Seq<CallV> {
    v.map_values(|c: ToolCall| c.view())
}

/// The view of a list of results.
pub open spec fn results(v: Seq<ToolResult>) -> Seq<ResultV> {
    v.map_values(|r: ToolResult| r.view())
}

/// The view of a conversation.
pub open spec fn messages(v: Seq<Msg>) -> Seq<MsgV> {
    v.map_values(|m: Msg| m.view())
}

impl ToolCall {
    pub open spec fn view(self) -> CallV {
        CallV { id: self.id@, name: self.name@, args: self.args.view() }
    }

    /// A copy of the call.
    pub fn copy(&self) -> (r: ToolCall)
        ensures
            r.view() == self.view(),
    {
        ToolCall { id: self.id.clone(), name: self.name.clone(), args: self.args.copy() }
    }
}

/// A copy of a list of calls.
pub fn copy_calls(v: &[ToolCall]) -> (r: Vec<ToolCall>)
    ensures
        calls(r@) == calls(v@),
{
    let mut out: Vec<ToolCall> = Vec::new();
    let mut i: usize = 0;
    while i < v.len()
        invariant
            i <= v@.len(),
            out@.len() == i,
            forall|j: int| 0 <= j < i ==> (#[trigger] out@[j]).view() == v@[j].view(),
        decreases v@.len() - i,
    {
        out.push(v[i].copy());
        i += 1;
    }
    assert(calls(out@) =~= calls(v@));
    out
}

impl OutputSchemaRef {
    pub open spec fn view(self) -> SchemaV {
        SchemaV { plugin_id: self.plugin_id@, schema_name: self.schema_name@ }
    }
}

pub open spec fn schema_view(s: Option<OutputSchemaRef>) -> Option<SchemaV> {
    match s {
        Some(r) => Some(r.view()),
        None => None,
    }
}

/// A result of text alone.
pub open spec fn plain_result(id: Seq<char>, content: Seq<char>, is_error: bool) -> ResultV {
    ResultV {
        id,
        content,
        is_error,
        structured: None,
        output_schema: None,
        schema_violation: None,
    }
}

/// What the model is shown of a result: the payload when there is one, the text
/// otherwise, behind a warning when the payload breaks its schema.
pub open spec fn shown_to_model(r: ResultV) -> Seq<char> {
    let body = match r.structured {
        Some(v) => json::compact(v),
        None => r.content,
    };
    match r.schema_violation {
        Some(note) => "[schema-validation warning] "@ + note + "\n"@ + body,
        None => body,
    }
}

impl ToolResult {
    pub open spec fn view(self) -> ResultV {
        ResultV {
            id: self.id@,
            content: self.content@,
            is_error: self.is_error,
            structured: json_view(self.structured),
            output_schema: schema_view(self.output_schema),
            schema_violation: text_view(self.schema_violation),
        }
    }

    /// A result of text alone.
    pub fn text(id: &str, content: &str, is_error: bool) -> (r: ToolResult)
        ensures
            r.view() == plain_result(id@, content@, is_error),
    {
        ToolResult {
            id: id.to_owned(),
            content: content.to_owned(),
            is_error,
            structured: None,
            output_schema: None,
            schema_violation: None,
        }
    }

    /// A result with a payload for the model.
    pub fn structured(id: &str, content: &str, value: Json, is_error: bool) -> (r: ToolResult)
        ensures
            r.view() == (ResultV {
                structured: Some(value.view()),
                ..plain_result(id@, content@, is_error)
            }),
    {
        ToolResult {
            id: id.to_owned(),
            content: content.to_owned(),
            is_error,
            structured: Some(value),
            output_schema: None,
            schema_violation: None,
        }
    }

    /// The same result, declaring the schema of its payload.
    pub fn with_output_schema(self, plugin_id: &str, schema_name: &str) -> (r: ToolResult)
        ensures
            r.view() == (ResultV {
                output_schema: Some(SchemaV { plugin_id: plugin_id@, schema_name: schema_name@ }),
                ..self.view()
            }),
    {
        ToolResult {
            output_schema: Some(
                OutputSchemaRef {
                    plugin_id: plugin_id.to_owned(),
                    schema_name: schema_name.to_owned(),
                },
            ),
            ..self
        }
    }

    /// Notes how the payload breaks its schema.
    pub fn note_schema_violation(&mut self, note: String)
        ensures
            final(self).view() == (ResultV { schema_violation: Some(note@), ..old(self).view() }),
    {
        self.schema_violation = Some(note);
    }

    /// What the model is shown.
    pub fn model_content(&self) -> (r: String)
        ensures
            r@ == shown_to_model(self.view()),
    {
        let body = match &self.structured {
            Some(v) => json::to_compact(v),
            None => self.content.clone(),
        };
        match &self.schema_violation {
            Some(note) => {
                let mut out = "[schema-validation warning] ".to_owned();
                out.push_str(note.as_str());
                out.push_str("\n");
                out.push_str(body.as_str());
                out
            },
            None => body,
        }
    }
}

/// A user's message of text alone.
pub open spec fn user_message(text: Seq<char>) -> MsgV {
    MsgV { role: Role::User, text, tool_calls: seq![], tool_results: seq![], raw: None }
}

/// The message that hands results back to the model.
pub open spec fn results_message(rs: Seq<ResultV>) -> MsgV {
    MsgV { role: Role::User, text: seq![], tool_calls: seq![], tool_results: rs, raw: None }
}

impl Msg {
    pub open spec fn view(self) -> MsgV {
        MsgV {
            role: self.role,
            text: self.text@,
            tool_calls: calls(self.tool_calls@),
            tool_results: results(self.tool_results@),
            raw: json_view(self.raw),
        }
    }

    /// A user's message.
    pub fn user(text: String) -> (r: Msg)
        ensures
            r.view() == user_message(text@),
    {
        let r = Msg {
            role: Role::User,
            text,
            tool_calls: Vec::new(),
            tool_results: Vec::new(),
            raw: None,
        };
        assert(r.view() =~= user_message(text@));
        r
    }

    /// The message that hands results back to the model.
    pub fn tool_results(rs: Vec<ToolResult>) -> (r: Msg)
        ensures
            r.view() == results_message(results(rs@)),
    {
        let r = Msg {
            role: Role::User,
            text: String::new(),
            tool_calls: Vec::new(),
            tool_results: rs,
            raw: None,
        };
        assert(r.view() =~= results_message(results(rs@)));
        r
    }
}

/// Law: the model is shown a result's payload where it has one, and else its text; a payload
/// that breaks its schema is shown all the same, behind a warning that says how.
pub proof fn models_see_payload_before_text(r: ResultV, v: JsonV, note: Seq<char>)
    ensures
        r.structured is None && r.schema_violation is None ==> shown_to_model(r) == r.content,
        r.structured == Some(v) && r.schema_violation is None ==> shown_to_model(r)
            == json::compact(v),
        r.structured == Some(v) && r.schema_violation == Some(note) ==> chars::ends_with(
            shown_to_model(r),
            json::compact(v),
        ) && chars::contains_str(shown_to_model(r), note),
{
    if r.structured == Some(v) && r.schema_violation == Some(note) {
        let s = shown_to_model(r);
        let b = json::compact(v);
        let h = "[schema-validation warning] "@;
        assert(s.subrange(s.len() - b.len(), s.len() as int) =~= b);
        chars::lemma_holds_part(h, note, "\n"@ + b);
        assert(h + note + ("\n"@ + b) =~= s);
    }
}

} // verus!
