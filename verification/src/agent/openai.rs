//! The wire format of OpenAI-compatible completion endpoints.

use crate::agent::seam::{CompletionRequest, CompletionResponse, ToolSchema};
use crate::agent::sse;
use crate::agent::types;
use crate::agent::types::{
    ContentBlock, ContentBlockV, FinishReasonV, LlmError, LlmMessage, LlmMessageV, LlmRole,
    TokenUsage, ToolCall, ToolCallV,
};
use crate::json;
use crate::json::{Json, JsonMember, JsonMemberV, JsonV};
use crate::text;
use crate::text::CharClass;
use vstd::prelude::*;

verus! {

/// The time limit of a request, from sending to the end of the stream.
pub const DEFAULT_TIMEOUT_MS: u64 = 300_000;

/// How much of the body of a failed request an error keeps.
pub const ERROR_BODY_CHARS: usize = 2000;

pub open spec fn base_url(endpoint: Seq<char>) -> Seq<char> {
    let s = text::trim_end_by(text::trim(endpoint), text::only('/'));
    match text::rfind(s, "/chat/completions"@) {
        Some(pos) => s.take(pos),
        None => s,
    }
}

/// The base of an endpoint: without surrounding whitespace, trailing slashes and the
/// path `/chat/completions`; a prefix such as `/v1` is kept.
pub fn normalize_base_url(endpoint: &str) -> (r: String)
    ensures
        r@ == base_url(endpoint@),
{
    let t = text::trim_space(endpoint);
    let s = text::trim_end_of(&t, &CharClass::Only('/'));
    let cs = text::chars_of(&s);
    let p = text::chars_of("/chat/completions");
    match text::rfind_of(&cs, &p) {
        Some(pos) => text::slice_text(&cs, 0, pos),
        None => s,
    }
}

/// The text of a tool message: its text blocks and results.
pub open spec fn tool_text(blocks: Seq<ContentBlockV>) -> Seq<char>
    decreases blocks.len(),
{
    if blocks.len() == 0 {
        Seq::empty()
    } else {
        let before = tool_text(blocks.drop_last());
        match blocks.last() {
            ContentBlockV::Text(t) => before + t,
            ContentBlockV::ToolResult { content, .. } => before + content,
            ContentBlockV::ToolCall(_) => before,
        }
    }
}

/// The id of the last result of a tool message.
pub open spec fn tool_id(blocks: Seq<ContentBlockV>) -> Seq<char>
    decreases blocks.len(),
{
    if blocks.len() == 0 {
        Seq::empty()
    } else {
        match blocks.last() {
            ContentBlockV::ToolResult { tool_call_id, .. } => tool_call_id,
            _ => tool_id(blocks.drop_last()),
        }
    }
}

pub open spec fn call_json(c: ToolCallV) -> JsonV {
    JsonV::Object(
        seq![
            json::member("id"@, JsonV::Str(c.id)),
            json::member("type"@, JsonV::Str("function"@)),
            json::member(
                "function"@,
                JsonV::Object(
                    seq![
                        json::member("name"@, JsonV::Str(c.name)),
                        json::member("arguments"@, JsonV::Str(c.arguments)),
                    ],
                ),
            ),
        ],
    )
}

pub open spec fn calls_json(cs: Seq<ToolCallV>) -> Seq<JsonV> {
    Seq::new(cs.len(), |i: int| call_json(cs[i]))
}

/// A message on the wire. A tool message names the call that it answers. An assistant
/// message with calls carries them beside its text, which is null where there is none.
pub open spec fn message_json(m: LlmMessageV) -> JsonV {
    let role = json::member("role"@, JsonV::Str(m.role.name()));
    if m.role == LlmRole::Tool {
        JsonV::Object(
            seq![
                role,
                json::member("content"@, JsonV::Str(tool_text(m.content))),
                json::member("tool_call_id"@, JsonV::Str(tool_id(m.content))),
            ],
        )
    } else {
        let t = types::text_of(m.content);
        let calls = types::calls_of(m.content);
        if m.role == LlmRole::Assistant && calls.len() > 0 {
            JsonV::Object(
                seq![
                    role,
                    json::member(
                        "content"@,
                        if t.len() == 0 {
                            JsonV::Null
                        } else {
                            JsonV::Str(t)
                        },
                    ),
                    json::member("tool_calls"@, JsonV::Array(calls_json(calls))),
                ],
            )
        } else {
            JsonV::Object(seq![role, json::member("content"@, JsonV::Str(t))])
        }
    }
}

fn call_value(c: &ToolCall) -> (r: Json)
    ensures
        r@ == call_json(c@),
{
    let mut f: Vec<JsonMember> = Vec::new();
    json::put(&mut f, "name", json::str_value(&c.name));
    json::put(&mut f, "arguments", json::str_value(&c.arguments));
    assert(json::members_view(f@) =~= seq![
        json::member("name"@, JsonV::Str(c.name@)),
        json::member("arguments"@, JsonV::Str(c.arguments@)),
    ]);
    let mut m: Vec<JsonMember> = Vec::new();
    json::put(&mut m, "id", json::str_value(&c.id));
    json::put(&mut m, "type", json::str_value("function"));
    json::put(&mut m, "function", json::object(f));
    assert(json::members_view(m@) =~= call_json(c@)->Object_0);
    json::object(m)
}

/// Puts a message into the shape of the wire.
pub fn to_openai_message(msg: &LlmMessage) -> (r: Json)
    ensures
        r@ == message_json(msg@),
{
    let mut m: Vec<JsonMember> = Vec::new();
    json::put(&mut m, "role", json::str_value(msg.role.as_str()));
    if let LlmRole::Tool = msg.role {
        let (content, id) = tool_parts(msg);
        json::put(&mut m, "content", Json::Str(content));
        json::put(&mut m, "tool_call_id", Json::Str(id));
        assert(json::members_view(m@) =~= message_json(msg@)->Object_0);
        return json::object(m);
    }
    let t = msg.plain_text();
    let calls = msg.tool_calls();
    let mut items: Vec<Json> = Vec::new();
    let ghost cs = types::calls_of(msg@.content);
    let mut i: usize = 0;
    while i < calls.len()
        invariant
            i <= calls.len(),
            calls@.len() == cs.len(),
            forall|k: int| 0 <= k < calls@.len() ==> (#[trigger] calls@[k])@ == cs[k],
            json::items_view(items@) == calls_json(cs).take(i as int),
        decreases calls.len() - i,
    {
        assert(calls@[i as int]@ == cs[i as int]);
        json::put_item(&mut items, call_value(calls[i]));
        i += 1;
    }
    assert(json::items_view(items@) == calls_json(cs));
    let with_calls = match msg.role {
        LlmRole::Assistant => items.len() > 0,
        _ => false,
    };
    if with_calls {
        let content = if t.as_str().is_empty() {
            Json::Null
        } else {
            Json::Str(t)
        };
        json::put(&mut m, "content", content);
        json::put(&mut m, "tool_calls", json::array(items));
    } else {
        json::put(&mut m, "content", Json::Str(t));
    }
    assert(json::members_view(m@) =~= message_json(msg@)->Object_0);
    json::object(m)
}

fn tool_parts(msg: &LlmMessage) -> (r: (String, String))
    ensures
        r.0@ == tool_text(msg@.content),
        r.1@ == tool_id(msg@.content),
{
    let mut content = String::new();
    let mut id = String::new();
    let mut i: usize = 0;
    while i < msg.content.len()
        invariant
            i <= msg.content.len(),
            content@ == tool_text(msg@.content.take(i as int)),
            id@ == tool_id(msg@.content.take(i as int)),
        decreases msg.content.len() - i,
    {
        assert(msg@.content.take(i + 1).drop_last() == msg@.content.take(i as int));
        match &msg.content[i] {
            ContentBlock::Text(t) => {
                content.push_str(t);
            },
            ContentBlock::ToolResult { tool_call_id, content: c, .. } => {
                id = tool_call_id.clone();
                content.push_str(c);
            },
            ContentBlock::ToolCall(_) => {},
        }
        i += 1;
    }
    assert(msg@.content.take(i as int) == msg@.content);
    (content, id)
}

pub open spec fn tool_json(t: ToolSchema) -> JsonV {
    JsonV::Object(
        seq![
            json::member("type"@, JsonV::Str("function"@)),
            json::member(
                "function"@,
                JsonV::Object(
                    seq![
                        json::member("name"@, JsonV::Str(t.name@)),
                        json::member("description"@, JsonV::Str(t.description@)),
                        json::member("parameters"@, t.parameters@),
                    ],
                ),
            ),
        ],
    )
}

pub open spec fn tools_json(ts: Seq<ToolSchema>) -> Seq<JsonV> {
    Seq::new(ts.len(), |i: int| tool_json(ts[i]))
}

pub open spec fn messages_json(ms: Seq<LlmMessage>) -> Seq<JsonV> {
    Seq::new(ms.len(), |i: int| message_json(ms[i]@))
}

/// The effort to ask for: the request's own, else the adapter's; a blank one is none.
pub open spec fn effort(request: Option<String>, adapter: Option<String>) -> Option<JsonV> {
    let e = if request is Some {
        request
    } else {
        adapter
    };
    match e {
        Some(s) => if text::trim(s@).len() == 0 {
            None
        } else {
            Some(JsonV::Str(s@))
        },
        None => None,
    }
}

pub open spec fn schema_json(schema: JsonV) -> JsonV {
    JsonV::Object(
        seq![
            json::member("type"@, JsonV::Str("json_schema"@)),
            json::member(
                "json_schema"@,
                JsonV::Object(
                    seq![
                        json::member("name"@, JsonV::Str("output"@)),
                        json::member("strict"@, JsonV::Bool(true)),
                        json::member("schema"@, schema),
                    ],
                ),
            ),
        ],
    )
}

/// The fields of a request's body but for the extra ones.
pub open spec fn body_fields(
    model: Seq<char>,
    adapter_effort: Option<String>,
    req: CompletionRequest,
    stream: bool,
) -> Seq<JsonMemberV> {
    seq![
        json::member("model"@, JsonV::Str(model)),
        json::member("messages"@, JsonV::Array(messages_json(req.messages@))),
        json::member("stream"@, JsonV::Bool(stream)),
    ] + json::opt_member(
        "max_tokens"@,
        match req.max_tokens {
            Some(n) => Some(JsonV::Number(text::nat_text(n as nat))),
            None => None,
        },
    ) + json::opt_member(
        "temperature"@,
        match req.temperature {
            Some(t) => Some(JsonV::Number(t@)),
            None => None,
        },
    ) + json::opt_member("reasoning_effort"@, effort(req.reasoning_effort, adapter_effort)) + json::opt_member(
        "response_format"@,
        match req.output_schema {
            Some(s) => Some(schema_json(s@)),
            None => None,
        },
    ) + json::opt_member(
        "tools"@,
        if req.tools@.len() > 0 {
            Some(JsonV::Array(tools_json(req.tools@)))
        } else {
            None
        },
    ) + json::opt_member(
        "stream_options"@,
        if stream {
            Some(JsonV::Object(seq![json::member("include_usage"@, JsonV::Bool(true))]))
        } else {
            None
        },
    )
}

/// The body of a request. Extra fields replace those of the same name.
pub open spec fn body_json(
    model: Seq<char>,
    adapter_effort: Option<String>,
    req: CompletionRequest,
    stream: bool,
) -> JsonV {
    let fields = body_fields(model, adapter_effort, req, stream);
    JsonV::Object(
        match req.extra_params {
            Some(Json::Object(extra)) => json::with_members(
                fields,
                json::members_view(extra@),
                extra@.len() as int,
            ),
            _ => fields,
        },
    )
}

/// Speaks to an OpenAI-compatible endpoint.
#[derive(Debug)]
pub struct OpenAiAdapter {
    base_url: String,
    model: String,
    api_key: String,
    reasoning_effort: Option<String>,
    timeout_ms: u64,
}

impl OpenAiAdapter {
    pub closed spec fn base(&self) -> Seq<char> {
        self.base_url@
    }

    pub closed spec fn model_name(&self) -> Seq<char> {
        self.model@
    }

    pub closed spec fn key(&self) -> Seq<char> {
        self.api_key@
    }

    pub closed spec fn default_effort(&self) -> Option<String> {
        self.reasoning_effort
    }

    pub closed spec fn limit_ms(&self) -> u64 {
        self.timeout_ms
    }

    pub fn new(
        endpoint: String,
        model: String,
        api_key: String,
        reasoning_effort: Option<String>,
    ) -> (r: Self)
        ensures
            r.base() == base_url(endpoint@),
            r.model_name() == model@,
            r.key() == api_key@,
            r.default_effort() == reasoning_effort,
            r.limit_ms() == DEFAULT_TIMEOUT_MS,
    {
        OpenAiAdapter {
            base_url: normalize_base_url(&endpoint),
            model,
            api_key,
            reasoning_effort,
            timeout_ms: DEFAULT_TIMEOUT_MS,
        }
    }

    /// The same adapter with another time limit, in milliseconds.
    pub fn with_timeout(self, timeout_ms: u64) -> (r: Self)
        ensures
            r.limit_ms() == timeout_ms,
            r.base() == self.base(),
            r.model_name() == self.model_name(),
            r.key() == self.key(),
            r.default_effort() == self.default_effort(),
    {
        OpenAiAdapter {
            base_url: self.base_url,
            model: self.model,
            api_key: self.api_key,
            reasoning_effort: self.reasoning_effort,
            timeout_ms,
        }
    }

    pub fn model(&self) -> (r: &str)
        ensures
            r@ == self.model_name(),
    {
        &self.model
    }

    pub fn api_key(&self) -> (r: &str)
        ensures
            r@ == self.key(),
    {
        &self.api_key
    }

    pub fn timeout_ms(&self) -> (r: u64)
        ensures
            r == self.limit_ms(),
    {
        self.timeout_ms
    }

    pub fn chat_url(&self) -> (r: String)
        ensures
            r@ == self.base() + "/chat/completions"@,
    {
        types::prefixed(&self.base_url, "/chat/completions")
    }

    fn effort_value(&self, req: &CompletionRequest) -> (r: Option<Json>)
        ensures
            json::opt_view(r) == effort(req.reasoning_effort, self.default_effort()),
    {
        let wanted = match &req.reasoning_effort {
            Some(e) => Some(e),
            None => self.reasoning_effort.as_ref(),
        };
        match wanted {
            Some(e) => if text::trim_space(e).as_str().is_empty() {
                None
            } else {
                Some(json::str_value(e))
            },
            None => None,
        }
    }

    /// The body of a request to the endpoint.
    pub fn build_body(&self, req: &CompletionRequest, stream: bool) -> (r: Json)
        ensures
            r@ == body_json(self.model_name(), self.default_effort(), *req, stream),
    {
        let mut b: Vec<JsonMember> = Vec::new();
        json::put(&mut b, "model", json::str_value(&self.model));
        json::put(&mut b, "messages", json::array(message_values(&req.messages)));
        json::put(&mut b, "stream", Json::Bool(stream));
        assert(json::members_view(b@) =~= seq![
            json::member("model"@, JsonV::Str(self.model_name())),
            json::member("messages"@, JsonV::Array(messages_json(req.messages@))),
            json::member("stream"@, JsonV::Bool(stream)),
        ]);
        let max_tokens = match req.max_tokens {
            Some(n) => Some(Json::Number(text::u64_text(n as u64))),
            None => None,
        };
        json::put_opt(&mut b, "max_tokens", max_tokens);
        let temperature = match &req.temperature {
            Some(t) => Some(Json::Number(t.clone())),
            None => None,
        };
        json::put_opt(&mut b, "temperature", temperature);
        json::put_opt(&mut b, "reasoning_effort", self.effort_value(req));
        let format = match &req.output_schema {
            Some(schema) => Some(schema_value(schema)),
            None => None,
        };
        json::put_opt(&mut b, "response_format", format);
        let tools = if req.tools.is_empty() {
            None
        } else {
            Some(json::array(tool_values(&req.tools)))
        };
        json::put_opt(&mut b, "tools", tools);
        json::put_opt(&mut b, "stream_options", stream_options(stream));
        assert(json::members_view(b@) == body_fields(
            self.model_name(),
            self.default_effort(),
            *req,
            stream,
        ));
        if let Some(Json::Object(extra)) = &req.extra_params {
            json::set_members(&mut b, extra);
        }
        json::object(b)
    }

    /// What a failed request means. A status 400 whose body speaks of the context
    /// window is an overflow of it.
    pub fn map_http_error(status: u16, body: &str) -> (r: LlmError)
        ensures
            is_overflow(status, body@) ==> r == LlmError::ContextOverflow,
            !is_overflow(status, body@) ==> (r matches LlmError::StatusCode(code, kept) && code
                == status && kept@ == text::ellipsized(body@, ERROR_BODY_CHARS as nat)),
    {
        if status == 400 {
            let lower = text::ascii_lowercase_of(body);
            if text::has_text(&lower, "context_length_exceeded") || text::has_text(
                &lower,
                "maximum context length",
            ) || text::has_text(&lower, "context window") {
                return LlmError::ContextOverflow;
            }
        }
        LlmError::StatusCode(status, text::ellipsize(body, ERROR_BODY_CHARS))
    }
}

pub open spec fn is_overflow(status: u16, body: Seq<char>) -> bool {
    let lower = text::ascii_lowercase(body);
    status == 400 && (text::contains(lower, "context_length_exceeded"@) || text::contains(
        lower,
        "maximum context length"@,
    ) || text::contains(lower, "context window"@))
}

fn stream_options(stream: bool) -> (r: Option<Json>)
    ensures
        json::opt_view(r) == (if stream {
            Some(JsonV::Object(seq![json::member("include_usage"@, JsonV::Bool(true))]))
        } else {
            None
        }),
{
    if stream {
        let mut o: Vec<JsonMember> = Vec::new();
        json::put(&mut o, "include_usage", Json::Bool(true));
        assert(json::members_view(o@) =~= seq![
            json::member("include_usage"@, JsonV::Bool(true)),
        ]);
        Some(json::object(o))
    } else {
        None
    }
}

fn message_values(ms: &Vec<LlmMessage>) -> (r: Vec<Json>)
    ensures
        json::items_view(r@) == messages_json(ms@),
{
    let mut r: Vec<Json> = Vec::new();
    let mut i: usize = 0;
    while i < ms.len()
        invariant
            i <= ms.len(),
            json::items_view(r@) == messages_json(ms@).take(i as int),
        decreases ms.len() - i,
    {
        json::put_item(&mut r, to_openai_message(&ms[i]));
        i += 1;
    }
    assert(messages_json(ms@).take(i as int) == messages_json(ms@));
    r
}

fn tool_value(t: &ToolSchema) -> (r: Json)
    ensures
        r@ == tool_json(*t),
{
    let mut f: Vec<JsonMember> = Vec::new();
    json::put(&mut f, "name", json::str_value(&t.name));
    json::put(&mut f, "description", json::str_value(&t.description));
    json::put(&mut f, "parameters", t.parameters.clone());
    assert(json::members_view(f@) =~= seq![
        json::member("name"@, JsonV::Str(t.name@)),
        json::member("description"@, JsonV::Str(t.description@)),
        json::member("parameters"@, t.parameters@),
    ]);
    let mut m: Vec<JsonMember> = Vec::new();
    json::put(&mut m, "type", json::str_value("function"));
    json::put(&mut m, "function", json::object(f));
    assert(json::members_view(m@) =~= tool_json(*t)->Object_0);
    json::object(m)
}

fn tool_values(ts: &Vec<ToolSchema>) -> (r: Vec<Json>)
    ensures
        json::items_view(r@) == tools_json(ts@),
{
    let mut r: Vec<Json> = Vec::new();
    let mut i: usize = 0;
    while i < ts.len()
        invariant
            i <= ts.len(),
            json::items_view(r@) == tools_json(ts@).take(i as int),
        decreases ts.len() - i,
    {
        json::put_item(&mut r, tool_value(&ts[i]));
        i += 1;
    }
    assert(tools_json(ts@).take(i as int) == tools_json(ts@));
    r
}

fn schema_value(schema: &Json) -> (r: Json)
    ensures
        r@ == schema_json(schema@),
{
    let mut s: Vec<JsonMember> = Vec::new();
    json::put(&mut s, "name", json::str_value("output"));
    json::put(&mut s, "strict", Json::Bool(true));
    json::put(&mut s, "schema", schema.clone());
    assert(json::members_view(s@) =~= seq![
        json::member("name"@, JsonV::Str("output"@)),
        json::member("strict"@, JsonV::Bool(true)),
        json::member("schema"@, schema@),
    ]);
    let mut m: Vec<JsonMember> = Vec::new();
    json::put(&mut m, "type", json::str_value("json_schema"));
    json::put(&mut m, "json_schema", json::object(s));
    assert(json::members_view(m@) =~= schema_json(schema@)->Object_0);
    json::object(m)
}

/// The content of a reply's message: a text, a list of parts of which some are text, or
/// something else.
#[derive(Debug, PartialEq, Eq)]
pub enum RawContent {
    Text(String),
    Parts(Vec<Option<String>>),
    Other,
}

/// What a reply holds of interest.
#[derive(Debug, PartialEq, Eq)]
pub struct RawReply {
    pub content: RawContent,
    pub tool_calls: Vec<ToolCall>,
    pub finish_reason: Option<String>,
    pub usage: Option<TokenUsage>,
}

/// The texts of the parts, one behind the other.
pub open spec fn parts_text(parts: Seq<Option<String>>) -> Seq<char>
    decreases parts.len(),
{
    if parts.len() == 0 {
        Seq::empty()
    } else {
        parts_text(parts.drop_last()) + sse::or_empty(sse::opt_text(parts.last()))
    }
}

pub open spec fn content_text(c: RawContent) -> Seq<char> {
    match c {
        RawContent::Text(s) => s@,
        RawContent::Parts(parts) => parts_text(parts@),
        RawContent::Other => Seq::empty(),
    }
}

pub fn content_to_string(c: &RawContent) -> (r: String)
    ensures
        r@ == content_text(*c),
{
    match c {
        RawContent::Text(s) => s.clone(),
        RawContent::Parts(parts) => {
            let mut r = String::new();
            let mut i: usize = 0;
            while i < parts.len()
                invariant
                    i <= parts.len(),
                    r@ == parts_text(parts@.take(i as int)),
                decreases parts.len() - i,
            {
                assert(parts@.take(i + 1).drop_last() == parts@.take(i as int));
                if let Some(t) = &parts[i] {
                    r.push_str(t);
                }
                assert(r@ =~= parts_text(parts@.take(i + 1)));
                i += 1;
            }
            assert(parts@.take(i as int) == parts@);
            r
        },
        RawContent::Other => String::new(),
    }
}

pub open spec fn opt_reason(o: Option<Seq<char>>) -> Option<FinishReasonV> {
    match o {
        Some(f) => Some(sse::finish_reason(f)),
        None => None,
    }
}

/// The completion that a reply stands for.
pub fn completion_of(raw: RawReply) -> (r: CompletionResponse)
    ensures
        r.content@ == content_text(raw.content),
        r.tool_calls == raw.tool_calls,
        r.usage == raw.usage,
        match r.finish_reason {
            Some(f) => opt_reason(sse::opt_text(raw.finish_reason)) == Some(f@),
            None => raw.finish_reason is None,
        },
{
    let content = content_to_string(&raw.content);
    let finish_reason = match &raw.finish_reason {
        Some(f) => Some(sse::parse_finish_reason(f)),
        None => None,
    };
    CompletionResponse { content, tool_calls: raw.tool_calls, usage: raw.usage, finish_reason }
}

/// The call at `base` of a reply's text; what is missing is empty.
pub open spec fn call_at(t: Seq<char>, base: Seq<char>) -> ToolCallV {
    ToolCallV {
        id: sse::or_empty(json::json_str(t, base + "/id"@)),
        name: sse::or_empty(json::json_str(t, base + "/function/name"@)),
        arguments: sse::or_empty(json::json_str(t, base + "/function/arguments"@)),
    }
}

/// The calls of a reply's text.
pub open spec fn calls_at(t: Seq<char>) -> Seq<ToolCallV> {
    Seq::new(
        sse::array_len(t, "/choices/0/message/tool_calls"@),
        |i: int|
            call_at(t, sse::numbered("/choices/0/message/tool_calls/"@, i, Seq::empty())),
    )
}

/// The parts of a reply's content, where it is a list.
pub open spec fn parts_at(t: Seq<char>) -> Seq<Option<Seq<char>>> {
    Seq::new(
        sse::array_len(t, "/choices/0/message/content"@),
        |i: int|
            json::json_str(t, sse::numbered("/choices/0/message/content/"@, i, "/text"@)),
    )
}

pub open spec fn part_texts(parts: Seq<Option<String>>) -> Seq<Option<Seq<char>>> {
    Seq::new(parts.len(), |i: int| sse::opt_text(parts[i]))
}

/// Whether `raw` is what the JSON text `t` holds of a reply. The choices must be a list,
/// and the first of them counts.
pub open spec fn is_reply(raw: RawReply, t: Seq<char>) -> bool {
    let chosen = sse::array_len(t, "/choices"@) > 0;
    let content = json::json_str(t, "/choices/0/message/content"@);
    &&& match raw.content {
        RawContent::Text(s) => chosen && content == Some(s@),
        RawContent::Parts(parts) => chosen && content is None && json::json_len(
            t,
            "/choices/0/message/content"@,
        ) is Some && part_texts(parts@) == parts_at(t),
        RawContent::Other => !chosen || (content is None && json::json_len(
            t,
            "/choices/0/message/content"@,
        ) is None),
    }
    &&& types::calls_view(raw.tool_calls@) == (if chosen {
        calls_at(t)
    } else {
        Seq::empty()
    })
    &&& sse::opt_text(raw.finish_reason) == (if chosen {
        json::json_str(t, "/choices/0/finish_reason"@)
    } else {
        None
    })
    &&& raw.usage == (if json::json_has(t, "/usage"@) {
        Some(sse::usage_at(t))
    } else {
        None
    })
}

fn text_or_empty(t: &str, base: &str, tail: &str) -> (r: String)
    ensures
        r@ == sse::or_empty(json::json_str(t@, base@ + tail@)),
{
    match json::str_at(t, &types::prefixed(base, tail)) {
        Some(s) => s,
        None => String::new(),
    }
}

fn read_calls(t: &str) -> (r: Vec<ToolCall>)
    ensures
        types::calls_view(r@) == calls_at(t@),
{
    let n = match json::len_at(t, "/choices/0/message/tool_calls") {
        Some(n) => n,
        None => 0,
    };
    let mut r: Vec<ToolCall> = Vec::new();
    let mut i: usize = 0;
    while i < n
        invariant
            i <= n,
            n == calls_at(t@).len(),
            types::calls_view(r@) == calls_at(t@).take(i as int),
        decreases n - i,
    {
        let ghost before = r@;
        proof {
            reveal_strlit("");
            assert(""@ == Seq::<char>::empty());
        }
        let base = sse::numbered_path("/choices/0/message/tool_calls/", i, "");
        let c = ToolCall {
            id: text_or_empty(t, &base, "/id"),
            name: text_or_empty(t, &base, "/function/name"),
            arguments: text_or_empty(t, &base, "/function/arguments"),
        };
        r.push(c);
        assert(types::calls_view(r@) =~= types::calls_view(before).push(c@));
        i += 1;
    }
    assert(calls_at(t@).take(i as int) == calls_at(t@));
    r
}

fn read_parts(t: &str, n: usize) -> (r: Vec<Option<String>>)
    requires
        n == parts_at(t@).len(),
    ensures
        part_texts(r@) == parts_at(t@),
{
    let mut r: Vec<Option<String>> = Vec::new();
    let mut i: usize = 0;
    while i < n
        invariant
            i <= n,
            n == parts_at(t@).len(),
            part_texts(r@) == parts_at(t@).take(i as int),
        decreases n - i,
    {
        let ghost before = r@;
        let p = json::str_at(t, &sse::numbered_path("/choices/0/message/content/", i, "/text"));
        r.push(p);
        assert(part_texts(r@) =~= part_texts(before).push(sse::opt_text(p)));
        i += 1;
    }
    assert(parts_at(t@).take(i as int) == parts_at(t@));
    r
}

/// Reads a reply out of its JSON text.
pub fn read_reply(t: &str) -> (r: Result<RawReply, LlmError>)
    ensures
        match r {
            Ok(raw) => json::json_error(t@) is None && is_reply(raw, t@),
            Err(LlmError::Json(e)) => json::json_error(t@) == Some(e@),
            Err(_) => false,
        },
{
    if let Err(e) = json::check_json(t) {
        return Err(LlmError::Json(e));
    }
    let chosen = match json::len_at(t, "/choices") {
        Some(n) => n > 0,
        None => false,
    };
    let usage = if json::has_at(t, "/usage") {
        Some(sse::parse_usage(t))
    } else {
        None
    };
    if !chosen {
        let tool_calls: Vec<ToolCall> = Vec::new();
        assert(types::calls_view(tool_calls@) == Seq::<ToolCallV>::empty());
        return Ok(
            RawReply { content: RawContent::Other, tool_calls, finish_reason: None, usage },
        );
    }
    let content = match json::str_at(t, "/choices/0/message/content") {
        Some(s) => RawContent::Text(s),
        None => match json::len_at(t, "/choices/0/message/content") {
            Some(n) => RawContent::Parts(read_parts(t, n)),
            None => RawContent::Other,
        },
    };
    Ok(
        RawReply {
            content,
            tool_calls: read_calls(t),
            finish_reason: json::str_at(t, "/choices/0/finish_reason"),
            usage,
        },
    )
}

/// The completion that a reply's JSON text holds.
pub fn parse_completion_response(t: &str) -> (r: Result<CompletionResponse, LlmError>)
    ensures
        match r {
            Ok(c) => json::json_error(t@) is None && exists|raw: RawReply| #[trigger]
                is_reply(raw, t@) && c.content@ == content_text(raw.content) && c.tool_calls
                    == raw.tool_calls && c.usage == raw.usage && (match c.finish_reason {
                    Some(f) => opt_reason(sse::opt_text(raw.finish_reason)) == Some(f@),
                    None => raw.finish_reason is None,
                }),
            Err(LlmError::Json(e)) => json::json_error(t@) == Some(e@),
            Err(_) => false,
        },
{
    match read_reply(t) {
        Ok(raw) => {
            let ghost seen = raw;
            let c = completion_of(raw);
            assert(is_reply(seen, t@));
            Ok(c)
        },
        Err(e) => Err(e),
    }
}

} // verus!
