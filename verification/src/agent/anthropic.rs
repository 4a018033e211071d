//! The wire format of Anthropic's messages endpoint.

use crate::agent::sent;
use crate::agent::seam::CompletionRequest;
use crate::agent::types;
use crate::agent::types::{
    FinishReason, LlmError, LlmMessage, LlmMessageV, LlmRole, StreamEvent, StreamEventV, TokenUsage,
};
use crate::agent::seam::CompletionResponse;
use crate::text;
use vstd::prelude::*;

verus! {

/// Speaks to Anthropic's messages endpoint.
#[derive(Debug)]
pub struct AnthropicAdapter {
    base_url: String,
    api_key: String,
    model: String,
    max_tokens: u32,
    thinking_budget: Option<u32>,
}

impl AnthropicAdapter {
    pub closed spec fn base(&self) -> Seq<char> {
        self.base_url@
    }

    pub closed spec fn key(&self) -> Seq<char> {
        self.api_key@
    }

    pub closed spec fn model_name(&self) -> Seq<char> {
        self.model@
    }

    pub closed spec fn token_limit(&self) -> u32 {
        self.max_tokens
    }

    pub closed spec fn thinking(&self) -> Option<u32> {
        self.thinking_budget
    }

    /// A `max_tokens` of 0 leaves the limit to the client; without `thinking_budget`
    /// there is no extended thinking.
    pub fn new(
        base_url: String,
        api_key: String,
        model: String,
        max_tokens: u32,
        thinking_budget: Option<u32>,
    ) -> (r: Self)
        ensures
            r.base() == base_url@,
            r.key() == api_key@,
            r.model_name() == model@,
            r.token_limit() == max_tokens,
            r.thinking() == thinking_budget,
    {
        AnthropicAdapter { base_url, api_key, model, max_tokens, thinking_budget }
    }

    pub fn model(&self) -> (r: &str)
        ensures
            r@ == self.model_name(),
    {
        &self.model
    }

    pub fn base_url(&self) -> (r: &str)
        ensures
            r@ == self.base(),
    {
        &self.base_url
    }

    pub fn api_key(&self) -> (r: &str)
        ensures
            r@ == self.key(),
    {
        &self.api_key
    }

    pub fn max_tokens(&self) -> (r: u32)
        ensures
            r == self.token_limit(),
    {
        self.max_tokens
    }

    pub fn thinking_budget(&self) -> (r: Option<u32>)
        ensures
            r == self.thinking(),
    {
        self.thinking_budget
    }
}

/// A message on the wire.
#[derive(Debug, PartialEq, Eq)]
pub struct AnthropicMessage {
    pub role: String,
    pub content: String,
}

pub struct AnthropicMessageV {
    pub role: Seq<char>,
    pub content: Seq<char>,
}

impl View for AnthropicMessage {
    type V = AnthropicMessageV;

    open spec fn view(&self) -> AnthropicMessageV {
        AnthropicMessageV { role: self.role@, content: self.content@ }
    }
}

pub open spec fn wire_view(ms: Seq<AnthropicMessage>) -> Seq<AnthropicMessageV> {
    Seq::new(ms.len(), |i: int| ms[i]@)
}

/// The text of the first system message at or behind `i`, where it is not blank.
pub open spec fn system_text(ms: Seq<LlmMessageV>, i: int) -> Option<Seq<char>>
    decreases ms.len() - i,
{
    if i < 0 || i >= ms.len() {
        None
    } else if ms[i].role == LlmRole::System {
        let t = types::text_of(ms[i].content);
        if text::trim(t).len() == 0 {
            None
        } else {
            Some(t)
        }
    } else {
        system_text(ms, i + 1)
    }
}

/// The messages of the user and the assistant among the first `n`. Tool messages have no
/// place in this protocol and are left out.
pub open spec fn dialogue(ms: Seq<LlmMessageV>, n: int) -> Seq<AnthropicMessageV>
    decreases n,
{
    if n <= 0 {
        Seq::empty()
    } else {
        let before = dialogue(ms, n - 1);
        let m = ms[n - 1];
        if m.role == LlmRole::User || m.role == LlmRole::Assistant {
            before.push(
                AnthropicMessageV { role: m.role.name(), content: types::text_of(m.content) },
            )
        } else {
            before
        }
    }
}

fn find_system(ms: &Vec<LlmMessage>) -> (r: Option<String>)
    ensures
        match r {
            Some(s) => system_text(types::messages_view(ms@), 0) == Some(s@),
            None => system_text(types::messages_view(ms@), 0) is None,
        },
{
    let ghost mv = types::messages_view(ms@);
    let mut i: usize = 0;
    while i < ms.len()
        invariant
            i <= ms.len(),
            mv == types::messages_view(ms@),
            system_text(mv, 0) == system_text(mv, i as int),
        decreases ms.len() - i,
    {
        assert(mv[i as int] == ms@[i as int]@);
        if let LlmRole::System = ms[i].role {
            let t = ms[i].plain_text();
            return if text::trim_space(&t).as_str().is_empty() {
                None
            } else {
                Some(t)
            };
        }
        i += 1;
    }
    None
}

/// The system text, which is a field of its own on the wire, and the messages.
pub fn split_system(req: &CompletionRequest) -> (r: (Option<String>, Vec<AnthropicMessage>))
    ensures
        match r.0 {
            Some(s) => system_text(types::messages_view(req.messages@), 0) == Some(s@),
            None => system_text(types::messages_view(req.messages@), 0) is None,
        },
        wire_view(r.1@) == dialogue(
            types::messages_view(req.messages@),
            req.messages@.len() as int,
        ),
        sent::is_dialogue(types::messages_view(req.messages@), wire_view(r.1@)),
{
    let ms = &req.messages;
    let ghost mv = types::messages_view(ms@);
    proof {
        sent::law_the_dialogue_goes_out(mv, mv.len() as int);
        assert(mv.take(mv.len() as int) =~= mv);
    }
    let system = find_system(ms);
    let mut out: Vec<AnthropicMessage> = Vec::new();
    let mut i: usize = 0;
    while i < ms.len()
        invariant
            i <= ms.len(),
            mv == types::messages_view(ms@),
            wire_view(out@) == dialogue(mv, i as int),
        decreases ms.len() - i,
    {
        assert(mv[i as int] == ms@[i as int]@);
        let spoken = match ms[i].role {
            LlmRole::User => true,
            LlmRole::Assistant => true,
            _ => false,
        };
        if spoken {
            let ghost before = out@;
            let m = AnthropicMessage {
                role: ms[i].role.as_str().to_owned(),
                content: ms[i].plain_text(),
            };
            out.push(m);
            assert(wire_view(out@) =~= wire_view(before).push(m@));
        }
        i += 1;
    }
    (system, out)
}

/// Why a request without messages is refused.
pub fn empty_request_error() -> (r: LlmError)
    ensures
        r matches LlmError::InvalidRequest(m) && m@ == "消息列表为空"@,
{
    LlmError::InvalidRequest("消息列表为空".to_owned())
}

/// The token counts of a reply; the total is the sum, capped at what 32 bits hold.
pub fn usage_event(
    input_tokens: u32,
    output_tokens: u32,
    cache_read_input_tokens: u32,
    cache_creation_input_tokens: u32,
) -> (r: TokenUsage)
    ensures
        r.prompt_tokens == input_tokens,
        r.completion_tokens == output_tokens,
        r.total_tokens == (if input_tokens + output_tokens > u32::MAX {
            u32::MAX as int
        } else {
            input_tokens + output_tokens
        }),
        r.cached_input_tokens == cache_read_input_tokens,
        r.cache_creation_input_tokens == cache_creation_input_tokens,
{
    TokenUsage {
        prompt_tokens: input_tokens,
        completion_tokens: output_tokens,
        total_tokens: input_tokens.saturating_add(output_tokens),
        cached_input_tokens: cache_read_input_tokens,
        cache_creation_input_tokens,
    }
}

/// The text of the deltas before the first end among the first `n` events.
pub open spec fn collected_text(evs: Seq<StreamEventV>, n: int) -> Seq<char>
    decreases n,
{
    if n <= 0 {
        Seq::empty()
    } else {
        let before = collected_text(evs, n - 1);
        match evs[n - 1] {
            StreamEventV::TextDelta(t) => if ended_before(evs, n - 1) {
                before
            } else {
                before + t
            },
            _ => before,
        }
    }
}

pub open spec fn ended_before(evs: Seq<StreamEventV>, n: int) -> bool {
    exists|i: int| 0 <= i < n && (#[trigger] evs[i]) is Finish
}

/// The last token counts before the first end among the first `n` events.
pub open spec fn collected_usage(evs: Seq<StreamEventV>, n: int) -> Option<TokenUsage>
    decreases n,
{
    if n <= 0 {
        None
    } else {
        match evs[n - 1] {
            StreamEventV::Usage(u) => if ended_before(evs, n - 1) {
                collected_usage(evs, n - 1)
            } else {
                Some(u)
            },
            _ => collected_usage(evs, n - 1),
        }
    }
}

pub open spec fn stream_view(evs: Seq<StreamEvent>) -> Seq<StreamEventV> {
    Seq::new(evs.len(), |i: int| evs[i]@)
}

proof fn lemma_collected_after_end(evs: Seq<StreamEventV>, i: int, n: int)
    requires
        0 <= i < n,
        evs[i] is Finish,
    ensures
        collected_text(evs, n) == collected_text(evs, i),
        collected_usage(evs, n) == collected_usage(evs, i),
    decreases n,
{
    if n == i + 1 {
    } else {
        lemma_collected_after_end(evs, i, n - 1);
        assert(ended_before(evs, n - 1));
    }
}

/// A whole completion from the events of a stream. What follows the end is not read.
pub fn collect_completion(evs: &Vec<StreamEvent>) -> (r: CompletionResponse)
    ensures
        r.content@ == collected_text(stream_view(evs@), evs@.len() as int),
        r.usage == collected_usage(stream_view(evs@), evs@.len() as int),
        r.tool_calls@.len() == 0,
        r.finish_reason == Some(FinishReason::Stop),
{
    let ghost ev = stream_view(evs@);
    let mut content = String::new();
    let mut usage: Option<TokenUsage> = None;
    let mut i: usize = 0;
    let mut done = false;
    while i < evs.len() && !done
        invariant
            i <= evs.len(),
            ev == stream_view(evs@),
            !done ==> !ended_before(ev, i as int) && content@ == collected_text(ev, i as int)
                && usage == collected_usage(ev, i as int),
            done ==> content@ == collected_text(ev, evs@.len() as int) && usage == collected_usage(
                ev,
                evs@.len() as int,
            ),
        decreases evs.len() - i,
    {
        assert(ev[i as int] == evs@[i as int]@);
        match &evs[i] {
            StreamEvent::TextDelta(t) => {
                content.push_str(t);
            },
            StreamEvent::Usage(u) => {
                usage = Some(*u);
            },
            StreamEvent::Finish(_) => {
                done = true;
                proof {
                    lemma_collected_after_end(ev, i as int, evs@.len() as int);
                }
            },
            _ => {},
        }
        i += 1;
    }
    CompletionResponse {
        content,
        tool_calls: Vec::new(),
        usage,
        finish_reason: Some(FinishReason::Stop),
    }
}

} // verus!
