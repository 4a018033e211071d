//! Server-sent events of a streamed completion: frames of bytes, the chunk of JSON in
//! each frame, and the assembly of stream events from the chunks.

use crate::agent::heard;
use crate::agent::types;
use crate::agent::types::{
    FinishReason, FinishReasonV, StreamEvent, StreamEventV, TokenUsage, ToolCall, ToolCallV,
};
use crate::json;
use crate::text;
use crate::text::CharClass;
use std::collections::VecDeque;
use vstd::prelude::*;

verus! {

/// The length of the frame delimiter that stands at `i`: `\r\n\r\n` or `\n\n`, else 0.
pub open spec fn delimiter_len(buf: Seq<u8>, i: int) -> int {
    if 0 <= i && i + 4 <= buf.len() && buf[i] == 13 && buf[i + 1] == 10 && buf[i + 2] == 13
        && buf[i + 3] == 10 {
        4
    } else if 0 <= i && i + 2 <= buf.len() && buf[i] == 10 && buf[i + 1] == 10 {
        2
    } else {
        0
    }
}

/// The first index at or behind `i` at which a frame delimiter stands.
pub open spec fn frame_end_from(buf: Seq<u8>, i: int) -> Option<int>
    decreases buf.len() - i,
{
    if i < 0 || i >= buf.len() {
        None
    } else if delimiter_len(buf, i) > 0 {
        Some(i)
    } else {
        frame_end_from(buf, i + 1)
    }
}

pub open spec fn frame_end(buf: Seq<u8>) -> Option<int> {
    frame_end_from(buf, 0)
}

fn delimiter_at(buf: &[u8], i: usize) -> (r: usize)
    ensures
        r == delimiter_len(buf@, i as int),
{
    let n: usize = buf.len();
    if i < n && n - i >= 4 && buf[i] == 13 && buf[i + 1] == 10 && buf[i + 2] == 13 && buf[i + 3]
        == 10 {
        4
    } else if i < n && n - i >= 2 && buf[i] == 10 && buf[i + 1] == 10 {
        2
    } else {
        0
    }
}

/// Where the first frame ends: the index of the first `\n\n` or `\r\n\r\n`.
pub fn find_frame_end(buf: &[u8]) -> (r: Option<usize>)
    ensures
        match r {
            Some(i) => frame_end(buf@) == Some(i as int),
            None => frame_end(buf@) is None,
        },
        match r {
            Some(i) => heard::is_gap(buf@, i as int) && forall|j: int|
                0 <= j < i ==> !#[trigger] heard::is_gap(buf@, j),
            None => forall|j: int| !#[trigger] heard::is_gap(buf@, j),
        },
{
    proof {
        heard::law_a_frame_ends_at_the_first_gap(buf@);
    }
    let mut i: usize = 0;
    while i < buf.len()
        invariant
            i <= buf.len(),
            frame_end(buf@) == frame_end_from(buf@, i as int),
            match frame_end(buf@) {
                Some(k) => heard::is_gap(buf@, k) && forall|j: int|
                    0 <= j < k ==> !#[trigger] heard::is_gap(buf@, j),
                None => forall|j: int| !#[trigger] heard::is_gap(buf@, j),
            },
        decreases buf.len() - i,
    {
        if delimiter_at(buf, i) > 0 {
            return Some(i);
        }
        i += 1;
    }
    None
}

pub proof fn lemma_frame_end_from(buf: Seq<u8>, i: int)
    requires
        0 <= i,
    ensures
        match frame_end_from(buf, i) {
            Some(k) => i <= k && k + delimiter_len(buf, k) <= buf.len() && delimiter_len(buf, k) > 0
                && forall|j: int| i <= j < k ==> #[trigger] delimiter_len(buf, j) == 0,
            None => forall|j: int| i <= j ==> #[trigger] delimiter_len(buf, j) == 0,
        },
    decreases buf.len() - i,
{
    if i < buf.len() && delimiter_len(buf, i) == 0 {
        lemma_frame_end_from(buf, i + 1);
    }
}

/// What the lines of a frame contribute to its data: behind `data:`, without leading
/// whitespace, each with a line end.
pub open spec fn data_of_lines(lines: Seq<Seq<char>>) -> Seq<char>
    decreases lines.len(),
{
    if lines.len() == 0 {
        Seq::empty()
    } else {
        let before = data_of_lines(lines.drop_last());
        let line = text::trim_end_by(lines.last(), text::only('\r'));
        if text::starts_with(line, "data:"@) {
            before + text::trim_start(line.skip(5)).push('\n')
        } else {
            before
        }
    }
}

/// The data of a frame's text, where it has any.
pub open spec fn frame_data(frame: Seq<char>) -> Option<Seq<char>> {
    let data = text::trim(data_of_lines(text::lines(frame)));
    if data.len() == 0 {
        None
    } else {
        Some(data)
    }
}

/// The data of a frame's text: its `data:` lines joined by line ends.
pub fn parse_data_text(frame: &str) -> (r: Option<String>)
    ensures
        match r {
            Some(d) => frame_data(frame@) == Some(d@),
            None => frame_data(frame@) is None,
        },
{
    let lines = text::lines_of(frame);
    let ghost ls = text::lines(frame@);
    let mut data = String::new();
    let mut i: usize = 0;
    proof {
        reveal_strlit("data:");
    }
    while i < lines.len()
        invariant
            i <= lines.len(),
            text::texts(lines@) == ls,
            "data:"@.len() == 5,
            data@ == data_of_lines(ls.take(i as int)),
        decreases lines.len() - i,
    {
        assert(ls.take(i + 1).drop_last() == ls.take(i as int));
        assert(text::texts(lines@)[i as int] == lines@[i as int]@);
        let line = text::trim_end_of(&lines[i], &CharClass::Only('\r'));
        if text::has_prefix(&line, "data:") {
            let cs = text::chars_of(&line);
            let rest = text::slice_text(&cs, 5, cs.len());
            assert(rest@ == line@.skip(5));
            let mut piece = text::trim_start_of(&rest, &CharClass::Space);
            piece.push('\n');
            data.push_str(&piece);
        }
        i += 1;
    }
    assert(ls.take(i as int) == ls);
    let data = text::trim_space(&data);
    if data.as_str().is_empty() {
        None
    } else {
        Some(data)
    }
}

/// The data of a frame. The end mark `[DONE]` is data like any other. A frame of well-formed
/// UTF-8 is read as the text that it is.
pub fn parse_data_line(frame: &[u8]) -> (r: Option<String>)
    ensures
        vstd::utf8::valid_utf8(frame@) ==> match r {
            Some(d) => frame_data(vstd::utf8::decode_utf8(frame@)) == Some(d@),
            None => frame_data(vstd::utf8::decode_utf8(frame@)) is None,
        },
        match r {
            Some(d) => frame_data(text::lossy_utf8(frame@)) == Some(d@),
            None => frame_data(text::lossy_utf8(frame@)) is None,
        },
{
    let t = text::decode_lossy(frame);
    parse_data_text(&t)
}

pub open spec fn finish_reason(s: Seq<char>) -> FinishReasonV {
    if s == "stop"@ {
        FinishReasonV::Stop
    } else if s == "tool_calls"@ || s == "function_call"@ {
        FinishReasonV::ToolCalls
    } else if s == "length"@ || s == "max_tokens"@ {
        FinishReasonV::Length
    } else if s == "content_filter"@ {
        FinishReasonV::ContentFilter
    } else {
        FinishReasonV::Other(s)
    }
}

pub fn parse_finish_reason(s: &str) -> (r: FinishReason)
    ensures
        r@ == finish_reason(s@),
{
    if text::str_eq(s, "stop") {
        FinishReason::Stop
    } else if text::str_eq(s, "tool_calls") || text::str_eq(s, "function_call") {
        FinishReason::ToolCalls
    } else if text::str_eq(s, "length") || text::str_eq(s, "max_tokens") {
        FinishReason::Length
    } else if text::str_eq(s, "content_filter") {
        FinishReason::ContentFilter
    } else {
        FinishReason::Other(s.to_owned())
    }
}

/// A piece of a tool call in a chunk.
#[derive(Debug, PartialEq, Eq)]
pub struct CallDelta {
    pub index: usize,
    pub id: Option<String>,
    pub name: Option<String>,
    pub arguments: Option<String>,
}

pub struct CallDeltaV {
    pub index: usize,
    pub id: Option<Seq<char>>,
    pub name: Option<Seq<char>>,
    pub arguments: Option<Seq<char>>,
}

pub open spec fn opt_text(o: Option<String>) -> Option<Seq<char>> {
    match o {
        Some(s) => Some(s@),
        None => None,
    }
}

/// The text, or the empty text where there is none.
pub open spec fn or_empty(o: Option<Seq<char>>) -> Seq<char> {
    match o {
        Some(s) => s,
        None => Seq::empty(),
    }
}

impl View for CallDelta {
    type V = CallDeltaV;

    open spec fn view(&self) -> CallDeltaV {
        CallDeltaV {
            index: self.index,
            id: opt_text(self.id),
            name: opt_text(self.name),
            arguments: opt_text(self.arguments),
        }
    }
}

/// What a choice of a chunk adds to the reply.
#[derive(Debug, PartialEq, Eq)]
pub struct Delta {
    pub content: Option<String>,
    pub reasoning: Option<String>,
    pub calls: Vec<CallDelta>,
}

pub struct DeltaV {
    pub content: Option<Seq<char>>,
    pub reasoning: Option<Seq<char>>,
    pub calls: Seq<CallDeltaV>,
}

pub open spec fn call_deltas_view(calls: Seq<CallDelta>) -> Seq<CallDeltaV> {
    Seq::new(calls.len(), |i: int| calls[i]@)
}

impl View for Delta {
    type V = DeltaV;

    open spec fn view(&self) -> DeltaV {
        DeltaV {
            content: opt_text(self.content),
            reasoning: opt_text(self.reasoning),
            calls: call_deltas_view(self.calls@),
        }
    }
}

/// A choice of a chunk.
#[derive(Debug, PartialEq, Eq)]
pub struct Choice {
    pub finish_reason: Option<String>,
    pub delta: Option<Delta>,
}

pub struct ChoiceV {
    pub finish_reason: Option<Seq<char>>,
    pub delta: Option<DeltaV>,
}

impl View for Choice {
    type V = ChoiceV;

    open spec fn view(&self) -> ChoiceV {
        ChoiceV {
            finish_reason: opt_text(self.finish_reason),
            delta: match self.delta {
                Some(d) => Some(d@),
                None => None,
            },
        }
    }
}

/// A chunk of a streamed completion.
#[derive(Debug, PartialEq, Eq)]
pub struct Chunk {
    pub usage: Option<TokenUsage>,
    pub choices: Vec<Choice>,
}

pub struct ChunkV {
    pub usage: Option<TokenUsage>,
    pub choices: Seq<ChoiceV>,
}

pub open spec fn choices_view(choices: Seq<Choice>) -> Seq<ChoiceV> {
    Seq::new(choices.len(), |i: int| choices[i]@)
}

impl View for Chunk {
    type V = ChunkV;

    open spec fn view(&self) -> ChunkV {
        ChunkV { usage: self.usage, choices: choices_view(self.choices@) }
    }
}

/// A tool call that is being assembled.
#[derive(Debug, PartialEq, Eq)]
pub struct PartialToolCall {
    pub id: Option<String>,
    pub name: String,
    pub arguments: String,
}

pub struct PartialV {
    pub id: Option<Seq<char>>,
    pub name: Seq<char>,
    pub arguments: Seq<char>,
}

impl View for PartialToolCall {
    type V = PartialV;

    open spec fn view(&self) -> PartialV {
        PartialV { id: opt_text(self.id), name: self.name@, arguments: self.arguments@ }
    }
}

pub open spec fn empty_partial() -> PartialV {
    PartialV { id: None, name: Seq::empty(), arguments: Seq::empty() }
}

pub open spec fn partials_view(ps: Seq<PartialToolCall>) -> Seq<PartialV> {
    Seq::new(ps.len(), |i: int| ps[i]@)
}

pub open spec fn events_view(evs: Seq<StreamEvent>) -> Seq<StreamEventV> {
    Seq::new(evs.len(), |i: int| evs[i]@)
}

/// The state of the parser.
pub struct SseV {
    pub buf: Seq<u8>,
    pub pending: Seq<StreamEventV>,
    pub calls: Seq<PartialV>,
    pub finish_seen: bool,
    pub done: bool,
}

/// A slot for the call numbered `index`, behind the slots that are there.
pub open spec fn padded(calls: Seq<PartialV>, index: nat) -> Seq<PartialV> {
    if calls.len() <= index {
        calls + Seq::new((index + 1 - calls.len()) as nat, |i: int| empty_partial())
    } else {
        calls
    }
}

/// A slot with a piece of its call added: a nonempty id replaces, the texts are appended.
pub open spec fn extended(p: PartialV, d: CallDeltaV) -> PartialV {
    PartialV {
        id: if or_empty(d.id).len() > 0 {
            d.id
        } else {
            p.id
        },
        name: p.name + or_empty(d.name),
        arguments: p.arguments + or_empty(d.arguments),
    }
}

pub open spec fn with_call(calls: Seq<PartialV>, d: CallDeltaV) -> Seq<PartialV> {
    let slots = padded(calls, d.index as nat);
    slots.update(d.index as int, extended(slots[d.index as int], d))
}

pub open spec fn with_calls(calls: Seq<PartialV>, ds: Seq<CallDeltaV>, n: int) -> Seq<PartialV>
    decreases n,
{
    if n <= 0 {
        calls
    } else {
        with_call(with_calls(calls, ds, n - 1), ds[n - 1])
    }
}

/// The calls that have an id, in the order of their numbers.
pub open spec fn whole_calls(calls: Seq<PartialV>, n: int) -> Seq<StreamEventV>
    decreases n,
{
    if n <= 0 {
        Seq::empty()
    } else {
        let before = whole_calls(calls, n - 1);
        let p = calls[n - 1];
        match p.id {
            Some(id) => before.push(
                StreamEventV::ToolCall {
                    index: (n - 1) as usize,
                    call: ToolCallV { id, name: p.name, arguments: p.arguments },
                },
            ),
            None => before,
        }
    }
}

pub open spec fn emitted(s: SseV) -> SseV {
    SseV {
        pending: s.pending + whole_calls(s.calls, s.calls.len() as int),
        calls: Seq::empty(),
        ..s
    }
}

/// The end of the stream: what is still unsaid is said, once.
pub open spec fn finished(s: SseV) -> SseV {
    if s.finish_seen {
        SseV { done: true, ..s }
    } else if s.calls.len() > 0 {
        let e = emitted(s);
        SseV {
            pending: e.pending.push(StreamEventV::Finish(FinishReasonV::ToolCalls)),
            finish_seen: true,
            done: true,
            ..e
        }
    } else {
        SseV {
            pending: s.pending.push(
                StreamEventV::Finish(FinishReasonV::Other("stream_ended"@)),
            ),
            finish_seen: true,
            done: true,
            ..s
        }
    }
}

/// The reason that a choice gives for the end, where it gives one.
pub open spec fn reason_given(c: ChoiceV) -> Option<FinishReasonV> {
    match c.finish_reason {
        Some(f) => if f.len() > 0 && f != "null"@ {
            Some(finish_reason(f))
        } else {
            None
        },
        None => None,
    }
}

pub open spec fn with_delta(s: SseV, d: DeltaV) -> SseV {
    let text = or_empty(d.content);
    let p1 = if text.len() > 0 {
        s.pending.push(StreamEventV::TextDelta(text))
    } else {
        s.pending
    };
    let reasoning = or_empty(d.reasoning);
    let p2 = if reasoning.len() > 0 {
        p1.push(StreamEventV::ReasoningDelta(reasoning))
    } else {
        p1
    };
    SseV { pending: p2, calls: with_calls(s.calls, d.calls, d.calls.len() as int), ..s }
}

/// One choice of a chunk. The first reason for the end sends the assembled calls, where
/// the model stops for them, and the reason; what comes behind it adds nothing.
pub open spec fn with_choice(s: SseV, c: ChoiceV) -> SseV {
    match reason_given(c) {
        Some(reason) => if s.finish_seen {
            s
        } else {
            let e = if reason is ToolCalls {
                emitted(s)
            } else {
                s
            };
            SseV {
                pending: e.pending.push(StreamEventV::Finish(reason)),
                finish_seen: true,
                ..e
            }
        },
        None => match c.delta {
            Some(d) => if s.finish_seen {
                s
            } else {
                with_delta(s, d)
            },
            None => s,
        },
    }
}

pub open spec fn with_choices(s: SseV, cs: Seq<ChoiceV>, n: int) -> SseV
    decreases n,
{
    if n <= 0 {
        s
    } else {
        with_choice(with_choices(s, cs, n - 1), cs[n - 1])
    }
}

pub open spec fn usage_is_empty(u: TokenUsage) -> bool {
    u.prompt_tokens == 0 && u.completion_tokens == 0 && u.total_tokens == 0
}

/// One chunk: its token counts, then its choices.
pub open spec fn with_chunk(s: SseV, c: ChunkV) -> SseV {
    let s1 = match c.usage {
        Some(u) => if usage_is_empty(u) {
            s
        } else {
            SseV { pending: s.pending.push(StreamEventV::Usage(u)), ..s }
        },
        None => s,
    };
    with_choices(s1, c.choices, c.choices.len() as int)
}

/// Whether every call of the chunk has a number that a list can hold.
pub open spec fn fits(c: ChunkV) -> bool {
    forall|i: int, j: int|
        0 <= i < c.choices.len() && c.choices[i].delta is Some && 0 <= j
            < c.choices[i].delta->0.calls.len() ==> (#[trigger] c.choices[i].delta->0.calls[j]).index
            < usize::MAX
}

pub open spec fn delta_fits(d: DeltaV) -> bool {
    forall|j: int| 0 <= j < d.calls.len() ==> (#[trigger] d.calls[j]).index < usize::MAX
}

/// The number at a pointer, 0 where there is none, cut to 32 bits.
pub open spec fn count_at(t: Seq<char>, pointer: Seq<char>) -> u32 {
    match json::json_u64(t, pointer) {
        Some(n) => n as u32,
        None => 0,
    }
}

/// The token counts that a text reports under `usage`.
pub open spec fn usage_at(t: Seq<char>) -> TokenUsage {
    TokenUsage {
        prompt_tokens: count_at(t, "/usage/prompt_tokens"@),
        completion_tokens: count_at(t, "/usage/completion_tokens"@),
        total_tokens: count_at(t, "/usage/total_tokens"@),
        cached_input_tokens: count_at(t, "/usage/prompt_tokens_details/cached_tokens"@),
        cache_creation_input_tokens: 0,
    }
}

fn count_of(t: &str, pointer: &str) -> (r: u32)
    ensures
        r == count_at(t@, pointer@),
{
    match json::u64_at(t, pointer) {
        Some(n) => n as u32,
        None => 0,
    }
}

pub fn parse_usage(t: &str) -> (r: TokenUsage)
    ensures
        r == usage_at(t@),
{
    TokenUsage {
        prompt_tokens: count_of(t, "/usage/prompt_tokens"),
        completion_tokens: count_of(t, "/usage/completion_tokens"),
        total_tokens: count_of(t, "/usage/total_tokens"),
        cached_input_tokens: count_of(t, "/usage/prompt_tokens_details/cached_tokens"),
        cache_creation_input_tokens: 0,
    }
}

/// `base`, then the number, then `tail`.
pub open spec fn numbered(base: Seq<char>, n: int, tail: Seq<char>) -> Seq<char> {
    base + text::nat_text(n as nat) + tail
}

pub(crate) fn numbered_path(base: &str, n: usize, tail: &str) -> (r: String)
    ensures
        r@ == numbered(base@, n as int, tail@),
{
    let mut r = base.to_owned();
    r.push_str(&text::u64_text(n as u64));
    r.push_str(tail);
    r
}

pub open spec fn array_len(t: Seq<char>, pointer: Seq<char>) -> nat {
    match json::json_len(t, pointer) {
        Some(n) => n as nat,
        None => 0,
    }
}

fn array_len_of(t: &str, pointer: &str) -> (r: usize)
    ensures
        r == array_len(t@, pointer@),
{
    match json::len_at(t, pointer) {
        Some(n) => n,
        None => 0,
    }
}

/// The piece of a tool call at `base` of a chunk's text.
pub open spec fn call_delta_at(t: Seq<char>, base: Seq<char>) -> CallDeltaV {
    CallDeltaV {
        index: match json::json_u64(t, base + "/index"@) {
            Some(n) => n as usize,
            None => 0,
        },
        id: json::json_str(t, base + "/id"@),
        name: json::json_str(t, base + "/function/name"@),
        arguments: json::json_str(t, base + "/function/arguments"@),
    }
}

fn read_call_delta(t: &str, base: &str) -> (r: CallDelta)
    ensures
        r@ == call_delta_at(t@, base@),
{
    CallDelta {
        index: match json::u64_at(t, &types::prefixed(base, "/index")) {
            Some(n) => n as usize,
            None => 0,
        },
        id: json::str_at(t, &types::prefixed(base, "/id")),
        name: json::str_at(t, &types::prefixed(base, "/function/name")),
        arguments: json::str_at(t, &types::prefixed(base, "/function/arguments")),
    }
}

/// What the choice at `base` of a chunk's text adds.
pub open spec fn delta_at(t: Seq<char>, base: Seq<char>) -> DeltaV {
    DeltaV {
        content: json::json_str(t, base + "/content"@),
        reasoning: json::json_str(t, base + "/reasoning_content"@),
        calls: Seq::new(
            array_len(t, base + "/tool_calls"@),
            |j: int| call_delta_at(t, numbered(base + "/tool_calls/"@, j, Seq::empty())),
        ),
    }
}

fn read_delta(t: &str, base: &str) -> (r: Delta)
    ensures
        r@ == delta_at(t@, base@),
{
    let list = types::prefixed(base, "/tool_calls");
    let slots = types::prefixed(base, "/tool_calls/");
    let n = array_len_of(t, &list);
    let ghost want = delta_at(t@, base@).calls;
    let mut calls: Vec<CallDelta> = Vec::new();
    let mut j: usize = 0;
    while j < n
        invariant
            j <= n,
            slots@ == base@ + "/tool_calls/"@,
            n == want.len(),
            want == delta_at(t@, base@).calls,
            call_deltas_view(calls@) == want.take(j as int),
        decreases n - j,
    {
        let ghost before = calls@;
        let at = numbered_path(&slots, j, "");
        proof {
            reveal_strlit("");
            assert(""@ == Seq::<char>::empty());
        }
        let d = read_call_delta(t, &at);
        calls.push(d);
        assert(call_deltas_view(calls@) =~= call_deltas_view(before).push(d@));
        assert(d@ == want[j as int]);
        j += 1;
    }
    assert(want.take(j as int) == want);
    Delta {
        content: json::str_at(t, &types::prefixed(base, "/content")),
        reasoning: json::str_at(t, &types::prefixed(base, "/reasoning_content")),
        calls,
    }
}

/// The choice at `base` of a chunk's text.
pub open spec fn choice_at(t: Seq<char>, base: Seq<char>) -> ChoiceV {
    ChoiceV {
        finish_reason: json::json_str(t, base + "/finish_reason"@),
        delta: if json::json_has(t, base + "/delta"@) {
            Some(delta_at(t, base + "/delta"@))
        } else {
            None
        },
    }
}

/// The chunk that a text holds, where the text is JSON.
pub open spec fn chunk_of(t: Seq<char>) -> Option<ChunkV> {
    if json::json_error(t) is Some {
        None
    } else {
        Some(
            ChunkV {
                usage: if json::json_has(t, "/usage"@) {
                    Some(usage_at(t))
                } else {
                    None
                },
                choices: Seq::new(
                    array_len(t, "/choices"@),
                    |i: int| choice_at(t, numbered("/choices/"@, i, Seq::empty())),
                ),
            },
        )
    }
}

fn read_choice(t: &str, base: &str) -> (r: Choice)
    ensures
        r@ == choice_at(t@, base@),
{
    let at = types::prefixed(base, "/delta");
    let delta = if json::has_at(t, &at) {
        Some(read_delta(t, &at))
    } else {
        None
    };
    Choice { finish_reason: json::str_at(t, &types::prefixed(base, "/finish_reason")), delta }
}

/// Reads the chunk that a text holds; `None` where the text is not JSON.
pub fn read_chunk(t: &str) -> (r: Option<Chunk>)
    ensures
        match r {
            Some(c) => chunk_of(t@) == Some(c@),
            None => chunk_of(t@) is None,
        },
{
    if json::check_json(t).is_err() {
        return None;
    }
    let usage = if json::has_at(t, "/usage") {
        Some(parse_usage(t))
    } else {
        None
    };
    let n = array_len_of(t, "/choices");
    let ghost want = chunk_of(t@)->0.choices;
    let mut choices: Vec<Choice> = Vec::new();
    let mut i: usize = 0;
    while i < n
        invariant
            i <= n,
            n == want.len(),
            chunk_of(t@) is Some,
            want == chunk_of(t@)->0.choices,
            choices_view(choices@) == want.take(i as int),
        decreases n - i,
    {
        let ghost before = choices@;
        proof {
            reveal_strlit("");
            assert(""@ == Seq::<char>::empty());
        }
        let at = numbered_path("/choices/", i, "");
        let c = read_choice(t, &at);
        choices.push(c);
        assert(choices_view(choices@) =~= choices_view(before).push(c@));
        i += 1;
    }
    assert(want.take(i as int) == want);
    Some(Chunk { usage, choices })
}

/// What one frame's data does to the state. A chunk that numbers a call `usize::MAX`
/// is passed over: no list of calls can hold it.
pub open spec fn with_data(s: SseV, data: Seq<char>) -> SseV {
    if data == "[DONE]"@ {
        finished(s)
    } else {
        match chunk_of(data) {
            Some(c) => if fits(c) {
                with_chunk(s, c)
            } else {
                s
            },
            None => s,
        }
    }
}

/// What one frame does to the state.
pub open spec fn with_frame(s: SseV, frame: Seq<u8>) -> SseV {
    match frame_data(text::lossy_utf8(frame)) {
        Some(d) => with_data(s, d),
        None => s,
    }
}

/// The state when every whole frame of the buffer has been taken.
pub open spec fn drained(s: SseV) -> SseV
    decreases s.buf.len(),
{
    match frame_end(s.buf) {
        Some(pos) => {
            let cut = pos + delimiter_len(s.buf, pos);
            if 0 <= pos && pos < cut <= s.buf.len() {
                drained(
                    SseV {
                        buf: s.buf.skip(cut),
                        ..with_frame(SseV { buf: Seq::empty(), ..s }, s.buf.take(pos))
                    },
                )
            } else {
                s
            }
        },
        None => s,
    }
}

pub open spec fn pushed(s: SseV, bytes: Seq<u8>) -> SseV {
    drained(SseV { buf: s.buf + bytes, ..s })
}

/// Turns the bytes of a streamed completion into stream events.
#[derive(Debug)]
pub struct SseParser {
    pub buf: Vec<u8>,
    /// The events that have not been taken yet.
    pub pending: VecDeque<StreamEvent>,
    pub tool_calls: Vec<PartialToolCall>,
    pub finish_seen: bool,
    pub done: bool,
}

impl View for SseParser {
    type V = SseV;

    open spec fn view(&self) -> SseV {
        SseV {
            buf: self.buf@,
            pending: events_view(self.pending@),
            calls: partials_view(self.tool_calls@),
            finish_seen: self.finish_seen,
            done: self.done,
        }
    }
}

impl SseParser {
    pub fn new() -> (r: Self)
        ensures
            r@ == (SseV {
                buf: Seq::empty(),
                pending: Seq::empty(),
                calls: Seq::empty(),
                finish_seen: false,
                done: false,
            }),
    {
        let r = SseParser {
            buf: Vec::new(),
            pending: VecDeque::new(),
            tool_calls: Vec::new(),
            finish_seen: false,
            done: false,
        };
        assert(r@.pending == Seq::<StreamEventV>::empty());
        assert(r@.calls == Seq::<PartialV>::empty());
        r
    }

    fn send(&mut self, ev: StreamEvent)
        ensures
            final(self)@ == (SseV { pending: old(self)@.pending.push(ev@), ..old(self)@ }),
            final(self).tool_calls == old(self).tool_calls,
    {
        self.pending.push_back(ev);
        assert(events_view(self.pending@) =~= events_view(old(self).pending@).push(ev@));
    }

    /// Sends the assembled calls that have an id, and forgets all of them.
    pub fn emit_tool_calls(&mut self)
        ensures
            final(self)@ == emitted(old(self)@),
    {
        let mut i: usize = 0;
        assert(self@.pending + whole_calls(self@.calls, 0) == self@.pending);
        while i < self.tool_calls.len()
            invariant
                i <= self.tool_calls.len(),
                self.tool_calls@ == old(self).tool_calls@,
                self@ == (SseV {
                    pending: old(self)@.pending + whole_calls(old(self)@.calls, i as int),
                    ..old(self)@
                }),
            decreases self.tool_calls.len() - i,
        {
            assert(old(self)@.calls[i as int] == self.tool_calls@[i as int]@);
            let ghost before = self@.pending;
            if let Some(id) = &self.tool_calls[i].id {
                let call = ToolCall {
                    id: id.clone(),
                    name: self.tool_calls[i].name.clone(),
                    arguments: self.tool_calls[i].arguments.clone(),
                };
                self.send(StreamEvent::ToolCall { index: i, call });
            }
            assert(self@.pending =~= old(self)@.pending + whole_calls(old(self)@.calls, i + 1));
            i += 1;
        }
        self.tool_calls = Vec::new();
        assert(self@.calls == Seq::<PartialV>::empty());
    }

    /// The end of the bytes, or the end mark: sends the calls and the end that have not
    /// been sent.
    pub fn finish(&mut self)
        ensures
            final(self)@ == finished(old(self)@),
    {
        if !self.finish_seen {
            self.finish_seen = true;
            if !self.tool_calls.is_empty() {
                self.emit_tool_calls();
                self.send(StreamEvent::Finish(FinishReason::ToolCalls));
            } else {
                self.send(StreamEvent::Finish(FinishReason::Other("stream_ended".to_owned())));
            }
        }
        self.done = true;
    }

    fn add_call(&mut self, d: &CallDelta)
        requires
            d.index < usize::MAX,
        ensures
            final(self)@ == (SseV { calls: with_call(old(self)@.calls, d@), ..old(self)@ }),
    {
        let ghost start = self@.calls;
        while self.tool_calls.len() <= d.index
            invariant
                d.index < usize::MAX,
                start == old(self)@.calls,
                padded(self@.calls, d.index as nat) == padded(start, d.index as nat),
                self@ == (SseV { calls: self@.calls, ..old(self)@ }),
            decreases d.index + 1 - self.tool_calls.len(),
        {
            let ghost before = self@.calls;
            self.tool_calls.push(
                PartialToolCall { id: None, name: String::new(), arguments: String::new() },
            );
            assert(self@.calls =~= before.push(empty_partial()));
            assert(padded(self@.calls, d.index as nat) =~= padded(before, d.index as nat));
        }
        let slots = &self.tool_calls;
        let ghost slot = slots@[d.index as int]@;
        let id = match &d.id {
            Some(id) => if id.as_str().is_empty() {
                slots[d.index].id.clone()
            } else {
                Some(id.clone())
            },
            None => slots[d.index].id.clone(),
        };
        let mut name = slots[d.index].name.clone();
        if let Some(n) = &d.name {
            name.push_str(n);
        }
        let mut arguments = slots[d.index].arguments.clone();
        if let Some(a) = &d.arguments {
            arguments.push_str(a);
        }
        let ghost before = self@.calls;
        let p = PartialToolCall { id, name, arguments };
        assert(p@ == extended(slot, d@));
        self.tool_calls.set(d.index, p);
        assert(self@.calls =~= before.update(d.index as int, p@));
    }

    fn add_delta(&mut self, d: &Delta)
        requires
            delta_fits(d@),
        ensures
            final(self)@ == with_delta(old(self)@, d@),
    {
        if let Some(c) = &d.content {
            if !c.as_str().is_empty() {
                self.send(StreamEvent::TextDelta(c.clone()));
            }
        }
        if let Some(r) = &d.reasoning {
            if !r.as_str().is_empty() {
                self.send(StreamEvent::ReasoningDelta(r.clone()));
            }
        }
        let ghost sent = self@;
        let mut j: usize = 0;
        while j < d.calls.len()
            invariant
                j <= d.calls.len(),
                delta_fits(d@),
                sent.calls == old(self)@.calls,
                self@ == (SseV { calls: with_calls(sent.calls, d@.calls, j as int), ..sent }),
            decreases d.calls.len() - j,
        {
            assert(d@.calls[j as int] == d.calls@[j as int]@);
            self.add_call(&d.calls[j]);
            j += 1;
        }
    }

    fn add_choice(&mut self, c: &Choice)
        requires
            c@.delta is Some ==> delta_fits(c@.delta->0),
        ensures
            final(self)@ == with_choice(old(self)@, c@),
    {
        if let Some(f) = &c.finish_reason {
            if !f.as_str().is_empty() && !text::str_eq(f, "null") {
                if !self.finish_seen {
                    let reason = parse_finish_reason(f);
                    self.finish_seen = true;
                    if let FinishReason::ToolCalls = &reason {
                        self.emit_tool_calls();
                    }
                    self.send(StreamEvent::Finish(reason));
                }
                return;
            }
        }
        if !self.finish_seen {
            if let Some(d) = &c.delta {
                self.add_delta(d);
            }
        }
    }

    /// Takes a chunk.
    pub fn handle_chunk(&mut self, chunk: &Chunk)
        requires
            fits(chunk@),
        ensures
            final(self)@ == with_chunk(old(self)@, chunk@),
    {
        if let Some(u) = &chunk.usage {
            if !u.is_empty() {
                self.send(StreamEvent::Usage(*u));
            }
        }
        let ghost start = self@;
        let mut i: usize = 0;
        while i < chunk.choices.len()
            invariant
                i <= chunk.choices.len(),
                fits(chunk@),
                self@ == with_choices(start, chunk@.choices, i as int),
            decreases chunk.choices.len() - i,
        {
            assert(chunk@.choices[i as int] == chunk.choices@[i as int]@);
            assert(chunk@.choices[i as int].delta is Some ==> delta_fits(
                chunk@.choices[i as int].delta->0,
            ));
            self.add_choice(&chunk.choices[i]);
            i += 1;
        }
    }

    /// Takes the data of a frame. What is neither JSON nor the end mark is passed over.
    pub fn handle_data(&mut self, data: &str)
        ensures
            final(self)@ == with_data(old(self)@, data@),
    {
        if text::str_eq(data, "[DONE]") {
            self.finish();
            return;
        }
        if let Some(chunk) = read_chunk(data) {
            if chunk_fits(&chunk) {
                self.handle_chunk(&chunk);
            }
        }
    }

    /// Takes every whole frame of the buffer.
    pub fn drain_frames(&mut self)
        ensures
            final(self)@ == drained(old(self)@),
    {
        loop
            invariant
                drained(self@) == drained(old(self)@),
            decreases self.buf.len(),
        {
            let pos = match find_frame_end(&self.buf) {
                Some(pos) => pos,
                None => {
                    return;
                },
            };
            proof {
                lemma_frame_end_from(self.buf@, 0);
            }
            let ghost s = self@;
            let n = delimiter_at(&self.buf, pos);
            let frame = bytes_between(&self.buf, 0, pos);
            let rest = bytes_between(&self.buf, pos + n, self.buf.len());
            assert(frame@ == s.buf.take(pos as int));
            assert(rest@ == s.buf.skip(pos + n));
            self.buf = Vec::new();
            assert(self@ == (SseV { buf: Seq::empty(), ..s }));
            if let Some(data) = parse_data_line(&frame) {
                self.handle_data(&data);
            }
            self.buf = rest;
        }
    }

    /// Takes more bytes.
    pub fn push_bytes(&mut self, bytes: &[u8])
        ensures
            final(self)@ == pushed(old(self)@, bytes@),
    {
        let mut i: usize = 0;
        while i < bytes.len()
            invariant
                i <= bytes.len(),
                self@ == (SseV { buf: old(self)@.buf + bytes@.take(i as int), ..old(self)@ }),
            decreases bytes.len() - i,
        {
            self.buf.push(bytes[i]);
            assert(old(self)@.buf + bytes@.take(i + 1) == (old(self)@.buf + bytes@.take(
                i as int,
            )).push(bytes@[i as int]));
            i += 1;
        }
        assert(bytes@.take(i as int) == bytes@);
        self.drain_frames();
    }

    /// Takes the first event that waits.
    pub fn next_event(&mut self) -> (r: Option<StreamEvent>)
        ensures
            match r {
                Some(ev) => old(self)@.pending.len() > 0 && ev@ == old(self)@.pending[0]
                    && final(self)@ == (SseV {
                    pending: old(self)@.pending.drop_first(),
                    ..old(self)@
                }),
                None => old(self)@.pending.len() == 0 && final(self)@ == old(self)@,
            },
    {
        let r = self.pending.pop_front();
        proof {
            if r is Some {
                assert(events_view(self.pending@) =~= old(self)@.pending.drop_first());
            }
        }
        r
    }
}

fn bytes_between(b: &Vec<u8>, from: usize, to: usize) -> (r: Vec<u8>)
    requires
        from <= to <= b.len(),
    ensures
        r@ == b@.subrange(from as int, to as int),
{
    let mut r: Vec<u8> = Vec::new();
    let mut i: usize = from;
    while i < to
        invariant
            from <= i <= to <= b.len(),
            r@ == b@.subrange(from as int, i as int),
        decreases to - i,
    {
        r.push(b[i]);
        i += 1;
    }
    r
}

fn delta_calls_fit(d: &Delta) -> (r: bool)
    ensures
        r == delta_fits(d@),
{
    let mut j: usize = 0;
    while j < d.calls.len()
        invariant
            j <= d.calls.len(),
            forall|k: int| 0 <= k < j ==> (#[trigger] d@.calls[k]).index < usize::MAX,
        decreases d.calls.len() - j,
    {
        assert(d@.calls[j as int] == d.calls@[j as int]@);
        if d.calls[j].index == usize::MAX {
            return false;
        }
        j += 1;
    }
    true
}

/// Whether every call of the chunk has a number that a list can hold.
pub fn chunk_fits(c: &Chunk) -> (r: bool)
    ensures
        r == fits(c@),
{
    let mut i: usize = 0;
    while i < c.choices.len()
        invariant
            i <= c.choices.len(),
            forall|k: int, j: int|
                0 <= k < i && c@.choices[k].delta is Some && 0 <= j
                    < c@.choices[k].delta->0.calls.len() ==> (
                #[trigger] c@.choices[k].delta->0.calls[j]).index < usize::MAX,
        decreases c.choices.len() - i,
    {
        assert(c@.choices[i as int] == c.choices@[i as int]@);
        if let Some(d) = &c.choices[i].delta {
            if !delta_calls_fit(d) {
                let ghost k = choose|k: int|
                    0 <= k < d@.calls.len() && (#[trigger] d@.calls[k]).index >= usize::MAX;
                assert(c@.choices[i as int].delta->0.calls[k].index >= usize::MAX);
                return false;
            }
        }
        i += 1;
    }
    true
}

/// The frame that a buffer begins with is the same when more bytes follow.
proof fn lemma_frame_end_stays(buf: Seq<u8>, more: Seq<u8>, i: int)
    requires
        0 <= i,
        frame_end_from(buf, i) is Some,
    ensures
        frame_end_from(buf + more, i) == frame_end_from(buf, i),
        delimiter_len(buf + more, frame_end_from(buf, i)->0) == delimiter_len(
            buf,
            frame_end_from(buf, i)->0,
        ),
    decreases buf.len() - i,
{
    let all = buf + more;
    if delimiter_len(buf, i) > 0 {
    } else {
        lemma_frame_end_stays(buf, more, i + 1);
        lemma_frame_end_from(buf, i + 1);
        let k = frame_end_from(buf, i + 1)->0;
        if delimiter_len(all, i) == 4 {
            assert(i + 4 > buf.len());
            assert(all[i] == buf[i]);
            assert(all[k] == buf[k]);
            assert(false);
        }
        assert(delimiter_len(all, i) == 0);
    }
}

/// The buffer takes no part in what a frame does to the rest of the state.
proof fn lemma_frame_keeps_buffer(s: SseV, frame: Seq<u8>)
    ensures
        with_frame(s, frame).buf == s.buf,
{
    if let Some(d) = frame_data(text::lossy_utf8(frame)) {
        if let Some(c) = chunk_of(d) {
            lemma_choices_keep_buffer(
                match c.usage {
                    Some(u) => if usage_is_empty(u) {
                        s
                    } else {
                        SseV { pending: s.pending.push(StreamEventV::Usage(u)), ..s }
                    },
                    None => s,
                },
                c.choices,
                c.choices.len() as int,
            );
        }
    }
}

proof fn lemma_choices_keep_buffer(s: SseV, cs: Seq<ChoiceV>, n: int)
    ensures
        with_choices(s, cs, n).buf == s.buf,
    decreases n,
{
    if n > 0 {
        lemma_choices_keep_buffer(s, cs, n - 1);
    }
}

/// Draining early changes nothing: whole frames are taken in the same way before and
/// after more bytes have come.
proof fn lemma_drain_early(s: SseV, more: Seq<u8>)
    ensures
        drained(SseV { buf: s.buf + more, ..s }) == drained(
            SseV { buf: drained(s).buf + more, ..drained(s) },
        ),
    decreases s.buf.len(),
{
    let all = SseV { buf: s.buf + more, ..s };
    if frame_end(s.buf) is Some {
        lemma_frame_end_from(s.buf, 0);
        lemma_frame_end_stays(s.buf, more, 0);
        let pos = frame_end(s.buf)->0;
        let cut = pos + delimiter_len(s.buf, pos);
        let frame = s.buf.take(pos);
        let taken = with_frame(SseV { buf: Seq::empty(), ..s }, frame);
        lemma_frame_keeps_buffer(SseV { buf: Seq::empty(), ..s }, frame);
        let next = SseV { buf: s.buf.skip(cut), ..taken };
        assert(all.buf.take(pos) == frame);
        assert(all.buf.skip(cut) == s.buf.skip(cut) + more);
        assert((SseV { buf: Seq::empty(), ..all }) == (SseV { buf: Seq::empty(), ..s }));
        lemma_drain_early(next, more);
        assert(drained(s) == drained(next));
        assert(drained(all) == drained(SseV { buf: next.buf + more, ..next }));
    }
}

/// How the bytes of a stream are cut into pieces does not matter: two pieces one after
/// the other do what both together do.
pub proof fn law_pieces_do_not_matter(s: SseV, a: Seq<u8>, b: Seq<u8>)
    ensures
        pushed(pushed(s, a), b) == pushed(s, a + b),
{
    let first = SseV { buf: s.buf + a, ..s };
    lemma_drain_early(first, b);
    assert(s.buf + (a + b) == s.buf + a + b);
}

proof fn lemma_finish_is_kept(s: SseV, cs: Seq<ChoiceV>, n: int)
    requires
        s.finish_seen,
    ensures
        with_choices(s, cs, n) == s,
    decreases n,
{
    if n > 0 {
        lemma_finish_is_kept(s, cs, n - 1);
    }
}

/// Behind the end of the reply only token counts are sent.
pub proof fn law_nothing_behind_the_end(s: SseV, c: ChunkV)
    requires
        s.finish_seen,
    ensures
        with_chunk(s, c).calls == s.calls,
        with_chunk(s, c).finish_seen,
        with_chunk(s, c).pending == (match c.usage {
            Some(u) => if usage_is_empty(u) {
                s.pending
            } else {
                s.pending.push(StreamEventV::Usage(u))
            },
            None => s.pending,
        }),
{
    let s1 = match c.usage {
        Some(u) => if usage_is_empty(u) {
            s
        } else {
            SseV { pending: s.pending.push(StreamEventV::Usage(u)), ..s }
        },
        None => s,
    };
    lemma_finish_is_kept(s1, c.choices, c.choices.len() as int);
}

/// Ending twice is ending once.
pub proof fn law_end_is_sent_once(s: SseV)
    ensures
        finished(s).done,
        finished(s).finish_seen,
        finished(finished(s)) == finished(s),
{
}

} // verus!
