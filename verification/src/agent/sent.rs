//! What goes out to a model, said of messages, fields and texts.

use crate::agent::anthropic;
use crate::agent::anthropic::AnthropicMessageV;
use crate::agent::hooks;
use crate::agent::hooks::{RequestPatch, ToolDecision};
use crate::agent::openai;
use crate::agent::prompt;
use crate::agent::prompt::LocalClock;
use crate::agent::seam::CompletionRequest;
use crate::agent::steps;
use crate::agent::types;
use crate::agent::types::{ContentBlockV, LlmMessageV, LlmRole, StreamEventV, ToolCallV};
use crate::json;
use crate::json::{JsonMemberV, JsonV};
use crate::text;
use vstd::prelude::*;

verus! {

// ---- Messages

/// Whether an object has the field with the value.
pub open spec fn says(j: JsonV, key: Seq<char>, value: JsonV) -> bool {
    j matches JsonV::Object(ms) && exists|i: int|
        0 <= i < ms.len() && (#[trigger] ms[i]).key == key && ms[i].value == value
}

/// Whether these are the calls among the blocks, in their order.
pub open spec fn are_calls(blocks: Seq<ContentBlockV>, calls: Seq<ToolCallV>) -> bool {
    let some = blocks.filter(|b: ContentBlockV| b is ToolCall);
    &&& calls.len() == some.len()
    &&& forall|i: int|
        0 <= i < calls.len() ==> some[i] == ContentBlockV::ToolCall(#[trigger] calls[i])
}

proof fn lemma_calls(blocks: Seq<ContentBlockV>)
    ensures
        are_calls(blocks, types::calls_of(blocks)),
    decreases blocks.len(),
{
    reveal(Seq::filter);
    if blocks.len() > 0 {
        lemma_calls(blocks.drop_last());
    }
}

/// Whether an item is a call as the wire has it.
pub open spec fn is_call_item(j: JsonV, c: ToolCallV) -> bool {
    &&& says(j, "id"@, JsonV::Str(c.id))
    &&& says(j, "type"@, JsonV::Str("function"@))
    &&& exists|f: JsonV|
        says(j, "function"@, f) && #[trigger] says(f, "name"@, JsonV::Str(c.name)) && says(
            f,
            "arguments"@,
            JsonV::Str(c.arguments),
        )
}

/// A result goes out with its text and with the id of the call that it answers.
pub proof fn law_a_result_goes_out_with_its_call(id: Seq<char>, content: Seq<char>, is_error: bool)
    ensures
        ({
            let m = LlmMessageV {
                role: LlmRole::Tool,
                content: seq![
                    ContentBlockV::ToolResult { tool_call_id: id, content, is_error },
                ],
            };
            let j = openai::message_json(m);
            &&& says(j, "role"@, JsonV::Str("tool"@))
            &&& says(j, "content"@, JsonV::Str(content))
            &&& says(j, "tool_call_id"@, JsonV::Str(id))
        }),
{
    let block = ContentBlockV::ToolResult { tool_call_id: id, content, is_error };
    let blocks = seq![block];
    let m = LlmMessageV { role: LlmRole::Tool, content: blocks };
    let none = blocks.drop_last();
    assert(none.len() == 0);
    assert(openai::tool_text(none) =~= Seq::empty());
    assert(openai::tool_text(blocks) =~= content);
    assert(openai::tool_id(blocks) == id);
    let ms = openai::message_json(m)->Object_0;
    assert(ms[0].key == "role"@ && ms[1].key == "content"@ && ms[2].key == "tool_call_id"@);
}

/// Any other message goes out with its role and its text; the calls of the assistant go with
/// it, each with its id, name and arguments, and with nothing for a text where it says nothing.
pub proof fn law_a_message_goes_out_whole(m: LlmMessageV)
    requires
        m.role != LlmRole::Tool,
    ensures
        ({
            let j = openai::message_json(m);
            let t = types::text_of(m.content);
            let with_calls = m.role == LlmRole::Assistant && m.content.filter(
                |b: ContentBlockV| b is ToolCall,
            ).len() > 0;
            &&& says(j, "role"@, JsonV::Str(m.role.name()))
            &&& says(
                j,
                "content"@,
                if with_calls && t.len() == 0 {
                    JsonV::Null
                } else {
                    JsonV::Str(t)
                },
            )
            &&& with_calls ==> exists|items: Seq<JsonV>, calls: Seq<ToolCallV>|
                says(j, "tool_calls"@, JsonV::Array(items)) && #[trigger] are_items(items, calls)
                    && are_calls(m.content, calls)
        }),
{
    let calls = types::calls_of(m.content);
    lemma_calls(m.content);
    let j = openai::message_json(m);
    let ms = j->Object_0;
    assert(ms[0].key == "role"@ && ms[1].key == "content"@);
    if m.role == LlmRole::Assistant && calls.len() > 0 {
        let items = openai::calls_json(calls);
        assert(ms[2].key == "tool_calls"@ && ms[2].value == JsonV::Array(items));
        assert forall|i: int| 0 <= i < items.len() implies is_call_item(
            #[trigger] items[i],
            calls[i],
        ) by {
            let c = calls[i];
            let o = openai::call_json(c)->Object_0;
            let f = o[2].value;
            let fs = f->Object_0;
            assert(o[0].key == "id"@ && o[1].key == "type"@ && o[2].key == "function"@);
            assert(fs[0].key == "name"@ && fs[1].key == "arguments"@);
            assert(says(f, "name"@, JsonV::Str(c.name)));
        }
        assert(are_items(items, calls));
    }
}

pub open spec fn are_items(items: Seq<JsonV>, calls: Seq<ToolCallV>) -> bool {
    items.len() == calls.len() && forall|i: int|
        0 <= i < items.len() ==> is_call_item(#[trigger] items[i], calls[i])
}

// ---- Bodies

/// Whether the fields have the value under the key.
pub open spec fn has_member(ms: Seq<JsonMemberV>, key: Seq<char>, value: JsonV) -> bool {
    exists|i: int| 0 <= i < ms.len() && (#[trigger] ms[i]).key == key && ms[i].value == value
}

pub open spec fn has_key(ms: Seq<JsonMemberV>, key: Seq<char>) -> bool {
    exists|i: int| 0 <= i < ms.len() && (#[trigger] ms[i]).key == key
}

proof fn lemma_member_index(ms: Seq<JsonMemberV>, key: Seq<char>, i: int)
    requires
        0 <= i,
    ensures
        match json::member_index(ms, key, i) {
            Some(k) => i <= k < ms.len() && ms[k].key == key,
            None => forall|k: int| i <= k < ms.len() ==> (#[trigger] ms[k]).key != key,
        },
    decreases ms.len() - i,
{
    if i < ms.len() && ms[i].key != key {
        lemma_member_index(ms, key, i + 1);
    }
}

proof fn lemma_set(ms: Seq<JsonMemberV>, key: Seq<char>, value: JsonV, k: Seq<char>, v: JsonV)
    ensures
        has_member(json::with_member(ms, key, value), key, value),
        k != key ==> (has_member(json::with_member(ms, key, value), k, v) <==> has_member(
            ms,
            k,
            v,
        )),
{
    lemma_member_index(ms, key, 0);
    let r = json::with_member(ms, key, value);
    match json::member_index(ms, key, 0) {
        Some(i) => {
            assert(r[i].key == key && r[i].value == value);
        },
        None => {
            assert(r[ms.len() as int].key == key && r[ms.len() as int].value == value);
        },
    }
    if k != key {
        if has_member(ms, k, v) {
            let i = choose|i: int|
                0 <= i < ms.len() && (#[trigger] ms[i]).key == k && ms[i].value == v;
            assert(r[i] == ms[i]);
        }
        if has_member(r, k, v) {
            let i = choose|i: int|
                0 <= i < r.len() && (#[trigger] r[i]).key == k && r[i].value == v;
            assert(ms[i] == r[i]);
        }
    }
}

/// Extra fields that are set stand with their values, the last one of a key, and fields of
/// other keys stay as they are.
pub proof fn law_extra_fields_replace(
    ms: Seq<JsonMemberV>,
    extra: Seq<JsonMemberV>,
    n: int,
    k: Seq<char>,
    v: JsonV,
)
    requires
        0 <= n <= extra.len(),
    ensures
        !has_key(extra.take(n), k) ==> (has_member(json::with_members(ms, extra, n), k, v)
            <==> has_member(ms, k, v)),
        forall|i: int|
            0 <= i < n && (#[trigger] extra[i]).key == k && extra[i].value == v && (forall|j: int|
                i < j < n ==> (#[trigger] extra[j]).key != k) ==> has_member(
                json::with_members(ms, extra, n),
                k,
                v,
            ),
    decreases n,
{
    if n > 0 {
        law_extra_fields_replace(ms, extra, n - 1, k, v);
        let before = json::with_members(ms, extra, n - 1);
        let e = extra[n - 1];
        lemma_set(before, e.key, e.value, k, v);
        if !has_key(extra.take(n), k) {
            assert(extra.take(n)[n - 1].key != k);
            assert forall|i: int| 0 <= i < n - 1 implies (
            #[trigger] extra.take(n - 1)[i]).key != k by {
                assert(extra.take(n)[i].key != k);
            }
        }
        assert forall|i: int|
            0 <= i < n && (#[trigger] extra[i]).key == k && extra[i].value == v && (forall|j: int|
                i < j < n ==> (#[trigger] extra[j]).key != k) implies has_member(
            json::with_members(ms, extra, n),
            k,
            v,
        ) by {
            if i < n - 1 {
                assert(extra[n - 1].key != k);
            }
        }
    }
}

/// The fields of a request are those that it sets: the model, every message in its order, the
/// limit and the tools where there are some.
pub proof fn law_a_request_goes_out_whole(
    model: Seq<char>,
    effort: Option<String>,
    req: CompletionRequest,
    stream: bool,
)
    ensures
        ({
            let fs = openai::body_fields(model, effort, req, stream);
            &&& has_member(fs, "model"@, JsonV::Str(model))
            &&& has_member(fs, "stream"@, JsonV::Bool(stream))
            &&& exists|items: Seq<JsonV>| #[trigger]
                has_member(fs, "messages"@, JsonV::Array(items)) && items.len()
                    == req.messages@.len() && forall|i: int|
                    0 <= i < items.len() ==> #[trigger] items[i] == openai::message_json(
                        req.messages@[i]@,
                    )
            &&& req.max_tokens matches Some(n) ==> has_member(
                fs,
                "max_tokens"@,
                JsonV::Number(text::nat_text(n as nat)),
            )
            &&& req.tools@.len() > 0 ==> exists|items: Seq<JsonV>| #[trigger]
                has_member(fs, "tools"@, JsonV::Array(items)) && items.len() == req.tools@.len()
        }),
{
    let fs = openai::body_fields(model, effort, req, stream);
    let items = openai::messages_json(req.messages@);
    assert(fs[0].key == "model"@ && fs[0].value == JsonV::Str(model));
    assert(fs[1].key == "messages"@ && fs[1].value == JsonV::Array(items));
    assert(fs[2].key == "stream"@ && fs[2].value == JsonV::Bool(stream));
    assert(has_member(fs, "messages"@, JsonV::Array(items)));
    if let Some(n) = req.max_tokens {
        assert(fs[3].key == "max_tokens"@ && fs[3].value == JsonV::Number(
            text::nat_text(n as nat),
        ));
    }
    if req.tools@.len() > 0 {
        let tools = openai::tools_json(req.tools@);
        let last = if stream {
            fs.len() - 2
        } else {
            fs.len() - 1
        };
        assert(fs[last].key == "tools"@ && fs[last].value == JsonV::Array(tools));
        assert(has_member(fs, "tools"@, JsonV::Array(tools)));
    }
}

// ---- The system text

/// Whether a text stands in another one.
#[verifier::opaque]
pub open spec fn stands_within(s: Seq<char>, p: Seq<char>) -> bool {
    exists|i: int| #[trigger] text::occurs_at(s, p, i)
}

proof fn lemma_within_front(a: Seq<char>, b: Seq<char>, p: Seq<char>)
    requires
        stands_within(a, p),
    ensures
        stands_within(a + b, p),
{
    reveal(stands_within);
    let i = choose|i: int| #[trigger] text::occurs_at(a, p, i);
    assert((a + b).subrange(i, i + p.len()) =~= a.subrange(i, i + p.len()));
    assert(text::occurs_at(a + b, p, i));
}

proof fn lemma_within_back(a: Seq<char>, b: Seq<char>)
    ensures
        stands_within(a + b, b),
{
    reveal(stands_within);
    assert((a + b).subrange(a.len() as int, (a.len() + b.len()) as int) =~= b);
    assert(text::occurs_at(a + b, b, a.len() as int));
}

/// Whether a text has what a hook adds, where that is not blank.
#[verifier::opaque]
pub open spec fn has_addition(s: Seq<char>, patch: RequestPatch) -> bool {
    match patch.preamble_override {
        Some(p) => text::trim(p@).len() == 0 || stands_within(s, p@),
        None => true,
    }
}

proof fn lemma_base_first(base: Seq<char>, patches: Seq<RequestPatch>, n: int)
    requires
        0 <= n <= patches.len(),
    ensures
        base.len() <= prompt::prompt_with_patches(base, patches, n).len(),
        prompt::prompt_with_patches(base, patches, n).take(base.len() as int) == base,
    decreases n,
{
    let after = prompt::prompt_with_patches(base, patches, n);
    if n == 0 {
        assert(after.take(base.len() as int) =~= base);
    } else {
        lemma_base_first(base, patches, n - 1);
        let before = prompt::prompt_with_patches(base, patches, n - 1);
        assert(after.take(base.len() as int) =~= before.take(base.len() as int));
    }
}

proof fn lemma_added(before: Seq<char>, p: Seq<char>, patch: RequestPatch)
    requires
        has_addition(before, patch),
    ensures
        has_addition(before + "\n\n"@ + p, patch),
{
    reveal(has_addition);
    if let Some(q) = patch.preamble_override {
        if text::trim(q@).len() > 0 {
            lemma_within_front(before, "\n\n"@, q@);
            lemma_within_front(before + "\n\n"@, p, q@);
        }
    }
}

proof fn lemma_patches(base: Seq<char>, patches: Seq<RequestPatch>, n: int)
    requires
        0 <= n <= patches.len(),
    ensures
        forall|i: int|
            0 <= i < n ==> has_addition(
                prompt::prompt_with_patches(base, patches, n),
                #[trigger] patches[i],
            ),
    decreases n,
{
    if n > 0 {
        lemma_patches(base, patches, n - 1);
        let before = prompt::prompt_with_patches(base, patches, n - 1);
        let after = prompt::prompt_with_patches(base, patches, n);
        assert forall|i: int| 0 <= i < n implies has_addition(after, #[trigger] patches[i]) by {
            if after != before {
                let p = patches[n - 1].preamble_override->0;
                assert(after == before + "\n\n"@ + p@);
                if i < n - 1 {
                    lemma_added(before, p@, patches[i]);
                } else {
                    lemma_within_back(before + "\n\n"@, p@);
                    reveal(has_addition);
                }
            } else if i == n - 1 {
                lemma_nothing_added(base, patches, n);
            }
        }
    }
}

proof fn lemma_nothing_added(base: Seq<char>, patches: Seq<RequestPatch>, n: int)
    requires
        0 < n <= patches.len(),
        prompt::prompt_with_patches(base, patches, n) == prompt::prompt_with_patches(
            base,
            patches,
            n - 1,
        ),
    ensures
        has_addition(prompt::prompt_with_patches(base, patches, n), patches[n - 1]),
{
    reveal(has_addition);
    reveal_strlit("\n\n");
    if let Some(p) = patches[n - 1].preamble_override {
        if text::trim(p@).len() > 0 {
            let before = prompt::prompt_with_patches(base, patches, n - 1);
            assert((before + "\n\n"@ + p@).len() > before.len());
        }
    }
}

/// What a text has it still has behind and before other texts.
proof fn lemma_addition_stays(head: Seq<char>, s: Seq<char>, tail: Seq<char>, patch: RequestPatch)
    requires
        has_addition(s, patch),
    ensures
        has_addition(head + s, patch),
        has_addition(head + s + tail, patch),
{
    reveal(has_addition);
    if let Some(p) = patch.preamble_override {
        if text::trim(p@).len() > 0 {
            assert(stands_within(head + s, p@)) by {
                reveal(stands_within);
                let at = choose|at: int| #[trigger] text::occurs_at(s, p@, at);
                assert((head + s).subrange(head.len() + at, head.len() + at + p@.len())
                    =~= s.subrange(at, at + p@.len()));
                assert(text::occurs_at(head + s, p@, head.len() + at));
            }
            lemma_within_front(head + s, tail, p@);
        }
    }
}

/// The model is told the time first, then what the agent is for and what the hooks add; that
/// its calls run out it is told exactly where no more than so many are left.
pub proof fn law_the_model_is_told_everything(
    base: Seq<char>,
    patches: Seq<RequestPatch>,
    clock: LocalClock,
    max_turns: nat,
    remaining: nat,
    threshold: nat,
)
    ensures
        ({
            let s = prompt::system_text(base, patches, clock, max_turns, remaining, threshold);
            let plain = prompt::system_text(base, patches, clock, max_turns, threshold + 1, threshold);
            &&& text::starts_with(s, prompt::time_text(clock) + "\n\n"@ + base)
            &&& forall|i: int|
                0 <= i < patches.len() ==> has_addition(s, #[trigger] patches[i])
            &&& remaining > threshold ==> s == plain
            &&& remaining <= threshold ==> s == plain + prompt::budget_text(max_turns, remaining)
            &&& stands_within(
                prompt::budget_text(max_turns, remaining),
                text::nat_text(
                    if remaining == 0 {
                        1
                    } else {
                        remaining
                    },
                ),
            )
        }),
{
    let n = patches.len() as int;
    let s = prompt::system_text(base, patches, clock, max_turns, remaining, threshold);
    let head = prompt::time_text(clock) + "\n\n"@;
    let inner = prompt::prompt_with_patches(base, patches, n);
    let plain = head + inner;
    lemma_patches(base, patches, n);
    lemma_base_first(base, patches, n);
    let front = head + base;
    assert(s.subrange(0, front.len() as int) =~= front) by {
        assert forall|i: int| 0 <= i < front.len() implies s[i] == front[i] by {
            if i >= head.len() {
                assert(inner.take(base.len() as int)[i - head.len()] == inner[i - head.len()]);
            }
        }
    }
    assert forall|i: int| 0 <= i < patches.len() implies has_addition(s, #[trigger] patches[i]) by {
        assert(has_addition(inner, patches[i]));
        lemma_addition_stays(
            head,
            inner,
            prompt::budget_text(max_turns, remaining),
            patches[i],
        );
    }
    let left = text::nat_text(
        if remaining == 0 {
            1
        } else {
            remaining
        },
    );
    let early = "\n\n[预算提醒] 本次请求的模型调用预算为 "@ + text::nat_text(max_turns) + " 轮，当前已到最后 "@;
    let tail = " 轮。请停止调用任何工具，直接基于已有信息生成最终答案；如果信息不足，请如实说明缺口。"@;
    lemma_within_back(early, left);
    lemma_within_front(early + left, tail, left);
    assert(prompt::budget_text(max_turns, remaining) == early + left + tail);
}

/// Of the hooks that narrow the tools the last one counts.
pub proof fn law_the_last_narrowing_counts(patches: Seq<RequestPatch>, n: int)
    requires
        0 <= n <= patches.len(),
    ensures
        match prompt::tools_named(patches, n) {
            Some(names) => exists|i: int|
                0 <= i < n && (#[trigger] patches[i].active_tools matches Some(v) && text::texts(v@)
                    == names) && forall|j: int|
                    i < j < n ==> #[trigger] patches[j].active_tools is None,
            None => forall|j: int| 0 <= j < n ==> #[trigger] patches[j].active_tools is None,
        },
    decreases n,
{
    if n > 0 {
        if patches[n - 1].active_tools is None {
            law_the_last_narrowing_counts(patches, n - 1);
            if prompt::tools_named(patches, n) is Some {
                let names = prompt::tools_named(patches, n)->0;
                let i = choose|i: int|
                    0 <= i < n - 1 && (#[trigger] patches[i].active_tools matches Some(v)
                        && text::texts(v@) == names) && forall|j: int|
                        i < j < n - 1 ==> #[trigger] patches[j].active_tools is None;
                assert(patches[i].active_tools is Some);
            }
        } else {
            assert(patches[n - 1].active_tools is Some);
        }
    }
}

/// A call runs where no hook refuses it; else it is refused for the first one's reason.
pub proof fn law_the_first_refusal_counts(answers: Seq<ToolDecision>)
    ensures
        match hooks::first_refusal(answers, 0) {
            ToolDecision::Run => forall|i: int|
                0 <= i < answers.len() ==> (#[trigger] answers[i]) is Run,
            ToolDecision::Skip(reason) => exists|i: int|
                0 <= i < answers.len() && (#[trigger] answers[i]) == ToolDecision::Skip(reason)
                    && forall|j: int| 0 <= j < i ==> (#[trigger] answers[j]) is Run,
        },
{
    lemma_first_refusal(answers, 0);
}

proof fn lemma_first_refusal(answers: Seq<ToolDecision>, k: int)
    requires
        0 <= k <= answers.len(),
    ensures
        match hooks::first_refusal(answers, k) {
            ToolDecision::Run => forall|i: int|
                k <= i < answers.len() ==> (#[trigger] answers[i]) is Run,
            ToolDecision::Skip(reason) => exists|i: int|
                k <= i < answers.len() && (#[trigger] answers[i]) == ToolDecision::Skip(reason)
                    && forall|j: int| k <= j < i ==> (#[trigger] answers[j]) is Run,
        },
    decreases answers.len() - k,
{
    if k < answers.len() {
        if answers[k] is Run {
            lemma_first_refusal(answers, k + 1);
        } else {
            assert(hooks::first_refusal(answers, k) == answers[k]);
        }
    }
}

// ---- The other wire

/// Whether the wire has what the user and the assistant say, in order, and nothing else.
pub open spec fn is_dialogue(ms: Seq<LlmMessageV>, wire: Seq<AnthropicMessageV>) -> bool {
    let some = ms.filter(
        |m: LlmMessageV| m.role == LlmRole::User || m.role == LlmRole::Assistant,
    );
    &&& wire.len() == some.len()
    &&& forall|i: int|
        0 <= i < wire.len() ==> (#[trigger] wire[i]).role == some[i].role.name() && wire[i].content
            == types::text_of(some[i].content)
}

/// What is said goes out in its order; the system text is that of the first message that has
/// one, where it is not blank.
pub proof fn law_the_dialogue_goes_out(ms: Seq<LlmMessageV>, n: int)
    requires
        0 <= n <= ms.len(),
    ensures
        is_dialogue(ms.take(n), anthropic::dialogue(ms, n)),
    decreases n,
{
    reveal(Seq::filter);
    if n > 0 {
        law_the_dialogue_goes_out(ms, n - 1);
        assert(ms.take(n).drop_last() =~= ms.take(n - 1));
        assert(ms.take(n).last() == ms[n - 1]);
    }
}

/// Whether the message is the first one of the system from `i` on.
pub open spec fn is_first_system(ms: Seq<LlmMessageV>, i: int, k: int) -> bool {
    &&& i <= k < ms.len()
    &&& ms[k].role == LlmRole::System
    &&& forall|j: int| i <= j < k ==> (#[trigger] ms[j]).role != LlmRole::System
}

/// The system text is that of the first message of the system, unless it is blank.
pub proof fn law_the_system_text_is_the_first(ms: Seq<LlmMessageV>, i: int)
    requires
        0 <= i <= ms.len(),
    ensures
        forall|k: int| #[trigger]
            is_first_system(ms, i, k) ==> anthropic::system_text(ms, i) == if text::trim(
                types::text_of(ms[k].content),
            ).len() == 0 {
                None
            } else {
                Some(types::text_of(ms[k].content))
            },
        (forall|k: int| i <= k < ms.len() ==> (#[trigger] ms[k]).role != LlmRole::System)
            ==> anthropic::system_text(ms, i) is None,
    decreases ms.len() - i,
{
    if i < ms.len() && ms[i].role != LlmRole::System {
        law_the_system_text_is_the_first(ms, i + 1);
        assert forall|k: int| #[trigger] is_first_system(ms, i, k) implies anthropic::system_text(
            ms,
            i,
        ) == if text::trim(types::text_of(ms[k].content)).len() == 0 {
            None
        } else {
            Some(types::text_of(ms[k].content))
        } by {
            assert(is_first_system(ms, i + 1, k));
        }
    } else if i < ms.len() {
        assert forall|k: int| #[trigger] is_first_system(ms, i, k) implies k == i by {
            if k > i {
                assert(ms[i].role != LlmRole::System);
            }
        }
    }
}

/// A completion has the text of all that came before the first end.
pub proof fn law_a_completion_has_all_text(evs: Seq<StreamEventV>, n: int)
    requires
        0 <= n <= evs.len(),
        forall|i: int| 0 <= i < n ==> !((#[trigger] evs[i]) is Finish),
    ensures
        anthropic::collected_text(evs, n) == steps::joined(evs.take(n).filter(steps::is_text())),
        steps::is_its_usage(evs.take(n), None, anthropic::collected_usage(evs, n)),
    decreases n,
{
    reveal(Seq::filter);
    if n > 0 {
        law_a_completion_has_all_text(evs, n - 1);
        let init = evs.take(n - 1);
        let e = evs[n - 1];
        assert(evs.take(n).drop_last() =~= init);
        assert(evs.take(n).last() == e);
        assert(!anthropic::ended_before(evs, n - 1));
        let texts = init.filter(steps::is_text());
        assert(texts.push(e).drop_last() =~= texts);
        let counts = init.filter(steps::is_usage());
        assert(counts.push(e).last() == e);
    }
}

} // verus!
