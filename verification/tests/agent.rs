use mdgo::agent::anthropic::{collect_completion, empty_request_error, split_system, usage_event};
use mdgo::agent::error::LoopError;
use mdgo::agent::hooks::{decide, HookCtx, RequestPatch, RetryAction, ToolDecision};
use mdgo::agent::openai::{
    content_to_string, normalize_base_url, parse_completion_response, to_openai_message,
    OpenAiAdapter, RawContent,
};
use mdgo::agent::prompt::{assemble_system, LocalClock, Weekday};
use mdgo::agent::seam::CompletionRequest;
use mdgo::agent::session::{Session, SessionEvent, TurnEndReason};
use mdgo::agent::sse::{find_frame_end, parse_data_line, SseParser};
use mdgo::agent::tool::{
    HashMapToolRegistry, NullSink, ToolError, ToolEventSink, ToolResult, ToolSpec,
};
use mdgo::agent::tool_calls::{
    plan_windows, preview, record_missing, record_outcome, value_to_content, ToolBatch,
    ToolExecution, ToolValue,
};
use mdgo::agent::turn::{
    FailurePlan, LoopAgent, LoopConfig, LoopEvent, RecoveryPlan, ReplyPlan, StepPlan, TurnOutcome,
};
use mdgo::agent::types::{
    ContentBlock, FinishReason, LlmError, LlmMessage, LlmRole, StreamEvent, TokenUsage, ToolCall,
};
use mdgo::json::{Json, JsonMember};

fn member<'a>(j: &'a Json, key: &str) -> &'a Json {
    match j {
        Json::Object(ms) => {
            let found: Vec<&JsonMember> = ms.iter().filter(|m| m.key == key).collect();
            assert_eq!(found.len(), 1, "{}", key);
            &found[0].value
        }
        _ => panic!("not an object"),
    }
}

fn item(j: &Json, i: usize) -> &Json {
    match j {
        Json::Array(items) => &items[i],
        _ => panic!("not an array"),
    }
}

fn text(s: &str) -> Json {
    Json::Str(s.to_string())
}

// ---- Types

#[test]
fn role_as_str() {
    assert_eq!(LlmRole::System.as_str(), "system");
    assert_eq!(LlmRole::Tool.as_str(), "tool");
}

#[test]
fn message_plain_text_concats_text_blocks_only() {
    let msg = LlmMessage {
        role: LlmRole::Assistant,
        content: vec![
            ContentBlock::Text("hello".into()),
            ContentBlock::ToolCall(ToolCall {
                id: "c1".into(),
                name: "read".into(),
                arguments: "{}".into(),
            }),
            ContentBlock::Text("world".into()),
        ],
    };
    assert_eq!(msg.plain_text(), "helloworld");
    assert_eq!(msg.tool_calls().len(), 1);
}

#[test]
fn retryable_classification() {
    assert!(LlmError::Http("conn".into()).is_retryable());
    assert!(LlmError::Timeout.is_retryable());
    assert!(LlmError::StatusCode(429, String::new()).is_retryable());
    assert!(LlmError::StatusCode(503, String::new()).is_retryable());
    assert!(!LlmError::StatusCode(401, String::new()).is_retryable());
    assert!(!LlmError::ContextOverflow.is_retryable());
    assert!(!LlmError::InvalidRequest("x".into()).is_retryable());
}

#[test]
fn errors_have_their_texts() {
    assert!(LoopError::Cancelled.is_cancelled());
    assert!(!LoopError::Llm(LlmError::Cancelled).is_cancelled());
    assert!(LoopError::Llm(LlmError::ContextOverflow).is_context_overflow());
    assert!(LoopError::MaxTurns { max_turns: 3 }.is_max_turns());
    assert!(!LoopError::Internal("x".into()).is_cancelled());
    assert!(LoopError::MaxTurns { max_turns: 3 }.text().contains('3'));
    assert!(LoopError::Tool { name: "read".into(), message: "boom".into() }
        .text()
        .contains("boom"));
    assert!(LlmError::StatusCode(500, "bad".into()).text().contains("500"));
    assert!(ToolError::Timeout { timeout_ms: 250 }.text().contains("250"));
}

// ---- The session

fn user(content: &str) -> SessionEvent {
    SessionEvent::UserMessage {
        id: "u".into(),
        content: content.into(),
        source: "user".into(),
    }
}

fn assistant(content: &str, calls: Vec<(&str, &str)>) -> SessionEvent {
    SessionEvent::AssistantMessage {
        content: content.into(),
        tool_calls: calls
            .into_iter()
            .map(|(id, name)| ToolCall {
                id: id.into(),
                name: name.into(),
                arguments: "{}".into(),
            })
            .collect(),
        usage: None,
        interrupted: false,
    }
}

fn tool_result(id: &str, content: &str) -> SessionEvent {
    SessionEvent::ToolResult {
        call_id: id.into(),
        content: content.into(),
        is_error: false,
    }
}

#[test]
fn derives_paired_tool_round_trip() {
    let mut s = Session::new("s1".into());
    s.append(user("列出文件"));
    s.append(assistant("", vec![("c1", "read")]));
    s.append(tool_result("c1", "file content"));
    s.append(assistant("结果：file content", vec![]));
    let h = s.derive_history();
    assert_eq!(h.len(), 4);
    assert_eq!(h[0].role, LlmRole::User);
    assert_eq!(h[1].role, LlmRole::Assistant);
    assert_eq!(h[1].tool_calls().len(), 1);
    assert_eq!(h[1].tool_calls()[0].id, "c1");
    assert_eq!(h[2].role, LlmRole::Tool);
    assert_eq!(h[3].plain_text(), "结果：file content");
}

#[test]
fn drops_orphan_tool_result_and_unpaired_tool_call() {
    let mut s = Session::new("s1".into());
    s.append(user("q"));
    s.append(assistant("text", vec![("c1", "read")]));
    s.append(tool_result("c2", "orphan"));
    let h = s.derive_history();
    assert_eq!(h.len(), 2);
    assert_eq!(h[1].tool_calls().len(), 0);
    assert_eq!(h[1].plain_text(), "text");
}

#[test]
fn empty_assistant_skipped() {
    let mut s = Session::new("s1".into());
    s.append(user("q"));
    s.append(assistant("", vec![]));
    s.append(assistant("final", vec![]));
    let h = s.derive_history();
    assert_eq!(h.len(), 2);
    assert_eq!(h[1].plain_text(), "final");
}

#[test]
fn seq_monotonic() {
    let mut s = Session::new("s1".into());
    assert_eq!(s.append(user("a")), 0);
    assert_eq!(s.append(user("b")), 1);
    assert_eq!(s.append(SessionEvent::TurnStart { turn: 1 }), 2);
    assert_eq!(s.events().len(), 3);
}

#[test]
fn bookkeeping_does_not_reach_the_model() {
    let mut plain = Session::new("s".into());
    plain.append(user("q"));
    let mut busy = Session::new("s".into());
    busy.append(SessionEvent::TurnStart { turn: 1 });
    busy.append(user("q"));
    busy.append(SessionEvent::StepStart { turn: 1, step: 1 });
    busy.append(SessionEvent::TurnEnd { turn: 1, reason: TurnEndReason::Completed });
    assert_eq!(plain.derive_history(), busy.derive_history());
    assert_eq!(busy.current_turn(), 1);
    assert_eq!(busy.current_step(), 1);
    assert_eq!(busy.derived_chars(), 1);
}

#[test]
fn a_copied_session_has_the_same_log() {
    let mut s = Session::new("s".into());
    s.append(user("q"));
    s.append(assistant("a", vec![("c1", "read")]));
    s.append(SessionEvent::CompactionSummary {
        summary: "sum".into(),
        shadowed_seqs: vec![0, 1],
    });
    let mut c = s.clone();
    assert_eq!(c.events(), s.events());
    assert_eq!(c.id(), "s");
    assert_eq!(c.derive_history(), s.derive_history());
    assert_eq!(s.events()[2].event.kind_name(), "compaction_summary");
}

// ---- The wire format of OpenAI

#[test]
fn normalize_url_strips_chat_suffix() {
    assert_eq!(normalize_base_url("http://x/v1/chat/completions"), "http://x/v1");
    assert_eq!(normalize_base_url("http://x/v1"), "http://x/v1");
    assert_eq!(normalize_base_url("http://x/"), "http://x");
}

#[test]
fn frame_end_and_data_line() {
    assert_eq!(find_frame_end(b"data: a\n\n"), Some(7));
    assert_eq!(find_frame_end(b"data: a\r\n\r\n"), Some(7));
    assert_eq!(find_frame_end(b"data: a"), None);
    let frame = b"data: {\"a\":1}\ndata: {\"b\":2}\n\n";
    assert_eq!(parse_data_line(frame).unwrap(), "{\"a\":1}\n{\"b\":2}");
    assert!(parse_data_line(b"\n\n").is_none());
}

#[test]
fn sse_text_stream() {
    let mut p = SseParser::new();
    p.push_bytes(b"data: {\"choices\":[{\"delta\":{\"role\":\"assistant\",\"content\":\"Hel\"},\"index\":0,\"finish_reason\":null}]}\n\n");
    p.push_bytes(b"data: {\"choices\":[{\"delta\":{\"content\":\"lo\"},\"index\":0,\"finish_reason\":null}]}\n\n");
    p.push_bytes(b"data: {\"choices\":[{\"delta\":{},\"index\":0,\"finish_reason\":\"stop\"}]}\n\n");
    p.push_bytes(b"data: [DONE]\n\n");
    let evs: Vec<StreamEvent> = p.pending.into_iter().collect();
    assert_eq!(evs[0], StreamEvent::TextDelta("Hel".into()));
    assert_eq!(evs[1], StreamEvent::TextDelta("lo".into()));
    assert_eq!(evs[2], StreamEvent::Finish(FinishReason::Stop));
}

#[test]
fn sse_tool_call_assembly() {
    let mut p = SseParser::new();
    p.push_bytes(
        br#"data: {"choices":[{"delta":{"tool_calls":[{"index":0,"id":"call_1","function":{"name":"read","arguments":""}}]},"index":0,"finish_reason":null}]}

"#,
    );
    p.push_bytes(
        br#"data: {"choices":[{"delta":{"tool_calls":[{"index":0,"function":{"arguments":"{\"path\":\"a"}}]},"index":0,"finish_reason":null}]}

"#,
    );
    p.push_bytes(
        br#"data: {"choices":[{"delta":{"tool_calls":[{"index":0,"function":{"arguments":"\"}"}}]},"index":0,"finish_reason":null}]}

"#,
    );
    p.push_bytes(
        br#"data: {"choices":[{"delta":{},"index":0,"finish_reason":"tool_calls"}]}

"#,
    );
    let evs: Vec<StreamEvent> = p.pending.into_iter().collect();
    match &evs[0] {
        StreamEvent::ToolCall { index, call } => {
            assert_eq!(*index, 0);
            assert_eq!(call.id, "call_1");
            assert_eq!(call.name, "read");
            assert_eq!(call.arguments, "{\"path\":\"a\"}");
        }
        other => panic!("expected ToolCall, got {other:?}"),
    }
    assert_eq!(evs[1], StreamEvent::Finish(FinishReason::ToolCalls));
}

#[test]
fn sse_usage_block() {
    let mut p = SseParser::new();
    p.push_bytes(b"data: {\"choices\":[],\"usage\":{\"prompt_tokens\":10,\"completion_tokens\":5,\"total_tokens\":15,\"prompt_tokens_details\":{\"cached_tokens\":3}}}\n\n");
    let evs: Vec<StreamEvent> = p.pending.into_iter().collect();
    match &evs[0] {
        StreamEvent::Usage(u) => {
            assert_eq!(u.prompt_tokens, 10);
            assert_eq!(u.completion_tokens, 5);
            assert_eq!(u.cached_input_tokens, 3);
        }
        other => panic!("expected Usage, got {other:?}"),
    }
}

#[test]
fn the_pieces_of_a_stream_do_not_matter() {
    let all: &[u8] = b"data: {\"choices\":[{\"delta\":{\"content\":\"Hel\"},\"finish_reason\":null}]}\n\ndata: {\"choices\":[{\"delta\":{\"content\":\"lo\"},\"finish_reason\":null}]}\r\n\r\ndata: [DONE]\n\n";
    let mut whole = SseParser::new();
    whole.push_bytes(all);
    let want: Vec<StreamEvent> = whole.pending.into_iter().collect();
    assert_eq!(want.len(), 3);
    for size in [1usize, 2, 3, 7, 20] {
        let mut p = SseParser::new();
        for piece in all.chunks(size) {
            p.push_bytes(piece);
        }
        let got: Vec<StreamEvent> = p.pending.into_iter().collect();
        assert_eq!(got, want);
    }
}

#[test]
fn nothing_comes_behind_the_end_of_a_stream() {
    let mut p = SseParser::new();
    p.push_bytes(b"data: [DONE]\n\n");
    let before = p.pending.len();
    p.push_bytes(b"data: {\"choices\":[{\"delta\":{\"content\":\"late\"}}]}\n\n");
    assert_eq!(p.pending.len(), before);
    assert!(p.done);
    let ends = p
        .pending
        .iter()
        .filter(|e| matches!(e, StreamEvent::Finish(_)))
        .count();
    assert_eq!(ends, 1);
}

#[test]
fn broken_bytes_become_replacement_characters() {
    let mut frame = b"data: a".to_vec();
    frame.push(0xff);
    frame.extend_from_slice(b"b\n");
    assert_eq!(parse_data_line(&frame).unwrap(), "a\u{fffd}b");
}

#[test]
fn to_openai_assistant_with_tool_calls() {
    let msg = LlmMessage {
        role: LlmRole::Assistant,
        content: vec![ContentBlock::ToolCall(ToolCall {
            id: "c1".into(),
            name: "read".into(),
            arguments: "{}".into(),
        })],
    };
    let v = to_openai_message(&msg);
    assert_eq!(*member(&v, "role"), text("assistant"));
    let call = item(member(&v, "tool_calls"), 0);
    assert_eq!(*member(member(call, "function"), "name"), text("read"));
    assert_eq!(*member(call, "id"), text("c1"));
}

#[test]
fn to_openai_tool_result() {
    let msg = LlmMessage {
        role: LlmRole::Tool,
        content: vec![ContentBlock::ToolResult {
            tool_call_id: "c1".into(),
            content: "result".into(),
            is_error: false,
        }],
    };
    let v = to_openai_message(&msg);
    assert_eq!(*member(&v, "role"), text("tool"));
    assert_eq!(*member(&v, "content"), text("result"));
    assert_eq!(*member(&v, "tool_call_id"), text("c1"));
}

#[test]
fn parse_non_stream_response() {
    let json = r#"{"choices":[{"message":{"role":"assistant","content":"hi","tool_calls":[{"id":"c1","type":"function","function":{"name":"read","arguments":"{}"}}]},"finish_reason":"tool_calls"}],"usage":{"prompt_tokens":4,"completion_tokens":3,"total_tokens":7}}"#;
    let r = parse_completion_response(json).unwrap();
    assert_eq!(r.content, "hi");
    assert_eq!(r.tool_calls.len(), 1);
    assert_eq!(r.tool_calls[0].name, "read");
    assert_eq!(r.finish_reason, Some(FinishReason::ToolCalls));
    assert_eq!(r.usage.unwrap().prompt_tokens, 4);
}

#[test]
fn a_response_that_is_no_json_is_an_error() {
    assert!(matches!(parse_completion_response("{"), Err(LlmError::Json(_))));
    assert_eq!(
        content_to_string(&RawContent::Parts(vec![Some("a".into()), None, Some("b".into())])),
        "ab"
    );
    assert_eq!(content_to_string(&RawContent::Other), "");
}

#[test]
fn http_errors_are_told_apart() {
    assert_eq!(
        OpenAiAdapter::map_http_error(400, "maximum context length is 8192"),
        LlmError::ContextOverflow
    );
    assert_eq!(
        OpenAiAdapter::map_http_error(500, "oops"),
        LlmError::StatusCode(500, "oops".into())
    );
    let a = OpenAiAdapter::new("http://x/v1/".into(), "m".into(), "k".into(), None).with_timeout(9);
    assert_eq!(a.chat_url(), "http://x/v1/chat/completions");
    assert_eq!(a.model(), "m");
    assert_eq!(a.api_key(), "k");
    assert_eq!(a.timeout_ms(), 9);
    let body = a.build_body(
        &CompletionRequest::new(vec![LlmMessage::text(LlmRole::User, "q".into())]),
        true,
    );
    assert_eq!(*member(&body, "model"), text("m"));
    assert_eq!(*member(&body, "stream"), Json::Bool(true));
}

// ---- The wire format of Anthropic

#[test]
fn the_system_text_goes_apart() {
    let req = CompletionRequest::new(vec![
        LlmMessage::text(LlmRole::System, "sys".into()),
        LlmMessage::text(LlmRole::User, "q".into()),
        LlmMessage::text(LlmRole::Assistant, "a".into()),
    ]);
    let (system, ms) = split_system(&req);
    assert_eq!(system, Some("sys".to_string()));
    assert_eq!(ms.len(), 2);
    assert_eq!(ms[0].role, "user");
    assert_eq!(ms[1].content, "a");
    assert!(matches!(empty_request_error(), LlmError::InvalidRequest(_)));
    let u = usage_event(10, 5, 2, 1);
    assert_eq!(u.prompt_tokens, 10);
    assert_eq!(u.completion_tokens, 5);
    assert_eq!(u.cached_input_tokens, 2);
    assert_eq!(u.cache_creation_input_tokens, 1);
    let r = collect_completion(&vec![
        StreamEvent::TextDelta("a".into()),
        StreamEvent::ReasoningDelta("hidden".into()),
        StreamEvent::TextDelta("b".into()),
        StreamEvent::Usage(u),
        StreamEvent::Finish(FinishReason::Length),
    ]);
    assert_eq!(r.content, "ab");
    assert_eq!(r.usage, Some(u));
    assert_eq!(r.finish_reason, Some(FinishReason::Stop));
}

// ---- Tools

fn spec(name: &str, safe: bool) -> ToolSpec {
    let mut s = ToolSpec::new(
        name.to_string(),
        "mock".to_string(),
        Json::Object(vec![JsonMember { key: "type".into(), value: text("object") }]),
    );
    s.concurrency_safe = safe;
    s
}

fn call(id: &str, name: &str) -> ToolCall {
    ToolCall {
        id: id.into(),
        name: name.into(),
        arguments: "{\"path\":\"a\"}".into(),
    }
}

/// Runs the calls as the registry and the decisions say; a tool hands its arguments back.
/// The counts say how often each tool ran.
fn run_calls(
    reg: &HashMapToolRegistry,
    calls: Vec<ToolCall>,
    decisions: Vec<ToolDecision>,
    ran: &mut Vec<String>,
) -> Vec<ToolExecution> {
    let mut batch = ToolBatch::new(calls, &decisions, reg, 4);
    for w in 0..batch.windows.len() {
        let mut results = Vec::new();
        for &i in &batch.windows[w] {
            let c = batch.calls[i].clone();
            if reg.get(&c.name).is_none() {
                results.push(record_missing(c));
            } else {
                ran.push(c.name.clone());
                let args = c.arguments.clone();
                results.push(record_outcome(c, Ok(ToolValue::Json(args))));
            }
        }
        batch.commit(w, results);
    }
    batch.executions().unwrap()
}

#[test]
fn registry_round_trip() {
    let mut reg = HashMapToolRegistry::new();
    reg.register(spec("echo", true));
    assert!(reg.get("echo").is_some());
    assert!(reg.get("missing").is_none());
    assert_eq!(reg.names(), vec!["echo".to_string()]);
}

#[test]
fn exclusive_tools_serial_and_ordered() {
    let mut reg = HashMapToolRegistry::new();
    reg.register(spec("read_a", true));
    reg.register(spec("read_b", true));
    let mut ran = Vec::new();
    let out = run_calls(
        &reg,
        vec![call("c1", "read_a"), call("c2", "read_b")],
        vec![ToolDecision::Run, ToolDecision::Run],
        &mut ran,
    );
    assert_eq!(out.len(), 2);
    assert_eq!(out[0].call.id, "c1");
    assert_eq!(out[1].call.id, "c2");
    assert!(!out[0].result.is_error);
    assert_eq!(ran.iter().filter(|n| *n == "read_a").count(), 1);
    assert_eq!(ran.iter().filter(|n| *n == "read_b").count(), 1);
}

#[test]
fn unknown_tool_returns_error_result() {
    let reg = HashMapToolRegistry::new();
    let mut ran = Vec::new();
    let out = run_calls(&reg, vec![call("c1", "nope")], vec![ToolDecision::Run], &mut ran);
    assert!(out[0].result.is_error);
    assert!(out[0].result.content.contains("不存在"));
}

#[test]
fn hook_skip_short_circuits() {
    let mut reg = HashMapToolRegistry::new();
    reg.register(spec("secret", false));
    let mut ran = Vec::new();
    let decision = decide(&vec![ToolDecision::Skip("该工具不可用".into())]);
    let out = run_calls(&reg, vec![call("c1", "secret")], vec![decision], &mut ran);
    assert!(out[0].result.is_error);
    assert!(out[0].result.content.contains("被拦截"));
    assert_eq!(ran.len(), 0);
}

#[test]
fn the_first_refusal_counts() {
    let d = decide(&vec![
        ToolDecision::Run,
        ToolDecision::Skip("a".into()),
        ToolDecision::Skip("b".into()),
    ]);
    assert_eq!(d, ToolDecision::Skip("a".into()));
    assert_eq!(decide(&vec![]), ToolDecision::Run);
}

#[test]
fn windows_hold_safe_tools_together() {
    let run = || ToolDecision::Run;
    let w = plan_windows(
        &vec![run(), run(), run(), ToolDecision::Skip("no".into()), run(), run()],
        &vec![true, true, true, true, false, true],
        2,
    );
    assert_eq!(w, vec![vec![0, 1], vec![2], vec![4], vec![5]]);
}

#[test]
fn results_become_text() {
    assert_eq!(value_to_content(&ToolValue::Text("plain".into())), "plain");
    assert_eq!(value_to_content(&ToolValue::Json("{\"a\":1}".into())), "{\"a\":1}");
    let long = "x".repeat(500);
    assert!(preview(&ToolValue::Text(long)).chars().count() < 500);
    let e = record_outcome(call("c", "t"), Err(ToolError::Cancelled));
    assert!(e.result.is_error);
    assert_eq!(e.result.call_id, "c");
}

// ---- Turns

fn clock() -> LocalClock {
    LocalClock {
        date_time: "2025-01-01 08:00".into(),
        weekday: Weekday::Wed,
        offset: "+08:00".into(),
    }
}

/// What a scripted model does when it is asked.
enum Script {
    Stream(Vec<StreamEvent>),
    Fail(LlmError),
}

struct Run {
    outcome: TurnOutcome,
    requests: Vec<CompletionRequest>,
    events: Vec<LoopEvent>,
}

/// Takes a turn with a scripted model; a tool answers with the contents of a file.
fn run_turn(
    agent: &mut LoopAgent,
    reg: &HashMapToolRegistry,
    scripts: Vec<Script>,
    input: &str,
    cancelled: bool,
    hook: Option<RetryAction>,
    prepared: bool,
) -> Run {
    let mut scripts = scripts.into_iter();
    let mut requests = Vec::new();
    let mut events = Vec::new();
    agent.begin_turn(&LlmMessage::text(LlmRole::User, input.to_string()));
    loop {
        match agent.next_step(cancelled) {
            StepPlan::Done(outcome) => return Run { outcome, requests, events },
            StepPlan::Request { .. } => {}
        }
        requests.push(agent.build_request(&Vec::new(), &clock(), reg));
        match scripts.next().unwrap_or(Script::Stream(Vec::new())) {
            Script::Stream(evs) => {
                agent.opened();
                let mut finished = false;
                for e in evs {
                    finished = matches!(e, StreamEvent::Finish(_));
                    if let Some(r) = agent.receive(e) {
                        events.push(r);
                    }
                    if finished {
                        break;
                    }
                }
                if !finished {
                    agent.stream_ended();
                }
            }
            Script::Fail(e) => {
                match agent.fail(e) {
                    FailurePlan::Done(outcome) => return Run { outcome, requests, events },
                    FailurePlan::AskHooks => {}
                }
                match agent.hooks_answered(hook) {
                    RecoveryPlan::Done(outcome) => return Run { outcome, requests, events },
                    RecoveryPlan::Prepare => {}
                }
                let session = agent.session().clone();
                if let Some(outcome) = agent.prepared(session, prepared) {
                    return Run { outcome, requests, events };
                }
                continue;
            }
        }
        match agent.reply_done() {
            ReplyPlan::Done(outcome) => return Run { outcome, requests, events },
            ReplyPlan::RunTools(calls) => {
                let runs = calls
                    .into_iter()
                    .map(|c| {
                        let content = "{\"content\":\"内容(a.md)\"}".to_string();
                        record_outcome(c, Ok(ToolValue::Json(content)))
                    })
                    .collect();
                for e in agent.tools_done(runs) {
                    events.push(e);
                }
            }
        }
    }
}

fn read_call() -> ToolCall {
    ToolCall {
        id: "call_1".into(),
        name: "read".into(),
        arguments: "{\"path\":\"a.md\"}".into(),
    }
}

fn reg_with_read() -> HashMapToolRegistry {
    let mut reg = HashMapToolRegistry::new();
    reg.register(spec("read", true));
    reg
}

fn new_agent(max_turns: usize) -> LoopAgent {
    LoopAgent::new(LoopConfig::new(max_turns, "你是助手".into()), "s1".into())
}

#[test]
fn multi_step_tool_round_trip() {
    let mut agent = new_agent(10);
    let run = run_turn(
        &mut agent,
        &reg_with_read(),
        vec![
            Script::Stream(vec![
                StreamEvent::TextDelta("先查一下".into()),
                StreamEvent::ToolCall { index: 0, call: read_call() },
                StreamEvent::Finish(FinishReason::ToolCalls),
            ]),
            Script::Stream(vec![
                StreamEvent::TextDelta("结果：内容(a.md)".into()),
                StreamEvent::Finish(FinishReason::Stop),
            ]),
        ],
        "读取 a.md",
        false,
        None,
        false,
    );
    match &run.outcome {
        TurnOutcome::Completed { content, turns_used, .. } => {
            assert_eq!(content, "先查一下结果：内容(a.md)");
            assert_eq!(*turns_used, 2);
        }
        other => panic!("expected Completed, got {other:?}"),
    }
    let reqs = run.requests;
    assert_eq!(reqs.len(), 2);
    assert!(!reqs[0].tools.is_empty());
    assert_eq!(reqs[0].tools[0].name, "read");
    let roles: Vec<&str> = reqs[1].messages.iter().map(|m| m.role.as_str()).collect();
    assert_eq!(roles, vec!["system", "user", "assistant", "tool"]);
    let kinds: Vec<&str> = run
        .events
        .iter()
        .map(|e| match e {
            LoopEvent::Delta(_) => "delta",
            LoopEvent::ToolCall { .. } => "tool_call",
            LoopEvent::ToolResult { .. } => "tool_result",
            _ => "other",
        })
        .collect();
    assert_eq!(kinds, vec!["delta", "tool_call", "tool_result", "delta"]);
    assert!(agent.session().events().iter().any(|e| matches!(
        &e.event,
        SessionEvent::TurnEnd { reason: TurnEndReason::Completed, .. }
    )));
}

#[test]
fn max_turns_stops_loop() {
    let ask = || {
        Script::Stream(vec![
            StreamEvent::ToolCall { index: 0, call: read_call() },
            StreamEvent::Finish(FinishReason::ToolCalls),
        ])
    };
    let mut agent = new_agent(2);
    let run = run_turn(
        &mut agent,
        &reg_with_read(),
        vec![ask(), ask()],
        "q",
        false,
        None,
        false,
    );
    assert!(matches!(run.outcome, TurnOutcome::MaxTurns { .. }));
    assert_eq!(run.outcome.turns_used(), 2);
}

#[test]
fn cancellation_returns_cancelled() {
    let mut agent = new_agent(10);
    let run = run_turn(
        &mut agent,
        &HashMapToolRegistry::new(),
        vec![Script::Stream(vec![
            StreamEvent::TextDelta("部分内容".into()),
            StreamEvent::Finish(FinishReason::Stop),
        ])],
        "q",
        true,
        None,
        false,
    );
    assert!(matches!(run.outcome, TurnOutcome::Cancelled { .. }));
}

#[test]
fn budget_warning_injected() {
    let mut agent = new_agent(3);
    let run = run_turn(
        &mut agent,
        &reg_with_read(),
        vec![Script::Stream(vec![
            StreamEvent::TextDelta("x".into()),
            StreamEvent::Finish(FinishReason::Stop),
        ])],
        "q",
        false,
        None,
        false,
    );
    let sys = run.requests[0].messages[0].plain_text();
    assert!(sys.contains("预算提醒"), "{sys}");
}

#[test]
fn request_error_retry_with_prepare() {
    let mut agent = new_agent(10);
    let run = run_turn(
        &mut agent,
        &HashMapToolRegistry::new(),
        vec![
            Script::Fail(LlmError::ContextOverflow),
            Script::Stream(vec![
                StreamEvent::TextDelta("ok".into()),
                StreamEvent::Finish(FinishReason::Stop),
            ]),
        ],
        "q",
        false,
        Some(RetryAction::Retry),
        true,
    );
    assert!(matches!(run.outcome, TurnOutcome::Completed { .. }));
}

#[test]
fn retry_exhausted_fails() {
    let mut agent = new_agent(10);
    let run = run_turn(
        &mut agent,
        &HashMapToolRegistry::new(),
        vec![Script::Fail(LlmError::ContextOverflow)],
        "q",
        false,
        Some(RetryAction::Retry),
        false,
    );
    assert!(matches!(run.outcome, TurnOutcome::Failed { .. }));
}

#[test]
fn a_second_failure_is_not_retried() {
    let mut agent = new_agent(10);
    let run = run_turn(
        &mut agent,
        &HashMapToolRegistry::new(),
        vec![Script::Fail(LlmError::Timeout), Script::Fail(LlmError::Timeout)],
        "q",
        false,
        Some(RetryAction::Retry),
        true,
    );
    assert_eq!(run.requests.len(), 2);
    match run.outcome {
        TurnOutcome::Failed { err, .. } => assert_eq!(err, LoopError::Llm(LlmError::Timeout)),
        other => panic!("{other:?}"),
    }
}

#[test]
fn usage_and_text_are_kept_over_an_interruption() {
    let mut agent = new_agent(10);
    agent.begin_turn(&LlmMessage::text(LlmRole::User, "q".into()));
    assert!(matches!(agent.next_step(false), StepPlan::Request { .. }));
    agent.build_request(&Vec::new(), &clock(), &HashMapToolRegistry::new());
    agent.opened();
    assert_eq!(
        agent.receive(StreamEvent::TextDelta("part".into())),
        Some(LoopEvent::Delta("part".into()))
    );
    let usage = TokenUsage {
        prompt_tokens: 3,
        completion_tokens: 1,
        total_tokens: 4,
        cached_input_tokens: 0,
        cache_creation_input_tokens: 0,
    };
    agent.receive(StreamEvent::Usage(usage));
    let o = agent.interrupt();
    assert_eq!(o.content(), "part");
    assert_eq!(o.usage(), Some(&usage));
    assert!(matches!(o, TurnOutcome::Cancelled { .. }));
    assert!(agent.session().events().iter().any(|e| matches!(
        &e.event,
        SessionEvent::AssistantMessage { interrupted: true, .. }
    )));
}

#[test]
fn the_prompt_is_put_together() {
    let patch = RequestPatch {
        preamble_override: Some("补充".into()),
        active_tools: None,
        extra_params: None,
    };
    let s = assemble_system("基础", &vec![patch], &clock(), 10, 9, 3);
    assert!(s.starts_with("[当前时间] 本地时间 2025-01-01 08:00（星期三，+08:00）"));
    assert!(s.contains("基础"));
    assert!(s.contains("补充"));
    assert!(s.contains("2025-01-01 08:00"));
    assert!(s.contains("三"));
    assert!(!s.contains("预算提醒"));
    let c = HookCtx::new(1, 2, "m".into(), "r".into(), 7);
    assert_eq!((c.turn, c.step, c.remaining_turns), (1, 2, 7));
    let r = ToolResult { call_id: "c".into(), content: "x".into(), is_error: false };
    assert_eq!(r.clone(), r);
}

// ---- Small things

#[test]
fn events_are_taken_in_order() {
    let mut p = SseParser::new();
    p.push_bytes(b"data: {\"choices\":[{\"delta\":{\"content\":\"a\"}}]}\n\n");
    p.push_bytes(b"data: {\"choices\":[{\"delta\":{\"content\":\"b\"}}]}\n\n");
    assert_eq!(p.next_event(), Some(StreamEvent::TextDelta("a".into())));
    assert_eq!(p.next_event(), Some(StreamEvent::TextDelta("b".into())));
    assert_eq!(p.next_event(), None);
}

#[test]
fn an_agent_goes_on_with_another_session() {
    let mut agent = new_agent(10);
    agent.begin_turn(&LlmMessage::text(LlmRole::User, "hi".into()));
    assert_eq!(agent.session().current_turn(), 1);
    agent.replace_session(Session::new("two".to_string()));
    assert_eq!(agent.session().current_turn(), 0);
    agent.begin_turn(&LlmMessage::text(LlmRole::User, "again".into()));
    assert_eq!(agent.session().current_turn(), 1);
}

#[test]
fn a_null_sink_takes_everything() {
    let sink = NullSink;
    sink.on_call("c1", "read", "{}");
    sink.on_result("c1", "read", true, "ok", None);
}

#[test]
fn what_the_model_sees_was_recorded_in_that_order() {
    let mut s = Session::new("s".to_string());
    s.append(SessionEvent::TurnStart { turn: 1 });
    s.append(user("first"));
    s.append(assistant("second", vec![]));
    s.append(user("third"));
    let before = s.events().len();
    let seen: Vec<String> = s.derive_history().iter().map(|m| m.plain_text()).collect();
    assert_eq!(seen, vec!["first", "second", "third"]);
    s.append(SessionEvent::TurnEnd { turn: 1, reason: TurnEndReason::Completed });
    assert_eq!(s.events().len(), before + 1);
    assert_eq!(s.derive_history().len(), 3);
}

#[test]
fn a_try_may_go_on_with_a_shorter_session() {
    let mut agent = new_agent(10);
    agent.begin_turn(&LlmMessage::text(LlmRole::User, "long ago".into()));
    assert!(matches!(agent.next_step(false), StepPlan::Request { turn: 1, step: 1, .. }));
    assert_eq!(agent.fail(LlmError::ContextOverflow), FailurePlan::AskHooks);
    assert_eq!(agent.hooks_answered(Some(RetryAction::Retry)), RecoveryPlan::Prepare);
    let mut short = Session::new("short".to_string());
    short.append(user("summary"));
    assert_eq!(agent.prepared(short, true), None);
    match agent.next_step(false) {
        StepPlan::Request { turn, step, remaining } => {
            assert_eq!((turn, step, remaining), (1, 2, 8));
        }
        other => panic!("{other:?}"),
    }
    let req = agent.build_request(&Vec::new(), &clock(), &HashMapToolRegistry::new());
    assert_eq!(req.messages.len(), 2);
    assert_eq!(req.messages[1].plain_text(), "summary");
    agent.opened();
    assert!(agent.receive(StreamEvent::TextDelta("ok".into())).is_some());
    assert_eq!(agent.receive(StreamEvent::Finish(FinishReason::Stop)), None);
    match agent.reply_done() {
        ReplyPlan::Done(o) => {
            assert_eq!(o.content(), "ok");
            assert_eq!(o.turns_used(), 2);
        }
        other => panic!("{other:?}"),
    }
    assert_eq!(agent.session().current_step(), 1);
}

#[test]
fn a_turn_begins_and_ends_once() {
    let mut agent = new_agent(10);
    for (input, number) in [("one", 1u32), ("two", 2u32)] {
        let before = agent.session().events().len();
        let run = run_turn(
            &mut agent,
            &reg_with_read(),
            vec![
                Script::Stream(vec![
                    StreamEvent::TextDelta("a".into()),
                    StreamEvent::TextDelta("b".into()),
                    StreamEvent::ToolCall { index: 0, call: read_call() },
                    StreamEvent::Finish(FinishReason::ToolCalls),
                ]),
                Script::Stream(vec![StreamEvent::TextDelta("c".into())]),
            ],
            input,
            false,
            None,
            false,
        );
        let added = &agent.session().events()[before..];
        assert!(matches!(added[0].event, SessionEvent::TurnStart { turn } if turn == number));
        assert!(matches!(
            added[added.len() - 1].event,
            SessionEvent::TurnEnd { turn, reason: TurnEndReason::Completed } if turn == number
        ));
        let ends =
            added.iter().filter(|e| matches!(e.event, SessionEvent::TurnEnd { .. })).count();
        assert_eq!(ends, 1);
        let told: String = run
            .events
            .iter()
            .map(|e| match e {
                LoopEvent::Delta(t) => t.as_str(),
                _ => "",
            })
            .collect();
        assert_eq!(told, "abc");
        assert_eq!(run.outcome.content(), "abc");
        assert_eq!(run.outcome.turns_used() as usize, run.requests.len());
    }
}

#[test]
fn records_come_in_model_order() {
    let mut reg = HashMapToolRegistry::new();
    reg.register(spec("read", true));
    reg.register(spec("write", false));
    let names = ["read", "write", "nope", "read", "read", "write"];
    let calls: Vec<ToolCall> =
        names.iter().enumerate().map(|(i, n)| call(&format!("c{i}"), n)).collect();
    let mut decisions: Vec<ToolDecision> = names.iter().map(|_| ToolDecision::Run).collect();
    decisions[3] = ToolDecision::Skip("no".into());
    let mut ran = Vec::new();
    let out = run_calls(&reg, calls, decisions, &mut ran);
    assert_eq!(out.len(), names.len());
    for (i, e) in out.iter().enumerate() {
        assert_eq!(e.call.id, format!("c{i}"));
        assert_eq!(e.result.call_id, format!("c{i}"));
    }
    assert!(out[2].result.is_error);
    assert!(out[3].result.is_error);
    assert_eq!(ran, vec!["read", "write", "read", "write"]);
}

#[test]
fn a_batch_without_its_results_is_not_complete() {
    let mut reg = HashMapToolRegistry::new();
    reg.register(spec("read", true));
    let batch = ToolBatch::new(vec![call("c1", "read")], &vec![ToolDecision::Run], &reg, 4);
    assert_eq!(batch.windows.len(), 1);
    assert!(batch.executions().is_none());
}

#[test]
fn a_frame_is_read_as_its_text() {
    assert_eq!(parse_data_line("data: 你好\n".as_bytes()), Some("你好".to_string()));
    assert_eq!(parse_data_line(b"data: \xff"), Some("\u{fffd}".to_string()));
    assert_eq!(parse_data_line("event: 你好".as_bytes()), None);
}
