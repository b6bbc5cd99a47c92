use serde_json::Value;
use spacetree::ai::models::{model_list, ModelDto, ModelEntry};
use spacetree::ai::openrouter::{
    error_detail, friendly_error,
    Chunk, ChunkChoice, DeltaCall, Message, SseDecoder, StreamAccumulator, StreamEvent,
};
use spacetree::ai::tools::{describe, dispatch, resolve, tool_names, ToolArgs};
use spacetree::ai::openrouter::{FunctionCall, ToolCall};
use spacetree::ai::{
    answer_call, end_of_round, RoundEnd,
    compose_system, opening_messages, tools_for_round, trim_history, HistoryTurn,
    HISTORY_TOKEN_BUDGET, MAX_TOOL_ROUNDS, SYSTEM_PROMPT,
};
use spacetree::digest::MAX_RESULT_CHARS;
use spacetree::settings::{Settings, SettingsDto};
use spacetree::tree::{NodeId, RawNode, Tree, TreeBuilder, ROOT};
use spacetree::NodeFlags;

// --- conversation history ---

fn turn(role: &str, len: usize) -> HistoryTurn {
    HistoryTurn { role: role.to_string(), content: "x".repeat(len) }
}

#[test]
fn history_keeps_the_most_recent_turns() {
    let history = vec![turn("user", 40), turn("assistant", 40), turn("user", 40)];
    let kept = trim_history(history);
    assert_eq!(kept.len(), 3, "a short conversation is kept whole");
}

#[test]
fn an_overlong_history_is_trimmed_from_the_oldest_end() {
    let mut history = vec![turn("user", 40_000)]; // way over budget alone
    history.push(turn("assistant", 40));
    history.push(turn("user", 40));
    let kept = trim_history(history);
    assert_eq!(kept.len(), 2, "the huge oldest turn must be dropped, the recent ones kept");
    assert_eq!(kept[0].content.len(), 40);
}

#[test]
fn history_never_exceeds_the_budget() {
    let history: Vec<HistoryTurn> = (0..200).map(|_| turn("user", 400)).collect();
    let kept = trim_history(history);
    let cost: usize = kept.iter().map(|t| t.content.len() / 4 + 8).sum();
    assert!(cost <= HISTORY_TOKEN_BUDGET, "kept {cost} tokens, budget is {HISTORY_TOKEN_BUDGET}");
}

#[test]
fn an_empty_history_is_fine() {
    assert!(trim_history(Vec::new()).is_empty());
}

#[test]
fn the_system_prompt_forbids_inventing_numbers_and_claiming_deletion() {
    assert!(SYSTEM_PROMPT.contains("Never invent a path"));
    assert!(SYSTEM_PROMPT.contains("cannot delete anything"));
    assert!(SYSTEM_PROMPT.contains("safety notes in tool results are authoritative"));
}

#[test]
fn a_turn_opens_with_the_prompt_then_history_then_the_question() {
    let history = vec![turn("assistant", 8), turn("tool", 8), turn("user", 8)];
    let msgs = opening_messages("SYS".to_string(), history, "Q?".to_string());
    let roles: Vec<&str> = msgs.iter().map(|m| m.role.as_str()).collect();
    assert_eq!(roles, vec!["system", "assistant", "user", "user", "user"]);
    assert_eq!(msgs[0].content.as_deref(), Some("SYS"));
    assert_eq!(msgs[4].content.as_deref(), Some("Q?"));
}

#[test]
fn the_last_round_takes_the_tools_away() {
    assert!(tools_for_round(0, true));
    assert!(!tools_for_round(MAX_TOOL_ROUNDS, true));
    assert!(!tools_for_round(0, false));
}

// --- SSE framing ---

#[test]
fn sse_reassembles_a_payload_split_across_chunks() {
    let mut d = SseDecoder::default();
    assert!(d.feed("data: {\"choi").is_empty(), "must wait for the newline");
    let out = d.feed("ces\":[]}\n\n");
    assert_eq!(out, vec!["{\"choices\":[]}"]);
}

#[test]
fn sse_skips_comments_blank_lines_and_other_fields() {
    let mut d = SseDecoder::default();
    let out = d.feed(": keep-alive\n\nevent: message\nid: 7\ndata: {\"a\":1}\n\n");
    assert_eq!(out, vec!["{\"a\":1}"], "only data lines are payloads");
}

#[test]
fn sse_handles_crlf_and_several_payloads_in_one_chunk() {
    let mut d = SseDecoder::default();
    let out = d.feed("data: one\r\ndata: two\r\n");
    assert_eq!(out, vec!["one", "two"]);
}

#[test]
fn sse_gives_the_same_payloads_whatever_the_chunking() {
    let stream = "data: alpha\r\n: ping\ndata:beta\n\ndata:  gamma  \nid: 3\ndata: [DONE]\n";
    let mut whole = SseDecoder::default();
    let expected = whole.feed(stream);
    assert_eq!(expected, vec!["alpha", "beta", "gamma", "[DONE]"]);
    for cut in 0..stream.len() {
        let mut d = SseDecoder::default();
        let mut got = d.feed(&stream[..cut]);
        got.extend(d.feed(&stream[cut..]));
        assert_eq!(got, expected, "split at {cut}");
    }
}

// --- stream reassembly ---

fn text_of(v: Option<&Value>) -> Option<String> {
    v.and_then(Value::as_str).map(str::to_string)
}

fn choice_of(c: &Value) -> ChunkChoice {
    let delta = c.get("delta");
    let tool_calls = delta.and_then(|d| d.get("tool_calls")).and_then(Value::as_array).map(|calls| {
        calls
            .iter()
            .map(|t| {
                let f = t.get("function");
                DeltaCall {
                    index: t.get("index").and_then(Value::as_u64).unwrap_or(0) as usize,
                    id: text_of(t.get("id")),
                    name: text_of(f.and_then(|f| f.get("name"))),
                    arguments: text_of(f.and_then(|f| f.get("arguments"))),
                }
            })
            .collect()
    });
    ChunkChoice {
        content: text_of(delta.and_then(|d| d.get("content"))),
        tool_calls,
        finish_reason: text_of(c.get("finish_reason")),
    }
}

/// How a payload's JSON decodes into a chunk, the way the client does it.
fn decode(payload: &str) -> Option<Chunk> {
    let v: Value = serde_json::from_str(payload.trim()).ok()?;
    let obj = v.as_object()?;
    let error = match obj.get("error") {
        None | Some(Value::Null) => None,
        Some(e) => Some(e.get("message")?.as_str()?.to_string()),
    };
    let choices = match obj.get("choices") {
        None => Vec::new(),
        Some(c) => c.as_array()?.iter().map(choice_of).collect(),
    };
    Some(Chunk { choices, error })
}

fn push(acc: &mut StreamAccumulator, payload: &str) -> Result<Option<String>, String> {
    acc.push(payload, decode(payload))
}

#[test]
fn garbage_lines_do_not_abort_a_working_stream() {
    let mut acc = StreamAccumulator::default();
    assert_eq!(push(&mut acc, "not json at all").unwrap(), None);
    let got = push(&mut acc, r#"{"choices":[{"delta":{"content":"hello"}}]}"#).unwrap();
    assert_eq!(got.as_deref(), Some("hello"));
    assert_eq!(acc.text(), "hello");
}

#[test]
fn done_sentinel_ends_the_stream() {
    let mut acc = StreamAccumulator::default();
    push(&mut acc, r#"{"choices":[{"delta":{"content":"hi"}}]}"#).unwrap();
    push(&mut acc, "[DONE]").unwrap();
    assert_eq!(acc.finish(), StreamEvent::Done);
}

#[test]
fn an_api_error_in_the_stream_surfaces_as_an_error() {
    let mut acc = StreamAccumulator::default();
    let err = push(&mut acc, r#"{"error":{"message":"rate limited"}}"#).unwrap_err();
    assert!(err.contains("rate limited"));
}

#[test]
fn tool_calls_are_reassembled_from_fragments() {
    let mut acc = StreamAccumulator::default();
    push(&mut acc, r#"{"choices":[{"delta":{"tool_calls":[{"index":0,"id":"c1","function":{"name":"list_folder"}}]}}]}"#).unwrap();
    push(&mut acc, r#"{"choices":[{"delta":{"tool_calls":[{"index":0,"function":{"arguments":"{\"pa"}}]}}]}"#).unwrap();
    push(&mut acc, r#"{"choices":[{"delta":{"tool_calls":[{"index":0,"function":{"arguments":"th\":\"C:/Users\"}"}}]}}]}"#).unwrap();

    match acc.finish() {
        StreamEvent::ToolCalls(calls) => {
            assert_eq!(calls.len(), 1);
            assert_eq!(calls[0].function.name, "list_folder");
            assert_eq!(calls[0].function.arguments, r#"{"path":"C:/Users"}"#);
            assert_eq!(calls[0].id, "c1");
        }
        other => panic!("expected tool calls, got {other:?}"),
    }
}

#[test]
fn two_parallel_tool_calls_stay_separate() {
    let mut acc = StreamAccumulator::default();
    push(&mut acc, r#"{"choices":[{"delta":{"tool_calls":[{"index":1,"id":"b","function":{"name":"second","arguments":"{}"}}]}}]}"#).unwrap();
    push(&mut acc, r#"{"choices":[{"delta":{"tool_calls":[{"index":0,"id":"a","function":{"name":"first","arguments":"{}"}}]}}]}"#).unwrap();
    match acc.finish() {
        StreamEvent::ToolCalls(calls) => {
            assert_eq!(calls.len(), 2);
            assert_eq!(calls[0].function.name, "first");
            assert_eq!(calls[1].function.name, "second");
        }
        other => panic!("expected two calls, got {other:?}"),
    }
}

#[test]
fn a_call_with_no_arguments_still_produces_valid_json() {
    let mut acc = StreamAccumulator::default();
    push(&mut acc, r#"{"choices":[{"delta":{"tool_calls":[{"index":0,"id":"x","function":{"name":"find_reclaimable"}}]}}]}"#).unwrap();
    match acc.finish() {
        StreamEvent::ToolCalls(calls) => {
            assert_eq!(calls[0].function.arguments, "{}");
            serde_json::from_str::<Value>(&calls[0].function.arguments)
                .expect("empty arguments must still parse as JSON");
        }
        other => panic!("expected a call, got {other:?}"),
    }
}

#[test]
fn a_call_missing_its_id_gets_a_usable_one() {
    let mut acc = StreamAccumulator::default();
    push(&mut acc, r#"{"choices":[{"delta":{"tool_calls":[{"index":0,"function":{"name":"list_folder","arguments":"{}"}}]}}]}"#).unwrap();
    match acc.finish() {
        StreamEvent::ToolCalls(calls) => {
            assert!(!calls[0].id.is_empty());
            assert_eq!(calls[0].id, "call_0");
        }
        other => panic!("expected a call, got {other:?}"),
    }
}

#[test]
fn prose_from_several_choices_is_emitted_together() {
    let mut acc = StreamAccumulator::default();
    let got = push(
        &mut acc,
        r#"{"choices":[{"delta":{"content":"ab"}},{"delta":{"content":""}},{"delta":{"content":"cd"},"finish_reason":"stop"}]}"#,
    )
    .unwrap();
    assert_eq!(got.as_deref(), Some("abcd"));
    assert_eq!(acc.text(), "abcd");
    assert_eq!(push(&mut acc, "   ").unwrap(), None);
    assert_eq!(acc.finish(), StreamEvent::Done);
}

#[test]
fn tool_results_answer_their_call() {
    let m = Message::tool_result("c9", "list_folder", "rows".to_string());
    assert_eq!(m.role, "tool");
    assert_eq!(m.tool_call_id.as_deref(), Some("c9"));
    assert_eq!(m.name.as_deref(), Some("list_folder"));
    assert_eq!(m.content.as_deref(), Some("rows"));
}

// --- tools ---

fn dir(parent: NodeId, name: &str) -> RawNode {
    RawNode { parent, name: name.to_string(), size_logical: 0, size_alloc: 0, mtime: 0, flags: NodeFlags::dir() }
}

fn file(parent: NodeId, name: &str, size: u64) -> RawNode {
    RawNode { parent, name: name.to_string(), size_logical: size, size_alloc: size, mtime: 0, flags: NodeFlags::empty() }
}

fn sample() -> (Tree, NodeId) {
    let mut b = TreeBuilder::new();
    let root = b.push(dir(ROOT, "C:"));
    let users = b.push(dir(root, "Users"));
    let downloads = b.push(dir(users, "Downloads"));
    b.push(file(downloads, "big.iso", 4_000_000_000));
    b.push(dir(root, "Windows"));
    (b.finalize(), root)
}

fn args(path: Option<&str>, limit: Option<u64>) -> ToolArgs {
    ToolArgs { path: path.map(str::to_string), name: None, limit, min_mb: None }
}

#[test]
fn paths_resolve_with_either_separator_and_any_case() {
    let (tree, root) = sample();
    let expected = resolve(&tree, root, "Users/Downloads").unwrap();
    for variant in ["Users\\Downloads", "users/downloads", "C:/Users/Downloads", "c:\\users\\downloads", "/Users/Downloads/"] {
        assert_eq!(resolve(&tree, root, variant), Some(expected), "failed to resolve {variant}");
    }
}

#[test]
fn an_empty_path_is_the_scan_root() {
    let (tree, root) = sample();
    assert_eq!(resolve(&tree, root, ""), Some(root));
    assert_eq!(resolve(&tree, root, "/"), Some(root));
}

#[test]
fn a_path_leaving_the_scan_cannot_resolve() {
    let (tree, root) = sample();
    for escape in ["..", "../../etc/passwd", "Users/../../Windows", "/etc/passwd"] {
        assert_eq!(resolve(&tree, root, escape), None, "{escape} must not resolve");
    }
}

#[test]
fn dots_and_blank_segments_are_ignored() {
    let (tree, root) = sample();
    let expected = resolve(&tree, root, "Users/Downloads").unwrap();
    assert_eq!(resolve(&tree, root, " ./Users// . /Downloads "), Some(expected));
}

#[test]
fn an_unknown_path_returns_guidance_not_just_an_error() {
    let (tree, root) = sample();
    let out = dispatch(&tree, root, true, "list_folder", &args(Some("Nope/Here"), None));
    assert!(out.starts_with("Error:"));
    assert!(out.contains("Users"), "the reply should show what does exist so the model can recover:\n{out}");
}

#[test]
fn limits_are_clamped_rather_than_trusted() {
    let (tree, root) = sample();
    let out = dispatch(&tree, root, true, "list_folder", &args(Some(""), Some(100_000)));
    assert!(out.len() < MAX_RESULT_CHARS + 100);
}

#[test]
fn an_unknown_tool_name_is_reported_not_panicked_on() {
    let (tree, root) = sample();
    let out = dispatch(&tree, root, true, "delete_everything", &args(None, None));
    assert!(out.contains("no tool named"));
}

#[test]
fn descriptions_read_as_plain_english_for_the_trace() {
    let d = describe("list_folder", &args(Some("C:/Users"), None));
    assert_eq!(d, "Listing C:/Users");
    assert_eq!(describe("list_folder", &args(None, None)), "Listing the scan root");
    assert_eq!(describe("find_reclaimable", &args(None, None)), "Checking for caches and build output");
}

#[test]
fn find_large_files_defaults_to_a_sensible_floor() {
    let (tree, root) = sample();
    let out = dispatch(&tree, root, true, "find_large_files", &args(Some(""), None));
    assert!(out.contains("big.iso"), "{out}");
}

#[test]
fn find_by_name_needs_a_name() {
    let (tree, root) = sample();
    let out = dispatch(&tree, root, true, "find_by_name", &args(None, None));
    assert_eq!(out, "Error: `name` is required.");
    let mut with_name = args(None, None);
    with_name.name = Some("iso".to_string());
    assert!(dispatch(&tree, root, true, "find_by_name", &with_name).contains("big.iso"));
}

#[test]
fn a_model_without_tools_gets_the_reclaimable_list_up_front() {
    let (tree, root) = sample();
    let with_tools = compose_system(&tree, root, None, true);
    let without = compose_system(&tree, root, None, false);
    assert!(with_tools.starts_with(SYSTEM_PROMPT));
    assert!(!with_tools.contains("cannot call tools"));
    assert!(without.contains("cannot call tools"));
}

// --- settings ---

#[test]
fn settings_need_both_a_key_and_a_model() {
    let mut s = Settings::default();
    assert!(!s.is_configured());
    s.openrouter_api_key = "  sk-test ".to_string();
    assert!(!s.is_configured());
    s.model = "\t".to_string();
    assert!(!s.is_configured(), "whitespace is not a model");
    s.model = "some/model".to_string();
    assert!(s.is_configured());
    let dto = SettingsDto::from(&s, "/tmp/settings.json".to_string());
    assert!(dto.has_api_key);
    assert_eq!(dto.model, "some/model");
    assert_eq!(dto.config_path, "/tmp/settings.json");
}

// --- the model picker ---

fn price_is_zero(p: Option<&serde_json::Value>) -> bool {
    p.and_then(|v| v.as_str())
        .map(|s| s.trim().parse::<f64>().map(|x| x == 0.0).unwrap_or(false))
        .unwrap_or(false)
}

/// The picker's rows for a model-list body, decoded as the application
/// decodes it.
fn parse_models(body: &str) -> Vec<ModelDto> {
    let v: serde_json::Value = serde_json::from_str(body).unwrap();
    let entries = v["data"]
        .as_array()
        .unwrap()
        .iter()
        .map(|m| ModelEntry {
            id: m["id"].as_str().unwrap().to_string(),
            name: m.get("name").and_then(|n| n.as_str()).map(str::to_string),
            context_length: m.get("context_length").and_then(|n| n.as_u64()),
            is_free: m
                .get("pricing")
                .map(|p| price_is_zero(p.get("prompt")) && price_is_zero(p.get("completion")))
                .unwrap_or(false),
            supported_parameters: m.get("supported_parameters").and_then(|ps| ps.as_array()).map(|ps| {
                ps.iter().map(|p| p.as_str().unwrap_or_default().to_string()).collect()
            }),
        })
        .collect();
    model_list(entries)
}

#[test]
fn free_and_tool_capable_models_sort_first() {
    let body = r#"{"data":[
        {"id":"paid/big","name":"Paid Big","pricing":{"prompt":"0.001","completion":"0.002"},"supported_parameters":["tools"]},
        {"id":"free/chat","name":"Free Chat","pricing":{"prompt":"0","completion":"0"},"supported_parameters":[]},
        {"id":"free/tools","name":"Free Tools","pricing":{"prompt":"0","completion":"0"},"supported_parameters":["tools","temperature"]}
    ]}"#;
    let models = parse_models(body);
    assert_eq!(models[0].id, "free/tools");
    assert!(models[0].is_free && models[0].supports_tools);
    assert_eq!(models[1].id, "free/chat");
    assert!(!models[1].supports_tools);
    assert_eq!(models[2].id, "paid/big");
    assert!(!models[2].is_free);
}

#[test]
fn a_model_list_with_missing_fields_still_parses() {
    let models = parse_models(r#"{"data":[{"id":"bare/model"}]}"#);
    assert_eq!(models[0].name, "bare/model", "name falls back to the id");
    assert!(!models[0].is_free, "unknown pricing must not read as free");
    assert!(!models[0].supports_tools);
}

fn entry(id: &str, name: Option<&str>, is_free: bool, tools: bool) -> ModelEntry {
    ModelEntry {
        id: id.to_string(),
        name: name.map(str::to_string),
        context_length: Some(8192),
        is_free,
        supported_parameters: Some(if tools { vec!["tools".to_string()] } else { vec![] }),
    }
}

#[test]
fn models_of_one_rank_sort_by_name_ignoring_case() {
    let models = model_list(vec![
        entry("c", Some("charlie"), false, false),
        entry("a", Some("Alpha"), false, false),
        entry("b", Some("bravo"), false, false),
        entry("t", Some("Zed"), false, true),
    ]);
    let ids: Vec<&str> = models.iter().map(|m| m.id.as_str()).collect();
    assert_eq!(ids, vec!["t", "a", "b", "c"]);
    assert_eq!(models[0].context_length, 8192);
}

#[test]
fn models_with_equal_names_keep_the_listed_order() {
    let models = model_list(vec![
        entry("second", Some("Same"), true, false),
        entry("first", Some("same"), true, false),
    ]);
    let ids: Vec<&str> = models.iter().map(|m| m.id.as_str()).collect();
    assert_eq!(ids, vec!["second", "first"]);
}

// --- HTTP failures ---

#[test]
fn common_refusals_are_explained_by_their_code() {
    assert_eq!(
        friendly_error(401, "401 Unauthorized", "No auth credentials found"),
        "OpenRouter rejected the API key. Check it in Settings. (No auth credentials found)"
    );
    assert_eq!(
        friendly_error(402, "402 Payment Required", "x"),
        "This model needs credit on your OpenRouter account. (x)"
    );
    assert_eq!(
        friendly_error(404, "404 Not Found", "y"),
        "That model isn't available. Pick another in Settings. (y)"
    );
    assert!(friendly_error(429, "429 Too Many Requests", "z").starts_with("Rate limited by OpenRouter"));
    assert!(friendly_error(429, "429 Too Many Requests", "z").ends_with("another model. (z)"));
}

#[test]
fn other_failures_show_their_status_line() {
    assert_eq!(
        friendly_error(500, "500 Internal Server Error", "boom"),
        "OpenRouter returned 500 Internal Server Error: boom"
    );
}

#[test]
fn the_detail_prefers_the_service_message_and_caps_the_body() {
    assert_eq!(error_detail(Some("bad key".to_string()), "{...}"), "bad key");
    assert_eq!(error_detail(None, "short body"), "short body");
    let long = "é".repeat(250);
    assert_eq!(error_detail(None, &long), "é".repeat(200));
}

#[test]
fn there_is_no_tool_that_modifies_anything() {
    let names = tool_names();
    for name in &names {
        assert!(
            name.starts_with("list_") || name.starts_with("find_") || name.starts_with("folder_"),
            "{name} does not look read-only"
        );
    }
    assert_eq!(names.len(), 6, "tool count changed — re-check read-only-ness");
}

#[test]
fn every_offered_tool_is_answered_and_others_are_refused() {
    let mut b = TreeBuilder::new();
    let root = b.push(RawNode {
        parent: ROOT,
        name: "C:".to_string(),
        size_logical: 0,
        size_alloc: 0,
        mtime: 0,
        flags: NodeFlags::dir(),
    });
    let tree = b.finalize();
    let args = ToolArgs { path: Some("/".to_string()), name: Some("x".to_string()), limit: None, min_mb: None };
    for name in tool_names() {
        assert!(!dispatch(&tree, root, true, name, &args).starts_with("Error: no tool named"), "{name}");
    }
    assert_eq!(dispatch(&tree, root, true, "delete_folder", &args), "Error: no tool named `delete_folder`.");
}

#[test]
fn an_answered_call_traces_and_returns_under_the_call_id() {
    let (tree, root) = sample();
    let call = ToolCall {
        id: "call_7".to_string(),
        call_type: "function".to_string(),
        function: FunctionCall { name: "list_folder".to_string(), arguments: "{}".to_string() },
    };
    let a = args(Some("Users"), None);
    let (event, message) = answer_call(&tree, root, &call, &a);
    assert_eq!(event.id, "call_7");
    assert_eq!(event.label, describe("list_folder", &a));
    assert_eq!(event.detail, dispatch(&tree, root, true, "list_folder", &a));
    assert_eq!(message.role, "tool");
    assert_eq!(message.content.as_deref(), Some(event.detail.as_str()));
    assert_eq!(message.tool_call_id.as_deref(), Some("call_7"));
    assert_eq!(message.name.as_deref(), Some("list_folder"));
    assert!(message.tool_calls.is_none());
}

#[test]
fn a_round_that_ends_in_prose_ends_the_turn_with_a_note_only_when_blank() {
    assert!(matches!(end_of_round(false, StreamEvent::Done), RoundEnd::Reply { note: false }));
    assert!(matches!(end_of_round(true, StreamEvent::Done), RoundEnd::Reply { note: true }));
}

#[test]
fn a_round_that_asks_for_tools_records_the_calls_before_answering_them() {
    let call = ToolCall {
        id: "call_1".to_string(),
        call_type: "function".to_string(),
        function: FunctionCall { name: "find_reclaimable".to_string(), arguments: "{}".to_string() },
    };
    let other = ToolCall {
        id: "call_2".to_string(),
        call_type: "function".to_string(),
        function: FunctionCall { name: "folder_info".to_string(), arguments: "{}".to_string() },
    };
    match end_of_round(true, StreamEvent::ToolCalls(vec![call, other])) {
        RoundEnd::Calls { record, calls } => {
            assert_eq!(record.role, "assistant");
            assert!(record.content.is_none());
            let recorded = record.tool_calls.expect("the calls are recorded");
            assert_eq!(recorded.len(), 2);
            assert_eq!(recorded, calls);
            assert_eq!(calls[0].id, "call_1");
            assert_eq!(calls[1].function.name, "folder_info");
        }
        RoundEnd::Reply { .. } => panic!("tool calls must be answered"),
    }
}
