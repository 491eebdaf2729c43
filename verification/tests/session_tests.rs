use mini_codex::llm::{model_or_default, request_body, ScriptedLlm};
use mini_codex::prompt::Json;
use mini_codex::protocol::{Event, Item, Message, Op, Role, Thread};
use mini_codex::session::{
    item_to_message, last_text, op_for_line, parse_tool_calls, Next, Phase, SessionCore, SessionInput,
};
use mini_codex::tools::{
    tool_error_output, unknown_tool_output, ReadArgs, ReadFileTool, Registry, ToolOutput,
};
use std::path::PathBuf;
use std::sync::Arc;

/// Drives a session the way the engine loop does: model replies come from a
/// script, tools from the registry (only `read_file` exists).
fn run(core: &mut SessionCore, llm: &mut ScriptedLlm, registry: &Registry<ReadFileTool>, op: Op) -> Vec<Event> {
    let mut events = Vec::new();
    let (evs, mut next) = core.step(SessionInput::Op(op));
    events.extend(evs);
    loop {
        let input = match next {
            Next::AwaitOp | Next::Stop => break,
            Next::CallModel => SessionInput::Reply(Ok(llm.next_reply())),
            Next::RunTool(call) => {
                let out = match registry.get(&call.name) {
                    // the tool reads its path from the arguments the engine passed
                    Some(tool) => match serde_json::from_str::<serde_json::Value>(&call.arguments) {
                        Ok(args) => match args.get("path").and_then(|p| p.as_str()) {
                            Some(path) => tool.output_for(&ReadArgs { path: path.to_string() }),
                            None => tool_error_output("missing field `path`"),
                        },
                        Err(e) => tool_error_output(&e.to_string()),
                    },
                    None => unknown_tool_output(&call.name),
                };
                SessionInput::ToolDone(out)
            }
        };
        let (evs, n) = core.step(input);
        events.extend(evs);
        next = n;
    }
    events
}

#[test]
fn two_turns_are_processed_in_order() {
    let mut core = SessionCore::new();
    let mut llm = ScriptedLlm::new(vec!["A".into(), "B".into()]);
    let registry = Registry::new();
    let mut events = run(&mut core, &mut llm, &registry, Op::UserInput { text: "1".into() });
    events.extend(run(&mut core, &mut llm, &registry, Op::UserInput { text: "2".into() }));
    events.extend(run(&mut core, &mut llm, &registry, Op::Shutdown));
    assert_eq!(
        events,
        vec![
            Event::TurnBegin { turn: 1 },
            Event::TurnComplete { turn: 1, text: "A".into() },
            Event::TurnBegin { turn: 2 },
            Event::TurnComplete { turn: 2, text: "B".into() },
            Event::Shutdown,
        ]
    );
    let assistant: Vec<_> = core
        .history()
        .iter()
        .filter(|m| m.role == Role::Assistant)
        .map(|m| m.content.as_str())
        .collect();
    assert_eq!(assistant, vec!["A", "B"]);
    assert_eq!(core.phase(), Phase::Stopped);
}

#[test]
fn tool_loop_executes_call_and_feeds_result_back() {
    let mut core = SessionCore::with_max_tool_rounds(25);
    let mut llm = ScriptedLlm::new(vec![
        r#"[TOOL] read_file({"path":"a.rs"})"#.into(),
        "读完了，a.rs 很小。".into(),
    ]);
    let mut registry = Registry::new();
    registry.register("read_file".to_string(), ReadFileTool::new(Arc::new(PathBuf::from("/tmp"))));
    let events = run(&mut core, &mut llm, &registry, Op::UserInput { text: "读 a.rs".into() });
    assert_eq!(
        events,
        vec![
            Event::TurnBegin { turn: 1 },
            Event::ToolCallRecord { turn: 1, call_id: "call_0".into(), name: "read_file".into() },
            Event::TurnComplete { turn: 1, text: "读完了，a.rs 很小。".into() },
        ]
    );
    let all: String = core.history().iter().map(|m| m.content.clone()).collect::<Vec<_>>().join("\n");
    assert!(all.contains("(read a.rs)"), "tool result missing:\n{all}");
    assert!(all.contains("读完了"));
    assert_eq!(core.history()[2].content, "[工具结果] call_0 (成功)\n(read a.rs)");
    assert_eq!(core.history()[2].role, Role::User);
}

#[test]
fn unknown_tool_is_reported_to_the_model() {
    let mut core = SessionCore::new();
    let mut llm = ScriptedLlm::new(vec!["[TOOL] shell {}".into(), "ok".into()]);
    let registry: Registry<ReadFileTool> = Registry::new();
    run(&mut core, &mut llm, &registry, Op::UserInput { text: "x".into() });
    assert_eq!(core.history()[2].content, "[工具结果] call_0 (错误)\n未知工具: shell");
}

#[test]
fn tool_rounds_are_bounded() {
    let mut core = SessionCore::with_max_tool_rounds(2);
    let mut llm = ScriptedLlm::new(vec![
        "[TOOL] read_file({})".into(),
        "[TOOL] read_file({})".into(),
        "[TOOL] read_file({})".into(),
    ]);
    let mut registry = Registry::new();
    registry.register("read_file".to_string(), ReadFileTool::new(Arc::new(PathBuf::from("/tmp"))));
    let events = run(&mut core, &mut llm, &registry, Op::UserInput { text: "go".into() });
    assert_eq!(
        events.last(),
        Some(&Event::TurnComplete { turn: 1, text: "工具循环达到上限，本轮提前停止。".into() })
    );
    // two model calls, the third scripted reply is left over
    assert_eq!(llm.next_reply(), "[TOOL] read_file({})");
    let ids: Vec<_> = events
        .iter()
        .filter_map(|e| match e {
            Event::ToolCallRecord { call_id, .. } => Some(call_id.clone()),
            _ => None,
        })
        .collect();
    assert_eq!(ids, vec!["call_0".to_string(), "call_1".to_string()]);
}

#[test]
fn model_error_does_not_end_the_session() {
    let mut core = SessionCore::new();
    let (evs, next) = core.step(SessionInput::Op(Op::UserInput { text: "hi".into() }));
    assert_eq!(evs, vec![Event::TurnBegin { turn: 1 }]);
    assert!(matches!(next, Next::CallModel));
    let (evs, next) = core.step(SessionInput::Reply(Err("boom".into())));
    assert_eq!(evs, vec![Event::Error("boom".into()), Event::TurnComplete { turn: 1, text: String::new() }]);
    assert!(matches!(next, Next::AwaitOp));
    assert_eq!(core.phase(), Phase::Idle);
}

#[test]
fn interrupt_sets_the_flag_and_close_stops() {
    let mut core = SessionCore::new();
    let (evs, next) = core.step(SessionInput::Op(Op::Interrupt));
    assert!(evs.is_empty());
    assert!(matches!(next, Next::AwaitOp));
    assert!(core.is_cancelled());
    let (evs, next) = core.step(SessionInput::Closed);
    assert!(evs.is_empty());
    assert!(matches!(next, Next::Stop));
    let (evs, next) = core.step(SessionInput::Op(Op::UserInput { text: "late".into() }));
    assert!(evs.is_empty());
    assert!(matches!(next, Next::Stop));
}

#[test]
fn zero_tool_rounds_completes_without_calling_the_model() {
    let mut core = SessionCore::with_max_tool_rounds(0);
    let (evs, next) = core.step(SessionInput::Op(Op::UserInput { text: "q".into() }));
    assert_eq!(evs, vec![Event::TurnBegin { turn: 1 }, Event::TurnComplete { turn: 1, text: String::new() }]);
    assert!(matches!(next, Next::AwaitOp));
}

#[test]
fn parse_tool_calls_reads_the_text_protocol() {
    let reply = "先读文件\n  [TOOL] read_file({\"path\":\"a.rs\"})  \r\n[TOOL]  shell\n[TOOL] (x)\n[TOOL] grep {\"q\":\"}\"} tail }";
    let calls = parse_tool_calls(reply, 3);
    assert_eq!(calls.len(), 3);
    assert_eq!(calls[0].call_id, "call_3");
    assert_eq!(calls[0].name, "read_file");
    assert_eq!(calls[0].arguments, "{\"path\":\"a.rs\"}");
    assert_eq!(calls[1].call_id, "call_4");
    assert_eq!(calls[1].name, "shell");
    assert_eq!(calls[1].arguments, "{}");
    assert_eq!(calls[2].call_id, "call_5");
    assert_eq!(calls[2].name, "grep");
    assert_eq!(calls[2].arguments, "{\"q\":\"}\"} tail }");
    assert!(parse_tool_calls("no tools here", 0).is_empty());
    assert_eq!(parse_tool_calls("[TOOL] t", 12)[0].call_id, "call_12");
}

#[test]
fn item_to_message_formats_each_kind() {
    let ok = item_to_message(&Item::ToolResult { call_id: "c".into(), output: "o".into(), is_error: false });
    assert_eq!(ok, Message { role: Role::User, content: "[工具结果] c (成功)\no".into() });
    let err = item_to_message(&Item::ToolResult { call_id: "c".into(), output: "o".into(), is_error: true });
    assert_eq!(err.content, "[工具结果] c (错误)\no");
    assert_eq!(item_to_message(&Item::UserInput { text: "u".into() }), Message { role: Role::User, content: "u".into() });
    let m = Message { role: Role::System, content: "s".into() };
    assert_eq!(item_to_message(&Item::ThreadMessage { message: m.clone() }), m);
    let other = item_to_message(&Item::FunctionCall { name: "f".into(), arguments: "{}".into() });
    assert_eq!(other, Message { role: Role::Assistant, content: "FunctionCall { name: \"f\", arguments: \"{}\" }".into() });
}

#[test]
fn last_text_is_the_last_assistant_message() {
    let h = vec![
        Message { role: Role::Assistant, content: "first".into() },
        Message { role: Role::User, content: "u".into() },
        Message { role: Role::Assistant, content: "second".into() },
        Message { role: Role::User, content: "v".into() },
    ];
    assert_eq!(last_text(&h), "second");
    assert_eq!(last_text(&h[..0].to_vec()), "");
}

#[test]
fn scripted_llm_replies_in_order_then_empty() {
    let mut llm = ScriptedLlm::new(vec!["a".into(), "b".into()]);
    assert_eq!(llm.next_reply(), "a");
    assert_eq!(llm.next_reply(), "b");
    assert_eq!(llm.next_reply(), "");
}

#[test]
fn thread_new_is_empty() {
    let t = Thread::new("t-1".into());
    assert_eq!(t.id, "t-1");
    assert_eq!(t.title, None);
    assert!(t.turns.is_empty());
}

#[test]
fn registry_later_registration_replaces_earlier() {
    let mut r: Registry<u32> = Registry::new();
    r.register("alpha".into(), 1);
    r.register("beta".into(), 2);
    r.register("alpha".into(), 3);
    assert_eq!(r.get("alpha"), Some(&3));
    assert_eq!(r.get("beta"), Some(&2));
    assert_eq!(r.get("gamma"), None);
    let tools: Vec<(String, u32)> = r.entries().clone();
    assert_eq!(tools, vec![("alpha".to_string(), 3), ("beta".to_string(), 2)]);
}

#[test]
fn tool_outputs() {
    let t = ReadFileTool::new(Arc::new(PathBuf::from("/tmp")));
    assert_eq!(t.tool_name(), "read_file");
    assert_eq!(t.output_for(&ReadArgs { path: "x/y".into() }), ToolOutput { output: "(read x/y)".into(), is_error: false });
    assert_eq!(t.cwd().as_path(), std::path::Path::new("/tmp"));
    assert_eq!(mini_codex::tools::tool_error_output("bad").output, "工具错误: bad");
}

#[test]
fn adding_a_tool_requires_no_change_to_agent_loop() {
    let mut registry: Registry<ReadFileTool> = Registry::new();
    registry.register("alpha".to_string(), ReadFileTool::new(Arc::new(PathBuf::from("/a"))));
    registry.register("beta".to_string(), ReadFileTool::new(Arc::new(PathBuf::from("/b"))));
    let schemas: Vec<Json> = registry.entries().iter().map(|(_, t)| t.schema()).collect();
    assert_eq!(schemas.len(), 2);
    assert!(schemas.iter().all(|s| matches!(s, Json::Object(_))));

    let mut core = SessionCore::with_max_tool_rounds(25);
    let mut llm = ScriptedLlm::new(vec!["你好，我能帮忙。".into()]);
    run(&mut core, &mut llm, &registry, Op::UserInput { text: "打招呼".into() });
    run(&mut core, &mut llm, &registry, Op::Shutdown);
    assert!(last_text(core.history()).contains("你好"));
}

#[test]
fn quit_line_closes_the_session() {
    assert!(matches!(op_for_line("/quit".into()), Op::Shutdown));
    assert!(matches!(op_for_line("  /quit \t".into()), Op::Shutdown));
    match op_for_line("/quit now".into()) {
        Op::UserInput { text } => assert_eq!(text, "/quit now"),
        _ => panic!("not a user input"),
    }
    match op_for_line(" hello ".into()) {
        Op::UserInput { text } => assert_eq!(text, " hello "),
        _ => panic!("not a user input"),
    }
}

#[test]
fn whole_turn_is_framed_by_begin_and_complete() {
    let mut core = SessionCore::with_max_tool_rounds(3);
    core.step(SessionInput::Op(Op::UserInput { text: "first".into() }));
    core.step(SessionInput::Reply(Ok("done".into())));
    let before = core.history().clone();
    let mut events = Vec::new();
    let inputs = vec![
        SessionInput::Op(Op::UserInput { text: "second".into() }),
        SessionInput::Reply(Ok("[TOOL] a {}\n[TOOL] b {}".into())),
        SessionInput::ToolDone(ToolOutput { output: "x".into(), is_error: false }),
        SessionInput::ToolDone(ToolOutput { output: "y".into(), is_error: false }),
        SessionInput::Reply(Ok("answer".into())),
        // a turn input after the turn completed is not taken in
        SessionInput::Reply(Ok("late".into())),
    ];
    for input in inputs {
        let (evs, _) = core.step(input);
        events.extend(evs);
    }
    assert_eq!(
        events,
        vec![
            Event::TurnBegin { turn: 2 },
            Event::ToolCallRecord { turn: 2, call_id: "call_0".into(), name: "a".into() },
            Event::ToolCallRecord { turn: 2, call_id: "call_1".into(), name: "b".into() },
            Event::TurnComplete { turn: 2, text: "answer".into() },
        ]
    );
    assert_eq!(&core.history()[..before.len()], &before[..]);
    assert_eq!(core.history()[before.len()], Message { role: Role::User, content: "second".into() });
    assert_eq!(core.history().len(), before.len() + 5);
}

#[test]
fn shutdown_is_the_last_event() {
    let mut core = SessionCore::new();
    let (evs, next) = core.step(SessionInput::Op(Op::Shutdown));
    assert_eq!(evs, vec![Event::Shutdown]);
    assert!(matches!(next, Next::Stop));
    for input in [
        SessionInput::Op(Op::UserInput { text: "more".into() }),
        SessionInput::Op(Op::Interrupt),
        SessionInput::Reply(Ok("x".into())),
        SessionInput::Closed,
    ] {
        let (evs, next) = core.step(input);
        assert!(evs.is_empty());
        assert!(matches!(next, Next::Stop));
    }
    assert_eq!(core.phase(), Phase::Stopped);
    assert!(core.history().is_empty());
}

#[test]
fn next_op_is_asked_only_between_turns() {
    let mut core = SessionCore::with_max_tool_rounds(2);
    let (_, next) = core.step(SessionInput::Op(Op::UserInput { text: "go".into() }));
    assert!(matches!(next, Next::CallModel));
    assert_eq!(core.phase(), Phase::AwaitingReply);
    // an operation that arrives mid-turn is not what the turn waits for
    let (evs, next) = core.step(SessionInput::Op(Op::Shutdown));
    assert!(evs.is_empty());
    assert!(matches!(next, Next::CallModel));
    let (_, next) = core.step(SessionInput::Reply(Ok("[TOOL] t {}".into())));
    assert!(matches!(next, Next::RunTool(_)));
    assert_eq!(core.phase(), Phase::RunningTools);
    let (_, next) = core.step(SessionInput::ToolDone(ToolOutput { output: "o".into(), is_error: true }));
    assert!(matches!(next, Next::CallModel));
    let (_, next) = core.step(SessionInput::Reply(Ok("fin".into())));
    assert!(matches!(next, Next::AwaitOp));
    assert_eq!(core.phase(), Phase::Idle);
}

/// The member `key` of an object.
fn get<'a>(j: &'a Json, key: &str) -> &'a Json {
    match j {
        Json::Object(fields) => &fields.iter().find(|(k, _)| k == key).expect("member").1,
        _ => panic!("not an object"),
    }
}

fn names(j: &Json) -> Vec<&str> {
    match j {
        Json::Object(fields) => fields.iter().map(|(k, _)| k.as_str()).collect(),
        _ => panic!("not an object"),
    }
}

fn text(j: &Json) -> &str {
    match j {
        Json::Str(s) => s,
        _ => panic!("not a string"),
    }
}

#[test]
fn read_file_schema_describes_the_path_parameter() {
    let t = ReadFileTool::new(Arc::new(PathBuf::from("/tmp")));
    let s = t.schema();
    assert_eq!(names(&s), vec!["name", "description", "parameters"]);
    assert_eq!(text(get(&s, "name")), t.tool_name());
    assert_eq!(text(get(&s, "description")), "读取文本文件内容。路径相对于工作目录。");
    let p = get(&s, "parameters");
    assert_eq!(names(p), vec!["type", "properties", "required"]);
    assert_eq!(text(get(p, "type")), "object");
    let props = get(p, "properties");
    assert_eq!(names(props), vec!["path"]);
    let path = get(props, "path");
    assert_eq!(names(path), vec!["type", "description"]);
    assert_eq!(text(get(path, "type")), "string");
    assert_eq!(text(get(path, "description")), "要读取的文件路径（相对 cwd）");
    match get(p, "required") {
        Json::Array(v) => {
            assert_eq!(v.len(), 1);
            assert_eq!(text(&v[0]), "path");
        }
        _ => panic!("required is not an array"),
    }
}

#[test]
fn request_body_carries_model_messages_and_stream() {
    assert_eq!(model_or_default(None), "gpt-4o-mini");
    assert_eq!(model_or_default(Some("o3".into())), "o3");
    let msgs = vec![
        Message { role: Role::System, content: "sys".into() },
        Message { role: Role::User, content: "你好".into() },
        Message { role: Role::Assistant, content: "hi".into() },
    ];
    let b = request_body("gpt-4o-mini", &msgs);
    assert_eq!(names(&b), vec!["model", "input", "stream"]);
    assert_eq!(text(get(&b, "model")), "gpt-4o-mini");
    assert!(matches!(get(&b, "stream"), Json::Bool(true)));
    match get(&b, "input") {
        Json::Array(items) => {
            assert_eq!(items.len(), 3);
            let got: Vec<(&str, &str)> = items
                .iter()
                .map(|m| {
                    assert_eq!(names(m), vec!["role", "content"]);
                    (text(get(m, "role")), text(get(m, "content")))
                })
                .collect();
            assert_eq!(got, vec![("system", "sys"), ("user", "你好"), ("assistant", "hi")]);
        }
        _ => panic!("input is not an array"),
    }
    assert!(matches!(request_body("m", &[]), Json::Object(_)));
}
