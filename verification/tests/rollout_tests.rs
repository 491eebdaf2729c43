use mini_codex::probe::{HookError, LlmError, PatchError, ToolError};
use mini_codex::protocol::Item;
use mini_codex::rollout::{jsonl_byte_lines, jsonl_text, keep_parsed, thread_file_name, Record, Rollout};
use mini_codex::text::decimal_string;

#[test]
fn thread_file_is_named_after_the_thread() {
    assert_eq!(thread_file_name("thread-1"), "thread-1.jsonl");
}

#[test]
fn written_lines_read_back_unchanged() {
    let lines = vec!["{\"a\":1}".to_string(), String::new(), "{\"b\":\"中\"}".to_string()];
    let text = jsonl_text(&lines);
    assert_eq!(text, "{\"a\":1}\n\n{\"b\":\"中\"}\n");
    let back: Vec<Option<String>> = lines.iter().cloned().map(Some).collect();
    assert_eq!(jsonl_byte_lines(&text.into_bytes()), back);
}

#[test]
fn lines_follow_str_lines() {
    for text in ["", "a", "a\n", "a\r\nb", "a\n\nb\n", "x\r", "\n", "a\r\r\n"] {
        let expected: Vec<Option<String>> = text.lines().map(|l| Some(l.to_string())).collect();
        assert_eq!(jsonl_byte_lines(&text.as_bytes().to_vec()), expected, "text {text:?}");
    }
}

#[test]
fn a_line_that_is_not_utf8_spoils_only_itself() {
    let bytes = b"{\"a\":1}\n\xff\xfe\r\n{\"b\":\"\xe4\xb8\xad\"}\r\n\xe4\xb8".to_vec();
    assert_eq!(
        jsonl_byte_lines(&bytes),
        vec![Some("{\"a\":1}".to_string()), None, Some("{\"b\":\"中\"}".to_string()), None]
    );
}

#[test]
fn bad_lines_are_skipped() {
    let rec = Record { v: 1, ts_ms: 1_000, thread_id: "t".into(), turn: 1, item: Item::Unknown };
    let kept = keep_parsed(vec![None, Some(rec.clone()), None]);
    assert_eq!(kept, vec![rec]);
    assert!(keep_parsed::<Record>(vec![]).is_empty());
}

#[test]
fn rollout_keeps_its_directory() {
    let r = Rollout::new(std::path::PathBuf::from("/tmp/logs"));
    assert_eq!(r.dir(), &std::path::PathBuf::from("/tmp/logs"));
}

#[test]
fn decimal_numerals() {
    assert_eq!(decimal_string(0), "0");
    assert_eq!(decimal_string(9), "9");
    assert_eq!(decimal_string(10), "10");
    assert_eq!(decimal_string(1234567890), "1234567890");
    assert_eq!(decimal_string(usize::MAX), usize::MAX.to_string());
}

#[test]
fn error_messages() {
    assert_eq!(ToolError::BadArguments("x".into()).message(), "参数无法解析: x");
    assert_eq!(ToolError::InvalidArgs.message(), "参数不合法: 缺少字段或类型不符");
    assert_eq!(PatchError::Parse { line: 12, msg: "m".into() }.message(), "[行 12] 解析错误: m");
    assert_eq!(PatchError::TooManyFiles { n: 7, max: 5 }.message(), "改动文件数 7 超过上限 5");
    assert_eq!(
        PatchError::ContextNotFound { line: 3, path: "p".into(), context: "c".into() }.message(),
        "[行 3] Update File p: 未找到上下文匹配\n  期望:\nc"
    );
    assert_eq!(HookError::Cancelled.message(), "hook 被用户取消");
    let io = HookError::Io(std::io::Error::new(std::io::ErrorKind::Other, "disk"));
    assert_eq!(io.message(), "hook 底层进程错误: disk");
    assert_eq!(LlmError::Malformed("m".into()).message(), "响应格式无法解析: m");
    assert_eq!(LlmError::Network(mini_codex::probe::Error).message(), "网络错误: ");
}
