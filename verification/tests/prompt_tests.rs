use mini_codex::prompt::{apply_rules, default_rules, extract_text, Json};

#[test]
fn apply_rules_appends_each_rule() {
    let rules = default_rules();
    let out = apply_rules("你是一个 Rust 专家。", &rules);
    for r in &rules {
        assert!(out.contains(r.requirement));
        assert!(out.contains(r.refusal));
    }
}

#[test]
fn apply_rules_keeps_base_first() {
    let out = apply_rules("base", &default_rules());
    assert!(out.starts_with("base"));
}

#[test]
fn apply_rules_exact_text() {
    let rules = default_rules();
    let out = apply_rules("B", &rules[..1]);
    assert_eq!(out, "B\n- 用 chrono crate，不引入其他依赖。若无法满足，只输出「无法安全改进」，不要编造。");
    assert_eq!(apply_rules("B", &[]), "B");
}

fn s(text: &str) -> Json {
    Json::Str(text.to_string())
}

fn obj(fields: Vec<(&str, Json)>) -> Json {
    Json::Object(fields.into_iter().map(|(k, v)| (k.to_string(), v)).collect())
}

#[test]
fn extract_text_finds_first_output_text() {
    let response = obj(vec![(
        "output",
        Json::Array(vec![
            obj(vec![("type", s("reasoning"))]),
            obj(vec![
                ("type", s("message")),
                (
                    "content",
                    Json::Array(vec![
                        obj(vec![("type", s("refusal"))]),
                        obj(vec![("type", s("output_text")), ("text", s("答案"))]),
                    ]),
                ),
            ]),
        ]),
    )]);
    assert_eq!(extract_text(&response), Some("答案".to_string()));
}

#[test]
fn extract_text_gives_up_on_untyped_item() {
    let response = obj(vec![(
        "output",
        Json::Array(vec![
            obj(vec![("id", s("x"))]),
            obj(vec![
                ("type", s("message")),
                ("content", Json::Array(vec![obj(vec![("type", s("output_text")), ("text", s("t"))])])),
            ]),
        ]),
    )]);
    assert_eq!(extract_text(&response), None);
    assert_eq!(extract_text(&Json::Null), None);
}
