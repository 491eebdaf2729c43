//! The one-shot program: hard constraints folded into the system
//! prompt, and the answer text read out of a Responses API reply.

use vstd::prelude::*;

use crate::text::{push_str, string_of};

verus! {

/// A hard constraint the model must follow.
#[derive(Debug, Clone, Copy)]
pub struct SafetyRule {
    /// What is required, readable by people and by the model.
    pub requirement: &'static str,
    /// What the model must answer, verbatim, when it cannot comply.
    pub refusal: &'static str,
}

/// The prompt line a rule adds.
pub open spec fn rule_line(requirement: Seq<char>, refusal: Seq<char>) -> Seq<char> {
    "\n- "@ + requirement + "。若无法满足，只输出「"@ + refusal + "」，不要编造。"@
}

/// The base instructions followed by one line per rule, in order.
pub open spec fn prompt_with(base: Seq<char>, rules: Seq<SafetyRule>) -> Seq<char>
    decreases rules.len(),
{
    if rules.len() == 0 {
        base
    } else {
        prompt_with(base, rules.drop_last()) + rule_line(
            rules.last().requirement@,
            rules.last().refusal@,
        )
    }
}

/// Folds the rules into the base instructions: the system prompt.
pub fn apply_rules(base: &str, rules: &[SafetyRule]) -> (prompt: String)
    ensures
        prompt@ == prompt_with(base@, rules@),
{
    let mut prompt = string_of(base);
    let mut i: usize = 0;
    while i < rules.len()
        invariant
            i <= rules@.len(),
            prompt@ == prompt_with(base@, rules@.take(i as int)),
        decreases rules@.len() - i,
    {
        let rule = rules[i];
        push_str(&mut prompt, "\n- ");
        push_str(&mut prompt, rule.requirement);
        push_str(&mut prompt, "。若无法满足，只输出「");
        push_str(&mut prompt, rule.refusal);
        push_str(&mut prompt, "」，不要编造。");
        assert(rules@.take(i + 1).drop_last() == rules@.take(i as int));
        assert(rules@.take(i + 1).last() == rule);
        i = i + 1;
    }
    assert(rules@.take(rules@.len() as int) == rules@);
    prompt
}

/// The default rules: use chrono only, return `Err` instead of panicking,
/// output only code; each refused with `无法安全改进`.
pub fn default_rules() -> (rules: Vec<SafetyRule>)
    ensures
        rules@.len() == 3,
        rules@[0].requirement@ == "用 chrono crate，不引入其他依赖"@,
        rules@[1].requirement@ == "解析失败返回 Err，不得 panic"@,
        rules@[2].requirement@ == "只输出代码，不输出解释"@,
        forall|i: int| 0 <= i < 3 ==> #[trigger] rules@[i].refusal@ == "无法安全改进"@,
{
    let mut rules: Vec<SafetyRule> = Vec::new();
    rules.push(SafetyRule { requirement: "用 chrono crate，不引入其他依赖", refusal: "无法安全改进" });
    rules.push(SafetyRule { requirement: "解析失败返回 Err，不得 panic", refusal: "无法安全改进" });
    rules.push(SafetyRule { requirement: "只输出代码，不输出解释", refusal: "无法安全改进" });
    rules
}

/// A JSON document, as far as the reply's reader looks into it.
#[derive(Debug)]
pub enum Json {
    Null,
    Bool(bool),
    /// A number, as written.
    Number(String),
    Str(String),
    Array(Vec<Json>),
    /// An object's members, in order.
    Object(Vec<(String, Json)>),
}

/// The first member named `key` among `fields`.
pub open spec fn field_named(fields: Seq<(String, Json)>, key: Seq<char>) -> Option<Json>
    decreases fields.len(),
{
    if fields.len() == 0 {
        None
    } else if fields[0].0@ == key {
        Some(fields[0].1)
    } else {
        field_named(fields.drop_first(), key)
    }
}

/// `j` is an object whose members carry exactly these names, in this order.
pub open spec fn keys_are(j: Json, keys: Seq<Seq<char>>) -> bool {
    match j {
        Json::Object(fields) => fields@.len() == keys.len() && forall|i: int|
            0 <= i < keys.len() ==> (#[trigger] fields@[i]).0@ == keys[i],
        _ => false,
    }
}

/// The first member named `key` is the one at `i` when none before it has
/// that name.
pub(crate) proof fn lemma_field_named_at(fields: Seq<(String, Json)>, key: Seq<char>, i: int)
    requires
        0 <= i < fields.len(),
        fields[i].0@ == key,
        forall|k: int| 0 <= k < i ==> (#[trigger] fields[k]).0@ != key,
    ensures
        field_named(fields, key) == Some(fields[i].1),
    decreases i,
{
    if i > 0 {
        let rest = fields.drop_first();
        assert(fields[0].0@ != key);
        assert forall|k: int| 0 <= k < i - 1 implies (#[trigger] rest[k]).0@ != key by {
            assert(rest[k] == fields[k + 1]);
        }
        lemma_field_named_at(rest, key, i - 1);
    }
}

/// The member `key` of `j`, when `j` is an object that has one.
pub open spec fn member(j: Json, key: Seq<char>) -> Option<Json> {
    match j {
        Json::Object(fields) => field_named(fields@, key),
        _ => None,
    }
}

/// The member `key` of `j`, when it is a string.
pub open spec fn str_member(j: Json, key: Seq<char>) -> Option<Seq<char>> {
    match member(j, key) {
        Some(Json::Str(s)) => Some(s@),
        _ => None,
    }
}

/// The member `key` of `j`, when it is an array.
pub open spec fn array_member(j: Json, key: Seq<char>) -> Option<Seq<Json>> {
    match member(j, key) {
        Some(Json::Array(v)) => Some(v@),
        _ => None,
    }
}

/// Reading the content parts of a message in order: `Some(answer)` once the
/// reading is decided (a part without a string `type` decides `None`; an
/// `output_text` part decides its `text`), `None` if no part decides.
pub open spec fn scan_parts(parts: Seq<Json>) -> Option<Option<Seq<char>>>
    decreases parts.len(),
{
    if parts.len() == 0 {
        None
    } else {
        match str_member(parts[0], "type"@) {
            None => Some(None),
            Some(t) => if t == "output_text"@ {
                Some(str_member(parts[0], "text"@))
            } else {
                scan_parts(parts.drop_first())
            },
        }
    }
}

/// Reading the output items in order: items that are not messages are passed
/// over, an item without a string `type` or a message without a `content`
/// array decides `None`, and a message whose parts decide decides.
pub open spec fn scan_items(items: Seq<Json>) -> Option<Option<Seq<char>>>
    decreases items.len(),
{
    if items.len() == 0 {
        None
    } else {
        match str_member(items[0], "type"@) {
            None => Some(None),
            Some(t) => if t != "message"@ {
                scan_items(items.drop_first())
            } else {
                match array_member(items[0], "content"@) {
                    None => Some(None),
                    Some(parts) => match scan_parts(parts) {
                        Some(d) => Some(d),
                        None => scan_items(items.drop_first()),
                    },
                }
            },
        }
    }
}

/// The assistant's text in a Responses API reply: the `text` of the first
/// `output_text` part of the first message that has one.
pub open spec fn response_text(response: Json) -> Option<Seq<char>> {
    match array_member(response, "output"@) {
        None => None,
        Some(items) => match scan_items(items) {
            Some(d) => d,
            None => None,
        },
    }
}

/// The member `key` of `j`, if `j` is an object that has one.
fn get_member<'a>(j: &'a Json, key: &str) -> (r: Option<&'a Json>)
    ensures
        match r {
            Some(v) => member(*j, key@) == Some(*v),
            None => member(*j, key@) is None,
        },
{
    match j {
        Json::Object(fields) => {
            let k = string_of(key);
            let mut i: usize = 0;
            assert(fields@.skip(0) == fields@);
            while i < fields.len()
                invariant
                    i <= fields@.len(),
                    k@ == key@,
                    member(*j, key@) == field_named(fields@, key@),
                    field_named(fields@, key@) == field_named(fields@.skip(i as int), key@),
                decreases fields@.len() - i,
            {
                assert(fields@.skip(i as int)[0] == fields@[i as int]);
                assert(fields@.skip(i as int).drop_first() == fields@.skip(i + 1));
                if fields[i].0 == k {
                    return Some(&fields[i].1);
                }
                i = i + 1;
            }
            None
        },
        _ => None,
    }
}

/// The member `key` of `j`, when it is a string.
fn get_str<'a>(j: &'a Json, key: &str) -> (r: Option<&'a String>)
    ensures
        match r {
            Some(s) => str_member(*j, key@) == Some(s@),
            None => str_member(*j, key@) is None,
        },
{
    match get_member(j, key) {
        Some(Json::Str(s)) => Some(s),
        _ => None,
    }
}

/// The member `key` of `j`, when it is an array.
fn get_array<'a>(j: &'a Json, key: &str) -> (r: Option<&'a Vec<Json>>)
    ensures
        match r {
            Some(v) => array_member(*j, key@) == Some(v@),
            None => array_member(*j, key@) is None,
        },
{
    match get_member(j, key) {
        Some(Json::Array(v)) => Some(v),
        _ => None,
    }
}

fn scan_message_parts(parts: &Vec<Json>) -> (r: Option<Option<String>>)
    ensures
        match r {
            None => scan_parts(parts@) is None,
            Some(None) => scan_parts(parts@) == Some(None::<Seq<char>>),
            Some(Some(s)) => scan_parts(parts@) == Some(Some(s@)),
        },
{
    let output_text = string_of("output_text");
    let mut i: usize = 0;
    assert(parts@.skip(0) == parts@);
    while i < parts.len()
        invariant
            i <= parts@.len(),
            output_text@ == "output_text"@,
            scan_parts(parts@) == scan_parts(parts@.skip(i as int)),
        decreases parts@.len() - i,
    {
        assert(parts@.skip(i as int)[0] == parts@[i as int]);
        assert(parts@.skip(i as int).drop_first() == parts@.skip(i + 1));
        match get_str(&parts[i], "type") {
            None => {
                return Some(None);
            },
            Some(t) => {
                if *t == output_text {
                    return Some(
                        match get_str(&parts[i], "text") {
                            Some(s) => Some(s.clone()),
                            None => None,
                        },
                    );
                }
            },
        }
        i = i + 1;
    }
    None
}

/// Reads the assistant's text out of a Responses API reply, if it has one.
pub fn extract_text(response: &Json) -> (r: Option<String>)
    ensures
        match r {
            Some(s) => response_text(*response) == Some(s@),
            None => response_text(*response) is None,
        },
{
    let items = match get_array(response, "output") {
        Some(v) => v,
        None => {
            return None;
        },
    };
    let message = string_of("message");
    let mut i: usize = 0;
    assert(items@.skip(0) == items@);
    while i < items.len()
        invariant
            i <= items@.len(),
            array_member(*response, "output"@) == Some(items@),
            message@ == "message"@,
            scan_items(items@) == scan_items(items@.skip(i as int)),
        decreases items@.len() - i,
    {
        assert(items@.skip(i as int)[0] == items@[i as int]);
        assert(items@.skip(i as int).drop_first() == items@.skip(i + 1));
        match get_str(&items[i], "type") {
            None => {
                return None;
            },
            Some(t) => {
                if *t == message {
                    match get_array(&items[i], "content") {
                        None => {
                            return None;
                        },
                        Some(parts) => {
                            match scan_message_parts(parts) {
                                Some(d) => {
                                    return d;
                                },
                                None => {},
                            }
                        },
                    }
                }
            },
        }
        i = i + 1;
    }
    None
}

} // verus!

verus! {

/// A reply without an `output` array has no answer.
pub proof fn lemma_no_output_no_answer(response: Json)
    requires
        array_member(response, "output"@) is None,
    ensures
        response_text(response) is None,
{
}


proof fn lemma_scan_parts_passes(parts: Seq<Json>, j: int)
    requires
        0 <= j <= parts.len(),
        forall|k: int|
            0 <= k < j ==> str_member(#[trigger] parts[k], "type"@) is Some && str_member(
                parts[k],
                "type"@,
            ) != Some("output_text"@),
    ensures
        scan_parts(parts) == scan_parts(parts.skip(j)),
    decreases j,
{
    if j > 0 {
        let rest = parts.drop_first();
        assert forall|k: int| 0 <= k < j - 1 implies str_member(#[trigger] rest[k], "type"@) is Some
            && str_member(rest[k], "type"@) != Some("output_text"@) by {
            assert(rest[k] == parts[k + 1]);
        }
        lemma_scan_parts_passes(rest, j - 1);
        assert(rest.skip(j - 1) =~= parts.skip(j));
        assert(str_member(parts[0], "type"@) is Some);
    } else {
        assert(parts.skip(0) =~= parts);
    }
}

proof fn lemma_scan_items_passes(items: Seq<Json>, i: int)
    requires
        0 <= i <= items.len(),
        forall|k: int|
            0 <= k < i ==> str_member(#[trigger] items[k], "type"@) is Some && str_member(
                items[k],
                "type"@,
            ) != Some("message"@),
    ensures
        scan_items(items) == scan_items(items.skip(i)),
    decreases i,
{
    if i > 0 {
        let rest = items.drop_first();
        assert forall|k: int| 0 <= k < i - 1 implies str_member(#[trigger] rest[k], "type"@) is Some
            && str_member(rest[k], "type"@) != Some("message"@) by {
            assert(rest[k] == items[k + 1]);
        }
        lemma_scan_items_passes(rest, i - 1);
        assert(rest.skip(i - 1) =~= items.skip(i));
        assert(str_member(items[0], "type"@) is Some);
    } else {
        assert(items.skip(0) =~= items);
    }
}

/// The answer is the text of the first `output_text` part of the first
/// message: output items of other types before that message are passed over,
/// and so are its content parts of other types before that part.
pub proof fn lemma_answer_is_first_output_text(response: Json, i: int, j: int, t: Seq<char>)
    requires
        array_member(response, "output"@) is Some,
        0 <= i < array_member(response, "output"@).unwrap().len(),
        forall|k: int|
            0 <= k < i ==> str_member(#[trigger] array_member(response, "output"@).unwrap()[k], "type"@)
                is Some && str_member(array_member(response, "output"@).unwrap()[k], "type"@)
                != Some("message"@),
        str_member(array_member(response, "output"@).unwrap()[i], "type"@) == Some("message"@),
        array_member(array_member(response, "output"@).unwrap()[i], "content"@) is Some,
        ({
            let parts = array_member(array_member(response, "output"@).unwrap()[i], "content"@).unwrap();
            &&& 0 <= j < parts.len()
            &&& forall|k: int|
                0 <= k < j ==> str_member(#[trigger] parts[k], "type"@) is Some && str_member(
                    parts[k],
                    "type"@,
                ) != Some("output_text"@)
            &&& str_member(parts[j], "type"@) == Some("output_text"@)
            &&& str_member(parts[j], "text"@) == Some(t)
        }),
    ensures
        response_text(response) == Some(t),
{
    let items = array_member(response, "output"@).unwrap();
    let parts = array_member(items[i], "content"@).unwrap();
    lemma_scan_items_passes(items, i);
    lemma_scan_parts_passes(parts, j);
    assert(parts.skip(j)[0] == parts[j]);
    assert(scan_parts(parts.skip(j)) == Some(Some(t)));
    assert(items.skip(i)[0] == items[i]);
    assert(scan_items(items.skip(i)) == Some(Some(t)));
}

} // verus!
