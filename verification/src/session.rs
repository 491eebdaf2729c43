//! The engine of a session, as a state machine.
//!
//! A session runs three nested loops: the submission loop (one operation at a
//! time), the turn (one user input until the model stops) and the tool loop
//! (the model asks for tools, their results go back into the history, the
//! model is asked again). Here they are one transition function from a state
//! and an input (an operation, a model reply or a tool result) to the next
//! state, the events to report and what to do next; the caller performs the
//! model and tool calls and hands their results back.

use vstd::prelude::*;

use crate::protocol::{
    events_view, messages_view, Event, EventView, Item, ItemView, Message, MessageView, Op, OpView, Role,
};
use crate::text::{
    chars_of, chars_of_str, copy_range, decimal, decimal_string, newline_pieces, push_str,
    split_at_newlines, string_from_range, string_of, string_push, trim, trim_bounds,
};
use crate::tools::{ToolOutput, ToolOutputView};

verus! {

/// A tool call waiting to be run.
#[derive(Debug, Clone)]
pub struct ToolCall {
    pub call_id: String,
    pub name: String,
    pub arguments: String,
}

pub struct ToolCallView {
    pub call_id: Seq<char>,
    pub name: Seq<char>,
    pub arguments: Seq<char>,
}

impl View for ToolCall {
    type V = ToolCallView;

    open spec fn view(&self) -> ToolCallView {
        ToolCallView { call_id: self.call_id@, name: self.name@, arguments: self.arguments@ }
    }
}

pub open spec fn calls_view(v: Seq<ToolCall>) -> Seq<ToolCallView> {
    v.map_values(|c: ToolCall| c@)
}

/// `[TOOL]`, which opens a tool-call line.
pub open spec fn tool_marker() -> Seq<char> {
    seq!['[', 'T', 'O', 'O', 'L', ']']
}

/// The characters that end a tool name.
pub open spec fn ends_name(c: char) -> bool {
    c == '(' || c == '{' || c == ' '
}

/// The index of the first character at or after `i` that ends a name, or the length.
pub open spec fn name_end_from(s: Seq<char>, i: int) -> int
    decreases s.len() - i,
{
    if i < 0 || i >= s.len() {
        s.len() as int
    } else if ends_name(s[i]) {
        i
    } else {
        name_end_from(s, i + 1)
    }
}

/// The index of the first `c` at or after `i`.
pub open spec fn find_from(s: Seq<char>, c: char, i: int) -> Option<int>
    decreases s.len() - i,
{
    if i < 0 || i >= s.len() {
        None
    } else if s[i] == c {
        Some(i)
    } else {
        find_from(s, c, i + 1)
    }
}

/// The index of the last `c` before `end`.
pub open spec fn rfind_before(s: Seq<char>, c: char, end: int) -> Option<int>
    decreases end,
{
    if end <= 0 || end > s.len() {
        None
    } else if s[end - 1] == c {
        Some(end - 1)
    } else {
        rfind_before(s, c, end - 1)
    }
}

/// `{}`, the arguments of a call that gives none.
pub open spec fn empty_object() -> Seq<char> {
    seq!['{', '}']
}

/// The arguments of a call: from the first `{` to the last `}`, if that is a span.
pub open spec fn call_arguments(rest: Seq<char>) -> Seq<char> {
    match (find_from(rest, '{', 0), rfind_before(rest, '}', rest.len() as int)) {
        (Some(o), Some(c)) => if c > o {
            rest.subrange(o, c + 1)
        } else {
            empty_object()
        },
        _ => empty_object(),
    }
}

/// `call_<n>`, the id of the `n`th call of a turn.
pub open spec fn call_id_text(n: nat) -> Seq<char> {
    seq!['c', 'a', 'l', 'l', '_'] + decimal(n)
}

/// The call that one line of a reply asks for, if any: a trimmed line
/// `[TOOL] name(json)`, where the name runs up to `(`, `{` or a space.
pub open spec fn line_call(line: Seq<char>, n: nat) -> Option<ToolCallView> {
    let t = trim(line);
    if t.len() >= 6 && t.take(6) == tool_marker() {
        let rest = trim(t.skip(6));
        let name = rest.take(name_end_from(rest, 0));
        if name.len() == 0 {
            None
        } else {
            Some(ToolCallView { call_id: call_id_text(n), name, arguments: call_arguments(rest) })
        }
    } else {
        None
    }
}

/// The calls that a sequence of lines asks for, numbered from `base`.
pub open spec fn calls_of_lines(lines: Seq<Seq<char>>, base: nat) -> Seq<ToolCallView>
    decreases lines.len(),
{
    if lines.len() == 0 {
        seq![]
    } else {
        let prev = calls_of_lines(lines.drop_last(), base);
        match line_call(lines.last(), base + prev.len()) {
            Some(c) => prev.push(c),
            None => prev,
        }
    }
}

/// The tool calls of a reply: one per `[TOOL]` line, numbered from `base`.
pub open spec fn tool_calls(reply: Seq<char>, base: nat) -> Seq<ToolCallView> {
    calls_of_lines(newline_pieces(reply), base)
}

proof fn lemma_calls_len(lines: Seq<Seq<char>>, base: nat)
    ensures
        calls_of_lines(lines, base).len() <= lines.len(),
    decreases lines.len(),
{
    if lines.len() > 0 {
        lemma_calls_len(lines.drop_last(), base);
    }
}

proof fn lemma_pieces_len(s: Seq<char>)
    ensures
        split_at_newlines(s).0.len() <= s.len(),
    decreases s.len(),
{
    if s.len() > 0 {
        lemma_pieces_len(s.drop_last());
    }
}

/// The tool call that one line asks for, if any.
fn parse_line_call(line: &Vec<char>, n: usize) -> (r: Option<ToolCall>)
    ensures
        match r {
            Some(c) => line_call(line@, n as nat) == Some(c@),
            None => line_call(line@, n as nat) is None,
        },
{
    let (a, b) = trim_bounds(line);
    let t = copy_range(line, a, b);
    if !(t.len() >= 6 && t[0] == '[' && t[1] == 'T' && t[2] == 'O' && t[3] == 'O' && t[4] == 'L'
        && t[5] == ']') {
        proof {
            if t@.len() >= 6 && t@.take(6) == tool_marker() {
                assert(t@.take(6)[0] == t@[0] && t@.take(6)[1] == t@[1] && t@.take(6)[2] == t@[2]
                    && t@.take(6)[3] == t@[3] && t@.take(6)[4] == t@[4] && t@.take(6)[5]
                    == t@[5]);
            }
        }
        return None;
    }
    assert(t@.take(6) =~= tool_marker());
    let raw_rest = copy_range(&t, 6, t.len());
    assert(raw_rest@ == t@.skip(6));
    let (a2, b2) = trim_bounds(&raw_rest);
    let rest = copy_range(&raw_rest, a2, b2);
    let n_rest = rest.len();
    let mut e: usize = 0;
    while e < n_rest && !(rest[e] == '(' || rest[e] == '{' || rest[e] == ' ')
        invariant
            e <= n_rest == rest@.len(),
            name_end_from(rest@, 0) == name_end_from(rest@, e as int),
        decreases n_rest - e,
    {
        e = e + 1;
    }
    if e == 0 {
        return None;
    }
    let name = string_from_range(&rest, 0, e);
    let mut o: usize = 0;
    while o < n_rest && rest[o] != '{'
        invariant
            o <= n_rest == rest@.len(),
            find_from(rest@, '{', 0) == find_from(rest@, '{', o as int),
        decreases n_rest - o,
    {
        o = o + 1;
    }
    let mut c: usize = n_rest;
    while c > 0 && rest[c - 1] != '}'
        invariant
            c <= n_rest == rest@.len(),
            rfind_before(rest@, '}', n_rest as int) == rfind_before(rest@, '}', c as int),
        decreases c,
    {
        c = c - 1;
    }
    let arguments = if o < n_rest && c > 0 && c - 1 > o {
        string_from_range(&rest, o, c)
    } else {
        let mut s = String::new();
        string_push(&mut s, '{');
        string_push(&mut s, '}');
        assert(s@ =~= empty_object());
        s
    };
    let mut call_id = String::new();
    string_push(&mut call_id, 'c');
    string_push(&mut call_id, 'a');
    string_push(&mut call_id, 'l');
    string_push(&mut call_id, 'l');
    string_push(&mut call_id, '_');
    let digits = decimal_string(n);
    let digit_chars = chars_of(&digits);
    let ghost prefix = call_id@;
    let mut i: usize = 0;
    while i < digit_chars.len()
        invariant
            i <= digit_chars@.len(),
            digit_chars@ == decimal(n as nat),
            call_id@ == prefix + digit_chars@.take(i as int),
        decreases digit_chars@.len() - i,
    {
        string_push(&mut call_id, digit_chars[i]);
        assert(digit_chars@.take(i + 1) == digit_chars@.take(i as int).push(digit_chars@[i as int]));
        i = i + 1;
    }
    assert(digit_chars@.take(digit_chars@.len() as int) == digit_chars@);
    assert(call_id@ =~= call_id_text(n as nat));
    Some(ToolCall { call_id, name, arguments })
}

proof fn lemma_calls_numbered(lines: Seq<Seq<char>>, base: nat)
    ensures
        forall|k: int|
            0 <= k < calls_of_lines(lines, base).len() ==> #[trigger] calls_of_lines(
                lines,
                base,
            )[k].call_id == call_id_text((base + k) as nat),
    decreases lines.len(),
{
    if lines.len() > 0 {
        lemma_calls_numbered(lines.drop_last(), base);
        let prev = calls_of_lines(lines.drop_last(), base);
        let all = calls_of_lines(lines, base);
        assert forall|k: int| 0 <= k < all.len() implies #[trigger] all[k].call_id == call_id_text(
            (base + k) as nat,
        ) by {
            if k < prev.len() {
                assert(all[k] == prev[k]);
            } else {
                assert(k == prev.len());
            }
        }
    }
}

/// The calls of a reply are numbered consecutively from `base`, in order.
pub proof fn lemma_call_ids_consecutive(reply: Seq<char>, base: nat, k: int)
    requires
        0 <= k < tool_calls(reply, base).len(),
    ensures
        tool_calls(reply, base)[k].call_id == call_id_text((base + k) as nat),
{
    lemma_calls_numbered(newline_pieces(reply), base);
}

proof fn lemma_find_first(s: Seq<char>, c: char, i: int, o: int)
    requires
        0 <= i <= o < s.len(),
        s[o] == c,
        forall|k: int| i <= k < o ==> s[k] != c,
    ensures
        find_from(s, c, i) == Some(o),
    decreases o - i,
{
    if i < o {
        lemma_find_first(s, c, i + 1, o);
    }
}

proof fn lemma_rfind_last(s: Seq<char>, c: char, end: int, at: int)
    requires
        0 <= at < end <= s.len(),
        s[at] == c,
        forall|k: int| at < k < end ==> s[k] != c,
    ensures
        rfind_before(s, c, end) == Some(at),
    decreases end - at,
{
    if at < end - 1 {
        lemma_rfind_last(s, c, end - 1, at);
    }
}

/// The arguments of a tool call are the span of the rest of its line from
/// the first `{` to the last `}`, both included, when the first comes before
/// the last.
pub proof fn lemma_arguments_first_open_to_last_close(line: Seq<char>, n: nat, o: int, c: int)
    requires
        line_call(line, n) is Some,
        ({
            let rest = trim(trim(line).skip(6));
            &&& 0 <= o < c < rest.len()
            &&& rest[o] == '{'
            &&& rest[c] == '}'
            &&& forall|k: int| 0 <= k < o ==> rest[k] != '{'
            &&& forall|k: int| c < k < rest.len() ==> rest[k] != '}'
        }),
    ensures
        line_call(line, n).unwrap().arguments == trim(trim(line).skip(6)).subrange(o, c + 1),
{
    let rest = trim(trim(line).skip(6));
    lemma_find_first(rest, '{', 0, o);
    lemma_rfind_last(rest, '}', rest.len() as int, c);
}

proof fn lemma_find_some(s: Seq<char>, c: char, i: int)
    requires
        0 <= i,
    ensures
        find_from(s, c, i) matches Some(o) ==> i <= o < s.len() && s[o] == c,
        find_from(s, c, i) is None ==> forall|k: int| i <= k < s.len() ==> s[k] != c,
    decreases s.len() - i,
{
    if i < s.len() && s[i] != c {
        lemma_find_some(s, c, i + 1);
    }
}

proof fn lemma_rfind_some(s: Seq<char>, c: char, end: int)
    requires
        end <= s.len(),
    ensures
        rfind_before(s, c, end) matches Some(k) ==> 0 <= k < end && s[k] == c,
        rfind_before(s, c, end) is None ==> forall|k: int| 0 <= k < end ==> s[k] != c,
    decreases end,
{
    if end > 0 && s[end - 1] != c {
        lemma_rfind_some(s, c, end - 1);
    }
}

proof fn lemma_name_end(s: Seq<char>, i: int)
    requires
        0 <= i <= s.len(),
        forall|k: int| 0 <= k < i ==> !ends_name(s[k]),
    ensures
        i <= name_end_from(s, i) <= s.len(),
        forall|k: int| 0 <= k < name_end_from(s, i) ==> !ends_name(#[trigger] s[k]),
        name_end_from(s, i) < s.len() ==> ends_name(s[name_end_from(s, i)]),
    decreases s.len() - i,
{
    if i < s.len() && !ends_name(s[i]) {
        lemma_name_end(s, i + 1);
    }
}

/// What a tool-call line gives: a line is a call exactly when, trimmed, it
/// opens with `[TOOL]` and the rest, trimmed, starts with a name; the name
/// runs up to the first `(`, `{` or space; the id is `call_<n>`; and with no
/// `{` before a `}` the arguments are `{}`.
pub proof fn lemma_line_call_shape(line: Seq<char>, n: nat)
    ensures
        ({
            let t = trim(line);
            let rest = trim(t.skip(6));
            &&& line_call(line, n) is Some <==> (t.len() >= 6 && t.take(6) == tool_marker()
                && rest.len() > 0 && !ends_name(rest[0]))
            &&& line_call(line, n) matches Some(c) ==> {
                &&& c.call_id == call_id_text(n)
                &&& 0 < c.name.len() <= rest.len()
                &&& c.name == rest.take(c.name.len() as int)
                &&& forall|k: int| 0 <= k < c.name.len() ==> !ends_name(#[trigger] rest[k])
                &&& c.name.len() < rest.len() ==> ends_name(rest[c.name.len() as int])
                &&& (forall|o: int, k: int|
                    0 <= o < k < rest.len() ==> !(rest[o] == '{' && rest[k] == '}'))
                    ==> c.arguments == empty_object()
            }
        }),
{
    let t = trim(line);
    let rest = trim(t.skip(6));
    lemma_name_end(rest, 0);
    if rest.len() > 0 && !ends_name(rest[0]) {
        assert(name_end_from(rest, 0) > 0) by {
            if name_end_from(rest, 0) == 0 {
                assert(ends_name(rest[0]));
            }
        }
    }
    if rest.len() > 0 && ends_name(rest[0]) {
        assert(name_end_from(rest, 0) == 0);
    }
    lemma_find_some(rest, '{', 0);
    lemma_rfind_some(rest, '}', rest.len() as int);
}

proof fn lemma_calls_of_lines_append(a: Seq<Seq<char>>, b: Seq<Seq<char>>, base: nat)
    ensures
        calls_of_lines(a + b, base) == calls_of_lines(a, base) + calls_of_lines(
            b,
            base + calls_of_lines(a, base).len(),
        ),
    decreases b.len(),
{
    let ca = calls_of_lines(a, base);
    let nb = base + ca.len();
    if b.len() == 0 {
        assert(a + b =~= a);
        assert(ca + calls_of_lines(b, nb) =~= ca);
    } else {
        lemma_calls_of_lines_append(a, b.drop_last(), base);
        assert((a + b).drop_last() =~= a + b.drop_last());
        assert((a + b).last() == b.last());
        let prev = calls_of_lines(b.drop_last(), nb);
        assert(calls_of_lines(a + b.drop_last(), base).len() == ca.len() + prev.len());
        match line_call(b.last(), nb + prev.len()) {
            Some(c) => {
                assert(ca + prev.push(c) =~= (ca + prev).push(c));
            },
            None => {},
        }
    }
}

proof fn lemma_split_after_newline(x: Seq<char>, y: Seq<char>)
    ensures
        split_at_newlines(x + seq!['\n'] + y) == (
            newline_pieces(x) + split_at_newlines(y).0,
            split_at_newlines(y).1,
        ),
    decreases y.len(),
{
    let p = x + seq!['\n'];
    if y.len() == 0 {
        assert(p + y =~= p);
        assert(p.drop_last() =~= x);
        assert(newline_pieces(x) + Seq::<Seq<char>>::empty() =~= newline_pieces(x));
    } else {
        lemma_split_after_newline(x, y.drop_last());
        assert((p + y).drop_last() =~= p + y.drop_last());
        assert((p + y).last() == y.last());
        let d = split_at_newlines(y.drop_last()).0;
        let c = split_at_newlines(y.drop_last()).1;
        if y.last() == '\n' {
            assert((newline_pieces(x) + d).push(c) =~= newline_pieces(x) + d.push(c));
        }
    }
}

proof fn lemma_split_plain(l: Seq<char>)
    requires
        forall|i: int| 0 <= i < l.len() ==> l[i] != '\n',
    ensures
        split_at_newlines(l) == (Seq::<Seq<char>>::empty(), l),
    decreases l.len(),
{
    if l.len() > 0 {
        lemma_split_plain(l.drop_last());
        assert(l.drop_last().push(l.last()) =~= l);
    }
}

/// A reply is read line by line: the calls of two pieces of text joined by a
/// line break are the calls of the first, then those of the second numbered
/// on from where the first stopped; and a single line asks for the call it
/// names, if any, and nothing else.
pub proof fn lemma_tool_calls_by_line(x: Seq<char>, y: Seq<char>, base: nat)
    ensures
        tool_calls(x + seq!['\n'] + y, base) == tool_calls(x, base) + tool_calls(
            y,
            base + tool_calls(x, base).len(),
        ),
        (forall|i: int| 0 <= i < x.len() ==> x[i] != '\n') ==> tool_calls(x, base) == match line_call(
            x,
            base,
        ) {
            Some(c) => seq![c],
            None => Seq::<ToolCallView>::empty(),
        },
{
    lemma_split_after_newline(x, y);
    let (d, c) = split_at_newlines(y);
    assert(newline_pieces(x + seq!['\n'] + y) =~= newline_pieces(x) + newline_pieces(y));
    lemma_calls_of_lines_append(newline_pieces(x), newline_pieces(y), base);
    if forall|i: int| 0 <= i < x.len() ==> x[i] != '\n' {
        lemma_split_plain(x);
        let one = newline_pieces(x);
        assert(one =~= seq![x]);
        assert(one.drop_last() =~= Seq::<Seq<char>>::empty());
        assert(calls_of_lines(one.drop_last(), base) == Seq::<ToolCallView>::empty());
        match line_call(x, base) {
            Some(cl) => {
                assert(Seq::<ToolCallView>::empty().push(cl) =~= seq![cl]);
            },
            None => {},
        }
    }
}

/// The tool calls a model reply asks for, numbered from `seq_base`.
///
/// The text protocol: one call per line, `[TOOL] name(json arguments)`.
pub fn parse_tool_calls(reply: &str, seq_base: usize) -> (calls: Vec<ToolCall>)
    requires
        seq_base + reply@.len() < usize::MAX,
    ensures
        calls_view(calls@) == tool_calls(reply@, seq_base as nat),
{
    let chars = chars_of_str(reply);
    let n = chars.len();
    let mut calls: Vec<ToolCall> = Vec::new();
    let mut line: Vec<char> = Vec::new();
    let mut i: usize = 0;
    while i < n
        invariant
            i <= n == chars@.len() == reply@.len(),
            seq_base + reply@.len() < usize::MAX,
            split_at_newlines(chars@.take(i as int)).1 == line@,
            calls_view(calls@) == calls_of_lines(split_at_newlines(chars@.take(i as int)).0, seq_base as nat),
        decreases n - i,
    {
        let c = chars[i];
        assert(chars@.take(i + 1).drop_last() == chars@.take(i as int));
        if c == '\n' {
            proof {
                lemma_pieces_len(chars@.take(i as int));
                lemma_calls_len(split_at_newlines(chars@.take(i as int)).0, seq_base as nat);
            }
            let ghost lines = split_at_newlines(chars@.take(i as int)).0.push(line@);
            assert(lines.drop_last() == split_at_newlines(chars@.take(i as int)).0);
            let ghost prev_calls = calls@;
            match parse_line_call(&line, seq_base + calls.len()) {
                Some(call) => {
                    let ghost cv = call@;
                    calls.push(call);
                    assert(calls_view(calls@) =~= calls_view(prev_calls).push(cv));
                },
                None => {},
            }
            line = Vec::new();
        } else {
            line.push(c);
        }
        i = i + 1;
    }
    assert(chars@.take(n as int) == chars@);
    proof {
        lemma_pieces_len(chars@);
        lemma_calls_len(split_at_newlines(chars@).0, seq_base as nat);
    }
    let ghost lines = newline_pieces(chars@);
    assert(lines.drop_last() == split_at_newlines(chars@).0);
    let ghost prev_calls = calls@;
    match parse_line_call(&line, seq_base + calls.len()) {
        Some(call) => {
            let ghost cv = call@;
            calls.push(call);
            assert(calls_view(calls@) =~= calls_view(prev_calls).push(cv));
        },
        None => {},
    }
    calls
}


impl ToolCall {
    /// A copy of this call.
    pub fn duplicate(&self) -> (c: ToolCall)
        ensures
            c@ == self@,
    {
        ToolCall {
            call_id: self.call_id.clone(),
            name: self.name.clone(),
            arguments: self.arguments.clone(),
        }
    }
}

/// The text of an item as `Debug` writes it.
pub uninterp spec fn debug_text(item: ItemView) -> Seq<char>;

/// `format!("{:?}", item)`: the text that the derived `Debug` impl writes for an
/// item. Only that it depends on the item alone is stated, not its layout.
#[verifier::external_body]
fn item_debug_text(item: &Item) -> (s: String)
    ensures
        s@ == debug_text(item@),
{
    format!("{:?}", item)
}

/// The history text of a tool result: `[工具结果] <id> (成功|错误)` and the output
/// on the next line.
pub open spec fn tool_result_text(call_id: Seq<char>, output: Seq<char>, is_error: bool) -> Seq<
    char,
> {
    "[工具结果] "@ + call_id + " "@ + (if is_error {
        "(错误)"@
    } else {
        "(成功)"@
    }) + "\n"@ + output
}

/// The message an item becomes in the history.
pub open spec fn item_message(item: ItemView) -> MessageView {
    match item {
        ItemView::ToolResult { call_id, output, is_error } => MessageView {
            role: Role::User,
            content: tool_result_text(call_id, output, is_error),
        },
        ItemView::UserInput { text } => MessageView { role: Role::User, content: text },
        ItemView::ThreadMessage { message } => message,
        _ => MessageView { role: Role::Assistant, content: debug_text(item) },
    }
}

/// Turns an item into a message for the history (how tool results are fed back).
pub fn item_to_message(item: &Item) -> (m: Message)
    ensures
        m@ == item_message(item@),
{
    match item {
        Item::ToolResult { call_id, output, is_error } => {
            let mut content = string_of("[工具结果] ");
            push_str(&mut content, call_id.as_str());
            push_str(&mut content, " ");
            if *is_error {
                push_str(&mut content, "(错误)");
            } else {
                push_str(&mut content, "(成功)");
            }
            push_str(&mut content, "\n");
            push_str(&mut content, output.as_str());
            Message { role: Role::User, content }
        },
        Item::UserInput { text } => Message { role: Role::User, content: text.clone() },
        Item::ThreadMessage { message } => message.duplicate(),
        _ => Message { role: Role::Assistant, content: item_debug_text(item) },
    }
}

/// The content of the last assistant message, or empty if there is none.
pub open spec fn last_assistant_text(history: Seq<MessageView>) -> Seq<char>
    decreases history.len(),
{
    if history.len() == 0 {
        seq![]
    } else if history.last().role == Role::Assistant {
        history.last().content
    } else {
        last_assistant_text(history.drop_last())
    }
}

/// The last thing the assistant said: the full answer of a turn.
pub fn last_text(history: &Vec<Message>) -> (text: String)
    ensures
        text@ == last_assistant_text(messages_view(history@)),
{
    let mut i = history.len();
    assert(history@.take(i as int) == history@);
    while i > 0
        invariant
            i <= history@.len(),
            last_assistant_text(messages_view(history@)) == last_assistant_text(
                messages_view(history@.take(i as int)),
            ),
        decreases i,
    {
        let ghost h = messages_view(history@.take(i as int));
        assert(h.last() == history@[i - 1]@);
        assert(h.drop_last() == messages_view(history@.take(i - 1)));
        if history[i - 1].role == Role::Assistant {
            return history[i - 1].content.clone();
        }
        i = i - 1;
    }
    String::new()
}


/// The line a user types to end the session.
pub open spec fn quit_command() -> Seq<char> {
    seq!['/', 'q', 'u', 'i', 't']
}

/// The operation for one line of user input: the quit command, with any
/// surrounding whitespace, closes the session; any other line is sent as it
/// is.
pub fn op_for_line(line: String) -> (op: Op)
    ensures
        op@ == if trim(line@) == quit_command() {
            OpView::Shutdown
        } else {
            OpView::UserInput { text: line@ }
        },
{
    let chars = chars_of(&line);
    let (a, b) = trim_bounds(&chars);
    let ghost t = chars@.subrange(a as int, b as int);
    if b - a == 5 && chars[a] == '/' && chars[a + 1] == 'q' && chars[a + 2] == 'u' && chars[a
        + 3] == 'i' && chars[a + 4] == 't' {
        assert(t =~= quit_command());
        assert(trim(line@) == t);
        Op::Shutdown
    } else {
        proof {
            if t == quit_command() {
                assert(t.len() == b - a);
                assert(t[0] == chars@[a as int] && t[1] == chars@[a + 1] && t[2] == chars@[a + 2]
                    && t[3] == chars@[a + 3] && t[4] == chars@[a + 4]);
            }
        }
        Op::UserInput { text: line }
    }
}

/// Where a session stands.
#[derive(Debug, Clone, Copy, PartialEq, Eq, Structural)]
pub enum Phase {
    /// Waiting for the next operation.
    Idle,
    /// A turn is waiting for the model's reply.
    AwaitingReply,
    /// A turn is running the tool calls of the last reply, one at a time.
    RunningTools,
    /// The session is over.
    Stopped,
}

/// What the caller hands the session.
pub enum SessionInput {
    /// An operation from the client.
    Op(Op),
    /// Every client is gone: the operation channel closed.
    Closed,
    /// The model's reply, or the text of the error that stopped it.
    Reply(Result<String, String>),
    /// The output of the tool call that was asked for.
    ToolDone(ToolOutput),
}

pub enum SessionInputView {
    Op(OpView),
    Closed,
    Reply(Result<Seq<char>, Seq<char>>),
    ToolDone(ToolOutputView),
}

impl View for SessionInput {
    type V = SessionInputView;

    open spec fn view(&self) -> SessionInputView {
        match self {
            SessionInput::Op(op) => SessionInputView::Op(op@),
            SessionInput::Closed => SessionInputView::Closed,
            SessionInput::Reply(Ok(r)) => SessionInputView::Reply(Ok(r@)),
            SessionInput::Reply(Err(e)) => SessionInputView::Reply(Err(e@)),
            SessionInput::ToolDone(o) => SessionInputView::ToolDone(o@),
        }
    }
}

/// What the caller must do next.
pub enum Next {
    /// Wait for the next operation.
    AwaitOp,
    /// Ask the model, giving it the history.
    CallModel,
    /// Run this tool call.
    RunTool(ToolCall),
    /// Stop the session.
    Stop,
}

pub enum NextView {
    AwaitOp,
    CallModel,
    RunTool(ToolCallView),
    Stop,
}

impl View for Next {
    type V = NextView;

    open spec fn view(&self) -> NextView {
        match self {
            Next::AwaitOp => NextView::AwaitOp,
            Next::CallModel => NextView::CallModel,
            Next::RunTool(c) => NextView::RunTool(c@),
            Next::Stop => NextView::Stop,
        }
    }
}

/// The default bound on model calls in one turn.
pub const DEFAULT_MAX_TOOL_ROUNDS: usize = 25;

/// The state of a session: the history, the turn counter and where the
/// current turn stands.
pub struct SessionCore {
    history: Vec<Message>,
    turn: usize,
    max_tool_rounds: usize,
    cancelled: bool,
    phase: Phase,
    round: usize,
    call_seq: usize,
    calls: Vec<ToolCall>,
    next_call: usize,
}

pub struct SessionView {
    /// Every message of the conversation, in order.
    pub history: Seq<MessageView>,
    /// The number of the last turn begun (turns count from 1).
    pub turn: int,
    /// The bound on model calls in one turn.
    pub max_tool_rounds: int,
    /// Whether an interrupt was received.
    pub cancelled: bool,
    pub phase: Phase,
    /// Model calls so far in the current turn, less one.
    pub round: int,
    /// Tool calls numbered so far in the current turn.
    pub call_seq: int,
    /// The tool calls of the last reply.
    pub calls: Seq<ToolCallView>,
    /// The one of them that runs now.
    pub next_call: int,
}

impl View for SessionCore {
    type V = SessionView;

    closed spec fn view(&self) -> SessionView {
        SessionView {
            history: messages_view(self.history@),
            turn: self.turn as int,
            max_tool_rounds: self.max_tool_rounds as int,
            cancelled: self.cancelled,
            phase: self.phase,
            round: self.round as int,
            call_seq: self.call_seq as int,
            calls: calls_view(self.calls@),
            next_call: self.next_call as int,
        }
    }
}

/// The note added to the history when a turn hits the bound on tool rounds.
pub open spec fn limit_notice() -> Seq<char> {
    "工具循环达到上限，本轮提前停止。"@
}

pub open spec fn record_event(turn: int, c: ToolCallView) -> EventView {
    EventView::ToolCallRecord { turn, call_id: c.call_id, name: c.name }
}

pub open spec fn complete_event(turn: int, history: Seq<MessageView>) -> EventView {
    EventView::TurnComplete { turn, text: last_assistant_text(history) }
}

/// The states a session can be in: a turn waiting on the model has rounds
/// left, and one running tools points at one of its calls.
pub open spec fn session_wf(s: SessionView) -> bool {
    &&& 0 <= s.round
    &&& 0 <= s.turn
    &&& 0 <= s.call_seq
    &&& 0 <= s.max_tool_rounds
    &&& (s.phase == Phase::AwaitingReply ==> s.round < s.max_tool_rounds)
    &&& (s.phase == Phase::RunningTools ==> s.round < s.max_tool_rounds && 0 <= s.next_call
        < s.calls.len())
}

/// One step of a session: the state after `input`, the events to report, in
/// order, and what to do next. An input that the current phase does not wait
/// for changes nothing.
pub open spec fn step_result(s: SessionView, input: SessionInputView) -> (
    SessionView,
    Seq<EventView>,
    NextView,
) {
    match s.phase {
        Phase::Idle => match input {
            SessionInputView::Op(OpView::UserInput { text }) => {
                let turn = s.turn + 1;
                let h = s.history.push(MessageView { role: Role::User, content: text });
                if s.max_tool_rounds > 0 {
                    (
                        SessionView {
                            history: h,
                            turn,
                            phase: Phase::AwaitingReply,
                            round: 0,
                            call_seq: 0,
                            calls: seq![],
                            next_call: 0,
                            ..s
                        },
                        seq![EventView::TurnBegin { turn }],
                        NextView::CallModel,
                    )
                } else {
                    (
                        SessionView { history: h, turn, ..s },
                        seq![EventView::TurnBegin { turn }, complete_event(turn, h)],
                        NextView::AwaitOp,
                    )
                }
            },
            SessionInputView::Op(OpView::Interrupt) => (
                SessionView { cancelled: true, ..s },
                seq![],
                NextView::AwaitOp,
            ),
            SessionInputView::Op(OpView::Shutdown) => (
                SessionView { phase: Phase::Stopped, ..s },
                seq![EventView::Shutdown],
                NextView::Stop,
            ),
            SessionInputView::Closed => (
                SessionView { phase: Phase::Stopped, ..s },
                seq![],
                NextView::Stop,
            ),
            _ => (s, seq![], NextView::AwaitOp),
        },
        Phase::AwaitingReply => match input {
            SessionInputView::Reply(Err(m)) => (
                SessionView { phase: Phase::Idle, ..s },
                seq![EventView::Error(m), complete_event(s.turn, s.history)],
                NextView::AwaitOp,
            ),
            SessionInputView::Reply(Ok(r)) => {
                let h = s.history.push(MessageView { role: Role::Assistant, content: r });
                let calls = tool_calls(r, s.call_seq as nat);
                let cs = s.call_seq + calls.len();
                if calls.len() == 0 {
                    (
                        SessionView { history: h, call_seq: cs, phase: Phase::Idle, ..s },
                        seq![complete_event(s.turn, h)],
                        NextView::AwaitOp,
                    )
                } else {
                    (
                        SessionView {
                            history: h,
                            call_seq: cs,
                            phase: Phase::RunningTools,
                            calls,
                            next_call: 0,
                            ..s
                        },
                        seq![record_event(s.turn, calls[0])],
                        NextView::RunTool(calls[0]),
                    )
                }
            },
            _ => (s, seq![], NextView::CallModel),
        },
        Phase::RunningTools => match input {
            SessionInputView::ToolDone(o) => {
                let c = s.calls[s.next_call];
                let h = s.history.push(
                    item_message(
                        ItemView::ToolResult {
                            call_id: c.call_id,
                            output: o.output,
                            is_error: o.is_error,
                        },
                    ),
                );
                let k = s.next_call + 1;
                if k < s.calls.len() {
                    (
                        SessionView { history: h, next_call: k, ..s },
                        seq![record_event(s.turn, s.calls[k])],
                        NextView::RunTool(s.calls[k]),
                    )
                } else if s.round + 1 >= s.max_tool_rounds {
                    let h2 = h.push(MessageView { role: Role::Assistant, content: limit_notice() });
                    (
                        SessionView { history: h2, phase: Phase::Idle, next_call: k, ..s },
                        seq![complete_event(s.turn, h2)],
                        NextView::AwaitOp,
                    )
                } else {
                    (
                        SessionView {
                            history: h,
                            phase: Phase::AwaitingReply,
                            round: s.round + 1,
                            next_call: k,
                            ..s
                        },
                        seq![],
                        NextView::CallModel,
                    )
                }
            },
            _ => (s, seq![], NextView::RunTool(s.calls[s.next_call])),
        },
        Phase::Stopped => (s, seq![], NextView::Stop),
    }
}

/// The inputs on which a step stays within the machine's integers: a new
/// turn needs a free turn number, and a reply's calls need free call numbers.
pub open spec fn step_fits(s: SessionView, input: SessionInputView) -> bool {
    &&& s.phase == Phase::Idle ==> (input matches SessionInputView::Op(op) ==> (op is UserInput
        ==> s.turn < usize::MAX))
    &&& s.phase == Phase::AwaitingReply ==> (input matches SessionInputView::Reply(Ok(r))
        ==> s.call_seq + r.len() < usize::MAX)
}

proof fn lemma_messages_push(v: Seq<Message>, m: Message)
    ensures
        messages_view(v.push(m)) == messages_view(v).push(m@),
{
    assert(messages_view(v.push(m)) =~= messages_view(v).push(m@));
}

impl SessionCore {
    /// Whether the fields agree with the phase.
    pub open spec fn wf(&self) -> bool {
        session_wf(self@)
    }

    /// A fresh session with the given bound on model calls per turn.
    pub fn with_max_tool_rounds(max_tool_rounds: usize) -> (s: Self)
        ensures
            s.wf(),
            s@.history.len() == 0,
            s@.turn == 0,
            s@.max_tool_rounds == max_tool_rounds,
            !s@.cancelled,
            s@.phase == Phase::Idle,
    {
        SessionCore {
            history: Vec::new(),
            turn: 0,
            max_tool_rounds,
            cancelled: false,
            phase: Phase::Idle,
            round: 0,
            call_seq: 0,
            calls: Vec::new(),
            next_call: 0,
        }
    }

    /// A fresh session with the default bound on model calls per turn.
    pub fn new() -> (s: Self)
        ensures
            s.wf(),
            s@.history.len() == 0,
            s@.turn == 0,
            s@.max_tool_rounds == DEFAULT_MAX_TOOL_ROUNDS,
            !s@.cancelled,
            s@.phase == Phase::Idle,
    {
        Self::with_max_tool_rounds(DEFAULT_MAX_TOOL_ROUNDS)
    }

    /// The conversation so far (what the model is given).
    pub fn history(&self) -> (h: &Vec<Message>)
        ensures
            messages_view(h@) == self@.history,
    {
        &self.history
    }

    /// The current phase.
    pub fn phase(&self) -> (p: Phase)
        ensures
            p == self@.phase,
    {
        self.phase
    }

    /// Whether an interrupt was received.
    pub fn is_cancelled(&self) -> (b: bool)
        ensures
            b == self@.cancelled,
    {
        self.cancelled
    }

    /// Whether `step` may take `input` now (it may unless a counter would overflow).
    pub fn fits(&self, input: &SessionInput) -> (b: bool)
        ensures
            b == step_fits(self@, input@),
    {
        match self.phase {
            Phase::Idle => match input {
                SessionInput::Op(Op::UserInput { .. }) => self.turn < usize::MAX,
                _ => true,
            },
            Phase::AwaitingReply => match input {
                SessionInput::Reply(Ok(r)) => {
                    r.as_str().unicode_len() < usize::MAX - self.call_seq
                },
                _ => true,
            },
            _ => true,
        }
    }

    fn complete(&self) -> (e: Event)
        ensures
            e@ == complete_event(self@.turn, self@.history),
    {
        Event::TurnComplete { turn: self.turn, text: last_text(&self.history) }
    }

    fn record(&self, k: usize) -> (e: Event)
        requires
            k < self.calls@.len(),
        ensures
            e@ == record_event(self@.turn, self@.calls[k as int]),
    {
        Event::ToolCallRecord {
            turn: self.turn,
            call_id: self.calls[k].call_id.clone(),
            name: self.calls[k].name.clone(),
        }
    }

    /// Takes one input: updates the state, returns the events to report and
    /// what to do next.
    pub fn step(&mut self, input: SessionInput) -> (r: (Vec<Event>, Next))
        requires
            old(self).wf(),
            step_fits(old(self)@, input@),
        ensures
            final(self).wf(),
            step_result(old(self)@, input@) == (final(self)@, events_view(r.0@), r.1@),
    {
        let mut events: Vec<Event> = Vec::new();
        match self.phase {
            Phase::Idle => match input {
                SessionInput::Op(Op::UserInput { text }) => {
                    self.turn = self.turn + 1;
                    let m = Message { role: Role::User, content: text };
                    proof {
                        lemma_messages_push(self.history@, m);
                    }
                    self.history.push(m);
                    events.push(Event::TurnBegin { turn: self.turn });
                    if self.max_tool_rounds > 0 {
                        self.phase = Phase::AwaitingReply;
                        self.round = 0;
                        self.call_seq = 0;
                        self.calls = Vec::new();
                        self.next_call = 0;
                        assert(calls_view(self.calls@) =~= Seq::<ToolCallView>::empty());
                        assert(events_view(events@) =~= seq![EventView::TurnBegin { turn: self@.turn }]);
                        (events, Next::CallModel)
                    } else {
                        let e = self.complete();
                        events.push(e);
                        assert(events_view(events@) =~= seq![EventView::TurnBegin { turn: self@.turn }, e@]);
                        (events, Next::AwaitOp)
                    }
                },
                SessionInput::Op(Op::Interrupt) => {
                    self.cancelled = true;
                    assert(events_view(events@) =~= Seq::<EventView>::empty());
                    (events, Next::AwaitOp)
                },
                SessionInput::Op(Op::Shutdown) => {
                    self.phase = Phase::Stopped;
                    events.push(Event::Shutdown);
                    assert(events_view(events@) =~= seq![EventView::Shutdown]);
                    (events, Next::Stop)
                },
                SessionInput::Closed => {
                    self.phase = Phase::Stopped;
                    assert(events_view(events@) =~= Seq::<EventView>::empty());
                    (events, Next::Stop)
                },
                _ => {
                    assert(events_view(events@) =~= Seq::<EventView>::empty());
                    (events, Next::AwaitOp)
                },
            },
            Phase::AwaitingReply => match input {
                SessionInput::Reply(Err(m)) => {
                    self.phase = Phase::Idle;
                    let ghost mv = m@;
                    events.push(Event::Error(m));
                    let e = self.complete();
                    events.push(e);
                    assert(events_view(events@) =~= seq![EventView::Error(mv), e@]);
                    (events, Next::AwaitOp)
                },
                SessionInput::Reply(Ok(r)) => {
                    let calls = parse_tool_calls(r.as_str(), self.call_seq);
                    proof {
                        lemma_pieces_len(r@);
                        lemma_calls_len(newline_pieces(r@), self.call_seq as nat);
                    }
                    let m = Message { role: Role::Assistant, content: r };
                    proof {
                        lemma_messages_push(self.history@, m);
                    }
                    self.history.push(m);
                    self.call_seq = self.call_seq + calls.len();
                    if calls.len() == 0 {
                        self.phase = Phase::Idle;
                        let e = self.complete();
                        events.push(e);
                        assert(events_view(events@) =~= seq![e@]);
                        (events, Next::AwaitOp)
                    } else {
                        self.phase = Phase::RunningTools;
                        self.calls = calls;
                        self.next_call = 0;
                        let e = self.record(0);
                        events.push(e);
                        assert(events_view(events@) =~= seq![e@]);
                        (events, Next::RunTool(self.calls[0].duplicate()))
                    }
                },
                _ => {
                    assert(events_view(events@) =~= Seq::<EventView>::empty());
                    (events, Next::CallModel)
                },
            },
            Phase::RunningTools => match input {
                SessionInput::ToolDone(o) => {
                    assert(self.calls@.len() == calls_view(self.calls@).len());
                    assert(self.next_call < self.calls.len());
                    let item = Item::ToolResult {
                        call_id: self.calls[self.next_call].call_id.clone(),
                        output: o.output,
                        is_error: o.is_error,
                    };
                    let m = item_to_message(&item);
                    proof {
                        lemma_messages_push(self.history@, m);
                    }
                    self.history.push(m);
                    self.next_call = self.next_call + 1;
                    if self.next_call < self.calls.len() {
                        let e = self.record(self.next_call);
                        events.push(e);
                        assert(events_view(events@) =~= seq![e@]);
                        (events, Next::RunTool(self.calls[self.next_call].duplicate()))
                    } else if self.round + 1 >= self.max_tool_rounds {
                        let notice = Message {
                            role: Role::Assistant,
                            content: string_of("工具循环达到上限，本轮提前停止。"),
                        };
                        proof {
                            lemma_messages_push(self.history@, notice);
                        }
                        self.history.push(notice);
                        self.phase = Phase::Idle;
                        let e = self.complete();
                        events.push(e);
                        assert(events_view(events@) =~= seq![e@]);
                        (events, Next::AwaitOp)
                    } else {
                        self.phase = Phase::AwaitingReply;
                        self.round = self.round + 1;
                        assert(events_view(events@) =~= Seq::<EventView>::empty());
                        (events, Next::CallModel)
                    }
                },
                _ => {
                    assert(events_view(events@) =~= Seq::<EventView>::empty());
                    (events, Next::RunTool(self.calls[self.next_call].duplicate()))
                },
            },
            Phase::Stopped => {
                assert(events_view(events@) =~= Seq::<EventView>::empty());
                (events, Next::Stop)
            },
        }
    }
}


/// Every step keeps a session well formed.
pub proof fn lemma_step_keeps_wf(s: SessionView, input: SessionInputView)
    requires
        session_wf(s),
    ensures
        session_wf(step_result(s, input).0),
{
}

/// The history is append-only: a step never drops or rewrites a message.
pub proof fn lemma_history_append_only(s: SessionView, input: SessionInputView)
    requires
        session_wf(s),
    ensures
        step_result(s, input).0.history.len() >= s.history.len(),
        step_result(s, input).0.history.take(s.history.len() as int) == s.history,
{
    let h = step_result(s, input).0.history;
    assert(h.take(s.history.len() as int) =~= s.history);
}

/// A user input opens the next turn: the turn number goes up by one, the
/// input is appended to the history, and `TurnBegin` with that number is the
/// first event.
pub proof fn lemma_user_input_opens_turn(s: SessionView, text: Seq<char>)
    requires
        s.phase == Phase::Idle,
    ensures
        ({
            let (t, events, _next) = step_result(
                s,
                SessionInputView::Op(OpView::UserInput { text }),
            );
            &&& t.turn == s.turn + 1
            &&& t.history == s.history.push(MessageView { role: Role::User, content: text })
            &&& events.len() >= 1
            &&& events[0] == EventView::TurnBegin { turn: t.turn }
        }),
{
}

/// The model is called at most `max_tool_rounds` times in a turn: each call
/// leaves a round count below the bound, the first call of a turn counts 0 and
/// each further call counts one more than the last.
pub proof fn lemma_model_calls_bounded(s: SessionView, input: SessionInputView)
    requires
        session_wf(s),
        step_result(s, input).2 is CallModel,
    ensures
        ({
            let t = step_result(s, input).0;
            &&& t.phase == Phase::AwaitingReply
            &&& t.round < t.max_tool_rounds
            &&& t.max_tool_rounds == s.max_tool_rounds
            &&& s.phase == Phase::Idle ==> t.round == 0 && t.turn == s.turn + 1
            &&& s.phase == Phase::RunningTools ==> t.round == s.round + 1 && t.turn == s.turn
            &&& s.phase == Phase::AwaitingReply ==> t == s
        }),
{
}

/// A failed model call does not end the session: the error is reported, the
/// turn completes with the last answer, and the session waits for the next
/// operation.
pub proof fn lemma_model_error_keeps_session(s: SessionView, message: Seq<char>)
    requires
        s.phase == Phase::AwaitingReply,
    ensures
        step_result(s, SessionInputView::Reply(Err(message))) == (
            SessionView { phase: Phase::Idle, ..s },
            seq![EventView::Error(message), complete_event(s.turn, s.history)],
            NextView::AwaitOp,
        ),
{
}

/// Only a shutdown request or the end of all clients stops a session, and a
/// stopped session stays stopped.
pub proof fn lemma_stop_only_on_request(s: SessionView, input: SessionInputView)
    ensures
        step_result(s, input).2 is Stop <==> (s.phase == Phase::Stopped || (s.phase == Phase::Idle
            && (input == SessionInputView::Op(OpView::Shutdown) || input
            == SessionInputView::Closed))),
        s.phase == Phase::Stopped ==> step_result(s, input) == (s, Seq::<EventView>::empty(), NextView::Stop),
{
}

/// A completed turn reports the turn's number and the last thing the assistant
/// said in the history after the step.
pub proof fn lemma_turn_complete_reports_answer(s: SessionView, input: SessionInputView, i: int)
    requires
        session_wf(s),
        0 <= i < step_result(s, input).1.len(),
        step_result(s, input).1[i] is TurnComplete,
    ensures
        step_result(s, input).1[i] == complete_event(
            step_result(s, input).0.turn,
            step_result(s, input).0.history,
        ),
{
}

/// A tool's output goes back into the history, as the message of its result,
/// right after what was there.
pub proof fn lemma_tool_result_fed_back(s: SessionView, out: ToolOutputView)
    requires
        session_wf(s),
        s.phase == Phase::RunningTools,
    ensures
        ({
            let t = step_result(s, SessionInputView::ToolDone(out)).0;
            &&& t.history.len() > s.history.len()
            &&& t.history[s.history.len() as int] == item_message(
                ItemView::ToolResult {
                    call_id: s.calls[s.next_call].call_id,
                    output: out.output,
                    is_error: out.is_error,
                },
            )
            &&& t.history.take(s.history.len() as int) == s.history
        }),
{
    let t = step_result(s, SessionInputView::ToolDone(out)).0;
    assert(t.history.take(s.history.len() as int) =~= s.history);
}

} // verus!

verus! {

/// The state after a run of inputs, one step each, and every event reported
/// on the way, in order.
pub open spec fn run(s: SessionView, inputs: Seq<SessionInputView>) -> (SessionView, Seq<EventView>)
    decreases inputs.len(),
{
    if inputs.len() == 0 {
        (s, seq![])
    } else {
        let (t, events, _next) = step_result(s, inputs[0]);
        let (u, more) = run(t, inputs.drop_first());
        (u, events + more)
    }
}

/// The model replies that a run of inputs takes in: one for each call of the
/// model.
pub open spec fn replies_taken(s: SessionView, inputs: Seq<SessionInputView>) -> nat
    decreases inputs.len(),
{
    if inputs.len() == 0 {
        0
    } else {
        let took: nat = if s.phase == Phase::AwaitingReply && inputs[0] is Reply {
            1
        } else {
            0
        };
        took + replies_taken(step_result(s, inputs[0]).0, inputs.drop_first())
    }
}

/// An input that neither opens a turn nor ends the session: a model reply, a
/// tool output, or an interrupt.
pub open spec fn is_turn_input(x: SessionInputView) -> bool {
    x is Reply || x is ToolDone || x == SessionInputView::Op(OpView::Interrupt)
}

/// A run of inputs that open no turn and end no session.
pub open spec fn turn_inputs(inputs: Seq<SessionInputView>) -> bool {
    forall|i: int| 0 <= i < inputs.len() ==> is_turn_input(#[trigger] inputs[i])
}

/// The events that may follow `TurnBegin` within turn `k`.
pub open spec fn in_turn_event(e: EventView, k: int) -> bool {
    match e {
        EventView::ToolCallRecord { turn, .. } => turn == k,
        EventView::Error(_) => true,
        EventView::TurnComplete { turn, .. } => turn == k,
        _ => false,
    }
}

/// The model calls still allowed in the current turn.
pub open spec fn rounds_left(s: SessionView) -> int {
    match s.phase {
        Phase::AwaitingReply => s.max_tool_rounds - s.round,
        Phase::RunningTools => s.max_tool_rounds - s.round - 1,
        _ => 0,
    }
}

proof fn lemma_idle_ignores_turn_inputs(s: SessionView, inputs: Seq<SessionInputView>)
    requires
        s.phase == Phase::Idle,
        turn_inputs(inputs),
    ensures
        run(s, inputs).0 == (SessionView { cancelled: run(s, inputs).0.cancelled, ..s }),
        run(s, inputs).1 == Seq::<EventView>::empty(),
        replies_taken(s, inputs) == 0,
    decreases inputs.len(),
{
    if inputs.len() > 0 {
        assert(is_turn_input(inputs[0]));
        let rest = inputs.drop_first();
        assert(turn_inputs(rest)) by {
            assert forall|i: int| 0 <= i < rest.len() implies is_turn_input(#[trigger] rest[i]) by {
                assert(rest[i] == inputs[i + 1]);
            }
        }
        let t = step_result(s, inputs[0]).0;
        assert(t == (SessionView { cancelled: t.cancelled, ..s }));
        lemma_idle_ignores_turn_inputs(t, rest);
        assert(seq![] + Seq::<EventView>::empty() =~= Seq::<EventView>::empty());
    }
}

proof fn lemma_turn_goes_on(t: SessionView, inputs: Seq<SessionInputView>, k: int)
    requires
        session_wf(t),
        t.turn == k,
        t.phase == Phase::AwaitingReply || t.phase == Phase::RunningTools,
        turn_inputs(inputs),
    ensures
        ({
            let (u, events) = run(t, inputs);
            &&& session_wf(u)
            &&& u.turn == k
            &&& u.max_tool_rounds == t.max_tool_rounds
            &&& u.phase != Phase::Stopped
            &&& u.history.len() >= t.history.len()
            &&& u.history.take(t.history.len() as int) == t.history
            &&& forall|i: int| 0 <= i < events.len() ==> in_turn_event(#[trigger] events[i], k)
            &&& forall|i: int|
                0 <= i < events.len() && #[trigger] events[i] is TurnComplete ==> i == events.len()
                    - 1
            &&& u.phase == Phase::Idle ==> events.len() > 0 && events.last() == complete_event(
                k,
                u.history,
            )
            &&& replies_taken(t, inputs) <= rounds_left(t)
        }),
    decreases inputs.len(),
{
    let (u, events) = run(t, inputs);
    if inputs.len() == 0 {
        assert(u.history.take(t.history.len() as int) =~= t.history);
    } else {
        let input = inputs[0];
        assert(is_turn_input(input));
        let rest = inputs.drop_first();
        assert(turn_inputs(rest)) by {
            assert forall|i: int| 0 <= i < rest.len() implies is_turn_input(#[trigger] rest[i]) by {
                assert(rest[i] == inputs[i + 1]);
            }
        }
        let (t1, ev1, _n) = step_result(t, input);
        lemma_step_keeps_wf(t, input);
        lemma_history_append_only(t, input);
        let (u1, ev2) = run(t1, rest);
        assert(events == ev1 + ev2);
        assert(u == u1);
        assert(t1.turn == k);
        assert(t1.phase != Phase::Stopped);
        assert(forall|i: int| 0 <= i < ev1.len() ==> in_turn_event(#[trigger] ev1[i], k));
        assert(forall|i: int|
            0 <= i < ev1.len() && #[trigger] ev1[i] is TurnComplete ==> i == ev1.len() - 1);
        if t1.phase == Phase::Idle {
            lemma_idle_ignores_turn_inputs(t1, rest);
            assert(events =~= ev1);
            assert(ev1.len() > 0 && ev1.last() == complete_event(k, t1.history));
        } else {
            lemma_turn_goes_on(t1, rest, k);
            assert(forall|i: int| 0 <= i < ev1.len() ==> !(#[trigger] ev1[i] is TurnComplete));
            assert forall|i: int| 0 <= i < events.len() implies in_turn_event(#[trigger] events[i], k) by {
                if i >= ev1.len() {
                    assert(events[i] == ev2[i - ev1.len()]);
                }
            }
            assert forall|i: int|
                0 <= i < events.len() && #[trigger] events[i] is TurnComplete implies i
                    == events.len() - 1 by {
                if i >= ev1.len() {
                    assert(events[i] == ev2[i - ev1.len()]);
                }
            }
            if u.phase == Phase::Idle {
                assert(events.last() == ev2.last());
            }
            assert(u.history.take(t.history.len() as int) =~= u.history.take(
                t1.history.len() as int,
            ).take(t.history.len() as int));
        }
    }
}

/// A whole turn: after a user input, while the session is given only model
/// replies, tool outputs and interrupts (whether or not the turn has ended by
/// then), the turn number goes up by one; the history keeps
/// what it had and the user's message after it; `TurnBegin` comes first and
/// only once; every later event belongs to that turn, and `TurnComplete` comes
/// at most once, as the last event; once the session waits for the next
/// operation the turn has completed; and the model is called at most
/// `max_tool_rounds` times.
pub proof fn lemma_whole_turn(s: SessionView, text: Seq<char>, replies: Seq<SessionInputView>)
    requires
        session_wf(s),
        s.phase == Phase::Idle,
        turn_inputs(replies),
    ensures
        ({
            let inputs = seq![SessionInputView::Op(OpView::UserInput { text })] + replies;
            let k = s.turn + 1;
            let (u, events) = run(s, inputs);
            &&& session_wf(u)
            &&& u.turn == k
            &&& u.phase != Phase::Stopped
            &&& u.history.len() > s.history.len()
            &&& u.history.take(s.history.len() + 1int) == s.history.push(
                MessageView { role: Role::User, content: text },
            )
            &&& events.len() >= 1
            &&& events[0] == EventView::TurnBegin { turn: k }
            &&& forall|i: int| 1 <= i < events.len() ==> in_turn_event(#[trigger] events[i], k)
            &&& forall|i: int|
                0 <= i < events.len() && #[trigger] events[i] is TurnComplete ==> i == events.len()
                    - 1
            &&& u.phase == Phase::Idle ==> events.last() == complete_event(k, u.history)
            &&& replies_taken(s, inputs) <= s.max_tool_rounds
        }),
{
    let input = SessionInputView::Op(OpView::UserInput { text });
    let inputs = seq![input] + replies;
    let k = s.turn + 1;
    let (u, events) = run(s, inputs);
    assert(inputs[0] == input);
    assert(inputs.drop_first() =~= replies);
    let (t1, ev1, _n) = step_result(s, input);
    lemma_history_append_only(s, input);
    let (u1, ev2) = run(t1, replies);
    assert(events == ev1 + ev2);
    assert(replies_taken(s, inputs) == replies_taken(t1, replies));
    let h1 = s.history.push(MessageView { role: Role::User, content: text });
    assert(t1.history == h1);
    if t1.phase == Phase::Idle {
        lemma_idle_ignores_turn_inputs(t1, replies);
        assert(events =~= ev1);
        assert(u.history.take(s.history.len() + 1int) =~= h1);
    } else {
        lemma_turn_goes_on(t1, replies, k);
        assert(ev1 =~= seq![EventView::TurnBegin { turn: k }]);
        assert forall|i: int| 1 <= i < events.len() implies in_turn_event(#[trigger] events[i], k) by {
            assert(events[i] == ev2[i - 1]);
        }
        assert forall|i: int|
            0 <= i < events.len() && #[trigger] events[i] is TurnComplete implies i == events.len()
                - 1 by {
            if i >= 1 {
                assert(events[i] == ev2[i - 1]);
            }
        }
        if u.phase == Phase::Idle {
            assert(events.last() == ev2.last());
        }
        assert(u.history.take(s.history.len() + 1int) =~= u.history.take(h1.len() as int));
    }
}


/// A run of inputs can be split anywhere: the second part starts from the
/// state the first part left, and the events are those of both, in order.
pub proof fn lemma_run_append(s: SessionView, a: Seq<SessionInputView>, b: Seq<SessionInputView>)
    ensures
        run(s, a + b) == ({
            let (t, first) = run(s, a);
            let (u, second) = run(t, b);
            (u, first + second)
        }),
    decreases a.len(),
{
    if a.len() == 0 {
        assert(a + b =~= b);
        assert(Seq::<EventView>::empty() + run(s, b).1 =~= run(s, b).1);
    } else {
        let (t1, ev1, _n) = step_result(s, a[0]);
        assert((a + b)[0] == a[0]);
        assert((a + b).drop_first() =~= a.drop_first() + b);
        lemma_run_append(t1, a.drop_first(), b);
        let (t, first) = run(t1, a.drop_first());
        let (u, second) = run(t, b);
        assert(ev1 + (first + second) =~= (ev1 + first) + second);
    }
}

/// Over any run of inputs a session stays well formed, its history only
/// grows at the end, and its turn number never goes down.
pub proof fn lemma_run_append_only(s: SessionView, inputs: Seq<SessionInputView>)
    requires
        session_wf(s),
    ensures
        session_wf(run(s, inputs).0),
        run(s, inputs).0.history.len() >= s.history.len(),
        run(s, inputs).0.history.take(s.history.len() as int) == s.history,
        run(s, inputs).0.turn >= s.turn,
    decreases inputs.len(),
{
    let u = run(s, inputs).0;
    if inputs.len() == 0 {
        assert(u.history.take(s.history.len() as int) =~= s.history);
    } else {
        let t = step_result(s, inputs[0]).0;
        lemma_step_keeps_wf(s, inputs[0]);
        lemma_history_append_only(s, inputs[0]);
        lemma_run_append_only(t, inputs.drop_first());
        assert(u.history.take(s.history.len() as int) =~= u.history.take(
            t.history.len() as int,
        ).take(s.history.len() as int));
    }
}

/// A stopped session takes no more inputs: it stays as it is and reports
/// nothing.
pub proof fn lemma_stopped_stays(s: SessionView, inputs: Seq<SessionInputView>)
    requires
        s.phase == Phase::Stopped,
    ensures
        run(s, inputs) == (s, Seq::<EventView>::empty()),
    decreases inputs.len(),
{
    if inputs.len() > 0 {
        lemma_stopped_stays(s, inputs.drop_first());
        assert(Seq::<EventView>::empty() + Seq::<EventView>::empty() =~= Seq::<EventView>::empty());
    }
}

/// A shutdown request between turns stops the session: `Shutdown` is the one
/// and last event, and nothing after it is taken in.
pub proof fn lemma_shutdown_is_last(s: SessionView, later: Seq<SessionInputView>)
    requires
        s.phase == Phase::Idle,
    ensures
        run(s, seq![SessionInputView::Op(OpView::Shutdown)] + later) == (
            SessionView { phase: Phase::Stopped, ..s },
            seq![EventView::Shutdown],
        ),
{
    let inputs = seq![SessionInputView::Op(OpView::Shutdown)] + later;
    assert(inputs[0] == SessionInputView::Op(OpView::Shutdown));
    assert(inputs.drop_first() =~= later);
    lemma_stopped_stays(SessionView { phase: Phase::Stopped, ..s }, later);
    assert(seq![EventView::Shutdown] + Seq::<EventView>::empty() =~= seq![EventView::Shutdown]);
}

/// When every client is gone between turns the session stops without a
/// `Shutdown` event, and nothing after it is taken in.
pub proof fn lemma_closed_stops_silently(s: SessionView, later: Seq<SessionInputView>)
    requires
        s.phase == Phase::Idle,
    ensures
        run(s, seq![SessionInputView::Closed] + later) == (
            SessionView { phase: Phase::Stopped, ..s },
            Seq::<EventView>::empty(),
        ),
{
    let inputs = seq![SessionInputView::Closed] + later;
    assert(inputs[0] == SessionInputView::Closed);
    assert(inputs.drop_first() =~= later);
    lemma_stopped_stays(SessionView { phase: Phase::Stopped, ..s }, later);
    assert(Seq::<EventView>::empty() + Seq::<EventView>::empty() =~= Seq::<EventView>::empty());
}

/// An interrupt between turns reports nothing and the session goes on with
/// the inputs after it, marked as interrupted.
pub proof fn lemma_interrupt_goes_on(s: SessionView, later: Seq<SessionInputView>)
    requires
        s.phase == Phase::Idle,
    ensures
        run(s, seq![SessionInputView::Op(OpView::Interrupt)] + later) == run(
            SessionView { cancelled: true, ..s },
            later,
        ),
{
    let inputs = seq![SessionInputView::Op(OpView::Interrupt)] + later;
    assert(inputs[0] == SessionInputView::Op(OpView::Interrupt));
    assert(inputs.drop_first() =~= later);
    let r = run(SessionView { cancelled: true, ..s }, later);
    assert(Seq::<EventView>::empty() + r.1 =~= r.1);
}

/// The session asks for the next operation exactly when no turn is under
/// way, so operations are taken one at a time: a turn completes before the
/// next operation is read.
pub proof fn lemma_next_op_only_between_turns(s: SessionView, input: SessionInputView)
    requires
        session_wf(s),
    ensures
        step_result(s, input).2 is AwaitOp <==> step_result(s, input).0.phase == Phase::Idle,
{
}


/// The ids of the tool-call records among `events`, in order.
pub open spec fn record_ids(events: Seq<EventView>) -> Seq<Seq<char>>
    decreases events.len(),
{
    if events.len() == 0 {
        seq![]
    } else {
        let rest = record_ids(events.drop_first());
        match events[0] {
            EventView::ToolCallRecord { call_id, .. } => seq![call_id] + rest,
            _ => rest,
        }
    }
}

proof fn lemma_record_ids_append(a: Seq<EventView>, b: Seq<EventView>)
    ensures
        record_ids(a + b) == record_ids(a) + record_ids(b),
    decreases a.len(),
{
    if a.len() == 0 {
        assert(a + b =~= b);
        assert(record_ids(a) + record_ids(b) =~= record_ids(b));
    } else {
        assert((a + b)[0] == a[0]);
        assert((a + b).drop_first() =~= a.drop_first() + b);
        lemma_record_ids_append(a.drop_first(), b);
        match a[0] {
            EventView::ToolCallRecord { call_id, .. } => {
                assert(seq![call_id] + (record_ids(a.drop_first()) + record_ids(b)) =~= (seq![
                    call_id,
                ] + record_ids(a.drop_first())) + record_ids(b));
            },
            _ => {},
        }
    }
}

proof fn lemma_no_records(events: Seq<EventView>)
    requires
        forall|i: int| 0 <= i < events.len() ==> !(#[trigger] events[i] is ToolCallRecord),
    ensures
        record_ids(events) == Seq::<Seq<char>>::empty(),
    decreases events.len(),
{
    if events.len() > 0 {
        let rest = events.drop_first();
        assert forall|i: int| 0 <= i < rest.len() implies !(#[trigger] rest[i] is ToolCallRecord) by {
            assert(rest[i] == events[i + 1]);
        }
        lemma_no_records(rest);
        assert(!(events[0] is ToolCallRecord));
    }
}

proof fn lemma_one_record(turn: int, call_id: Seq<char>, name: Seq<char>)
    ensures
        record_ids(seq![EventView::ToolCallRecord { turn, call_id, name }]) == seq![call_id],
{
    let e = seq![EventView::ToolCallRecord { turn, call_id, name }];
    assert(e.drop_first() =~= Seq::<EventView>::empty());
    assert(record_ids(e.drop_first()) == Seq::<Seq<char>>::empty());
    assert(seq![call_id] + Seq::<Seq<char>>::empty() =~= seq![call_id]);
}

/// While a turn runs its tools, the calls of the last reply carry the ids
/// just below the call counter.
pub open spec fn calls_numbered(t: SessionView) -> bool {
    t.phase == Phase::RunningTools ==> {
        &&& t.calls.len() <= t.call_seq
        &&& forall|j: int|
            0 <= j < t.calls.len() ==> (#[trigger] t.calls[j]).call_id == call_id_text(
                (t.call_seq - t.calls.len() + j) as nat,
            )
    }
}

/// The tool calls recorded so far in the current turn.
pub open spec fn calls_recorded(t: SessionView) -> int {
    if t.phase == Phase::RunningTools {
        t.call_seq - t.calls.len() + t.next_call + 1
    } else {
        t.call_seq
    }
}

proof fn lemma_turn_ids_go_on(t: SessionView, inputs: Seq<SessionInputView>)
    requires
        session_wf(t),
        t.phase == Phase::AwaitingReply || t.phase == Phase::RunningTools,
        turn_inputs(inputs),
        calls_numbered(t),
    ensures
        forall|i: int|
            0 <= i < record_ids(run(t, inputs).1).len() ==> #[trigger] record_ids(
                run(t, inputs).1,
            )[i] == call_id_text((calls_recorded(t) + i) as nat),
    decreases inputs.len(),
{
    let events = run(t, inputs).1;
    if inputs.len() == 0 {
        assert(record_ids(events) =~= Seq::<Seq<char>>::empty());
    } else {
        let input = inputs[0];
        let rest = inputs.drop_first();
        assert(turn_inputs(rest)) by {
            assert forall|i: int| 0 <= i < rest.len() implies is_turn_input(#[trigger] rest[i]) by {
                assert(rest[i] == inputs[i + 1]);
            }
        }
        let (t1, ev1, _n) = step_result(t, input);
        lemma_step_keeps_wf(t, input);
        let ev2 = run(t1, rest).1;
        assert(events == ev1 + ev2);
        lemma_record_ids_append(ev1, ev2);
        if t1.phase == Phase::Idle {
            lemma_idle_ignores_turn_inputs(t1, rest);
            lemma_no_records(ev2);
            lemma_no_records(ev1);
            assert(record_ids(events) =~= Seq::<Seq<char>>::empty());
        } else {
            assert(t1.phase == Phase::AwaitingReply || t1.phase == Phase::RunningTools);
            if t.phase == Phase::AwaitingReply && input is Reply && input->Reply_0 is Ok {
                let r = input->Reply_0->Ok_0;
                let calls = tool_calls(r, t.call_seq as nat);
                assert(calls.len() > 0);
                assert forall|j: int| 0 <= j < t1.calls.len() implies (#[trigger] t1.calls[j]).call_id
                    == call_id_text((t1.call_seq - t1.calls.len() + j) as nat) by {
                    lemma_call_ids_consecutive(r, t.call_seq as nat, j);
                }
                lemma_call_ids_consecutive(r, t.call_seq as nat, 0);
                lemma_one_record(t.turn, calls[0].call_id, calls[0].name);
                assert(record_ids(ev1) =~= seq![call_id_text(calls_recorded(t) as nat)]);
                assert(calls_recorded(t1) == calls_recorded(t) + 1);
            } else if t.phase == Phase::RunningTools && input is ToolDone {
                let k = t.next_call + 1;
                if k < t.calls.len() {
                    assert(t.calls[k].call_id == call_id_text(
                        (t.call_seq - t.calls.len() + k) as nat,
                    ));
                    lemma_one_record(t.turn, t.calls[k].call_id, t.calls[k].name);
                    assert(record_ids(ev1) =~= seq![call_id_text(calls_recorded(t) as nat)]);
                    assert(calls_recorded(t1) == calls_recorded(t) + 1);
                } else {
                    lemma_no_records(ev1);
                    assert(calls_recorded(t1) == calls_recorded(t));
                }
            } else {
                assert(t1 == t);
                assert(ev1 =~= Seq::<EventView>::empty());
                lemma_no_records(ev1);
            }
            lemma_turn_ids_go_on(t1, rest);
            let ids = record_ids(events);
            assert forall|i: int| 0 <= i < ids.len() implies #[trigger] ids[i] == call_id_text(
                (calls_recorded(t) + i) as nat,
            ) by {
                if i >= record_ids(ev1).len() {
                    assert(ids[i] == record_ids(ev2)[i - record_ids(ev1).len()]);
                }
            }
        }
    }
}

/// Tool calls are numbered per turn, across all its rounds: the calls that a
/// turn records are `call_0`, `call_1`, ... in order, so no id comes twice in
/// a turn however many replies ask for calls.
pub proof fn lemma_turn_call_ids(s: SessionView, text: Seq<char>, replies: Seq<SessionInputView>)
    requires
        session_wf(s),
        s.phase == Phase::Idle,
        turn_inputs(replies),
    ensures
        ({
            let events = run(s, seq![SessionInputView::Op(OpView::UserInput { text })] + replies).1;
            forall|i: int|
                0 <= i < record_ids(events).len() ==> #[trigger] record_ids(events)[i]
                    == call_id_text(i as nat)
        }),
{
    let input = SessionInputView::Op(OpView::UserInput { text });
    let inputs = seq![input] + replies;
    let events = run(s, inputs).1;
    assert(inputs[0] == input);
    assert(inputs.drop_first() =~= replies);
    let (t1, ev1, _n) = step_result(s, input);
    let ev2 = run(t1, replies).1;
    assert(events == ev1 + ev2);
    lemma_record_ids_append(ev1, ev2);
    if t1.phase == Phase::Idle {
        lemma_idle_ignores_turn_inputs(t1, replies);
        lemma_no_records(ev2);
        lemma_no_records(ev1);
    } else {
        lemma_no_records(ev1);
        assert(calls_recorded(t1) == 0);
        lemma_turn_ids_go_on(t1, replies);
        assert(record_ids(events) =~= record_ids(ev2));
    }
}


/// The answer a turn reports is the content of the last assistant message in
/// the history, or nothing when the assistant has not spoken.
pub proof fn lemma_last_assistant_message(h: Seq<MessageView>, i: int)
    ensures
        (forall|k: int| 0 <= k < h.len() ==> (#[trigger] h[k]).role != Role::Assistant)
            ==> last_assistant_text(h) == Seq::<char>::empty(),
        0 <= i < h.len() && h[i].role == Role::Assistant && (forall|k: int|
            i < k < h.len() ==> (#[trigger] h[k]).role != Role::Assistant)
            ==> last_assistant_text(h) == h[i].content,
    decreases h.len(),
{
    if h.len() > 0 {
        let p = h.drop_last();
        lemma_last_assistant_message(p, i);
        if h.last().role != Role::Assistant {
            assert(forall|k: int| 0 <= k < p.len() ==> p[k] == h[k]);
            if 0 <= i < h.len() && h[i].role == Role::Assistant {
                assert(i < h.len() - 1);
            }
        } else {
            if 0 <= i < h.len() && h[i].role == Role::Assistant && (forall|k: int|
                i < k < h.len() ==> (#[trigger] h[k]).role != Role::Assistant) {
                assert(i == h.len() - 1);
            }
            assert(h[h.len() - 1].role == Role::Assistant);
        }
    }
}

/// A reply that asks for no tool ends the turn with that reply as its answer:
/// it joins the history and the one event is the turn's completion with it.
pub proof fn lemma_plain_reply_completes_turn(s: SessionView, r: Seq<char>)
    requires
        session_wf(s),
        s.phase == Phase::AwaitingReply,
        tool_calls(r, s.call_seq as nat).len() == 0,
    ensures
        ({
            let (t, events, next) = step_result(s, SessionInputView::Reply(Ok(r)));
            &&& t.history == s.history.push(MessageView { role: Role::Assistant, content: r })
            &&& t.phase == Phase::Idle
            &&& events == seq![EventView::TurnComplete { turn: s.turn, text: r }]
            &&& next is AwaitOp
        }),
{
    let h = s.history.push(MessageView { role: Role::Assistant, content: r });
    lemma_last_assistant_message(h, h.len() - 1);
}

} // verus!
