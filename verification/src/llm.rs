//! The model side: a scripted model for tests, the extraction of text deltas
//! from streamed frames, and the decisions of a streaming completion.

use std::collections::VecDeque;

use vstd::prelude::*;

use crate::sse::{
    events_view, feed_result, finish_result, SseError, SseErrorView, SseEvent, SseEventView,
    SseParser, SseParserView,
};
use crate::prompt::{array_member, keys_are, lemma_field_named_at, member, str_member, Json};
use crate::protocol::{Message, MessageView, Role};
use crate::text::{push_str, string_of};

verus! {

pub open spec fn opt_string_view(o: Option<String>) -> Option<Seq<char>> {
    match o {
        Some(s) => Some(s@),
        None => None,
    }
}

pub open spec fn strings_view(v: Seq<String>) -> Seq<Seq<char>> {
    v.map_values(|s: String| s@)
}

/// A model that replies from a fixed script, in order; once the script is
/// used up it replies with empty text. Tests need no network.
pub struct ScriptedLlm {
    replies: VecDeque<String>,
}

impl View for ScriptedLlm {
    type V = Seq<Seq<char>>;

    closed spec fn view(&self) -> Seq<Seq<char>> {
        self.replies@.map_values(|s: String| s@)
    }
}

impl ScriptedLlm {
    /// A model that will give these replies, first to last.
    pub fn new(replies: Vec<String>) -> (m: Self)
        ensures
            m@ == strings_view(replies@),
    {
        let mut queue: VecDeque<String> = VecDeque::new();
        let mut rest = replies;
        let ghost all = replies@;
        while rest.len() > 0
            invariant
                queue@ + rest@ == all,
            decreases rest@.len(),
        {
            let ghost q = queue@;
            let ghost r = rest@;
            let s = rest.remove(0);
            queue.push_back(s);
            assert(queue@ + rest@ =~= q + r);
        }
        assert(queue@ =~= all);
        assert(queue@.map_values(|s: String| s@) =~= strings_view(all));
        ScriptedLlm { replies: queue }
    }

    /// The next scripted reply, or empty text once the script is used up.
    pub fn next_reply(&mut self) -> (r: String)
        ensures
            old(self)@.len() > 0 ==> r@ == old(self)@[0] && final(self)@ == old(self)@.drop_first(),
            old(self)@.len() == 0 ==> r@ == Seq::<char>::empty() && final(self)@ == old(self)@,
    {
        let ghost before = self.replies@;
        match self.replies.pop_front() {
            Some(r) => {
                assert(self.replies@.map_values(|s: String| s@) =~= before.map_values(
                    |s: String| s@,
                ).drop_first());
                r
            },
            None => String::new(),
        }
    }
}

/// The string member `key` of the JSON object written in `text`, as
/// `serde_json` reads it.
pub uninterp spec fn json_string_member(text: Seq<char>, key: Seq<char>) -> Option<Seq<char>>;

/// Parses `text` with `serde_json::from_str` into a `serde_json::Value` and
/// reads its member `key` with `Value::get`, when that member is a JSON
/// string. What the grammar accepts is not restated: the contract only ties
/// the outcome to the text and the key.
#[verifier::external_body]
fn json_member_string(text: &str, key: &str) -> (r: Option<String>)
    ensures
        opt_string_view(r) == json_string_member(text@, key@),
{
    let value: serde_json::Value = match serde_json::from_str(text) {
        Ok(v) => v,
        Err(_) => return None,
    };
    match value.get(key) {
        Some(member) => member.as_str().map(str::to_string),
        None => None,
    }
}

/// The event type that carries a piece of output text.
pub open spec fn text_delta_type() -> Seq<char> {
    "response.output_text.delta"@
}

/// The text delta of a frame whose `type` and `delta` members are given.
pub open spec fn delta_from(kind: Option<Seq<char>>, delta: Option<Seq<char>>) -> Option<Seq<char>> {
    if kind == Some(text_delta_type()) {
        delta
    } else {
        None
    }
}

/// The text delta of a frame payload, if it is one.
pub open spec fn payload_delta(payload: Seq<char>) -> Option<Seq<char>> {
    delta_from(
        json_string_member(payload, "type"@),
        json_string_member(payload, "delta"@),
    )
}

/// The delta, given the frame's `type` and `delta` members: kept only for an
/// output-text delta.
pub fn select_delta(kind: Option<String>, delta: Option<String>) -> (r: Option<String>)
    ensures
        opt_string_view(r) == delta_from(opt_string_view(kind), opt_string_view(delta)),
{
    match kind {
        Some(k) => {
            if k == string_of("response.output_text.delta") {
                delta
            } else {
                None
            }
        },
        None => None,
    }
}

/// The text delta carried by one frame's payload; anything else, malformed
/// JSON included, gives `None`. The payload is read as a JSON object through
/// `serde_json::Value`: a member written twice counts by its last value, and a
/// payload that is not an object carries no delta.
pub fn extract_delta(payload: &str) -> (r: Option<String>)
    ensures
        opt_string_view(r) == payload_delta(payload@),
{
    let kind = json_member_string(payload, "type");
    let delta = json_member_string(payload, "delta");
    select_delta(kind, delta)
}

/// The deltas of a run of events, up to the first `Done`, and whether a `Done` came.
pub open spec fn collect_deltas(evs: Seq<SseEventView>) -> (Seq<Seq<char>>, bool)
    decreases evs.len(),
{
    if evs.len() == 0 {
        (seq![], false)
    } else {
        match evs[0] {
            SseEventView::Done => (seq![], true),
            SseEventView::Data(p) => {
                let (ds, done) = collect_deltas(evs.drop_first());
                (
                    match payload_delta(p) {
                        Some(d) => seq![d] + ds,
                        None => ds,
                    },
                    done,
                )
            },
        }
    }
}

/// All the texts, one after the other.
pub open spec fn concat_all(ds: Seq<Seq<char>>) -> Seq<char>
    decreases ds.len(),
{
    if ds.len() == 0 {
        seq![]
    } else {
        ds[0] + concat_all(ds.drop_first())
    }
}

/// Why a streamed completion produced no answer.
#[derive(Debug)]
pub enum StreamEndError {
    /// The last frame could not be decoded.
    Sse(SseError),
    /// The stream ended without a single text delta.
    Empty,
}

pub enum StreamEndErrorView {
    Sse(SseErrorView),
    Empty,
}

impl View for StreamEndError {
    type V = StreamEndErrorView;

    open spec fn view(&self) -> StreamEndErrorView {
        match self {
            StreamEndError::Sse(e) => StreamEndErrorView::Sse(e@),
            StreamEndError::Empty => StreamEndErrorView::Empty,
        }
    }
}

/// The decisions of one streamed completion: frames are decoded as chunks
/// arrive, text deltas are passed on and gathered into the full answer.
pub struct ResponseStream {
    parser: SseParser,
    full: String,
}

pub struct ResponseStreamView {
    pub parser: SseParserView,
    pub full: Seq<char>,
}

impl View for ResponseStream {
    type V = ResponseStreamView;

    closed spec fn view(&self) -> ResponseStreamView {
        ResponseStreamView { parser: self.parser@, full: self.full@ }
    }
}

/// What ending a stream in state `s` gives: the delta of the last,
/// undelimited frame to pass on, if any, and the full answer or the error.
pub open spec fn end_result(s: ResponseStreamView) -> (Option<Seq<char>>, Result<Seq<char>, StreamEndErrorView>) {
    match finish_result(s.parser).1 {
        Err(e) => (None, Err(StreamEndErrorView::Sse(e))),
        Ok(o) => {
            let d = match o {
                Some(SseEventView::Data(p)) => payload_delta(p),
                _ => None,
            };
            let full = match d {
                Some(t) => s.full + t,
                None => s.full,
            };
            (d, if full.len() == 0 { Err(StreamEndErrorView::Empty) } else { Ok(full) })
        },
    }
}

impl ResponseStream {
    /// A stream with nothing received yet.
    pub fn new() -> (s: Self)
        ensures
            s@.parser.buffer == Seq::<u8>::empty(),
            s@.parser.max_buffer == crate::sse::DEFAULT_MAX_BUFFER,
            s@.full == Seq::<char>::empty(),
    {
        ResponseStream { parser: SseParser::new(), full: String::new() }
    }

    /// The answer gathered so far.
    pub fn full_text(&self) -> (t: &String)
        ensures
            t@ == self@.full,
    {
        &self.full
    }

    /// Takes one chunk of the response body: returns the text deltas to pass
    /// on, in order, and whether the `[DONE]` sentinel came (the answer is
    /// then complete).
    pub fn on_chunk(&mut self, chunk: &[u8]) -> (res: Result<(Vec<String>, bool), SseError>)
        ensures
            final(self)@.parser == feed_result(old(self)@.parser, chunk@).0,
            match res {
                Ok((ds, done)) => {
                    &&& feed_result(old(self)@.parser, chunk@).1 matches Ok(evs)
                    &&& collect_deltas(evs) == (strings_view(ds@), done)
                    &&& final(self)@.full == old(self)@.full + concat_all(strings_view(ds@))
                },
                Err(e) => {
                    &&& feed_result(old(self)@.parser, chunk@).1 == Err::<
                        Seq<SseEventView>,
                        SseErrorView,
                    >(e@)
                    &&& final(self)@.full == old(self)@.full
                },
            },
    {
        let events = match self.parser.feed(chunk) {
            Ok(evs) => evs,
            Err(e) => {
                return Err(e);
            },
        };
        let ghost evs = events_view(events@);
        let mut deltas: Vec<String> = Vec::new();
        let ghost start = self.full@;
        let mut i: usize = 0;
        assert(evs.skip(0) == evs);
        assert(strings_view(deltas@) =~= Seq::<Seq<char>>::empty());
        assert(Seq::<Seq<char>>::empty() + collect_deltas(evs).0 =~= collect_deltas(evs).0);
        assert(start + concat_all(strings_view(deltas@)) =~= start);
        while i < events.len()
            invariant
                i <= events@.len(),
                evs == events_view(events@),
                self.parser@ == feed_result(old(self)@.parser, chunk@).0,
                start == old(self)@.full,
                feed_result(old(self)@.parser, chunk@).1 == Ok::<Seq<SseEventView>, SseErrorView>(evs),
                collect_deltas(evs) == (strings_view(deltas@) + collect_deltas(evs.skip(i as int)).0,
                    collect_deltas(evs.skip(i as int)).1),
                self.full@ == start + concat_all(strings_view(deltas@)),
            decreases events@.len() - i,
        {
            let ghost rest = evs.skip(i as int);
            assert(rest[0] == events@[i as int]@);
            assert(rest.drop_first() == evs.skip(i + 1));
            match &events[i] {
                SseEvent::Done => {
                    assert(collect_deltas(rest) == (Seq::<Seq<char>>::empty(), true));
                    assert(strings_view(deltas@) + Seq::<Seq<char>>::empty() == strings_view(deltas@));
                    assert(collect_deltas(evs) == (strings_view(deltas@), true));
                    return Ok((deltas, true));
                },
                SseEvent::Data(payload) => {
                    match extract_delta(payload.as_str()) {
                        Some(d) => {
                            let ghost dv = d@;
                            let ghost before = strings_view(deltas@);
                            push_str(&mut self.full, d.as_str());
                            deltas.push(d);
                            assert(strings_view(deltas@) =~= before.push(dv));
                            proof {
                                lemma_concat_push(before, dv);
                            }
                            assert(before + (seq![dv] + collect_deltas(evs.skip(i + 1)).0)
                                == before.push(dv) + collect_deltas(evs.skip(i + 1)).0);
                        },
                        None => {},
                    }
                },
            }
            i = i + 1;
        }
        assert(evs.skip(i as int) == Seq::<SseEventView>::empty());
        assert(strings_view(deltas@) + Seq::<Seq<char>>::empty() == strings_view(deltas@));
        assert(collect_deltas(evs) == (strings_view(deltas@), false));
        Ok((deltas, false))
    }

    /// Ends the stream: decodes the last frame, if the server left it open,
    /// and returns its delta to pass on with the full answer, which is an
    /// error when no text came at all.
    pub fn on_end(&mut self) -> (r: (Option<String>, Result<String, StreamEndError>))
        ensures
            end_result(old(self)@) == (opt_string_view(r.0), match r.1 {
                Ok(t) => Ok::<Seq<char>, StreamEndErrorView>(t@),
                Err(e) => Err(e@),
            }),
    {
        let last = match self.parser.finish() {
            Ok(o) => o,
            Err(e) => {
                return (None, Err(StreamEndError::Sse(e)));
            },
        };
        let delta = match last {
            Some(SseEvent::Data(payload)) => extract_delta(payload.as_str()),
            _ => None,
        };
        match &delta {
            Some(d) => push_str(&mut self.full, d.as_str()),
            None => {},
        }
        if self.full.as_str().is_empty() {
            (delta, Err(StreamEndError::Empty))
        } else {
            (delta, Ok(self.full.clone()))
        }
    }
}

proof fn lemma_concat_push(ds: Seq<Seq<char>>, d: Seq<char>)
    ensures
        concat_all(ds.push(d)) == concat_all(ds) + d,
    decreases ds.len(),
{
    if ds.len() == 0 {
        assert(ds.push(d).drop_first() =~= Seq::<Seq<char>>::empty());
        assert(concat_all(ds.push(d).drop_first()) == Seq::<char>::empty());
        assert(d + Seq::<char>::empty() =~= d);
    } else {
        lemma_concat_push(ds.drop_first(), d);
        assert(ds.push(d).drop_first() =~= ds.drop_first().push(d));
        assert(ds[0] + (concat_all(ds.drop_first()) + d) =~= (ds[0] + concat_all(ds.drop_first())) + d);
    }
}


/// The model asked for when none is configured.
pub open spec fn default_model() -> Seq<char> {
    "gpt-4o-mini"@
}

/// The configured model, or the default one.
pub fn model_or_default(configured: Option<String>) -> (model: String)
    ensures
        model@ == match configured {
            Some(m) => m@,
            None => default_model(),
        },
{
    match configured {
        Some(m) => m,
        None => string_of("gpt-4o-mini"),
    }
}

/// How a role is written in a request.
pub open spec fn role_name(r: Role) -> Seq<char> {
    match r {
        Role::System => "system"@,
        Role::User => "user"@,
        Role::Assistant => "assistant"@,
    }
}

fn role_text(r: Role) -> (s: String)
    ensures
        s@ == role_name(r),
{
    match r {
        Role::System => string_of("system"),
        Role::User => string_of("user"),
        Role::Assistant => string_of("assistant"),
    }
}

/// One message as a request gives it: its role and its content, nothing else.
pub open spec fn is_input_message(j: Json, m: MessageView) -> bool {
    &&& keys_are(j, seq!["role"@, "content"@])
    &&& str_member(j, "role"@) == Some(role_name(m.role))
    &&& str_member(j, "content"@) == Some(m.content)
}

/// The body of a streamed request: the model, every message in order, and
/// `stream: true`; no other members.
pub open spec fn is_request_body(b: Json, model: Seq<char>, messages: Seq<MessageView>) -> bool {
    &&& keys_are(b, seq!["model"@, "input"@, "stream"@])
    &&& str_member(b, "model"@) == Some(model)
    &&& member(b, "stream"@) == Some(Json::Bool(true))
    &&& match array_member(b, "input"@) {
        Some(items) => items.len() == messages.len() && forall|i: int|
            0 <= i < items.len() ==> is_input_message(#[trigger] items[i], messages[i]),
        None => false,
    }
}

/// The request body that asks `model` to continue the conversation `messages`.
pub fn request_body(model: &str, messages: &[Message]) -> (b: Json)
    ensures
        is_request_body(b, model@, messages@.map_values(|m: Message| m@)),
{
    proof {
        reveal_strlit("role");
        reveal_strlit("content");
    }
    let ghost mv = messages@.map_values(|m: Message| m@);
    let mut items: Vec<Json> = Vec::new();
    let mut i: usize = 0;
    while i < messages.len()
        invariant
            i <= messages@.len(),
            mv == messages@.map_values(|m: Message| m@),
            items@.len() == i,
            forall|k: int| 0 <= k < i ==> is_input_message(#[trigger] items@[k], mv[k]),
            "role"@ == seq!['r', 'o', 'l', 'e'],
            "content"@ == seq!['c', 'o', 'n', 't', 'e', 'n', 't'],
        decreases messages@.len() - i,
    {
        let m = &messages[i];
        let fields = vec![
            (string_of("role"), Json::Str(role_text(m.role))),
            (string_of("content"), Json::Str(m.content.clone())),
        ];
        let ghost f = fields@;
        proof {
            assert(f[0].0@ != "content"@);
            lemma_field_named_at(f, "role"@, 0);
            lemma_field_named_at(f, "content"@, 1);
        }
        items.push(Json::Object(fields));
        i = i + 1;
    }
    let ghost iv = items@;
    let fields = vec![
        (string_of("model"), Json::Str(string_of(model))),
        (string_of("input"), Json::Array(items)),
        (string_of("stream"), Json::Bool(true)),
    ];
    let ghost f = fields@;
    proof {
        reveal_strlit("model");
        reveal_strlit("input");
        reveal_strlit("stream");
        assert(f[0].0@[0] != "input"@[0]);
        assert(f[0].0@.len() != "stream"@.len() && f[1].0@.len() != "stream"@.len());
        lemma_field_named_at(f, "model"@, 0);
        lemma_field_named_at(f, "input"@, 1);
        lemma_field_named_at(f, "stream"@, 2);
    }
    Json::Object(fields)
}

} // verus!
