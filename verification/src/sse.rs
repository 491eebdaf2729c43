//! Incremental Server-Sent Events decoder.
//!
//! Bytes stay bytes until a frame boundary is known: boundaries (`\n\n` and
//! `\r\n\r\n`) are ASCII, so a multi-byte UTF-8 character split across network
//! chunks never confuses the decoder.

use vstd::prelude::*;
use vstd::utf8::*;

use crate::text::{
    chars_of, copy_range, decimal, decimal_string, push_str, string_from_chars, string_from_utf8,
    string_of, strip_cr, trim, trim_bounds,
};

verus! {

/// A line-feed frame separator (`\n\n`) starts at `i`.
pub open spec fn lf_sep_at(b: Seq<u8>, i: int) -> bool {
    0 <= i && i + 2 <= b.len() && b[i] == 10u8 && b[i + 1] == 10u8
}

/// A CRLF frame separator (`\r\n\r\n`) starts at `i`.
pub open spec fn crlf_sep_at(b: Seq<u8>, i: int) -> bool {
    0 <= i && i + 4 <= b.len() && b[i] == 13u8 && b[i + 1] == 10u8 && b[i + 2] == 13u8
        && b[i + 3] == 10u8
}

pub open spec fn sep_at(b: Seq<u8>, i: int) -> bool {
    lf_sep_at(b, i) || crlf_sep_at(b, i)
}

/// Length of the separator that starts at `i`.
pub open spec fn sep_len(b: Seq<u8>, i: int) -> int {
    if lf_sep_at(b, i) {
        2
    } else {
        4
    }
}

/// The first position at or after `k` where a separator starts.
pub open spec fn first_sep_from(b: Seq<u8>, k: int) -> Option<int>
    decreases b.len() - k,
{
    if k < 0 || k + 2 > b.len() {
        None
    } else if sep_at(b, k) {
        Some(k)
    } else {
        first_sep_from(b, k + 1)
    }
}

/// The frame end of a buffer: the start and length of its earliest separator.
pub open spec fn frame_end(b: Seq<u8>) -> Option<(int, int)> {
    match first_sep_from(b, 0) {
        Some(i) => Some((i, sep_len(b, i))),
        None => None,
    }
}

/// `first_sep_from` finds the earliest separator at or after `k`.
pub proof fn lemma_first_sep_from(b: Seq<u8>, k: int)
    requires
        0 <= k,
    ensures
        first_sep_from(b, k) matches Some(i) ==> k <= i && sep_at(b, i) && i + sep_len(b, i)
            <= b.len() && forall|j: int| k <= j < i ==> !sep_at(b, j),
        first_sep_from(b, k) is None ==> forall|j: int| k <= j ==> !sep_at(b, j),
    decreases b.len() - k,
{
    if k + 2 > b.len() {
    } else if sep_at(b, k) {
    } else {
        lemma_first_sep_from(b, k + 1);
    }
}

/// Finds the earliest frame separator in `buf`: its start and its length.
fn find_frame_end(buf: &Vec<u8>) -> (res: Option<(usize, usize)>)
    ensures
        match res {
            Some((i, l)) => frame_end(buf@) == Some((i as int, l as int)),
            None => frame_end(buf@) is None,
        },
{
    let n = buf.len();
    let mut i: usize = 0;
    while n >= 2 && i <= n - 2
        invariant
            n == buf@.len(),
            i <= n,
            first_sep_from(buf@, 0) == first_sep_from(buf@, i as int),
        decreases n - i,
    {
        if buf[i] == 10u8 && buf[i + 1] == 10u8 {
            return Some((i, 2));
        }
        if n - i >= 4 && buf[i] == 13u8 && buf[i + 1] == 10u8 && buf[i + 2] == 13u8 && buf[i + 3]
            == 10u8 {
            return Some((i, 4));
        }
        i = i + 1;
    }
    None
}

} // verus!

verus! {

/// Prefix stability: a separator found in `x` is still the first one once more
/// bytes arrive after `x`.
proof fn lemma_first_sep_prefix(x: Seq<u8>, y: Seq<u8>, k: int)
    requires
        0 <= k,
        first_sep_from(x, k) is Some,
    ensures
        first_sep_from(x + y, k) == first_sep_from(x, k),
        sep_len(x + y, first_sep_from(x, k)->0) == sep_len(x, first_sep_from(x, k)->0),
    decreases x.len() - k,
{
    let xy = x + y;
    lemma_first_sep_from(x, k);
    let i = first_sep_from(x, k)->0;
    assert(xy[i] == x[i] && xy[i + 1] == x[i + 1]);
    if sep_at(x, k) {
        assert(xy[k] == x[k] && xy[k + 1] == x[k + 1]);
        if crlf_sep_at(x, k) {
            assert(xy[k + 2] == x[k + 2] && xy[k + 3] == x[k + 3]);
        }
    } else {
        assert(k < i);
        assert(xy[k] == x[k] && xy[k + 1] == x[k + 1]);
        if k + 4 <= x.len() {
            assert(xy[k + 2] == x[k + 2] && xy[k + 3] == x[k + 3]);
        }
        assert(!sep_at(xy, k));
        lemma_first_sep_prefix(x, y, k + 1);
    }
    if crlf_sep_at(x, i) {
        assert(xy[i + 2] == x[i + 2] && xy[i + 3] == x[i + 3]);
    }
}

/// An event decoded from the stream.
#[derive(Debug, Clone, PartialEq, Eq)]
pub enum SseEvent {
    /// One frame of data (usually JSON).
    Data(String),
    /// The `[DONE]` sentinel: the stream is over.
    Done,
}

/// What an `SseEvent` holds, as mathematical values.
pub enum SseEventView {
    Data(Seq<char>),
    Done,
}

impl View for SseEvent {
    type V = SseEventView;

    open spec fn view(&self) -> SseEventView {
        match self {
            SseEvent::Data(s) => SseEventView::Data(s@),
            SseEvent::Done => SseEventView::Done,
        }
    }
}

/// A decoding failure.
#[derive(Debug)]
pub enum SseError {
    /// A frame's bytes are not valid UTF-8.
    InvalidUtf8(std::string::FromUtf8Error),
    /// The undelimited rest of the stream grew past the limit (the limit is given).
    BufferOverflow(usize),
}

/// `std::string::FromUtf8Error`'s `Display` text (`ToString::to_string`).
/// Nothing is stated of its wording.
#[verifier::external_body]
fn utf8_error_text(e: &std::string::FromUtf8Error) -> String {
    e.to_string()
}

impl SseError {
    /// The message this error reports; for invalid UTF-8 the decoder's own
    /// description follows the fixed prefix.
    pub fn message(&self) -> (s: String)
        ensures
            match self {
                SseError::InvalidUtf8(_) => s@.len() >= "帧内容不是合法 UTF-8: "@.len() && s@.take(
                    "帧内容不是合法 UTF-8: "@.len() as int,
                ) == "帧内容不是合法 UTF-8: "@,
                SseError::BufferOverflow(n) => s@ == "缓冲区超过上限 "@ + decimal(*n as nat)
                    + " 字节，可能是对端没有正确分帧"@,
            },
    {
        match self {
            SseError::InvalidUtf8(e) => {
                let mut s = string_of("帧内容不是合法 UTF-8: ");
                let ghost prefix = s@;
                push_str(&mut s, utf8_error_text(e).as_str());
                assert(s@.take(prefix.len() as int) =~= prefix);
                s
            },
            SseError::BufferOverflow(n) => {
                let mut s = string_of("缓冲区超过上限 ");
                push_str(&mut s, decimal_string(*n).as_str());
                push_str(&mut s, " 字节，可能是对端没有正确分帧");
                s
            },
        }
    }
}

pub enum SseErrorView {
    InvalidUtf8,
    BufferOverflow(int),
}

impl View for SseError {
    type V = SseErrorView;

    open spec fn view(&self) -> SseErrorView {
        match self {
            SseError::InvalidUtf8(_) => SseErrorView::InvalidUtf8,
            SseError::BufferOverflow(n) => SseErrorView::BufferOverflow(*n as int),
        }
    }
}

pub open spec fn events_view(v: Seq<SseEvent>) -> Seq<SseEventView> {
    v.map_values(|e: SseEvent| e@)
}

pub open spec fn opt_event_view(o: Option<SseEvent>) -> Option<SseEventView> {
    match o {
        Some(e) => Some(e@),
        None => None,
    }
}

/// The characters `data:` that open a data line.
pub open spec fn data_field() -> Seq<char> {
    seq!['d', 'a', 't', 'a', ':']
}

/// The `[DONE]` sentinel.
pub open spec fn done_marker() -> Seq<char> {
    seq!['[', 'D', 'O', 'N', 'E', ']']
}

/// The value of a `data:` line: what follows the field name, less one space.
pub open spec fn data_value(line: Seq<char>) -> Seq<char> {
    let rest = line.skip(5);
    if rest.len() > 0 && rest[0] == ' ' {
        rest.skip(1)
    } else {
        rest
    }
}

/// The data gathered so far (`None` before the first data line) once one more
/// raw line is read: empty lines, comments (`:`) and other fields leave it
/// unchanged; the values of all data lines are joined with `\n`.
pub open spec fn data_after_line(acc: Option<Seq<char>>, raw: Seq<char>) -> Option<Seq<char>> {
    let line = strip_cr(raw);
    if line.len() == 0 || line[0] == ':' {
        acc
    } else if line.len() >= 5 && line.take(5) == data_field() {
        match acc {
            None => Some(data_value(line)),
            Some(d) => Some(d.push('\n') + data_value(line)),
        }
    } else {
        acc
    }
}

/// Reading `text` left to right: the data gathered from its complete lines,
/// and the line still open at its end.
pub open spec fn scan_lines(text: Seq<char>) -> (Option<Seq<char>>, Seq<char>)
    decreases text.len(),
{
    if text.len() == 0 {
        (None, seq![])
    } else {
        let (acc, line) = scan_lines(text.drop_last());
        if text.last() == '\n' {
            (data_after_line(acc, line), seq![])
        } else {
            (acc, line.push(text.last()))
        }
    }
}

/// The data of a frame's text: its lines split at `\n`, folded in order.
pub open spec fn frame_data(text: Seq<char>) -> Seq<char> {
    let (acc, line) = scan_lines(text);
    match data_after_line(acc, line) {
        Some(d) => d,
        None => seq![],
    }
}

/// The event a frame's text carries, if any.
pub open spec fn frame_event(text: Seq<char>) -> Option<SseEventView> {
    let data = frame_data(text);
    if data.len() == 0 {
        None
    } else if trim(data) == done_marker() {
        Some(SseEventView::Done)
    } else {
        Some(SseEventView::Data(data))
    }
}

/// What one frame's bytes decode to.
pub open spec fn frame_result(frame: Seq<u8>) -> Result<Option<SseEventView>, SseErrorView> {
    if valid_utf8(frame) {
        Ok(frame_event(decode_utf8(frame)))
    } else {
        Err(SseErrorView::InvalidUtf8)
    }
}

pub open spec fn prepend_event(o: Option<SseEventView>, evs: Seq<SseEventView>) -> Seq<
    SseEventView,
> {
    match o {
        Some(e) => seq![e] + evs,
        None => evs,
    }
}

/// Cutting every complete frame off the front of `b` and decoding it, stopping
/// at the first frame that fails: the events (or the error) and the bytes left.
pub open spec fn drain_frames(b: Seq<u8>) -> (Result<Seq<SseEventView>, SseErrorView>, Seq<u8>)
    decreases b.len(),
{
    match frame_end(b) {
        None => (Ok(seq![]), b),
        Some((i, l)) => {
            proof {
                lemma_first_sep_from(b, 0);
            }
            let rest = b.skip(i + l);
            match frame_result(b.take(i)) {
                Err(e) => (Err(e), rest),
                Ok(o) => {
                    let (r, left) = drain_frames(rest);
                    (
                        match r {
                            Ok(evs) => Ok(prepend_event(o, evs)),
                            Err(e) => Err(e),
                        },
                        left,
                    )
                },
            }
        },
    }
}

/// The state of a decoder: the bytes of the frame still open and the limit on them.
pub struct SseParserView {
    pub buffer: Seq<u8>,
    pub max_buffer: int,
}

/// Feeding `chunk` to a decoder in state `p`: the state after, and the events
/// of every frame the chunk completes, or the error.
pub open spec fn feed_result(p: SseParserView, chunk: Seq<u8>) -> (
    SseParserView,
    Result<Seq<SseEventView>, SseErrorView>,
) {
    let (r, left) = drain_frames(p.buffer + chunk);
    let q = SseParserView { buffer: left, max_buffer: p.max_buffer };
    match r {
        Err(e) => (q, Err(e)),
        Ok(evs) => if left.len() > p.max_buffer {
            (q, Err(SseErrorView::BufferOverflow(p.max_buffer)))
        } else {
            (q, Ok(evs))
        },
    }
}

/// Ending the stream in state `p`: the last, undelimited frame is decoded.
pub open spec fn finish_result(p: SseParserView) -> (
    SseParserView,
    Result<Option<SseEventView>, SseErrorView>,
) {
    if p.buffer.len() == 0 {
        (p, Ok(None))
    } else {
        (SseParserView { buffer: seq![], max_buffer: p.max_buffer }, frame_result(p.buffer))
    }
}

/// The default limit on buffered bytes: 8 MiB.
pub const DEFAULT_MAX_BUFFER: usize = 8388608;

/// An incremental decoder: feed it byte chunks cut anywhere, get whole events.
pub struct SseParser {
    buffer: Vec<u8>,
    max_buffer: usize,
}

impl View for SseParser {
    type V = SseParserView;

    closed spec fn view(&self) -> SseParserView {
        SseParserView { buffer: self.buffer@, max_buffer: self.max_buffer as int }
    }
}

impl Default for SseParser {
    fn default() -> (p: Self)
        ensures
            p@.buffer == Seq::<u8>::empty(),
            p@.max_buffer == DEFAULT_MAX_BUFFER,
    {
        Self::new()
    }
}

/// The data gathered so far, given the text and whether a data line was seen.
pub open spec fn gathered(data: Seq<char>, seen: bool) -> Option<Seq<char>> {
    if seen {
        Some(data)
    } else {
        None
    }
}

/// Folds one raw line into the data gathered so far.
fn push_data_line(data: &mut Vec<char>, seen: &mut bool, raw: &Vec<char>)
    requires
        !*old(seen) ==> old(data)@.len() == 0,
    ensures
        gathered(final(data)@, *final(seen)) == data_after_line(gathered(old(data)@, *old(seen)), raw@),
        !*final(seen) ==> final(data)@.len() == 0,
{
    let mut end = raw.len();
    if end > 0 && raw[end - 1] == '\r' {
        end = end - 1;
    }
    let ghost line = strip_cr(raw@);
    assert(line == raw@.take(end as int));
    if end == 0 || raw[0] == ':' {
        return ;
    }
    if end >= 5 && raw[0] == 'd' && raw[1] == 'a' && raw[2] == 't' && raw[3] == 'a' && raw[4]
        == ':' {
        assert(line.take(5) =~= data_field());
        let mut start: usize = 5;
        if start < end && raw[5] == ' ' {
            start = 6;
        }
        assert(data_value(line) =~= raw@.subrange(start as int, end as int));
        let ghost before = data@;
        let ghost was_seen = *seen;
        if *seen {
            data.push('\n');
        }
        *seen = true;
        let mut i = start;
        while i < end
            invariant
                start <= i <= end <= raw@.len(),
                data@ == (if !was_seen {
                    before
                } else {
                    before.push('\n')
                }) + raw@.subrange(start as int, i as int),
                !was_seen ==> before.len() == 0,
            decreases end - i,
        {
            data.push(raw[i]);
            assert(raw@.subrange(start as int, i + 1) == raw@.subrange(start as int, i as int).push(
                raw@[i as int],
            ));
            i = i + 1;
        }
    } else {
        if end >= 5 {
            assert(line.take(5)[0] == raw@[0]);
            assert(line.take(5)[1] == raw@[1]);
            assert(line.take(5)[2] == raw@[2]);
            assert(line.take(5)[3] == raw@[3]);
            assert(line.take(5)[4] == raw@[4]);
            assert(line.take(5) != data_field());
        }
    }
}

impl SseParser {
    /// A decoder with an empty buffer and the default limit.
    pub fn new() -> (p: Self)
        ensures
            p@.buffer == Seq::<u8>::empty(),
            p@.max_buffer == DEFAULT_MAX_BUFFER,
    {
        SseParser { buffer: Vec::new(), max_buffer: DEFAULT_MAX_BUFFER }
    }

    /// A decoder with an empty buffer and the given limit on buffered bytes.
    pub fn with_max_buffer(max_buffer: usize) -> (p: Self)
        ensures
            p@.buffer == Seq::<u8>::empty(),
            p@.max_buffer == max_buffer,
    {
        SseParser { buffer: Vec::new(), max_buffer }
    }

    /// Feeds a chunk of any size; returns every event the chunk completes.
    pub fn feed(&mut self, chunk: &[u8]) -> (res: Result<Vec<SseEvent>, SseError>)
        ensures
            feed_result(old(self)@, chunk@) == (final(self)@, match res {
                Ok(evs) => Ok::<Seq<SseEventView>, SseErrorView>(events_view(evs@)),
                Err(e) => Err(e@),
            }),
    {
        let ghost total = self.buffer@ + chunk@;
        let mut k: usize = 0;
        while k < chunk.len()
            invariant
                k <= chunk@.len(),
                self.buffer@ + chunk@.skip(k as int) == total,
                total == old(self).buffer@ + chunk@,
                self.max_buffer == old(self).max_buffer,
            decreases chunk@.len() - k,
        {
            let ghost before = self.buffer@;
            self.buffer.push(chunk[k]);
            assert(chunk@.skip(k as int) == seq![chunk@[k as int]] + chunk@.skip(k + 1));
            assert(before.push(chunk@[k as int]) + chunk@.skip(k + 1) == before + chunk@.skip(
                k as int,
            ));
            k = k + 1;
        }
        assert(chunk@.skip(chunk@.len() as int) == Seq::<u8>::empty());
        assert(self.buffer@ == total);
        let mut events: Vec<SseEvent> = Vec::new();
        loop
            invariant
                self.max_buffer == old(self).max_buffer,
                total == old(self).buffer@ + chunk@,
                drain_frames(total).1 == drain_frames(self.buffer@).1,
                drain_frames(total).0 == match drain_frames(self.buffer@).0 {
                    Ok(evs) => Ok(events_view(events@) + evs),
                    Err(e) => Err::<Seq<SseEventView>, SseErrorView>(e),
                },
            ensures
                self.max_buffer == old(self).max_buffer,
                total == old(self).buffer@ + chunk@,
                drain_frames(total) == (
                    Ok::<Seq<SseEventView>, SseErrorView>(events_view(events@)),
                    self.buffer@,
                ),
            decreases self.buffer@.len(),
        {
            match find_frame_end(&self.buffer) {
                None => {
                    assert(events_view(events@) + Seq::<SseEventView>::empty() == events_view(
                        events@,
                    ));
                    break ;
                },
                Some((idx, sep)) => {
                    let ghost b = self.buffer@;
                    proof {
                        lemma_first_sep_from(b, 0);
                        assert(first_sep_from(b, 0) == Some(idx as int));
                    }
                    assert(idx + sep <= self.buffer.len());
                    let frame = copy_range(&self.buffer, 0, idx);
                    let tail = copy_range(&self.buffer, idx + sep, self.buffer.len());
                    assert(frame@ == b.take(idx as int));
                    assert(tail@ == b.skip(idx + sep));
                    self.buffer = tail;
                    match Self::parse_frame(&frame) {
                        Err(e) => {
                            return Err(e);
                        },
                        Ok(o) => {
                            let ghost prev = events_view(events@);
                            match o {
                                Some(ev) => {
                                    events.push(ev);
                                    assert(events_view(events@) == prev.push(ev@));
                                    assert forall|evs: Seq<SseEventView>|
                                        #![auto]
                                        prev + prepend_event(Some(ev@), evs) == events_view(
                                            events@,
                                        ) + evs by {
                                        assert(prev + (seq![ev@] + evs) == prev.push(ev@) + evs);
                                    }
                                },
                                None => {},
                            }
                        },
                    }
                },
            }
        }
        if self.buffer.len() > self.max_buffer {
            return Err(SseError::BufferOverflow(self.max_buffer));
        }
        Ok(events)
    }

    /// Ends the stream: decodes what is left, for servers that do not close the
    /// last frame with a separator.
    pub fn finish(&mut self) -> (res: Result<Option<SseEvent>, SseError>)
        ensures
            finish_result(old(self)@) == (final(self)@, match res {
                Ok(o) => Ok::<Option<SseEventView>, SseErrorView>(opt_event_view(o)),
                Err(e) => Err(e@),
            }),
    {
        if self.buffer.len() == 0 {
            return Ok(None);
        }
        let mut frame: Vec<u8> = Vec::new();
        std::mem::swap(&mut frame, &mut self.buffer);
        Self::parse_frame(&frame)
    }

    /// Decodes one frame.
    fn parse_frame(frame: &Vec<u8>) -> (res: Result<Option<SseEvent>, SseError>)
        ensures
            frame_result(frame@) == match res {
                Ok(o) => Ok::<Option<SseEventView>, SseErrorView>(opt_event_view(o)),
                Err(e) => Err(e@),
            },
    {
        let text = match string_from_utf8(frame.clone()) {
            Ok(t) => t,
            Err(e) => {
                return Err(SseError::InvalidUtf8(e));
            },
        };
        let chars = chars_of(&text);
        let mut data: Vec<char> = Vec::new();
        let mut seen = false;
        let mut line: Vec<char> = Vec::new();
        let n = chars.len();
        let mut i: usize = 0;
        while i < n
            invariant
                i <= n == chars@.len(),
                scan_lines(chars@.take(i as int)) == (gathered(data@, seen), line@),
                !seen ==> data@.len() == 0,
            decreases n - i,
        {
            let c = chars[i];
            assert(chars@.take(i + 1).drop_last() == chars@.take(i as int));
            if c == '\n' {
                push_data_line(&mut data, &mut seen, &line);
                line = Vec::new();
            } else {
                line.push(c);
            }
            i = i + 1;
        }
        assert(chars@.take(n as int) == chars@);
        push_data_line(&mut data, &mut seen, &line);
        if data.len() == 0 {
            return Ok(None);
        }
        let (a, b) = trim_bounds(&data);
        if b - a == 6 && data[a] == '[' && data[a + 1] == 'D' && data[a + 2] == 'O' && data[a + 3]
            == 'N' && data[a + 4] == 'E' && data[a + 5] == ']' {
            assert(data@.subrange(a as int, b as int) =~= done_marker());
            return Ok(Some(SseEvent::Done));
        }
        proof {
            let t = data@.subrange(a as int, b as int);
            if t == done_marker() {
                assert(t.len() == 6);
                assert(t[0] == data@[a as int]);
                assert(t[1] == data@[a + 1]);
                assert(t[2] == data@[a + 2]);
                assert(t[3] == data@[a + 3]);
                assert(t[4] == data@[a + 4]);
                assert(t[5] == data@[a + 5]);
            }
        }
        Ok(Some(SseEvent::Data(string_from_chars(&data))))
    }
}

} // verus!

verus! {

/// Draining `x + y` is draining `x`, then draining what `x` left followed by `y`.
proof fn lemma_drain_append(x: Seq<u8>, y: Seq<u8>)
    requires
        drain_frames(x).0 is Ok,
    ensures
        drain_frames(x + y) == (
            match drain_frames(drain_frames(x).1 + y).0 {
                Ok(e2) => Ok::<Seq<SseEventView>, SseErrorView>(drain_frames(x).0->Ok_0 + e2),
                Err(e) => Err(e),
            },
            drain_frames(drain_frames(x).1 + y).1,
        ),
    decreases x.len(),
{
    match frame_end(x) {
        None => {
            assert forall|e2: Seq<SseEventView>| Seq::<SseEventView>::empty() + e2 == e2 by {
                assert(Seq::<SseEventView>::empty() + e2 =~= e2);
            }
        },
        Some((i, l)) => {
            lemma_first_sep_from(x, 0);
            lemma_first_sep_prefix(x, y, 0);
            let xy = x + y;
            assert(frame_end(xy) == Some((i, l)));
            assert(xy.take(i) == x.take(i));
            assert(xy.skip(i + l) == x.skip(i + l) + y);
            let o = frame_result(x.take(i))->Ok_0;
            lemma_drain_append(x.skip(i + l), y);
            assert forall|e1: Seq<SseEventView>, e2: Seq<SseEventView>|
                prepend_event(o, e1 + e2) == prepend_event(o, e1) + e2 by {
                match o {
                    Some(ev) => {
                        assert(seq![ev] + (e1 + e2) =~= (seq![ev] + e1) + e2);
                    },
                    None => {},
                }
            }
        },
    }
}

/// Where a stream is cut into chunks does not matter: feeding `a` and then `b`
/// yields, when both succeed, the events and the state that feeding `a + b` at
/// once yields.
pub proof fn lemma_feed_split(p: SseParserView, a: Seq<u8>, b: Seq<u8>)
    requires
        feed_result(p, a).1 is Ok,
        feed_result(feed_result(p, a).0, b).1 is Ok,
    ensures
        feed_result(p, a + b) == (
            feed_result(feed_result(p, a).0, b).0,
            Ok::<Seq<SseEventView>, SseErrorView>(
                feed_result(p, a).1->Ok_0 + feed_result(feed_result(p, a).0, b).1->Ok_0,
            ),
        ),
{
    lemma_drain_append(p.buffer + a, b);
    assert((p.buffer + a) + b == p.buffer + (a + b));
}

} // verus!

verus! {

/// A line that opens with the `data:` field (a trailing `\r` aside).
pub open spec fn is_data_line(raw: Seq<char>) -> bool {
    let l = strip_cr(raw);
    l.len() >= 5 && l.take(5) == data_field()
}

proof fn lemma_scan_line_ended(x: Seq<char>)
    requires
        x.len() == 0 || x.last() == '\n',
    ensures
        scan_lines(x).1 == Seq::<char>::empty(),
{
}

proof fn lemma_scan_skip_field_line(x: Seq<char>, f: Seq<char>, y: Seq<char>)
    requires
        x.len() == 0 || x.last() == '\n',
        forall|i: int| 0 <= i < f.len() ==> f[i] != '\n',
        !is_data_line(f),
    ensures
        scan_lines(x + f + seq!['\n'] + y) == scan_lines(x + y),
    decreases y.len(),
{
    let p = x + f + seq!['\n'];
    if y.len() == 0 {
        assert(p + y =~= p);
        assert(x + y =~= x);
        assert(p.drop_last() =~= x + f);
        lemma_scan_plain_suffix(x, f);
        lemma_scan_line_ended(x);
        assert(Seq::<char>::empty() + f =~= f);
    } else {
        lemma_scan_skip_field_line(x, f, y.drop_last());
        assert((p + y).drop_last() =~= p + y.drop_last());
        assert((p + y).last() == y.last());
        assert((x + y).drop_last() =~= x + y.drop_last());
        assert((x + y).last() == y.last());
    }
}

/// Lines of a frame other than data lines do not touch its data: wherever
/// such a line stands among the frame's lines (an `event:` or `id:` field, a
/// comment, an empty line), the frame carries what it carries without it.
pub proof fn lemma_field_lines_leave_data(x: Seq<char>, f: Seq<char>, y: Seq<char>)
    requires
        x.len() == 0 || x.last() == '\n',
        forall|i: int| 0 <= i < f.len() ==> f[i] != '\n',
        !is_data_line(f),
    ensures
        frame_data(x + f + seq!['\n'] + y) == frame_data(x + y),
        frame_event(x + f + seq!['\n'] + y) == frame_event(x + y),
{
    lemma_scan_skip_field_line(x, f, y);
}


proof fn lemma_scan_plain_suffix(x: Seq<char>, b: Seq<char>)
    requires
        forall|i: int| 0 <= i < b.len() ==> b[i] != '\n',
    ensures
        scan_lines(x + b) == (scan_lines(x).0, scan_lines(x).1 + b),
    decreases b.len(),
{
    if b.len() == 0 {
        assert(x + b =~= x);
        assert(scan_lines(x).1 + b =~= scan_lines(x).1);
    } else {
        lemma_scan_plain_suffix(x, b.drop_last());
        assert((x + b).drop_last() =~= x + b.drop_last());
        assert(scan_lines(x).1 + b.drop_last() + seq![b.last()] =~= scan_lines(x).1 + b);
    }
}

/// A value that a data line can carry whole: no line break in it and no
/// carriage return at its end.
pub open spec fn plain_value(v: Seq<char>) -> bool {
    &&& forall|i: int| 0 <= i < v.len() ==> v[i] != '\n'
    &&& !(v.len() > 0 && v.last() == '\r')
}

/// What may stand between `data:` and the value: nothing, or one space (then
/// the value itself may start with a space).
pub open spec fn value_gap(sp: Seq<char>, v: Seq<char>) -> bool {
    sp == seq![' '] || (sp == Seq::<char>::empty() && !(v.len() > 0 && v[0] == ' '))
}

proof fn lemma_data_line_value(sp: Seq<char>, v: Seq<char>)
    requires
        plain_value(v),
        value_gap(sp, v),
    ensures
        forall|i: int|
            0 <= i < (data_field() + sp + v).len() ==> (data_field() + sp + v)[i] != '\n',
        is_data_line(data_field() + sp + v),
        strip_cr(data_field() + sp + v) == data_field() + sp + v,
        data_value(data_field() + sp + v) == v,
{
    let l = data_field() + sp + v;
    let k: int = 5 + sp.len() as int;
    assert forall|i: int| 0 <= i < l.len() implies l[i] != '\n' by {
        if i >= k {
            assert(l[i] == v[i - k]);
        } else if i >= 5 {
            assert(l[i] == sp[i - 5]);
        }
    }
    if v.len() > 0 {
        assert(l.last() == v.last());
    } else if sp.len() > 0 {
        assert(l.last() == ' ');
    }
    assert(l.take(5) =~= data_field());
    if sp.len() > 0 {
        assert(l.skip(5) =~= seq![' '] + v);
        assert(l.skip(5).skip(1) =~= v);
    } else {
        assert(l.skip(5) =~= v);
    }
}

/// A frame of one data line carries its value: `data:`, at most one space,
/// then `v`.
pub proof fn lemma_data_line_carries_value(sp: Seq<char>, v: Seq<char>)
    requires
        plain_value(v),
        value_gap(sp, v),
    ensures
        frame_data(data_field() + sp + v) == v,
{
    let l = data_field() + sp + v;
    lemma_data_line_value(sp, v);
    lemma_scan_plain_suffix(Seq::<char>::empty(), l);
    assert(Seq::<char>::empty() + l =~= l);
    assert(scan_lines(Seq::<char>::empty()) == (None::<Seq<char>>, Seq::<char>::empty()));
}

/// The data lines of a frame are joined with one `\n` between their values:
/// the frame `data: a` `\n` `data: b` carries `a`, a line break and `b`.
#[verifier::rlimit(40)]
pub proof fn lemma_data_lines_joined(sp: Seq<char>, a: Seq<char>, b: Seq<char>)
    requires
        plain_value(a),
        plain_value(b),
        value_gap(sp, a),
        value_gap(sp, b),
    ensures
        frame_data(data_field() + sp + a + seq!['\n'] + data_field() + sp + b) == a.push('\n') + b,
{
    let la = data_field() + sp + a;
    let lb = data_field() + sp + b;
    lemma_data_line_value(sp, a);
    lemma_data_line_value(sp, b);
    lemma_scan_plain_suffix(Seq::<char>::empty(), la);
    assert(Seq::<char>::empty() + la =~= la);
    assert(scan_lines(Seq::<char>::empty()) == (None::<Seq<char>>, Seq::<char>::empty()));
    let x = la + seq!['\n'];
    assert(x.drop_last() =~= la);
    assert(scan_lines(x) == (Some(a), Seq::<char>::empty()));
    lemma_scan_plain_suffix(x, lb);
    assert(x + lb =~= data_field() + sp + a + seq!['\n'] + data_field() + sp + b);
    assert(Seq::<char>::empty() + lb =~= lb);
}

} // verus!
