//! The rollout log: every record of a thread is appended, one JSON document
//! per line, to `<thread_id>.jsonl`; the file is never rewritten.
//!
//! Reading is lenient: a line that does not parse is skipped, the good lines
//! come back as they were written.

use vstd::prelude::*;

use vstd::utf8::*;

use crate::llm::opt_string_view;
use crate::protocol::{Item, ItemView};
use crate::text::{copy_range, push_str, string_from_utf8, string_of};

verus! {

/// One line of the log: an item, with who wrote it, in which turn and when.
#[derive(Debug, Clone, PartialEq)]
pub struct Record {
    /// The schema version; it goes up when the fields change.
    pub v: u16,
    /// Unix time in milliseconds.
    pub ts_ms: i64,
    pub thread_id: String,
    pub turn: usize,
    pub item: Item,
}

pub struct RecordView {
    pub v: u16,
    pub ts_ms: i64,
    pub thread_id: Seq<char>,
    pub turn: usize,
    pub item: ItemView,
}

impl View for Record {
    type V = RecordView;

    open spec fn view(&self) -> RecordView {
        RecordView {
            v: self.v,
            ts_ms: self.ts_ms,
            thread_id: self.thread_id@,
            turn: self.turn,
            item: self.item@,
        }
    }
}

/// A log kept in one directory, one file per thread.
pub struct Rollout {
    dir: std::path::PathBuf,
}

impl Rollout {
    /// The directory it was made with.
    pub closed spec fn directory(&self) -> std::path::PathBuf {
        self.dir
    }

    /// A log kept in `dir`.
    pub fn new(dir: std::path::PathBuf) -> (r: Self)
        ensures
            r.directory() == dir,
    {
        Rollout { dir }
    }

    /// The directory the log is kept in.
    pub fn dir(&self) -> (d: &std::path::PathBuf)
        ensures
            *d == self.directory(),
    {
        &self.dir
    }
}

/// The name of a thread's log file: `<thread_id>.jsonl`.
pub fn thread_file_name(thread_id: &str) -> (name: String)
    ensures
        name@ == thread_id@ + ".jsonl"@,
{
    let mut name = string_of(thread_id);
    push_str(&mut name, ".jsonl");
    name
}

/// The text of a run of lines, each ended by `\n`.
pub open spec fn jsonl(lines: Seq<Seq<char>>) -> Seq<char>
    decreases lines.len(),
{
    if lines.len() == 0 {
        seq![]
    } else {
        jsonl(lines.drop_last()) + lines.last() + seq!['\n']
    }
}

/// A line as a writer of the log may write it: no `\n` in it, no `\r` at its end.
pub open spec fn is_clean_line(l: Seq<char>) -> bool {
    &&& forall|i: int| 0 <= i < l.len() ==> l[i] != '\n'
    &&& !(l.len() > 0 && l.last() == '\r')
}

pub open spec fn strings_view(v: Seq<String>) -> Seq<Seq<char>> {
    v.map_values(|s: String| s@)
}

/// The text that appending these lines writes: each line and a `\n`.
pub fn jsonl_text(lines: &Vec<String>) -> (text: String)
    ensures
        text@ == jsonl(strings_view(lines@)),
{
    let mut text = String::new();
    let mut i: usize = 0;
    while i < lines.len()
        invariant
            i <= lines@.len(),
            text@ == jsonl(strings_view(lines@.take(i as int))),
        decreases lines@.len() - i,
    {
        let ghost before = strings_view(lines@.take(i as int));
        push_str(&mut text, lines[i].as_str());
        push_str(&mut text, "\n");
        proof {
            reveal_strlit("\n");
            let after = strings_view(lines@.take(i + 1));
            assert(after.drop_last() =~= before);
            assert(after.last() == lines@[i as int]@);
        }
        i = i + 1;
    }
    assert(lines@.take(lines@.len() as int) == lines@);
    text
}

/// Cutting bytes at every `\n` byte: the complete pieces, and the piece still
/// open at the end.
pub open spec fn split_bytes_at_newlines(s: Seq<u8>) -> (Seq<Seq<u8>>, Seq<u8>)
    decreases s.len(),
{
    if s.len() == 0 {
        (seq![], seq![])
    } else {
        let (done, cur) = split_bytes_at_newlines(s.drop_last());
        if s.last() == 10u8 {
            (done.push(cur), seq![])
        } else {
            (done, cur.push(s.last()))
        }
    }
}

/// A line of bytes without its one trailing `\r`, if it has one.
pub open spec fn strip_cr_byte(line: Seq<u8>) -> Seq<u8> {
    if line.len() > 0 && line.last() == 13u8 {
        line.drop_last()
    } else {
        line
    }
}

/// The text of one line of bytes, or `None` where it is not UTF-8.
pub open spec fn decoded_line(line: Seq<u8>) -> Option<Seq<char>> {
    if valid_utf8(line) {
        Some(decode_utf8(line))
    } else {
        None
    }
}

/// The lines of the log's bytes (cut at each `\n`, a `\r` right before it
/// dropped, no empty line after a final `\n`), each decoded on its own.
pub open spec fn decoded_lines(s: Seq<u8>) -> Seq<Option<Seq<char>>> {
    let (done, cur) = split_bytes_at_newlines(s);
    let lines = done.map_values(|l: Seq<u8>| strip_cr_byte(l)) + if cur.len() > 0 {
        seq![cur]
    } else {
        Seq::<Seq<u8>>::empty()
    };
    lines.map_values(|l: Seq<u8>| decoded_line(l))
}

pub open spec fn opt_strings_view(v: Seq<Option<String>>) -> Seq<Option<Seq<char>>> {
    v.map_values(|o: Option<String>| opt_string_view(o))
}

/// The text of one line of bytes, if it is UTF-8.
fn decode_line(bytes: Vec<u8>) -> (r: Option<String>)
    ensures
        opt_string_view(r) == decoded_line(bytes@),
{
    match string_from_utf8(bytes) {
        Ok(s) => Some(s),
        Err(_) => None,
    }
}

/// The lines of the log's bytes, each decoded on its own: a line that is not
/// UTF-8 comes back as `None` and does not spoil the others.
pub fn jsonl_byte_lines(content: &Vec<u8>) -> (lines: Vec<Option<String>>)
    ensures
        opt_strings_view(lines@) == decoded_lines(content@),
{
    let n = content.len();
    let mut lines: Vec<Option<String>> = Vec::new();
    let mut start: usize = 0;
    let mut i: usize = 0;
    while i < n
        invariant
            start <= i <= n == content@.len(),
            split_bytes_at_newlines(content@.take(i as int)).1 == content@.subrange(
                start as int,
                i as int,
            ),
            opt_strings_view(lines@) == split_bytes_at_newlines(content@.take(i as int)).0.map_values(
                |l: Seq<u8>| decoded_line(strip_cr_byte(l)),
            ),
        decreases n - i,
    {
        assert(content@.take(i + 1).drop_last() == content@.take(i as int));
        if content[i] == 10u8 {
            let mut end = i;
            if end > start && content[end - 1] == 13u8 {
                end = end - 1;
            }
            let ghost cur = content@.subrange(start as int, i as int);
            let piece = copy_range(content, start, end);
            assert(piece@ == strip_cr_byte(cur));
            let line = decode_line(piece);
            let ghost before = opt_strings_view(lines@);
            let ghost done = split_bytes_at_newlines(content@.take(i as int)).0;
            lines.push(line);
            assert(opt_strings_view(lines@) =~= before.push(decoded_line(strip_cr_byte(cur))));
            assert(done.push(cur).map_values(|l: Seq<u8>| decoded_line(strip_cr_byte(l)))
                =~= done.map_values(|l: Seq<u8>| decoded_line(strip_cr_byte(l))).push(
                decoded_line(strip_cr_byte(cur)),
            ));
            start = i + 1;
            assert(content@.subrange(start as int, i + 1) =~= Seq::<u8>::empty());
        } else {
            assert(content@.subrange(start as int, i + 1) =~= content@.subrange(
                start as int,
                i as int,
            ).push(content@[i as int]));
        }
        i = i + 1;
    }
    assert(content@.take(n as int) == content@);
    let ghost (done, cur) = split_bytes_at_newlines(content@);
    let ghost done_lines = opt_strings_view(lines@);
    if start < n {
        let piece = copy_range(content, start, n);
        let last = decode_line(piece);
        lines.push(last);
        assert(opt_strings_view(lines@) =~= done_lines.push(decoded_line(cur)));
    } else {
        assert(opt_strings_view(lines@) =~= done_lines);
    }
    assert(decoded_lines(content@) =~= opt_strings_view(lines@));
    lines
}

/// The values that are present, in order.
pub open spec fn present<T>(s: Seq<Option<T>>) -> Seq<T>
    decreases s.len(),
{
    if s.len() == 0 {
        seq![]
    } else {
        match s.last() {
            Some(x) => present(s.drop_last()).push(x),
            None => present(s.drop_last()),
        }
    }
}

/// Keeps the lines that parsed, in order, and skips the others.
pub fn keep_parsed<T>(parsed: Vec<Option<T>>) -> (kept: Vec<T>)
    ensures
        kept@ == present(parsed@),
{
    let mut kept: Vec<T> = Vec::new();
    let mut rest = parsed;
    let ghost all = rest@;
    let mut k: usize = 0;
    let total = rest.len();
    assert(all.len() == total);
    while rest.len() > 0
        invariant
            k + rest@.len() == all.len(),
            all.len() <= usize::MAX,
            rest@ == all.skip(k as int),
            kept@ == present(all.take(k as int)),
        decreases rest@.len(),
    {
        assert(all.take(k + 1).drop_last() == all.take(k as int));
        assert(all.take(k + 1).last() == rest@[0]);
        let ghost r = rest@;
        let x = rest.remove(0);
        assert(rest@ =~= all.skip(k + 1));
        match x {
            Some(v) => kept.push(v),
            None => {},
        }
        k = k + 1;
    }
    assert(all.take(k as int) == all);
    kept
}

} // verus!

verus! {

proof fn lemma_scalar_bytes(c: char)
    ensures
        encode_scalar(c as u32).len() > 0,
        forall|j: int|
            0 <= j < encode_scalar(c as u32).len() && #[trigger] encode_scalar(c as u32)[j] == 10u8
                ==> c == '\n',
        encode_scalar(c as u32).last() == 13u8 ==> c == '\r',
{
    let s = c as u32;
    char_is_scalar(c);
    char_u32_cast(c, s);
    char_u32_cast('\n', '\n' as u32);
    char_u32_cast('\r', '\r' as u32);
    assert(forall|x: u8| #[trigger] (0x80u8 | x) >= 0x80u8) by (bit_vector);
    assert(forall|x: u8| #[trigger] (0xC0u8 | x) >= 0x80u8) by (bit_vector);
    assert(forall|x: u8| #[trigger] (0xE0u8 | x) >= 0x80u8) by (bit_vector);
    assert(forall|x: u8| #[trigger] (0xF0u8 | x) >= 0x80u8) by (bit_vector);
    if has_width_1_encoding(s) {
        assert(((s & 0x7Fu32) as u8) as u32 == s) by (bit_vector)
            requires
                s <= 0x7Fu32,
        ;
    }
}

proof fn lemma_encode_append(a: Seq<char>, b: Seq<char>)
    ensures
        encode_utf8(a + b) == encode_utf8(a) + encode_utf8(b),
    decreases a.len(),
{
    if a.len() == 0 {
        assert(a + b =~= b);
        assert(encode_utf8(a) + encode_utf8(b) =~= encode_utf8(b));
    } else {
        assert((a + b)[0] == a[0]);
        assert((a + b).drop_first() =~= a.drop_first() + b);
        lemma_encode_append(a.drop_first(), b);
        assert(encode_scalar(a[0] as u32) + (encode_utf8(a.drop_first()) + encode_utf8(b))
            =~= encode_scalar(a[0] as u32) + encode_utf8(a.drop_first()) + encode_utf8(b));
    }
}

proof fn lemma_encode_one(c: char)
    ensures
        encode_utf8(seq![c]) == encode_scalar(c as u32),
{
    let one = seq![c];
    assert(one[0] == c);
    assert(one.drop_first() =~= Seq::<char>::empty());
    assert(encode_utf8(one.drop_first()) == Seq::<u8>::empty());
    assert(encode_utf8(one) == encode_scalar(one[0] as u32) + encode_utf8(one.drop_first()));
    assert(encode_scalar(c as u32) + Seq::<u8>::empty() =~= encode_scalar(c as u32));
}

proof fn lemma_encode_plain(l: Seq<char>)
    requires
        forall|i: int| 0 <= i < l.len() ==> l[i] != '\n',
    ensures
        forall|j: int| 0 <= j < encode_utf8(l).len() ==> #[trigger] encode_utf8(l)[j] != 10u8,
    decreases l.len(),
{
    if l.len() > 0 {
        let rest = l.drop_first();
        assert forall|i: int| 0 <= i < rest.len() implies rest[i] != '\n' by {
            assert(rest[i] == l[i + 1]);
        }
        lemma_encode_plain(rest);
        lemma_scalar_bytes(l[0]);
        let e = encode_scalar(l[0] as u32);
        assert forall|j: int| 0 <= j < encode_utf8(l).len() implies #[trigger] encode_utf8(l)[j]
            != 10u8 by {
            if j < e.len() {
                assert(encode_utf8(l)[j] == e[j]);
            } else {
                assert(encode_utf8(l)[j] == encode_utf8(rest)[j - e.len()]);
            }
        }
    }
}

proof fn lemma_split_bytes_append_plain(a: Seq<u8>, b: Seq<u8>)
    requires
        forall|i: int| 0 <= i < b.len() ==> b[i] != 10u8,
    ensures
        split_bytes_at_newlines(a + b) == (
            split_bytes_at_newlines(a).0,
            split_bytes_at_newlines(a).1 + b,
        ),
    decreases b.len(),
{
    if b.len() == 0 {
        assert(a + b =~= a);
        assert(split_bytes_at_newlines(a).1 + b =~= split_bytes_at_newlines(a).1);
    } else {
        lemma_split_bytes_append_plain(a, b.drop_last());
        assert((a + b).drop_last() =~= a + b.drop_last());
        assert((a + b).last() == b.last());
        assert(split_bytes_at_newlines(a).1 + b.drop_last() + seq![b.last()]
            =~= split_bytes_at_newlines(a).1 + b);
    }
}

pub open spec fn encoded_lines(lines: Seq<Seq<char>>) -> Seq<Seq<u8>> {
    lines.map_values(|l: Seq<char>| encode_utf8(l))
}

proof fn lemma_split_encoded_jsonl(lines: Seq<Seq<char>>)
    requires
        forall|i: int| 0 <= i < lines.len() ==> is_clean_line(#[trigger] lines[i]),
    ensures
        split_bytes_at_newlines(encode_utf8(jsonl(lines))) == (
            encoded_lines(lines),
            Seq::<u8>::empty(),
        ),
    decreases lines.len(),
{
    if lines.len() == 0 {
        assert(encoded_lines(lines) =~= Seq::<Seq<u8>>::empty());
    } else {
        let prev = lines.drop_last();
        assert forall|i: int| 0 <= i < prev.len() implies is_clean_line(#[trigger] prev[i]) by {
            assert(prev[i] == lines[i]);
        }
        lemma_split_encoded_jsonl(prev);
        let l = lines.last();
        assert(is_clean_line(lines[lines.len() - 1]));
        lemma_encode_plain(l);
        let ep = encode_utf8(jsonl(prev));
        let el = encode_utf8(l);
        lemma_encode_append(jsonl(prev) + l, seq!['\n']);
        lemma_encode_append(jsonl(prev), l);
        lemma_encode_one('\n');
        lemma_scalar_bytes('\n');
        char_u32_cast('\n', '\n' as u32);
        assert(encode_scalar('\n' as u32) =~= seq![10u8]) by {
            assert((10u32 & 0x7Fu32) as u8 == 10u8) by (bit_vector);
        }
        let t = ep + el + seq![10u8];
        assert(encode_utf8(jsonl(lines)) == t);
        lemma_split_bytes_append_plain(ep, el);
        assert(t.drop_last() =~= ep + el);
        assert(t.last() == 10u8);
        assert(Seq::<u8>::empty() + el =~= el);
        assert(encoded_lines(prev).push(el) =~= encoded_lines(lines));
    }
}

/// What appending writes, reading gives back: the bytes of the text of clean
/// lines, cut into lines and decoded, are those lines, each decoded.
pub proof fn lemma_byte_lines_of_jsonl(lines: Seq<Seq<char>>)
    requires
        forall|i: int| 0 <= i < lines.len() ==> is_clean_line(#[trigger] lines[i]),
    ensures
        decoded_lines(encode_utf8(jsonl(lines))) == lines.map_values(
            |l: Seq<char>| Some::<Seq<char>>(l),
        ),
{
    lemma_split_encoded_jsonl(lines);
    let enc = encoded_lines(lines);
    assert forall|i: int| 0 <= i < lines.len() implies decoded_line(strip_cr_byte(enc[i])) == Some(
        #[trigger] lines[i],
    ) by {
        let l = lines[i];
        assert(is_clean_line(l));
        encode_utf8_valid_utf8(l);
        encode_utf8_decode_utf8(l);
        if l.len() > 0 {
            lemma_encode_append(l.drop_last(), seq![l.last()]);
            assert(l.drop_last() + seq![l.last()] =~= l);
            lemma_encode_one(l.last());
            lemma_scalar_bytes(l.last());
            assert(encode_utf8(l).last() == encode_scalar(l.last() as u32).last());
        }
    }
    let stripped = enc.map_values(|l: Seq<u8>| strip_cr_byte(l)) + Seq::<Seq<u8>>::empty();
    assert(decoded_lines(encode_utf8(jsonl(lines))) =~= lines.map_values(
        |l: Seq<char>| Some::<Seq<char>>(l),
    )) by {
        assert(stripped.len() == lines.len());
        assert forall|i: int| 0 <= i < lines.len() implies stripped[i] == strip_cr_byte(enc[i]) by {}
    }
}

} // verus!

verus! {

/// Keeping what parsed works line by line, in order: the records kept from
/// the lines `a` followed by `b` are those kept from `a` followed by those kept
/// from `b`; a line that parsed is kept as it is, and a bad line gives nothing.
pub proof fn lemma_kept_in_order<T>(a: Seq<Option<T>>, b: Seq<Option<T>>, x: T)
    ensures
        present(a + b) == present(a) + present(b),
        present(seq![Some(x)]) == seq![x],
        present(seq![None::<T>]) == Seq::<T>::empty(),
    decreases b.len(),
{
    let one = seq![Some(x)];
    assert(one.drop_last() =~= Seq::<Option<T>>::empty());
    assert(one.last() == Some(x));
    assert(present(Seq::<Option<T>>::empty()) == Seq::<T>::empty());
    assert(present(one) == present(one.drop_last()).push(x));
    assert(present(one) =~= seq![x]);
    let none = seq![None::<T>];
    assert(none.drop_last() =~= Seq::<Option<T>>::empty());
    assert(none.last() is None);
    if b.len() == 0 {
        assert(a + b =~= a);
        assert(present(a) + present(b) =~= present(a));
    } else {
        lemma_kept_in_order(a, b.drop_last(), x);
        assert((a + b).drop_last() =~= a + b.drop_last());
        assert((a + b).last() == b.last());
        match b.last() {
            Some(y) => {
                assert(present(a) + present(b.drop_last()).push(y) =~= (present(a) + present(
                    b.drop_last(),
                )).push(y));
            },
            None => {},
        }
    }
}

} // verus!
