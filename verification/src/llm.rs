//! The chat protocol's own logic: messages, the endpoint a server URL leads to, and
//! the reassembly of a streamed reply from newline-delimited chunks of bytes. The
//! HTTP client and the JSON decoding of each line live outside the library.
use vstd::prelude::*;

use crate::text::{all_space, is_space, is_trimmed, lemma_trim_of_padded, trim, trim_end_char, trim_end_matches_char, trim_str};
use vstd::utf8::{decode_utf8, encode_scalar, encode_utf8, valid_utf8};

verus! {

broadcast use vstd::string::group_string_axioms;

/// A single message in a conversation, following the OpenAI/Ollama chat format.
#[derive(Clone, Debug)]
pub struct Message {
    /// Either "system", "user", or "assistant".
    pub role: String,
    /// The text of the message.
    pub content: String,
}

/// The view of a message: its role and its content.
pub open spec fn message_view(m: Message) -> (Seq<char>, Seq<char>) {
    (m.role@, m.content@)
}

/// The views of a sequence of messages.
pub open spec fn message_views(ms: Seq<Message>) -> Seq<(Seq<char>, Seq<char>)> {
    ms.map_values(|m: Message| message_view(m))
}

impl Message {
    /// A message with the given role and content.
    pub fn new(role: &str, content: String) -> (m: Message)
        ensures
            m.role@ == role@,
            m.content@ == content@,
    {
        Message { role: role.to_owned(), content }
    }
}

/// The chat endpoint of the server at `url`: its trailing slashes removed, then
/// `/api/chat` appended.
pub open spec fn endpoint_of(url: Seq<char>) -> Seq<char> {
    trim_end_char(url, '/') + "/api/chat"@
}

/// The URL of the chat endpoint of the server at `url`; trailing slashes of `url` are
/// removed so that the path does not start with a double slash.
pub fn chat_endpoint(url: &str) -> (endpoint: String)
    ensures
        endpoint@ == endpoint_of(url@),
{
    let base = trim_end_matches_char(url, '/');
    let mut endpoint = base.to_owned();
    endpoint.append("/api/chat");
    endpoint
}

/// What `String::from_utf8_lossy` makes of `bytes`.
pub uninterp spec fn utf8_lossy(bytes: Seq<u8>) -> Seq<char>;

/// Calls `String::from_utf8_lossy` on `bytes`. Claimed: the result is its value (named
/// `utf8_lossy`), and for well-formed UTF-8 it is the decoded text; nothing is stated
/// of how malformed sequences are replaced.
#[verifier::external_body]
fn decode_utf8_lossy(bytes: &[u8]) -> (s: String)
    ensures
        s@ == utf8_lossy(bytes@),
        valid_utf8(bytes@) ==> s@ == decode_utf8(bytes@),
{
    String::from_utf8_lossy(bytes).into_owned()
}


/// The text of the line `bytes`: its UTF-8 decoding when it is well formed, otherwise
/// what `String::from_utf8_lossy` makes of it.
pub open spec fn line_text(bytes: Seq<u8>) -> Seq<char> {
    if valid_utf8(bytes) {
        decode_utf8(bytes)
    } else {
        utf8_lossy(bytes)
    }
}

/// The position of the first newline byte in `buf`, if any.
pub open spec fn newline_at(buf: Seq<u8>) -> Option<int>
    decreases buf.len(),
{
    if buf.len() == 0 {
        None
    } else if buf[0] == 10 {
        Some(0)
    } else {
        match newline_at(buf.drop_first()) {
            Some(i) => Some(i + 1),
            None => None,
        }
    }
}

/// The next line that the buffered bytes `buf` complete, and the bytes left after it:
/// lines end with a newline byte; each line is decoded (well-formed UTF-8 exactly,
/// malformed UTF-8 with replacements) and
/// trimmed, and blank lines are passed over. When no complete non-blank line is
/// buffered the result is `None`, with the incomplete rest left buffered.
pub open spec fn next_line_of(buf: Seq<u8>) -> (Option<Seq<char>>, Seq<u8>)
    decreases buf.len(),
{
    match newline_at(buf) {
        Some(p) => if 0 <= p < buf.len() {
            let line = trim(line_text(buf.take(p + 1)));
            if line.len() == 0 {
                next_line_of(buf.skip(p + 1))
            } else {
                (Some(line), buf.skip(p + 1))
            }
        } else {
            (None, buf)
        },
        None => (None, buf),
    }
}

proof fn lemma_newline_at(buf: Seq<u8>, p: int)
    requires
        0 <= p <= buf.len(),
        forall|q: int| 0 <= q < p ==> buf[q] != 10,
    ensures
        p < buf.len() && buf[p] == 10 ==> newline_at(buf) == Some(p),
        p == buf.len() ==> newline_at(buf) is None,
    decreases p,
{
    if p > 0 {
        lemma_newline_at(buf.drop_first(), p - 1);
    }
}

proof fn lemma_newline_at_append(a: Seq<u8>, b: Seq<u8>)
    ensures
        newline_at(a) matches Some(p) ==> newline_at(a + b) == Some(p) && 0 <= p < a.len(),
        newline_at(a) is None ==> newline_at(a + b) == (match newline_at(b) {
            Some(q) => Some(a.len() + q),
            None => None::<int>,
        }),
    decreases a.len(),
{
    if a.len() == 0 {
        assert(a + b =~= b);
    } else {
        lemma_newline_at_append(a.drop_first(), b);
        assert((a + b).drop_first() =~= a.drop_first() + b);
    }
}

/// How the stream is cut into pieces does not change the lines it yields: a line
/// that the buffered bytes already complete is unaffected by bytes received later,
/// which are only added to what stays buffered; and when no line is complete yet,
/// taking nothing now and looking again after more bytes arrive gives what the
/// whole would give.
pub proof fn lemma_lines_independent_of_chunking(a: Seq<u8>, b: Seq<u8>)
    ensures
        next_line_of(a).0 is Some ==> next_line_of(a + b) == (next_line_of(a).0, next_line_of(a).1 + b),
        next_line_of(a).0 is None ==> next_line_of(a + b) == next_line_of(next_line_of(a).1 + b),
    decreases a.len(),
{
    lemma_newline_at_append(a, b);
    match newline_at(a) {
        Some(p) => {
            assert((a + b).take(p + 1) =~= a.take(p + 1));
            assert((a + b).skip(p + 1) =~= a.skip(p + 1) + b);
            lemma_lines_independent_of_chunking(a.skip(p + 1), b);
        },
        None => {
        },
    }
}

proof fn lemma_next_line_shrinks(buf: Seq<u8>)
    ensures
        next_line_of(buf).1.len() <= buf.len(),
        next_line_of(buf).0 is Some ==> next_line_of(buf).1.len() < buf.len(),
    decreases buf.len(),
{
    match newline_at(buf) {
        Some(p) => {
            if 0 <= p < buf.len() {
                lemma_next_line_shrinks(buf.skip(p + 1));
            }
        },
        None => {},
    }
}

/// All the lines that the buffered bytes `buf` complete, in order, and the bytes left
/// after them: `next_line_of` taken until it yields no line.
pub open spec fn all_lines(buf: Seq<u8>) -> (Seq<Seq<char>>, Seq<u8>)
    decreases buf.len(),
{
    let (line, rest) = next_line_of(buf);
    match line {
        Some(l) => if rest.len() < buf.len() {
            let (ls, r) = all_lines(rest);
            (seq![l] + ls, r)
        } else {
            (seq![l], rest)
        },
        None => (Seq::empty(), rest),
    }
}

/// The lines a reader pulls when, starting with `buf` buffered, the byte chunks `chunks`
/// arrive one after the other and after each arrival every complete line is taken;
/// and the bytes left buffered at the end.
pub open spec fn pulled_lines(buf: Seq<u8>, chunks: Seq<Seq<u8>>) -> (Seq<Seq<char>>, Seq<u8>)
    decreases chunks.len(),
{
    if chunks.len() == 0 {
        (Seq::empty(), buf)
    } else {
        let (ls, r) = all_lines(buf + chunks[0]);
        let (ls2, r2) = pulled_lines(r, chunks.drop_first());
        (ls + ls2, r2)
    }
}

/// The byte chunks `chunks` one after the other.
pub open spec fn joined_bytes(chunks: Seq<Seq<u8>>) -> Seq<u8>
    decreases chunks.len(),
{
    if chunks.len() == 0 {
        Seq::empty()
    } else {
        chunks[0] + joined_bytes(chunks.drop_first())
    }
}

proof fn lemma_all_lines_append(a: Seq<u8>, b: Seq<u8>)
    ensures
        all_lines(a + b) == ({
            let (ls, r) = all_lines(a);
            let (ls2, r2) = all_lines(r + b);
            (ls + ls2, r2)
        }),
    decreases a.len(),
{
    lemma_next_line_shrinks(a);
    lemma_next_line_shrinks(a + b);
    lemma_lines_independent_of_chunking(a, b);
    let (line, rest) = next_line_of(a);
    match line {
        Some(l) => {
            assert(next_line_of(a + b) == (Some(l), rest + b));
            lemma_all_lines_append(rest, b);
            let (ls, r) = all_lines(rest);
            let (ls2, r2) = all_lines(r + b);
            assert(seq![l] + (ls + ls2) =~= (seq![l] + ls) + ls2);
        },
        None => {
            assert(all_lines(a) == (Seq::<Seq<char>>::empty(), rest));
            assert(Seq::<Seq<char>>::empty() + all_lines(rest + b).0 =~= all_lines(rest + b).0);
            assert(next_line_of(a + b) == next_line_of(rest + b));
            lemma_next_line_shrinks(rest + b);
            lemma_all_lines_same_first(a + b, rest + b);
        },
    }
}

proof fn lemma_all_lines_same_first(x: Seq<u8>, y: Seq<u8>)
    requires
        next_line_of(x) == next_line_of(y),
    ensures
        all_lines(x) == all_lines(y),
{
    lemma_next_line_shrinks(x);
    lemma_next_line_shrinks(y);
}

proof fn lemma_newline_at_bounds(buf: Seq<u8>)
    ensures
        newline_at(buf) matches Some(p) ==> 0 <= p < buf.len() && buf[p] == 10,
    decreases buf.len(),
{
    if buf.len() > 0 {
        lemma_newline_at_bounds(buf.drop_first());
    }
}

proof fn lemma_no_line_left(buf: Seq<u8>)
    ensures
        next_line_of(buf).0 is None ==> newline_at(next_line_of(buf).1) is None,
        newline_at(all_lines(buf).1) is None,
    decreases buf.len(),
{
    lemma_newline_at_bounds(buf);
    match newline_at(buf) {
        Some(p) => {
            if 0 <= p < buf.len() {
                lemma_no_line_left(buf.skip(p + 1));
            }
        },
        None => {},
    }
    lemma_next_line_shrinks(buf);
    let (line, rest) = next_line_of(buf);
    if line is Some && rest.len() < buf.len() {
        lemma_no_line_left(rest);
    }
}

/// The lines of a reply do not depend on how its bytes were cut into network chunks:
/// starting with no complete line buffered, pulling every complete line after each
/// chunk arrives yields the lines of all the bytes taken at once, and leaves the same
/// bytes buffered.
pub proof fn lemma_stream_lines_independent_of_split(buf: Seq<u8>, chunks: Seq<Seq<u8>>)
    requires
        newline_at(buf) is None,
    ensures
        pulled_lines(buf, chunks) == all_lines(buf + joined_bytes(chunks)),
    decreases chunks.len(),
{
    if chunks.len() == 0 {
        assert(buf + joined_bytes(chunks) =~= buf);
    } else {
        let c = chunks[0];
        let rest = chunks.drop_first();
        let (ls, r) = all_lines(buf + c);
        lemma_no_line_left(buf + c);
        lemma_stream_lines_independent_of_split(r, rest);
        lemma_all_lines_append(buf + c, joined_bytes(rest));
        assert(buf + joined_bytes(chunks) =~= (buf + c) + joined_bytes(rest));
    }
}

/// A complete line is taken whole, however long: when the buffer starts with bytes
/// holding no newline, then a newline, and their decoded, trimmed text is not blank,
/// the next line is that whole text and the bytes after the newline stay buffered.
pub proof fn lemma_first_line_taken_whole(bytes: Seq<u8>, rest: Seq<u8>)
    requires
        forall|i: int| 0 <= i < bytes.len() ==> #[trigger] bytes[i] != 10,
        trim(line_text(bytes.push(10))).len() > 0,
    ensures
        next_line_of(bytes + seq![10u8] + rest) == (Some(trim(line_text(bytes.push(10)))), rest),
{
    let buf = bytes + seq![10u8] + rest;
    let p = bytes.len() as int;
    assert forall|q: int| 0 <= q < p implies buf[q] != 10 by {
        assert(buf[q] == bytes[q]);
    }
    lemma_newline_at(buf, p);
    assert(buf.take(p + 1) =~= bytes.push(10));
    assert(buf.skip(p + 1) =~= rest);
}

proof fn lemma_scalar_has_no_newline(c: char)
    requires
        c != '\n',
    ensures
        forall|i: int| 0 <= i < encode_scalar(c as u32).len() ==> #[trigger] encode_scalar(c as u32)[i] != 10,
{
    broadcast use vstd::utf8::char_is_scalar;

    let u = c as u32;
    assert(u != 10);
    let e = encode_scalar(u);
    if 0 <= u <= 0x7f {
        assert((u & 0x7f) as u8 != 10u8) by (bit_vector)
            requires
                u <= 0x7f,
                u != 10,
        ;
    } else {
        assert forall|x: u32| (0xC0u8 | ((x >> 6) & 0x1F) as u8) != 10u8 by {
            assert((0xC0u8 | ((x >> 6) & 0x1F) as u8) != 10u8) by (bit_vector);
        }
        assert forall|x: u32| (0xE0u8 | ((x >> 12) & 0x0F) as u8) != 10u8 by {
            assert((0xE0u8 | ((x >> 12) & 0x0F) as u8) != 10u8) by (bit_vector);
        }
        assert forall|x: u32| (0xF0u8 | ((x >> 18) & 0x7) as u8) != 10u8 by {
            assert((0xF0u8 | ((x >> 18) & 0x7) as u8) != 10u8) by (bit_vector);
        }
        assert forall|x: u32| (0x80u8 | (x & 0x3F) as u8) != 10u8 by {
            assert((0x80u8 | (x & 0x3F) as u8) != 10u8) by (bit_vector);
        }
        assert forall|x: u32| (0x80u8 | ((x >> 6) & 0x3F) as u8) != 10u8 by {
            assert((0x80u8 | ((x >> 6) & 0x3F) as u8) != 10u8) by (bit_vector);
        }
        assert forall|x: u32| (0x80u8 | ((x >> 12) & 0x3F) as u8) != 10u8 by {
            assert((0x80u8 | ((x >> 12) & 0x3F) as u8) != 10u8) by (bit_vector);
        }
    }
}

proof fn lemma_encoding_has_no_newline(l: Seq<char>)
    requires
        forall|i: int| 0 <= i < l.len() ==> #[trigger] l[i] != '\n',
    ensures
        forall|i: int| 0 <= i < encode_utf8(l).len() ==> #[trigger] encode_utf8(l)[i] != 10,
    decreases l.len(),
{
    if l.len() > 0 {
        let head = encode_scalar(l[0] as u32);
        let tail = encode_utf8(l.drop_first());
        assert forall|i: int| 0 <= i < l.drop_first().len() implies #[trigger] l.drop_first()[i] != '\n' by {
            assert(l.drop_first()[i] == l[i + 1]);
        }
        lemma_encoding_has_no_newline(l.drop_first());
        lemma_scalar_has_no_newline(l[0]);
        assert(encode_utf8(l) == head + tail);
        assert forall|i: int| 0 <= i < encode_utf8(l).len() implies #[trigger] encode_utf8(l)[i] != 10 by {
            if i < head.len() {
                assert(encode_utf8(l)[i] == head[i]);
            } else {
                assert(encode_utf8(l)[i] == tail[i - head.len()]);
            }
        }
    }
}

proof fn lemma_encode_push(l: Seq<char>, c: char)
    ensures
        encode_utf8(l.push(c)) == encode_utf8(l) + encode_scalar(c as u32),
    decreases l.len(),
{
    if l.len() == 0 {
        assert(l.push(c).drop_first() =~= Seq::<char>::empty());
        assert(encode_utf8(l.push(c)) == encode_scalar(c as u32) + encode_utf8(Seq::<char>::empty()));
        assert(encode_utf8(l) + encode_scalar(c as u32) =~= encode_scalar(c as u32) + encode_utf8(
            Seq::<char>::empty(),
        ));
    } else {
        assert(l.push(c).drop_first() =~= l.drop_first().push(c));
        lemma_encode_push(l.drop_first(), c);
        assert(l.push(c)[0] == l[0]);
        assert(encode_scalar(l[0] as u32) + (encode_utf8(l.drop_first()) + encode_scalar(c as u32)) =~= (
        encode_scalar(l[0] as u32) + encode_utf8(l.drop_first())) + encode_scalar(c as u32));
    }
}

/// A streamed line comes back exactly as it was sent, however long it is: for any
/// non-blank text `l` with no newline in it and no whitespace at either end, sent as
/// UTF-8 and followed by a newline, the next line is `l` itself, and whatever follows
/// the newline stays buffered.
pub proof fn lemma_sent_line_comes_back(l: Seq<char>, rest: Seq<u8>)
    requires
        l.len() > 0,
        is_trimmed(l),
        forall|i: int| 0 <= i < l.len() ==> #[trigger] l[i] != '\n',
    ensures
        next_line_of(encode_utf8(l) + seq![10u8] + rest) == (Some(l), rest),
{
    broadcast use vstd::utf8::encode_utf8_valid_utf8, vstd::utf8::encode_utf8_decode_utf8;

    let e = encode_utf8(l);
    lemma_encoding_has_no_newline(l);
    lemma_encode_push(l, '\n');
    assert(encode_scalar('\n' as u32) =~= seq![10u8]) by {
        let u = '\n' as u32;
        assert(u == 10);
        assert((u & 0x7f) as u8 == 10u8) by (bit_vector)
            requires
                u == 10,
        ;
    }
    assert(e.push(10) =~= encode_utf8(l.push('\n')));
    assert(line_text(e.push(10)) == l.push('\n'));
    let nl = seq!['\n'];
    assert(all_space(nl)) by {
        assert(is_space(nl[0]));
    }
    assert(Seq::<char>::empty() + l + nl =~= l.push('\n'));
    lemma_trim_of_padded(Seq::<char>::empty(), l, nl);
    lemma_first_line_taken_whole(e, rest);
}

/// The state of a streamed reply: bytes received but not yet split into lines, the
/// reply assembled so far, whether the first token is still to come, and whether the
/// final chunk has arrived.
pub struct ReplyStream {
    buffered: Vec<u8>,
    reply: String,
    awaiting_first_token: bool,
    complete: bool,
}

/// The mathematical value of a [`ReplyStream`].
pub struct ReplyState {
    /// Bytes received and not yet consumed as lines.
    pub buffered: Seq<u8>,
    /// The reply assembled so far.
    pub reply: Seq<char>,
    /// Whether no content has arrived yet.
    pub awaiting_first_token: bool,
    /// Whether the chunk marked done has arrived: the reply is complete.
    pub complete: bool,
}

impl View for ReplyStream {
    type V = ReplyState;

    closed spec fn view(&self) -> ReplyState {
        ReplyState {
            buffered: self.buffered@,
            reply: self.reply@,
            awaiting_first_token: self.awaiting_first_token,
            complete: self.complete,
        }
    }
}

/// What the caller does with one decoded chunk of the stream.
pub struct StreamStep {
    /// Signal the first token now (this happens once per reply).
    pub first_token: bool,
    /// Show the chunk's content.
    pub show: bool,
    /// The reply is complete: process no further lines of what is buffered.
    pub stop: bool,
}

/// The state after a chunk with `content` and the flag `done` is accepted: before
/// the reply is complete, non-empty content is added to the reply and ends the wait
/// for the first token, and a chunk marked done completes the reply; once the reply
/// is complete, chunks change nothing.
pub open spec fn after_chunk(st: ReplyState, content: Seq<char>, done: bool) -> ReplyState {
    if st.complete {
        st
    } else if content.len() > 0 {
        ReplyState { buffered: st.buffered, reply: st.reply + content, awaiting_first_token: false, complete: done }
    } else {
        ReplyState { complete: done, ..st }
    }
}

/// Whether accepting the chunk with `content` signals the first token.
pub open spec fn signals_first_token(st: ReplyState, content: Seq<char>) -> bool {
    !st.complete && content.len() > 0 && st.awaiting_first_token
}

/// The state after the chunks `cs` (content and done flag) are accepted in order.
pub open spec fn after_chunks(st: ReplyState, cs: Seq<(Seq<char>, bool)>) -> ReplyState
    decreases cs.len(),
{
    if cs.len() == 0 {
        st
    } else {
        after_chunks(after_chunk(st, cs[0].0, cs[0].1), cs.drop_first())
    }
}

/// How many of the chunks `cs` signal the first token.
pub open spec fn first_token_signals(st: ReplyState, cs: Seq<(Seq<char>, bool)>) -> nat
    decreases cs.len(),
{
    if cs.len() == 0 {
        0
    } else {
        (if signals_first_token(st, cs[0].0) { 1nat } else { 0nat }) + first_token_signals(
            after_chunk(st, cs[0].0, cs[0].1),
            cs.drop_first(),
        )
    }
}

/// The chunks up to and including the first one marked done (all of them when none is).
pub open spec fn upto_done(cs: Seq<(Seq<char>, bool)>) -> Seq<(Seq<char>, bool)>
    decreases cs.len(),
{
    if cs.len() == 0 {
        cs
    } else if cs[0].1 {
        seq![cs[0]]
    } else {
        seq![cs[0]] + upto_done(cs.drop_first())
    }
}

/// The contents of the chunks `cs`, one after the other.
pub open spec fn contents(cs: Seq<(Seq<char>, bool)>) -> Seq<char>
    decreases cs.len(),
{
    if cs.len() == 0 {
        Seq::empty()
    } else {
        cs[0].0 + contents(cs.drop_first())
    }
}

/// Whether some chunk of `cs` has non-empty content.
pub open spec fn has_content(cs: Seq<(Seq<char>, bool)>) -> bool {
    exists|i: int| 0 <= i < cs.len() && #[trigger] cs[i].0.len() > 0
}

/// Whether some chunk of `cs` is marked done.
pub open spec fn has_done(cs: Seq<(Seq<char>, bool)>) -> bool {
    exists|i: int| 0 <= i < cs.len() && #[trigger] cs[i].1
}

proof fn lemma_first_chunk(cs: Seq<(Seq<char>, bool)>)
    requires
        cs.len() > 0,
    ensures
        has_content(cs) == (cs[0].0.len() > 0 || has_content(cs.drop_first())),
        has_done(cs) == (cs[0].1 || has_done(cs.drop_first())),
{
    if has_content(cs) {
        let i = choose|i: int| 0 <= i < cs.len() && #[trigger] cs[i].0.len() > 0;
        if i > 0 {
            assert(cs.drop_first()[i - 1].0.len() > 0);
        }
    }
    if has_content(cs.drop_first()) {
        let i = choose|i: int| 0 <= i < cs.drop_first().len() && #[trigger] cs.drop_first()[i].0.len() > 0;
        assert(cs[i + 1].0.len() > 0);
    }
    if has_done(cs) {
        let i = choose|i: int| 0 <= i < cs.len() && #[trigger] cs[i].1;
        if i > 0 {
            assert(cs.drop_first()[i - 1].1);
        }
    }
    if has_done(cs.drop_first()) {
        let i = choose|i: int| 0 <= i < cs.drop_first().len() && #[trigger] cs.drop_first()[i].1;
        assert(cs[i + 1].1);
    }
}

/// Over a whole reply, the assembled reply is the contents of the chunks up to and
/// including the one marked done, one after the other; what follows the done chunk is
/// left out; the reply is complete exactly when some chunk was marked done; and the
/// first token is signalled exactly once when any of that content is non-empty (never
/// when none is, nor when it was signalled before).
pub proof fn lemma_reply_assembly(st: ReplyState, cs: Seq<(Seq<char>, bool)>)
    requires
        !st.complete,
    ensures
        after_chunks(st, cs).reply == st.reply + contents(upto_done(cs)),
        after_chunks(st, cs).buffered == st.buffered,
        after_chunks(st, cs).complete == has_done(cs),
        after_chunks(st, cs).awaiting_first_token == (st.awaiting_first_token && !has_content(upto_done(cs))),
        first_token_signals(st, cs) == (if st.awaiting_first_token && has_content(upto_done(cs)) {
            1nat
        } else {
            0nat
        }),
    decreases cs.len(),
{
    if cs.len() == 0 {
        assert(st.reply + contents(upto_done(cs)) =~= st.reply);
        assert(!has_content(upto_done(cs)));
    } else {
        let c = cs[0];
        let rest = cs.drop_first();
        let st1 = after_chunk(st, c.0, c.1);
        lemma_first_chunk(cs);
        if c.1 {
            lemma_reply_complete_ignores(st1, rest);
            assert(upto_done(cs) == seq![c]);
            assert(seq![c].drop_first() =~= Seq::<(Seq<char>, bool)>::empty());
            assert(contents(seq![c]) == c.0 + contents(seq![c].drop_first()));
            assert(contents(seq![c]) =~= c.0);
            lemma_first_chunk(seq![c]);
            assert(!has_content(seq![c].drop_first()));
            if c.0.len() == 0 {
                assert(st.reply + c.0 =~= st.reply);
            }
        } else {
            lemma_reply_assembly(st1, rest);
            let u = upto_done(cs);
            assert(u == seq![c] + upto_done(rest));
            assert(u.drop_first() =~= upto_done(rest));
            assert(u[0] == c);
            assert(contents(u) == c.0 + contents(upto_done(rest)));
            lemma_first_chunk(u);
            assert(st.reply + c.0 + contents(upto_done(rest)) =~= st.reply + contents(u));
            if c.0.len() == 0 {
                assert(st.reply + c.0 =~= st.reply);
            }
        }
    }
}

/// Once the reply is complete, further chunks change nothing and signal nothing.
pub proof fn lemma_reply_complete_ignores(st: ReplyState, cs: Seq<(Seq<char>, bool)>)
    requires
        st.complete,
    ensures
        after_chunks(st, cs) == st,
        first_token_signals(st, cs) == 0,
    decreases cs.len(),
{
    if cs.len() > 0 {
        lemma_reply_complete_ignores(st, cs.drop_first());
    }
}

impl ReplyStream {
    /// A stream with nothing received.
    pub fn new() -> (s: ReplyStream)
        ensures
            s@.buffered == Seq::<u8>::empty(),
            s@.reply == Seq::<char>::empty(),
            s@.awaiting_first_token,
            !s@.complete,
    {
        ReplyStream { buffered: Vec::new(), reply: String::new(), awaiting_first_token: true, complete: false }
    }

    /// Appends bytes received from the server to the buffer.
    pub fn feed(&mut self, bytes: &[u8])
        ensures
            final(self)@.buffered == old(self)@.buffered + bytes@,
            final(self)@.reply == old(self)@.reply,
            final(self)@.awaiting_first_token == old(self)@.awaiting_first_token,
            final(self)@.complete == old(self)@.complete,
    {
        let mut i: usize = 0;
        let ghost start = self.buffered@;
        while i < bytes.len()
            invariant
                i <= bytes@.len(),
                self.buffered@ == start + bytes@.take(i as int),
                self.reply@ == old(self).reply@,
                self.awaiting_first_token == old(self).awaiting_first_token,
                self.complete == old(self).complete,
            decreases bytes.len() - i,
        {
            self.buffered.push(bytes[i]);
            proof {
                assert(start + bytes@.take(i + 1) =~= (start + bytes@.take(i as int)).push(bytes@[i as int]));
            }
            i = i + 1;
        }
        proof {
            assert(bytes@.take(bytes@.len() as int) =~= bytes@);
        }
    }

    /// Takes the next complete non-blank line out of the buffer, decoded and trimmed;
    /// blank lines before it are consumed too. `None` when the buffer holds no
    /// complete non-blank line; the bytes after the last newline stay buffered.
    pub fn next_line(&mut self) -> (line: Option<String>)
        ensures
            (match line {
                Some(l) => Some(l@),
                None => None::<Seq<char>>,
            }) == next_line_of(old(self)@.buffered).0,
            final(self)@.buffered == next_line_of(old(self)@.buffered).1,
            final(self)@.reply == old(self)@.reply,
            final(self)@.awaiting_first_token == old(self)@.awaiting_first_token,
            final(self)@.complete == old(self)@.complete,
    {
        let ghost start = self.buffered@;
        loop
            invariant
                start == old(self).buffered@,
                next_line_of(start) == next_line_of(self.buffered@),
                self.reply@ == old(self).reply@,
                self.awaiting_first_token == old(self).awaiting_first_token,
                self.complete == old(self).complete,
            decreases self.buffered@.len(),
        {
            let n = self.buffered.len();
            let mut p: usize = 0;
            while p < n && self.buffered[p] != 10
                invariant
                    n == self.buffered@.len(),
                    p <= n,
                    forall|q: int| 0 <= q < p ==> self.buffered@[q] != 10,
                decreases n - p,
            {
                p = p + 1;
            }
            proof {
                lemma_newline_at(self.buffered@, p as int);
            }
            if p == n {
                proof {
                    assert(next_line_of(self.buffered@) == (None::<Seq<char>>, self.buffered@));
                }
                return None;
            }
            let ghost buf = self.buffered@;
            let mut head: Vec<u8> = Vec::new();
            let mut tail: Vec<u8> = Vec::new();
            let mut k: usize = 0;
            while k < n
                invariant
                    n == self.buffered@.len(),
                    buf == self.buffered@,
                    p < n,
                    k <= n,
                    k <= p + 1 ==> head@ == buf.take(k as int) && tail@.len() == 0,
                    k > p + 1 ==> head@ == buf.take(p + 1) && tail@ == buf.subrange(p + 1, k as int),
                decreases n - k,
            {
                if k <= p {
                    head.push(self.buffered[k]);
                    proof {
                        assert(buf.take(k + 1) =~= buf.take(k as int).push(buf[k as int]));
                    }
                } else {
                    tail.push(self.buffered[k]);
                    proof {
                        if k == p + 1 {
                            assert(buf.subrange(p + 1, k + 1) =~= seq![buf[k as int]]);
                        } else {
                            assert(buf.subrange(p + 1, k + 1) =~= buf.subrange(p + 1, k as int).push(buf[k as int]));
                        }
                    }
                }
                k = k + 1;
            }
            proof {
                assert(tail@ =~= buf.skip(p + 1));
            }
            let decoded = decode_utf8_lossy(head.as_slice());
            let line = trim_str(decoded.as_str());
            self.buffered = tail;
            proof {
                assert(next_line_of(buf) == (if line@.len() == 0 {
                    next_line_of(buf.skip(p + 1))
                } else {
                    (Some(line@), buf.skip(p + 1))
                }));
            }
            if line.unicode_len() != 0 {
                return Some(line.to_owned());
            }
        }
    }

    /// Records one decoded chunk of the stream. Before the reply is complete,
    /// non-empty content is shown and added to the reply, the first such content is
    /// signalled as the first token, and a chunk marked done completes the reply and
    /// stops the caller. Once the reply is complete, chunks are ignored and the caller
    /// is told to stop.
    pub fn accept(&mut self, content: &str, done: bool) -> (step: StreamStep)
        ensures
            step.show == (!old(self)@.complete && content@.len() > 0),
            step.first_token == signals_first_token(old(self)@, content@),
            step.stop == (old(self)@.complete || done),
            final(self)@ == after_chunk(old(self)@, content@, done),
    {
        if self.complete {
            return StreamStep { first_token: false, show: false, stop: true };
        }
        let show = content.unicode_len() != 0;
        let first_token = show && self.awaiting_first_token;
        if show {
            self.reply.append(content);
            self.awaiting_first_token = false;
        }
        self.complete = done;
        StreamStep { first_token, show, stop: done }
    }

    /// Whether the chunk marked done has arrived.
    pub fn is_complete(&self) -> (b: bool)
        ensures
            b == self@.complete,
    {
        self.complete
    }

    /// The reply assembled so far.
    pub fn into_reply(self) -> (reply: String)
        ensures
            reply@ == self@.reply,
    {
        self.reply
    }
}

} // verus!
