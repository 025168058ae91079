//! Documentation chunks: markdown is reduced to plain text, split into pieces of
//! bounded size, and each non-blank piece becomes a chunk labelled with the file it
//! came from. Which files of the documentation directory are read, and in what order,
//! is decided here too; reading them is left to the caller.
use vstd::prelude::*;

use vstd::multiset::Multiset;
use crate::text::{
    all_space, is_space, is_trimmed, lemma_blank_is_all_space, lemma_trim_is_trimmed, lemma_trim_shape, lemma_trim_removes_only_spaces, lemma_without_spaces_add,
    lemma_without_spaces_all_space, trim, trim_str, views, without_spaces,
};

use pulldown_cmark::{Event, Tag, TagEnd};

verus! {

broadcast use vstd::string::group_string_axioms;

/// Maximum number of characters per chunk; keeps each chunk within a typical LLM
/// context window slice.
pub const CHUNK_SIZE: usize = 512;

/// The markdown extensions the documentation is parsed with: tables (bit 1) and
/// strikethrough (bit 3), as pulldown-cmark numbers its option bits.
pub const MARKDOWN_OPTIONS: u32 = 0b1010;

/// A single piece of documentation text with its source file path.
pub struct Chunk {
    /// The file the chunk came from, used to label context in the system prompt.
    pub source: String,
    /// Plain-text content of this chunk (markdown syntax stripped).
    pub text: String,
}

/// The views of chunks: pairs of source and text.
pub open spec fn chunk_views(chunks: Seq<Chunk>) -> Seq<(Seq<char>, Seq<char>)> {
    chunks.map_values(|c: Chunk| (c.source@, c.text@))
}

/// The events of a markdown parse that the plain-text conversion tells apart.
pub enum MarkdownEvent {
    /// A text node.
    Text(String),
    /// An inline code node.
    Code(String),
    /// A soft line break.
    SoftBreak,
    /// A hard line break.
    HardBreak,
    /// The start of a code block.
    StartCodeBlock,
    /// The end of a paragraph.
    EndParagraph,
    /// The end of a heading.
    EndHeading,
    /// The end of a list item.
    EndItem,
    /// The end of a code block.
    EndCodeBlock,
    /// Any other event.
    Other,
}

/// The mathematical value of a [`MarkdownEvent`].
pub enum MarkdownToken {
    Text(Seq<char>),
    Code(Seq<char>),
    SoftBreak,
    HardBreak,
    StartCodeBlock,
    EndParagraph,
    EndHeading,
    EndItem,
    EndCodeBlock,
    Other,
}

impl View for MarkdownEvent {
    type V = MarkdownToken;

    open spec fn view(&self) -> MarkdownToken {
        match self {
            MarkdownEvent::Text(t) => MarkdownToken::Text(t@),
            MarkdownEvent::Code(t) => MarkdownToken::Code(t@),
            MarkdownEvent::SoftBreak => MarkdownToken::SoftBreak,
            MarkdownEvent::HardBreak => MarkdownToken::HardBreak,
            MarkdownEvent::StartCodeBlock => MarkdownToken::StartCodeBlock,
            MarkdownEvent::EndParagraph => MarkdownToken::EndParagraph,
            MarkdownEvent::EndHeading => MarkdownToken::EndHeading,
            MarkdownEvent::EndItem => MarkdownToken::EndItem,
            MarkdownEvent::EndCodeBlock => MarkdownToken::EndCodeBlock,
            MarkdownEvent::Other => MarkdownToken::Other,
        }
    }
}

/// The views of a sequence of events.
pub open spec fn tokens(events: Seq<MarkdownEvent>) -> Seq<MarkdownToken> {
    events.map_values(|e: MarkdownEvent| e@)
}

/// The event stream that pulldown-cmark's parser yields for `markdown` with the
/// option bits `options`, each event as a [`MarkdownToken`].
pub uninterp spec fn markdown_tokens(markdown: Seq<char>, options: u32) -> Seq<MarkdownToken>;

/// Runs pulldown-cmark's `Parser::new_ext` on `markdown` with the options whose bits
/// are `options` and collects its events. Claimed: the result is the parser's event
/// stream (named `markdown_tokens`); nothing is stated of what that stream holds.
#[verifier::external_body]
fn parse_markdown(markdown: &str, options: u32) -> (events: Vec<MarkdownEvent>)
    ensures
        tokens(events@) == markdown_tokens(markdown@, options),
{
    let opts = pulldown_cmark::Options::from_bits_truncate(options);
    pulldown_cmark::Parser::new_ext(markdown, opts).map(|event| match event {
        Event::Text(t) => MarkdownEvent::Text(t.into_string()),
        Event::Code(t) => MarkdownEvent::Code(t.into_string()),
        Event::SoftBreak => MarkdownEvent::SoftBreak,
        Event::HardBreak => MarkdownEvent::HardBreak,
        Event::Start(Tag::CodeBlock(_)) => MarkdownEvent::StartCodeBlock,
        Event::End(TagEnd::Paragraph) => MarkdownEvent::EndParagraph,
        Event::End(TagEnd::Heading(_)) => MarkdownEvent::EndHeading,
        Event::End(TagEnd::Item) => MarkdownEvent::EndItem,
        Event::End(TagEnd::CodeBlock) => MarkdownEvent::EndCodeBlock,
        _ => MarkdownEvent::Other,
    }).collect()
}

/// What one event contributes to the plain text: inline text and code as they are,
/// a space for a line break, a newline at the end of a paragraph, heading, list item
/// or code block and at the start of a code block, nothing for anything else.
pub open spec fn token_text(t: MarkdownToken) -> Seq<char> {
    match t {
        MarkdownToken::Text(s) => s,
        MarkdownToken::Code(s) => s,
        MarkdownToken::SoftBreak => seq![' '],
        MarkdownToken::HardBreak => seq![' '],
        MarkdownToken::StartCodeBlock => seq!['\n'],
        MarkdownToken::EndParagraph => seq!['\n'],
        MarkdownToken::EndHeading => seq!['\n'],
        MarkdownToken::EndItem => seq!['\n'],
        MarkdownToken::EndCodeBlock => seq!['\n'],
        MarkdownToken::Other => Seq::empty(),
    }
}

/// The plain text of an event stream: the contributions of its events, in order.
pub open spec fn plain_text(ts: Seq<MarkdownToken>) -> Seq<char>
    decreases ts.len(),
{
    if ts.len() == 0 {
        Seq::empty()
    } else {
        plain_text(ts.drop_last()) + token_text(ts.last())
    }
}

/// The plain text of a stream of markdown events.
pub fn plain_text_from_events(events: &Vec<MarkdownEvent>) -> (text: String)
    ensures
        text@ == plain_text(tokens(events@)),
{
    proof {
        reveal_strlit(" ");
        reveal_strlit("\n");
    }
    let ghost ts = tokens(events@);
    let mut text = String::new();
    let mut i: usize = 0;
    while i < events.len()
        invariant
            i <= events@.len(),
            ts == tokens(events@),
            text@ == plain_text(ts.take(i as int)),
            " "@ == seq![' '],
            "\n"@ == seq!['\n'],
        decreases events.len() - i,
    {
        proof {
            assert(ts.take(i + 1).drop_last() =~= ts.take(i as int));
            assert(ts[i as int] == events@[i as int]@);
        }
        match &events[i] {
            MarkdownEvent::Text(t) => text.append(t.as_str()),
            MarkdownEvent::Code(t) => text.append(t.as_str()),
            MarkdownEvent::SoftBreak => text.append(" "),
            MarkdownEvent::HardBreak => text.append(" "),
            MarkdownEvent::StartCodeBlock => text.append("\n"),
            MarkdownEvent::EndParagraph => text.append("\n"),
            MarkdownEvent::EndHeading => text.append("\n"),
            MarkdownEvent::EndItem => text.append("\n"),
            MarkdownEvent::EndCodeBlock => text.append("\n"),
            MarkdownEvent::Other => {
                proof {
                    assert(text@ + Seq::<char>::empty() =~= text@);
                }
            },
        }
        i = i + 1;
    }
    proof {
        assert(ts.take(events@.len() as int) =~= ts);
    }
    text
}

/// Converts markdown to plain text by walking the parser's event stream and keeping
/// only text content, discarding all markup tags and metadata.
pub fn markdown_to_plain_text(markdown: &str) -> (text: String)
    ensures
        text@ == plain_text(markdown_tokens(markdown@, MARKDOWN_OPTIONS)),
{
    let events = parse_markdown(markdown, MARKDOWN_OPTIONS);
    plain_text_from_events(&events)
}


/// The pieces into which text-splitter's `MarkdownSplitter`, built with a capacity of
/// `capacity` characters, splits `text`, in order.
pub uninterp spec fn markdown_pieces(text: Seq<char>, capacity: usize) -> Seq<Seq<char>>;

/// The pieces `pieces` lie in `text` in order, without overlapping, and what lies
/// before, between and after them is whitespace.
pub open spec fn laid_out_in(text: Seq<char>, pieces: Seq<Seq<char>>) -> bool
    decreases pieces.len(),
{
    if pieces.len() == 0 {
        all_space(text)
    } else {
        let p = pieces.last();
        exists|k: int|
            #![trigger text.take(k)]
            0 <= k && k + p.len() <= text.len() && laid_out_in(text.take(k), pieces.drop_last())
                && text.subrange(k, k + p.len()) == p && all_space(text.skip(k + p.len()))
    }
}

/// Runs `MarkdownSplitter::new(capacity).chunks(text)` from text-splitter and collects
/// the pieces. Claimed: the result is the splitter's output (named `markdown_pieces`);
/// with a positive capacity every piece has at most `capacity` characters (the
/// splitter's documented bound, measured in characters by its default sizer); and the
/// pieces are slices of the text in order, with only whitespace (what the splitter
/// trims) around them, as it yields them without overlap. Where the pieces break the
/// text is not stated.
#[verifier::external_body]
fn split_markdown(text: &str, capacity: usize) -> (pieces: Vec<String>)
    requires
        capacity > 0,
    ensures
        views(pieces@) == markdown_pieces(text@, capacity),
        forall|i: int| 0 <= i < pieces@.len() ==> #[trigger] pieces@[i]@.len() <= capacity,
        laid_out_in(text@, views(pieces@)),
{
    let splitter = text_splitter::MarkdownSplitter::new(capacity);
    splitter.chunks(text).map(|piece| piece.to_string()).collect()
}

/// The chunk texts kept from the splitter's pieces: each piece trimmed, blank ones
/// dropped, in order.
pub open spec fn kept_texts(pieces: Seq<Seq<char>>) -> Seq<Seq<char>>
    decreases pieces.len(),
{
    if pieces.len() == 0 {
        Seq::empty()
    } else if trim(pieces.last()).len() == 0 {
        kept_texts(pieces.drop_last())
    } else {
        kept_texts(pieces.drop_last()).push(trim(pieces.last()))
    }
}

/// Every kept text is non-empty and has no whitespace at either end.
pub proof fn lemma_kept_texts_are_trimmed(pieces: Seq<Seq<char>>)
    ensures
        forall|i: int| 0 <= i < kept_texts(pieces).len() ==> #[trigger] kept_texts(pieces)[i].len() > 0
            && is_trimmed(kept_texts(pieces)[i]),
    decreases pieces.len(),
{
    if pieces.len() > 0 {
        lemma_kept_texts_are_trimmed(pieces.drop_last());
        lemma_trim_is_trimmed(pieces.last());
        let prev = kept_texts(pieces.drop_last());
        assert forall|i: int| 0 <= i < kept_texts(pieces).len() implies #[trigger] kept_texts(pieces)[i].len()
            > 0 && is_trimmed(kept_texts(pieces)[i]) by {
            if i < prev.len() {
                assert(kept_texts(pieces)[i] == prev[i]);
            }
        }
    }
}

/// Chunks labelled `source` with the given texts.
pub open spec fn labelled(source: Seq<char>, texts: Seq<Seq<char>>) -> Seq<(Seq<char>, Seq<char>)> {
    texts.map_values(|t: Seq<char>| (source, t))
}

/// The chunks of one markdown document: its plain text split into pieces by the
/// splitter with a capacity of `CHUNK_SIZE` characters, trimmed, blank pieces dropped.
pub open spec fn document_chunks(source: Seq<char>, markdown: Seq<char>) -> Seq<(Seq<char>, Seq<char>)> {
    labelled(
        source,
        kept_texts(markdown_pieces(plain_text(markdown_tokens(markdown, MARKDOWN_OPTIONS)), CHUNK_SIZE)),
    )
}

/// Every chunk of a document carries the document's source and a non-empty text
/// with no whitespace at either end.
pub proof fn lemma_document_chunks_are_clean(source: Seq<char>, markdown: Seq<char>)
    ensures
        forall|i: int| 0 <= i < document_chunks(source, markdown).len() ==> {
            let c = #[trigger] document_chunks(source, markdown)[i];
            &&& c.0 == source
            &&& c.1.len() > 0
            &&& is_trimmed(c.1)
        },
{
    let pieces = markdown_pieces(plain_text(markdown_tokens(markdown, MARKDOWN_OPTIONS)), CHUNK_SIZE);
    lemma_kept_texts_are_trimmed(pieces);
    assert forall|i: int| 0 <= i < document_chunks(source, markdown).len() implies {
        let c = #[trigger] document_chunks(source, markdown)[i];
        &&& c.0 == source
        &&& c.1.len() > 0
        &&& is_trimmed(c.1)
    } by {
        assert(document_chunks(source, markdown)[i] == (source, kept_texts(pieces)[i]));
    }
}

/// The chunks made of the splitter's `pieces` of a document from `source`: each
/// piece trimmed, blank pieces dropped, each kept one labelled with `source`.
pub fn chunks_from_pieces(source: &str, pieces: &Vec<String>) -> (chunks: Vec<Chunk>)
    ensures
        chunk_views(chunks@) == labelled(source@, kept_texts(views(pieces@))),
{
    let ghost ps = views(pieces@);
    let mut chunks: Vec<Chunk> = Vec::new();
    let mut i: usize = 0;
    while i < pieces.len()
        invariant
            i <= pieces@.len(),
            ps == views(pieces@),
            chunk_views(chunks@) == labelled(source@, kept_texts(ps.take(i as int))),
        decreases pieces.len() - i,
    {
        let text = trim_str(pieces[i].as_str());
        let ghost before = chunks@;
        proof {
            assert(ps.take(i + 1).drop_last() =~= ps.take(i as int));
            assert(ps.take(i + 1).last() == pieces@[i as int]@);
        }
        if text.unicode_len() != 0 {
            chunks.push(Chunk { source: source.to_owned(), text: text.to_owned() });
            proof {
                assert(chunk_views(chunks@) =~= chunk_views(before).push((source@, text@)));
                assert(labelled(source@, kept_texts(ps.take(i + 1))) =~= labelled(
                    source@,
                    kept_texts(ps.take(i as int)),
                ).push((source@, text@)));
            }
        }
        i = i + 1;
    }
    proof {
        assert(ps.take(pieces@.len() as int) =~= ps);
    }
    chunks
}

/// The chunks of the markdown document `markdown` read from `source`: markdown syntax
/// stripped, the plain text split into pieces by the splitter with a capacity of
/// `CHUNK_SIZE` characters, each piece trimmed, blank pieces dropped.
pub fn chunks_from_markdown(source: &str, markdown: &str) -> (chunks: Vec<Chunk>)
    ensures
        chunk_views(chunks@) == document_chunks(source@, markdown@),
        document_ok(source@, markdown@),
{
    let plain = markdown_to_plain_text(markdown);
    let pieces = split_markdown(plain.as_str(), CHUNK_SIZE);
    let chunks = chunks_from_pieces(source, &pieces);
    proof {
        let ps = views(pieces@);
        let text = document_text(markdown@);
        assert(pieces_fit(ps)) by {
            assert forall|i: int| 0 <= i < ps.len() implies #[trigger] ps[i].len() <= CHUNK_SIZE by {
                assert(ps[i] == pieces@[i]@);
            }
        }
        lemma_kept_texts_keep_text(ps);
        lemma_kept_texts_are_trimmed(ps);
        lemma_kept_texts_laid_out(text, ps);
        assert(texts_of(document_chunks(source@, markdown@)) =~= kept_texts(ps));
        assert forall|i: int| 0 <= i < kept_texts(ps).len() implies #[trigger] kept_texts(ps)[i].len()
            <= CHUNK_SIZE by {
            let j = choose|j: int|
                0 <= j < ps.len() && #[trigger] kept_texts(ps)[i].len() <= #[trigger] ps[j].len();
        }
    }
    chunks
}

/// The plain text of the markdown document `markdown`.
pub open spec fn document_text(markdown: Seq<char>) -> Seq<char> {
    plain_text(markdown_tokens(markdown, MARKDOWN_OPTIONS))
}

/// Every text is non-empty, has no whitespace at either end and has at most
/// `CHUNK_SIZE` characters.
pub open spec fn texts_fit(texts: Seq<Seq<char>>) -> bool {
    forall|i: int| 0 <= i < texts.len() ==> {
        &&& #[trigger] texts[i].len() > 0
        &&& is_trimmed(texts[i])
        &&& texts[i].len() <= CHUNK_SIZE
    }
}

/// The chunks of a document are sound: each chunk's text is non-empty, trimmed and
/// at most `CHUNK_SIZE` characters long, and the texts lie in the document's plain
/// text in order, without overlapping, with only whitespace before, between and after
/// them. So each chunk's text is a slice of the plain text, the chunks follow the
/// text's order, and no text other than whitespace is lost.
pub open spec fn document_ok(source: Seq<char>, markdown: Seq<char>) -> bool {
    &&& texts_fit(texts_of(document_chunks(source, markdown)))
    &&& laid_out_in(document_text(markdown), texts_of(document_chunks(source, markdown)))
}

proof fn lemma_layout_extend(a: Seq<char>, ts: Seq<Seq<char>>, b: Seq<char>)
    requires
        laid_out_in(a, ts),
        all_space(b),
    ensures
        laid_out_in(a + b, ts),
{
    if ts.len() == 0 {
        assert forall|i: int| 0 <= i < (a + b).len() implies is_space(#[trigger] (a + b)[i]) by {
            if i < a.len() {
                assert((a + b)[i] == a[i]);
            } else {
                assert((a + b)[i] == b[i - a.len()]);
            }
        }
    } else {
        let p = ts.last();
        let k = choose|k: int|
            #![trigger a.take(k)]
            0 <= k && k + p.len() <= a.len() && laid_out_in(a.take(k), ts.drop_last()) && a.subrange(k, k + p.len())
                == p && all_space(a.skip(k + p.len()));
        let t = a + b;
        assert(t.take(k) =~= a.take(k));
        assert(t.subrange(k, k + p.len()) =~= a.subrange(k, k + p.len()));
        assert(t.skip(k + p.len()) =~= a.skip(k + p.len()) + b);
        assert forall|i: int| 0 <= i < t.skip(k + p.len()).len() implies is_space(
            #[trigger] t.skip(k + p.len())[i],
        ) by {
            let g = a.skip(k + p.len());
            if i < g.len() {
                assert(t.skip(k + p.len())[i] == g[i]);
            } else {
                assert(t.skip(k + p.len())[i] == b[i - g.len()]);
            }
        }
    }
}

proof fn lemma_kept_texts_laid_out(text: Seq<char>, pieces: Seq<Seq<char>>)
    requires
        laid_out_in(text, pieces),
    ensures
        laid_out_in(text, kept_texts(pieces)),
    decreases pieces.len(),
{
    if pieces.len() == 0 {
        assert(kept_texts(pieces) =~= pieces);
    } else {
        let p = pieces.last();
        let init = pieces.drop_last();
        let k = choose|k: int|
            #![trigger text.take(k)]
            0 <= k && k + p.len() <= text.len() && laid_out_in(text.take(k), init) && text.subrange(k, k + p.len())
                == p && all_space(text.skip(k + p.len()));
        lemma_kept_texts_laid_out(text.take(k), init);
        let rest = text.skip(k + p.len());
        if trim(p).len() == 0 {
            lemma_blank_is_all_space(p);
            assert(p + rest =~= text.skip(k));
            assert(all_space(p + rest)) by {
                assert forall|i: int| 0 <= i < (p + rest).len() implies is_space(#[trigger] (p + rest)[i]) by {
                    if i < p.len() {
                        assert((p + rest)[i] == p[i]);
                    } else {
                        assert((p + rest)[i] == rest[i - p.len()]);
                    }
                }
            }
            lemma_layout_extend(text.take(k), kept_texts(init), p + rest);
            assert(text.take(k) + (p + rest) =~= text);
        } else {
            lemma_trim_shape(p);
            let (x, y) = choose|x: int, y: int|
                #![trigger p.subrange(x, y)]
                0 <= x <= y <= p.len() && trim(p) == p.subrange(x, y) && all_space(p.take(x)) && all_space(
                    p.skip(y),
                );
            let q = trim(p);
            let kq = k + x;
            lemma_layout_extend(text.take(k), kept_texts(init), p.take(x));
            assert(text.take(k) + p.take(x) =~= text.take(kq));
            assert(text.subrange(kq, kq + q.len()) =~= q);
            assert(text.skip(kq + q.len()) =~= p.skip(y) + rest);
            assert forall|i: int| 0 <= i < text.skip(kq + q.len()).len() implies is_space(
                #[trigger] text.skip(kq + q.len())[i],
            ) by {
                let g = p.skip(y);
                if i < g.len() {
                    assert(text.skip(kq + q.len())[i] == g[i]);
                } else {
                    assert(text.skip(kq + q.len())[i] == rest[i - g.len()]);
                }
            }
            let kept = kept_texts(pieces);
            assert(kept.last() == q);
            assert(kept.drop_last() =~= kept_texts(init));
            assert(laid_out_in(text.take(kq), kept.drop_last()));
            assert(0 <= kq && kq + q.len() <= text.len());
        }
    }
}

/// The texts of chunk views.
pub open spec fn texts_of(chunks: Seq<(Seq<char>, Seq<char>)>) -> Seq<Seq<char>> {
    chunks.map_values(|c: (Seq<char>, Seq<char>)| c.1)
}

/// Every piece has at most `CHUNK_SIZE` characters.
pub open spec fn pieces_fit(pieces: Seq<Seq<char>>) -> bool {
    forall|i: int| 0 <= i < pieces.len() ==> #[trigger] pieces[i].len() <= CHUNK_SIZE
}

/// The texts `ts` one after the other.
pub open spec fn concat_texts(ts: Seq<Seq<char>>) -> Seq<char>
    decreases ts.len(),
{
    if ts.len() == 0 {
        Seq::empty()
    } else {
        concat_texts(ts.drop_last()) + ts.last()
    }
}

/// Chunks that lie in a text as `document_ok` requires keep all of it but whitespace:
/// with whitespace removed, their texts one after the other are the text.
pub proof fn lemma_layout_keeps_text(text: Seq<char>, pieces: Seq<Seq<char>>)
    requires
        laid_out_in(text, pieces),
    ensures
        without_spaces(text) == without_spaces(concat_texts(pieces)),
    decreases pieces.len(),
{
    if pieces.len() == 0 {
        lemma_without_spaces_all_space(text);
    } else {
        let p = pieces.last();
        let k = choose|k: int|
            #![trigger text.take(k)]
            0 <= k && k + p.len() <= text.len() && laid_out_in(text.take(k), pieces.drop_last())
                && text.subrange(k, k + p.len()) == p && all_space(text.skip(k + p.len()));
        lemma_layout_keeps_text(text.take(k), pieces.drop_last());
        assert(text =~= text.take(k) + text.subrange(k, k + p.len()) + text.skip(k + p.len()));
        lemma_without_spaces_add(text.take(k) + p, text.skip(k + p.len()));
        lemma_without_spaces_add(text.take(k), p);
        lemma_without_spaces_all_space(text.skip(k + p.len()));
        lemma_without_spaces_add(concat_texts(pieces.drop_last()), p);
        assert(without_spaces(text.take(k) + p) + Seq::<char>::empty() =~= without_spaces(text.take(k) + p));
    }
}

/// The chunks of a sound document keep all of its plain text but whitespace.
pub proof fn lemma_document_keeps_text(source: Seq<char>, markdown: Seq<char>)
    requires
        document_ok(source, markdown),
    ensures
        without_spaces(concat_texts(texts_of(document_chunks(source, markdown)))) == without_spaces(
            document_text(markdown),
        ),
{
    lemma_layout_keeps_text(document_text(markdown), texts_of(document_chunks(source, markdown)));
}

proof fn lemma_kept_texts_keep_text(pieces: Seq<Seq<char>>)
    ensures
        without_spaces(concat_texts(kept_texts(pieces))) == without_spaces(concat_texts(pieces)),
        forall|i: int| 0 <= i < kept_texts(pieces).len() ==> exists|j: int|
            0 <= j < pieces.len() && #[trigger] kept_texts(pieces)[i].len() <= #[trigger] pieces[j].len(),
    decreases pieces.len(),
{
    if pieces.len() > 0 {
        let init = pieces.drop_last();
        let p = pieces.last();
        lemma_kept_texts_keep_text(init);
        lemma_trim_removes_only_spaces(p);
        lemma_without_spaces_add(concat_texts(init), p);
        if trim(p).len() == 0 {
            assert(without_spaces(trim(p)) =~= Seq::<char>::empty());
            assert(without_spaces(concat_texts(init)) + Seq::<char>::empty() =~= without_spaces(concat_texts(init)));
        } else {
            lemma_without_spaces_add(concat_texts(kept_texts(init)), trim(p));
            assert(kept_texts(pieces).drop_last() =~= kept_texts(init));
        }
        assert forall|i: int| 0 <= i < kept_texts(pieces).len() implies exists|j: int|
            0 <= j < pieces.len() && #[trigger] kept_texts(pieces)[i].len() <= #[trigger] pieces[j].len() by {
            if i < kept_texts(init).len() {
                assert(kept_texts(pieces)[i] == kept_texts(init)[i]);
                let j = choose|j: int| 0 <= j < init.len() && #[trigger] kept_texts(init)[i].len() <= #[trigger] init[j].len();
                assert(pieces[j] == init[j]);
            } else {
                assert(kept_texts(pieces)[i] == trim(p));
                assert(pieces[pieces.len() - 1] == p);
            }
        }
    }
}



/// The views of read documents: pairs of source and markdown.
pub open spec fn document_views(docs: Seq<(String, String)>) -> Seq<(Seq<char>, Seq<char>)> {
    docs.map_values(|d: (String, String)| (d.0@, d.1@))
}

/// The chunks of the documents `docs` (pairs of source and markdown): those of each
/// document in turn, in the documents' order.
pub open spec fn directory_chunks(docs: Seq<(Seq<char>, Seq<char>)>) -> Seq<(Seq<char>, Seq<char>)>
    decreases docs.len(),
{
    if docs.len() == 0 {
        Seq::empty()
    } else {
        directory_chunks(docs.drop_last()) + document_chunks(docs.last().0, docs.last().1)
    }
}

/// The chunks of the documentation read from a directory: the documents (pairs of
/// source and markdown, in the order the files were selected), each turned into its
/// chunks, one document after the other. Every document's chunks are sound
/// (`document_ok`: trimmed, non-empty, at most `CHUNK_SIZE` characters, slices of its
/// plain text in its order, losing only whitespace), and so is every chunk of the
/// result.
pub fn chunks_of_documents(docs: &Vec<(String, String)>) -> (chunks: Vec<Chunk>)
    ensures
        chunk_views(chunks@) == directory_chunks(document_views(docs@)),
        forall|d: int| 0 <= d < docs@.len() ==> #[trigger] document_ok(
            document_views(docs@)[d].0,
            document_views(docs@)[d].1,
        ),
        texts_fit(texts_of(chunk_views(chunks@))),
{
    let ghost ds = document_views(docs@);
    let mut chunks: Vec<Chunk> = Vec::new();
    let mut i: usize = 0;
    while i < docs.len()
        invariant
            i <= docs@.len(),
            ds == document_views(docs@),
            chunk_views(chunks@) == directory_chunks(ds.take(i as int)),
            forall|d: int| 0 <= d < i ==> #[trigger] document_ok(ds[d].0, ds[d].1),
            texts_fit(texts_of(chunk_views(chunks@))),
        decreases docs.len() - i,
    {
        let mut part = chunks_from_markdown(docs[i].0.as_str(), docs[i].1.as_str());
        let ghost before = chunks@;
        let ghost added = part@;
        chunks.append(&mut part);
        proof {
            assert(ds.take(i + 1).drop_last() =~= ds.take(i as int));
            assert(ds[i as int] == (docs@[i as int].0@, docs@[i as int].1@));
            assert(ds.take(i + 1).last() == ds[i as int]);
            assert(chunk_views(chunks@) =~= chunk_views(before) + chunk_views(added));
            let tb = texts_of(chunk_views(before));
            let ta = texts_of(chunk_views(added));
            assert(texts_of(chunk_views(chunks@)) =~= tb + ta);
            assert(ta == texts_of(document_chunks(ds[i as int].0, ds[i as int].1)));
            assert(texts_fit(tb + ta)) by {
                assert forall|j: int| 0 <= j < (tb + ta).len() implies {
                    &&& #[trigger] (tb + ta)[j].len() > 0
                    &&& is_trimmed((tb + ta)[j])
                    &&& (tb + ta)[j].len() <= CHUNK_SIZE
                } by {
                    if j < tb.len() {
                        assert((tb + ta)[j] == tb[j]);
                    } else {
                        assert((tb + ta)[j] == ta[j - tb.len()]);
                    }
                }
            }
        }
        i = i + 1;
    }
    proof {
        assert(ds.take(docs@.len() as int) =~= ds);
    }
    chunks
}

/// No two documents share a source.
pub open spec fn distinct_sources(docs: Seq<(Seq<char>, Seq<char>)>) -> bool {
    forall|i: int, j: int| 0 <= i < j < docs.len() ==> #[trigger] docs[i].0 != #[trigger] docs[j].0
}

/// The chunks of a directory keep the documents' order: every chunk comes from one
/// of the documents, and when the documents' sources are distinct, a chunk from a
/// later document never comes before a chunk from an earlier one, so the chunks of
/// each document stand together, in the documents' order.
pub proof fn lemma_directory_chunks_in_document_order(docs: Seq<(Seq<char>, Seq<char>)>)
    requires
        distinct_sources(docs),
    ensures
        forall|k: int| 0 <= k < directory_chunks(docs).len() ==> exists|d: int|
            0 <= d < docs.len() && #[trigger] directory_chunks(docs)[k].0 == #[trigger] docs[d].0,
        forall|i: int, j: int, di: int, dj: int|
            0 <= i < j < directory_chunks(docs).len() && 0 <= di < docs.len() && 0 <= dj < docs.len()
                && #[trigger] directory_chunks(docs)[i].0 == #[trigger] docs[di].0
                && #[trigger] directory_chunks(docs)[j].0 == #[trigger] docs[dj].0 ==> di <= dj,
    decreases docs.len(),
{
    let res = directory_chunks(docs);
    if docs.len() == 0 {
        assert(res.len() == 0);
    } else {
        let init = docs.drop_last();
        let n = docs.len();
        let last = docs.last();
        let prev = directory_chunks(init);
        let own = document_chunks(last.0, last.1);
        assert(distinct_sources(init)) by {
            assert forall|i: int, j: int| 0 <= i < j < init.len() implies #[trigger] init[i].0
                != #[trigger] init[j].0 by {
                assert(init[i] == docs[i] && init[j] == docs[j]);
            }
        }
        lemma_directory_chunks_in_document_order(init);
        lemma_document_chunks_are_clean(last.0, last.1);
        assert(res == prev + own);
        // a chunk of the earlier documents comes from one of them, not from the last
        assert forall|k: int| 0 <= k < prev.len() implies exists|d: int|
            0 <= d < n - 1 && #[trigger] res[k].0 == docs[d].0 by {
            assert(res[k] == prev[k]);
            let d = choose|d: int| 0 <= d < init.len() && #[trigger] prev[k].0 == #[trigger] init[d].0;
            assert(init[d] == docs[d]);
        }
        assert forall|k: int| prev.len() <= k < res.len() implies #[trigger] res[k].0 == docs[n - 1].0 by {
            assert(res[k] == own[k - prev.len()]);
        }
        assert forall|k: int| 0 <= k < res.len() implies exists|d: int|
            0 <= d < docs.len() && #[trigger] res[k].0 == #[trigger] docs[d].0 by {
            if k < prev.len() {
                let d = choose|d: int| 0 <= d < n - 1 && #[trigger] res[k].0 == docs[d].0;
                assert(res[k].0 == docs[d].0);
            } else {
                assert(res[k].0 == docs[n - 1].0);
            }
        }
        assert forall|i: int, j: int, di: int, dj: int|
            0 <= i < j < res.len() && 0 <= di < docs.len() && 0 <= dj < docs.len()
                && #[trigger] res[i].0 == #[trigger] docs[di].0 && #[trigger] res[j].0 == #[trigger] docs[dj].0
            implies di <= dj by {
            if j >= prev.len() {
                assert(res[j].0 == docs[n - 1].0);
                if dj != n - 1 {
                    if dj < n - 1 {
                        assert(docs[dj].0 != docs[n - 1].0);
                    }
                }
            } else {
                let d1 = choose|d: int| 0 <= d < n - 1 && #[trigger] res[i].0 == docs[d].0;
                let d2 = choose|d: int| 0 <= d < n - 1 && #[trigger] res[j].0 == docs[d].0;
                if di != d1 {
                    if di < d1 {
                        assert(docs[di].0 != docs[d1].0);
                    } else {
                        assert(docs[d1].0 != docs[di].0);
                    }
                }
                if dj != d2 {
                    if dj < d2 {
                        assert(docs[dj].0 != docs[d2].0);
                    } else {
                        assert(docs[d2].0 != docs[dj].0);
                    }
                }
                assert(res[i] == prev[i] && res[j] == prev[j]);
                assert(init[d1] == docs[d1] && init[d2] == docs[d2]);
                assert(prev[i].0 == init[d1].0 && prev[j].0 == init[d2].0);
            }
        }
    }
}

/// An entry of the documentation directory: its file name, as bytes, and the path
/// that labels its chunks.
pub struct DocFile {
    /// The file name, in the platform's encoding.
    pub name: Vec<u8>,
    /// The path of the file as displayed, used as the chunks' source.
    pub source: String,
}

/// Whether a file name has the extension `md`: the part after its last dot is `md`,
/// and that dot does not begin the name.
pub open spec fn is_markdown_name(name: Seq<u8>) -> bool {
    &&& name.len() >= 4
    &&& name[name.len() - 3] == 0x2e
    &&& name[name.len() - 2] == 0x6d
    &&& name[name.len() - 1] == 0x64
}

/// Any file name made of a non-empty stem followed by `.md` has the extension `md`,
/// whatever bytes the stem holds (hyphens, dots, digits, any case).
pub proof fn lemma_stem_dot_md_is_markdown(stem: Seq<u8>)
    requires
        stem.len() >= 1,
    ensures
        is_markdown_name(stem + seq![0x2eu8, 0x6du8, 0x64u8]),
{
    let n = stem + seq![0x2eu8, 0x6du8, 0x64u8];
    assert(n[n.len() - 3] == 0x2e);
    assert(n[n.len() - 2] == 0x6d);
    assert(n[n.len() - 1] == 0x64);
}

/// A name has the extension `md` only when it is a non-empty stem followed by `.md`.
pub proof fn lemma_markdown_name_is_stem_dot_md(name: Seq<u8>)
    requires
        is_markdown_name(name),
    ensures
        name.len() >= 4,
        name == name.take(name.len() - 3) + seq![0x2eu8, 0x6du8, 0x64u8],
{
    assert(name =~= name.take(name.len() - 3) + seq![0x2eu8, 0x6du8, 0x64u8]);
}

/// Whether the file name `name` has the extension `md`.
pub fn has_markdown_extension(name: &Vec<u8>) -> (b: bool)
    ensures
        b == is_markdown_name(name@),
{
    let n = name.len();
    n >= 4 && name[n - 3] == 0x2e && name[n - 2] == 0x6d && name[n - 1] == 0x64
}

/// Byte-wise lexicographic order: `a` comes strictly before `b`.
pub open spec fn name_lt(a: Seq<u8>, b: Seq<u8>) -> bool
    decreases a.len(),
{
    if a.len() == 0 {
        b.len() > 0
    } else if b.len() == 0 {
        false
    } else if a[0] != b[0] {
        a[0] < b[0]
    } else {
        name_lt(a.drop_first(), b.drop_first())
    }
}

/// The order of names is transitive.
pub proof fn lemma_name_lt_transitive(a: Seq<u8>, b: Seq<u8>, c: Seq<u8>)
    requires
        name_lt(a, b),
        name_lt(b, c),
    ensures
        name_lt(a, c),
    decreases a.len(),
{
    if a.len() > 0 && b.len() > 0 && c.len() > 0 && a[0] == b[0] && b[0] == c[0] {
        lemma_name_lt_transitive(a.drop_first(), b.drop_first(), c.drop_first());
    }
}

/// The order of names is irreflexive.
pub proof fn lemma_name_lt_irreflexive(a: Seq<u8>)
    ensures
        !name_lt(a, a),
    decreases a.len(),
{
    if a.len() > 0 {
        lemma_name_lt_irreflexive(a.drop_first());
    }
}

/// Two different names are ordered one way or the other.
pub proof fn lemma_name_lt_total(a: Seq<u8>, b: Seq<u8>)
    requires
        a != b,
    ensures
        name_lt(a, b) || name_lt(b, a),
    decreases a.len(),
{
    if a.len() > 0 && b.len() > 0 && a[0] == b[0] {
        if a.drop_first() == b.drop_first() {
            assert(a =~= seq![a[0]] + a.drop_first());
            assert(b =~= seq![b[0]] + b.drop_first());
        }
        lemma_name_lt_total(a.drop_first(), b.drop_first());
    } else if a.len() == 0 && b.len() == 0 {
        assert(a =~= b);
    }
}

/// Whether `a` comes strictly before `b` in byte-wise lexicographic order.
pub fn name_less(a: &Vec<u8>, b: &Vec<u8>) -> (r: bool)
    ensures
        r == name_lt(a@, b@),
{
    let mut k: usize = 0;
    proof {
        assert(a@.skip(0) =~= a@);
        assert(b@.skip(0) =~= b@);
    }
    while k < a.len() && k < b.len() && a[k] == b[k]
        invariant
            k <= a@.len(),
            k <= b@.len(),
            name_lt(a@, b@) == name_lt(a@.skip(k as int), b@.skip(k as int)),
        decreases a.len() - k,
    {
        proof {
            assert(a@.skip(k as int).drop_first() =~= a@.skip(k + 1));
            assert(b@.skip(k as int).drop_first() =~= b@.skip(k + 1));
        }
        k = k + 1;
    }
    if k == a.len() {
        k < b.len()
    } else if k == b.len() {
        false
    } else {
        a[k] < b[k]
    }
}

/// The views of entries: pairs of name and source.
pub open spec fn entry_views(files: Seq<DocFile>) -> Seq<(Seq<u8>, Seq<char>)> {
    files.map_values(|f: DocFile| (f.name@, f.source@))
}

/// The entries whose names have the extension `md`, in their order.
pub open spec fn markdown_entries(files: Seq<(Seq<u8>, Seq<char>)>) -> Seq<(Seq<u8>, Seq<char>)>
    decreases files.len(),
{
    if files.len() == 0 {
        Seq::empty()
    } else if is_markdown_name(files.last().0) {
        markdown_entries(files.drop_last()).push(files.last())
    } else {
        markdown_entries(files.drop_last())
    }
}

/// The entries are in byte-wise order of their names.
pub open spec fn sorted_by_name(files: Seq<(Seq<u8>, Seq<char>)>) -> bool {
    forall|i: int, j: int| 0 <= i < j < files.len() ==> !name_lt(#[trigger] files[j].0, #[trigger] files[i].0)
}

/// No two entries share a name.
pub open spec fn distinct_names(files: Seq<(Seq<u8>, Seq<char>)>) -> bool {
    forall|i: int, j: int| 0 <= i < j < files.len() ==> #[trigger] files[i].0 != #[trigger] files[j].0
}

/// The order of the selected files does not depend on the order of the listing:
/// two lists of entries with distinct names, both sorted by name and holding the same
/// entries, are the same list.
pub proof fn lemma_sorted_selection_is_unique(a: Seq<(Seq<u8>, Seq<char>)>, b: Seq<(Seq<u8>, Seq<char>)>)
    requires
        sorted_by_name(a),
        sorted_by_name(b),
        distinct_names(a),
        a.to_multiset() == b.to_multiset(),
    ensures
        a == b,
    decreases a.len(),
{
    broadcast use vstd::seq_lib::group_to_multiset_ensures;

    vstd::seq_lib::to_multiset_len(a);
    vstd::seq_lib::to_multiset_len(b);
    if a.len() == 0 {
        assert(a =~= b);
    } else {
        let x = a[0];
        let y = b[0];
        vstd::seq_lib::to_multiset_contains(a, x);
        vstd::seq_lib::to_multiset_contains(b, x);
        vstd::seq_lib::to_multiset_contains(a, y);
        vstd::seq_lib::to_multiset_contains(b, y);
        assert(a.contains(x));
        assert(b.contains(y));
        let j = choose|j: int| 0 <= j < b.len() && b[j] == x;
        let i = choose|i: int| 0 <= i < a.len() && a[i] == y;
        if j > 0 {
            assert(!name_lt(b[j].0, b[0].0));
        }
        if i > 0 {
            assert(!name_lt(a[i].0, a[0].0));
        }
        if x.0 != y.0 {
            lemma_name_lt_total(x.0, y.0);
            if i == 0 {
                lemma_name_lt_irreflexive(x.0);
            }
        }
        assert(x.0 == y.0);
        if i != 0 {
            assert(a[0].0 != a[i].0);
        }
        assert(x == y);
        vstd::seq_lib::to_multiset_remove(a, 0);
        vstd::seq_lib::to_multiset_remove(b, 0);
        assert(a.remove(0) =~= a.drop_first());
        assert(b.remove(0) =~= b.drop_first());
        let a1 = a.drop_first();
        let b1 = b.drop_first();
        assert(sorted_by_name(a1)) by {
            assert forall|p: int, q: int| 0 <= p < q < a1.len() implies !name_lt(
                #[trigger] a1[q].0,
                #[trigger] a1[p].0,
            ) by {
                assert(a1[q] == a[q + 1] && a1[p] == a[p + 1]);
            }
        }
        assert(sorted_by_name(b1)) by {
            assert forall|p: int, q: int| 0 <= p < q < b1.len() implies !name_lt(
                #[trigger] b1[q].0,
                #[trigger] b1[p].0,
            ) by {
                assert(b1[q] == b[q + 1] && b1[p] == b[p + 1]);
            }
        }
        assert(distinct_names(a1)) by {
            assert forall|p: int, q: int| 0 <= p < q < a1.len() implies #[trigger] a1[p].0
                != #[trigger] a1[q].0 by {
                assert(a1[q] == a[q + 1] && a1[p] == a[p + 1]);
            }
        }
        lemma_sorted_selection_is_unique(a1, b1);
        assert(a =~= seq![x] + a1);
        assert(b =~= seq![y] + b1);
    }
}

proof fn lemma_markdown_entries_multiset(files: Seq<(Seq<u8>, Seq<char>)>)
    ensures
        markdown_entries(files).to_multiset() == files.to_multiset().filter(
            |e: (Seq<u8>, Seq<char>)| is_markdown_name(e.0),
        ),
    decreases files.len(),
{
    broadcast use vstd::multiset::group_multiset_axioms;

    let f = |e: (Seq<u8>, Seq<char>)| is_markdown_name(e.0);
    if files.len() == 0 {
        assert(files.to_multiset() =~= Multiset::empty()) by {
            broadcast use vstd::seq_lib::group_to_multiset_ensures;

        }
        assert(markdown_entries(files).to_multiset() =~= Multiset::empty()) by {
            broadcast use vstd::seq_lib::group_to_multiset_ensures;

        }
        assert(files.to_multiset().filter(f) =~= Multiset::empty());
    } else {
        let init = files.drop_last();
        let e = files.last();
        lemma_markdown_entries_multiset(init);
        assert(init.push(e) =~= files);
        vstd::seq_lib::to_multiset_build(init, e);
        if f(e) {
            vstd::seq_lib::to_multiset_build(markdown_entries(init), e);
            assert(markdown_entries(files).to_multiset() =~= files.to_multiset().filter(f));
        } else {
            assert(markdown_entries(files).to_multiset() =~= files.to_multiset().filter(f));
        }
    }
}

/// The selection does not depend on the order in which the directory was listed:
/// for two listings that hold the same entries, any two results meeting the contract
/// of `select_markdown_files` (the first with distinct names, as it has when the
/// listing's names are distinct) are the same list.
pub proof fn lemma_selection_independent_of_listing_order(
    l1: Seq<(Seq<u8>, Seq<char>)>,
    l2: Seq<(Seq<u8>, Seq<char>)>,
    r1: Seq<(Seq<u8>, Seq<char>)>,
    r2: Seq<(Seq<u8>, Seq<char>)>,
)
    requires
        l1.to_multiset() == l2.to_multiset(),
        sorted_by_name(r1),
        sorted_by_name(r2),
        distinct_names(r1),
        r1.to_multiset() == markdown_entries(l1).to_multiset(),
        r2.to_multiset() == markdown_entries(l2).to_multiset(),
    ensures
        r1 == r2,
{
    lemma_markdown_entries_multiset(l1);
    lemma_markdown_entries_multiset(l2);
    lemma_sorted_selection_is_unique(r1, r2);
}

/// The markdown files of a directory listing, ordered by file name so that the
/// result does not depend on the order in which the directory is read: exactly the
/// entries whose names have the extension `md`, each once, sorted byte-wise by name.
pub fn select_markdown_files(entries: Vec<DocFile>) -> (files: Vec<DocFile>)
    ensures
        sorted_by_name(entry_views(files@)),
        entry_views(files@).to_multiset() == markdown_entries(entry_views(entries@)).to_multiset(),
        distinct_names(entry_views(entries@)) ==> distinct_names(entry_views(files@)),
{
    let ghost all = entry_views(entries@);
    let ghost n = all.len();
    let mut files: Vec<DocFile> = Vec::new();
    let mut rest = entries;
    proof {
        assert(entry_views(files@) =~= Seq::<(Seq<u8>, Seq<char>)>::empty());
        assert(all.take(0) =~= Seq::<(Seq<u8>, Seq<char>)>::empty());
        assert(all.skip(0) =~= all);
    }
    while rest.len() > 0
        invariant
            n == all.len(),
            rest@.len() <= n,
            entry_views(rest@) == all.skip(n - rest@.len()),
            sorted_by_name(entry_views(files@)),
            entry_views(files@).to_multiset() == markdown_entries(all.take(n - rest@.len())).to_multiset(),
            distinct_names(all) ==> distinct_names(entry_views(files@)),
        decreases rest.len(),
    {
        let ghost done = n - rest@.len();
        let ghost before = entry_views(files@);
        let ghost rest_before = rest@;
        let entry = rest.remove(0);
        let ghost ev = (entry.name@, entry.source@);
        proof {
            assert(entry_views(rest_before)[0] == ev);
            assert(all[done] == ev);
            assert(entry_views(rest@) =~= entry_views(rest_before).remove(0));
            assert(all.skip(done).remove(0) =~= all.skip(done + 1));
            assert(all.take(done + 1).drop_last() =~= all.take(done));
            assert(all.take(done + 1).last() == ev);
        }
        if has_markdown_extension(&entry.name) {
            let p = insertion_point(&files, &entry.name);
            files.insert(p, entry);
            proof {
                assert(entry_views(files@) =~= before.insert(p as int, ev));
                vstd::seq_lib::to_multiset_insert(before, p as int, ev);
                lemma_insert_keeps_sorted(before, p as int, ev);
                if distinct_names(all) {
                    lemma_insert_keeps_distinct(all, done, before, p as int);
                }
                assert(markdown_entries(all.take(done + 1)) == markdown_entries(all.take(done)).push(ev));
                vstd::seq_lib::to_multiset_build(markdown_entries(all.take(done)), ev);
            }
        } else {
            proof {
                assert(markdown_entries(all.take(done + 1)) == markdown_entries(all.take(done)));
            }
        }
    }
    proof {
        assert(all.take(n as int) =~= all);
    }
    files
}

/// Where an entry named `name` goes in the sorted `files`: after every entry whose
/// name does not come after `name`.
fn insertion_point(files: &Vec<DocFile>, name: &Vec<u8>) -> (p: usize)
    requires
        sorted_by_name(entry_views(files@)),
    ensures
        p <= files@.len(),
        forall|q: int| 0 <= q < p ==> !name_lt(name@, #[trigger] entry_views(files@)[q].0),
        p < files@.len() ==> name_lt(name@, entry_views(files@)[p as int].0),
{
    let mut p: usize = 0;
    while p < files.len() && !name_less(name, &files[p].name)
        invariant
            p <= files@.len(),
            forall|q: int| 0 <= q < p ==> !name_lt(name@, #[trigger] entry_views(files@)[q].0),
        decreases files.len() - p,
    {
        proof {
            assert(entry_views(files@)[p as int].0 == files@[p as int].name@);
        }
        p = p + 1;
    }
    proof {
        if p < files@.len() {
            assert(entry_views(files@)[p as int].0 == files@[p as int].name@);
        }
    }
    p
}

proof fn lemma_markdown_entries_within(files: Seq<(Seq<u8>, Seq<char>)>, e: (Seq<u8>, Seq<char>))
    requires
        markdown_entries(files).contains(e),
    ensures
        files.contains(e),
    decreases files.len(),
{
    if files.len() > 0 {
        let init = files.drop_last();
        if markdown_entries(init).contains(e) {
            lemma_markdown_entries_within(init, e);
            let k = choose|k: int| 0 <= k < init.len() && init[k] == e;
            assert(files[k] == e);
        } else {
            assert(e == files.last());
            assert(files[files.len() - 1] == e);
        }
    }
}

proof fn lemma_insert_keeps_distinct(
    all: Seq<(Seq<u8>, Seq<char>)>,
    done: int,
    before: Seq<(Seq<u8>, Seq<char>)>,
    p: int,
)
    requires
        0 <= done < all.len(),
        distinct_names(all),
        distinct_names(before),
        0 <= p <= before.len(),
        before.to_multiset() == markdown_entries(all.take(done)).to_multiset(),
    ensures
        distinct_names(before.insert(p, all[done])),
{
    let ev = all[done];
    assert forall|q: int| 0 <= q < before.len() implies #[trigger] before[q].0 != ev.0 by {
        vstd::seq_lib::to_multiset_contains(before, before[q]);
        vstd::seq_lib::to_multiset_contains(markdown_entries(all.take(done)), before[q]);
        assert(before.contains(before[q]));
        lemma_markdown_entries_within(all.take(done), before[q]);
        let k = choose|k: int| 0 <= k < all.take(done).len() && all.take(done)[k] == before[q];
        assert(all[k] == before[q]);
    }
    let t = before.insert(p, ev);
    assert forall|i: int, j: int| 0 <= i < j < t.len() implies #[trigger] t[i].0 != #[trigger] t[j].0 by {
        let si = if i < p { i } else { i - 1 };
        let sj = if j < p { j } else { j - 1 };
        if i != p && j != p {
            assert(t[i] == before[si]);
            assert(t[j] == before[sj]);
        } else if i == p {
            assert(t[j] == before[sj]);
        } else {
            assert(t[i] == before[si]);
        }
    }
}

proof fn lemma_insert_keeps_sorted(s: Seq<(Seq<u8>, Seq<char>)>, p: int, x: (Seq<u8>, Seq<char>))
    requires
        sorted_by_name(s),
        0 <= p <= s.len(),
        forall|q: int| 0 <= q < p ==> !name_lt(x.0, #[trigger] s[q].0),
        p < s.len() ==> name_lt(x.0, s[p].0),
    ensures
        sorted_by_name(s.insert(p, x)),
{
    let t = s.insert(p, x);
    assert forall|i: int, j: int| 0 <= i < j < t.len() implies !name_lt(#[trigger] t[j].0, #[trigger] t[i].0) by {
        if i == p {
            // t[j] == s[j - 1] with j - 1 >= p
            if name_lt(s[j - 1].0, x.0) {
                if j - 1 > p {
                    assert(!name_lt(s[j - 1].0, s[p].0));
                    lemma_name_lt_transitive(s[j - 1].0, x.0, s[p].0);
                } else {
                    lemma_name_lt_transitive(x.0, s[p].0, x.0);
                    lemma_name_lt_irreflexive(x.0);
                }
            }
        } else if j == p {
            assert(t[i] == s[i]);
        } else {
            let si = if i < p { i } else { i - 1 };
            let sj = if j < p { j } else { j - 1 };
            assert(t[i] == s[si]);
            assert(t[j] == s[sj]);
        }
    }
}

} // verus!
