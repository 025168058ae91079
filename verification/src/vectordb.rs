//! The index's own logic around the vector database: whether the collection has to
//! be dropped before it is rebuilt, the points written for the documentation chunks,
//! and how the payload of a search hit is read back. Embedding and the database
//! calls themselves live outside the library.
use vstd::prelude::*;

use crate::docs::Chunk;
use crate::text::{pair_views, views};

verus! {

broadcast use vstd::string::group_string_axioms;

/// The collection that holds the documentation index.
pub const COLLECTION: &'static str = "ubuntu-docs";

/// Output dimension of the embedding model; must match the collection's configuration.
pub const EMBEDDING_DIM: u64 = 384;

/// Default number of chunks to retrieve per user query.
pub const TOP_K: usize = 5;

/// Whether the collection of the index is among the collections `names`.
pub fn collection_exists(names: &[String]) -> (b: bool)
    ensures
        b == views(names@).contains(COLLECTION@),
{
    let target = COLLECTION.to_owned();
    let mut i: usize = 0;
    while i < names.len()
        invariant
            target@ == COLLECTION@,
            i <= names@.len(),
            forall|k: int| 0 <= k < i ==> names@[k]@ != COLLECTION@,
        decreases names.len() - i,
    {
        if names[i] == target {
            proof {
                assert(views(names@)[i as int] == COLLECTION@);
            }
            return true;
        }
        i = i + 1;
    }
    proof {
        if views(names@).contains(COLLECTION@) {
            let k = choose|k: int| 0 <= k < views(names@).len() && views(names@)[k] == COLLECTION@;
            assert(names@[k]@ == COLLECTION@);
        }
    }
    false
}


/// The texts of the chunks, in order: what is embedded.
pub fn chunk_texts(chunks: &[Chunk]) -> (texts: Vec<String>)
    ensures
        texts@.len() == chunks@.len(),
        forall|i: int| 0 <= i < chunks@.len() ==> #[trigger] texts@[i]@ == chunks@[i].text@,
{
    let mut texts: Vec<String> = Vec::new();
    let mut i: usize = 0;
    while i < chunks.len()
        invariant
            i <= chunks@.len(),
            texts@.len() == i,
            forall|k: int| 0 <= k < i ==> #[trigger] texts@[k]@ == chunks@[k].text@,
        decreases chunks.len() - i,
    {
        texts.push(chunks[i].text.clone());
        i = i + 1;
    }
    texts
}

/// A point of the index, without its vector: its id and its payload, pairs of key and
/// text.
pub struct PointRecord {
    /// The point's id.
    pub id: u64,
    /// The payload stored with the vector.
    pub payload: Vec<(String, String)>,
}

/// The payload stored with the chunk from `source` with text `text`.
pub open spec fn payload_of(source: Seq<char>, text: Seq<char>) -> Seq<(Seq<char>, Seq<char>)> {
    seq![("source"@, source), ("text"@, text)]
}

/// The points written for the chunks: the chunk at position `i` becomes the point
/// with id `i` whose payload holds the chunk's source and text.
pub fn point_records(chunks: &[Chunk]) -> (points: Vec<PointRecord>)
    ensures
        points@.len() == chunks@.len(),
        forall|i: int|
            0 <= i < chunks@.len() ==> (#[trigger] points@[i]).id == i && pair_views(points@[i].payload@)
                == payload_of(chunks@[i].source@, chunks@[i].text@),
{
    let mut points: Vec<PointRecord> = Vec::new();
    let mut i: usize = 0;
    while i < chunks.len()
        invariant
            i <= chunks@.len(),
            points@.len() == i,
            forall|k: int|
                0 <= k < i ==> (#[trigger] points@[k]).id == k && pair_views(points@[k].payload@)
                    == payload_of(chunks@[k].source@, chunks@[k].text@),
        decreases chunks.len() - i,
    {
        let payload = vec![
            (String::from_str("source"), chunks[i].source.clone()),
            (String::from_str("text"), chunks[i].text.clone()),
        ];
        proof {
            assert(pair_views(payload@) =~= payload_of(chunks@[i as int].source@, chunks@[i as int].text@));
        }
        points.push(PointRecord { id: i as u64, payload });
        i = i + 1;
    }
    points
}

/// Whether points are written to the index: only when there are any.
pub fn needs_upsert(point_count: usize) -> (b: bool)
    ensures
        b == (point_count > 0),
{
    point_count > 0
}

/// A value of a point's payload, as far as the index reads it.
pub enum PayloadValue {
    /// A string value.
    Text(String),
    /// A value of any other kind.
    Other,
}

/// The views of payload entries: the key, and the text of a string value.
pub open spec fn payload_views(entries: Seq<(String, PayloadValue)>) -> Seq<(Seq<char>, Option<Seq<char>>)> {
    entries.map_values(
        |e: (String, PayloadValue)|
            (
                e.0@,
                match e.1 {
                    PayloadValue::Text(s) => Some(s@),
                    PayloadValue::Other => None,
                },
            ),
    )
}

/// The string stored under `key` in a payload whose keys are distinct: the empty
/// string when the key is absent or its value is not a string.
pub open spec fn payload_text(entries: Seq<(Seq<char>, Option<Seq<char>>)>, key: Seq<char>) -> Seq<char>
    decreases entries.len(),
{
    if entries.len() == 0 {
        Seq::empty()
    } else if entries[0].0 == key {
        match entries[0].1 {
            Some(s) => s,
            None => Seq::empty(),
        }
    } else {
        payload_text(entries.drop_first(), key)
    }
}

/// A payload of string values as the database hands it back.
pub open spec fn stored(pairs: Seq<(Seq<char>, Seq<char>)>) -> Seq<(Seq<char>, Option<Seq<char>>)> {
    pairs.map_values(|p: (Seq<char>, Seq<char>)| (p.0, Some(p.1)))
}

/// What the index writes with a chunk's vector is what a search hit gives back: the
/// source and text read from the stored payload are the chunk's source and text.
pub proof fn lemma_payload_round_trip(source: Seq<char>, text: Seq<char>)
    ensures
        payload_text(stored(payload_of(source, text)), "source"@) == source,
        payload_text(stored(payload_of(source, text)), "text"@) == text,
{
    reveal_strlit("source");
    reveal_strlit("text");
    let st = stored(payload_of(source, text));
    assert(st[0] == ("source"@, Some(source)));
    assert(st[1] == ("text"@, Some(text)));
    assert("source"@ != "text"@) by {
        assert("source"@.len() != "text"@.len());
    }
    assert(st.drop_first()[0] == st[1]);
    assert(payload_text(st.drop_first(), "text"@) == text);
    assert(payload_text(st, "text"@) == payload_text(st.drop_first(), "text"@));
}

/// No two entries of a payload share a key, as in the database's payload map.
pub open spec fn distinct_keys(entries: Seq<(Seq<char>, Option<Seq<char>>)>) -> bool {
    forall|i: int, j: int| 0 <= i < j < entries.len() ==> #[trigger] entries[i].0 != #[trigger] entries[j].0
}

/// In a payload whose keys are distinct, reading a key gives the string stored under
/// it, whatever the order of the entries: the string of the one entry with that key,
/// or the empty string when that entry holds no string.
pub proof fn lemma_payload_text_is_lookup(entries: Seq<(Seq<char>, Option<Seq<char>>)>, key: Seq<char>, i: int)
    requires
        distinct_keys(entries),
        0 <= i < entries.len(),
        entries[i].0 == key,
    ensures
        payload_text(entries, key) == (match entries[i].1 {
            Some(s) => s,
            None => Seq::<char>::empty(),
        }),
    decreases i,
{
    if i > 0 {
        assert(entries[0].0 != entries[i].0);
        let rest = entries.drop_first();
        assert(distinct_keys(rest)) by {
            assert forall|a: int, b: int| 0 <= a < b < rest.len() implies #[trigger] rest[a].0
                != #[trigger] rest[b].0 by {
                assert(rest[a] == entries[a + 1] && rest[b] == entries[b + 1]);
            }
        }
        lemma_payload_text_is_lookup(rest, key, i - 1);
    }
}

/// Extracts a string value from a payload; returns the empty string if the key is
/// absent or its value is not a string.
pub fn payload_str(payload: &Vec<(String, PayloadValue)>, key: &str) -> (s: String)
    ensures
        s@ == payload_text(payload_views(payload@), key@),
{
    let ghost es = payload_views(payload@);
    let wanted = key.to_owned();
    let mut i: usize = 0;
    proof {
        assert(es.skip(0) =~= es);
    }
    while i < payload.len()
        invariant
            i <= payload@.len(),
            es == payload_views(payload@),
            wanted@ == key@,
            payload_text(es, key@) == payload_text(es.skip(i as int), key@),
        decreases payload.len() - i,
    {
        proof {
            assert(es.skip(i as int)[0] == es[i as int]);
            assert(es.skip(i as int).drop_first() =~= es.skip(i + 1));
        }
        if payload[i].0 == wanted {
            return match &payload[i].1 {
                PayloadValue::Text(s) => s.clone(),
                PayloadValue::Other => String::new(),
            };
        }
        i = i + 1;
    }
    String::new()
}

/// The (source, text) pair of each search hit, read from its payload, in the order
/// of the hits.
pub fn search_results(hits: &Vec<Vec<(String, PayloadValue)>>) -> (results: Vec<(String, String)>)
    ensures
        results@.len() == hits@.len(),
        forall|i: int|
            0 <= i < hits@.len() ==> (#[trigger] results@[i]).0@ == payload_text(
                payload_views(hits@[i]@),
                "source"@,
            ) && results@[i].1@ == payload_text(payload_views(hits@[i]@), "text"@),
{
    let mut results: Vec<(String, String)> = Vec::new();
    let mut i: usize = 0;
    while i < hits.len()
        invariant
            i <= hits@.len(),
            results@.len() == i,
            forall|k: int|
                0 <= k < i ==> (#[trigger] results@[k]).0@ == payload_text(
                    payload_views(hits@[k]@),
                    "source"@,
                ) && results@[k].1@ == payload_text(payload_views(hits@[k]@), "text"@),
        decreases hits.len() - i,
    {
        let source = payload_str(&hits[i], "source");
        let text = payload_str(&hits[i], "text");
        results.push((source, text));
        i = i + 1;
    }
    results
}

} // verus!
