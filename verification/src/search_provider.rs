//! The GNOME Shell search provider's decisions: which overview searches are
//! questions for the assistant, what result the overview shows for them, and the
//! metadata of that result. The D-Bus plumbing lives outside the library.
use vstd::prelude::*;

use crate::text::{
    all_space, has_prefix, is_space, is_trimmed, lemma_trim_of_padded, join, join_strings, lemma_trim_is_trimmed, pair_views, strip_prefix_str, trim,
    trim_start, trim_start_str, trim_str, views,
};

verus! {

broadcast use vstd::string::group_string_axioms;

/// The D-Bus name under which the provider registers.
pub const BUS_NAME: &'static str = "com.canonical.UbuntuDesktopHelp";

/// The object path GNOME Shell calls for search results.
pub const OBJECT_PATH: &'static str = "/com/canonical/UbuntuDesktopHelp/SearchProvider";

/// Overview searches that start with this prefix are questions for the assistant.
pub open spec fn trigger_prefix() -> Seq<char> {
    seq!['?', '?']
}

/// The identifier of the single result the provider ever offers.
pub open spec fn result_id() -> Seq<char> {
    seq!['a', 's', 'k']
}

/// The question carried by the search terms: the terms joined by single spaces,
/// with leading whitespace dropped, must start with the trigger prefix; what follows
/// the prefix, trimmed, is the question, which must not be empty.
pub open spec fn query_of(terms: Seq<Seq<char>>) -> Option<Seq<char>> {
    let line = trim_start(join(terms, seq![' ']));
    if has_prefix(line, trigger_prefix()) {
        let q = trim(line.skip(2));
        if q.len() == 0 {
            None
        } else {
            Some(q)
        }
    } else {
        None
    }
}

/// The result identifiers offered for the search terms.
pub open spec fn result_set_of(terms: Seq<Seq<char>>) -> Seq<Seq<char>> {
    if query_of(terms) is Some {
        seq![result_id()]
    } else {
        Seq::empty()
    }
}

/// The description of the result: the current question, so that the user sees what
/// is about to be sent; before any question has been typed, a general invitation.
pub open spec fn description_of(question: Option<Seq<char>>) -> Seq<char> {
    match question {
        Some(q) => q,
        None => "Open the assistant for an answer"@,
    }
}

/// The metadata GNOME Shell shows for the result `id` while `question` is the current
/// question: pairs of key and value.
pub open spec fn meta_of(id: Seq<char>, question: Option<Seq<char>>) -> Seq<(Seq<char>, Seq<char>)> {
    seq![
        ("id"@, id),
        ("name"@, "Ask Ubuntu Desktop Help"@),
        ("description"@, description_of(question)),
        ("gicon"@, "help-browser"@),
    ]
}

/// The metadata's keys are distinct, so it is a map from key to value.
pub proof fn lemma_meta_keys_distinct(id: Seq<char>, question: Option<Seq<char>>)
    ensures
        forall|i: int, j: int| 0 <= i < j < 4 ==> #[trigger] meta_of(id, question)[i].0 != #[trigger] meta_of(
            id,
            question,
        )[j].0,
{
    reveal_strlit("id");
    reveal_strlit("name");
    reveal_strlit("description");
    reveal_strlit("gicon");
    let m = meta_of(id, question);
    assert(m[0].0.len() == 2 && m[1].0.len() == 4 && m[2].0.len() == 11 && m[3].0.len() == 5);
}

/// The metadata for each identifier that names the provider's result, in order;
/// other identifiers are passed over.
pub open spec fn metas_of(ids: Seq<Seq<char>>, question: Option<Seq<char>>) -> Seq<
    Seq<(Seq<char>, Seq<char>)>,
>
    decreases ids.len(),
{
    if ids.len() == 0 {
        Seq::empty()
    } else if ids.last() == result_id() {
        metas_of(ids.drop_last(), question).push(meta_of(ids.last(), question))
    } else {
        metas_of(ids.drop_last(), question)
    }
}

/// The views of a sequence of metadata entries.
pub open spec fn meta_views(metas: Seq<Vec<(String, String)>>) -> Seq<Seq<(Seq<char>, Seq<char>)>> {
    metas.map_values(|m: Vec<(String, String)>| pair_views(m@))
}

fn meta_entries(id: String, question: &Option<String>) -> (m: Vec<(String, String)>)
    ensures
        pair_views(m@) == meta_of(id@, question_view(*question)),
{
    let description = match question {
        Some(q) => q.clone(),
        None => String::from_str("Open the assistant for an answer"),
    };
    let m = vec![
        (String::from_str("id"), id),
        (String::from_str("name"), String::from_str("Ask Ubuntu Desktop Help")),
        (String::from_str("description"), description),
        (String::from_str("gicon"), String::from_str("help-browser")),
    ];
    proof {
        assert(pair_views(m@) =~= meta_of(id@, question_view(*question)));
    }
    m
}

/// The view of an optional string.
pub open spec fn question_view(q: Option<String>) -> Option<Seq<char>> {
    match q {
        Some(s) => Some(s@),
        None => None,
    }
}

/// A question taken from the search terms is never empty and has no whitespace at
/// either end.
pub proof fn lemma_question_is_trimmed(terms: Seq<Seq<char>>)
    ensures
        query_of(terms) matches Some(q) ==> q.len() > 0 && is_trimmed(q),
{
    lemma_trim_is_trimmed(trim_start(join(terms, seq![' '])).skip(2));
}

/// Whatever the question's characters or length, a question typed after the prefix
/// is recognised in full: when the terms, joined by spaces and with leading
/// whitespace dropped, read `??`, then whitespace, then a non-empty text `q` with no
/// whitespace at either end, then whitespace, the question is exactly `q`.
pub proof fn lemma_question_after_prefix_is_recognised(
    terms: Seq<Seq<char>>,
    w1: Seq<char>,
    q: Seq<char>,
    w2: Seq<char>,
)
    requires
        trim_start(join(terms, seq![' '])) == seq!['?', '?'] + w1 + q + w2,
        all_space(w1),
        all_space(w2),
        q.len() > 0,
        is_trimmed(q),
    ensures
        query_of(terms) == Some(q),
{
    let line = trim_start(join(terms, seq![' ']));
    assert(line.take(2) =~= seq!['?', '?']);
    assert(line.skip(2) =~= w1 + q + w2);
    lemma_trim_of_padded(w1, q, w2);
}

/// The two-term search `?? q`, for any non-empty question `q` without whitespace at
/// either end (ending in a question mark or not), carries exactly `q`.
pub proof fn lemma_prefix_then_question(q: Seq<char>)
    requires
        q.len() > 0,
        is_trimmed(q),
    ensures
        query_of(seq![seq!['?', '?'], q]) == Some(q),
{
    let terms = seq![seq!['?', '?'], q];
    assert(terms.drop_last() =~= seq![seq!['?', '?']]);
    assert(join(terms.drop_last(), seq![' ']) == seq!['?', '?']);
    let line = seq!['?', '?'] + seq![' '] + q;
    assert(join(terms, seq![' ']) == line);
    assert(!is_space(line[0]));
    assert(trim_start(line) == line);
    let w1 = seq![' '];
    let w2 = Seq::<char>::empty();
    assert(all_space(w1)) by {
        assert(is_space(w1[0]));
    }
    assert(line =~= seq!['?', '?'] + w1 + q + w2);
    lemma_question_after_prefix_is_recognised(terms, w1, q, w2);
}

/// Searches without a question are ignored: the terms carry no question exactly when,
/// joined by spaces and with leading whitespace dropped, they do not start with `??`,
/// or nothing but whitespace follows the prefix.
pub proof fn lemma_no_question_exactly_when(terms: Seq<Seq<char>>)
    ensures
        (query_of(terms) is None) == (!has_prefix(trim_start(join(terms, seq![' '])), seq!['?', '?'])
            || all_space(trim_start(join(terms, seq![' '])).skip(2))),
{
    let rest = trim_start(join(terms, seq![' '])).skip(2);
    if all_space(rest) {
        lemma_trim_of_all_space(rest);
    } else {
        let i = choose|i: int| 0 <= i < rest.len() && !is_space(#[trigger] rest[i]);
        lemma_trim_keeps_non_space(rest, i);
    }
}

proof fn lemma_trim_of_all_space(s: Seq<char>)
    requires
        all_space(s),
    ensures
        trim(s).len() == 0,
{
    crate::text::lemma_trim_removes_only_spaces(s);
    crate::text::lemma_without_spaces_all_space(s);
    crate::text::lemma_trim_is_trimmed(s);
    if trim(s).len() > 0 {
        crate::text::lemma_trim_shape(s);
        let (a, b) = choose|a: int, b: int|
            #![trigger s.subrange(a, b)]
            0 <= a <= b <= s.len() && trim(s) == s.subrange(a, b) && all_space(s.take(a)) && all_space(s.skip(b));
        assert(trim(s)[0] == s[a]);
    }
}

proof fn lemma_trim_keeps_non_space(s: Seq<char>, i: int)
    requires
        0 <= i < s.len(),
        !is_space(s[i]),
    ensures
        trim(s).len() > 0,
{
    crate::text::lemma_trim_shape(s);
    let (a, b) = choose|a: int, b: int|
        #![trigger s.subrange(a, b)]
        0 <= a <= b <= s.len() && trim(s) == s.subrange(a, b) && all_space(s.take(a)) && all_space(s.skip(b));
    if a == b {
        if i < a {
            assert(s.take(a)[i] == s[i]);
        } else {
            assert(s.skip(b)[i - b] == s[i]);
        }
    }
}

/// Every tile the provider describes is its single result with its fixed title and
/// icon, and a description that is the current question, or the general invitation
/// when there is none; there is at most one tile per identifier asked for.
pub proof fn lemma_result_tiles(ids: Seq<Seq<char>>, question: Option<Seq<char>>)
    ensures
        metas_of(ids, question).len() <= ids.len(),
        forall|k: int| 0 <= k < metas_of(ids, question).len() ==> #[trigger] metas_of(ids, question)[k] == seq![
            ("id"@, seq!['a', 's', 'k']),
            ("name"@, "Ask Ubuntu Desktop Help"@),
            ("description"@, match question {
                Some(q) => q,
                None => "Open the assistant for an answer"@,
            }),
            ("gicon"@, "help-browser"@),
        ],
    decreases ids.len(),
{
    if ids.len() > 0 {
        lemma_result_tiles(ids.drop_last(), question);
        let prev = metas_of(ids.drop_last(), question);
        assert forall|k: int| 0 <= k < metas_of(ids, question).len() implies #[trigger] metas_of(ids, question)[k]
            == seq![
            ("id"@, seq!['a', 's', 'k']),
            ("name"@, "Ask Ubuntu Desktop Help"@),
            ("description"@, match question {
                Some(q) => q,
                None => "Open the assistant for an answer"@,
            }),
            ("gicon"@, "help-browser"@),
        ] by {
            if k < prev.len() {
                assert(metas_of(ids, question)[k] == prev[k]);
            } else {
                assert(ids.last() == result_id());
                assert(metas_of(ids, question)[k] =~= seq![
                    ("id"@, seq!['a', 's', 'k']),
                    ("name"@, "Ask Ubuntu Desktop Help"@),
                    ("description"@, match question {
                        Some(q) => q,
                        None => "Open the assistant for an answer"@,
                    }),
                    ("gicon"@, "help-browser"@),
                ]);
            }
        }
    }
}

/// After a search whose terms hold the question `q`, the metadata of the result
/// shows `q` as its description, so the user sees what is about to be sent.
pub proof fn lemma_description_shows_question(terms: Seq<Seq<char>>)
    ensures
        query_of(terms) matches Some(q) ==> {
            &&& metas_of(seq![result_id()], query_of(terms)) == seq![meta_of(result_id(), Some(q))]
            &&& meta_of(result_id(), Some(q))[2] == ("description"@, q)
        },
{
    let ids = seq![result_id()];
    let q = query_of(terms);
    assert(ids.drop_last() =~= Seq::<Seq<char>>::empty());
    assert(ids.last() == result_id());
    assert(metas_of(ids.drop_last(), q) == Seq::<Seq<(Seq<char>, Seq<char>)>>::empty());
    assert(metas_of(ids, q) == metas_of(ids.drop_last(), q).push(meta_of(ids.last(), q)));
    assert(metas_of(ids, q) =~= seq![meta_of(result_id(), q)]);
}

/// The search provider object that GNOME Shell talks to. It remembers the question
/// of the latest search, which the result's description shows.
pub struct UbuntuDesktopHelp {
    question: Option<String>,
}

impl View for UbuntuDesktopHelp {
    type V = Option<Seq<char>>;

    /// The current question: that of the latest search, if it held one.
    closed spec fn view(&self) -> Option<Seq<char>> {
        question_view(self.question)
    }
}

impl UbuntuDesktopHelp {
    /// A provider before any search.
    pub fn new() -> (p: UbuntuDesktopHelp)
        ensures
            p@ is None,
    {
        UbuntuDesktopHelp { question: None }
    }

    /// Joins the search terms and, if the query starts with the trigger prefix,
    /// returns the question with the prefix stripped. Otherwise returns `None`.
    pub fn extract_query(terms: &[String]) -> (q: Option<String>)
        ensures
            q is Some <==> query_of(views(terms@)) is Some,
            q matches Some(s) ==> query_of(views(terms@)) == Some(s@),
    {
        proof {
            reveal_strlit(" ");
            reveal_strlit("??");
            assert(" "@ =~= seq![' ']);
            assert("??"@ =~= trigger_prefix());
        }
        let joined = join_strings(terms, " ");
        let trimmed = trim_start_str(joined.as_str());
        let rest = match strip_prefix_str(trimmed, "??") {
            Some(rest) => rest,
            None => return None,
        };
        let q = trim_str(rest);
        if q.unicode_len() == 0 {
            None
        } else {
            Some(q.to_owned())
        }
    }

    fn result_set(&mut self, terms: &[String]) -> (r: Vec<String>)
        ensures
            views(r@) == result_set_of(views(terms@)),
            final(self)@ == query_of(views(terms@)),
    {
        self.question = Self::extract_query(terms);
        if self.question.is_some() {
            proof {
                reveal_strlit("ask");
                assert("ask"@ =~= result_id());
            }
            let r = vec![String::from_str("ask")];
            proof {
                assert(views(r@) =~= seq![result_id()]);
            }
            r
        } else {
            let r: Vec<String> = Vec::new();
            proof {
                assert(views(r@) =~= Seq::<Seq<char>>::empty());
            }
            r
        }
    }

    /// The results for a new search: the single result when the terms hold a
    /// question, none otherwise. The terms' question becomes the current question.
    pub fn get_initial_result_set(&mut self, terms: &[String]) -> (r: Vec<String>)
        ensures
            views(r@) == result_set_of(views(terms@)),
            final(self)@ == query_of(views(terms@)),
    {
        self.result_set(terms)
    }

    /// The results as the user keeps typing: decided by the new terms alone, whose
    /// question becomes the current question.
    pub fn get_subsearch_result_set(&mut self, previous_results: &[String], terms: &[String]) -> (r:
        Vec<String>)
        ensures
            views(r@) == result_set_of(views(terms@)),
            final(self)@ == query_of(views(terms@)),
    {
        self.result_set(terms)
    }

    /// Metadata GNOME uses to render each result tile: one entry for each identifier
    /// that is the provider's result, none for any other; its description shows the
    /// current question.
    pub fn get_result_metas(&self, identifiers: Vec<String>) -> (metas: Vec<Vec<(String, String)>>)
        ensures
            meta_views(metas@) == metas_of(views(identifiers@), self@),
    {
        let ghost ids = views(identifiers@);
        let mut metas: Vec<Vec<(String, String)>> = Vec::new();
        let mut i: usize = 0;
        while i < identifiers.len()
            invariant
                i <= identifiers@.len(),
                ids == views(identifiers@),
                meta_views(metas@) == metas_of(ids.take(i as int), self@),
            decreases identifiers.len() - i,
        {
            let id = identifiers[i].clone();
            proof {
                assert(ids.take(i + 1).drop_last() =~= ids.take(i as int));
                assert(ids.take(i + 1).last() == id@);
            }
            let ask = String::from_str("ask");
            let is_result = id == ask;
            proof {
                reveal_strlit("ask");
                assert("ask"@ =~= result_id());
                let t = ids.take(i + 1);
                assert(ids[i as int] == identifiers@[i as int]@);
                assert(t.len() > 0 && t.last() == id@);
                assert(t.drop_last() =~= ids.take(i as int));
                assert(is_result == (id@ == result_id()));
                if is_result {
                    assert(metas_of(t, self@) == metas_of(ids.take(i as int), self@).push(
                        meta_of(id@, self@),
                    ));
                } else {
                    assert(metas_of(t, self@) == metas_of(ids.take(i as int), self@));
                }
            }
            if is_result {
                let m = meta_entries(id, &self.question);
                let ghost before = metas@;
                metas.push(m);
                proof {
                    assert(meta_views(metas@) =~= meta_views(before).push(pair_views(m@)));
                }
            }
            i = i + 1;
        }
        proof {
            assert(ids.take(identifiers@.len() as int) =~= ids);
        }
        metas
    }
}

} // verus!
