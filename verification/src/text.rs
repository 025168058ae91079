//! Character-level text operations shared by the other modules: whitespace,
//! trimming, prefixes and ASCII case folding, each against a specification over
//! sequences of characters.
use vstd::prelude::*;

verus! {

broadcast use vstd::string::group_string_axioms;

/// The characters with the Unicode `White_Space` property.
pub open spec fn is_space(c: char) -> bool {
    let u = c as u32;
    ||| 0x09 <= u <= 0x0d
    ||| u == 0x20
    ||| u == 0x85
    ||| u == 0xa0
    ||| u == 0x1680
    ||| 0x2000 <= u <= 0x200a
    ||| u == 0x2028
    ||| u == 0x2029
    ||| u == 0x202f
    ||| u == 0x205f
    ||| u == 0x3000
}

/// Whether `c` is a whitespace character (the Unicode `White_Space` property).
pub fn is_whitespace(c: char) -> (b: bool)
    ensures
        b == is_space(c),
{
    let u = c as u32;
    (0x09 <= u && u <= 0x0d) || u == 0x20 || u == 0x85 || u == 0xa0 || u == 0x1680 || (0x2000 <= u
        && u <= 0x200a) || u == 0x2028 || u == 0x2029 || u == 0x202f || u == 0x205f || u == 0x3000
}

/// `t` has no whitespace at either end.
pub open spec fn is_trimmed(t: Seq<char>) -> bool {
    t.len() > 0 ==> !is_space(t[0]) && !is_space(t.last())
}

proof fn lemma_trim_start_first(s: Seq<char>)
    ensures
        trim_start(s).len() > 0 ==> !is_space(trim_start(s)[0]),
    decreases s.len(),
{
    if s.len() > 0 && is_space(s[0]) {
        lemma_trim_start_first(s.drop_first());
    }
}

proof fn lemma_trim_end_prefix(s: Seq<char>)
    ensures
        trim_end(s).len() <= s.len(),
        trim_end(s) == s.take(trim_end(s).len() as int),
        trim_end(s).len() > 0 ==> !is_space(trim_end(s).last()),
    decreases s.len(),
{
    if s.len() > 0 && is_space(s.last()) {
        lemma_trim_end_prefix(s.drop_last());
        assert(s.drop_last().take(trim_end(s).len() as int) =~= s.take(trim_end(s).len() as int));
    } else {
        assert(s.take(s.len() as int) =~= s);
    }
}

/// Trimming leaves no whitespace at either end of the text.
pub proof fn lemma_trim_is_trimmed(s: Seq<char>)
    ensures
        is_trimmed(trim(s)),
{
    lemma_trim_start_first(s);
    lemma_trim_end_prefix(trim_start(s));
    if trim(s).len() > 0 {
        assert(trim(s)[0] == trim_start(s)[0]);
    }
}

/// Every character of `s` is whitespace.
pub open spec fn all_space(s: Seq<char>) -> bool {
    forall|i: int| 0 <= i < s.len() ==> is_space(#[trigger] s[i])
}

/// `s` with every whitespace character removed.
pub open spec fn without_spaces(s: Seq<char>) -> Seq<char>
    decreases s.len(),
{
    if s.len() == 0 {
        Seq::empty()
    } else if is_space(s.last()) {
        without_spaces(s.drop_last())
    } else {
        without_spaces(s.drop_last()).push(s.last())
    }
}

/// Removing whitespace distributes over concatenation.
pub proof fn lemma_without_spaces_add(a: Seq<char>, b: Seq<char>)
    ensures
        without_spaces(a + b) == without_spaces(a) + without_spaces(b),
    decreases b.len(),
{
    if b.len() == 0 {
        assert(a + b =~= a);
        assert(without_spaces(a) + without_spaces(b) =~= without_spaces(a));
    } else {
        lemma_without_spaces_add(a, b.drop_last());
        assert((a + b).drop_last() =~= a + b.drop_last());
        assert((a + b).last() == b.last());
        if !is_space(b.last()) {
            assert(without_spaces(a) + without_spaces(b.drop_last()).push(b.last()) =~= (without_spaces(a)
                + without_spaces(b.drop_last())).push(b.last()));
        }
    }
}

/// Text made only of whitespace has nothing left once whitespace is removed.
pub proof fn lemma_without_spaces_all_space(s: Seq<char>)
    requires
        all_space(s),
    ensures
        without_spaces(s) == Seq::<char>::empty(),
    decreases s.len(),
{
    if s.len() > 0 {
        assert(is_space(s[s.len() - 1]));
        assert forall|i: int| 0 <= i < s.drop_last().len() implies is_space(#[trigger] s.drop_last()[i]) by {
            assert(s.drop_last()[i] == s[i]);
        }
        lemma_without_spaces_all_space(s.drop_last());
    }
}

proof fn lemma_trim_start_shape(s: Seq<char>)
    ensures
        trim_start(s).len() <= s.len(),
        all_space(s.take(s.len() - trim_start(s).len())),
        trim_start(s) == s.skip(s.len() - trim_start(s).len()),
    decreases s.len(),
{
    if s.len() > 0 && is_space(s[0]) {
        lemma_trim_start_shape(s.drop_first());
        let k = s.len() - trim_start(s).len();
        assert(s.drop_first().skip(k - 1) =~= s.skip(k));
        assert forall|i: int| 0 <= i < s.take(k).len() implies is_space(#[trigger] s.take(k)[i]) by {
            if i > 0 {
                assert(s.take(k)[i] == s.drop_first().take(k - 1)[i - 1]);
            }
        }
    } else {
        assert(s.skip(0) =~= s);
        assert(s.take(0).len() == 0);
    }
}

proof fn lemma_trim_end_shape(s: Seq<char>)
    ensures
        trim_end(s).len() <= s.len(),
        trim_end(s) == s.take(trim_end(s).len() as int),
        all_space(s.skip(trim_end(s).len() as int)),
    decreases s.len(),
{
    if s.len() > 0 && is_space(s.last()) {
        lemma_trim_end_shape(s.drop_last());
        let j = trim_end(s).len() as int;
        assert(s.drop_last().take(j) =~= s.take(j));
        assert forall|i: int| 0 <= i < s.skip(j).len() implies is_space(#[trigger] s.skip(j)[i]) by {
            if j + i < s.len() - 1 {
                assert(s.skip(j)[i] == s.drop_last().skip(j)[i]);
            }
        }
    } else {
        assert(s.take(s.len() as int) =~= s);
        assert(s.skip(s.len() as int).len() == 0);
    }
}

/// Trimming cuts a slice out of the text with only whitespace before and after it.
pub proof fn lemma_trim_shape(s: Seq<char>)
    ensures
        exists|a: int, b: int|
            #![trigger s.subrange(a, b)]
            0 <= a <= b <= s.len() && trim(s) == s.subrange(a, b) && all_space(s.take(a)) && all_space(
                s.skip(b),
            ),
{
    lemma_trim_start_shape(s);
    let t = trim_start(s);
    let a = s.len() - t.len();
    lemma_trim_end_shape(t);
    let j = trim_end(t).len() as int;
    let b = a + j;
    assert(trim(s) =~= s.subrange(a, b));
    assert forall|i: int| 0 <= i < s.skip(b).len() implies is_space(#[trigger] s.skip(b)[i]) by {
        assert(s.skip(b)[i] == t.skip(j)[i]);
    }
    assert(all_space(s.skip(b)));
}

/// Text whose trimmed form is empty is all whitespace.
pub proof fn lemma_blank_is_all_space(s: Seq<char>)
    requires
        trim(s).len() == 0,
    ensures
        all_space(s),
{
    lemma_trim_shape(s);
    let (a, b) = choose|a: int, b: int|
        #![trigger s.subrange(a, b)]
        0 <= a <= b <= s.len() && trim(s) == s.subrange(a, b) && all_space(s.take(a)) && all_space(s.skip(b));
    assert forall|i: int| 0 <= i < s.len() implies is_space(#[trigger] s[i]) by {
        if i < a {
            assert(s.take(a)[i] == s[i]);
        } else {
            assert(s.skip(b)[i - b] == s[i]);
        }
    }
}

/// Leading whitespace is dropped by `trim_start`, whatever follows it.
pub proof fn lemma_trim_start_after_spaces(w: Seq<char>, s: Seq<char>)
    requires
        all_space(w),
    ensures
        trim_start(w + s) == trim_start(s),
    decreases w.len(),
{
    if w.len() == 0 {
        assert(w + s =~= s);
    } else {
        assert(is_space(w[0]));
        assert((w + s)[0] == w[0]);
        assert((w + s).drop_first() =~= w.drop_first() + s);
        assert forall|i: int| 0 <= i < w.drop_first().len() implies is_space(#[trigger] w.drop_first()[i]) by {
            assert(w.drop_first()[i] == w[i + 1]);
        }
        lemma_trim_start_after_spaces(w.drop_first(), s);
    }
}

/// Trailing whitespace is dropped by `trim_end`, whatever precedes it.
pub proof fn lemma_trim_end_before_spaces(s: Seq<char>, w: Seq<char>)
    requires
        all_space(w),
    ensures
        trim_end(s + w) == trim_end(s),
    decreases w.len(),
{
    if w.len() == 0 {
        assert(s + w =~= s);
    } else {
        assert(is_space(w[w.len() - 1]));
        assert((s + w).last() == w.last());
        assert((s + w).drop_last() =~= s + w.drop_last());
        assert forall|i: int| 0 <= i < w.drop_last().len() implies is_space(#[trigger] w.drop_last()[i]) by {
            assert(w.drop_last()[i] == w[i]);
        }
        lemma_trim_end_before_spaces(s, w.drop_last());
    }
}

/// Trimming text that is a trimmed core with whitespace around it gives the core,
/// whatever the core's characters and length.
pub proof fn lemma_trim_of_padded(w1: Seq<char>, q: Seq<char>, w2: Seq<char>)
    requires
        all_space(w1),
        all_space(w2),
        q.len() > 0,
        is_trimmed(q),
    ensures
        trim(w1 + q + w2) == q,
{
    assert(w1 + q + w2 =~= w1 + (q + w2));
    lemma_trim_start_after_spaces(w1, q + w2);
    assert((q + w2)[0] == q[0]);
    assert(trim_start(q + w2) == q + w2);
    lemma_trim_end_before_spaces(q, w2);
    assert(trim_end(q) == q);
}

/// Trimming removes only whitespace and never lengthens the text.
pub proof fn lemma_trim_removes_only_spaces(s: Seq<char>)
    ensures
        trim(s).len() <= s.len(),
        without_spaces(trim(s)) == without_spaces(s),
{
    lemma_trim_start_shape(s);
    let t = trim_start(s);
    let k = s.len() - t.len();
    lemma_trim_end_shape(t);
    let j = trim_end(t).len() as int;
    assert(s =~= s.take(k) + t);
    lemma_without_spaces_add(s.take(k), t);
    lemma_without_spaces_all_space(s.take(k));
    assert(t =~= t.take(j) + t.skip(j));
    lemma_without_spaces_add(t.take(j), t.skip(j));
    lemma_without_spaces_all_space(t.skip(j));
    assert(Seq::<char>::empty() + without_spaces(t) =~= without_spaces(t));
    assert(without_spaces(t.take(j)) + Seq::<char>::empty() =~= without_spaces(t.take(j)));
}

/// `s` without its leading whitespace.
pub open spec fn trim_start(s: Seq<char>) -> Seq<char>
    decreases s.len(),
{
    if s.len() > 0 && is_space(s[0]) {
        trim_start(s.drop_first())
    } else {
        s
    }
}

/// `s` without its trailing whitespace.
pub open spec fn trim_end(s: Seq<char>) -> Seq<char>
    decreases s.len(),
{
    if s.len() > 0 && is_space(s.last()) {
        trim_end(s.drop_last())
    } else {
        s
    }
}

/// `s` without leading and trailing whitespace.
pub open spec fn trim(s: Seq<char>) -> Seq<char> {
    trim_end(trim_start(s))
}

/// The characters of `s`, in order.
pub fn chars_of(s: &str) -> (v: Vec<char>)
    ensures
        v@ == s@,
{
    let mut v: Vec<char> = Vec::new();
    for c in it: s.chars()
        invariant
            v@ == it.seq().take(it.index() as int),
            it.seq() == s@,
    {
        v.push(c);
    }
    v
}


proof fn lemma_trim_start_skip(s: Seq<char>, i: int)
    requires
        0 <= i < s.len(),
        is_space(s[i]),
    ensures
        trim_start(s.skip(i)) == trim_start(s.skip(i + 1)),
{
    assert(s.skip(i).drop_first() =~= s.skip(i + 1));
}

proof fn lemma_trim_end_take(s: Seq<char>, j: int)
    requires
        0 < j <= s.len(),
        is_space(s[j - 1]),
    ensures
        trim_end(s.take(j)) == trim_end(s.take(j - 1)),
{
    assert(s.take(j).drop_last() =~= s.take(j - 1));
}

/// The index of the first character of `cs` at or after `from` that is not whitespace,
/// or `cs.len()` when there is none.
fn skip_spaces(cs: &Vec<char>, from: usize) -> (i: usize)
    requires
        from <= cs.len(),
    ensures
        from <= i <= cs.len(),
        trim_start(cs@.skip(from as int)) == cs@.skip(i as int),
        i < cs.len() ==> !is_space(cs@[i as int]),
{
    let mut i = from;
    while i < cs.len() && is_whitespace(cs[i])
        invariant
            from <= i <= cs.len(),
            trim_start(cs@.skip(from as int)) == trim_start(cs@.skip(i as int)),
        decreases cs.len() - i,
    {
        proof {
            lemma_trim_start_skip(cs@, i as int);
        }
        i = i + 1;
    }
    proof {
        if i == cs.len() {
            assert(cs@.skip(i as int).len() == 0);
        }
    }
    i
}

/// The end of `cs[from..to]` once its trailing whitespace is dropped.
fn back_over_spaces(cs: &Vec<char>, from: usize, to: usize) -> (j: usize)
    requires
        from <= to <= cs.len(),
    ensures
        from <= j <= to,
        trim_end(cs@.subrange(from as int, to as int)) == cs@.subrange(from as int, j as int),
{
    let ghost t = cs@.subrange(from as int, to as int);
    let mut j = to;
    proof {
        assert(t.take(to - from) =~= t);
    }
    while j > from && is_whitespace(cs[j - 1])
        invariant
            from <= j <= to <= cs.len(),
            t == cs@.subrange(from as int, to as int),
            trim_end(t) == trim_end(t.take(j - from)),
        decreases j,
    {
        proof {
            lemma_trim_end_take(t, j - from);
            assert(t.take(j - from - 1) =~= t.take(j - 1 - from));
        }
        j = j - 1;
    }
    proof {
        assert(t.take(j - from) =~= cs@.subrange(from as int, j as int));
    }
    j
}

/// `s` without leading whitespace (as `str::trim_start`).
pub fn trim_start_str(s: &str) -> (t: &str)
    ensures
        t@ == trim_start(s@),
{
    let cs = chars_of(s);
    let i = skip_spaces(&cs, 0);
    proof {
        assert(cs@.skip(0) =~= cs@);
    }
    s.substring_char(i, cs.len())
}

/// `s` without leading and trailing whitespace (as `str::trim`).
pub fn trim_str(s: &str) -> (t: &str)
    ensures
        t@ == trim(s@),
{
    let cs = chars_of(s);
    let n = cs.len();
    let i = skip_spaces(&cs, 0);
    let j = back_over_spaces(&cs, i, n);
    proof {
        assert(cs@.skip(0) =~= cs@);
        assert(cs@.skip(i as int) =~= cs@.subrange(i as int, n as int));
    }
    s.substring_char(i, j)
}


/// `s` without its trailing occurrences of `c` (as `str::trim_end_matches` with a `char`).
pub open spec fn trim_end_char(s: Seq<char>, c: char) -> Seq<char>
    decreases s.len(),
{
    if s.len() > 0 && s.last() == c {
        trim_end_char(s.drop_last(), c)
    } else {
        s
    }
}

/// `s` without its trailing occurrences of `c`.
pub fn trim_end_matches_char(s: &str, c: char) -> (t: &str)
    ensures
        t@ == trim_end_char(s@, c),
{
    let cs = chars_of(s);
    let mut j = cs.len();
    proof {
        assert(cs@.take(j as int) =~= cs@);
    }
    while j > 0 && cs[j - 1] == c
        invariant
            j <= cs.len(),
            cs@ == s@,
            trim_end_char(s@, c) == trim_end_char(cs@.take(j as int), c),
        decreases j,
    {
        proof {
            assert(cs@.take(j as int).drop_last() =~= cs@.take(j - 1));
        }
        j = j - 1;
    }
    s.substring_char(0, j)
}

/// Whether `p` is a prefix of `s`.
pub open spec fn has_prefix(s: Seq<char>, p: Seq<char>) -> bool {
    p.len() <= s.len() && s.take(p.len() as int) == p
}

/// `s` without the prefix `p`, or `None` when `s` does not start with `p`
/// (as `str::strip_prefix` with a string pattern).
pub fn strip_prefix_str<'a>(s: &'a str, p: &str) -> (r: Option<&'a str>)
    ensures
        r is Some <==> has_prefix(s@, p@),
        r matches Some(rest) ==> rest@ == s@.skip(p@.len() as int),
{
    let cs = chars_of(s);
    let ps = chars_of(p);
    if ps.len() > cs.len() {
        return None;
    }
    let mut i: usize = 0;
    while i < ps.len()
        invariant
            ps.len() <= cs.len(),
            cs@ == s@,
            ps@ == p@,
            i <= ps.len(),
            forall|k: int| 0 <= k < i ==> cs@[k] == ps@[k],
        decreases ps.len() - i,
    {
        if cs[i] != ps[i] {
            proof {
                assert(s@.take(p@.len() as int)[i as int] != p@[i as int]);
            }
            return None;
        }
        i = i + 1;
    }
    proof {
        assert(s@.take(p@.len() as int) =~= p@);
    }
    Some(s.substring_char(ps.len(), cs.len()))
}

/// The code of `c` with ASCII upper-case letters mapped to lower case.
pub open spec fn ascii_lower(c: char) -> u32 {
    let u = c as u32;
    if 0x41 <= u <= 0x5a {
        (u + 0x20) as u32
    } else {
        u
    }
}

/// `a` and `b` are equal up to ASCII case.
pub open spec fn eq_ascii_case_insensitive(a: Seq<char>, b: Seq<char>) -> bool {
    a.len() == b.len() && forall|i: int| 0 <= i < a.len() ==> ascii_lower(#[trigger] a[i]) == ascii_lower(b[i])
}

fn lower_code(c: char) -> (u: u32)
    ensures
        u == ascii_lower(c),
{
    let u = c as u32;
    if 0x41 <= u && u <= 0x5a {
        u + 0x20
    } else {
        u
    }
}

/// Whether `a` and `b` are equal up to ASCII case (as `str::eq_ignore_ascii_case`).
pub fn eq_ignore_ascii_case(a: &str, b: &str) -> (r: bool)
    ensures
        r == eq_ascii_case_insensitive(a@, b@),
{
    let xs = chars_of(a);
    let ys = chars_of(b);
    if xs.len() != ys.len() {
        return false;
    }
    let mut i: usize = 0;
    while i < xs.len()
        invariant
            xs.len() == ys.len(),
            xs@ == a@,
            ys@ == b@,
            i <= xs.len(),
            forall|k: int| 0 <= k < i ==> ascii_lower(#[trigger] xs@[k]) == ascii_lower(ys@[k]),
        decreases xs.len() - i,
    {
        if lower_code(xs[i]) != lower_code(ys[i]) {
            return false;
        }
        i = i + 1;
    }
    true
}

/// The views of a sequence of strings.
pub open spec fn views(parts: Seq<String>) -> Seq<Seq<char>> {
    parts.map_values(|p: String| p@)
}

/// The views of key-value pairs of strings.
pub open spec fn pair_views(pairs: Seq<(String, String)>) -> Seq<(Seq<char>, Seq<char>)> {
    pairs.map_values(|p: (String, String)| (p.0@, p.1@))
}

/// `parts` joined with `sep` between consecutive parts (as `[String]::join`).
pub open spec fn join(parts: Seq<Seq<char>>, sep: Seq<char>) -> Seq<char>
    decreases parts.len(),
{
    if parts.len() == 0 {
        Seq::empty()
    } else if parts.len() == 1 {
        parts[0]
    } else {
        join(parts.drop_last(), sep) + sep + parts.last()
    }
}

/// `parts` joined with `sep` between consecutive parts.
pub fn join_strings(parts: &[String], sep: &str) -> (r: String)
    ensures
        r@ == join(views(parts@), sep@),
{
    let mut r = String::new();
    let ghost all = views(parts@);
    let mut i: usize = 0;
    while i < parts.len()
        invariant
            i <= parts@.len(),
            all == views(parts@),
            r@ == join(all.take(i as int), sep@),
        decreases parts.len() - i,
    {
        proof {
            assert(all.take(i + 1).drop_last() =~= all.take(i as int));
        }
        if i > 0 {
            r.append(sep);
        }
        r.append(parts[i].as_str());
        proof {
            if i == 0 {
                assert(all.take(1) =~= seq![all[0]]);
            }
        }
        i = i + 1;
    }
    proof {
        assert(all.take(parts@.len() as int) =~= all);
    }
    r
}

} // verus!
