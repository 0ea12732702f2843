//! In-memory inverted index for full-text annotation search.
//!
//! Tokens are the lowercased maximal alphanumeric runs of a text. A search
//! matches the annotations that hold every query token; the index keeps, for
//! each token, the positions of the annotations holding it, one entry per
//! occurrence.
use vstd::prelude::*;
use vstd::utf8::*;

use crate::text::{
    find_bytes_from, occurs_at, starts_with, starts_with_chars, char_is_alphanumeric, is_alphanumeric, lowercase, run_scan, runs, str_chars, string_from_chars,
    string_views, to_lowercase,
};

verus! {

/// Alphanumeric characters, the ones tokens are made of.
pub open spec fn alphanumeric() -> spec_fn(char) -> bool {
    |c: char| char_is_alphanumeric(c)
}

/// Each word lowercased.
pub open spec fn lowercase_all(ws: Seq<Seq<char>>) -> Seq<Seq<char>> {
    ws.map_values(|w: Seq<char>| lowercase(w))
}

/// The tokens of a text: its maximal alphanumeric runs, lowercased, in order.
pub open spec fn tokens(text: Seq<char>) -> Seq<Seq<char>> {
    lowercase_all(runs(text, alphanumeric()))
}

/// Tokenize text into lowercase words.
pub fn tokenize(text: &str) -> (r: Vec<String>)
    ensures
        string_views(r@) == tokens(text@),
{
    let cs = str_chars(text);
    let mut out: Vec<String> = Vec::new();
    let mut cur: Vec<char> = Vec::new();
    let mut i: usize = 0;
    while i < cs.len()
        invariant
            cs@ == text@,
            i <= cs@.len(),
            string_views(out@) == lowercase_all(run_scan(cs@.take(i as int), alphanumeric()).0),
            cur@ == run_scan(cs@.take(i as int), alphanumeric()).1,
        decreases cs@.len() - i,
    {
        let c = cs[i];
        assert(cs@.take(i + 1).drop_last() == cs@.take(i as int));
        assert(cs@.take(i + 1).last() == c);
        if is_alphanumeric(c) {
            cur.push(c);
        } else if cur.len() > 0 {
            let w = string_from_chars(&cur);
            let lw = to_lowercase(w.as_str());
            out.push(lw);
            cur = Vec::new();
            assert(lowercase_all(run_scan(cs@.take(i + 1), alphanumeric()).0) == lowercase_all(
                run_scan(cs@.take(i as int), alphanumeric()).0,
            ).push(lw@));
        }
        i = i + 1;
    }
    assert(cs@.take(cs@.len() as int) == cs@);
    if cur.len() > 0 {
        let w = string_from_chars(&cur);
        let lw = to_lowercase(w.as_str());
        out.push(lw);
        assert(lowercase_all(run_scan(cs@, alphanumeric()).0.push(cur@)) == lowercase_all(
            run_scan(cs@, alphanumeric()).0,
        ).push(lw@));
    }
    out
}

/// A single annotation stored in the index.
#[derive(Debug, Clone)]
pub struct IndexedAnnotation {
    pub id: String,
    pub text: String,
    pub motivation: String,
    pub target: String,
    pub manifest_id: String,
}

impl IndexedAnnotation {
    /// A field-by-field copy.
    pub fn duplicate(&self) -> (r: Self)
        ensures
            r == *self,
    {
        IndexedAnnotation {
            id: self.id.clone(),
            text: self.text.clone(),
            motivation: self.motivation.clone(),
            target: self.target.clone(),
            manifest_id: self.manifest_id.clone(),
        }
    }
}

/// The position `i`, once for every occurrence of `t` among `toks`.
pub open spec fn token_hits(toks: Seq<Seq<char>>, t: Seq<char>, i: usize) -> Seq<usize>
    decreases toks.len(),
{
    if toks.len() == 0 {
        Seq::empty()
    } else if toks.last() == t {
        token_hits(toks.drop_last(), t, i).push(i)
    } else {
        token_hits(toks.drop_last(), t, i)
    }
}

/// The postings of token `t`: the positions of the annotations holding it,
/// in insertion order, each repeated once per occurrence of `t` in its text.
pub open spec fn postings_of(annos: Seq<IndexedAnnotation>, t: Seq<char>) -> Seq<usize>
    decreases annos.len(),
{
    if annos.len() == 0 {
        Seq::empty()
    } else {
        postings_of(annos.drop_last(), t) + token_hits(
            tokens(annos.last().text@),
            t,
            (annos.len() - 1) as usize,
        )
    }
}

/// Whether `t` is a token of some indexed annotation.
pub open spec fn is_indexed(annos: Seq<IndexedAnnotation>, t: Seq<char>) -> bool {
    postings_of(annos, t).len() > 0
}

/// In-memory inverted index for full-text annotation search.
pub struct SearchIndex {
    /// The distinct tokens seen so far.
    terms: Vec<String>,
    /// For each token, the positions of the annotations holding it.
    postings: Vec<Vec<usize>>,
    /// All indexed annotations, in insertion order.
    annotations: Vec<IndexedAnnotation>,
}

impl View for SearchIndex {
    type V = Seq<IndexedAnnotation>;

    closed spec fn view(&self) -> Seq<IndexedAnnotation> {
        self.annotations@
    }
}

/// The postings an index owes token `t` once the tokens `done` of the
/// annotation at position `idx` are added to `annos`.
pub open spec fn expected_postings(
    annos: Seq<IndexedAnnotation>,
    done: Seq<Seq<char>>,
    idx: usize,
    t: Seq<char>,
) -> Seq<usize> {
    postings_of(annos, t) + token_hits(done, t, idx)
}

/// A table of distinct terms with their postings agrees with
/// `expected_postings(annos, done, idx, _)` on every token.
pub open spec fn table_matches(
    terms: Seq<String>,
    postings: Seq<Vec<usize>>,
    annos: Seq<IndexedAnnotation>,
    done: Seq<Seq<char>>,
    idx: usize,
) -> bool {
    &&& terms.len() == postings.len()
    &&& forall|k: int|
        0 <= k < terms.len() ==> #[trigger] postings[k]@ == expected_postings(
            annos,
            done,
            idx,
            terms[k]@,
        )
    &&& forall|k: int| 0 <= k < terms.len() ==> #[trigger] postings[k]@.len() > 0
    &&& forall|j: int, k: int|
        0 <= j < k < terms.len() ==> #[trigger] terms[j]@ != #[trigger] terms[k]@
    &&& forall|t: Seq<char>|
        #[trigger] expected_postings(annos, done, idx, t).len() > 0 ==> exists|k: int|
            0 <= k < terms.len() && #[trigger] terms[k]@ == t
}

/// A table that matches one expectation matches any other that owes every
/// token the same postings.
proof fn lemma_table_transfer(
    terms: Seq<String>,
    postings: Seq<Vec<usize>>,
    a1: Seq<IndexedAnnotation>,
    d1: Seq<Seq<char>>,
    i1: usize,
    a2: Seq<IndexedAnnotation>,
    d2: Seq<Seq<char>>,
    i2: usize,
)
    requires
        table_matches(terms, postings, a1, d1, i1),
        forall|t: Seq<char>| expected_postings(a1, d1, i1, t) == expected_postings(a2, d2, i2, t),
    ensures
        table_matches(terms, postings, a2, d2, i2),
{
    assert forall|k: int| 0 <= k < terms.len() implies #[trigger] postings[k]@ == expected_postings(
        a2,
        d2,
        i2,
        terms[k]@,
    ) by {
        assert(expected_postings(a1, d1, i1, terms[k]@) == expected_postings(a2, d2, i2, terms[k]@));
    }
    assert forall|t: Seq<char>| #[trigger]
        expected_postings(a2, d2, i2, t).len() > 0 implies exists|k: int|
        0 <= k < terms.len() && #[trigger] terms[k]@ == t by {
        assert(expected_postings(a1, d1, i1, t) == expected_postings(a2, d2, i2, t));
    }
}

/// The positions of `s`, each kept where it first occurs.
fn first_occurrences_exec(s: &Vec<usize>) -> (r: Vec<usize>)
    ensures
        r@ == first_occurrences(s@),
{
    let mut out: Vec<usize> = Vec::new();
    let mut i: usize = 0;
    while i < s.len()
        invariant
            i <= s@.len(),
            out@ == first_occurrences(s@.take(i as int)),
        decreases s@.len() - i,
    {
        let ghost pre = s@.take(i as int);
        assert(s@.take(i + 1).drop_last() == pre);
        assert(s@.take(i + 1).last() == s@[i as int]);
        proof {
            lemma_first_occurrences(pre);
        }
        let x = s[i];
        if !contains_index(&out, x) {
            out.push(x);
        }
        i = i + 1;
    }
    assert(s@.take(s@.len() as int) == s@);
    out
}

/// The positions of `cur`, in order, that also occur in `other`.
pub open spec fn keep_common(cur: Seq<usize>, other: Seq<usize>) -> Seq<usize>
    decreases cur.len(),
{
    if cur.len() == 0 {
        Seq::empty()
    } else if other.contains(cur.last()) {
        keep_common(cur.drop_last(), other).push(cur.last())
    } else {
        keep_common(cur.drop_last(), other)
    }
}

/// The candidate positions for the query tokens `terms`: the postings of the
/// first token, kept where every later token's postings hold them too.
pub open spec fn query_candidates(annos: Seq<IndexedAnnotation>, terms: Seq<Seq<char>>) -> Seq<usize>
    decreases terms.len(),
{
    if terms.len() == 0 {
        Seq::empty()
    } else if terms.len() == 1 {
        postings_of(annos, terms[0])
    } else {
        keep_common(query_candidates(annos, terms.drop_last()), postings_of(annos, terms.last()))
    }
}

/// The positions of `s` in order, each kept only where it first occurs.
pub open spec fn first_occurrences(s: Seq<usize>) -> Seq<usize>
    decreases s.len(),
{
    if s.len() == 0 {
        Seq::empty()
    } else if s.drop_last().contains(s.last()) {
        first_occurrences(s.drop_last())
    } else {
        first_occurrences(s.drop_last()).push(s.last())
    }
}

/// A position is among the first occurrences exactly when it occurs, and
/// none occurs twice among them.
pub proof fn lemma_first_occurrences(s: Seq<usize>)
    ensures
        forall|x: usize| #[trigger] first_occurrences(s).contains(x) <==> s.contains(x),
        first_occurrences(s).no_duplicates(),
    decreases s.len(),
{
    if s.len() > 0 {
        let p = s.drop_last();
        lemma_first_occurrences(p);
        assert forall|x: usize| #[trigger] first_occurrences(s).contains(x) <==> s.contains(x) by {
            if s.contains(x) && x != s.last() {
                let j = choose|j: int| 0 <= j < s.len() && s[j] == x;
                assert(p[j] == x);
            }
            if p.contains(x) {
                let j = choose|j: int| 0 <= j < p.len() && p[j] == x;
                assert(s[j] == x);
            }
            if !p.contains(s.last()) {
                let f = first_occurrences(p).push(s.last());
                assert(f[f.len() - 1] == s.last());
                if first_occurrences(p).contains(x) {
                    let j = choose|j: int| 0 <= j < first_occurrences(p).len() && first_occurrences(p)[j] == x;
                    assert(f[j] == x);
                }
                if f.contains(x) && x != s.last() {
                    let j = choose|j: int| 0 <= j < f.len() && f[j] == x;
                    assert(first_occurrences(p)[j] == x);
                }
            }
            assert(s[s.len() - 1] == s.last());
        }
        if !p.contains(s.last()) {
            let f0 = first_occurrences(p);
            assert(!f0.contains(s.last()));
            let f = f0.push(s.last());
            assert forall|i: int, j: int| 0 <= i < f.len() && 0 <= j < f.len() && i != j implies f[i] != f[j] by {
                if i < f0.len() && j < f0.len() {
                    assert(f[i] == f0[i] && f[j] == f0[j]);
                } else if i < f0.len() {
                    assert(f[i] == f0[i]);
                } else if j < f0.len() {
                    assert(f[j] == f0[j]);
                }
            }
        }
    }
}

/// Whether a motivation passes the filter: no filter, an empty list, or a
/// list that names it.
pub open spec fn motivation_allowed(motivations: Option<Seq<Seq<char>>>, m: Seq<char>) -> bool {
    match motivations {
        None => true,
        Some(ms) => ms.len() == 0 || ms.contains(m),
    }
}

/// The views of an optional list of motivations.
pub open spec fn motivation_views(motivations: Option<&[String]>) -> Option<Seq<Seq<char>>> {
    match motivations {
        Some(ms) => Some(string_views(ms@)),
        None => None,
    }
}

/// The annotations at positions `idxs`, in order, that pass the motivation
/// filter.
pub open spec fn select_annotations(
    annos: Seq<IndexedAnnotation>,
    idxs: Seq<usize>,
    motivations: Option<Seq<Seq<char>>>,
) -> Seq<IndexedAnnotation>
    decreases idxs.len(),
{
    if idxs.len() == 0 {
        Seq::empty()
    } else {
        let rest = select_annotations(annos, idxs.drop_last(), motivations);
        let i = idxs.last();
        if i < annos.len() && motivation_allowed(motivations, annos[i as int].motivation@) {
            rest.push(annos[i as int])
        } else {
            rest
        }
    }
}

/// Every match of a query: none for a query without tokens, else the
/// candidates' annotations that pass the motivation filter, each once.
pub open spec fn search_matches(
    annos: Seq<IndexedAnnotation>,
    query: Seq<char>,
    motivations: Option<Seq<Seq<char>>>,
) -> Seq<IndexedAnnotation> {
    let ts = tokens(query);
    if ts.len() == 0 {
        Seq::empty()
    } else {
        select_annotations(annos, first_occurrences(query_candidates(annos, ts)), motivations)
    }
}

/// The length of the window `offset .. offset + limit` of a sequence of
/// length `len`.
pub open spec fn window_len(len: nat, offset: nat, limit: nat) -> nat {
    if offset >= len {
        0
    } else if len - offset <= limit {
        (len - offset) as nat
    } else {
        limit
    }
}

/// At most `limit` items of `s`, starting at `offset`.
pub open spec fn page_of<T>(s: Seq<T>, offset: nat, limit: nat) -> Seq<T> {
    Seq::new(window_len(s.len(), offset, limit), |i: int| s[offset + i])
}

proof fn lemma_page_push<T>(s: Seq<T>, x: T, offset: nat, limit: nat)
    ensures
        page_of(s.push(x), offset, limit) == (if offset <= s.len() && s.len() - offset < limit {
            page_of(s, offset, limit).push(x)
        } else {
            page_of(s, offset, limit)
        }),
{
    if offset <= s.len() && s.len() - offset < limit {
        assert(page_of(s.push(x), offset, limit) =~= page_of(s, offset, limit).push(x));
    } else {
        assert(page_of(s.push(x), offset, limit) =~= page_of(s, offset, limit));
    }
}

/// Lexicographic order on strings, character by character.
pub open spec fn lex_lt(a: Seq<char>, b: Seq<char>) -> bool
    decreases a.len(),
{
    if a.len() == 0 {
        b.len() > 0
    } else if b.len() == 0 {
        false
    } else if a[0] != b[0] {
        (a[0] as int) < (b[0] as int)
    } else {
        lex_lt(a.drop_first(), b.drop_first())
    }
}

/// Lexicographic order is asymmetric.
pub proof fn lemma_lex_asymmetric(a: Seq<char>, b: Seq<char>)
    requires
        lex_lt(a, b),
    ensures
        !lex_lt(b, a),
    decreases a.len(),
{
    if a.len() > 0 && b.len() > 0 && a[0] == b[0] {
        lemma_lex_asymmetric(a.drop_first(), b.drop_first());
    }
}

/// Lexicographic order is transitive.
pub proof fn lemma_lex_transitive(a: Seq<char>, b: Seq<char>, c: Seq<char>)
    requires
        lex_lt(a, b),
        lex_lt(b, c),
    ensures
        lex_lt(a, c),
    decreases a.len(),
{
    if a.len() > 0 && b.len() > 0 && c.len() > 0 && a[0] == b[0] && b[0] == c[0] {
        lemma_lex_transitive(a.drop_first(), b.drop_first(), c.drop_first());
    }
}

/// Lexicographic order is total on distinct strings.
pub proof fn lemma_lex_total(a: Seq<char>, b: Seq<char>)
    requires
        a != b,
    ensures
        lex_lt(a, b) || lex_lt(b, a),
    decreases a.len(),
{
    if a.len() == 0 {
        assert(b.len() > 0) by {
            if b.len() == 0 {
                assert(a =~= b);
            }
        }
    } else if b.len() > 0 && a[0] != b[0] {
        assert((a[0] as int) != (b[0] as int));
    } else if b.len() > 0 && a[0] == b[0] {
        assert(a.drop_first() != b.drop_first()) by {
            if a.drop_first() == b.drop_first() {
                assert(a =~= b.drop_first().insert(0, b[0]));
                assert(b =~= b.drop_first().insert(0, b[0]));
            }
        }
        lemma_lex_total(a.drop_first(), b.drop_first());
    }
}

proof fn lemma_lex_skip(a: Seq<char>, b: Seq<char>, i: int)
    requires
        0 <= i <= a.len(),
        i <= b.len(),
        forall|j: int| 0 <= j < i ==> a[j] == b[j],
    ensures
        lex_lt(a, b) == lex_lt(a.skip(i), b.skip(i)),
    decreases i,
{
    if i == 0 {
        assert(a.skip(0) =~= a);
        assert(b.skip(0) =~= b);
    } else {
        lemma_lex_skip(a.drop_first(), b.drop_first(), i - 1);
        assert(a.drop_first().skip(i - 1) =~= a.skip(i));
        assert(b.drop_first().skip(i - 1) =~= b.skip(i));
    }
}

/// Whether `a` comes before `b` in lexicographic order.
pub fn lex_less(a: &[char], b: &[char]) -> (r: bool)
    ensures
        r == lex_lt(a@, b@),
{
    let mut i: usize = 0;
    while i < a.len() && i < b.len()
        invariant
            i <= a@.len(),
            i <= b@.len(),
            forall|j: int| 0 <= j < i ==> a@[j] == b@[j],
        decreases a@.len() - i,
    {
        if a[i] != b[i] {
            proof {
                lemma_lex_skip(a@, b@, i as int);
                assert(a@.skip(i as int)[0] == a@[i as int]);
                assert(b@.skip(i as int)[0] == b@[i as int]);
            }
            return a[i] < b[i];
        }
        i = i + 1;
    }
    proof {
        lemma_lex_skip(a@, b@, i as int);
    }
    i == a.len() && i < b.len()
}

/// One autocomplete entry as a term and its number of occurrences.
pub open spec fn entry_view(e: (String, usize)) -> (Seq<char>, nat) {
    (e.0@, e.1 as nat)
}

/// Autocomplete order: more occurrences first, ties broken by term.
pub open spec fn ranks_before(x: (Seq<char>, nat), y: (Seq<char>, nat)) -> bool {
    x.1 > y.1 || (x.1 == y.1 && lex_lt(x.0, y.0))
}

proof fn lemma_ranks_transitive(x: (Seq<char>, nat), y: (Seq<char>, nat), z: (Seq<char>, nat))
    requires
        ranks_before(x, y),
        ranks_before(y, z),
    ensures
        ranks_before(x, z),
{
    if x.1 == y.1 && y.1 == z.1 {
        lemma_lex_transitive(x.0, y.0, z.0);
    }
}

proof fn lemma_ranks_total(x: (Seq<char>, nat), y: (Seq<char>, nat))
    requires
        x.0 != y.0,
    ensures
        ranks_before(x, y) || ranks_before(y, x),
{
    lemma_lex_total(x.0, y.0);
}

/// Whether one autocomplete entry ranks before another.
fn ranks_before_exec(x: &(String, usize), y: &(String, usize)) -> (r: bool)
    ensures
        r == ranks_before(entry_view(*x), entry_view(*y)),
{
    if x.1 != y.1 {
        x.1 > y.1
    } else {
        let a = str_chars(x.0.as_str());
        let b = str_chars(y.0.as_str());
        lex_less(a.as_slice(), b.as_slice())
    }
}

/// Whether `t` completes the lowercased prefix `lp`: an indexed token that
/// starts with it.
pub open spec fn completes(annos: Seq<IndexedAnnotation>, lp: Seq<char>, t: Seq<char>) -> bool {
    is_indexed(annos, t) && starts_with(t, lp)
}

/// The ranked entries are sorted, each a completion with its occurrence
/// count.
pub open spec fn ranked_completions(
    annos: Seq<IndexedAnnotation>,
    lp: Seq<char>,
    r: Seq<(String, usize)>,
) -> bool {
    &&& all_complete(annos, lp, r)
    &&& is_ranked(r)
}

/// Each entry ranks before every later one.
pub open spec fn is_ranked(r: Seq<(String, usize)>) -> bool {
    forall|i: int, j: int|
        0 <= i < j < r.len() ==> ranks_before(entry_view(#[trigger] r[i]), entry_view(#[trigger] r[j]))
}

/// Inserts an entry whose term no entry holds at its place in the ranking;
/// returns where it went.
fn insert_ranked(sorted: &mut Vec<(String, usize)>, e: (String, usize)) -> (p: usize)
    requires
        is_ranked(old(sorted)@),
        forall|i: int| 0 <= i < old(sorted)@.len() ==> (#[trigger] old(sorted)@[i]).0@ != e.0@,
    ensures
        p <= old(sorted)@.len(),
        final(sorted)@ == old(sorted)@.insert(p as int, e),
        is_ranked(final(sorted)@),
{
    let mut p: usize = 0;
    while p < sorted.len() && !ranks_before_exec(&e, &sorted[p])
        invariant
            p <= sorted@.len(),
            forall|i: int| 0 <= i < p ==> !ranks_before(entry_view(e), entry_view(#[trigger] sorted@[i])),
        decreases sorted@.len() - p,
    {
        p = p + 1;
    }
    let ghost old_sorted = sorted@;
    proof {
        assert forall|i: int| 0 <= i < p implies ranks_before(
            entry_view(#[trigger] old_sorted[i]),
            entry_view(e),
        ) by {
            lemma_ranks_total(entry_view(e), entry_view(old_sorted[i]));
        }
        assert forall|i: int| p <= i < old_sorted.len() implies ranks_before(
            entry_view(e),
            entry_view(#[trigger] old_sorted[i]),
        ) by {
            if i > p {
                lemma_ranks_transitive(
                    entry_view(e),
                    entry_view(old_sorted[p as int]),
                    entry_view(old_sorted[i]),
                );
            }
        }
    }
    sorted.insert(p, e);
    assert forall|i: int, j: int|
        0 <= i < j < sorted@.len() implies ranks_before(
        entry_view(#[trigger] sorted@[i]),
        entry_view(#[trigger] sorted@[j]),
    ) by {
        if j < p {
        } else if j == p {
        } else if i < p {
            assert(sorted@[j] == old_sorted[j - 1]);
            lemma_ranks_transitive(
                entry_view(old_sorted[i]),
                entry_view(e),
                entry_view(old_sorted[j - 1]),
            );
        } else if i == p {
        } else {
            assert(sorted@[i] == old_sorted[i - 1]);
            assert(sorted@[j] == old_sorted[j - 1]);
        }
    }
    p
}

/// Whether `x` occurs in `v`.
fn contains_index(v: &Vec<usize>, x: usize) -> (r: bool)
    ensures
        r == v@.contains(x),
{
    let mut i: usize = 0;
    while i < v.len()
        invariant
            i <= v@.len(),
            forall|j: int| 0 <= j < i ==> v@[j] != x,
        decreases v@.len() - i,
    {
        if v[i] == x {
            assert(v@[i as int] == x);
            return true;
        }
        i = i + 1;
    }
    false
}

/// The positions of `cur`, in order, that also occur in `other`.
fn keep_common_exec(cur: &Vec<usize>, other: &Vec<usize>) -> (r: Vec<usize>)
    ensures
        r@ == keep_common(cur@, other@),
{
    let mut out: Vec<usize> = Vec::new();
    let mut i: usize = 0;
    while i < cur.len()
        invariant
            i <= cur@.len(),
            out@ == keep_common(cur@.take(i as int), other@),
        decreases cur@.len() - i,
    {
        assert(cur@.take(i + 1).drop_last() == cur@.take(i as int));
        assert(cur@.take(i + 1).last() == cur@[i as int]);
        if contains_index(other, cur[i]) {
            out.push(cur[i]);
        }
        i = i + 1;
    }
    assert(cur@.take(cur@.len() as int) == cur@);
    out
}

/// Whether a motivation passes the filter.
fn motivation_ok(motivations: Option<&[String]>, m: &String) -> (r: bool)
    ensures
        r == motivation_allowed(motivation_views(motivations), m@),
{
    match motivations {
        None => true,
        Some(ms) => {
            assert(motivation_views(motivations) == Some(string_views(ms@)));
            if ms.len() == 0 {
                return true;
            }
            let mut j: usize = 0;
            while j < ms.len()
                invariant
                    motivation_views(motivations) == Some(string_views(ms@)),
                    ms@.len() > 0,
                    j <= ms@.len(),
                    forall|k: int| 0 <= k < j ==> ms@[k]@ != m@,
                decreases ms@.len() - j,
            {
                if ms[j] == *m {
                    assert(ms@[j as int]@ == m@);
                    assert(string_views(ms@)[j as int] == m@);
                    assert(string_views(ms@).contains(m@));
                    return true;
                }
                j = j + 1;
            }
            assert(!string_views(ms@).contains(m@)) by {
                if string_views(ms@).contains(m@) {
                    let k = choose|k: int| 0 <= k < string_views(ms@).len() && string_views(ms@)[k] == m@;
                    assert(ms@[k]@ == m@);
                }
            }
            false
        },
    }
}

/// Every entry's term is one of the first `k` terms of the table.
pub open spec fn drawn_from(terms: Seq<String>, r: Seq<(String, usize)>, k: int) -> bool {
    forall|i: int|
        #![trigger r[i]]
        0 <= i < r.len() ==> exists|m: int| 0 <= m < k && #[trigger] terms[m]@ == r[i].0@
}

/// Every one of the first `k` terms that starts with `lp` has an entry.
pub open spec fn covers(terms: Seq<String>, lp: Seq<char>, r: Seq<(String, usize)>, k: int) -> bool {
    forall|m: int|
        0 <= m < k && starts_with(#[trigger] terms[m]@, lp) ==> exists|i: int|
            0 <= i < r.len() && r[i].0@ == terms[m]@
}

/// Every entry is a completion with its occurrence count.
pub open spec fn all_complete(annos: Seq<IndexedAnnotation>, lp: Seq<char>, r: Seq<(String, usize)>) -> bool {
    forall|i: int|
        0 <= i < r.len() ==> completes(annos, lp, #[trigger] r[i].0@) && r[i].1 == postings_of(
            annos,
            r[i].0@,
        ).len()
}

proof fn lemma_insert_complete(
    lp: Seq<char>,
    annos: Seq<IndexedAnnotation>,
    old_sorted: Seq<(String, usize)>,
    p: int,
    e: (String, usize),
)
    requires
        0 <= p <= old_sorted.len(),
        completes(annos, lp, e.0@),
        e.1 == postings_of(annos, e.0@).len(),
        all_complete(annos, lp, old_sorted),
    ensures
        all_complete(annos, lp, old_sorted.insert(p, e)),
{
    let sorted = old_sorted.insert(p, e);
    assert forall|i: int| 0 <= i < sorted.len() implies completes(
        annos,
        lp,
        #[trigger] sorted[i].0@,
    ) && sorted[i].1 == postings_of(annos, sorted[i].0@).len() by {
        if i < p {
            assert(sorted[i] == old_sorted[i]);
        } else if i > p {
            assert(sorted[i] == old_sorted[i - 1]);
        }
    }
}

proof fn lemma_insert_drawn(
    terms: Seq<String>,
    k: int,
    old_sorted: Seq<(String, usize)>,
    p: int,
    e: (String, usize),
)
    requires
        0 <= k < terms.len(),
        0 <= p <= old_sorted.len(),
        e.0@ == terms[k]@,
        drawn_from(terms, old_sorted, k),
    ensures
        drawn_from(terms, old_sorted.insert(p, e), k + 1),
{
    let sorted = old_sorted.insert(p, e);
    assert forall|i: int| #![trigger sorted[i]] 0 <= i < sorted.len() implies exists|m: int|
        0 <= m < k + 1 && #[trigger] terms[m]@ == sorted[i].0@ by {
        if i < p {
            assert(sorted[i] == old_sorted[i]);
            let m = choose|m: int| 0 <= m < k && terms[m]@ == old_sorted[i].0@;
            assert(terms[m]@ == sorted[i].0@);
        } else if i > p {
            assert(sorted[i] == old_sorted[i - 1]);
            let m = choose|m: int| 0 <= m < k && terms[m]@ == old_sorted[i - 1].0@;
            assert(terms[m]@ == sorted[i].0@);
        } else {
            assert(terms[k]@ == sorted[i].0@);
        }
    }
}

proof fn lemma_insert_covers(
    terms: Seq<String>,
    lp: Seq<char>,
    k: int,
    old_sorted: Seq<(String, usize)>,
    p: int,
    e: (String, usize),
)
    requires
        0 <= k < terms.len(),
        0 <= p <= old_sorted.len(),
        e.0@ == terms[k]@,
        covers(terms, lp, old_sorted, k),
    ensures
        covers(terms, lp, old_sorted.insert(p, e), k + 1),
{
    let sorted = old_sorted.insert(p, e);
    assert forall|m: int|
        0 <= m < k + 1 && starts_with(#[trigger] terms[m]@, lp) implies exists|i: int|
        0 <= i < sorted.len() && sorted[i].0@ == terms[m]@ by {
        if m < k {
            let i = choose|i: int| 0 <= i < old_sorted.len() && old_sorted[i].0@ == terms[m]@;
            if i < p {
                assert(sorted[i] == old_sorted[i]);
            } else {
                assert(sorted[i + 1] == old_sorted[i]);
            }
        } else {
            assert(sorted[p].0@ == terms[m]@);
        }
    }
}

proof fn lemma_skip_keeps(terms: Seq<String>, lp: Seq<char>, r: Seq<(String, usize)>, k: int)
    requires
        0 <= k < terms.len(),
        !starts_with(terms[k]@, lp),
        drawn_from(terms, r, k),
        covers(terms, lp, r, k),
    ensures
        drawn_from(terms, r, k + 1),
        covers(terms, lp, r, k + 1),
{
    assert forall|i: int| #![trigger r[i]] 0 <= i < r.len() implies exists|m: int|
        0 <= m < k + 1 && #[trigger] terms[m]@ == r[i].0@ by {
        let m = choose|m: int| 0 <= m < k && terms[m]@ == r[i].0@;
        assert(terms[m]@ == r[i].0@);
    }
}

/// What an autocomplete answers: the completions of the lowercased prefix
/// with their occurrence counts, ranked, cut to `limit`; a completion is left
/// out only when `limit` entries all rank before it.
pub open spec fn is_autocomplete(
    annos: Seq<IndexedAnnotation>,
    prefix: Seq<char>,
    limit: nat,
    r: Seq<(String, usize)>,
) -> bool {
    &&& ranked_completions(annos, lowercase(prefix), r)
    &&& r.len() <= limit
    &&& forall|t: Seq<char>|
        completes(annos, lowercase(prefix), t) && !(exists|i: int|
            0 <= i < r.len() && #[trigger] r[i].0@ == t) ==> r.len() == limit && forall|i: int|
            0 <= i < r.len() ==> ranks_before(
                entry_view(#[trigger] r[i]),
                (t, postings_of(annos, t).len()),
            )
}

impl SearchIndex {
    /// The index is consistent with the annotations it holds.
    pub closed spec fn wf(&self) -> bool {
        table_matches(self.terms@, self.postings@, self.annotations@, Seq::empty(), 0)
    }

    pub fn new() -> (r: Self)
        ensures
            r.wf(),
            r@ == Seq::<IndexedAnnotation>::empty(),
    {
        SearchIndex { terms: Vec::new(), postings: Vec::new(), annotations: Vec::new() }
    }

    /// The slot holding `t`, if any.
    fn find_term(&self, t: &String) -> (r: Option<usize>)
        ensures
            r matches Some(k) ==> k < self.terms@.len() && self.terms@[k as int]@ == t@,
            r is None ==> forall|k: int| 0 <= k < self.terms@.len() ==> self.terms@[k]@ != t@,
    {
        let mut k: usize = 0;
        while k < self.terms.len()
            invariant
                k <= self.terms@.len(),
                forall|j: int| 0 <= j < k ==> self.terms@[j]@ != t@,
            decreases self.terms@.len() - k,
        {
            if self.terms[k] == *t {
                return Some(k);
            }
            k = k + 1;
        }
        None
    }

    /// Add an annotation to the index.
    pub fn add(&mut self, annotation: IndexedAnnotation)
        requires
            old(self).wf(),
        ensures
            final(self).wf(),
            final(self)@ == old(self)@.push(annotation),
    {
        let toks = tokenize(annotation.text.as_str());
        let ghost old_annos = self.annotations@;
        let idx = self.annotations.len();
        self.annotations.push(annotation);
        let ghost new_annos = self.annotations@;
        let ghost tv = string_views(toks@);
        assert(new_annos.drop_last() == old_annos);
        proof {
            assert forall|t: Seq<char>|
                expected_postings(old_annos, Seq::empty(), 0, t) == expected_postings(
                    old_annos,
                    tv.take(0),
                    idx,
                    t,
                ) by {
                assert(tv.take(0).len() == 0);
            }
            lemma_table_transfer(
                self.terms@,
                self.postings@,
                old_annos,
                Seq::empty(),
                0,
                old_annos,
                tv.take(0),
                idx,
            );
        }
        let mut k: usize = 0;
        while k < toks.len()
            invariant
                self.annotations@ == new_annos,
                new_annos == old_annos.push(annotation),
                idx == old_annos.len(),
                tv == string_views(toks@),
                tv == tokens(annotation.text@),
                k <= toks@.len(),
                table_matches(self.terms@, self.postings@, old_annos, tv.take(k as int), idx),
            decreases toks@.len() - k,
        {
            let ghost before = tv.take(k as int);
            let ghost after = tv.take(k + 1);
            let ghost w = tv[k as int];
            assert(after.drop_last() == before);
            assert(after.last() == w);
            assert(toks@[k as int]@ == w);
            assert forall|t: Seq<char>| t != w implies #[trigger] expected_postings(
                old_annos,
                after,
                idx,
                t,
            ) == expected_postings(old_annos, before, idx, t) by {}
            assert(expected_postings(old_annos, after, idx, w) == expected_postings(
                old_annos,
                before,
                idx,
                w,
            ).push(idx));
            match self.find_term(&toks[k]) {
                Some(j) => {
                    let mut p = self.postings[j].clone();
                    assert(p@ == self.postings@[j as int]@);
                    p.push(idx);
                    self.postings.set(j, p);
                    assert forall|m: int| 0 <= m < self.terms@.len() implies #[trigger] self.postings@[m]@
                        == expected_postings(old_annos, after, idx, self.terms@[m]@) by {
                        if m != j {
                            assert(self.terms@[m]@ != w);
                        }
                    }
                    assert forall|t: Seq<char>| #[trigger]
                        expected_postings(old_annos, after, idx, t).len() > 0 implies exists|m: int|
                        0 <= m < self.terms@.len() && #[trigger] self.terms@[m]@ == t by {
                        if t != w {
                            assert(expected_postings(old_annos, before, idx, t).len() > 0);
                            let m = choose|m: int| 0 <= m < self.terms@.len() && self.terms@[m]@ == t;
                            assert(self.terms@[m]@ == t);
                        } else {
                            assert(self.terms@[j as int]@ == t);
                        }
                    }
                },
                None => {
                    assert(expected_postings(old_annos, before, idx, w).len() == 0) by {
                        if expected_postings(old_annos, before, idx, w).len() > 0 {
                            let m = choose|m: int| 0 <= m < self.terms@.len() && self.terms@[m]@ == w;
                            assert(self.terms@[m]@ == w);
                        }
                    }
                    let t = toks[k].clone();
                    let mut p: Vec<usize> = Vec::new();
                    p.push(idx);
                    assert(p@ == expected_postings(old_annos, after, idx, w));
                    let ghost old_terms = self.terms@;
                    self.terms.push(t);
                    self.postings.push(p);
                    assert forall|m: int| 0 <= m < self.terms@.len() implies #[trigger] self.postings@[m]@
                        == expected_postings(old_annos, after, idx, self.terms@[m]@) by {
                        if m < old_terms.len() {
                            assert(old_terms[m]@ != w);
                        }
                    }
                    assert forall|t: Seq<char>| #[trigger]
                        expected_postings(old_annos, after, idx, t).len() > 0 implies exists|m: int|
                        0 <= m < self.terms@.len() && #[trigger] self.terms@[m]@ == t by {
                        if t != w {
                            assert(expected_postings(old_annos, before, idx, t).len() > 0);
                            let m = choose|m: int| 0 <= m < old_terms.len() && old_terms[m]@ == t;
                            assert(self.terms@[m]@ == t);
                        } else {
                            assert(self.terms@[old_terms.len() as int]@ == t);
                        }
                    }
                },
            }
            k = k + 1;
        }
        assert(tv.take(toks@.len() as int) == tv);
        proof {
            assert forall|t: Seq<char>|
                expected_postings(old_annos, tv, idx, t) == expected_postings(
                    new_annos,
                    Seq::empty(),
                    0,
                    t,
                ) by {
                assert(token_hits(Seq::empty(), t, 0).len() == 0);
            }
            lemma_table_transfer(
                self.terms@,
                self.postings@,
                old_annos,
                tv,
                idx,
                new_annos,
                Seq::empty(),
                0,
            );
        }
    }

    /// The postings of `t`.
    fn lookup(&self, t: &String) -> (r: Vec<usize>)
        requires
            self.wf(),
        ensures
            r@ == postings_of(self@, t@),
    {
        match self.find_term(t) {
            Some(j) => {
                assert(self.postings@[j as int]@ == expected_postings(self@, Seq::empty(), 0, t@));
                self.postings[j].clone()
            },
            None => {
                assert(expected_postings(self@, Seq::empty(), 0, t@) == postings_of(self@, t@));
                assert(postings_of(self@, t@).len() == 0) by {
                    if postings_of(self@, t@).len() > 0 {
                        assert(expected_postings(self@, Seq::empty(), 0, t@).len() > 0);
                        let k = choose|k: int| 0 <= k < self.terms@.len() && self.terms@[k]@ == t@;
                        assert(self.terms@[k]@ == t@);
                    }
                }
                Vec::new()
            },
        }
    }

    /// Search returning a page of results plus the total match count for
    /// paging. A motivation filter that is absent or empty lets every
    /// annotation through; otherwise an annotation passes when its motivation
    /// is any of the listed ones.
    pub fn search_paginated(
        &self,
        query: &str,
        motivations: Option<&[String]>,
        offset: usize,
        limit: usize,
    ) -> (r: (Vec<IndexedAnnotation>, usize))
        requires
            self.wf(),
        ensures
            r.1 == search_matches(self@, query@, motivation_views(motivations)).len(),
            r.0@ == page_of(
                search_matches(self@, query@, motivation_views(motivations)),
                offset as nat,
                limit as nat,
            ),
    {
        let terms = tokenize(query);
        let ghost tv = string_views(terms@);
        let ghost mv = motivation_views(motivations);
        if terms.len() == 0 {
            return (Vec::new(), 0);
        }
        let mut cand = self.lookup(&terms[0]);
        let mut j: usize = 1;
        assert(tv.take(1).len() == 1 && tv.take(1)[0] == tv[0]);
        while j < terms.len()
            invariant
                self.wf(),
                tv == string_views(terms@),
                1 <= j <= terms@.len(),
                cand@ == query_candidates(self@, tv.take(j as int)),
            decreases terms@.len() - j,
        {
            let other = self.lookup(&terms[j]);
            assert(tv.take(j + 1).drop_last() == tv.take(j as int));
            assert(tv.take(j + 1).last() == tv[j as int]);
            cand = keep_common_exec(&cand, &other);
            j = j + 1;
        }
        assert(tv.take(terms@.len() as int) == tv);
        let cand = first_occurrences_exec(&cand);
        let ghost cs = cand@;
        let mut total: usize = 0;
        let mut page: Vec<IndexedAnnotation> = Vec::new();
        let mut i: usize = 0;
        while i < cand.len()
            invariant
                cand@ == cs,
                mv == motivation_views(motivations),
                i <= cs.len(),
                total == select_annotations(self@, cs.take(i as int), mv).len(),
                total <= i,
                page@ == page_of(select_annotations(self@, cs.take(i as int), mv), offset as nat, limit as nat),
            decreases cs.len() - i,
        {
            let ghost sel = select_annotations(self@, cs.take(i as int), mv);
            assert(cs.take(i + 1).drop_last() == cs.take(i as int));
            assert(cs.take(i + 1).last() == cs[i as int]);
            let p = cand[i];
            if p < self.annotations.len() {
                if motivation_ok(motivations, &self.annotations[p].motivation) {
                    proof {
                        lemma_page_push(sel, self@[p as int], offset as nat, limit as nat);
                    }
                    if total >= offset && total - offset < limit {
                        page.push(self.annotations[p].duplicate());
                    }
                    total = total + 1;
                }
            }
            i = i + 1;
        }
        assert(cs.take(cs.len() as int) == cs);
        (page, total)
    }

    /// Search for annotations matching all query terms, optionally keeping
    /// only those with the given motivation.
    pub fn search(&self, query: &str, motivation: Option<&str>) -> (r: Vec<IndexedAnnotation>)
        requires
            self.wf(),
        ensures
            r@ == search_matches(
                self@,
                query@,
                match motivation {
                    Some(m) => Some(seq![m@]),
                    None => None,
                },
            ),
    {
        let owned: Option<Vec<String>> = match motivation {
            Some(m) => {
                let mut v: Vec<String> = Vec::new();
                v.push(String::from_str(m));
                Some(v)
            },
            None => None,
        };
        let ms: Option<&[String]> = match &owned {
            Some(v) => Some(v.as_slice()),
            None => None,
        };
        assert(motivation_views(ms) == match motivation {
            Some(m) => Some(seq![m@]),
            None => None,
        });
        let (r, total) = self.search_paginated(query, ms, 0, usize::MAX);
        let ghost all = search_matches(self@, query@, motivation_views(ms));
        assert(page_of(all, 0, usize::MAX as nat) =~= all);
        r
    }

    /// Find terms matching a prefix, with occurrence counts: the first
    /// `limit` tokens that start with the lowercased prefix, most frequent
    /// first, ties in lexicographic order.
    pub fn autocomplete(&self, prefix: &str, limit: usize) -> (r: Vec<(String, usize)>)
        requires
            self.wf(),
        ensures
            is_autocomplete(self@, prefix@, limit as nat, r@),
    {
        let lp_string = to_lowercase(prefix);
        let lp = str_chars(lp_string.as_str());
        let ghost annos = self@;
        let mut sorted: Vec<(String, usize)> = Vec::new();
        let mut k: usize = 0;
        while k < self.terms.len()
            invariant
                self.wf(),
                annos == self@,
                lp@ == lowercase(prefix@),
                k <= self.terms@.len(),
                all_complete(annos, lp@, sorted@),
                is_ranked(sorted@),
                drawn_from(self.terms@, sorted@, k as int),
                covers(self.terms@, lp@, sorted@, k as int),
            decreases self.terms@.len() - k,
        {
            let tc = str_chars(self.terms[k].as_str());
            if starts_with_chars(tc.as_slice(), lp.as_slice()) {
                let ghost t = self.terms@[k as int]@;
                assert(self.postings@[k as int]@ == expected_postings(annos, Seq::empty(), 0, t));
                assert(expected_postings(annos, Seq::empty(), 0, t) == postings_of(annos, t));
                let e = (self.terms[k].clone(), self.postings[k].len());
                assert(self.postings@[k as int]@.len() > 0);
                assert(completes(annos, lp@, t));
                assert forall|i: int| 0 <= i < sorted@.len() implies (#[trigger] sorted@[i]).0@ != t by {
                    let m = choose|m: int| 0 <= m < k && self.terms@[m]@ == sorted@[i].0@;
                    assert(self.terms@[m]@ != self.terms@[k as int]@);
                }
                let ghost old_sorted = sorted@;
                let p = insert_ranked(&mut sorted, e);
                proof {
                    lemma_insert_complete(lp@, annos, old_sorted, p as int, e);
                    lemma_insert_drawn(self.terms@, k as int, old_sorted, p as int, e);
                    lemma_insert_covers(self.terms@, lp@, k as int, old_sorted, p as int, e);
                }
            } else {
                proof {
                    lemma_skip_keeps(self.terms@, lp@, sorted@, k as int);
                }
            }
            k = k + 1;
        }
        let ghost full = sorted@;
        sorted.truncate(limit);
        proof {
            assert forall|t: Seq<char>|
                completes(annos, lp@, t) && !(exists|i: int|
                    0 <= i < sorted@.len() && #[trigger] sorted@[i].0@ == t) implies sorted@.len()
                == limit && forall|i: int|
                0 <= i < sorted@.len() ==> ranks_before(
                    entry_view(#[trigger] sorted@[i]),
                    (t, postings_of(annos, t).len()),
                ) by {
                assert(expected_postings(annos, Seq::empty(), 0, t) == postings_of(annos, t));
                let m = choose|m: int| 0 <= m < self.terms@.len() && self.terms@[m]@ == t;
                assert(starts_with(self.terms@[m]@, lp@));
                let j = choose|j: int| 0 <= j < full.len() && full[j].0@ == self.terms@[m]@;
                assert(entry_view(full[j]) == (t, postings_of(annos, t).len()));
                if j < limit {
                    assert(sorted@[j] == full[j]);
                }
                assert forall|i: int| 0 <= i < sorted@.len() implies ranks_before(
                    entry_view(#[trigger] sorted@[i]),
                    (t, postings_of(annos, t).len()),
                ) by {
                    assert(sorted@[i] == full[i]);
                }
            }
        }
        sorted
    }

    /// Number of indexed annotations.
    pub fn len(&self) -> (r: usize)
        ensures
            r == self@.len(),
    {
        self.annotations.len()
    }

    pub fn is_empty(&self) -> (r: bool)
        ensures
            r == (self@.len() == 0),
    {
        self.len() == 0
    }
}


/// The non-overlapping occurrences of `p` in `h`, scanning left to right
/// from `start`, as byte ranges; an occurrence is kept only where both ends
/// fall on character boundaries of `orig`.
pub open spec fn match_positions(h: Seq<u8>, p: Seq<u8>, orig: Seq<u8>, start: int) -> Seq<
    (usize, usize),
>
    decreases h.len() + 1 - start,
{
    if p.len() == 0 || start < 0 || start > h.len() {
        Seq::empty()
    } else if occurs_at(h, p, start) {
        let end = start + p.len();
        let rest = match_positions(h, p, orig, end);
        if is_char_boundary(orig, start) && is_char_boundary(orig, end) {
            seq![(start as usize, end as usize)] + rest
        } else {
            rest
        }
    } else {
        match_positions(h, p, orig, start + 1)
    }
}

/// Every case-insensitive occurrence of `term` in `text`, as byte ranges of
/// the lowercased text that fall on character boundaries of `text`; none
/// when lowercasing the term changes its byte length or leaves it empty.
pub open spec fn term_positions(text: Seq<char>, term: Seq<char>) -> Seq<(usize, usize)> {
    let h = encode_utf8(lowercase(text));
    let p = encode_utf8(lowercase(term));
    if p.len() == 0 || p.len() != encode_utf8(term).len() {
        Seq::empty()
    } else {
        match_positions(h, p, encode_utf8(text), 0)
    }
}

proof fn lemma_skip_non_matches(h: Seq<u8>, p: Seq<u8>, orig: Seq<u8>, a: int, b: int)
    requires
        p.len() > 0,
        0 <= a <= b <= h.len(),
        forall|j: int| a <= j < b ==> !#[trigger] occurs_at(h, p, j),
    ensures
        match_positions(h, p, orig, a) == match_positions(h, p, orig, b),
    decreases b - a,
{
    if a < b {
        assert(!occurs_at(h, p, a));
        lemma_skip_non_matches(h, p, orig, a + 1, b);
    }
}

proof fn lemma_no_matches(h: Seq<u8>, p: Seq<u8>, orig: Seq<u8>, a: int)
    requires
        p.len() > 0,
        0 <= a,
        forall|j: int| a <= j ==> !#[trigger] occurs_at(h, p, j),
    ensures
        match_positions(h, p, orig, a) == Seq::<(usize, usize)>::empty(),
    decreases h.len() + 1 - a,
{
    if a <= h.len() {
        assert(!occurs_at(h, p, a));
        lemma_no_matches(h, p, orig, a + 1);
    }
}

/// Locate every case-insensitive occurrence of `term` in `text`, as
/// (start, end) byte ranges. The offsets are those of the lowercased text;
/// when lowercasing the term changes its length no positions are given.
#[verifier::spinoff_prover]
pub fn find_term_positions(text: &str, term: &str) -> (r: Vec<(usize, usize)>)
    ensures
        r@ == term_positions(text@, term@),
        forall|n: int|
            0 <= n < r@.len() ==> (#[trigger] r@[n]).0 <= r@[n].1 && is_char_boundary(
                encode_utf8(text@),
                r@[n].0 as int,
            ) && is_char_boundary(encode_utf8(text@), r@[n].1 as int),
{
    let lower_text = to_lowercase(text);
    let lower_term = to_lowercase(term);
    let h = lower_text.as_str().as_bytes();
    let p = lower_term.as_str().as_bytes();
    let ghost orig = encode_utf8(text@);
    let term_bytes = term.as_bytes();
    if p.len() == 0 || p.len() != term_bytes.len() {
        return Vec::new();
    }
    let mut positions: Vec<(usize, usize)> = Vec::new();
    let mut start: usize = 0;
    while start <= h.len()
        invariant
            h@ == encode_utf8(lowercase(text@)),
            p@ == encode_utf8(lowercase(term@)),
            p@.len() > 0,
            orig == encode_utf8(text@),
            start <= h@.len() + 1,
            forall|n: int|
                0 <= n < positions@.len() ==> (#[trigger] positions@[n]).0 <= positions@[n].1
                    && is_char_boundary(orig, positions@[n].0 as int) && is_char_boundary(
                    orig,
                    positions@[n].1 as int,
                ),
            positions@ + match_positions(h@, p@, orig, start as int) == match_positions(
                h@,
                p@,
                orig,
                0,
            ),
        ensures
            positions@ == match_positions(h@, p@, orig, 0),
            forall|n: int|
                0 <= n < positions@.len() ==> (#[trigger] positions@[n]).0 <= positions@[n].1
                    && is_char_boundary(orig, positions@[n].0 as int) && is_char_boundary(
                    orig,
                    positions@[n].1 as int,
                ),
        decreases h@.len() + 1 - start,
    {
        match find_bytes_from(h, p, start) {
            Some(i) => {
                proof {
                    lemma_skip_non_matches(h@, p@, orig, start as int, i as int);
                }
                let end = i + p.len();
                let ghost rest = match_positions(h@, p@, orig, end as int);
                if text.is_char_boundary(i) && text.is_char_boundary(end) {
                    positions.push((i, end));
                    assert(positions@ + rest =~= positions@.drop_last() + (seq![(i, end)] + rest));
                }
                start = end;
                if start > h.len() {
                    assert(positions@ + match_positions(h@, p@, orig, start as int) =~= positions@);
                }
            },
            None => {
                proof {
                    lemma_no_matches(h@, p@, orig, start as int);
                }
                assert(positions@ + Seq::<(usize, usize)>::empty() =~= positions@);
                break;
            },
        }
    }
    assert(positions@ == match_positions(h@, p@, orig, 0));
    assert(h@ == encode_utf8(lowercase(text@)));
    assert(p@ == encode_utf8(lowercase(term@)));
    assert(p@.len() == encode_utf8(term@).len());
    assert(term_positions(text@, term@) == match_positions(h@, p@, orig, 0));
    positions
}

/// The first or last `max_chars` characters of `s` (all of it when shorter).
pub open spec fn trimmed_chars(s: Seq<char>, max_chars: nat, from_end: bool) -> Seq<char> {
    let k = if max_chars < s.len() {
        max_chars
    } else {
        s.len()
    };
    if from_end {
        s.subrange(s.len() - k, s.len() as int)
    } else {
        s.subrange(0, k as int)
    }
}

/// Take up to `max_chars` characters from one end of the string:
/// `from_end = true` gives the last ones, `false` the first.
pub fn trim_to_chars(s: &str, max_chars: usize, from_end: bool) -> (r: &str)
    ensures
        r@ == trimmed_chars(s@, max_chars as nat, from_end),
{
    let n = s.unicode_len();
    let k = if max_chars < n {
        max_chars
    } else {
        n
    };
    if from_end {
        s.substring_char(n - k, n)
    } else {
        s.substring_char(0, k)
    }
}


proof fn lemma_token_hits_hold(toks: Seq<Seq<char>>, t: Seq<char>, i: usize, x: usize)
    requires
        token_hits(toks, t, i).contains(x),
    ensures
        x == i,
        toks.contains(t),
    decreases toks.len(),
{
    let rest = token_hits(toks.drop_last(), t, i);
    if toks.last() == t {
        if rest.contains(x) {
            lemma_token_hits_hold(toks.drop_last(), t, i, x);
        }
        assert(toks[toks.len() - 1] == t);
    } else {
        lemma_token_hits_hold(toks.drop_last(), t, i, x);
        let j = choose|j: int| 0 <= j < toks.drop_last().len() && toks.drop_last()[j] == t;
        assert(toks[j] == t);
    }
}

/// A position listed for a token is that of an annotation holding it.
proof fn lemma_postings_hold(annos: Seq<IndexedAnnotation>, t: Seq<char>, x: usize)
    requires
        annos.len() <= usize::MAX,
        postings_of(annos, t).contains(x),
    ensures
        x < annos.len(),
        tokens(annos[x as int].text@).contains(t),
    decreases annos.len(),
{
    let front = postings_of(annos.drop_last(), t);
    let back = token_hits(tokens(annos.last().text@), t, (annos.len() - 1) as usize);
    let j = choose|j: int| 0 <= j < postings_of(annos, t).len() && postings_of(annos, t)[j] == x;
    if j < front.len() {
        assert(front[j] == x);
        lemma_postings_hold(annos.drop_last(), t, x);
        assert(annos[x as int] == annos.drop_last()[x as int]);
    } else {
        assert(back[j - front.len()] == x);
        lemma_token_hits_hold(tokens(annos.last().text@), t, (annos.len() - 1) as usize, x);
    }
}

proof fn lemma_keep_common_holds(cur: Seq<usize>, other: Seq<usize>, x: usize)
    requires
        keep_common(cur, other).contains(x),
    ensures
        cur.contains(x),
        other.contains(x),
    decreases cur.len(),
{
    let rest = keep_common(cur.drop_last(), other);
    if other.contains(cur.last()) && !rest.contains(x) {
        assert(keep_common(cur, other) == rest.push(cur.last()));
        let j = choose|j: int| 0 <= j < rest.push(cur.last()).len() && rest.push(cur.last())[j] == x;
        assert(j == rest.len());
        assert(cur[cur.len() - 1] == x);
    } else {
        lemma_keep_common_holds(cur.drop_last(), other, x);
        let j = choose|j: int| 0 <= j < cur.drop_last().len() && cur.drop_last()[j] == x;
        assert(cur[j] == x);
    }
}

proof fn lemma_candidates_hold(annos: Seq<IndexedAnnotation>, ts: Seq<Seq<char>>, x: usize, k: int)
    requires
        query_candidates(annos, ts).contains(x),
        0 <= k < ts.len(),
    ensures
        postings_of(annos, ts[k]).contains(x),
    decreases ts.len(),
{
    if ts.len() > 1 {
        lemma_keep_common_holds(
            query_candidates(annos, ts.drop_last()),
            postings_of(annos, ts.last()),
            x,
        );
        if k < ts.len() - 1 {
            lemma_candidates_hold(annos, ts.drop_last(), x, k);
        }
    }
}

proof fn lemma_selected_hold(
    annos: Seq<IndexedAnnotation>,
    idxs: Seq<usize>,
    motivations: Option<Seq<Seq<char>>>,
    n: int,
) -> (x: usize)
    requires
        0 <= n < select_annotations(annos, idxs, motivations).len(),
    ensures
        idxs.contains(x),
        x < annos.len(),
        select_annotations(annos, idxs, motivations)[n] == annos[x as int],
        motivation_allowed(motivations, annos[x as int].motivation@),
    decreases idxs.len(),
{
    let rest = select_annotations(annos, idxs.drop_last(), motivations);
    if n < rest.len() {
        let x = lemma_selected_hold(annos, idxs.drop_last(), motivations, n);
        let j = choose|j: int| 0 <= j < idxs.drop_last().len() && idxs.drop_last()[j] == x;
        assert(idxs[j] == x);
        x
    } else {
        let x = idxs.last();
        assert(idxs[idxs.len() - 1] == x);
        x
    }
}

/// Search is a conjunction: every annotation a search returns holds every
/// token of the query, and passes the motivation filter.
pub proof fn lemma_search_matches_all_terms(
    annos: Seq<IndexedAnnotation>,
    query: Seq<char>,
    motivations: Option<Seq<Seq<char>>>,
    n: int,
    k: int,
)
    requires
        annos.len() <= usize::MAX,
        0 <= n < search_matches(annos, query, motivations).len(),
        0 <= k < tokens(query).len(),
    ensures
        tokens(search_matches(annos, query, motivations)[n].text@).contains(tokens(query)[k]),
        motivation_allowed(motivations, search_matches(annos, query, motivations)[n].motivation@),
{
    let ts = tokens(query);
    let x = lemma_selected_hold(annos, first_occurrences(query_candidates(annos, ts)), motivations, n);
    lemma_first_occurrences(query_candidates(annos, ts));
    lemma_candidates_hold(annos, ts, x, k);
    lemma_postings_hold(annos, ts[k], x);
}

proof fn lemma_token_hits_has(toks: Seq<Seq<char>>, t: Seq<char>, i: usize)
    requires
        toks.contains(t),
    ensures
        token_hits(toks, t, i).contains(i),
    decreases toks.len(),
{
    if toks.last() == t {
        let h = token_hits(toks.drop_last(), t, i).push(i);
        assert(h[h.len() - 1] == i);
    } else {
        let j = choose|j: int| 0 <= j < toks.len() && toks[j] == t;
        assert(toks.drop_last()[j] == t);
        lemma_token_hits_has(toks.drop_last(), t, i);
        let h0 = token_hits(toks.drop_last(), t, i);
        let k = choose|k: int| 0 <= k < h0.len() && h0[k] == i;
        assert(token_hits(toks, t, i)[k] == i);
    }
}

proof fn lemma_postings_have_last(annos: Seq<IndexedAnnotation>, t: Seq<char>)
    requires
        0 < annos.len() <= usize::MAX,
        tokens(annos.last().text@).contains(t),
    ensures
        postings_of(annos, t).contains((annos.len() - 1) as usize),
{
    let n = (annos.len() - 1) as usize;
    let front = postings_of(annos.drop_last(), t);
    let back = token_hits(tokens(annos.last().text@), t, n);
    lemma_token_hits_has(tokens(annos.last().text@), t, n);
    let k = choose|k: int| 0 <= k < back.len() && back[k] == n;
    assert(postings_of(annos, t) == front + back);
    assert((front + back)[front.len() + k] == n);
}

proof fn lemma_keep_common_has(cur: Seq<usize>, other: Seq<usize>, x: usize)
    requires
        cur.contains(x),
        other.contains(x),
    ensures
        keep_common(cur, other).contains(x),
    decreases cur.len(),
{
    let rest = keep_common(cur.drop_last(), other);
    if cur.last() == x {
        assert(keep_common(cur, other) == rest.push(x));
        assert(rest.push(x)[rest.len() as int] == x);
    } else {
        let j = choose|j: int| 0 <= j < cur.len() && cur[j] == x;
        assert(cur.drop_last()[j] == x);
        lemma_keep_common_has(cur.drop_last(), other, x);
        let k = choose|k: int| 0 <= k < rest.len() && rest[k] == x;
        if other.contains(cur.last()) {
            assert(rest.push(cur.last())[k] == x);
        }
    }
}

proof fn lemma_candidates_have(annos: Seq<IndexedAnnotation>, ts: Seq<Seq<char>>, x: usize)
    requires
        ts.len() > 0,
        forall|k: int| 0 <= k < ts.len() ==> #[trigger] postings_of(annos, ts[k]).contains(x),
    ensures
        query_candidates(annos, ts).contains(x),
    decreases ts.len(),
{
    if ts.len() == 1 {
        assert(postings_of(annos, ts[0]).contains(x));
    } else {
        let p = ts.drop_last();
        assert forall|k: int| 0 <= k < p.len() implies #[trigger] postings_of(annos, p[k]).contains(x) by {
            assert(p[k] == ts[k]);
            assert(postings_of(annos, ts[k]).contains(x));
        }
        lemma_candidates_have(annos, p, x);
        assert(postings_of(annos, ts[ts.len() - 1]).contains(x));
        lemma_keep_common_has(query_candidates(annos, p), postings_of(annos, ts.last()), x);
    }
}

proof fn lemma_select_has(
    annos: Seq<IndexedAnnotation>,
    idxs: Seq<usize>,
    motivations: Option<Seq<Seq<char>>>,
    x: usize,
)
    requires
        idxs.contains(x),
        x < annos.len(),
        motivation_allowed(motivations, annos[x as int].motivation@),
    ensures
        select_annotations(annos, idxs, motivations).contains(annos[x as int]),
    decreases idxs.len(),
{
    let rest = select_annotations(annos, idxs.drop_last(), motivations);
    let i = idxs.last();
    if i == x {
        let r = rest.push(annos[x as int]);
        assert(r[rest.len() as int] == annos[x as int]);
    } else {
        let j = choose|j: int| 0 <= j < idxs.len() && idxs[j] == x;
        assert(idxs.drop_last()[j] == x);
        lemma_select_has(annos, idxs.drop_last(), motivations, x);
        let k = choose|k: int| 0 <= k < rest.len() && rest[k] == annos[x as int];
        if i < annos.len() && motivation_allowed(motivations, annos[i as int].motivation@) {
            assert(rest.push(annos[i as int])[k] == annos[x as int]);
        }
    }
}

/// An annotation just added is found by every query with tokens that all
/// occur among the tokens of its text, whenever its motivation passes the
/// filter.
pub proof fn lemma_added_annotation_found(
    before: Seq<IndexedAnnotation>,
    a: IndexedAnnotation,
    query: Seq<char>,
    motivations: Option<Seq<Seq<char>>>,
)
    requires
        before.len() < usize::MAX,
        tokens(query).len() > 0,
        forall|k: int| 0 <= k < tokens(query).len() ==> tokens(a.text@).contains(#[trigger] tokens(query)[k]),
        motivation_allowed(motivations, a.motivation@),
    ensures
        search_matches(before.push(a), query, motivations).contains(a),
{
    let annos = before.push(a);
    let n = before.len() as usize;
    let ts = tokens(query);
    assert(annos.last() == a);
    assert forall|k: int| 0 <= k < ts.len() implies #[trigger] postings_of(annos, ts[k]).contains(n) by {
        assert(tokens(a.text@).contains(ts[k]));
        lemma_postings_have_last(annos, ts[k]);
    }
    lemma_candidates_have(annos, ts, n);
    lemma_first_occurrences(query_candidates(annos, ts));
    assert(first_occurrences(query_candidates(annos, ts)).contains(n));
    assert(annos[n as int] == a);
    lemma_select_has(annos, first_occurrences(query_candidates(annos, ts)), motivations, n);
}

/// After an annotation is added, a search for any token of its text finds
/// it, whenever that token reads back as itself (its own tokens are just it)
/// and the annotation's motivation passes the filter.
pub proof fn lemma_added_found_by_token(
    before: Seq<IndexedAnnotation>,
    a: IndexedAnnotation,
    k: Seq<char>,
    motivations: Option<Seq<Seq<char>>>,
)
    requires
        before.len() < usize::MAX,
        tokens(a.text@).contains(k),
        tokens(k) == seq![k],
        motivation_allowed(motivations, a.motivation@),
    ensures
        search_matches(before.push(a), k, motivations).contains(a),
{
    assert forall|j: int| 0 <= j < tokens(k).len() implies tokens(a.text@).contains(#[trigger] tokens(k)[j]) by {
        assert(tokens(k)[j] == k);
    }
    lemma_added_annotation_found(before, a, k, motivations);
}

/// Adding an annotation loses no match: every annotation a query found
/// before is still found after.
pub proof fn lemma_earlier_matches_kept(
    before: Seq<IndexedAnnotation>,
    a: IndexedAnnotation,
    query: Seq<char>,
    motivations: Option<Seq<Seq<char>>>,
    b: IndexedAnnotation,
)
    requires
        before.len() < usize::MAX,
        search_matches(before, query, motivations).contains(b),
    ensures
        search_matches(before.push(a), query, motivations).contains(b),
{
    let after = before.push(a);
    let ts = tokens(query);
    let fb = first_occurrences(query_candidates(before, ts));
    let nn = choose|nn: int| 0 <= nn < search_matches(before, query, motivations).len() && search_matches(before, query, motivations)[nn] == b;
    let x = lemma_selected_hold(before, fb, motivations, nn);
    lemma_first_occurrences(query_candidates(before, ts));
    assert forall|k: int| 0 <= k < ts.len() implies #[trigger] postings_of(after, ts[k]).contains(x) by {
        lemma_candidates_hold(before, ts, x, k);
        assert(after.drop_last() == before);
        let p = postings_of(before, ts[k]);
        let j = choose|j: int| 0 <= j < p.len() && p[j] == x;
        let back = token_hits(tokens(after.last().text@), ts[k], (after.len() - 1) as usize);
        assert(postings_of(after, ts[k]) == p + back);
        assert((p + back)[j] == x);
    }
    lemma_candidates_have(after, ts, x);
    lemma_first_occurrences(query_candidates(after, ts));
    assert(after[x as int] == before[x as int]);
    lemma_select_has(after, first_occurrences(query_candidates(after, ts)), motivations, x);
}

proof fn lemma_ranks_asymmetric(x: (Seq<char>, nat), y: (Seq<char>, nat))
    requires
        ranks_before(x, y),
    ensures
        !ranks_before(y, x),
{
    if x.1 == y.1 {
        lemma_lex_asymmetric(x.0, y.0);
    }
}

/// Autocomplete answers the best-ranked completions, each once: every entry
/// is a completion of the lowercased prefix with its number of occurrences,
/// no term is listed twice, and any completion that ranks before a listed
/// entry is itself listed before it; so the answer is the first entries of
/// all completions in ranking order, cut to `limit`.
pub proof fn lemma_autocomplete_ranks(
    annos: Seq<IndexedAnnotation>,
    prefix: Seq<char>,
    limit: nat,
    r: Seq<(String, usize)>,
    i: int,
    t: Seq<char>,
)
    requires
        is_autocomplete(annos, prefix, limit, r),
        0 <= i < r.len(),
    ensures
        completes(annos, lowercase(prefix), r[i].0@),
        r[i].1 == postings_of(annos, r[i].0@).len(),
        forall|j: int| 0 <= j < r.len() && j != i ==> r[j].0@ != r[i].0@,
        completes(annos, lowercase(prefix), t) && ranks_before(
            (t, postings_of(annos, t).len()),
            entry_view(r[i]),
        ) ==> exists|j: int| 0 <= j < i && r[j].0@ == t,
{
    assert forall|j: int| 0 <= j < r.len() && j != i implies r[j].0@ != r[i].0@ by {
        if r[j].0@ == r[i].0@ {
            assert(r[j].1 == r[i].1);
            if j < i {
                assert(ranks_before(entry_view(r[j]), entry_view(r[i])));
                lemma_ranks_asymmetric(entry_view(r[j]), entry_view(r[i]));
            } else {
                assert(ranks_before(entry_view(r[i]), entry_view(r[j])));
                lemma_ranks_asymmetric(entry_view(r[i]), entry_view(r[j]));
            }
        }
    }
    let tv = (t, postings_of(annos, t).len());
    if completes(annos, lowercase(prefix), t) && ranks_before(tv, entry_view(r[i])) {
        lemma_ranks_asymmetric(tv, entry_view(r[i]));
        if !(exists|j: int| 0 <= j < r.len() && #[trigger] r[j].0@ == t) {
            assert(ranks_before(entry_view(r[i]), tv));
        } else {
            let j = choose|j: int| 0 <= j < r.len() && #[trigger] r[j].0@ == t;
            assert(entry_view(r[j]) == tv);
            if j == i {
                lemma_ranks_asymmetric(tv, tv);
            } else if j > i {
                assert(ranks_before(entry_view(r[i]), entry_view(r[j])));
            }
        }
    }
}

/// Whether every token of `ts` is a token of the annotation's text.
pub open spec fn holds_all(a: IndexedAnnotation, ts: Seq<Seq<char>>) -> bool {
    forall|k: int| 0 <= k < ts.len() ==> tokens(a.text@).contains(#[trigger] ts[k])
}

/// What a query owes: none for a query without tokens, else the
/// annotations, in the order added and each once, whose text holds every
/// token of the query and whose motivation passes the filter.
pub open spec fn query_answer(
    annos: Seq<IndexedAnnotation>,
    query: Seq<char>,
    motivations: Option<Seq<Seq<char>>>,
) -> Seq<IndexedAnnotation> {
    let ts = tokens(query);
    if ts.len() == 0 {
        Seq::empty()
    } else {
        annos.filter(|a: IndexedAnnotation| holds_all(a, ts) && motivation_allowed(motivations, a.motivation@))
    }
}

/// The positions, ascending, of the annotations holding every token of `ts`.
spec fn holding_positions(annos: Seq<IndexedAnnotation>, ts: Seq<Seq<char>>) -> Seq<usize>
    decreases annos.len(),
{
    if annos.len() == 0 {
        Seq::empty()
    } else {
        let rest = holding_positions(annos.drop_last(), ts);
        if holds_all(annos.last(), ts) {
            rest.push((annos.len() - 1) as usize)
        } else {
            rest
        }
    }
}

spec fn increasing(s: Seq<usize>) -> bool {
    forall|i: int, j: int| 0 <= i < j < s.len() ==> s[i] < s[j]
}

spec fn nondecreasing(s: Seq<usize>) -> bool {
    forall|i: int, j: int| 0 <= i < j < s.len() ==> s[i] <= s[j]
}

proof fn lemma_token_hits_all(toks: Seq<Seq<char>>, t: Seq<char>, i: usize)
    ensures
        forall|j: int| 0 <= j < token_hits(toks, t, i).len() ==> token_hits(toks, t, i)[j] == i,
    decreases toks.len(),
{
    if toks.len() > 0 {
        lemma_token_hits_all(toks.drop_last(), t, i);
        let prev = token_hits(toks.drop_last(), t, i);
        if toks.last() == t {
            let h = prev.push(i);
            assert forall|j: int| 0 <= j < h.len() implies h[j] == i by {
                if j < prev.len() {
                    assert(h[j] == prev[j]);
                }
            }
        }
    }
}

proof fn lemma_postings_sorted(annos: Seq<IndexedAnnotation>, t: Seq<char>)
    requires
        annos.len() <= usize::MAX,
    ensures
        nondecreasing(postings_of(annos, t)),
        forall|j: int| 0 <= j < postings_of(annos, t).len() ==> postings_of(annos, t)[j] < annos.len(),
    decreases annos.len(),
{
    if annos.len() > 0 {
        let n = (annos.len() - 1) as usize;
        let front = postings_of(annos.drop_last(), t);
        let back = token_hits(tokens(annos.last().text@), t, n);
        lemma_postings_sorted(annos.drop_last(), t);
        lemma_token_hits_all(tokens(annos.last().text@), t, n);
        let all = front + back;
        assert(postings_of(annos, t) == all);
        assert forall|i: int, j: int| 0 <= i < j < all.len() implies all[i] <= all[j] by {
            if j < front.len() {
                assert(all[i] == front[i] && all[j] == front[j]);
            } else if i < front.len() {
                assert(all[i] == front[i] && all[j] == back[j - front.len()]);
            } else {
                assert(all[i] == back[i - front.len()] && all[j] == back[j - front.len()]);
            }
        }
        assert forall|j: int| 0 <= j < all.len() implies all[j] < annos.len() by {
            if j < front.len() {
                assert(all[j] == front[j]);
            } else {
                assert(all[j] == back[j - front.len()]);
            }
        }
    }
}

proof fn lemma_keep_common_sorted(cur: Seq<usize>, other: Seq<usize>)
    requires
        nondecreasing(cur),
    ensures
        nondecreasing(keep_common(cur, other)),
    decreases cur.len(),
{
    if cur.len() > 0 {
        let p = cur.drop_last();
        assert(nondecreasing(p)) by {
            assert forall|i: int, j: int| 0 <= i < j < p.len() implies p[i] <= p[j] by {
                assert(p[i] == cur[i] && p[j] == cur[j]);
            }
        }
        lemma_keep_common_sorted(p, other);
        let rest = keep_common(p, other);
        if other.contains(cur.last()) {
            let r = rest.push(cur.last());
            assert forall|i: int, j: int| 0 <= i < j < r.len() implies r[i] <= r[j] by {
                if j == r.len() - 1 {
                    assert(rest.contains(rest[i]));
                    lemma_keep_common_holds(p, other, rest[i]);
                    let k = choose|k: int| 0 <= k < p.len() && p[k] == rest[i];
                    assert(cur[k] <= cur[cur.len() - 1]);
                } else {
                    assert(r[i] == rest[i] && r[j] == rest[j]);
                }
            }
        }
    }
}

proof fn lemma_candidates_sorted(annos: Seq<IndexedAnnotation>, ts: Seq<Seq<char>>)
    requires
        annos.len() <= usize::MAX,
    ensures
        nondecreasing(query_candidates(annos, ts)),
    decreases ts.len(),
{
    if ts.len() == 1 {
        lemma_postings_sorted(annos, ts[0]);
    } else if ts.len() > 1 {
        lemma_candidates_sorted(annos, ts.drop_last());
        lemma_keep_common_sorted(query_candidates(annos, ts.drop_last()), postings_of(annos, ts.last()));
    }
}

proof fn lemma_first_occurrences_increasing(s: Seq<usize>)
    requires
        nondecreasing(s),
    ensures
        increasing(first_occurrences(s)),
    decreases s.len(),
{
    if s.len() > 0 {
        let p = s.drop_last();
        assert(nondecreasing(p)) by {
            assert forall|i: int, j: int| 0 <= i < j < p.len() implies p[i] <= p[j] by {
                assert(p[i] == s[i] && p[j] == s[j]);
            }
        }
        lemma_first_occurrences_increasing(p);
        lemma_first_occurrences(p);
        if !p.contains(s.last()) {
            let f0 = first_occurrences(p);
            let f = f0.push(s.last());
            assert forall|i: int, j: int| 0 <= i < j < f.len() implies f[i] < f[j] by {
                if j == f.len() - 1 {
                    assert(f0.contains(f0[i]));
                    let k = choose|k: int| 0 <= k < p.len() && p[k] == f0[i];
                    assert(s[k] <= s[s.len() - 1]);
                    assert(p[k] != s.last());
                } else {
                    assert(f[i] == f0[i] && f[j] == f0[j]);
                }
            }
        }
    }
}

proof fn lemma_postings_has(annos: Seq<IndexedAnnotation>, t: Seq<char>, x: usize)
    requires
        annos.len() <= usize::MAX,
        x < annos.len(),
        tokens(annos[x as int].text@).contains(t),
    ensures
        postings_of(annos, t).contains(x),
    decreases annos.len(),
{
    if x == annos.len() - 1 {
        lemma_postings_have_last(annos, t);
    } else {
        let p = annos.drop_last();
        assert(p[x as int] == annos[x as int]);
        lemma_postings_has(p, t, x);
        let front = postings_of(p, t);
        let back = token_hits(tokens(annos.last().text@), t, (annos.len() - 1) as usize);
        assert(postings_of(annos, t) == front + back);
        let j = choose|j: int| 0 <= j < front.len() && front[j] == x;
        assert((front + back)[j] == x);
    }
}

proof fn lemma_matched_positions(annos: Seq<IndexedAnnotation>, ts: Seq<Seq<char>>, x: usize)
    requires
        annos.len() <= usize::MAX,
        ts.len() > 0,
    ensures
        first_occurrences(query_candidates(annos, ts)).contains(x) <==> (x < annos.len() && holds_all(
            annos[x as int],
            ts,
        )),
{
    lemma_first_occurrences(query_candidates(annos, ts));
    if query_candidates(annos, ts).contains(x) {
        assert forall|k: int| 0 <= k < ts.len() implies tokens(annos[x as int].text@).contains(#[trigger] ts[k]) by {
            lemma_candidates_hold(annos, ts, x, k);
            lemma_postings_hold(annos, ts[k], x);
        }
        lemma_candidates_hold(annos, ts, x, 0);
        lemma_postings_hold(annos, ts[0], x);
    }
    if x < annos.len() && holds_all(annos[x as int], ts) {
        assert forall|k: int| 0 <= k < ts.len() implies #[trigger] postings_of(annos, ts[k]).contains(x) by {
            lemma_postings_has(annos, ts[k], x);
        }
        lemma_candidates_have(annos, ts, x);
    }
}

proof fn lemma_holding_positions(annos: Seq<IndexedAnnotation>, ts: Seq<Seq<char>>)
    requires
        annos.len() <= usize::MAX,
    ensures
        increasing(holding_positions(annos, ts)),
        forall|x: usize|
            #[trigger] holding_positions(annos, ts).contains(x) <==> (x < annos.len() && holds_all(
                annos[x as int],
                ts,
            )),
    decreases annos.len(),
{
    if annos.len() > 0 {
        let p = annos.drop_last();
        let n = (annos.len() - 1) as usize;
        lemma_holding_positions(p, ts);
        let rest = holding_positions(p, ts);
        assert forall|x: usize| #[trigger] holding_positions(annos, ts).contains(x) <==> (x < annos.len()
            && holds_all(annos[x as int], ts)) by {
            if x < n {
                assert(p[x as int] == annos[x as int]);
            }
            if holds_all(annos.last(), ts) {
                let h = rest.push(n);
                assert(h[h.len() - 1] == n);
                if rest.contains(x) {
                    let j = choose|j: int| 0 <= j < rest.len() && rest[j] == x;
                    assert(h[j] == x);
                }
                if h.contains(x) && x != n {
                    let j = choose|j: int| 0 <= j < h.len() && h[j] == x;
                    assert(rest[j] == x);
                }
            }
        }
        if holds_all(annos.last(), ts) {
            let h = rest.push(n);
            assert forall|i: int, j: int| 0 <= i < j < h.len() implies h[i] < h[j] by {
                if j == h.len() - 1 {
                    assert(rest.contains(rest[i]));
                } else {
                    assert(h[i] == rest[i] && h[j] == rest[j]);
                }
            }
        }
    }
}

proof fn lemma_increasing_unique(s1: Seq<usize>, s2: Seq<usize>)
    requires
        increasing(s1),
        increasing(s2),
        forall|x: usize| s1.contains(x) <==> s2.contains(x),
    ensures
        s1 == s2,
    decreases s1.len() + s2.len(),
{
    if s1.len() == 0 && s2.len() > 0 {
        assert(s2.contains(s2[0]));
    } else if s2.len() == 0 && s1.len() > 0 {
        assert(s1.contains(s1[0]));
    } else if s1.len() > 0 && s2.len() > 0 {
        let a = s1.last();
        let b = s2.last();
        assert(s1.contains(a) && s2.contains(b));
        assert(s2.contains(a) && s1.contains(b));
        let i = choose|i: int| 0 <= i < s2.len() && s2[i] == a;
        let j = choose|j: int| 0 <= j < s1.len() && s1[j] == b;
        assert(a == b) by {
            if a < b {
                assert(j < s1.len() - 1 ==> s1[j] < s1[s1.len() - 1]);
            } else if b < a {
                assert(i < s2.len() - 1 ==> s2[i] < s2[s2.len() - 1]);
            }
        }
        let p1 = s1.drop_last();
        let p2 = s2.drop_last();
        assert(increasing(p1)) by {
            assert forall|x: int, y: int| 0 <= x < y < p1.len() implies p1[x] < p1[y] by {
                assert(p1[x] == s1[x] && p1[y] == s1[y]);
            }
        }
        assert(increasing(p2)) by {
            assert forall|x: int, y: int| 0 <= x < y < p2.len() implies p2[x] < p2[y] by {
                assert(p2[x] == s2[x] && p2[y] == s2[y]);
            }
        }
        assert forall|x: usize| p1.contains(x) <==> p2.contains(x) by {
            if p1.contains(x) {
                let k = choose|k: int| 0 <= k < p1.len() && p1[k] == x;
                assert(s1[k] < s1[s1.len() - 1]);
                assert(s1.contains(x));
                let m = choose|m: int| 0 <= m < s2.len() && s2[m] == x;
                assert(m != s2.len() - 1);
                assert(p2[m] == x);
            }
            if p2.contains(x) {
                let k = choose|k: int| 0 <= k < p2.len() && p2[k] == x;
                assert(s2[k] < s2[s2.len() - 1]);
                assert(s2.contains(x));
                let m = choose|m: int| 0 <= m < s1.len() && s1[m] == x;
                assert(m != s1.len() - 1);
                assert(p1[m] == x);
            }
        }
        lemma_increasing_unique(p1, p2);
        assert(s1 =~= p1.push(a));
        assert(s2 =~= p2.push(b));
    }
}

proof fn lemma_select_prefix(
    annos: Seq<IndexedAnnotation>,
    n: int,
    idxs: Seq<usize>,
    motivations: Option<Seq<Seq<char>>>,
)
    requires
        0 <= n <= annos.len(),
        forall|j: int| 0 <= j < idxs.len() ==> idxs[j] < n,
    ensures
        select_annotations(annos, idxs, motivations) == select_annotations(annos.take(n), idxs, motivations),
    decreases idxs.len(),
{
    if idxs.len() > 0 {
        lemma_select_prefix(annos, n, idxs.drop_last(), motivations);
        assert(idxs[idxs.len() - 1] == idxs.last());
        assert(annos.take(n)[idxs.last() as int] == annos[idxs.last() as int]);
    }
}

proof fn lemma_select_holding(
    annos: Seq<IndexedAnnotation>,
    ts: Seq<Seq<char>>,
    motivations: Option<Seq<Seq<char>>>,
)
    requires
        annos.len() <= usize::MAX,
    ensures
        select_annotations(annos, holding_positions(annos, ts), motivations) == annos.filter(
            |a: IndexedAnnotation| holds_all(a, ts) && motivation_allowed(motivations, a.motivation@),
        ),
    decreases annos.len(),
{
    let pred = |a: IndexedAnnotation| holds_all(a, ts) && motivation_allowed(motivations, a.motivation@);
    if annos.len() > 0 {
        let p = annos.drop_last();
        let n = (annos.len() - 1) as usize;
        lemma_select_holding(p, ts, motivations);
        lemma_holding_positions(p, ts);
        let rest = holding_positions(p, ts);
        assert forall|j: int| 0 <= j < rest.len() implies rest[j] < n as int by {
            assert(rest.contains(rest[j]));
        }
        lemma_select_prefix(annos, n as int, rest, motivations);
        assert(annos.take(n as int) == p);
        if holds_all(annos.last(), ts) {
            let h = rest.push(n);
            assert(h.drop_last() == rest);
            assert(annos[n as int] == annos.last());
        }
        assert(annos == p.push(annos.last()));
        p.lemma_filter_push(annos.last(), pred);
    }
}

/// Search answers exactly what the query owes: the annotations, in the
/// order they were added and each once, whose text holds every token of the
/// query and whose motivation passes the filter; nothing for a query
/// without tokens.
pub proof fn lemma_search_is_query_answer(
    annos: Seq<IndexedAnnotation>,
    query: Seq<char>,
    motivations: Option<Seq<Seq<char>>>,
)
    requires
        annos.len() <= usize::MAX,
    ensures
        search_matches(annos, query, motivations) == query_answer(annos, query, motivations),
{
    let ts = tokens(query);
    if ts.len() > 0 {
        let fo = first_occurrences(query_candidates(annos, ts));
        let hp = holding_positions(annos, ts);
        lemma_candidates_sorted(annos, ts);
        lemma_first_occurrences_increasing(query_candidates(annos, ts));
        lemma_holding_positions(annos, ts);
        assert forall|x: usize| fo.contains(x) <==> hp.contains(x) by {
            lemma_matched_positions(annos, ts, x);
        }
        lemma_increasing_unique(fo, hp);
        lemma_select_holding(annos, ts, motivations);
    }
}

/// Paging loses nothing: the page at `offset` followed by everything after
/// it is everything from `offset` on.
pub proof fn lemma_pages_concatenate<T>(s: Seq<T>, offset: nat, limit: nat)
    requires
        offset <= s.len(),
    ensures
        page_of(s, offset, limit) + page_of(s, offset + limit, (s.len() - offset - limit) as nat)
            =~= s.subrange(offset as int, s.len() as int),
{
}

} // verus!
