//! Content Search 2.0 responses: paged result pages with hit augmentation,
//! autocomplete term pages, and the query parameters that shape them.
use vstd::prelude::*;
use vstd::utf8::*;

use sha2::{Digest, Sha256};

use crate::annotation::{AnnotationTarget, Selector, SpecificResource};
use crate::error::IiifError;
use crate::search_index::{
    is_autocomplete, motivation_views, page_of, search_matches, term_positions, trimmed_chars, find_term_positions,
    trim_to_chars, IndexedAnnotation, SearchIndex,
};
use crate::text::{
    concat2, decimal, decimal_string, hex_seq, hex_string, index_of_from, join, joined,
    lemma_index_of_from, percent_encode, percent_encoded, slice_chars, split_whitespace,
    str_chars, string_from_chars, string_views, whitespace_words, EscapeSet,
};

verus! {

/// Results per search page.
pub const PAGE_SIZE: usize = 50;

/// Most terms an autocomplete page lists.
pub const AUTOCOMPLETE_LIMIT: usize = 20;

/// Characters of context kept on each side of a hit.
pub const SNIPPET_CONTEXT_CHARS: usize = 30;

/// The JSON-LD context of Content Search 2.0 responses.
pub open spec fn search_context() -> Seq<char> {
    "http://iiif.io/api/search/2/context.json"@
}

/// TextualBody for search results.
#[derive(Debug, Clone)]
pub struct TextualBody {
    pub body_type: String,
    pub value: String,
    pub format: String,
}

/// Annotation in a search result.
#[derive(Debug, Clone)]
pub struct SearchAnnotation {
    pub id: String,
    pub resource_type: String,
    pub motivation: String,
    pub body: TextualBody,
    pub target: AnnotationTarget,
}

/// AnnotationPage carrying hit-augmentation annotations, beside `items`.
#[derive(Debug, Clone)]
pub struct HitAnnotationPage {
    pub id: String,
    pub resource_type: String,
    pub items: Vec<HitAnnotation>,
}

/// A hit-augmentation annotation.
#[derive(Debug, Clone)]
pub struct HitAnnotation {
    pub id: String,
    pub resource_type: String,
    pub motivation: String,
    pub target: AnnotationTarget,
}

/// AnnotationCollection for paginated results.
#[derive(Debug, Clone)]
pub struct AnnotationCollection {
    pub id: String,
    pub resource_type: String,
    pub total: usize,
    pub first: PageRef,
    pub last: Option<PageRef>,
}

/// Reference to an AnnotationPage.
#[derive(Debug, Clone)]
pub struct PageRef {
    pub id: String,
    pub resource_type: String,
}

/// One AnnotationPage of a paginated set of search results.
#[derive(Debug, Clone)]
pub struct SearchResponse {
    pub context: String,
    pub id: String,
    pub resource_type: String,
    pub items: Vec<SearchAnnotation>,
    pub ignored: Vec<String>,
    pub start_index: Option<usize>,
    pub part_of: Option<AnnotationCollection>,
    pub next: Option<PageRef>,
    pub prev: Option<PageRef>,
    pub annotations: Option<Vec<HitAnnotationPage>>,
}

/// Content Search 2.0 autocomplete response.
#[derive(Debug, Clone)]
pub struct AutocompleteResponse {
    pub context: String,
    pub id: String,
    pub resource_type: String,
    pub items: Vec<TermEntry>,
    pub ignored: Vec<String>,
}

/// A single term in autocomplete results.
#[derive(Debug, Clone)]
pub struct TermEntry {
    pub value: String,
    pub total: Option<usize>,
}

/// The number of pages of `total` results, `page_size` per page (one page
/// when there is nothing).
pub open spec fn page_count(total: nat, page_size: nat) -> nat {
    if total == 0 {
        1
    } else {
        ((total + page_size - 1) / page_size as int) as nat
    }
}

/// The index of the last page.
pub open spec fn last_page(total: nat, page_size: nat) -> nat {
    if page_count(total, page_size) == 0 {
        0
    } else {
        (page_count(total, page_size) - 1) as nat
    }
}

/// Whether `r` is a reference to a page that `f` names for page `p`.
pub open spec fn refers_to_page<F: Fn(usize) -> String>(r: PageRef, f: F, p: usize) -> bool {
    call_ensures(f, (p,), r.id) && r.resource_type@ == "AnnotationPage"@
}

fn page_ref(id: String) -> (r: PageRef)
    ensures
        r.id == id,
        r.resource_type@ == "AnnotationPage"@,
{
    PageRef { id, resource_type: String::from_str("AnnotationPage") }
}

impl SearchResponse {
    /// Build a paginated search response: page `page` of `total` results,
    /// `page_size` per page, whose page URLs `page_url_for` gives.
    pub fn paginated<F: Fn(usize) -> String>(
        collection_id: &str,
        items: Vec<SearchAnnotation>,
        ignored: Vec<String>,
        total: usize,
        page: usize,
        page_size: usize,
        hits: Option<Vec<HitAnnotationPage>>,
        page_url_for: F,
    ) -> (r: Self)
        requires
            total > 0 ==> page_size > 0,
            page * page_size <= usize::MAX,
            forall|p: usize| call_requires(page_url_for, (p,)),
        ensures
            r.context@ == search_context(),
            call_ensures(page_url_for, (page,), r.id),
            r.resource_type@ == "AnnotationPage"@,
            r.items == items,
            r.ignored == ignored,
            r.start_index == Some((page * page_size) as usize),
            r.annotations == hits,
            match r.part_of {
                Some(c) => {
                    &&& c.id@ == collection_id@
                    &&& c.resource_type@ == "AnnotationCollection"@
                    &&& c.total == total
                    &&& refers_to_page(c.first, page_url_for, 0)
                    &&& match c.last {
                        Some(l) => refers_to_page(
                            l,
                            page_url_for,
                            last_page(total as nat, page_size as nat) as usize,
                        ),
                        None => false,
                    }
                },
                None => false,
            },
            page < last_page(total as nat, page_size as nat) ==> (r.next matches Some(n)
                && refers_to_page(n, page_url_for, (page + 1) as usize)),
            page >= last_page(total as nat, page_size as nat) ==> r.next is None,
            page > 0 ==> (r.prev matches Some(p) && refers_to_page(
                p,
                page_url_for,
                (page - 1) as usize,
            )),
            page == 0 ==> r.prev is None,
    {
        let pages: usize = if total == 0 {
            1
        } else {
            let q = total / page_size;
            if total % page_size != 0 {
                assert(q < usize::MAX) by (nonlinear_arith)
                    requires
                        q == total / page_size,
                        total % page_size != 0,
                        page_size > 0,
                        total <= usize::MAX,
                {
                    assert(page_size >= 2);
                    assert(q * page_size <= total);
                    assert(q * 2 <= q * page_size);
                }
                q + 1
            } else {
                q
            }
        };
        assert(pages == page_count(total as nat, page_size as nat)) by (nonlinear_arith)
            requires
                pages == (if total == 0 {
                    1
                } else {
                    total / page_size + if total % page_size != 0 {
                        1int
                    } else {
                        0int
                    }
                }),
                total > 0 ==> page_size > 0,
        {
            if total > 0 {
                let q = total / page_size;
                let m = total % page_size;
                assert(total == q * page_size + m);
                if m != 0 {
                    assert((total + page_size - 1) == (q + 1) * page_size + (m - 1));
                    assert((total + page_size - 1) / page_size as int == q + 1);
                } else {
                    assert((total + page_size - 1) == q * page_size + (page_size - 1));
                    assert((total + page_size - 1) / page_size as int == q);
                }
            }
        }
        let last: usize = if pages > 0 {
            pages - 1
        } else {
            0
        };
        let part_of = AnnotationCollection {
            id: String::from_str(collection_id),
            resource_type: String::from_str("AnnotationCollection"),
            total,
            first: page_ref(page_url_for(0)),
            last: Some(page_ref(page_url_for(last))),
        };
        let next = if page < last {
            Some(page_ref(page_url_for(page + 1)))
        } else {
            None
        };
        let prev = if page > 0 {
            Some(page_ref(page_url_for(page - 1)))
        } else {
            None
        };
        SearchResponse {
            context: String::from_str("http://iiif.io/api/search/2/context.json"),
            id: page_url_for(page),
            resource_type: String::from_str("AnnotationPage"),
            items,
            ignored,
            start_index: Some(page * page_size),
            part_of: Some(part_of),
            next,
            prev,
            annotations: hits,
        }
    }
}

impl AutocompleteResponse {
    /// A term page at `request_url` listing `items`.
    pub fn new(request_url: &str, items: Vec<TermEntry>, ignored: Vec<String>) -> (r: Self)
        ensures
            r.context@ == search_context(),
            r.id@ == request_url@,
            r.resource_type@ == "TermPage"@,
            r.items == items,
            r.ignored == ignored,
    {
        AutocompleteResponse {
            context: String::from_str("http://iiif.io/api/search/2/context.json"),
            id: String::from_str(request_url),
            resource_type: String::from_str("TermPage"),
            items,
            ignored,
        }
    }
}

/// The white-space separated values of a parameter, in order.
pub fn split_space_separated(s: &str) -> (r: Vec<String>)
    ensures
        string_views(r@) == whitespace_words(s@),
{
    split_whitespace(s)
}

/// Whether chrono's RFC 3339 parser accepts the text.
pub uninterp spec fn rfc3339_accepts(s: Seq<char>) -> bool;

/// Whether `s` parses as an RFC 3339 date-time; wraps
/// `chrono::DateTime::parse_from_rfc3339`.
#[verifier::external_body]
fn parses_as_rfc3339(s: &str) -> (r: bool)
    ensures
        r == rfc3339_accepts(s@),
{
    chrono::DateTime::parse_from_rfc3339(s).is_ok()
}

/// A UTC instant `YYYY-MM-DDThh:mm:ssZ`: RFC 3339 with the `Z` suffix.
pub open spec fn is_utc_instant(s: Seq<char>) -> bool {
    s.len() > 0 && s.last() == 'Z' && rfc3339_accepts(s)
}

/// An ISO 8601 range `start/end`: split at the first `/`, both sides UTC
/// instants.
pub open spec fn is_date_range(v: Seq<char>) -> bool {
    let k = index_of_from(v, '/', 0);
    k < v.len() && is_utc_instant(v.subrange(0, k)) && is_utc_instant(v.subrange(k + 1, v.len() as int))
}

fn utc_instant(s: &[char]) -> (r: bool)
    ensures
        r == is_utc_instant(s@),
{
    if s.len() == 0 || s[s.len() - 1] != 'Z' {
        return false;
    }
    let text = string_from_chars(s);
    parses_as_rfc3339(text.as_str())
}

/// Validate an ISO 8601 date range `start/end` of UTC instants.
pub fn is_valid_date_range(value: &str) -> (r: bool)
    ensures
        r == is_date_range(value@),
{
    let cs = str_chars(value);
    proof {
        lemma_index_of_from(cs@, '/', 0);
    }
    let mut k: usize = 0;
    while k < cs.len() && cs[k] != '/'
        invariant
            k <= cs@.len(),
            forall|j: int| 0 <= j < k ==> cs@[j] != '/',
        decreases cs@.len() - k,
    {
        k = k + 1;
    }
    assert(k == index_of_from(cs@, '/', 0)) by {
        if (k as int) < index_of_from(cs@, '/', 0) {
            assert(cs@[k as int] != '/');
        }
    }
    if k == cs.len() {
        return false;
    }
    let start = slice_chars(&cs, 0, k);
    let end = slice_chars(&cs, k + 1, cs.len());
    utc_instant(&start) && utc_instant(&end)
}

/// Percent-encodes a query value, leaving only ASCII letters and digits.
pub fn url_encode(s: &str) -> (r: String)
    ensures
        r@ == percent_encoded(EscapeSet::NonAlphanumeric, encode_utf8(s@)),
{
    percent_encode(s, EscapeSet::NonAlphanumeric)
}

/// The encoded form of a query value.
pub open spec fn encoded_value(s: Seq<char>) -> Seq<char> {
    percent_encoded(EscapeSet::NonAlphanumeric, encode_utf8(s))
}

/// The AnnotationCollection URI of a search: the query, and the motivations
/// joined by spaces when there are any.
pub open spec fn collection_id_of(
    base: Seq<char>,
    query: Seq<char>,
    motivations: Option<Seq<Seq<char>>>,
) -> Seq<char> {
    let url = base + "/search?q="@ + encoded_value(query);
    match motivations {
        Some(ms) => if ms.len() > 0 {
            url + "&motivation="@ + encoded_value(joined(ms, " "@))
        } else {
            url
        },
        None => url,
    }
}

/// The AnnotationCollection URI of a search.
pub fn build_collection_id(base: &str, query: &str, motivations: Option<&[String]>) -> (r: String)
    ensures
        r@ == collection_id_of(base@, query@, motivation_views(motivations)),
{
    let q = url_encode(query);
    let mut url = concat2(base, "/search?q=");
    url.append(q.as_str());
    match motivations {
        Some(m) => {
            if m.len() > 0 {
                url.append("&motivation=");
                let j = join(m, " ");
                let e = url_encode(j.as_str());
                url.append(e.as_str());
            }
        },
        None => {},
    }
    url
}

/// The SHA-256 digest of some bytes.
pub uninterp spec fn sha256_digest(data: Seq<u8>) -> Seq<u8>;

/// SHA-256 of `data`; wraps `sha2::Sha256::digest`, whose output is 32
/// bytes long.
#[verifier::external_body]
pub(crate) fn sha256(data: &[u8]) -> (r: Vec<u8>)
    ensures
        r@ == sha256_digest(data@),
        r@.len() == 32,
{
    Sha256::digest(data).to_vec()
}

/// The first eight bytes of the SHA-256 of a text, in lowercase hex.
pub open spec fn short_hash_of(input: Seq<char>) -> Seq<char> {
    hex_seq(sha256_digest(encode_utf8(input)).take(8))
}

/// Short stable hex hash for hit-annotation ids (8 bytes, 16 hex digits).
pub fn short_hash(input: &str) -> (r: String)
    ensures
        r@ == short_hash_of(input@),
        r@.len() == 16,
{
    let digest = sha256(input.as_bytes());
    let first = slice_bytes(&digest, 8);
    hex_string(&first)
}

fn slice_bytes(v: &Vec<u8>, n: usize) -> (r: Vec<u8>)
    requires
        n <= v@.len(),
    ensures
        r@ == v@.take(n as int),
{
    let mut out: Vec<u8> = Vec::new();
    let mut i: usize = 0;
    while i < n
        invariant
            n <= v@.len(),
            i <= n,
            out@ == v@.take(i as int),
        decreases n - i,
    {
        out.push(v[i]);
        i = i + 1;
        assert(out@ == v@.take(i as int));
    }
    out
}

/// The text of the bytes `a..b` of a string.
pub open spec fn byte_slice(text: Seq<char>, a: int, b: int) -> Seq<char> {
    decode_utf8(encode_utf8(text).subrange(a, b))
}

/// The text, or none when it is empty.
pub open spec fn non_empty(s: Seq<char>) -> Option<Seq<char>> {
    if s.len() == 0 {
        None
    } else {
        Some(s)
    }
}

/// The text of an optional string.
pub open spec fn optional_text(o: Option<String>) -> Option<Seq<char>> {
    match o {
        Some(s) => Some(s@),
        None => None,
    }
}

/// What one hit stands for: the matched annotation's id and text, the query
/// term, and the byte range of the match.
pub type HitSource = (Seq<char>, Seq<char>, Seq<char>, (usize, usize));

/// Whether `h` is the hit annotation for `src` under `base`: a stable id
/// hashed from annotation, term and position, and a quote selector with up to
/// thirty characters of context on each side.
pub open spec fn is_hit(h: HitAnnotation, base: Seq<char>, src: HitSource) -> bool {
    let (item, text, term, (start, end)) = src;
    &&& h.id@ == base + "/annotation/hit/"@ + short_hash_of(
        item + "|"@ + term + "|"@ + decimal(start as nat),
    )
    &&& h.resource_type@ == "Annotation"@
    &&& h.motivation@ == "contextualizing"@
    &&& match h.target {
        AnnotationTarget::Specific(sr) => {
            &&& sr.source@ == item
            &&& sr.resource_type@ == "SpecificResource"@
            &&& match sr.selector {
                Selector::TextQuoteSelector { prefix, exact, suffix } => {
                    &&& exact@ == byte_slice(text, start as int, end as int)
                    &&& optional_text(prefix) == non_empty(
                        trimmed_chars(
                            byte_slice(text, 0, start as int),
                            SNIPPET_CONTEXT_CHARS as nat,
                            true,
                        ),
                    )
                    &&& optional_text(suffix) == non_empty(
                        trimmed_chars(
                            byte_slice(text, end as int, encode_utf8(text).len() as int),
                            SNIPPET_CONTEXT_CHARS as nat,
                            false,
                        ),
                    )
                },
                _ => false,
            }
        },
        _ => false,
    }
}

/// Hit ids are stable across queries: two hits from the same annotation,
/// for the same term at the same position, carry the same id, whatever the
/// rest of the query, the text or the page that produced them.
pub proof fn lemma_hit_id_stable(h1: HitAnnotation, h2: HitAnnotation, base: Seq<char>, s1: HitSource, s2: HitSource)
    requires
        is_hit(h1, base, s1),
        is_hit(h2, base, s2),
        s1.0 == s2.0,
        s1.2 == s2.2,
        s1.3.0 == s2.3.0,
    ensures
        h1.id@ == h2.id@,
{
}

/// The hits of one term in one annotation, one per position.
pub open spec fn term_hits(id: Seq<char>, text: Seq<char>, term: Seq<char>) -> Seq<HitSource> {
    term_positions(text, term).map_values(|p: (usize, usize)| (id, text, term, p))
}

/// The hits of every term in one annotation, term by term.
pub open spec fn annotation_hits(id: Seq<char>, text: Seq<char>, terms: Seq<Seq<char>>) -> Seq<
    HitSource,
>
    decreases terms.len(),
{
    if terms.len() == 0 {
        Seq::empty()
    } else {
        annotation_hits(id, text, terms.drop_last()) + term_hits(id, text, terms.last())
    }
}

/// The hits of every term in every matched annotation, annotation by
/// annotation.
pub open spec fn page_hits(matches: Seq<IndexedAnnotation>, terms: Seq<Seq<char>>) -> Seq<
    HitSource,
>
    decreases matches.len(),
{
    if matches.len() == 0 {
        Seq::empty()
    } else {
        page_hits(matches.drop_last(), terms) + annotation_hits(
            matches.last().id@,
            matches.last().text@,
            terms,
        )
    }
}

/// Whether `hs` are the hits for `srcs`, in order.
pub open spec fn are_hits(hs: Seq<HitAnnotation>, base: Seq<char>, srcs: Seq<HitSource>) -> bool {
    hs.len() == srcs.len() && forall|i: int| 0 <= i < hs.len() ==> is_hit(#[trigger] hs[i], base, srcs[i])
}

proof fn lemma_prefix_boundary(b: Seq<u8>, s: int, e: int)
    requires
        valid_utf8(b),
        is_char_boundary(b, s),
        is_char_boundary(b, e),
        0 <= s <= e <= b.len(),
    ensures
        valid_utf8(b.subrange(0, e)),
        is_char_boundary(b.subrange(0, e), s),
{
    valid_utf8_split(b, e);
    let p = b.subrange(0, e);
    if s == e {
        is_char_boundary_start_end_of_seq(p);
    } else if s > 0 {
        is_char_boundary_iff_not_is_continuation_byte(b, s);
        is_char_boundary_iff_not_is_continuation_byte(p, s);
    }
}

/// The hit annotation of one match position.
fn make_hit(base: &str, item_id: &String, text: &String, term: &String, start: usize, end: usize) -> (h:
    HitAnnotation)
    requires
        start <= end,
        is_char_boundary(encode_utf8(text@), start as int),
        is_char_boundary(encode_utf8(text@), end as int),
    ensures
        is_hit(h, base@, (item_id@, text@, term@, (start, end))),
{
    let t = text.as_str();
    let ghost b = encode_utf8(text@);
    proof {
        encode_utf8_valid_utf8(text@);
        is_char_boundary_start_end_of_seq(b);
        lemma_prefix_boundary(b, start as int, end as int);
        encode_utf8_decode_utf8(text@);
    }
    let (before, _) = t.split_at(start);
    let (upto_end, after) = t.split_at(end);
    let (_, exact_str) = upto_end.split_at(start);
    proof {
        encode_utf8_decode_utf8(before@);
        encode_utf8_decode_utf8(after@);
        encode_utf8_decode_utf8(exact_str@);
        assert(b.subrange(0, end as int).subrange(start as int, end as int) =~= b.subrange(
            start as int,
            end as int,
        ));
    }
    let prefix = trim_to_chars(before, SNIPPET_CONTEXT_CHARS, true);
    let suffix = trim_to_chars(after, SNIPPET_CONTEXT_CHARS, false);
    let mut key = concat2(item_id.as_str(), "|");
    key.append(term.as_str());
    key.append("|");
    let pos = decimal_string(start as u64);
    key.append(pos.as_str());
    let hash = short_hash(key.as_str());
    let mut id = concat2(base, "/annotation/hit/");
    id.append(hash.as_str());
    let selector = Selector::TextQuoteSelector {
        prefix: if prefix.is_empty() {
            None
        } else {
            Some(String::from_str(prefix))
        },
        exact: String::from_str(exact_str),
        suffix: if suffix.is_empty() {
            None
        } else {
            Some(String::from_str(suffix))
        },
    };
    HitAnnotation {
        id,
        resource_type: String::from_str("Annotation"),
        motivation: String::from_str("contextualizing"),
        target: AnnotationTarget::Specific(SpecificResource::new(item_id.clone(), selector)),
    }
}


/// The URL of page `p` of a result collection.
pub open spec fn page_url_of(collection_id: Seq<char>, p: usize) -> Seq<char> {
    if p == 0 {
        collection_id
    } else {
        collection_id + "&page="@ + decimal(p as nat)
    }
}

/// The URL of page `p` of a result collection.
pub fn page_url(collection_id: &str, p: usize) -> (r: String)
    ensures
        r@ == page_url_of(collection_id@, p),
{
    if p == 0 {
        String::from_str(collection_id)
    } else {
        let mut u = concat2(collection_id, "&page=");
        let n = decimal_string(p as u64);
        u.append(n.as_str());
        u
    }
}

/// Whether `x` presents the indexed annotation `a` as a search result.
pub open spec fn is_result_item(x: SearchAnnotation, a: IndexedAnnotation) -> bool {
    &&& x.id@ == a.id@
    &&& x.resource_type@ == "Annotation"@
    &&& x.motivation@ == a.motivation@
    &&& x.body.body_type@ == "TextualBody"@
    &&& x.body.value@ == a.text@
    &&& x.body.format@ == "text/plain"@
    &&& match x.target {
        AnnotationTarget::Id(t) => t@ == a.target@,
        _ => false,
    }
}

/// The search result presenting an indexed annotation.
fn result_item(a: &IndexedAnnotation) -> (x: SearchAnnotation)
    ensures
        is_result_item(x, *a),
{
    SearchAnnotation {
        id: a.id.clone(),
        resource_type: String::from_str("Annotation"),
        motivation: a.motivation.clone(),
        body: TextualBody {
            body_type: String::from_str("TextualBody"),
            value: a.text.clone(),
            format: String::from_str("text/plain"),
        },
        target: AnnotationTarget::Id(a.target.clone()),
    }
}

/// The motivation filter a `motivation` parameter asks for: its
/// white-space separated values, or none when it has none.
pub open spec fn requested_motivations(motivation: Option<Seq<char>>) -> Option<Seq<Seq<char>>> {
    match motivation {
        Some(m) => if whitespace_words(m).len() > 0 {
            Some(whitespace_words(m))
        } else {
            None
        },
        None => None,
    }
}

/// The message for a `date` parameter that is not a range of UTC instants.
pub open spec fn bad_date_message(d: Seq<char>) -> Seq<char> {
    "Invalid `date` parameter: expected `YYYY-MM-DDThh:mm:ssZ/YYYY-MM-DDThh:mm:ssZ`, got `"@ + d
        + "`"@
}

/// The parameters a search recognises but does not apply.
pub open spec fn ignored_parameters(date_given: bool, user_given: bool) -> Seq<Seq<char>> {
    (if date_given {
        seq!["date"@]
    } else {
        Seq::empty()
    }) + (if user_given {
        seq!["user"@]
    } else {
        Seq::empty()
    })
}

/// Whether `r` is page `page` of the response to a search.
pub open spec fn is_search_page(
    r: SearchResponse,
    base: Seq<char>,
    annos: Seq<IndexedAnnotation>,
    query: Seq<char>,
    motivations: Option<Seq<Seq<char>>>,
    ignored: Seq<Seq<char>>,
    page: usize,
) -> bool {
    let all = search_matches(annos, query, motivations);
    let shown = page_of(all, (page * PAGE_SIZE) as nat, PAGE_SIZE as nat);
    let cid = collection_id_of(base, query, motivations);
    let hits = page_hits(shown, whitespace_words(query));
    let last = last_page(all.len(), PAGE_SIZE as nat) as usize;
    &&& r.context@ == search_context()
    &&& r.id@ == page_url_of(cid, page)
    &&& r.resource_type@ == "AnnotationPage"@
    &&& r.items@.len() == shown.len()
    &&& forall|i: int| 0 <= i < shown.len() ==> is_result_item(#[trigger] r.items@[i], shown[i])
    &&& string_views(r.ignored@) == ignored
    &&& r.start_index == Some((page * PAGE_SIZE) as usize)
    &&& match r.part_of {
        Some(c) => {
            &&& c.id@ == cid
            &&& c.resource_type@ == "AnnotationCollection"@
            &&& c.total == all.len()
            &&& c.first.id@ == page_url_of(cid, 0)
            &&& c.first.resource_type@ == "AnnotationPage"@
            &&& match c.last {
                Some(l) => l.id@ == page_url_of(cid, last) && l.resource_type@ == "AnnotationPage"@,
                None => false,
            }
        },
        None => false,
    }
    &&& match r.next {
        Some(n) => page < last && n.id@ == page_url_of(cid, (page + 1) as usize)
            && n.resource_type@ == "AnnotationPage"@,
        None => page >= last,
    }
    &&& match r.prev {
        Some(p) => page > 0 && p.id@ == page_url_of(cid, (page - 1) as usize)
            && p.resource_type@ == "AnnotationPage"@,
        None => page == 0,
    }
    &&& match r.annotations {
        Some(pages) => {
            &&& hits.len() > 0
            &&& pages@.len() == 1
            &&& pages@[0].id@ == cid + "#hits-page-"@ + decimal(page as nat)
            &&& pages@[0].resource_type@ == "AnnotationPage"@
            &&& are_hits(pages@[0].items@, base, hits)
        },
        None => hits.len() == 0,
    }
}

/// The hit annotations of the shown matches, for every query term.
fn collect_hits(base: &str, shown: &Vec<IndexedAnnotation>, terms: &Vec<String>) -> (r: Vec<
    HitAnnotation,
>)
    ensures
        are_hits(r@, base@, page_hits(shown@, string_views(terms@))),
{
    let ghost tv = string_views(terms@);
    let mut hits: Vec<HitAnnotation> = Vec::new();
    let mut i: usize = 0;
    while i < shown.len()
        invariant
            tv == string_views(terms@),
            i <= shown@.len(),
            are_hits(hits@, base@, page_hits(shown@.take(i as int), tv)),
        decreases shown@.len() - i,
    {
        let a = &shown[i];
        let ghost done = page_hits(shown@.take(i as int), tv);
        let mut j: usize = 0;
        while j < terms.len()
            invariant
                tv == string_views(terms@),
                j <= terms@.len(),
                *a == shown@[i as int],
                are_hits(hits@, base@, done + annotation_hits(a.id@, a.text@, tv.take(j as int))),
            decreases terms@.len() - j,
        {
            let positions = find_term_positions(a.text.as_str(), terms[j].as_str());
            let ghost before = done + annotation_hits(a.id@, a.text@, tv.take(j as int));
            let ghost th = term_hits(a.id@, a.text@, tv[j as int]);
            let mut k: usize = 0;
            while k < positions.len()
                invariant
                    j < terms@.len(),
                    tv == string_views(terms@),
                    positions@ == term_positions(a.text@, terms@[j as int]@),
                    forall|n: int|
                        0 <= n < positions@.len() ==> (#[trigger] positions@[n]).0 <= positions@[n].1
                            && is_char_boundary(encode_utf8(a.text@), positions@[n].0 as int)
                            && is_char_boundary(encode_utf8(a.text@), positions@[n].1 as int),
                    th == term_hits(a.id@, a.text@, tv[j as int]),
                    k <= positions@.len(),
                    are_hits(hits@, base@, before + th.take(k as int)),
                decreases positions@.len() - k,
            {
                let (s, e) = positions[k];
                assert(positions@[k as int] == (s, e));
                let h = make_hit(base, &a.id, &a.text, &terms[j], s, e);
                let ghost prev = before + th.take(k as int);
                hits.push(h);
                assert(th[k as int] == (a.id@, a.text@, tv[j as int], (s, e)));
                assert(before + th.take(k + 1) =~= prev.push(th[k as int]));
                k = k + 1;
            }
            assert(th.take(positions@.len() as int) =~= th);
            assert(tv.take(j + 1).drop_last() =~= tv.take(j as int));
            assert(tv.take(j + 1).last() == tv[j as int]);
            assert(done + annotation_hits(a.id@, a.text@, tv.take(j + 1)) =~= before + th);
            j = j + 1;
        }
        assert(tv.take(terms@.len() as int) =~= tv);
        assert(shown@.take(i + 1).drop_last() =~= shown@.take(i as int));
        assert(shown@.take(i + 1).last() == *a);
        i = i + 1;
    }
    assert(shown@.take(shown@.len() as int) =~= shown@);
    hits
}

/// A page of search results with hit augmentation. Fails with `BadRequest`
/// exactly when a `date` is given that is not a range of UTC instants; a
/// `date` or `user` that is given is listed as ignored.
pub fn search_response(
    base: &str,
    index: &SearchIndex,
    query: &str,
    motivation: Option<&str>,
    date: Option<&str>,
    user_given: bool,
    page: usize,
) -> (r: Result<SearchResponse, IiifError>)
    requires
        index.wf(),
        page * PAGE_SIZE <= usize::MAX,
    ensures
        match date {
            Some(d) => !is_date_range(d@) <==> r is Err,
            None => r is Ok,
        },
        r matches Err(e) ==> (date matches Some(d) && e == IiifError::BadRequest(e->BadRequest_0)
            && e->BadRequest_0@ == bad_date_message(d@)),
        r matches Ok(resp) ==> is_search_page(
            resp,
            base@,
            index@,
            query@,
            requested_motivations(
                match motivation {
                    Some(m) => Some(m@),
                    None => None,
                },
            ),
            ignored_parameters(date is Some, user_given),
            page,
        ),
{
    let ghost mv = requested_motivations(
        match motivation {
            Some(m) => Some(m@),
            None => None,
        },
    );
    let motivations: Option<Vec<String>> = match motivation {
        Some(m) => {
            let v = split_space_separated(m);
            if v.len() > 0 {
                Some(v)
            } else {
                None
            }
        },
        None => None,
    };
    let ms: Option<&[String]> = match &motivations {
        Some(v) => Some(v.as_slice()),
        None => None,
    };
    assert(motivation_views(ms) == mv);
    let mut ignored: Vec<String> = Vec::new();
    match date {
        Some(d) => {
            if !is_valid_date_range(d) {
                let mut msg = String::from_str(
                    "Invalid `date` parameter: expected `YYYY-MM-DDThh:mm:ssZ/YYYY-MM-DDThh:mm:ssZ`, got `",
                );
                msg.append(d);
                msg.append("`");
                return Err(IiifError::BadRequest(msg));
            }
            ignored.push(String::from_str("date"));
        },
        None => {},
    }
    if user_given {
        ignored.push(String::from_str("user"));
    }
    assert(string_views(ignored@) =~= ignored_parameters(date is Some, user_given));
    let (matches, total) = index.search_paginated(query, ms, page * PAGE_SIZE, PAGE_SIZE);
    let terms = split_whitespace(query);
    let mut items: Vec<SearchAnnotation> = Vec::new();
    let mut i: usize = 0;
    while i < matches.len()
        invariant
            i <= matches@.len(),
            items@.len() == i,
            forall|n: int| 0 <= n < i ==> is_result_item(#[trigger] items@[n], matches@[n]),
        decreases matches@.len() - i,
    {
        items.push(result_item(&matches[i]));
        i = i + 1;
    }
    let hits = collect_hits(base, &matches, &terms);
    let collection_id = build_collection_id(base, query, ms);
    let hit_pages = if hits.len() == 0 {
        None
    } else {
        let mut id = concat2(collection_id.as_str(), "#hits-page-");
        let n = decimal_string(page as u64);
        id.append(n.as_str());
        let mut pages: Vec<HitAnnotationPage> = Vec::new();
        pages.push(
            HitAnnotationPage { id, resource_type: String::from_str("AnnotationPage"), items: hits },
        );
        Some(pages)
    };
    let cid = collection_id.clone();
    let page_url_for = move |p: usize| -> (u: String)
        ensures
            u@ == page_url_of(cid@, p),
        { page_url(cid.as_str(), p) };
    let response = SearchResponse::paginated(
        collection_id.as_str(),
        items,
        ignored,
        total,
        page,
        PAGE_SIZE,
        hit_pages,
        page_url_for,
    );
    Ok(response)
}

/// The term entries of ranked completions that occur at least `min_count`
/// times.
pub open spec fn entries_at_least(r: Seq<(String, usize)>, min_count: usize) -> Seq<(String, usize)>
    decreases r.len(),
{
    if r.len() == 0 {
        Seq::empty()
    } else if r.last().1 >= min_count {
        entries_at_least(r.drop_last(), min_count).push(r.last())
    } else {
        entries_at_least(r.drop_last(), min_count)
    }
}

/// Whether `e` lists the term `t` with its count.
pub open spec fn is_term_entry(e: TermEntry, t: (String, usize)) -> bool {
    e.value@ == t.0@ && e.total == Some(t.1)
}

/// The autocomplete page for a prefix: the first twenty ranked
/// completions, those occurring fewer than `min_count` times dropped.
pub fn autocomplete_response(base: &str, index: &SearchIndex, prefix: &str, min_count: usize) -> (r:
    AutocompleteResponse)
    requires
        index.wf(),
    ensures
        r.context@ == search_context(),
        r.id@ == base@ + "/autocomplete?q="@ + encoded_value(prefix@),
        r.resource_type@ == "TermPage"@,
        r.ignored@.len() == 0,
        exists|ranked: Seq<(String, usize)>|
            is_autocomplete(index@, prefix@, AUTOCOMPLETE_LIMIT as nat, ranked) && r.items@.len()
                == entries_at_least(ranked, min_count).len() && forall|i: int|
                0 <= i < r.items@.len() ==> is_term_entry(
                    #[trigger] r.items@[i],
                    entries_at_least(ranked, min_count)[i],
                ),
{
    let ranked = index.autocomplete(prefix, AUTOCOMPLETE_LIMIT);
    let mut items: Vec<TermEntry> = Vec::new();
    let mut i: usize = 0;
    while i < ranked.len()
        invariant
            i <= ranked@.len(),
            items@.len() == entries_at_least(ranked@.take(i as int), min_count).len(),
            forall|n: int|
                0 <= n < items@.len() ==> is_term_entry(
                    #[trigger] items@[n],
                    entries_at_least(ranked@.take(i as int), min_count)[n],
                ),
        decreases ranked@.len() - i,
    {
        assert(ranked@.take(i + 1).drop_last() =~= ranked@.take(i as int));
        assert(ranked@.take(i + 1).last() == ranked@[i as int]);
        if ranked[i].1 >= min_count {
            items.push(TermEntry { value: ranked[i].0.clone(), total: Some(ranked[i].1) });
        }
        i = i + 1;
    }
    assert(ranked@.take(ranked@.len() as int) =~= ranked@);
    let q = url_encode(prefix);
    let mut request_url = concat2(base, "/autocomplete?q=");
    request_url.append(q.as_str());
    AutocompleteResponse::new(request_url.as_str(), items, Vec::new())
}

} // verus!
