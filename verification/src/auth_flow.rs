//! The decisions of the auth endpoints and of the access check in front of
//! protected images: cookie handling, origin validation, token and probe
//! replies, and script-safe escaping.
use vstd::prelude::*;
use vstd::utf8::*;

use crate::auth::{token_usable, AuthStore, AuthView};
use crate::identifier::{lenient_decode, lenient_percent_decode};
use crate::config::{AuthConfig, UserCredential};
use crate::text::{
    index_of_from, is_digit, is_white_space, last_index_of, lemma_index_of_from,
    lemma_last_index_of, push_char, rfind_char, slice_chars, split_chars, split_on, starts_with,
    starts_with_chars, str_chars, str_eq, string_from_chars, string_views, white_space,
    contains_seq, occurs_at, concat3,
};

verus! {

/// Cookie attributes for a server at `base_url`.
pub open spec fn cookie_attributes(base_url: Seq<char>) -> Seq<char> {
    if starts_with(base_url, "https://"@) {
        "Path=/; HttpOnly; Secure; SameSite=None"@
    } else {
        "Path=/; HttpOnly; SameSite=Lax"@
    }
}

/// Security attributes for `Set-Cookie`: `Secure; SameSite=None` over HTTPS
/// (for the cross-site iframe token flow), `SameSite=Lax` over plain HTTP.
pub fn cookie_attrs(base_url: &str) -> (r: &'static str)
    ensures
        r@ == cookie_attributes(base_url@),
{
    let cs = str_chars(base_url);
    let https = str_chars("https://");
    proof {
        reveal_strlit("https://");
        reveal_strlit("Path=/; HttpOnly; Secure; SameSite=None");
        reveal_strlit("Path=/; HttpOnly; SameSite=Lax");
    }
    if starts_with_chars(cs.as_slice(), https.as_slice()) {
        "Path=/; HttpOnly; Secure; SameSite=None"
    } else {
        "Path=/; HttpOnly; SameSite=Lax"
    }
}

/// The text after an `https://` or `http://` scheme, if it has one.
pub open spec fn after_scheme(s: Seq<char>) -> Option<Seq<char>> {
    if starts_with(s, "https://"@) {
        Some(s.skip(8))
    } else if starts_with(s, "http://"@) {
        Some(s.skip(7))
    } else {
        None
    }
}

/// Whether every character is an ASCII digit.
pub open spec fn digits_only(s: Seq<char>) -> bool {
    forall|i: int| 0 <= i < s.len() ==> is_digit(#[trigger] s[i])
}

/// Characters allowed in a host: ASCII letters, digits, `.` and `-`.
pub open spec fn is_host_char(c: char) -> bool {
    ('a' <= c <= 'z') || ('A' <= c <= 'Z') || ('0' <= c <= '9') || c == '.' || c == '-'
}

/// The host and port of `host[:port]`: split at the last `:` when a
/// non-empty run of digits follows it.
pub open spec fn host_and_port(rest: Seq<char>) -> (Seq<char>, Option<Seq<char>>) {
    let k = last_index_of(rest, ':');
    if k >= 0 && k + 1 < rest.len() && digits_only(rest.subrange(k + 1, rest.len() as int)) {
        (rest.subrange(0, k), Some(rest.subrange(k + 1, rest.len() as int)))
    } else {
        (rest, None)
    }
}

/// An origin `scheme://host[:port]` with an http(s) scheme, a non-empty
/// host of host characters, and a port of at most five digits.
pub open spec fn is_origin(s: Seq<char>) -> bool {
    match after_scheme(s) {
        None => false,
        Some(rest) => {
            let (host, port) = host_and_port(rest);
            &&& rest.len() > 0
            &&& host.len() > 0
            &&& forall|i: int| 0 <= i < host.len() ==> is_host_char(#[trigger] host[i])
            &&& match port {
                Some(p) => p.len() <= 5,
                None => true,
            }
        },
    }
}

fn host_char(c: char) -> (r: bool)
    ensures
        r == is_host_char(c),
{
    ('a' <= c && c <= 'z') || ('A' <= c && c <= 'Z') || ('0' <= c && c <= '9') || c == '.' || c
        == '-'
}

/// Conservative origin validator: `scheme://host[:port]` only, with an
/// ASCII host. Gates what may stand in an inline script.
pub fn is_valid_origin(s: &str) -> (r: bool)
    ensures
        r == is_origin(s@),
{
    let cs = str_chars(s);
    let https = str_chars("https://");
    let http = str_chars("http://");
    proof {
        reveal_strlit("https://");
        reveal_strlit("http://");
    }
    let rest = if starts_with_chars(cs.as_slice(), https.as_slice()) {
        slice_chars(&cs, 8, cs.len())
    } else if starts_with_chars(cs.as_slice(), http.as_slice()) {
        slice_chars(&cs, 7, cs.len())
    } else {
        return false;
    };
    assert(after_scheme(s@) == Some(rest@));
    if rest.len() == 0 {
        return false;
    }
    proof {
        lemma_last_index_of(rest@, ':');
    }
    let mut host_end = rest.len();
    let mut has_port = false;
    match rfind_char(&rest, ':') {
        Some(k) => {
            if k + 1 < rest.len() {
                let mut all = true;
                let mut j = k + 1;
                while j < rest.len()
                    invariant
                        k + 1 <= j <= rest@.len(),
                        all == forall|m: int| k + 1 <= m < j ==> is_digit(#[trigger] rest@[m]),
                    decreases rest@.len() - j,
                {
                    if !('0' <= rest[j] && rest[j] <= '9') {
                        all = false;
                    }
                    j = j + 1;
                }
                assert(all == digits_only(rest@.subrange(k + 1, rest@.len() as int))) by {
                    if !all {
                        let m = choose|m: int| k + 1 <= m < rest@.len() && !is_digit(rest@[m]);
                        assert(!is_digit(rest@.subrange(k + 1, rest@.len() as int)[m - k - 1]));
                    } else {
                        assert forall|i: int|
                            0 <= i < rest@.len() - k - 1 implies is_digit(
                            #[trigger] rest@.subrange(k + 1, rest@.len() as int)[i],
                        ) by {
                            assert(rest@.subrange(k + 1, rest@.len() as int)[i] == rest@[k + 1 + i]);
                        }
                    }
                }
                if all {
                    host_end = k;
                    has_port = true;
                }
            }
        },
        None => {},
    }
    let ghost hp = host_and_port(rest@);
    assert(hp.0 == rest@.subrange(0, host_end as int));
    if host_end == 0 {
        return false;
    }
    let mut i: usize = 0;
    while i < host_end
        invariant
            after_scheme(s@) == Some(rest@),
            hp == host_and_port(rest@),
            rest@.len() > 0,
            host_end <= rest@.len(),
            hp.0 == rest@.subrange(0, host_end as int),
            i <= host_end,
            forall|m: int| 0 <= m < i ==> is_host_char(#[trigger] rest@[m]),
        decreases host_end - i,
    {
        if !host_char(rest[i]) {
            assert(!is_host_char(hp.0[i as int]));
            return false;
        }
        i = i + 1;
    }
    assert forall|m: int| 0 <= m < hp.0.len() implies is_host_char(#[trigger] hp.0[m]) by {
        assert(hp.0[m] == rest@[m]);
    }
    if has_port && rest.len() - host_end - 1 > 5 {
        return false;
    }
    true
}

/// `s` without leading white space.
pub open spec fn trim_start(s: Seq<char>) -> Seq<char>
    decreases s.len(),
{
    if s.len() > 0 && is_white_space(s[0]) {
        trim_start(s.drop_first())
    } else {
        s
    }
}

/// `s` without trailing white space.
pub open spec fn trim_end(s: Seq<char>) -> Seq<char>
    decreases s.len(),
{
    if s.len() > 0 && is_white_space(s.last()) {
        trim_end(s.drop_last())
    } else {
        s
    }
}

/// `s` without leading or trailing white space, as `str::trim` gives it.
pub open spec fn trimmed(s: Seq<char>) -> Seq<char> {
    trim_end(trim_start(s))
}

/// `s` without leading or trailing white space.
pub fn trim_chars(s: &[char]) -> (r: Vec<char>)
    ensures
        r@ == trimmed(s@),
{
    let mut a: usize = 0;
    assert(s@.subrange(0, s@.len() as int) =~= s@);
    while a < s.len() && white_space(s[a])
        invariant
            a <= s@.len(),
            trim_start(s@) == trim_start(s@.subrange(a as int, s@.len() as int)),
        decreases s@.len() - a,
    {
        assert(s@.subrange(a as int, s@.len() as int).drop_first() =~= s@.subrange(
            a + 1,
            s@.len() as int,
        ));
        a = a + 1;
    }
    let ghost t = s@.subrange(a as int, s@.len() as int);
    assert(trim_start(s@) == t);
    let mut b: usize = s.len();
    assert(s@.subrange(a as int, b as int) =~= t);
    while b > a && white_space(s[b - 1])
        invariant
            a <= b <= s@.len(),
            trim_end(t) == trim_end(s@.subrange(a as int, b as int)),
        decreases b,
    {
        assert(s@.subrange(a as int, b as int).drop_last() =~= s@.subrange(a as int, b - 1));
        b = b - 1;
    }
    slice_chars(s, a, b)
}

/// The value of cookie `name` in one `name=value` pair, if the pair names it.
pub open spec fn cookie_in_pair(pair: Seq<char>, name: Seq<char>) -> Option<Seq<char>> {
    let p = trimmed(pair);
    let k = index_of_from(p, '=', 0);
    if k >= p.len() {
        None
    } else if trimmed(p.subrange(0, k)) == name {
        Some(trimmed(p.subrange(k + 1, p.len() as int)))
    } else {
        None
    }
}

/// The value of the first pair that names cookie `name`.
pub open spec fn first_cookie(pairs: Seq<Seq<char>>, name: Seq<char>) -> Option<Seq<char>>
    decreases pairs.len(),
{
    if pairs.len() == 0 {
        None
    } else {
        match cookie_in_pair(pairs[0], name) {
            Some(v) => Some(v),
            None => first_cookie(pairs.drop_first(), name),
        }
    }
}

/// The value of cookie `name` in a `Cookie` header.
pub open spec fn cookie_value(header: Seq<char>, name: Seq<char>) -> Option<Seq<char>> {
    first_cookie(split_on(header, ';'), name)
}

/// The value of cookie `name` in one pair (executable).
fn cookie_in_pair_exec(pair: &[char], name: &[char]) -> (r: Option<Vec<char>>)
    ensures
        match r {
            Some(v) => cookie_in_pair(pair@, name@) == Some(v@),
            None => cookie_in_pair(pair@, name@) is None,
        },
{
    let p = trim_chars(pair);
    proof {
        lemma_index_of_from(p@, '=', 0);
    }
    let mut k: usize = 0;
    while k < p.len() && p[k] != '='
        invariant
            k <= p@.len(),
            forall|j: int| 0 <= j < k ==> p@[j] != '=',
        decreases p@.len() - k,
    {
        k = k + 1;
    }
    assert(k == index_of_from(p@, '=', 0)) by {
        if (k as int) < index_of_from(p@, '=', 0) {
            assert(p@[k as int] != '=');
        }
    }
    if k >= p.len() {
        return None;
    }
    let n = slice_chars(&p, 0, k);
    let tn = trim_chars(&n);
    if tn.len() != name.len() {
        assert(tn@.len() != name@.len());
        return None;
    }
    let mut i: usize = 0;
    while i < tn.len()
        invariant
            p@ == trimmed(pair@),
            k == index_of_from(p@, '=', 0),
            k < p@.len(),
            tn@ == trimmed(p@.subrange(0, k as int)),
            tn@.len() == name@.len(),
            i <= tn@.len(),
            forall|j: int| 0 <= j < i ==> tn@[j] == name@[j],
        decreases tn@.len() - i,
    {
        if tn[i] != name[i] {
            assert(tn@[i as int] != name@[i as int]);
            return None;
        }
        i = i + 1;
    }
    assert(tn@ =~= name@);
    let v = slice_chars(&p, k + 1, p.len());
    Some(trim_chars(&v))
}

/// Extracts the value of cookie `name` from a `Cookie` header: the first
/// `;`-separated pair whose trimmed name matches, its value trimmed.
pub fn extract_cookie(header: &str, cookie_name: &str) -> (r: Option<String>)
    ensures
        match r {
            Some(v) => cookie_value(header@, cookie_name@) == Some(v@),
            None => cookie_value(header@, cookie_name@) is None,
        },
{
    let cs = str_chars(header);
    let name = str_chars(cookie_name);
    let pairs = split_chars(&cs, ';');
    let ghost ps = split_on(cs@, ';');
    let mut i: usize = 0;
    assert(ps.skip(0) =~= ps);
    while i < pairs.len()
        invariant
            pairs@.len() == ps.len(),
            forall|k: int| 0 <= k < pairs@.len() ==> #[trigger] pairs@[k]@ == ps[k],
            ps == split_on(header@, ';'),
            name@ == cookie_name@,
            i <= ps.len(),
            first_cookie(ps, name@) == first_cookie(ps.skip(i as int), name@),
        decreases ps.len() - i,
    {
        assert(ps.skip(i as int)[0] == pairs@[i as int]@);
        assert(ps.skip(i as int).drop_first() =~= ps.skip(i + 1));
        match cookie_in_pair_exec(pairs[i].as_slice(), name.as_slice()) {
            Some(v) => {
                return Some(string_from_chars(&v));
            },
            None => {},
        }
        i = i + 1;
    }
    assert(ps.skip(ps.len() as int).len() == 0);
    None
}

/// `s` with every `</` written `<\/`, so that it cannot close an inline
/// script element.
pub open spec fn script_escaped(s: Seq<char>) -> Seq<char>
    decreases s.len(),
{
    if s.len() < 2 {
        s
    } else if s[0] == '<' && s[1] == '/' {
        seq!['<', '\\', '/'] + script_escaped(s.subrange(2, s.len() as int))
    } else {
        seq![s[0]] + script_escaped(s.drop_first())
    }
}

proof fn lemma_script_escaped_first(s: Seq<char>)
    requires
        s.len() > 0,
    ensures
        script_escaped(s).len() > 0,
        script_escaped(s)[0] == s[0],
{
}

/// Escaping leaves no `</` behind.
pub proof fn lemma_script_escaped_safe(s: Seq<char>)
    ensures
        !contains_seq(script_escaped(s), seq!['<', '/']),
    decreases s.len(),
{
    let e = script_escaped(s);
    let pat = seq!['<', '/'];
    if s.len() < 2 {
        assert forall|i: int| !#[trigger] occurs_at(e, pat, i) by {
            if occurs_at(e, pat, i) {
                assert(e.subrange(i, i + 2)[1] == '/');
                assert(e[i + 1] == '/');
                assert(e[i] == '<');
            }
        }
    } else if s[0] == '<' && s[1] == '/' {
        let rest = s.subrange(2, s.len() as int);
        lemma_script_escaped_safe(rest);
        let er = script_escaped(rest);
        assert forall|i: int| !#[trigger] occurs_at(e, pat, i) by {
            if occurs_at(e, pat, i) {
                assert(e.subrange(i, i + 2)[0] == e[i]);
                assert(e.subrange(i, i + 2)[1] == e[i + 1]);
                if i >= 3 {
                    assert(er.subrange(i - 3, i - 1) =~= e.subrange(i, i + 2));
                    assert(occurs_at(er, pat, i - 3));
                } else if i == 2 {
                    if rest.len() > 0 {
                        lemma_script_escaped_first(rest);
                    }
                    assert(e[2] == '/');
                }
            }
        }
    } else {
        let rest = s.drop_first();
        lemma_script_escaped_safe(rest);
        let er = script_escaped(rest);
        lemma_script_escaped_first(rest);
        assert forall|i: int| !#[trigger] occurs_at(e, pat, i) by {
            if occurs_at(e, pat, i) {
                assert(e.subrange(i, i + 2)[0] == e[i]);
                assert(e.subrange(i, i + 2)[1] == e[i + 1]);
                if i >= 1 {
                    assert(er.subrange(i - 1, i + 1) =~= e.subrange(i, i + 2));
                    assert(occurs_at(er, pat, i - 1));
                } else {
                    assert(e[1] == er[0]);
                    assert(er[0] == s[1]);
                }
            }
        }
    }
}

/// Neutralises HTML parser breakout: writes every `</` as `<\/`, a
/// JSON-equivalent spelling.
pub fn escape_script(s: &str) -> (r: String)
    ensures
        r@ == script_escaped(s@),
{
    let cs = str_chars(s);
    let n = cs.len();
    let mut out = String::new();
    let mut i: usize = 0;
    assert(cs@.subrange(0, n as int) =~= cs@);
    while i < n
        invariant
            n == cs@.len(),
            cs@ == s@,
            i <= n,
            out@ + script_escaped(cs@.subrange(i as int, n as int)) == script_escaped(cs@),
        decreases n - i,
    {
        let ghost rest = cs@.subrange(i as int, n as int);
        if i + 1 < n && cs[i] == '<' && cs[i + 1] == '/' {
            assert(rest.subrange(2, rest.len() as int) =~= cs@.subrange(i + 2, n as int));
            push_char(&mut out, '<');
            push_char(&mut out, '\\');
            push_char(&mut out, '/');
            assert(out@ + script_escaped(cs@.subrange(i + 2, n as int)) =~= script_escaped(cs@));
            i = i + 2;
        } else {
            if i + 1 < n {
                assert(rest.drop_first() =~= cs@.subrange(i + 1, n as int));
            } else {
                assert(cs@.subrange(i + 1, n as int).len() == 0);
                assert(script_escaped(rest) == rest);
            }
            push_char(&mut out, cs[i]);
            assert(out@ + script_escaped(cs@.subrange(i + 1, n as int)) =~= script_escaped(cs@));
            i = i + 1;
        }
    }
    assert(cs@.subrange(n as int, n as int).len() == 0);
    assert(out@ + script_escaped(cs@.subrange(n as int, n as int)) =~= out@);
    out
}

/// The page the token service answers with: an inline script that posts
/// `body_json` to the opener at `target_origin`, both with `</` neutralised.
pub open spec fn token_page_html(body_json: Seq<char>, target_origin: Seq<char>) -> Seq<char> {
    "<!DOCTYPE html>\n<html><head><meta charset=\"utf-8\"></head><body>\n<script>\n  window.parent.postMessage("@
        + script_escaped(body_json) + ", \""@ + script_escaped(target_origin)
        + "\");\n</script>\n</body></html>"@
}

/// Render the token service's postMessage page for a serialised reply body.
pub fn token_page(body_json: &str, target_origin: &str) -> (r: String)
    ensures
        r@ == token_page_html(body_json@, target_origin@),
{
    let mut page = String::from_str(
        "<!DOCTYPE html>\n<html><head><meta charset=\"utf-8\"></head><body>\n<script>\n  window.parent.postMessage(",
    );
    let body = escape_script(body_json);
    page.append(body.as_str());
    page.append(", \"");
    let origin = escape_script(target_origin);
    page.append(origin.as_str());
    page.append("\");\n</script>\n</body></html>");
    page
}


/// The notes and profiles of token service failures.
pub open spec fn invalid_origin_note() -> Seq<char> {
    "Missing, empty, or malformed origin parameter."@
}

pub open spec fn unavailable_note() -> Seq<char> {
    "Auth is not enabled on this server."@
}

pub open spec fn missing_session_note() -> Seq<char> {
    "No valid session cookie found. Please log in first."@
}

/// How the token service answers: an access token posted to the validated
/// origin, or an `AuthAccessTokenError2`.
#[derive(Debug)]
pub enum TokenReply {
    Issued { target_origin: String, token: String, expires_in: u64 },
    Failed { target_origin: String, profile: String, note: String },
}

/// Whether `r` is the failure of the given profile and note posted to
/// `target`.
pub open spec fn is_failure(r: TokenReply, target: Seq<char>, profile: Seq<char>, note: Seq<char>) -> bool {
    match r {
        TokenReply::Failed { target_origin, profile: p, note: n } => target_origin@ == target
            && p@ == profile && n@ == note,
        _ => false,
    }
}

fn failure(target: &str, profile: &str, note: &str) -> (r: TokenReply)
    ensures
        is_failure(r, target@, profile@, note@),
{
    TokenReply::Failed {
        target_origin: String::from_str(target),
        profile: String::from_str(profile),
        note: String::from_str(note),
    }
}

/// The token service's answer when no auth store is configured: an origin
/// that is malformed or not on the allowlist is `invalidOrigin` (posted to
/// `*`), any other is `unavailable`.
pub fn token_reply_without_store(origin: Option<&str>, allowed_origins: &Vec<String>) -> (r: TokenReply)
    ensures
        match origin {
            Some(o) => if origin_allowed(o@, string_views(allowed_origins@)) {
                is_failure(r, o@, "unavailable"@, unavailable_note())
            } else {
                is_failure(r, "*"@, "invalidOrigin"@, invalid_origin_note())
            },
            None => is_failure(r, "*"@, "invalidOrigin"@, invalid_origin_note()),
        },
{
    match origin {
        Some(o) => {
            if is_origin_allowed(o, allowed_origins) {
                failure(o, "unavailable", "Auth is not enabled on this server.")
            } else {
                failure("*", "invalidOrigin", "Missing, empty, or malformed origin parameter.")
            }
        },
        None => failure("*", "invalidOrigin", "Missing, empty, or malformed origin parameter."),
    }
}

/// The session a `Cookie` header carries under `cookie_name`, if any.
pub open spec fn session_of(cookie_header: Option<Seq<char>>, cookie_name: Seq<char>) -> Option<Seq<char>> {
    match cookie_header {
        Some(h) => cookie_value(h, cookie_name),
        None => None,
    }
}

/// Whether an origin may receive tokens: it is well formed and, when an
/// allowlist is configured, on it.
pub open spec fn origin_allowed(o: Seq<char>, allowed: Seq<Seq<char>>) -> bool {
    is_origin(o) && (allowed.len() == 0 || allowed.contains(o))
}

fn is_origin_allowed(o: &str, allowed: &Vec<String>) -> (r: bool)
    ensures
        r == origin_allowed(o@, string_views(allowed@)),
{
    if !is_valid_origin(o) {
        return false;
    }
    if allowed.len() == 0 {
        return true;
    }
    let mut i: usize = 0;
    while i < allowed.len()
        invariant
            i <= allowed@.len(),
            is_origin(o@),
            forall|k: int| 0 <= k < i ==> allowed@[k]@ != o@,
        decreases allowed@.len() - i,
    {
        if str_eq(allowed[i].as_str(), o) {
            assert(string_views(allowed@)[i as int] == o@);
            return true;
        }
        i = i + 1;
    }
    assert(!string_views(allowed@).contains(o@)) by {
        if string_views(allowed@).contains(o@) {
            let k = choose|k: int| 0 <= k < string_views(allowed@).len() && string_views(allowed@)[k] == o@;
            assert(allowed@[k]@ == o@);
        }
    }
    false
}

/// Whether the token service answered `r`, changing the store from
/// `before` to `after`, for a request from `origin` carrying session
/// `session`.
pub open spec fn token_replied(
    r: TokenReply,
    origin: Option<Seq<char>>,
    allowed: Seq<Seq<char>>,
    session: Option<Seq<char>>,
    before: AuthView,
    after: AuthView,
) -> bool {
    match origin {
        Some(o) => if !origin_allowed(o, allowed) {
            is_failure(r, "*"@, "invalidOrigin"@, invalid_origin_note()) && after.tokens
                == before.tokens
        } else {
            match session {
                Some(id) => if before.sessions.contains_key(id) {
                    match r {
                        TokenReply::Issued { target_origin, token, expires_in } => {
                            &&& target_origin@ == o
                            &&& expires_in == before.ttl
                            &&& after.tokens == before.tokens.insert(token@, id)
                        },
                        _ => false,
                    }
                } else {
                    is_failure(r, o, "missingAspect"@, missing_session_note()) && after.tokens
                        == before.tokens
                },
                None => is_failure(r, o, "missingAspect"@, missing_session_note()) && after.tokens
                    == before.tokens,
            }
        },
        None => is_failure(r, "*"@, "invalidOrigin"@, invalid_origin_note()) && after.tokens
            == before.tokens,
    }
}

/// The token service: an origin that is malformed, or missing from a
/// configured allowlist, is `invalidOrigin` (posted to `*`); a request whose
/// session cookie names a live session gets a fresh token for it, posted to
/// the origin; any other is `missingAspect`.
pub fn token_reply(
    origin: Option<&str>,
    allowed_origins: &Vec<String>,
    store: &mut AuthStore,
    cookie_header: Option<&str>,
    cookie_name: &str,
) -> (r: TokenReply)
    requires
        old(store).wf(),
    ensures
        final(store).wf(),
        final(store).view().sessions == old(store).view().sessions,
        final(store).view().ttl == old(store).view().ttl,
        token_replied(
            r,
            match origin {
                Some(o) => Some(o@),
                None => None,
            },
            string_views(allowed_origins@),
            session_of(
                match cookie_header {
                    Some(h) => Some(h@),
                    None => None,
                },
                cookie_name@,
            ),
            old(store).view(),
            final(store).view(),
        ),
{
    let o = match origin {
        Some(o) => {
            if !is_origin_allowed(o, allowed_origins) {
                return failure("*", "invalidOrigin", "Missing, empty, or malformed origin parameter.");
            }
            o
        },
        None => {
            return failure("*", "invalidOrigin", "Missing, empty, or malformed origin parameter.");
        },
    };
    let session = match cookie_header {
        Some(h) => extract_cookie(h, cookie_name),
        None => None,
    };
    match session {
        Some(sid) => match store.issue_token(sid.as_str()) {
            Some((token, expires_in)) => TokenReply::Issued {
                target_origin: String::from_str(o),
                token,
                expires_in,
            },
            None => failure(o, "missingAspect", "No valid session cookie found. Please log in first."),
        },
        None => failure(o, "missingAspect", "No valid session cookie found. Please log in first."),
    }
}

/// The bearer token of an `Authorization` header.
pub open spec fn bearer_of(authorization: Seq<char>) -> Option<Seq<char>> {
    if starts_with(authorization, "Bearer "@) {
        Some(authorization.skip(7))
    } else {
        None
    }
}

/// The token after `Bearer ` in an `Authorization` header.
pub fn bearer_token(authorization: &str) -> (r: Option<String>)
    ensures
        match r {
            Some(t) => bearer_of(authorization@) == Some(t@),
            None => bearer_of(authorization@) is None,
        },
{
    let cs = str_chars(authorization);
    let prefix = str_chars("Bearer ");
    proof {
        reveal_strlit("Bearer ");
    }
    if starts_with_chars(cs.as_slice(), prefix.as_slice()) {
        let rest = slice_chars(&cs, 7, cs.len());
        Some(string_from_chars(&rest))
    } else {
        None
    }
}

/// What the probe service reports: the would-be access status, and a
/// heading and note when access is refused.
#[derive(Debug)]
pub struct ProbeOutcome {
    pub status: u16,
    pub heading: Option<String>,
    pub note: Option<String>,
    /// The degraded image offered instead, when access is refused.
    pub substitute: Option<String>,
}

/// Whether `p` reports `status` with the given heading and note.
pub open spec fn reports(p: ProbeOutcome, status: u16, heading: Seq<char>, note: Seq<char>) -> bool {
    p.status == status && (match p.heading {
        Some(h) => h@ == heading,
        None => false,
    }) && (match p.note {
        Some(n) => n@ == note,
        None => false,
    })
}

fn report(status: u16, heading: &str, note: &str) -> (p: ProbeOutcome)
    ensures
        reports(p, status, heading@, note@),
        p.substitute is None,
{
    ProbeOutcome {
        status,
        heading: Some(String::from_str(heading)),
        note: Some(String::from_str(note)),
        substitute: None,
    }
}

/// What the probe service reports, before any substitute: 503 when no auth
/// store is configured, 401 without a token (`validity` none) or with a
/// token that did not validate, 200 with one that did.
fn probe_status(configured: bool, validity: Option<bool>) -> (p: ProbeOutcome)
    ensures
        is_probe_status(p, configured, validity),
        p.substitute is None,
{
    if !configured {
        report(
            503,
            "Authentication unavailable",
            "The authentication service is not configured on this server.",
        )
    } else {
        match validity {
            None => report(401, "Authentication required", "Please log in to access this resource."),
            Some(true) => ProbeOutcome { status: 200, heading: None, note: None, substitute: None },
            Some(false) => report(
                401,
                "Authentication expired",
                "Your token is invalid or expired. Please log in again.",
            ),
        }
    }
}

/// Whether `p` carries the status, heading and note the probe owes: 503 when
/// no auth store is configured, 401 "required" without a token, 200 with no
/// heading or note for a token that validated, 401 "expired" for one that
/// did not.
pub open spec fn is_probe_status(p: ProbeOutcome, configured: bool, validity: Option<bool>) -> bool {
    if !configured {
        reports(
            p,
            503,
            "Authentication unavailable"@,
            "The authentication service is not configured on this server."@,
        )
    } else {
        match validity {
            None => reports(p, 401, "Authentication required"@, "Please log in to access this resource."@),
            Some(true) => p.status == 200 && p.heading is None && p.note is None,
            Some(false) => reports(
                p,
                401,
                "Authentication expired"@,
                "Your token is invalid or expired. Please log in again."@,
            ),
        }
    }
}

/// The substitute image of a resource: `{base}/{id}/full/{size}/0/default.jpg`.
pub open spec fn substitute_uri(base_url: Seq<char>, resource_id: Seq<char>, size: Seq<char>) -> Seq<char> {
    base_url + "/"@ + resource_id + "/full/"@ + size + "/0/default.jpg"@
}

/// Whether `p` offers the substitute exactly when access is refused and a
/// substitute size is configured.
pub open spec fn offers_substitute(
    p: ProbeOutcome,
    base_url: Seq<char>,
    resource_id: Seq<char>,
    substitute_size: Seq<char>,
) -> bool {
    match p.substitute {
        Some(u) => p.status != 200 && substitute_size.len() > 0 && u@ == substitute_uri(
            base_url,
            resource_id,
            substitute_size,
        ),
        None => p.status == 200 || substitute_size.len() == 0,
    }
}

/// The probe's report for `resource_id`, given whether an auth store is
/// configured and whether the presented token validated (none when no token
/// was presented); a refusal offers the configured substitute size of the
/// resource, when there is one.
pub fn probe_reply(
    configured: bool,
    validity: Option<bool>,
    base_url: &str,
    resource_id: &str,
    substitute_size: &str,
) -> (p: ProbeOutcome)
    ensures
        is_probe_status(p, configured, validity),
        offers_substitute(p, base_url@, resource_id@, substitute_size@),
{
    let mut p = probe_status(configured, validity);
    if p.status != 200 && !substitute_size.is_empty() {
        let mut u = concat3(base_url, "/", resource_id);
        u.append("/full/");
        u.append(substitute_size);
        u.append("/0/default.jpg");
        p.substitute = Some(u);
    }
    p
}

/// What the probe service reports for `resource_id`: 503 when no auth store
/// is configured, 401 without a token or with a token that does not
/// validate, 200 with one that does. A token validates only if it is usable;
/// its age is read from the clock, and with a token lifetime of `u64::MAX`
/// every usable token validates. A refusal offers the configured substitute
/// size of the resource, when there is one.
pub fn probe_outcome(
    store: Option<&AuthStore>,
    token: Option<&str>,
    base_url: &str,
    resource_id: &str,
    substitute_size: &str,
) -> (p: ProbeOutcome)
    requires
        store matches Some(s) ==> s.wf(),
    ensures
        store is None ==> reports(
            p,
            503,
            "Authentication unavailable"@,
            "The authentication service is not configured on this server."@,
        ),
        store is Some && token is None ==> reports(
            p,
            401,
            "Authentication required"@,
            "Please log in to access this resource."@,
        ),
        match (store, token) {
            (Some(s), Some(t)) => {
                &&& (p.status == 200 && p.heading is None && p.note is None && token_usable(
                    s.view(),
                    t@,
                )) || reports(
                    p,
                    401,
                    "Authentication expired"@,
                    "Your token is invalid or expired. Please log in again."@,
                )
                &&& !token_usable(s.view(), t@) ==> p.status == 401
                &&& s.view().ttl == u64::MAX && token_usable(s.view(), t@) ==> p.status == 200
            },
            _ => true,
        },
        offers_substitute(p, base_url@, resource_id@, substitute_size@),
{
    let validity = match (store, token) {
        (Some(s), Some(t)) => Some(s.validate_token(t)),
        _ => None,
    };
    probe_reply(store.is_some(), validity, base_url, resource_id, substitute_size)
}

/// The non-empty segments of a request path.
pub open spec fn path_segments(path: Seq<char>) -> Seq<Seq<char>> {
    split_on(path, '/').filter(|p: Seq<char>| p.len() > 0)
}

/// The non-empty segments of a request path, in order.
pub fn path_segments_exec(path: &str) -> (r: Vec<Vec<char>>)
    ensures
        r@.len() == path_segments(path@).len(),
        forall|k: int| 0 <= k < r@.len() ==> #[trigger] r@[k]@ == path_segments(path@)[k],
{
    let cs = str_chars(path);
    let parts = split_chars(&cs, '/');
    let ghost all = split_on(path@, '/');
    let mut out: Vec<Vec<char>> = Vec::new();
    let mut i: usize = 0;
    while i < parts.len()
        invariant
            parts@.len() == all.len(),
            all == split_on(path@, '/'),
            forall|k: int| 0 <= k < parts@.len() ==> #[trigger] parts@[k]@ == all[k],
            i <= all.len(),
            out@.len() == all.take(i as int).filter(|p: Seq<char>| p.len() > 0).len(),
            forall|k: int|
                0 <= k < out@.len() ==> #[trigger] out@[k]@ == all.take(i as int).filter(
                    |p: Seq<char>| p.len() > 0,
                )[k],
        decreases all.len() - i,
    {
        let ghost f = |p: Seq<char>| p.len() > 0;
        assert(all.take(i + 1).drop_last() =~= all.take(i as int));
        assert(all.take(i + 1).last() == all[i as int]);
        assert(all.take(i + 1).filter(f) == (if f(all[i as int]) {
            all.take(i as int).filter(f).push(all[i as int])
        } else {
            all.take(i as int).filter(f)
        })) by {
            reveal(Seq::filter);
        }
        if parts[i].len() > 0 {
            let piece = slice_chars(&parts[i], 0, parts[i].len());
            assert(piece@ =~= parts@[i as int]@);
            out.push(piece);
        }
        i = i + 1;
    }
    assert(all.take(all.len() as int) =~= all);
    out
}

/// Routes that never serve an image.
pub open spec fn is_service_route(seg: Seq<char>) -> bool {
    seg == "auth"@ || seg == "manifest"@ || seg == "collection"@ || seg == "search"@ || seg
        == "autocomplete"@ || seg == "content-state"@ || seg == "activity"@
}

/// The image a request path asks for: its first segment, unless the path
/// is empty or belongs to another service.
pub open spec fn requested_image(path: Seq<char>) -> Option<Seq<char>> {
    let segs = path_segments(path);
    if segs.len() == 0 || is_service_route(segs[0]) {
        None
    } else {
        Some(segs[0])
    }
}

fn is_service_route_exec(seg: &Vec<char>) -> (r: bool)
    ensures
        r == is_service_route(seg@),
{
    let s = string_from_chars(seg);
    str_eq(s.as_str(), "auth") || str_eq(s.as_str(), "manifest") || str_eq(s.as_str(), "collection")
        || str_eq(s.as_str(), "search") || str_eq(s.as_str(), "autocomplete") || str_eq(
        s.as_str(),
        "content-state",
    ) || str_eq(s.as_str(), "activity")
}

/// The image a request path asks for, if the access check applies to it.
pub fn image_identifier(path: &str) -> (r: Option<String>)
    ensures
        match r {
            Some(id) => requested_image(path@) == Some(id@),
            None => requested_image(path@) is None,
        },
{
    let segs = path_segments_exec(path);
    if segs.len() == 0 || is_service_route_exec(&segs[0]) {
        None
    } else {
        Some(string_from_chars(&segs[0]))
    }
}

/// Whether `dir` is one of the protected directories.
pub open spec fn listed(dirs: Seq<Seq<char>>, dir: Seq<char>) -> bool {
    dirs.contains(dir)
}

fn is_listed(dirs: &Vec<String>, dir: &str) -> (r: bool)
    ensures
        r == listed(string_views(dirs@), dir@),
{
    let mut i: usize = 0;
    while i < dirs.len()
        invariant
            i <= dirs@.len(),
            forall|k: int| 0 <= k < i ==> dirs@[k]@ != dir@,
        decreases dirs@.len() - i,
    {
        if str_eq(dirs[i].as_str(), dir) {
            assert(string_views(dirs@)[i as int] == dir@);
            return true;
        }
        i = i + 1;
    }
    assert(!string_views(dirs@).contains(dir@)) by {
        if string_views(dirs@).contains(dir@) {
            let k = choose|k: int| 0 <= k < string_views(dirs@).len() && string_views(dirs@)[k] == dir@;
            assert(dirs@[k]@ == dir@);
        }
    }
    false
}

/// Whether an image in directory `dir` needs authorization: auth is on and
/// the directory is protected.
pub open spec fn protected_image(auth: AuthConfig, dir: Option<Seq<char>>) -> bool {
    auth.enabled && match dir {
        Some(d) => listed(string_views(auth.protected_dirs@), d),
        None => false,
    }
}

/// Whether an image kept in directory `dir` requires authorization.
pub fn is_protected(auth: &AuthConfig, dir: Option<&str>) -> (r: bool)
    ensures
        r == protected_image(
            *auth,
            match dir {
                Some(d) => Some(d@),
                None => None,
            },
        ),
{
    if !auth.enabled {
        return false;
    }
    match dir {
        Some(d) => is_listed(&auth.protected_dirs, d),
        None => false,
    }
}

/// The text of bytes decoded as UTF-8 with invalid sequences replaced, as
/// `String::from_utf8_lossy` gives it.
pub uninterp spec fn utf8_lossy(bytes: Seq<u8>) -> Seq<char>;

/// Decodes UTF-8, replacing invalid sequences with U+FFFD; wraps
/// `String::from_utf8_lossy`, which decodes valid UTF-8 exactly.
#[verifier::external_body]
fn from_utf8_lossy(bytes: &[u8]) -> (r: String)
    ensures
        r@ == utf8_lossy(bytes@),
        valid_utf8(bytes@) ==> r@ == decode_utf8(bytes@),
{
    String::from_utf8_lossy(bytes).into_owned()
}

/// Whether a request path asks for the substitute size of an image: a full
/// image request (`{id}/full/{size}/{rotation}/{quality.format}`) whose
/// size, percent-decoded, is the configured substitute size.
pub open spec fn asks_substitute(path: Seq<char>, substitute_size: Seq<char>) -> bool {
    let segs = path_segments(path);
    substitute_size.len() > 0 && segs.len() == 5 && segs[1] == "full"@ && utf8_lossy(
        lenient_decode(encode_utf8(segs[2])),
    ) == substitute_size
}

/// Whether a request is for the degraded substitute image, which stays
/// reachable without authorization.
pub fn substitute_exempt(path: &str, substitute_size: &str) -> (r: bool)
    ensures
        r == asks_substitute(path@, substitute_size@),
{
    if substitute_size.is_empty() {
        return false;
    }
    let segs = path_segments_exec(path);
    if segs.len() != 5 {
        return false;
    }
    let s1 = string_from_chars(&segs[1]);
    if !str_eq(s1.as_str(), "full") {
        return false;
    }
    let raw = string_from_chars(&segs[2]);
    let decoded_bytes = lenient_percent_decode(raw.as_str().as_bytes());
    let decoded = from_utf8_lossy(decoded_bytes.as_slice());
    str_eq(decoded.as_str(), substitute_size)
}

/// Whether the access check lets a request through: anything that is not
/// an image request, anything while auth is off, images outside protected
/// directories, the substitute size, and requests carrying a cookie of a
/// live session.
pub open spec fn access_granted(
    path: Seq<char>,
    auth: AuthConfig,
    dir: Option<Seq<char>>,
    sessions: Option<Map<Seq<char>, Seq<char>>>,
    cookie_header: Option<Seq<char>>,
) -> bool {
    requested_image(path) is None || !protected_image(auth, dir) || asks_substitute(
        path,
        auth.substitute_size@,
    ) || match (sessions, session_of(cookie_header, auth.cookie_name@)) {
        (Some(live), Some(sid)) => live.contains_key(sid),
        _ => false,
    }
}

/// The name of the session cookie, as handed to the access check.
#[derive(Clone)]
pub struct CookieName(pub String);

/// The access check in front of image requests. `dir` is the directory the
/// storage keeps the requested image in; `store` is absent when auth has no
/// session store. A `false` answer is a 401.
pub fn check_access(
    path: &str,
    auth: &AuthConfig,
    dir: Option<&str>,
    store: Option<&AuthStore>,
    cookie_header: Option<&str>,
) -> (r: bool)
    requires
        store matches Some(s) ==> s.wf(),
    ensures
        r == access_granted(
            path@,
            *auth,
            match dir {
                Some(d) => Some(d@),
                None => None,
            },
            match store {
                Some(s) => Some(s.view().sessions),
                None => None,
            },
            match cookie_header {
                Some(h) => Some(h@),
                None => None,
            },
        ),
{
    if image_identifier(path).is_none() {
        return true;
    }
    if !is_protected(auth, dir) {
        return true;
    }
    if substitute_exempt(path, auth.substitute_size.as_str()) {
        return true;
    }
    let session = match cookie_header {
        Some(h) => extract_cookie(h, auth.cookie_name.as_str()),
        None => None,
    };
    match (store, session) {
        (Some(s), Some(sid)) => s.validate_session(sid.as_str()).is_some(),
        _ => false,
    }
}

/// Whether a user name and password match a configured user.
pub open spec fn credentials_match(users: Seq<UserCredential>, username: Seq<char>, password: Seq<char>) -> bool {
    exists|i: int|
        0 <= i < users.len() && #[trigger] users[i].username@ == username && users[i].password@
            == password
}

/// Whether the login form's user name and password match a configured user.
pub fn credentials_valid(users: &Vec<UserCredential>, username: &str, password: &str) -> (r: bool)
    ensures
        r == credentials_match(users@, username@, password@),
{
    let mut i: usize = 0;
    while i < users.len()
        invariant
            i <= users@.len(),
            forall|j: int|
                0 <= j < i ==> !(#[trigger] users@[j].username@ == username@ && users@[j].password@
                    == password@),
        decreases users@.len() - i,
    {
        if str_eq(users[i].username.as_str(), username) && str_eq(users[i].password.as_str(), password) {
            return true;
        }
        i = i + 1;
    }
    false
}


/// The `Set-Cookie` value that opens a session: `{name}={id}; {attributes}`.
pub fn session_cookie(cookie_name: &str, session_id: &str, base_url: &str) -> (r: String)
    ensures
        r@ == cookie_name@ + "="@ + session_id@ + "; "@ + cookie_attributes(base_url@),
{
    let mut c = String::from_str(cookie_name);
    c.append("=");
    c.append(session_id);
    c.append("; ");
    c.append(cookie_attrs(base_url));
    c
}

/// The `Set-Cookie` value that clears a session: `{name}=; {attributes}; Max-Age=0`.
pub fn logout_cookie(cookie_name: &str, base_url: &str) -> (r: String)
    ensures
        r@ == cookie_name@ + "=; "@ + cookie_attributes(base_url@) + "; Max-Age=0"@,
{
    let mut c = String::from_str(cookie_name);
    c.append("=; ");
    c.append(cookie_attrs(base_url));
    c.append("; Max-Age=0");
    c
}

} // verus!
