//! IIIF Authorization Flow 2.0: the session and token store, origin and
//! cookie handling, and the decisions of the token, probe and access checks.
use vstd::prelude::*;

use crate::text::{
    ends_with, hex_seq, hex_string, is_white_space, last_index_of, lemma_last_index_of,
    rfind_char, slice_chars, split_chars, split_on, starts_with, starts_with_chars, str_chars,
    str_eq, string_from_chars, white_space,
};

verus! {

/// A point in time, as the monotonic clock reads it.
#[verifier::external_type_specification]
#[verifier::external_body]
pub struct ExInstant(std::time::Instant);

/// The current instant; wraps `Instant::now`.
#[verifier::external_body]
fn now() -> std::time::Instant {
    std::time::Instant::now()
}

/// Whole seconds elapsed since `t`; wraps `Instant::elapsed` and
/// `Duration::as_secs`. What it returns depends on the clock.
#[verifier::external_body]
fn elapsed_secs(t: &std::time::Instant) -> u64 {
    t.elapsed().as_secs()
}

/// Sixteen random bytes; wraps `rand::random::<[u8; 16]>()`.
#[verifier::external_body]
fn random_bytes() -> (r: Vec<u8>)
    ensures
        r@.len() == 16,
{
    rand::random::<[u8; 16]>().to_vec()
}

/// A fresh random id: sixteen random bytes in lowercase hex.
fn generate_random_id() -> (r: String)
    ensures
        exists|b: Seq<u8>| b.len() == 16 && r@ == hex_seq(b),
        r@.len() == 32,
{
    let b = random_bytes();
    hex_string(&b)
}

/// A session: its id, the user it belongs to, and when it began.
struct SessionInfo {
    id: String,
    username: String,
    created: std::time::Instant,
}

/// An access token: its value, the session it was issued for, and when.
struct TokenInfo {
    token: String,
    session_id: String,
    created: std::time::Instant,
}

/// In-memory store for sessions and access tokens.
///
/// Sessions are created when a user logs in via the access service.
/// Tokens are issued by the token service and reference a session.
pub struct AuthStore {
    sessions: Vec<SessionInfo>,
    tokens: Vec<TokenInfo>,
    token_ttl_secs: u64,
}

/// The live sessions of a list, by id.
spec fn session_map(s: Seq<SessionInfo>) -> Map<Seq<char>, Seq<char>>
    decreases s.len(),
{
    if s.len() == 0 {
        Map::empty()
    } else {
        session_map(s.drop_last()).insert(s.last().id@, s.last().username@)
    }
}

/// The issued tokens of a list, each to the session it was issued for.
spec fn token_map(t: Seq<TokenInfo>) -> Map<Seq<char>, Seq<char>>
    decreases t.len(),
{
    if t.len() == 0 {
        Map::empty()
    } else {
        token_map(t.drop_last()).insert(t.last().token@, t.last().session_id@)
    }
}

spec fn distinct_sessions(s: Seq<SessionInfo>) -> bool {
    forall|i: int, j: int| 0 <= i < j < s.len() ==> #[trigger] s[i].id@ != #[trigger] s[j].id@
}

spec fn distinct_tokens(t: Seq<TokenInfo>) -> bool {
    forall|i: int, j: int| 0 <= i < j < t.len() ==> #[trigger] t[i].token@ != #[trigger] t[j].token@
}

proof fn lemma_session_map(s: Seq<SessionInfo>)
    requires
        distinct_sessions(s),
    ensures
        forall|k: Seq<char>|
            #[trigger] session_map(s).contains_key(k) <==> exists|i: int|
                0 <= i < s.len() && s[i].id@ == k,
        forall|i: int| 0 <= i < s.len() ==> #[trigger] session_map(s)[s[i].id@] == s[i].username@,
    decreases s.len(),
{
    if s.len() > 0 {
        let p = s.drop_last();
        let last = s[s.len() - 1];
        lemma_session_map(p);
        assert(session_map(s) == session_map(p).insert(last.id@, last.username@));
        assert forall|k: Seq<char>| #[trigger] session_map(s).contains_key(k) implies exists|i: int|
            0 <= i < s.len() && s[i].id@ == k by {
            if k == last.id@ {
                assert(s[s.len() - 1].id@ == k);
            } else {
                assert(session_map(p).contains_key(k));
                let i = choose|i: int| 0 <= i < p.len() && p[i].id@ == k;
                assert(s[i] == p[i]);
            }
        }
        assert forall|k: Seq<char>| (exists|i: int| 0 <= i < s.len() && s[i].id@ == k) implies #[trigger] session_map(
            s,
        ).contains_key(k) by {
            let i = choose|i: int| 0 <= i < s.len() && s[i].id@ == k;
            if i < s.len() - 1 {
                assert(p[i] == s[i]);
                assert(session_map(p).contains_key(k));
            }
        }
        assert forall|i: int| 0 <= i < s.len() implies #[trigger] session_map(s)[s[i].id@]
            == s[i].username@ by {
            if i < s.len() - 1 {
                assert(p[i] == s[i]);
                assert(s[i].id@ != last.id@);
            }
        }
    }
}

proof fn lemma_token_map(s: Seq<TokenInfo>)
    requires
        distinct_tokens(s),
    ensures
        forall|k: Seq<char>|
            #[trigger] token_map(s).contains_key(k) <==> exists|i: int|
                0 <= i < s.len() && s[i].token@ == k,
        forall|i: int| 0 <= i < s.len() ==> #[trigger] token_map(s)[s[i].token@] == s[i].session_id@,
    decreases s.len(),
{
    if s.len() > 0 {
        let p = s.drop_last();
        let last = s[s.len() - 1];
        lemma_token_map(p);
        assert(token_map(s) == token_map(p).insert(last.token@, last.session_id@));
        assert forall|k: Seq<char>| #[trigger] token_map(s).contains_key(k) implies exists|i: int|
            0 <= i < s.len() && s[i].token@ == k by {
            if k == last.token@ {
                assert(s[s.len() - 1].token@ == k);
            } else {
                assert(token_map(p).contains_key(k));
                let i = choose|i: int| 0 <= i < p.len() && p[i].token@ == k;
                assert(s[i] == p[i]);
            }
        }
        assert forall|k: Seq<char>| (exists|i: int| 0 <= i < s.len() && s[i].token@ == k) implies #[trigger] token_map(
            s,
        ).contains_key(k) by {
            let i = choose|i: int| 0 <= i < s.len() && s[i].token@ == k;
            if i < s.len() - 1 {
                assert(p[i] == s[i]);
                assert(token_map(p).contains_key(k));
            }
        }
        assert forall|i: int| 0 <= i < s.len() implies #[trigger] token_map(s)[s[i].token@]
            == s[i].session_id@ by {
            if i < s.len() - 1 {
                assert(p[i] == s[i]);
                assert(s[i].token@ != last.token@);
            }
        }
    }
}

/// The store's state: live sessions (id to user name), issued tokens (token
/// to session id), and the token lifetime in seconds.
pub struct AuthView {
    pub sessions: Map<Seq<char>, Seq<char>>,
    pub tokens: Map<Seq<char>, Seq<char>>,
    pub ttl: u64,
}

/// Whether a token can still open a protected resource, time aside: it was
/// issued and its session is still live.
pub open spec fn token_usable(v: AuthView, token: Seq<char>) -> bool {
    v.tokens.contains_key(token) && v.sessions.contains_key(v.tokens[token])
}

/// Whether a token of the given age is fresh under a lifetime.
pub open spec fn is_fresh(age_secs: u64, ttl: u64) -> bool {
    age_secs <= ttl
}

/// Whether a token of the given age is fresh under a lifetime.
pub fn token_fresh(age_secs: u64, ttl: u64) -> (r: bool)
    ensures
        r == is_fresh(age_secs, ttl),
{
    age_secs <= ttl
}

/// The tokens of `ts` whose age (`ages`, position by position) is within
/// `ttl`, in order.
spec fn fresh_tokens(ts: Seq<TokenInfo>, ages: Seq<u64>, ttl: u64) -> Seq<TokenInfo>
    decreases ts.len(),
{
    if ts.len() == 0 {
        Seq::empty()
    } else {
        let rest = fresh_tokens(ts.drop_last(), ages.drop_last(), ttl);
        if is_fresh(ages.last(), ttl) {
            rest.push(ts.last())
        } else {
            rest
        }
    }
}

proof fn lemma_fresh_tokens(ts: Seq<TokenInfo>, ages: Seq<u64>, ttl: u64)
    requires
        ages.len() == ts.len(),
    ensures
        forall|x: TokenInfo| #[trigger] fresh_tokens(ts, ages, ttl).contains(x) <==> exists|k: int|
            0 <= k < ts.len() && ts[k] == x && is_fresh(ages[k], ttl),
        distinct_tokens(ts) ==> distinct_tokens(fresh_tokens(ts, ages, ttl)),
    decreases ts.len(),
{
    if ts.len() > 0 {
        let p = ts.drop_last();
        let pa = ages.drop_last();
        lemma_fresh_tokens(p, pa, ttl);
        let rest = fresh_tokens(p, pa, ttl);
        let f = fresh_tokens(ts, ages, ttl);
        let n = ts.len() - 1;
        assert forall|x: TokenInfo| #[trigger] f.contains(x) <==> exists|k: int|
            0 <= k < ts.len() && ts[k] == x && is_fresh(ages[k], ttl) by {
            if rest.contains(x) {
                let k = choose|k: int| 0 <= k < p.len() && p[k] == x && is_fresh(pa[k], ttl);
                assert(ts[k] == x && ages[k] == pa[k]);
            }
            if exists|k: int| 0 <= k < ts.len() && ts[k] == x && is_fresh(ages[k], ttl) {
                let k = choose|k: int| 0 <= k < ts.len() && ts[k] == x && is_fresh(ages[k], ttl);
                if k < n {
                    assert(p[k] == x && pa[k] == ages[k]);
                    assert(rest.contains(x));
                    let a = choose|a: int| 0 <= a < rest.len() && rest[a] == x;
                    if is_fresh(ages.last(), ttl) {
                        assert(f[a] == x);
                    }
                } else {
                    assert(f[f.len() - 1] == x);
                }
            }
            if f.contains(x) && is_fresh(ages.last(), ttl) && x != ts.last() {
                let a = choose|a: int| 0 <= a < f.len() && f[a] == x;
                assert(rest[a] == x);
            }
            if f.contains(x) && x == ts.last() {
                assert(ts[n] == x);
                if !is_fresh(ages.last(), ttl) {
                    assert(rest.contains(x));
                }
            }
        }
        if distinct_tokens(ts) {
            assert(distinct_tokens(p));
            if is_fresh(ages.last(), ttl) {
                assert forall|a: int, b: int| 0 <= a < b < f.len() implies #[trigger] f[a].token@
                    != #[trigger] f[b].token@ by {
                    if b == f.len() - 1 {
                        assert(rest.contains(rest[a]));
                        let k = choose|k: int| 0 <= k < p.len() && p[k] == rest[a] && is_fresh(pa[k], ttl);
                        assert(ts[k] == p[k]);
                        assert(ts[k].token@ != ts[n].token@);
                    } else {
                        assert(f[a] == rest[a] && f[b] == rest[b]);
                    }
                }
            }
        }
    }
}

/// Whether `after` is `before` keeping exactly the tokens whose age in
/// `ages` (given in the order `order` lists the tokens) is within the
/// lifetime: sessions, lifetime and each kept token's session unchanged.
pub open spec fn kept_fresh(before: AuthView, order: Seq<Seq<char>>, ages: Seq<u64>, after: AuthView) -> bool {
    &&& after.sessions == before.sessions
    &&& after.ttl == before.ttl
    &&& forall|t: Seq<char>|
        #[trigger] after.tokens.contains_key(t) <==> exists|k: int|
            0 <= k < order.len() && #[trigger] order[k] == t && is_fresh(ages[k], before.ttl)
    &&& forall|t: Seq<char>|
        #[trigger] after.tokens.contains_key(t) ==> before.tokens.contains_key(t) && after.tokens[t]
            == before.tokens[t]
}

impl AuthStore {
    pub closed spec fn view(&self) -> AuthView {
        AuthView {
            sessions: session_map(self.sessions@),
            tokens: token_map(self.tokens@),
            ttl: self.token_ttl_secs,
        }
    }

    /// Session ids and tokens are each held once.
    pub closed spec fn wf(&self) -> bool {
        distinct_sessions(self.sessions@) && distinct_tokens(self.tokens@)
    }

    /// An empty store whose tokens live `token_ttl_secs` seconds.
    pub fn new(token_ttl_secs: u64) -> (r: Self)
        ensures
            r.wf(),
            r.view().sessions == Map::<Seq<char>, Seq<char>>::empty(),
            r.view().tokens == Map::<Seq<char>, Seq<char>>::empty(),
            r.view().ttl == token_ttl_secs,
    {
        AuthStore { sessions: Vec::new(), tokens: Vec::new(), token_ttl_secs }
    }

    fn find_session(&self, id: &str) -> (r: Option<usize>)
        requires
            self.wf(),
        ensures
            r matches Some(i) ==> i < self.sessions@.len() && self.sessions@[i as int].id@ == id@,
            r is None ==> forall|i: int| 0 <= i < self.sessions@.len() ==> self.sessions@[i].id@ != id@,
    {
        let mut i: usize = 0;
        while i < self.sessions.len()
            invariant
                i <= self.sessions@.len(),
                forall|j: int| 0 <= j < i ==> self.sessions@[j].id@ != id@,
            decreases self.sessions@.len() - i,
        {
            if str_eq(self.sessions[i].id.as_str(), id) {
                return Some(i);
            }
            i = i + 1;
        }
        None
    }

    /// Create a new session for an authenticated user. Returns the session
    /// id: 32 lowercase hex digits drawn at random.
    pub fn create_session(&mut self, username: &str) -> (r: String)
        requires
            old(self).wf(),
        ensures
            final(self).wf(),
            final(self).view().sessions == old(self).view().sessions.insert(r@, username@),
            final(self).view().tokens == old(self).view().tokens,
            final(self).view().ttl == old(self).view().ttl,
            exists|b: Seq<u8>| b.len() == 16 && r@ == hex_seq(b),
    {
        let session_id = generate_random_id();
        self.remove_session(session_id.as_str());
        let ghost before = self.sessions@;
        proof {
            lemma_session_map(before);
            assert(!session_map(before).contains_key(session_id@));
        }
        let info = SessionInfo {
            id: session_id.clone(),
            username: String::from_str(username),
            created: now(),
        };
        self.sessions.push(info);
        assert(self.sessions@.drop_last() == before);
        assert forall|i: int, j: int| 0 <= i < j < self.sessions@.len() implies #[trigger] self.sessions@[i].id@
            != #[trigger] self.sessions@[j].id@ by {
            if j == self.sessions@.len() - 1 {
                assert(before[i].id@ != session_id@);
            } else {
                assert(before[i] == self.sessions@[i] && before[j] == self.sessions@[j]);
            }
        }
        session_id
    }

    /// The user of a live session, if the id names one.
    pub fn validate_session(&self, session_id: &str) -> (r: Option<String>)
        requires
            self.wf(),
        ensures
            r is Some == self.view().sessions.contains_key(session_id@),
            r matches Some(u) ==> u@ == self.view().sessions[session_id@],
    {
        proof {
            lemma_session_map(self.sessions@);
        }
        match self.find_session(session_id) {
            Some(i) => Some(self.sessions[i].username.clone()),
            None => None,
        }
    }

    /// Remove a session (logout). Tokens issued for it stay, but no longer
    /// validate.
    pub fn remove_session(&mut self, session_id: &str)
        requires
            old(self).wf(),
        ensures
            final(self).wf(),
            final(self).view().sessions == old(self).view().sessions.remove(session_id@),
            final(self).view().tokens == old(self).view().tokens,
            final(self).view().ttl == old(self).view().ttl,
            forall|k: Seq<char>| k != session_id@ ==> !old(self).view().sessions.contains_key(k)
                ==> !#[trigger] final(self).view().sessions.contains_key(k),
    {
        let ghost before = self.sessions@;
        proof {
            lemma_session_map(before);
        }
        match self.find_session(session_id) {
            Some(i) => {
                let _ = self.sessions.remove(i);
                let ghost after = self.sessions@;
                assert(after == before.remove(i as int));
                assert forall|a: int, b: int| 0 <= a < b < after.len() implies #[trigger] after[a].id@
                    != #[trigger] after[b].id@ by {
                    let a0 = if a < i { a } else { a + 1 };
                    let b0 = if b < i { b } else { b + 1 };
                    assert(after[a] == before[a0] && after[b] == before[b0]);
                }
                proof {
                    lemma_session_map(after);
                }
                assert(session_map(after) =~= session_map(before).remove(session_id@)) by {
                    assert forall|k: Seq<char>| #[trigger] session_map(after).contains_key(k)
                        <==> session_map(before).remove(session_id@).contains_key(k) by {
                        if session_map(after).contains_key(k) {
                            let m = choose|m: int| 0 <= m < after.len() && after[m].id@ == k;
                            let m0 = if m < i { m } else { m + 1 };
                            assert(before[m0].id@ == k);
                            assert(k != session_id@);
                        }
                        if session_map(before).remove(session_id@).contains_key(k) {
                            let m = choose|m: int| 0 <= m < before.len() && before[m].id@ == k;
                            assert(m != i);
                            let m1 = if m < i { m } else { m - 1 };
                            assert(after[m1].id@ == k);
                        }
                    }
                    assert forall|k: Seq<char>| #[trigger] session_map(after).contains_key(k)
                        implies session_map(after)[k] == session_map(before)[k] by {
                        let m = choose|m: int| 0 <= m < after.len() && after[m].id@ == k;
                        let m0 = if m < i { m } else { m + 1 };
                        assert(after[m] == before[m0]);
                    }
                }
            },
            None => {
                assert(session_map(before) =~= session_map(before).remove(session_id@));
            },
        }
    }

    fn remove_token(&mut self, token: &str)
        requires
            old(self).wf(),
        ensures
            final(self).wf(),
            final(self).view().tokens == old(self).view().tokens.remove(token@),
            final(self).view().sessions == old(self).view().sessions,
            final(self).view().ttl == old(self).view().ttl,
    {
        let ghost before = self.tokens@;
        proof {
            lemma_token_map(before);
        }
        let mut i: usize = 0;
        while i < self.tokens.len()
            invariant
                self.tokens@ == before,
                i <= before.len(),
                forall|j: int| 0 <= j < i ==> before[j].token@ != token@,
            ensures
                self.tokens@ == before,
                i <= before.len(),
                forall|j: int| 0 <= j < i ==> before[j].token@ != token@,
                i < before.len() ==> before[i as int].token@ == token@,
            decreases before.len() - i,
        {
            if str_eq(self.tokens[i].token.as_str(), token) {
                break;
            }
            i = i + 1;
        }
        if i < self.tokens.len() {
            let _ = self.tokens.remove(i);
            let ghost after = self.tokens@;
            assert(after == before.remove(i as int));
            assert forall|a: int, b: int| 0 <= a < b < after.len() implies #[trigger] after[a].token@
                != #[trigger] after[b].token@ by {
                let a0 = if a < i { a } else { a + 1 };
                let b0 = if b < i { b } else { b + 1 };
                assert(after[a] == before[a0] && after[b] == before[b0]);
            }
            proof {
                lemma_token_map(after);
            }
            assert(token_map(after) =~= token_map(before).remove(token@)) by {
                assert forall|k: Seq<char>| #[trigger] token_map(after).contains_key(k)
                    <==> token_map(before).remove(token@).contains_key(k) by {
                    if token_map(after).contains_key(k) {
                        let m = choose|m: int| 0 <= m < after.len() && after[m].token@ == k;
                        let m0 = if m < i { m } else { m + 1 };
                        assert(before[m0].token@ == k);
                    }
                    if token_map(before).remove(token@).contains_key(k) {
                        let m = choose|m: int| 0 <= m < before.len() && before[m].token@ == k;
                        assert(m != i);
                        let m1 = if m < i { m } else { m - 1 };
                        assert(after[m1].token@ == k);
                    }
                }
                assert forall|k: Seq<char>| #[trigger] token_map(after).contains_key(k)
                    implies token_map(after)[k] == token_map(before)[k] by {
                    let m = choose|m: int| 0 <= m < after.len() && after[m].token@ == k;
                    let m0 = if m < i { m } else { m + 1 };
                    assert(after[m] == before[m0]);
                }
            }
        } else {
            assert(token_map(before) =~= token_map(before).remove(token@));
        }
    }

    /// Issue an access token for a live session: `(token, expires_in)` with
    /// the store's token lifetime, or none when the session is unknown.
    pub fn issue_token(&mut self, session_id: &str) -> (r: Option<(String, u64)>)
        requires
            old(self).wf(),
        ensures
            final(self).wf(),
            r is Some == old(self).view().sessions.contains_key(session_id@),
            final(self).view().sessions == old(self).view().sessions,
            final(self).view().ttl == old(self).view().ttl,
            r is None ==> final(self).view().tokens == old(self).view().tokens,
            r matches Some(p) ==> p.1 == old(self).view().ttl && final(self).view().tokens == old(
                self,
            ).view().tokens.insert(p.0@, session_id@) && exists|b: Seq<u8>|
                b.len() == 16 && p.0@ == hex_seq(b),
    {
        if self.validate_session(session_id).is_none() {
            return None;
        }
        let token = generate_random_id();
        self.remove_token(token.as_str());
        let ghost before = self.tokens@;
        proof {
            lemma_token_map(before);
            assert(!token_map(before).contains_key(token@));
        }
        let info = TokenInfo {
            token: token.clone(),
            session_id: String::from_str(session_id),
            created: now(),
        };
        self.tokens.push(info);
        assert(self.tokens@.drop_last() == before);
        proof {
            lemma_token_map(before);
        }
        assert forall|i: int, j: int| 0 <= i < j < self.tokens@.len() implies #[trigger] self.tokens@[i].token@
            != #[trigger] self.tokens@[j].token@ by {
            if j == self.tokens@.len() - 1 {
                assert(before[i].token@ != token@);
            } else {
                assert(before[i] == self.tokens@[i] && before[j] == self.tokens@[j]);
            }
        }
        Some((token, self.token_ttl_secs))
    }

    fn find_token(&self, token: &str) -> (r: Option<usize>)
        requires
            self.wf(),
        ensures
            r matches Some(i) ==> i < self.tokens@.len() && self.tokens@[i as int].token@ == token@,
            r is None ==> !token_map(self.tokens@).contains_key(token@),
    {
        proof {
            lemma_token_map(self.tokens@);
        }
        let mut i: usize = 0;
        while i < self.tokens.len()
            invariant
                i <= self.tokens@.len(),
                forall|j: int| 0 <= j < i ==> self.tokens@[j].token@ != token@,
            decreases self.tokens@.len() - i,
        {
            if str_eq(self.tokens[i].token.as_str(), token) {
                return Some(i);
            }
            i = i + 1;
        }
        None
    }

    /// Whether an access token whose age is `age_secs` seconds is valid: it
    /// was issued, is no older than the token lifetime, and its session is
    /// still live.
    pub fn validate_token_aged(&self, token: &str, age_secs: u64) -> (r: bool)
        requires
            self.wf(),
        ensures
            r == (token_usable(self.view(), token@) && is_fresh(age_secs, self.view().ttl)),
    {
        proof {
            lemma_token_map(self.tokens@);
        }
        if !token_fresh(age_secs, self.token_ttl_secs) {
            return false;
        }
        match self.find_token(token) {
            None => false,
            Some(i) => {
                assert(token_map(self.tokens@)[token@] == self.tokens@[i as int].session_id@);
                self.validate_session(self.tokens[i].session_id.as_str()).is_some()
            },
        }
    }

    /// Validate an access token: it must have been issued, be no older than
    /// the token lifetime, and its session must still be live. The age is
    /// read from the clock, which can refuse a token; with a lifetime of
    /// `u64::MAX` no age can exceed it, and the token is valid exactly when
    /// it is usable.
    pub fn validate_token(&self, token: &str) -> (r: bool)
        requires
            self.wf(),
        ensures
            r ==> token_usable(self.view(), token@),
            self.view().ttl == u64::MAX ==> r == token_usable(self.view(), token@),
    {
        match self.find_token(token) {
            None => {
                proof {
                    lemma_token_map(self.tokens@);
                }
                false
            },
            Some(i) => {
                let age = elapsed_secs(&self.tokens[i].created);
                self.validate_token_aged(token, age)
            },
        }
    }

    /// The tokens in the order the store holds them.
    pub closed spec fn token_order(&self) -> Seq<Seq<char>> {
        self.tokens@.map_values(|t: TokenInfo| t.token@)
    }

    /// How many tokens the store holds.
    pub fn token_count(&self) -> (r: usize)
        ensures
            r == self.token_order().len(),
    {
        self.tokens.len()
    }

    /// Keep exactly the tokens whose age (`ages`, in the order of
    /// `token_order`) is within the token lifetime; sessions stay.
    pub fn retain_fresh(&mut self, ages: &Vec<u64>)
        requires
            old(self).wf(),
            ages@.len() == old(self).token_order().len(),
        ensures
            final(self).wf(),
            kept_fresh(old(self).view(), old(self).token_order(), ages@, final(self).view()),
    {
        let ghost before = self.tokens@;
        let ttl = self.token_ttl_secs;
        let mut kept: Vec<TokenInfo> = Vec::new();
        let mut old_tokens: Vec<TokenInfo> = Vec::new();
        std::mem::swap(&mut old_tokens, &mut self.tokens);
        let mut i: usize = 0;
        while i < old_tokens.len()
            invariant
                old_tokens@ == before,
                ages@.len() == before.len(),
                i <= before.len(),
                kept@ == fresh_tokens(before.take(i as int), ages@.take(i as int), ttl),
            decreases before.len() - i,
        {
            assert(before.take(i + 1).drop_last() == before.take(i as int));
            assert(ages@.take(i + 1).drop_last() == ages@.take(i as int));
            assert(before.take(i + 1).last() == before[i as int]);
            assert(ages@.take(i + 1).last() == ages@[i as int]);
            if token_fresh(ages[i], ttl) {
                let t = &old_tokens[i];
                let copy = TokenInfo {
                    token: t.token.clone(),
                    session_id: t.session_id.clone(),
                    created: t.created,
                };
                kept.push(copy);
            }
            i = i + 1;
        }
        assert(before.take(before.len() as int) == before);
        assert(ages@.take(before.len() as int) == ages@);
        self.tokens = kept;
        proof {
            lemma_fresh_tokens(before, ages@, ttl);
            lemma_token_map(before);
            lemma_token_map(self.tokens@);
            let order = before.map_values(|t: TokenInfo| t.token@);
            let after = token_map(self.tokens@);
            let bm = token_map(before);
            assert forall|t: Seq<char>| #[trigger] after.contains_key(t) <==> exists|k: int|
                0 <= k < order.len() && #[trigger] order[k] == t && is_fresh(ages@[k], ttl) by {
                if after.contains_key(t) {
                    let a = choose|a: int| 0 <= a < self.tokens@.len() && self.tokens@[a].token@ == t;
                    assert(self.tokens@.contains(self.tokens@[a]));
                    let k = choose|k: int| 0 <= k < before.len() && before[k] == self.tokens@[a] && is_fresh(ages@[k], ttl);
                    assert(order[k] == t);
                }
                if exists|k: int| 0 <= k < order.len() && #[trigger] order[k] == t && is_fresh(ages@[k], ttl) {
                    let k = choose|k: int| 0 <= k < order.len() && #[trigger] order[k] == t && is_fresh(ages@[k], ttl);
                    assert(self.tokens@.contains(before[k]));
                    let a = choose|a: int| 0 <= a < self.tokens@.len() && self.tokens@[a] == before[k];
                    assert(self.tokens@[a].token@ == t);
                }
            }
            assert forall|t: Seq<char>| #[trigger] after.contains_key(t) implies bm.contains_key(t) && after[t] == bm[t] by {
                let a = choose|a: int| 0 <= a < self.tokens@.len() && self.tokens@[a].token@ == t;
                assert(self.tokens@.contains(self.tokens@[a]));
                let k = choose|k: int| 0 <= k < before.len() && before[k] == self.tokens@[a] && is_fresh(ages@[k], ttl);
                assert(before[k].token@ == t);
            }
        }
    }

    /// The age in whole seconds of each token, in the order of `token_order`,
    /// as the clock reads it.
    fn token_ages(&self) -> (r: Vec<u64>)
        ensures
            r@.len() == self.token_order().len(),
    {
        let mut ages: Vec<u64> = Vec::new();
        let mut i: usize = 0;
        while i < self.tokens.len()
            invariant
                i <= self.tokens@.len(),
                ages@.len() == i,
            decreases self.tokens@.len() - i,
        {
            ages.push(elapsed_secs(&self.tokens[i].created));
            i = i + 1;
        }
        ages
    }

    /// Purge expired tokens: keep exactly the tokens whose age, as the clock
    /// reads it, is within the token lifetime (see `retain_fresh`); sessions
    /// stay. With a lifetime of `u64::MAX` no token can have expired, and
    /// every token stays.
    pub fn cleanup(&mut self)
        requires
            old(self).wf(),
        ensures
            final(self).wf(),
            exists|ages: Seq<u64>|
                ages.len() == old(self).token_order().len() && kept_fresh(
                    old(self).view(),
                    old(self).token_order(),
                    ages,
                    final(self).view(),
                ),
            old(self).view().ttl == u64::MAX ==> final(self).view() == old(self).view(),
    {
        let ages = self.token_ages();
        let ghost before = *self;
        self.retain_fresh(&ages);
        proof {
            if before.view().ttl == u64::MAX {
                lemma_token_map(before.tokens@);
                let bm = before.view().tokens;
                let am = self.view().tokens;
                let order = before.token_order();
                assert forall|t: Seq<char>| am.contains_key(t) <==> bm.contains_key(t) by {
                    if bm.contains_key(t) {
                        let k = choose|k: int| 0 <= k < before.tokens@.len() && before.tokens@[k].token@ == t;
                        assert(order[k] == t);
                        assert(is_fresh(ages@[k], before.view().ttl));
                    }
                    if am.contains_key(t) {
                        let k = choose|k: int| 0 <= k < order.len() && #[trigger] order[k] == t && is_fresh(ages@[k], before.view().ttl);
                        assert(before.tokens@[k].token@ == t);
                    }
                }
                assert(am =~= bm);
            }
        }
    }

}

/// Purging expired tokens changes no validation: at the ages it purged by,
/// each token of the store validates afterwards exactly when it did before.
pub proof fn lemma_purge_keeps_validation(
    before: AuthView,
    order: Seq<Seq<char>>,
    ages: Seq<u64>,
    after: AuthView,
    k: int,
)
    requires
        kept_fresh(before, order, ages, after),
        0 <= k < order.len(),
        before.tokens.contains_key(order[k]),
    ensures
        (token_usable(after, order[k]) && is_fresh(ages[k], after.ttl)) == (token_usable(
            before,
            order[k],
        ) && is_fresh(ages[k], before.ttl)),
{
    let t = order[k];
    if is_fresh(ages[k], before.ttl) {
        assert(after.tokens.contains_key(t));
    }
}

/// The token order of a store lists each of its tokens exactly once.
pub proof fn lemma_token_order(store: &AuthStore)
    requires
        store.wf(),
    ensures
        forall|t: Seq<char>| #[trigger] store.view().tokens.contains_key(t) <==> store.token_order().contains(t),
        store.token_order().no_duplicates(),
{
    lemma_token_map(store.tokens@);
    let order = store.token_order();
    assert forall|t: Seq<char>| #[trigger] store.view().tokens.contains_key(t) <==> order.contains(t) by {
        if store.view().tokens.contains_key(t) {
            let i = choose|i: int| 0 <= i < store.tokens@.len() && store.tokens@[i].token@ == t;
            assert(order[i] == t);
        }
        if order.contains(t) {
            let i = choose|i: int| 0 <= i < order.len() && order[i] == t;
            assert(store.tokens@[i].token@ == t);
        }
    }
    assert forall|i: int, j: int| 0 <= i < order.len() && 0 <= j < order.len() && i != j implies order[i] != order[j] by {
        if i < j {
            assert(store.tokens@[i].token@ != store.tokens@[j].token@);
        } else {
            assert(store.tokens@[j].token@ != store.tokens@[i].token@);
        }
    }
}

/// Cleanup changes no validation: every token a store holds validates,
/// at the age the purge used for it, after the purge exactly when it did
/// before; a token the store does not hold validates neither before nor
/// after.
pub proof fn lemma_cleanup_keeps_validation(before: &AuthStore, ages: Seq<u64>, after: AuthView, t: Seq<char>)
    requires
        before.wf(),
        ages.len() == before.token_order().len(),
        kept_fresh(before.view(), before.token_order(), ages, after),
    ensures
        forall|k: int|
            0 <= k < before.token_order().len() && before.token_order()[k] == t ==> ((token_usable(after, t)
                && is_fresh(ages[k], after.ttl)) == (token_usable(before.view(), t) && is_fresh(
                ages[k],
                before.view().ttl,
            ))),
        !before.view().tokens.contains_key(t) ==> !token_usable(before.view(), t) && !token_usable(after, t),
{
    lemma_token_order(before);
    let order = before.token_order();
    assert forall|k: int|
        0 <= k < order.len() && order[k] == t implies ((token_usable(after, t) && is_fresh(ages[k], after.ttl))
        == (token_usable(before.view(), t) && is_fresh(ages[k], before.view().ttl))) by {
        assert(order.contains(t));
        lemma_purge_keeps_validation(before.view(), order, ages, after, k);
    }
    if !before.view().tokens.contains_key(t) {
        assert(!after.tokens.contains_key(t));
    }
}

/// A session just created validates to its user, and after it is removed
/// it no longer validates.
pub proof fn lemma_session_lifecycle(
    before: AuthView,
    created: AuthView,
    removed: AuthView,
    session_id: Seq<char>,
    username: Seq<char>,
)
    requires
        created.sessions == before.sessions.insert(session_id, username),
        removed.sessions == created.sessions.remove(session_id),
    ensures
        created.sessions.contains_key(session_id),
        created.sessions[session_id] == username,
        !removed.sessions.contains_key(session_id),
{
}

/// After a session is removed, no token issued for it is usable.
pub proof fn lemma_logout_revokes_tokens(before: AuthView, after: AuthView, session_id: Seq<char>, token: Seq<char>)
    requires
        after.sessions == before.sessions.remove(session_id),
        after.tokens == before.tokens,
        before.tokens.contains_key(token),
        before.tokens[token] == session_id,
    ensures
        !token_usable(after, token),
{
}

/// A token just issued for a live session is usable.
pub proof fn lemma_issued_token_usable(before: AuthView, after: AuthView, session_id: Seq<char>, token: Seq<char>)
    requires
        before.sessions.contains_key(session_id),
        after.sessions == before.sessions,
        after.tokens == before.tokens.insert(token, session_id),
    ensures
        token_usable(after, token),
{
}

} // verus!
