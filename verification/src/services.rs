//! IIIF service descriptors as one typed enum, and language-tagged strings.
use vstd::prelude::*;

use crate::text::{concat2, concat3};

verus! {

/// Language-tagged strings, e.g. `{"en": ["Login"]}`: entries in key order,
/// each key at most once.
#[derive(Debug, Clone)]
pub struct LanguageMap {
    pub entries: Vec<(String, Vec<String>)>,
}

/// The entries of a language map as plain text.
pub open spec fn language_entries(m: LanguageMap) -> Seq<(Seq<char>, Seq<Seq<char>>)> {
    m.entries@.map_values(
        |e: (String, Vec<String>)| (e.0@, e.1@.map_values(|v: String| v@)),
    )
}

/// Whether `m` holds exactly one language with exactly one value.
pub open spec fn is_single(m: LanguageMap, language: Seq<char>, value: Seq<char>) -> bool {
    language_entries(m) == seq![(language, seq![value])]
}

/// A `LanguageMap` with a single language code and value.
pub fn lang_map(language: &str, value: &str) -> (r: LanguageMap)
    ensures
        is_single(r, language@, value@),
{
    let values = vec![String::from_str(value)];
    let r = LanguageMap { entries: vec![(String::from_str(language), values)] };
    assert(language_entries(r) =~= seq![(language@, seq![value@])]) by {
        assert(values@.map_values(|v: String| v@) =~= seq![value@]);
    }
    r
}

/// All IIIF service types this library emits, tagged by IIIF type name.
#[derive(Debug)]
pub enum Service {
    ImageService3(ImageService3),
    AuthProbeService2(AuthProbeService2),
    AuthAccessService2(AuthAccessService2),
    AuthAccessTokenService2(AuthAccessTokenService2),
    AuthLogoutService2(AuthLogoutService2),
    SearchService2(SearchService2),
    AutoCompleteService2(AutoCompleteService2),
}

/// Image API 3.0 service entry on a content resource.
#[derive(Debug)]
pub struct ImageService3 {
    pub id: String,
    pub profile: Option<String>,
}

impl ImageService3 {
    /// An Image API service at `id` with profile `level2`.
    pub fn level2(id: &str) -> (r: Self)
        ensures
            r.id@ == id@,
            r.profile matches Some(p) && p@ == "level2"@,
    {
        ImageService3 { id: String::from_str(id), profile: Some(String::from_str("level2")) }
    }
}

/// Probe service, placed in the protected resource's `service[]`.
#[derive(Debug)]
pub struct AuthProbeService2 {
    pub id: String,
    pub service: Vec<Service>,
    pub error_heading: Option<LanguageMap>,
    pub error_note: Option<LanguageMap>,
}

/// Access service; `id` is omitted for the `external` pattern.
#[derive(Debug)]
pub struct AuthAccessService2 {
    pub id: Option<String>,
    pub profile: String,
    pub service: Vec<Service>,
    pub label: Option<LanguageMap>,
    pub heading: Option<LanguageMap>,
    pub note: Option<LanguageMap>,
    pub confirm_label: Option<LanguageMap>,
}

/// Token sub-service (carries no `profile`).
#[derive(Debug)]
pub struct AuthAccessTokenService2 {
    pub id: String,
    pub error_heading: Option<LanguageMap>,
    pub error_note: Option<LanguageMap>,
}

/// Logout sub-service.
#[derive(Debug)]
pub struct AuthLogoutService2 {
    pub id: String,
    pub label: LanguageMap,
}

/// Content Search 2.0 service; autocomplete is nested in `service[]`.
#[derive(Debug)]
pub struct SearchService2 {
    pub id: String,
    pub service: Vec<Service>,
}

/// Content Search 2.0 autocomplete sub-service.
#[derive(Debug)]
pub struct AutoCompleteService2 {
    pub id: String,
}

/// Whether `s` is the probe descriptor of `identifier` under `base`: probe at
/// `{base}/auth/probe/{identifier}` holding one `active` access service at
/// `{base}/auth/login`, which holds the token service at `{base}/auth/token`
/// followed by the logout service at `{base}/auth/logout`.
pub open spec fn is_probe_descriptor(s: Service, base: Seq<char>, identifier: Seq<char>) -> bool {
    &&& s matches Service::AuthProbeService2(p)
    &&& p.id@ == base + "/auth/probe/"@ + identifier
    &&& p.error_heading matches Some(h) && is_single(h, "en"@, "Authentication required"@)
    &&& p.error_note matches Some(n) && is_single(n, "en"@, "This resource requires authentication."@)
    &&& p.service@.len() == 1
    &&& p.service@[0] matches Service::AuthAccessService2(a)
    &&& a.id matches Some(aid) && aid@ == base + "/auth/login"@
    &&& a.profile@ == "active"@
    &&& a.label matches Some(l) && is_single(l, "en"@, "Login"@)
    &&& a.heading matches Some(l) && is_single(l, "en"@, "Please log in"@)
    &&& a.note matches Some(l) && is_single(l, "en"@, "This resource requires authentication."@)
    &&& a.confirm_label matches Some(l) && is_single(l, "en"@, "Login"@)
    &&& a.service@.len() == 2
    &&& a.service@[0] matches Service::AuthAccessTokenService2(t)
    &&& t.id@ == base + "/auth/token"@
    &&& t.error_heading matches Some(l) && is_single(l, "en"@, "Authentication failed"@)
    &&& t.error_note matches Some(l) && is_single(l, "en"@, "The token could not be issued."@)
    &&& a.service@[1] matches Service::AuthLogoutService2(o)
    &&& o.id@ == base + "/auth/logout"@
    &&& is_single(o.label, "en"@, "Logout"@)
}

/// Build the probe service descriptor for a protected resource, with the
/// hierarchy probe → access → [token, logout] of the `active` pattern.
pub fn build_probe_service_descriptor(base_url: &str, identifier: &str) -> (r: Service)
    ensures
        is_probe_descriptor(r, base_url@, identifier@),
{
    let token = Service::AuthAccessTokenService2(
        AuthAccessTokenService2 {
            id: concat2(base_url, "/auth/token"),
            error_heading: Some(lang_map("en", "Authentication failed")),
            error_note: Some(lang_map("en", "The token could not be issued.")),
        },
    );
    let logout = Service::AuthLogoutService2(
        AuthLogoutService2 { id: concat2(base_url, "/auth/logout"), label: lang_map("en", "Logout") },
    );
    let access = Service::AuthAccessService2(
        AuthAccessService2 {
            id: Some(concat2(base_url, "/auth/login")),
            profile: String::from_str("active"),
            label: Some(lang_map("en", "Login")),
            heading: Some(lang_map("en", "Please log in")),
            note: Some(lang_map("en", "This resource requires authentication.")),
            confirm_label: Some(lang_map("en", "Login")),
            service: vec![token, logout],
        },
    );
    Service::AuthProbeService2(
        AuthProbeService2 {
            id: concat3(base_url, "/auth/probe/", identifier),
            error_heading: Some(lang_map("en", "Authentication required")),
            error_note: Some(lang_map("en", "This resource requires authentication.")),
            service: vec![access],
        },
    )
}

/// Whether `s` is the search service at `{base}/search` with the autocomplete
/// service at `{base}/autocomplete` nested in it.
pub open spec fn is_search_descriptor(s: Service, base: Seq<char>) -> bool {
    &&& s matches Service::SearchService2(q)
    &&& q.id@ == base + "/search"@
    &&& q.service@.len() == 1
    &&& q.service@[0] matches Service::AutoCompleteService2(a)
    &&& a.id@ == base + "/autocomplete"@
}

/// Search service descriptor for embedding in Manifests: the search service
/// at `{base}/search` with the autocomplete service at `{base}/autocomplete`.
pub fn build_search_service_descriptor(base_url: &str) -> (r: Service)
    ensures
        is_search_descriptor(r, base_url@),
{
    let auto = Service::AutoCompleteService2(
        AutoCompleteService2 { id: concat2(base_url, "/autocomplete") },
    );
    Service::SearchService2(SearchService2 { id: concat2(base_url, "/search"), service: vec![auto] })
}

} // verus!
