//! Server configuration: the settings, their defaults, the fail-fast security
//! check, and the environment overrides applied over a loaded configuration.
use vstd::prelude::*;

use crate::text::{concat3, parse_unsigned, parse_unsigned_exec, str_chars, string_views};

verus! {

#[derive(Debug, Clone)]
pub struct AppConfig {
    pub server: ServerConfig,
    pub image: ImageConfig,
    pub storage: StorageConfig,
    pub auth: AuthConfig,
    pub performance: PerformanceConfig,
}

#[derive(Debug, Clone)]
pub struct ServerConfig {
    pub host: String,
    pub port: u16,
    pub base_url: String,
    /// Path to TLS certificate file (PEM). Enables HTTPS + HTTP/2 when set.
    pub tls_cert: Option<String>,
    /// Path to TLS private key file (PEM).
    pub tls_key: Option<String>,
}

#[derive(Debug, Clone)]
pub struct ImageConfig {
    pub max_width: Option<u32>,
    pub max_height: Option<u32>,
    pub max_area: Option<u64>,
    pub allow_upscaling: bool,
    pub tile_width: u32,
    pub tile_scale_factors: Vec<u32>,
}

#[derive(Debug, Clone)]
pub struct StorageConfig {
    /// Filesystem root for the default backend; always present.
    pub root_path: String,
    /// Optional multi-source backends, routed in declaration order with the
    /// filesystem root appended last as the catch-all.
    pub sources: Vec<StorageSourceConfig>,
}

/// One entry of the `[[storage.sources]]` array.
#[derive(Debug, Clone)]
pub struct StorageSourceConfig {
    /// Backend type: `"s3"`, `"azure"`, `"gcs"`, `"http"`, or `"local"`.
    pub kind: String,
    pub label: String,
    pub bucket: String,
    pub region: String,
    pub url: String,
    pub account: String,
    pub container: String,
    pub prefix: String,
    pub access_zone: String,
    pub prefix_filter: String,
}

/// Authentication / authorization configuration.
#[derive(Debug, Clone)]
pub struct AuthConfig {
    pub enabled: bool,
    /// Interaction pattern: "active", "kiosk", or "external".
    pub pattern: String,
    pub cookie_name: String,
    /// Token time-to-live in seconds.
    pub token_ttl: u64,
    /// Subdirectories of the images folder that require authorization.
    pub protected_dirs: Vec<String>,
    pub users: Vec<UserCredential>,
    /// Origins allowed to call the token service; empty = any well-formed origin.
    pub allowed_origins: Vec<String>,
    /// Background sweep interval (seconds); `0` disables the sweeper.
    pub token_sweep_interval_secs: u64,
    /// Size parameter of the degraded substitute image; empty = none.
    pub substitute_size: String,
}

#[derive(Debug, Clone)]
pub struct UserCredential {
    pub username: String,
    pub password: String,
}

/// Performance and production tuning.
#[derive(Debug, Clone)]
pub struct PerformanceConfig {
    pub cache_max_entries: u64,
    pub request_timeout_secs: u64,
    pub rate_limit_rps: u64,
    pub metrics_enabled: bool,
    pub tile_cache_dir: Option<String>,
}

/// The token sweep interval used when the configuration names none.
pub fn default_token_sweep_interval() -> (r: u64)
    ensures
        r == 300,
{
    300
}

impl Default for AuthConfig {
    fn default() -> (r: Self)
        ensures
            !r.enabled,
            r.pattern@ == "active"@,
            r.cookie_name@ == "iiif_access"@,
            r.token_ttl == 3600,
            r.protected_dirs@.len() == 0,
            r.users@.len() == 0,
            r.allowed_origins@.len() == 0,
            r.token_sweep_interval_secs == 300,
            r.substitute_size@.len() == 0,
    {
        AuthConfig {
            enabled: false,
            pattern: String::from_str("active"),
            cookie_name: String::from_str("iiif_access"),
            token_ttl: 3600,
            protected_dirs: Vec::new(),
            users: Vec::new(),
            allowed_origins: Vec::new(),
            token_sweep_interval_secs: default_token_sweep_interval(),
            substitute_size: String::new(),
        }
    }
}

impl Default for PerformanceConfig {
    fn default() -> (r: Self)
        ensures
            r.cache_max_entries == 1000,
            r.request_timeout_secs == 30,
            r.rate_limit_rps == 0,
            !r.metrics_enabled,
            r.tile_cache_dir is None,
    {
        PerformanceConfig {
            cache_max_entries: 1000,
            request_timeout_secs: 30,
            rate_limit_rps: 0,
            metrics_enabled: false,
            tile_cache_dir: None,
        }
    }
}

impl Default for AppConfig {
    fn default() -> (r: Self)
        ensures
            r.server.host@ == "127.0.0.1"@,
            r.server.port == 8080,
            r.server.base_url@ == "http://localhost:8080"@,
            r.server.tls_cert is None,
            r.server.tls_key is None,
            r.image.max_width == Some(4096u32),
            r.image.max_height == Some(4096u32),
            r.image.max_area == Some(16_777_216u64),
            r.image.allow_upscaling,
            r.image.tile_width == 512,
            r.image.tile_scale_factors@ == seq![1u32, 2, 4, 8, 16],
            r.storage.root_path@ == "./images"@,
            r.storage.sources@.len() == 0,
            !r.auth.enabled,
            r.auth.protected_dirs@.len() == 0,
            r.auth.token_ttl == 3600,
            r.auth.cookie_name@ == "iiif_access"@,
            r.performance.cache_max_entries == 1000,
            r.performance.request_timeout_secs == 30,
    {
        AppConfig {
            server: ServerConfig {
                host: String::from_str("127.0.0.1"),
                port: 8080,
                base_url: String::from_str("http://localhost:8080"),
                tls_cert: None,
                tls_key: None,
            },
            image: ImageConfig {
                max_width: Some(4096),
                max_height: Some(4096),
                max_area: Some(16_777_216),
                allow_upscaling: true,
                tile_width: 512,
                tile_scale_factors: vec![1, 2, 4, 8, 16],
            },
            storage: StorageConfig { root_path: String::from_str("./images"), sources: Vec::new() },
            auth: AuthConfig::default(),
            performance: PerformanceConfig::default(),
        }
    }
}

/// Rendering of a list of strings as Rust's `{:?}` shows it.
pub uninterp spec fn debug_list_text(items: Seq<Seq<char>>) -> Seq<char>;

/// Renders a list of strings as `{:?}` does; wraps `format!("{:?}", ..)`.
#[verifier::external_body]
fn debug_list(items: &Vec<String>) -> (r: String)
    ensures
        r@ == debug_list_text(string_views(items@)),
{
    format!("{:?}", items)
}

/// The message for protected directories configured while auth is off.
pub open spec fn protected_dirs_message(dirs: Seq<Seq<char>>) -> Seq<char> {
    "auth.protected_dirs is set ("@ + debug_list_text(dirs)
        + ") but auth.enabled = false; this would silently expose protected images. Either set auth.enabled = true or clear protected_dirs."@
}

/// The message for a certificate without a key, or a key without a certificate.
pub open spec fn tls_message() -> Seq<char> {
    "TLS misconfiguration: tls_cert and tls_key must both be set or both unset"@
}

/// Validate combinations of settings that would otherwise silently expose data
/// or quietly downgrade security. Returns the first reason found, if any:
/// protected directories with auth disabled, then a half-configured TLS pair.
pub fn validate_security_config(config: &AppConfig) -> (r: Result<(), String>)
    ensures
        (!config.auth.enabled && config.auth.protected_dirs@.len() > 0) ==> (r matches Err(m)
            && m@ == protected_dirs_message(string_views(config.auth.protected_dirs@))),
        !(!config.auth.enabled && config.auth.protected_dirs@.len() > 0) && (
        config.server.tls_cert.is_some() != config.server.tls_key.is_some()) ==> (r matches Err(m)
            && m@ == tls_message()),
        r is Ok <==> !(!config.auth.enabled && config.auth.protected_dirs@.len() > 0) && (
        config.server.tls_cert.is_some() == config.server.tls_key.is_some()),
{
    if !config.auth.enabled && config.auth.protected_dirs.len() > 0 {
        let listed = debug_list(&config.auth.protected_dirs);
        let m = concat3(
            "auth.protected_dirs is set (",
            listed.as_str(),
            ") but auth.enabled = false; this would silently expose protected images. Either set auth.enabled = true or clear protected_dirs.",
        );
        return Err(m);
    }
    if config.server.tls_cert.is_some() != config.server.tls_key.is_some() {
        return Err(
            String::from_str(
                "TLS misconfiguration: tls_cert and tls_key must both be set or both unset",
            ),
        );
    }
    Ok(())
}

/// Values read from the process environment, one per supported variable;
/// `None` where the variable is unset.
#[derive(Debug, Clone)]
pub struct EnvOverrides {
    pub host: Option<String>,
    pub port: Option<String>,
    pub base_url: Option<String>,
    pub tls_cert: Option<String>,
    pub tls_key: Option<String>,
    pub storage_path: Option<String>,
    pub max_width: Option<String>,
    pub max_height: Option<String>,
    pub max_area: Option<String>,
    pub allow_upscaling: Option<String>,
    pub tile_width: Option<String>,
    pub auth_enabled: Option<String>,
    pub auth_cookie: Option<String>,
    pub auth_token_ttl: Option<String>,
    pub cache_max_entries: Option<String>,
    pub request_timeout: Option<String>,
    pub metrics_enabled: Option<String>,
    pub tile_cache_dir: Option<String>,
}

/// A flag variable is on when it reads `true` or `1`.
pub open spec fn flag_on(v: Seq<char>) -> bool {
    v == "true"@ || v == "1"@
}

/// The number an override sets, if its variable is set and parses.
pub open spec fn numeric_override(v: Option<String>, max: nat) -> Option<nat> {
    match v {
        Some(s) => parse_unsigned(s@, max),
        None => None,
    }
}

fn parse_override(v: &Option<String>, max: u64) -> (r: Option<u64>)
    ensures
        r matches Some(n) ==> numeric_override(*v, max as nat) == Some(n as nat),
        r is None ==> numeric_override(*v, max as nat) is None,
{
    match v {
        Some(s) => {
            let cs = str_chars(s.as_str());
            parse_unsigned_exec(&cs, max)
        },
        None => None,
    }
}

fn is_flag_on(s: &String) -> (r: bool)
    ensures
        r == flag_on(s@),
{
    let cs = str_chars(s.as_str());
    let t = str_chars("true");
    let one = str_chars("1");
    proof {
        reveal_strlit("true");
        reveal_strlit("1");
    }
    cs_eq(&cs, &t) || cs_eq(&cs, &one)
}

/// Whether two character sequences are equal.
pub fn cs_eq(a: &[char], b: &[char]) -> (r: bool)
    ensures
        r == (a@ == b@),
{
    if a.len() != b.len() {
        return false;
    }
    let mut i: usize = 0;
    while i < a.len()
        invariant
            a@.len() == b@.len(),
            i <= a@.len(),
            forall|j: int| 0 <= j < i ==> a@[j] == b@[j],
        decreases a@.len() - i,
    {
        if a[i] != b[i] {
            return false;
        }
        i = i + 1;
    }
    assert(a@ =~= b@);
    true
}

/// The value a string setting takes after an override.
pub open spec fn string_after(old: String, v: Option<String>) -> Seq<char> {
    match v {
        Some(s) => s@,
        None => old@,
    }
}

/// The value a numeric setting takes after an override that must parse.
pub open spec fn number_after(old: nat, v: Option<String>, max: nat) -> nat {
    match numeric_override(v, max) {
        Some(n) => n,
        None => old,
    }
}

/// The value a flag setting takes after an override.
pub open spec fn flag_after(old: bool, v: Option<String>) -> bool {
    match v {
        Some(s) => flag_on(s@),
        None => old,
    }
}

fn apply_server_overrides(server: &mut ServerConfig, env: &EnvOverrides)
    ensures
        final(server).host@ == string_after(old(server).host, env.host),
        final(server).port as nat == number_after(old(server).port as nat, env.port, u16::MAX as nat),
        final(server).base_url@ == string_after(old(server).base_url, env.base_url),
        env.tls_cert matches Some(v) ==> (final(server).tls_cert matches Some(c) && c@ == v@),
        env.tls_cert is None ==> final(server).tls_cert == old(server).tls_cert,
        env.tls_key matches Some(v) ==> (final(server).tls_key matches Some(c) && c@ == v@),
        env.tls_key is None ==> final(server).tls_key == old(server).tls_key,
{
    if let Some(v) = &env.host {
        server.host = v.clone();
    }
    if let Some(n) = parse_override(&env.port, 65535) {
        server.port = n as u16;
    }
    if let Some(v) = &env.base_url {
        server.base_url = v.clone();
    }
    if let Some(v) = &env.tls_cert {
        server.tls_cert = Some(v.clone());
    }
    if let Some(v) = &env.tls_key {
        server.tls_key = Some(v.clone());
    }
}

fn apply_image_overrides(image: &mut ImageConfig, env: &EnvOverrides)
    ensures
        numeric_override(env.max_width, u32::MAX as nat) matches Some(n) ==> final(image).max_width
            == Some(n as u32),
        numeric_override(env.max_width, u32::MAX as nat) is None ==> final(image).max_width == old(
            image,
        ).max_width,
        numeric_override(env.max_height, u32::MAX as nat) matches Some(n) ==> final(image).max_height
            == Some(n as u32),
        numeric_override(env.max_height, u32::MAX as nat) is None ==> final(image).max_height == old(
            image,
        ).max_height,
        numeric_override(env.max_area, u64::MAX as nat) matches Some(n) ==> final(image).max_area
            == Some(n as u64),
        numeric_override(env.max_area, u64::MAX as nat) is None ==> final(image).max_area == old(
            image,
        ).max_area,
        final(image).allow_upscaling == flag_after(old(image).allow_upscaling, env.allow_upscaling),
        final(image).tile_width as nat == number_after(
            old(image).tile_width as nat,
            env.tile_width,
            u32::MAX as nat,
        ),
        final(image).tile_scale_factors == old(image).tile_scale_factors,
{
    if let Some(n) = parse_override(&env.max_width, 0xffff_ffff) {
        image.max_width = Some(n as u32);
    }
    if let Some(n) = parse_override(&env.max_height, 0xffff_ffff) {
        image.max_height = Some(n as u32);
    }
    if let Some(n) = parse_override(&env.max_area, 0xffff_ffff_ffff_ffff) {
        image.max_area = Some(n);
    }
    if let Some(v) = &env.allow_upscaling {
        image.allow_upscaling = is_flag_on(v);
    }
    if let Some(n) = parse_override(&env.tile_width, 0xffff_ffff) {
        image.tile_width = n as u32;
    }
}

fn apply_auth_overrides(auth: &mut AuthConfig, env: &EnvOverrides)
    ensures
        final(auth).enabled == flag_after(old(auth).enabled, env.auth_enabled),
        final(auth).cookie_name@ == string_after(old(auth).cookie_name, env.auth_cookie),
        final(auth).token_ttl as nat == number_after(
            old(auth).token_ttl as nat,
            env.auth_token_ttl,
            u64::MAX as nat,
        ),
        final(auth).protected_dirs == old(auth).protected_dirs,
        final(auth).pattern == old(auth).pattern,
        final(auth).users == old(auth).users,
        final(auth).allowed_origins == old(auth).allowed_origins,
        final(auth).token_sweep_interval_secs == old(auth).token_sweep_interval_secs,
        final(auth).substitute_size == old(auth).substitute_size,
{
    if let Some(v) = &env.auth_enabled {
        auth.enabled = is_flag_on(v);
    }
    if let Some(v) = &env.auth_cookie {
        auth.cookie_name = v.clone();
    }
    if let Some(n) = parse_override(&env.auth_token_ttl, 0xffff_ffff_ffff_ffff) {
        auth.token_ttl = n;
    }
}

fn apply_performance_overrides(perf: &mut PerformanceConfig, env: &EnvOverrides)
    ensures
        final(perf).cache_max_entries as nat == number_after(
            old(perf).cache_max_entries as nat,
            env.cache_max_entries,
            u64::MAX as nat,
        ),
        final(perf).request_timeout_secs as nat == number_after(
            old(perf).request_timeout_secs as nat,
            env.request_timeout,
            u64::MAX as nat,
        ),
        final(perf).metrics_enabled == flag_after(old(perf).metrics_enabled, env.metrics_enabled),
        final(perf).rate_limit_rps == old(perf).rate_limit_rps,
        env.tile_cache_dir matches Some(v) ==> (v@.len() == 0 ==> final(perf).tile_cache_dir is None)
            && (v@.len() > 0 ==> (final(perf).tile_cache_dir matches Some(d) && d@ == v@)),
        env.tile_cache_dir is None ==> final(perf).tile_cache_dir == old(perf).tile_cache_dir,
{
    if let Some(n) = parse_override(&env.cache_max_entries, 0xffff_ffff_ffff_ffff) {
        perf.cache_max_entries = n;
    }
    if let Some(n) = parse_override(&env.request_timeout, 0xffff_ffff_ffff_ffff) {
        perf.request_timeout_secs = n;
    }
    if let Some(v) = &env.metrics_enabled {
        perf.metrics_enabled = is_flag_on(v);
    }
    if let Some(v) = &env.tile_cache_dir {
        perf.tile_cache_dir = if v.as_str().is_empty() {
            None
        } else {
            Some(v.clone())
        };
    }
}

/// Apply environment overrides to the configuration: a set variable replaces
/// its setting; numeric variables replace it only when they parse; flag
/// variables set it to whether they read `true` or `1`; an empty tile-cache
/// directory disables the cache.
pub fn apply_env_overrides(config: &mut AppConfig, env: &EnvOverrides)
    ensures
        final(config).server.host@ == string_after(old(config).server.host, env.host),
        final(config).server.port as nat == number_after(
            old(config).server.port as nat,
            env.port,
            u16::MAX as nat,
        ),
        final(config).server.base_url@ == string_after(old(config).server.base_url, env.base_url),
        env.tls_cert matches Some(v) ==> (final(config).server.tls_cert matches Some(c) && c@ == v@),
        env.tls_cert is None ==> final(config).server.tls_cert == old(config).server.tls_cert,
        env.tls_key matches Some(v) ==> (final(config).server.tls_key matches Some(c) && c@ == v@),
        env.tls_key is None ==> final(config).server.tls_key == old(config).server.tls_key,
        final(config).storage.root_path@ == string_after(
            old(config).storage.root_path,
            env.storage_path,
        ),
        numeric_override(env.max_width, u32::MAX as nat) matches Some(n) ==> final(config).image.max_width == Some(n as u32),
        numeric_override(env.max_width, u32::MAX as nat) is None ==> final(config).image.max_width
            == old(config).image.max_width,
        numeric_override(env.max_height, u32::MAX as nat) matches Some(n) ==> final(config).image.max_height == Some(n as u32),
        numeric_override(env.max_height, u32::MAX as nat) is None ==> final(config).image.max_height == old(config).image.max_height,
        numeric_override(env.max_area, u64::MAX as nat) matches Some(n) ==> final(config).image.max_area == Some(n as u64),
        numeric_override(env.max_area, u64::MAX as nat) is None ==> final(config).image.max_area
            == old(config).image.max_area,
        final(config).image.allow_upscaling == flag_after(
            old(config).image.allow_upscaling,
            env.allow_upscaling,
        ),
        final(config).image.tile_width as nat == number_after(
            old(config).image.tile_width as nat,
            env.tile_width,
            u32::MAX as nat,
        ),
        final(config).image.tile_scale_factors == old(config).image.tile_scale_factors,
        final(config).auth.enabled == flag_after(old(config).auth.enabled, env.auth_enabled),
        final(config).auth.cookie_name@ == string_after(
            old(config).auth.cookie_name,
            env.auth_cookie,
        ),
        final(config).auth.token_ttl as nat == number_after(
            old(config).auth.token_ttl as nat,
            env.auth_token_ttl,
            u64::MAX as nat,
        ),
        final(config).auth.protected_dirs == old(config).auth.protected_dirs,
        final(config).auth.pattern == old(config).auth.pattern,
        final(config).auth.users == old(config).auth.users,
        final(config).auth.allowed_origins == old(config).auth.allowed_origins,
        final(config).auth.token_sweep_interval_secs == old(config).auth.token_sweep_interval_secs,
        final(config).auth.substitute_size == old(config).auth.substitute_size,
        final(config).storage.sources == old(config).storage.sources,
        final(config).performance.cache_max_entries as nat == number_after(
            old(config).performance.cache_max_entries as nat,
            env.cache_max_entries,
            u64::MAX as nat,
        ),
        final(config).performance.request_timeout_secs as nat == number_after(
            old(config).performance.request_timeout_secs as nat,
            env.request_timeout,
            u64::MAX as nat,
        ),
        final(config).performance.metrics_enabled == flag_after(
            old(config).performance.metrics_enabled,
            env.metrics_enabled,
        ),
        final(config).performance.rate_limit_rps == old(config).performance.rate_limit_rps,
        env.tile_cache_dir matches Some(v) ==> (v@.len() == 0 ==> final(config).performance.tile_cache_dir is None) && (v@.len() > 0 ==> (final(config).performance.tile_cache_dir matches Some(d) && d@ == v@)),
        env.tile_cache_dir is None ==> final(config).performance.tile_cache_dir == old(config).performance.tile_cache_dir,
{
    apply_server_overrides(&mut config.server, env);
    apply_image_overrides(&mut config.image, env);
    if let Some(v) = &env.storage_path {
        config.storage.root_path = v.clone();
    }
    apply_auth_overrides(&mut config.auth, env);
    apply_performance_overrides(&mut config.performance, env);
}

} // verus!
