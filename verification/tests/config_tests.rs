use iiif::config::{
    apply_env_overrides, default_token_sweep_interval, validate_security_config, AppConfig, AuthConfig,
    EnvOverrides,
};
use iiif::error::{bad_request, IiifError};

fn no_overrides() -> EnvOverrides {
    EnvOverrides {
        host: None,
        port: None,
        base_url: None,
        tls_cert: None,
        tls_key: None,
        storage_path: None,
        max_width: None,
        max_height: None,
        max_area: None,
        allow_upscaling: None,
        tile_width: None,
        auth_enabled: None,
        auth_cookie: None,
        auth_token_ttl: None,
        cache_max_entries: None,
        request_timeout: None,
        metrics_enabled: None,
        tile_cache_dir: None,
    }
}

#[test]
fn empty_config_validates() {
    assert!(validate_security_config(&AppConfig::default()).is_ok());
}

#[test]
fn protected_dirs_without_auth_enabled_fails_fast() {
    let config = AppConfig {
        auth: AuthConfig {
            enabled: false,
            protected_dirs: vec!["restricted".to_string()],
            ..AuthConfig::default()
        },
        ..AppConfig::default()
    };
    let err = validate_security_config(&config).expect_err("must reject");
    assert!(err.contains("protected_dirs"));
    assert!(err.contains("enabled"));
}

#[test]
fn protected_dirs_with_auth_enabled_validates() {
    let config = AppConfig {
        auth: AuthConfig {
            enabled: true,
            protected_dirs: vec!["restricted".to_string()],
            ..AuthConfig::default()
        },
        ..AppConfig::default()
    };
    assert!(validate_security_config(&config).is_ok());
}

#[test]
fn empty_protected_dirs_with_auth_disabled_validates() {
    let config = AppConfig {
        auth: AuthConfig {
            enabled: false,
            protected_dirs: Vec::new(),
            ..AuthConfig::default()
        },
        ..AppConfig::default()
    };
    assert!(validate_security_config(&config).is_ok());
}

#[test]
fn cert_without_key_fails_fast() {
    let mut config = AppConfig::default();
    config.server.tls_cert = Some("cert.pem".to_string());
    let err = validate_security_config(&config).expect_err("must reject");
    assert!(err.contains("tls_cert") && err.contains("tls_key"));
}

#[test]
fn key_without_cert_fails_fast() {
    let mut config = AppConfig::default();
    config.server.tls_key = Some("key.pem".to_string());
    let err = validate_security_config(&config).expect_err("must reject");
    assert!(err.contains("tls_cert") && err.contains("tls_key"));
}

#[test]
fn both_tls_set_validates() {
    let mut config = AppConfig::default();
    config.server.tls_cert = Some("cert.pem".to_string());
    config.server.tls_key = Some("key.pem".to_string());
    assert!(validate_security_config(&config).is_ok());
}

#[test]
fn protected_dirs_message_lists_the_directories() {
    let config = AppConfig {
        auth: AuthConfig {
            enabled: false,
            protected_dirs: vec!["restricted".to_string(), "vault".to_string()],
            ..AuthConfig::default()
        },
        ..AppConfig::default()
    };
    let err = validate_security_config(&config).unwrap_err();
    assert_eq!(
        err,
        "auth.protected_dirs is set ([\"restricted\", \"vault\"]) but auth.enabled = false; this would \
         silently expose protected images. Either set auth.enabled = true or clear protected_dirs."
    );
}

#[test]
fn defaults_match_documentation() {
    let c = AppConfig::default();
    assert_eq!(c.server.port, 8080);
    assert_eq!(c.server.base_url, "http://localhost:8080");
    assert_eq!(c.image.tile_scale_factors, vec![1, 2, 4, 8, 16]);
    assert_eq!(c.auth.cookie_name, "iiif_access");
    assert_eq!(c.auth.token_sweep_interval_secs, 300);
    assert_eq!(default_token_sweep_interval(), 300);
}

#[test]
fn env_overrides_replace_settings() {
    let mut c = AppConfig::default();
    let env = EnvOverrides {
        host: Some("0.0.0.0".to_string()),
        port: Some("9000".to_string()),
        max_width: Some("2048".to_string()),
        allow_upscaling: Some("0".to_string()),
        auth_enabled: Some("1".to_string()),
        auth_token_ttl: Some("60".to_string()),
        metrics_enabled: Some("true".to_string()),
        tile_cache_dir: Some("/tmp/tiles".to_string()),
        ..no_overrides()
    };
    apply_env_overrides(&mut c, &env);
    assert_eq!(c.server.host, "0.0.0.0");
    assert_eq!(c.server.port, 9000);
    assert_eq!(c.image.max_width, Some(2048));
    assert!(!c.image.allow_upscaling);
    assert!(c.auth.enabled);
    assert_eq!(c.auth.token_ttl, 60);
    assert!(c.performance.metrics_enabled);
    assert_eq!(c.performance.tile_cache_dir.as_deref(), Some("/tmp/tiles"));
}

#[test]
fn unparsable_numeric_override_is_ignored() {
    let mut c = AppConfig::default();
    let env = EnvOverrides {
        port: Some("70000".to_string()),
        tile_width: Some("wide".to_string()),
        tile_cache_dir: Some(String::new()),
        ..no_overrides()
    };
    apply_env_overrides(&mut c, &env);
    assert_eq!(c.server.port, 8080);
    assert_eq!(c.image.tile_width, 512);
    assert_eq!(c.performance.tile_cache_dir, None);
}

#[test]
fn status_codes_map_correctly() {
    assert_eq!(IiifError::BadRequest("x".into()).http_status_code(), 400);
    assert_eq!(IiifError::NotFound("x".into()).http_status_code(), 404);
    assert_eq!(IiifError::NotAcceptable("x".into()).http_status_code(), 406);
    assert_eq!(IiifError::NotImplemented("x".into()).http_status_code(), 501);
    assert_eq!(IiifError::ServiceUnavailable("x".into()).http_status_code(), 503);
    assert_eq!(IiifError::Internal("x".into()).http_status_code(), 500);
}

#[test]
fn error_messages_carry_label_and_detail() {
    assert_eq!(IiifError::BadRequest("oops".into()).message(), "Bad request: oops");
    assert_eq!(IiifError::Io("disk".into()).message(), "IO error: disk");
    assert_eq!(IiifError::Unauthorized("u".into()).http_status_code(), 401);
    assert_eq!(IiifError::Forbidden("f".into()).http_status_code(), 403);
    assert_eq!(IiifError::Storage("s".into()).http_status_code(), 500);
    assert_eq!(bad_request("why"), IiifError::BadRequest("why".to_string()));
}

#[test]
fn overrides_leave_unlisted_settings_alone() {
    let mut config = AppConfig::default();
    config.auth.users.push(iiif::config::UserCredential { username: "alice".to_string(), password: "pw".to_string() });
    config.auth.allowed_origins.push("https://viewer.example.org".to_string());
    config.auth.substitute_size = "^200,".to_string();
    let env = EnvOverrides { auth_enabled: Some("true".to_string()), host: Some("127.0.0.1".to_string()), ..no_overrides() };
    apply_env_overrides(&mut config, &env);
    assert!(config.auth.enabled);
    assert_eq!(config.server.host, "127.0.0.1");
    assert_eq!(config.auth.users.len(), 1);
    assert_eq!(config.auth.users[0].username, "alice");
    assert_eq!(config.auth.allowed_origins, vec!["https://viewer.example.org".to_string()]);
    assert_eq!(config.auth.substitute_size, "^200,");
    assert_eq!(config.auth.token_sweep_interval_secs, 300);
    assert!(config.storage.sources.is_empty());
}
