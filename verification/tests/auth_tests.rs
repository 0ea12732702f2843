use iiif::auth::AuthStore;
use iiif::auth_flow::{
    bearer_token, check_access, cookie_attrs, credentials_valid, escape_script, extract_cookie,
    image_identifier, is_protected, is_valid_origin, logout_cookie, probe_outcome, probe_reply, session_cookie,
    substitute_exempt, token_page, token_reply, token_reply_without_store, TokenReply,
};
use iiif::config::{AuthConfig, UserCredential};
use iiif::services::{build_probe_service_descriptor, LanguageMap, Service};

fn cfg(substitute_size: &str) -> AuthConfig {
    AuthConfig {
        enabled: true,
        pattern: "active".to_string(),
        cookie_name: "iiif_access".to_string(),
        token_ttl: 3600,
        protected_dirs: vec!["restricted".to_string()],
        users: vec![],
        allowed_origins: vec![],
        token_sweep_interval_secs: 0,
        substitute_size: substitute_size.to_string(),
    }
}

fn single(m: &LanguageMap) -> (String, String) {
    assert_eq!(m.entries.len(), 1);
    assert_eq!(m.entries[0].1.len(), 1);
    (m.entries[0].0.clone(), m.entries[0].1[0].clone())
}

#[test]
fn session_lifecycle() {
    let mut store = AuthStore::new(3600);
    let sid = store.create_session("alice");

    assert_eq!(store.validate_session(&sid), Some("alice".to_string()));
    assert_eq!(store.validate_session("invalid"), None);

    store.remove_session(&sid);
    assert_eq!(store.validate_session(&sid), None);
}

#[test]
fn token_lifecycle() {
    let mut store = AuthStore::new(3600);
    let sid = store.create_session("bob");

    let (token, ttl) = store.issue_token(&sid).unwrap();
    assert_eq!(ttl, 3600);
    assert!(store.validate_token(&token));
    assert!(!store.validate_token("bogus"));

    store.remove_session(&sid);
    assert!(!store.validate_token(&token));
}

#[test]
fn no_token_without_session() {
    let mut store = AuthStore::new(3600);
    assert!(store.issue_token("nonexistent").is_none());
}

#[test]
fn substitute_size_matches_after_decode() {
    let auth_config = cfg("^200,");
    let cases = [
        ("^200,", true),
        ("%5E200,", true),
        ("%5E200%2C", true),
        ("200,", false),
        ("^300,", false),
    ];
    for (segment, expect_match) in cases {
        let path = format!("/secret/full/{segment}/0/default.jpg");
        let matches = substitute_exempt(&path, &auth_config.substitute_size);
        assert_eq!(matches, expect_match, "segment {segment:?} should match={expect_match}");
    }
}

#[test]
fn empty_substitute_size_disables_exemption() {
    let auth_config = cfg("");
    assert!(auth_config.substitute_size.is_empty());
    assert!(!substitute_exempt("/secret/full/%5E200,/0/default.jpg", &auth_config.substitute_size));
}

#[test]
fn probe_descriptor_has_correct_hierarchy() {
    let v = build_probe_service_descriptor("http://localhost:8080", "img1");
    let Service::AuthProbeService2(probe) = v else { panic!("not a probe service") };
    assert_eq!(probe.id, "http://localhost:8080/auth/probe/img1");
    assert_eq!(probe.service.len(), 1);
    let Service::AuthAccessService2(access) = &probe.service[0] else { panic!("not an access service") };
    assert_eq!(access.profile, "active");
    assert_eq!(access.id.as_deref(), Some("http://localhost:8080/auth/login"));
    assert_eq!(access.service.len(), 2);
    assert!(matches!(access.service[0], Service::AuthAccessTokenService2(_)));
    assert!(matches!(access.service[1], Service::AuthLogoutService2(_)));
}

#[test]
fn probe_descriptor_service_urls_and_labels() {
    let v = build_probe_service_descriptor("https://iiif.example.org", "a/b");
    let Service::AuthProbeService2(probe) = v else { panic!("not a probe service") };
    assert_eq!(probe.id, "https://iiif.example.org/auth/probe/a/b");
    let Service::AuthAccessService2(access) = &probe.service[0] else { panic!() };
    assert_eq!(single(access.label.as_ref().unwrap()), ("en".to_string(), "Login".to_string()));
    let Service::AuthAccessTokenService2(token) = &access.service[0] else { panic!() };
    assert_eq!(token.id, "https://iiif.example.org/auth/token");
    let Service::AuthLogoutService2(logout) = &access.service[1] else { panic!() };
    assert_eq!(logout.id, "https://iiif.example.org/auth/logout");
    assert_eq!(single(&logout.label), ("en".to_string(), "Logout".to_string()));
}

#[test]
fn cookie_attributes_follow_scheme() {
    assert_eq!(cookie_attrs("https://iiif.example.org"), "Path=/; HttpOnly; Secure; SameSite=None");
    assert_eq!(cookie_attrs("http://localhost:8080"), "Path=/; HttpOnly; SameSite=Lax");
    assert_eq!(
        session_cookie("iiif_access", "abc", "http://localhost:8080"),
        "iiif_access=abc; Path=/; HttpOnly; SameSite=Lax"
    );
    assert_eq!(
        logout_cookie("iiif_access", "https://x.org"),
        "iiif_access=; Path=/; HttpOnly; Secure; SameSite=None; Max-Age=0"
    );
}

#[test]
fn origin_validation() {
    assert!(is_valid_origin("https://viewer.example.org"));
    assert!(is_valid_origin("http://localhost:8080"));
    assert!(!is_valid_origin("https://"));
    assert!(!is_valid_origin("ftp://example.org"));
    assert!(!is_valid_origin("https://evil.com/</script>"));
    assert!(!is_valid_origin("https://host:port"));
    assert!(!is_valid_origin(""));
}

#[test]
fn cookie_extraction() {
    let h = "theme=dark; iiif_access=s123 ; other=x";
    assert_eq!(extract_cookie(h, "iiif_access"), Some("s123".to_string()));
    assert_eq!(extract_cookie(h, "missing"), None);
    assert_eq!(extract_cookie("novalue; a=b", "novalue"), None);
}

#[test]
fn script_escaping_neutralises_close_tags() {
    assert_eq!(escape_script("a</script>b"), "a<\\/script>b");
    assert_eq!(escape_script("plain"), "plain");
    let page = token_page("{\"messageId\":\"m</script>\"}", "https://viewer.example.org");
    assert!(page.starts_with("<!DOCTYPE html>"));
    assert!(page.contains("window.parent.postMessage({\"messageId\":\"m<\\/script>\"}, \"https://viewer.example.org\");"));
    assert_eq!(page.matches("</script>").count(), 1);
}

#[test]
fn token_reply_paths() {
    let mut store = AuthStore::new(3600);
    let sid = store.create_session("alice");
    let header = format!("iiif_access={sid}");

    match token_reply(None, &vec![], &mut store, Some(&header), "iiif_access") {
        TokenReply::Failed { target_origin, profile, .. } => {
            assert_eq!(target_origin, "*");
            assert_eq!(profile, "invalidOrigin");
        }
        other => panic!("unexpected {other:?}"),
    }
    match token_reply(Some("https://viewer.example.org"), &vec![], &mut store, None, "iiif_access") {
        TokenReply::Failed { target_origin, profile, .. } => {
            assert_eq!(target_origin, "https://viewer.example.org");
            assert_eq!(profile, "missingAspect");
        }
        other => panic!("unexpected {other:?}"),
    }
    match token_reply(Some("https://viewer.example.org"), &vec![], &mut store, Some(&header), "iiif_access") {
        TokenReply::Issued { target_origin, token, expires_in } => {
            assert_eq!(target_origin, "https://viewer.example.org");
            assert_eq!(expires_in, 3600);
            assert!(store.validate_token(&token));
        }
        other => panic!("unexpected {other:?}"),
    }
    match token_reply_without_store(Some("https://viewer.example.org"), &vec![]) {
        TokenReply::Failed { profile, .. } => assert_eq!(profile, "unavailable"),
        other => panic!("unexpected {other:?}"),
    }
}

#[test]
fn logout_revokes_issued_tokens() {
    let mut store = AuthStore::new(3600);
    let sid = store.create_session("alice");
    let (t1, _) = store.issue_token(&sid).unwrap();
    let (t2, _) = store.issue_token(&sid).unwrap();
    assert_ne!(t1, t2);
    store.remove_session(&sid);
    assert!(!store.validate_token(&t1));
    assert!(!store.validate_token(&t2));
    store.cleanup();
    assert!(store.validate_session(&sid).is_none());
}

#[test]
fn probe_verdicts() {
    let base = "http://localhost:8080";
    let p = probe_outcome(None, Some("t"), base, "img", "");
    assert_eq!(p.status, 503);
    let mut store = AuthStore::new(3600);
    assert_eq!(probe_outcome(Some(&store), None, base, "img", "").status, 401);
    assert_eq!(probe_outcome(Some(&store), Some("bogus"), base, "img", "").status, 401);
    let sid = store.create_session("alice");
    let (token, _) = store.issue_token(&sid).unwrap();
    let ok = probe_outcome(Some(&store), Some(&token), base, "img", "^200,");
    assert_eq!(ok.status, 200);
    assert!(ok.heading.is_none());
    assert!(ok.substitute.is_none());
    assert_eq!(bearer_token(&format!("Bearer {token}")), Some(token.clone()));
    assert_eq!(bearer_token("Basic abc"), None);
}

#[test]
fn access_check_decisions() {
    let auth = cfg("^200,");
    let mut store = AuthStore::new(3600);
    let sid = store.create_session("alice");
    let cookie = format!("iiif_access={sid}");
    let path = "/secret/full/max/0/default.jpg";

    assert_eq!(image_identifier(path), Some("secret".to_string()));
    assert_eq!(image_identifier("/manifest/secret"), None);
    assert!(is_protected(&auth, Some("restricted")));
    assert!(!is_protected(&auth, None));

    assert!(!check_access(path, &auth, Some("restricted"), Some(&store), None));
    assert!(check_access(path, &auth, Some("restricted"), Some(&store), Some(&cookie)));
    assert!(check_access(path, &auth, None, Some(&store), None));
    assert!(check_access("/secret/full/%5E200,/0/default.jpg", &auth, Some("restricted"), Some(&store), None));
    assert!(check_access("/auth/login", &auth, Some("restricted"), None, None));
    let mut off = cfg("");
    off.enabled = false;
    assert!(check_access(path, &off, Some("restricted"), None, None));
}

#[test]
fn credentials_checked_against_users() {
    let users = vec![UserCredential { username: "alice".to_string(), password: "wonderland".to_string() }];
    assert!(credentials_valid(&users, "alice", "wonderland"));
    assert!(!credentials_valid(&users, "alice", "looking-glass"));
    assert!(!credentials_valid(&users, "bob", "wonderland"));
}

#[test]
fn token_rejects_origin_not_in_allowlist() {
    let allowed = vec!["https://viewer.example.org".to_string()];
    let mut store = AuthStore::new(3600);
    let sid = store.create_session("alice");
    let header = format!("iiif_access={sid}");
    match token_reply(Some("https://evil.com"), &allowed, &mut store, Some(&header), "iiif_access") {
        TokenReply::Failed { target_origin, profile, note } => {
            assert_eq!(target_origin, "*");
            assert_eq!(profile, "invalidOrigin");
            assert_eq!(note, "Missing, empty, or malformed origin parameter.");
        }
        other => panic!("unexpected {other:?}"),
    }
    assert!(matches!(
        token_reply(Some("https://viewer.example.org"), &allowed, &mut store, Some(&header), "iiif_access"),
        TokenReply::Issued { .. }
    ));
    match token_reply_without_store(Some("https://evil.com"), &allowed) {
        TokenReply::Failed { profile, .. } => assert_eq!(profile, "invalidOrigin"),
        other => panic!("unexpected {other:?}"),
    }
}

#[test]
fn probe_emits_substitute_when_configured() {
    let store = AuthStore::new(3600);
    let p = probe_outcome(Some(&store), None, "http://localhost:8080", "secret", "^200,");
    assert_eq!(p.status, 401);
    assert_eq!(p.heading.as_deref(), Some("Authentication required"));
    let subst = p.substitute.unwrap();
    assert!(subst.ends_with("/secret/full/^200,/0/default.jpg"));
    assert_eq!(subst, "http://localhost:8080/secret/full/^200,/0/default.jpg");
    assert!(probe_outcome(Some(&store), None, "http://x", "secret", "").substitute.is_none());
}

#[test]
fn token_handler_does_not_break_out_of_script_tag_via_origin() {
    let page = token_page("{\"profile\":\"invalidOrigin\"}", "https://a</script><script>alert(1)");
    assert_eq!(page.matches("</script>").count(), 1);
    assert!(page.contains("profile\":\"invalidOrigin"));
}

#[test]
fn logout_invalidates_existing_tokens() {
    let mut store = AuthStore::new(3600);
    let session_id = store.create_session("alice");
    let (token, _) = store.issue_token(&session_id).unwrap();
    assert!(store.validate_token(&token));
    store.remove_session(&session_id);
    assert!(!store.validate_token(&token));
}

#[test]
fn token_validity_follows_its_age() {
    let mut store = AuthStore::new(60);
    let sid = store.create_session("alice");
    let (token, _) = store.issue_token(&sid).unwrap();
    assert!(store.validate_token_aged(&token, 0));
    assert!(store.validate_token_aged(&token, 60));
    assert!(!store.validate_token_aged(&token, 61));
    assert!(!store.validate_token_aged("unknown", 0));
    store.remove_session(&sid);
    assert!(!store.validate_token_aged(&token, 0));
}

#[test]
fn retain_fresh_keeps_exactly_the_fresh_tokens() {
    let mut store = AuthStore::new(60);
    let sid = store.create_session("alice");
    let (old_token, _) = store.issue_token(&sid).unwrap();
    let (new_token, _) = store.issue_token(&sid).unwrap();
    assert_eq!(store.token_count(), 2);
    store.retain_fresh(&vec![61, 60]);
    assert_eq!(store.token_count(), 1);
    assert!(!store.validate_token_aged(&old_token, 0));
    assert!(store.validate_token_aged(&new_token, 0));
    store.cleanup();
    assert!(store.validate_token(&new_token));
}

#[test]
fn probe_reply_follows_the_validation() {
    let base = "http://localhost:8080";
    let ok = probe_reply(true, Some(true), base, "img", "^200,");
    assert_eq!(ok.status, 200);
    assert!(ok.heading.is_none() && ok.substitute.is_none());
    let no = probe_reply(true, Some(false), base, "img", "^200,");
    assert_eq!(no.status, 401);
    assert_eq!(no.heading.as_deref(), Some("Authentication expired"));
    assert_eq!(no.substitute.as_deref(), Some("http://localhost:8080/img/full/^200,/0/default.jpg"));
    assert_eq!(probe_reply(true, None, base, "img", "").status, 401);
    assert_eq!(probe_reply(false, None, base, "img", "").status, 503);
}
