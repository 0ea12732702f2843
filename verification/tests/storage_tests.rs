use iiif::config::StorageSourceConfig;
use iiif::error::IiifError;
use iiif::storage::{
    build_source, candidate_files, image_not_found, join_path, no_source_claims, sources_exhausted,
    supported_extension_list, try_next_for_exists, try_next_source, CachedSourceStorage, FilesystemStorage,
    ObjectStoreBackend, RoutedStorage, SourceKind,
};

fn source(kind: &str) -> StorageSourceConfig {
    StorageSourceConfig {
        kind: kind.to_string(),
        label: String::new(),
        bucket: String::new(),
        region: String::new(),
        url: String::new(),
        account: String::new(),
        container: String::new(),
        prefix: String::new(),
        access_zone: String::new(),
        prefix_filter: String::new(),
    }
}

#[test]
fn access_zone_returns_configured_value_only_for_claimed_ids() {
    let backend = ObjectStoreBackend::new("imgs/", Some("restricted".to_string()), "private-", "test");
    assert_eq!(backend.access_zone("private-x"), Some("restricted".to_string()));
    assert_eq!(backend.access_zone("public-y"), None);
}

#[test]
fn slash_in_identifier_maps_to_hierarchical_key() {
    let backend = ObjectStoreBackend::new("imgs/", None, "", "test");
    assert_eq!(backend.key("ark:/12025/654", "jpg"), "imgs/ark:/12025/654.jpg");
}

#[test]
fn object_keys_escape_only_reserved_bytes() {
    let backend = ObjectStoreBackend::new("imgs", None, "", "test");
    assert_eq!(backend.key("a b#c?d", ""), "imgs/a%20b%23c%3Fd");
    assert_eq!(backend.key("café", "png"), "imgs/caf%C3%A9.png");
    assert_eq!(backend.sidecar_key("photo"), "imgs/photo.toml");
    let keys = backend.candidate_keys("photo");
    assert_eq!(keys.len(), 9);
    assert_eq!(keys[0], "imgs/photo");
    assert_eq!(keys[1], "imgs/photo.jpg");
    assert_eq!(keys[8], "imgs/photo.jp2");
    assert_eq!(ObjectStoreBackend::new("", None, "", "x").key("p", "jpg"), "p.jpg");
}

#[test]
fn prefix_filter_short_circuits_unclaimed_ids() {
    let backend = ObjectStoreBackend::new("imgs/", None, "books-", "books");
    assert!(!backend.claims("foo"));
    assert!(backend.claims("books-bar"));
    assert_eq!(backend.label(), "books");
    assert_eq!(backend.prefix_filter(), "books-");
    assert_eq!(
        backend.not_handled("foo"),
        IiifError::NotFound("Identifier not handled by source `books`: foo".to_string())
    );
}

#[test]
fn source_plans_from_configuration() {
    let mut s3 = source("s3");
    s3.bucket = "b".to_string();
    s3.region = "eu-west-1".to_string();
    s3.prefix = "iiif".to_string();
    s3.access_zone = "restricted".to_string();
    let plan = build_source(&s3).unwrap();
    assert_eq!(plan.kind, SourceKind::S3 { bucket: "b".to_string(), region: Some("eu-west-1".to_string()), endpoint: None });
    assert_eq!(plan.backend.label(), "s3");
    assert_eq!(plan.backend.key("x", "jpg"), "iiif/x.jpg");
    assert_eq!(plan.backend.access_zone("x"), Some("restricted".to_string()));

    assert_eq!(
        build_source(&source("s3")).unwrap_err(),
        IiifError::BadRequest("[storage.sources] kind=s3 requires `bucket` (label `s3`)".to_string())
    );
    let mut az = source("azure");
    az.label = "archive".to_string();
    az.account = "acct".to_string();
    assert_eq!(
        build_source(&az).unwrap_err(),
        IiifError::BadRequest(
            "[storage.sources] kind=azure requires `account` and `container` (label `archive`)".to_string()
        )
    );
    assert_eq!(
        build_source(&source("ftp")).unwrap_err(),
        IiifError::BadRequest("[storage.sources] unknown kind `ftp` (label `ftp`)".to_string())
    );
    assert_eq!(build_source(&source("local")).unwrap().kind, SourceKind::Local { root: None });
    let mut http = source("http");
    http.url = "https://images.example.org".to_string();
    assert_eq!(build_source(&http).unwrap().kind, SourceKind::Http { url: "https://images.example.org".to_string() });
}

#[test]
fn prefix_filter_skips_unclaimed_sources() {
    let routed = RoutedStorage::new(vec!["books-".to_string(), String::new()]);
    assert_eq!(routed.pick("photo-1"), vec![1]);
    assert_eq!(routed.pick("books-1"), vec![0, 1]);
    assert!(routed.claims("anything"));
    let narrow = RoutedStorage::new(vec!["rare-".to_string()]);
    assert!(narrow.pick("public-y").is_empty());
    assert!(!narrow.claims("public-y"));
}

#[test]
fn router_falls_through_only_on_not_found() {
    let missed: Result<Vec<u8>, IiifError> = Err(IiifError::NotFound("x".to_string()));
    let broken: Result<Vec<u8>, IiifError> = Err(IiifError::Storage("down".to_string()));
    let found: Result<Vec<u8>, IiifError> = Ok(b"from-a".to_vec());
    assert!(try_next_source(&missed));
    assert!(!try_next_source(&broken));
    assert!(!try_next_source(&found));
    assert!(try_next_for_exists(&Ok(false)));
    assert!(!try_next_for_exists(&Ok(true)));
    assert!(!try_next_for_exists(&Err(IiifError::Internal("x".to_string()))));
    assert_eq!(no_source_claims("foo"), IiifError::NotFound("No source claims identifier: foo".to_string()));
    assert_eq!(image_not_found("foo"), IiifError::NotFound("Image not found: foo".to_string()));
    assert_eq!(sources_exhausted("foo", None), image_not_found("foo"));
    let last = IiifError::NotFound("from b".to_string());
    assert_eq!(sources_exhausted("foo", Some(last.clone())), last);
}

#[test]
fn filesystem_candidates_try_bare_name_first() {
    let names = candidate_files("photo");
    assert_eq!(
        names,
        vec!["photo", "photo.jpg", "photo.jpeg", "photo.png", "photo.tif", "photo.tiff", "photo.gif", "photo.webp", "photo.jp2"]
    );
    assert_eq!(supported_extension_list().len(), 8);
    let fs = FilesystemStorage { root_dir: "images".to_string() };
    let present = ["photo.png", "photo.gif"];
    assert_eq!(fs.try_find_in_dir("photo", |n: &str| present.contains(&n)), Some("photo.png".to_string()));
    assert_eq!(fs.try_find_in_dir("missing", |n: &str| present.contains(&n)), None);
    assert_eq!(fs.try_find_in_dir("photo.gif", |n: &str| present.contains(&n)), Some("photo.gif".to_string()));
}

#[test]
fn paths_join_like_the_platform() {
    assert_eq!(join_path("images", "a.jpg"), "images/a.jpg");
    assert_eq!(join_path("images/", "a.jpg"), "images/a.jpg");
    assert_eq!(join_path("", "a.jpg"), "a.jpg");
}

#[test]
fn different_labels_avoid_cache_collision() {
    let a = CachedSourceStorage::new((), "/tmp/cache", "label-A");
    let b = CachedSourceStorage::new((), "/tmp/cache", "label-B");
    assert_ne!(a.cache_path("foo"), b.cache_path("foo"));
    assert_eq!(a.cache_path("foo"), a.cache_path("foo"));
}

#[test]
fn cache_path_is_label_keyed_sha256() {
    let c = CachedSourceStorage::new(7u8, "/tmp/cache", "lbl");
    assert_eq!(c.cache_path("foo"), "/tmp/cache/source/eeda98843c446f53.bin");
    assert_eq!(*c.inner(), 7u8);
}

fn restricted_subdir() -> Vec<(String, String)> {
    vec![("images/restricted".to_string(), "restricted".to_string())]
}

#[test]
fn finds_image_in_root() {
    let fs = FilesystemStorage { root_dir: "images".to_string() };
    let present = ["images/sample.jpg"];
    let is_file = |p: &str| present.contains(&p);
    assert_eq!(fs.find_image_file("sample", &restricted_subdir(), is_file), Ok("images/sample.jpg".to_string()));
    assert_eq!(fs.find_containing_subdir("sample", &restricted_subdir(), is_file), None);
}

#[test]
fn finds_image_in_subdirectory() {
    let fs = FilesystemStorage { root_dir: "images".to_string() };
    let present = ["images/restricted/secret.jpg"];
    let is_file = |p: &str| present.contains(&p);
    assert_eq!(
        fs.find_image_file("secret", &restricted_subdir(), is_file),
        Ok("images/restricted/secret.jpg".to_string())
    );
    assert_eq!(fs.find_containing_subdir("secret", &restricted_subdir(), is_file), Some("restricted".to_string()));
}

#[test]
fn root_takes_precedence_over_subdir() {
    let fs = FilesystemStorage { root_dir: "images".to_string() };
    let present = ["images/photo.jpg", "images/restricted/photo.jpg"];
    let is_file = |p: &str| present.contains(&p);
    assert_eq!(fs.find_containing_subdir("photo", &restricted_subdir(), is_file), None);
    assert_eq!(fs.find_image_file("photo", &restricted_subdir(), is_file), Ok("images/photo.jpg".to_string()));
}

#[test]
fn returns_not_found_for_missing() {
    let fs = FilesystemStorage { root_dir: "images".to_string() };
    let is_file = |_: &str| false;
    assert_eq!(
        fs.find_image_file("nonexistent", &restricted_subdir(), is_file),
        Err(image_not_found("nonexistent"))
    );
    assert_eq!(fs.find_containing_subdir("nonexistent", &restricted_subdir(), is_file), None);
}

#[test]
fn earlier_subdirectory_wins() {
    let fs = FilesystemStorage { root_dir: "images".to_string() };
    let subdirs = vec![
        ("images/a".to_string(), "a".to_string()),
        ("images/b".to_string(), "b".to_string()),
    ];
    let present = ["images/b/x.png", "images/a/x.tif"];
    let is_file = |p: &str| present.contains(&p);
    assert_eq!(fs.find_image_file("x", &subdirs, is_file), Ok("images/a/x.tif".to_string()));
    assert_eq!(fs.find_containing_subdir("x", &subdirs, is_file), Some("a".to_string()));
}
