use iiif::annotation::AnnotationTarget;
use iiif::config::AppConfig;
use iiif::error::IiifError;
use iiif::presentation::{
    build_manifest_for_image, build_root_collection, check_annotation, check_annotation_page, check_canvas,
    check_collection, content_type_of, lang, negotiate, range_not_found, scanned_image_stem, sort_entries, ContextValue,
    MetadataPair, NegotiatedType, Sidecar, SidecarProvider,
};
use iiif::services::{LanguageMap, Service};

fn values<'a>(map: &'a LanguageMap, language: &str) -> &'a Vec<String> {
    &map.entries.iter().find(|(l, _)| l == language).expect("language present").1
}

#[test]
fn language_map_helper() {
    let map = lang("pl", "Tytuł");
    assert_eq!(values(&map, "pl"), &vec!["Tytuł".to_string()]);
}

#[test]
fn lang_defaults_to_none() {
    let sc = Sidecar { label: Some("X".to_string()), ..Sidecar::default() };
    let map = sc.label_map().unwrap();
    assert_eq!(values(&map, "none"), &vec!["X".to_string()]);
}

#[test]
fn explicit_language_used() {
    let sc = Sidecar { label: Some("X".to_string()), language: Some("pl".to_string()), ..Sidecar::default() };
    let map = sc.label_map().unwrap();
    assert_eq!(values(&map, "pl"), &vec!["X".to_string()]);
}

#[test]
fn metadata_pairs_become_entries() {
    let sc = Sidecar {
        metadata: vec![
            MetadataPair { label: "Date".to_string(), value: "1300".to_string() },
            MetadataPair { label: "Source".to_string(), value: "BnF".to_string() },
        ],
        ..Sidecar::default()
    };
    let entries = sc.metadata_entries().unwrap();
    assert_eq!(entries.len(), 2);
    assert_eq!(values(&entries[0].label, "none"), &vec!["Date".to_string()]);
    assert_eq!(values(&entries[1].value, "none"), &vec!["BnF".to_string()]);
}

#[test]
fn provider_section_becomes_agent() {
    let sc = Sidecar {
        provider: Some(SidecarProvider {
            id: "http://example.org/bnf".to_string(),
            label: "BnF".to_string(),
            homepage: Some("https://www.bnf.fr/".to_string()),
        }),
        ..Sidecar::default()
    };
    let providers = sc.provider_entries().unwrap();
    assert_eq!(providers.len(), 1);
    assert_eq!(providers[0].id, "http://example.org/bnf");
    assert_eq!(providers[0].resource_type, "Agent");
    assert!(providers[0].homepage.is_some());
}

#[test]
fn empty_sidecar_yields_nothing() {
    let sc = Sidecar::default();
    assert_eq!(sc.default_lang(), "none");
    assert!(sc.label_map().is_none());
    assert!(sc.summary_map().is_none());
    assert!(sc.metadata_entries().is_none());
    assert!(sc.provider_entries().is_none());
    let with_summary = Sidecar { summary: Some("A test".to_string()), language: Some("en".to_string()), ..Sidecar::default() };
    assert_eq!(values(&with_summary.summary_map().unwrap(), "en"), &vec!["A test".to_string()]);
    let home = Sidecar {
        provider: Some(SidecarProvider { id: "p".to_string(), label: "P".to_string(), homepage: Some("https://h".to_string()) }),
        ..Sidecar::default()
    }
    .provider_entries()
    .unwrap();
    let h = &home[0].homepage.as_ref().unwrap()[0];
    assert_eq!(h.id, "https://h");
    assert_eq!(h.resource_type, "Text");
    assert_eq!(h.format.as_deref(), Some("text/html"));
}

#[test]
fn manifest_for_image_links_every_resource() {
    let config = AppConfig::default();
    let m = build_manifest_for_image("test", 1000, 800, &config, false, None);
    assert!(m.service.is_none() && m.summary.is_none() && m.metadata.is_none() && m.rights.is_none() && m.provider.is_none());
    assert!(matches!(&m.context, ContextValue::Single(c) if c == "http://iiif.io/api/presentation/3/context.json"));
    assert_eq!(m.id, "http://localhost:8080/manifest/test");
    assert_eq!(m.resource_type, "Manifest");
    assert_eq!(values(&m.label, "none"), &vec!["test".to_string()]);
    let thumb = &m.thumbnail.as_ref().unwrap()[0];
    assert_eq!(thumb.id, "http://localhost:8080/test/full/200,/0/default.jpg");
    assert_eq!((thumb.width, thumb.height), (Some(200), Some(160)));
    let canvas = &m.items[0];
    assert_eq!(canvas.id, "http://localhost:8080/canvas/test/p1");
    assert_eq!((canvas.width, canvas.height), (Some(1000), Some(800)));
    let page = &canvas.items.as_ref().unwrap()[0];
    assert_eq!(page.id, "http://localhost:8080/annotation-page/test/p1");
    let anno = &page.items.as_ref().unwrap()[0];
    assert_eq!(anno.id, "http://localhost:8080/annotation/test/p1-image");
    assert_eq!(anno.motivation, "painting");
    assert_eq!(anno.body.id, "http://localhost:8080/test/full/max/0/default.jpg");
    assert!(matches!(&anno.target, AnnotationTarget::Id(t) if t == "http://localhost:8080/canvas/test/p1"));
    assert_eq!(m.part_of.as_ref().unwrap()[0].id, "http://localhost:8080/collection/top");
    assert_eq!(m.viewing_direction.as_deref(), Some("left-to-right"));
}

#[test]
fn root_collection_lists_manifests() {
    let config = AppConfig::default();
    let images = vec![("a".to_string(), 400u32, 300u32), ("b".to_string(), 1000u32, 1u32)];
    let c = build_root_collection(&images, &config);
    assert_eq!(c.id, "http://localhost:8080/collection/top");
    assert_eq!(values(&c.label, "en"), &vec!["All Images".to_string()]);
    assert_eq!(values(c.summary.as_ref().unwrap(), "en"), &vec!["2 items".to_string()]);
    assert_eq!(c.items.len(), 2);
    assert_eq!(c.items[0].id, "http://localhost:8080/manifest/a");
    assert_eq!(c.items[0].resource_type, "Manifest");
    assert_eq!(c.items[0].thumbnail.as_ref().unwrap()[0].height, Some(150));
    assert_eq!(c.items[1].thumbnail.as_ref().unwrap()[0].height, Some(1));
}

#[test]
fn content_negotiation() {
    assert_eq!(negotiate("").unwrap(), NegotiatedType::JsonLd);
    assert_eq!(negotiate("*/*").unwrap(), NegotiatedType::JsonLd);
    assert_eq!(negotiate("application/json").unwrap(), NegotiatedType::Json);
    assert_eq!(
        negotiate("text/plain").unwrap_err(),
        IiifError::NotAcceptable(
            "Unsupported Accept header: `text/plain`. Supported: application/ld+json, application/json.".to_string()
        )
    );
    assert_eq!(content_type_of(NegotiatedType::Json), "application/json");
    assert_eq!(
        content_type_of(NegotiatedType::JsonLd),
        "application/ld+json;profile=\"http://iiif.io/api/presentation/3/context.json\""
    );
}

#[test]
fn unknown_children_are_not_found() {
    assert!(check_canvas("img", "p1").is_ok());
    assert_eq!(check_canvas("anything", "p999").unwrap_err(), IiifError::NotFound("Canvas not found: anything/p999".to_string()));
    assert!(check_annotation_page("img", "p1").is_ok());
    assert_eq!(
        check_annotation_page("img", "p2").unwrap_err(),
        IiifError::NotFound("AnnotationPage not found: img/p2".to_string())
    );
    assert!(check_annotation("img", "p1-image").is_ok());
    assert!(check_annotation("img", "p1").is_err());
    assert_eq!(range_not_found("anything", "r1"), IiifError::NotFound("Range not found: anything/r1".to_string()));
    assert!(check_collection("top").is_ok());
    assert_eq!(
        check_collection("nonexistent").unwrap_err(),
        IiifError::NotFound("Collection not found: nonexistent".to_string())
    );
}

#[test]
fn scan_lists_image_files_by_stem() {
    assert_eq!(scanned_image_stem("photo.JPG"), Some("photo".to_string()));
    assert_eq!(scanned_image_stem("a.b.tiff"), Some("a.b".to_string()));
    assert_eq!(scanned_image_stem("notes.txt"), None);
    assert_eq!(scanned_image_stem(".jpg"), None);
    assert_eq!(scanned_image_stem("README"), None);
    assert_eq!(scanned_image_stem("scan.jp2"), None);
}

#[test]
fn sidecar_fields_merge_into_manifest() {
    let config = AppConfig::default();
    let sc = Sidecar {
        label: Some("The Creation of the World".to_string()),
        language: Some("en".to_string()),
        summary: Some("Genesis".to_string()),
        rights: Some("https://creativecommons.org/licenses/by/4.0/".to_string()),
        metadata: vec![MetadataPair { label: "Date".to_string(), value: "13th century".to_string() }],
        provider: Some(SidecarProvider {
            id: "http://example.org/bnf".to_string(),
            label: "BnF".to_string(),
            homepage: None,
        }),
    };
    let m = build_manifest_for_image("genesis", 400, 300, &config, false, Some(&sc));
    assert_eq!(values(&m.label, "en"), &vec!["The Creation of the World".to_string()]);
    assert_eq!(values(m.summary.as_ref().unwrap(), "en"), &vec!["Genesis".to_string()]);
    assert_eq!(m.rights.as_deref(), Some("https://creativecommons.org/licenses/by/4.0/"));
    let md = m.metadata.as_ref().unwrap();
    assert_eq!(md.len(), 1);
    assert_eq!(values(&md[0].value, "en"), &vec!["13th century".to_string()]);
    assert_eq!(m.provider.as_ref().unwrap()[0].id, "http://example.org/bnf");
    assert!(m.service.is_none());
    let bare = Sidecar { summary: Some("s".to_string()), ..Sidecar::default() };
    let m2 = build_manifest_for_image("genesis", 400, 300, &config, false, Some(&bare));
    assert_eq!(values(&m2.label, "none"), &vec!["genesis".to_string()]);
}

#[test]
fn protected_manifest_carries_probe_service() {
    let config = AppConfig::default();
    let m = build_manifest_for_image("secret", 400, 300, &config, true, None);
    match &m.context {
        ContextValue::Multiple(v) => assert_eq!(
            v,
            &vec![
                "http://iiif.io/api/auth/2/context.json".to_string(),
                "http://iiif.io/api/presentation/3/context.json".to_string()
            ]
        ),
        _ => panic!("expected a context list"),
    }
    let services = m.service.as_ref().unwrap();
    assert_eq!(services.len(), 1);
    match &services[0] {
        Service::AuthProbeService2(p) => assert_eq!(p.id, "http://localhost:8080/auth/probe/secret"),
        _ => panic!("expected a probe service"),
    }
}

#[test]
fn scanned_entries_sort_by_identifier() {
    let v = vec![
        ("zebra".to_string(), 1u32, 1u32),
        ("apple".to_string(), 2u32, 2u32),
        ("Mango".to_string(), 3u32, 3u32),
        ("apple".to_string(), 4u32, 4u32),
    ];
    let r = sort_entries(v);
    let ids: Vec<&str> = r.iter().map(|e| e.0.as_str()).collect();
    assert_eq!(ids, vec!["Mango", "apple", "apple", "zebra"]);
    assert_eq!((r[1].1, r[2].1), (2, 4));
    assert!(sort_entries(Vec::new()).is_empty());
}
