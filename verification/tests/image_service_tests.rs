use iiif::config::{AppConfig, ImageConfig};
use iiif::decimal::Decimal;
use iiif::error::IiifError;
use iiif::image_params::{Region, Rotation, Size};
use iiif::image_service::{
    build_canonical_uri, compute_etag, disk_cache_path, generate_sizes, get_dimensions, dimensions_from_header, if_none_match_matches, image_link,
    info_content_type, info_redirect_location, is_not_modified, plan_processing, profile_link, ImageInfo,
    ImageRequest, Turn,
};
use iiif::quality_format::{OutputFormat, Quality};

fn config() -> ImageConfig {
    ImageConfig {
        max_width: Some(4096),
        max_height: Some(4096),
        max_area: Some(16_777_216),
        allow_upscaling: true,
        tile_width: 512,
        tile_scale_factors: vec![1, 2, 4, 8, 16],
    }
}

#[test]
fn generate_sizes_produces_pyramid() {
    let sizes = generate_sizes(4000, 3000);
    assert!(sizes.len() > 1);
    for pair in sizes.windows(2) {
        assert!(pair[0].width < pair[1].width);
    }
    assert_eq!(sizes.last().unwrap().width, 4000);
    assert_eq!(sizes.last().unwrap().height, 3000);
}

#[test]
fn size_pyramid_exact_values() {
    let pairs: Vec<(u32, u32)> = generate_sizes(4000, 3000).iter().map(|s| (s.width, s.height)).collect();
    assert_eq!(pairs, vec![(125, 93), (250, 187), (500, 375), (1000, 750), (2000, 1500), (4000, 3000)]);
    let small: Vec<(u32, u32)> = generate_sizes(100, 50).iter().map(|s| (s.width, s.height)).collect();
    assert_eq!(small, vec![(100, 50)]);
    let zero: Vec<(u32, u32)> = generate_sizes(0, 0).iter().map(|s| (s.width, s.height)).collect();
    assert_eq!(zero, vec![(1, 1)]);
    let square: Vec<(u32, u32)> = generate_sizes(256, 256).iter().map(|s| (s.width, s.height)).collect();
    assert_eq!(square, vec![(64, 64), (128, 128), (256, 256)]);
}

#[test]
fn info_json_serializes_correctly() {
    let info = ImageInfo::build("http://localhost:8080", "test123", 6000, 4000, &config());
    assert_eq!(info.context, "http://iiif.io/api/image/3/context.json");
    assert_eq!(info.resource_type, "ImageService3");
    assert_eq!(info.protocol, "http://iiif.io/api/image");
    assert_eq!(info.profile, "level2");
}

#[test]
fn info_document_fields() {
    let info = ImageInfo::build("http://localhost:8080", "test123", 6000, 4000, &config());
    assert_eq!(info.id, "http://localhost:8080/test123");
    assert_eq!((info.width, info.height), (6000, 4000));
    assert_eq!(info.max_area, Some(16_777_216));
    let tiles = info.tiles.unwrap();
    assert_eq!(tiles.len(), 1);
    assert_eq!(tiles[0].width, 512);
    assert_eq!(tiles[0].scale_factors, vec![1, 2, 4, 8, 16]);
    assert_eq!(info.extra_qualities.unwrap(), vec!["color", "gray", "bitonal"]);
    assert_eq!(info.preferred_formats.unwrap(), vec!["webp", "jpg"]);
    assert_eq!(info.sizes.unwrap().last().unwrap().width, 6000);
    assert!(info.rights.is_none());
}

#[test]
fn info_content_negotiation() {
    let ld = "application/ld+json;profile=\"http://iiif.io/api/image/3/context.json\"";
    assert_eq!(info_content_type(""), ld);
    assert_eq!(info_content_type("application/json"), "application/json");
    assert_eq!(info_content_type("application/json, application/ld+json"), ld);
}

#[test]
fn etags_are_quoted_hex_and_deterministic() {
    let a = compute_etag("img", Some(1_700_000_000), "full/max/0/default.jpg");
    let b = compute_etag("img", Some(1_700_000_000), "full/max/0/default.jpg");
    let c = compute_etag("img", Some(1_700_000_000), "full/max/90/default.jpg");
    assert_eq!(a, b);
    assert_ne!(a, c);
    assert_eq!(a.len(), 18);
    assert!(a.starts_with('"') && a.ends_with('"'));
    assert!(a[1..17].chars().all(|ch| ch.is_ascii_hexdigit() && !ch.is_ascii_uppercase()));
    assert_ne!(compute_etag("img", None, "p"), compute_etag("img", Some(0), "p"));
}

#[test]
fn disk_cache_paths_hash_the_key() {
    let p = disk_cache_path("cache", "img/full/max/0/default.jpg", &OutputFormat::Jpg);
    assert!(p.starts_with("cache/"));
    assert!(p.ends_with(".jpg"));
    assert_eq!(p.len(), "cache/".len() + 16 + ".jpg".len());
    assert_ne!(p, disk_cache_path("cache", "other", &OutputFormat::Jpg));
    assert!(disk_cache_path("cache/", "k", &OutputFormat::Png).starts_with("cache/"));
}

#[test]
fn conditional_requests() {
    let etag = "\"abc\"";
    assert!(if_none_match_matches("\"abc\"", etag));
    assert!(if_none_match_matches("*", etag));
    assert!(if_none_match_matches("\"x\", \"abc\"", etag));
    assert!(!if_none_match_matches("\"x\"", etag));
    assert!(is_not_modified(Some("\"abc\""), etag, Some(false)));
    assert!(is_not_modified(None, etag, Some(true)));
    assert!(!is_not_modified(Some("\"zzz\""), etag, None));
}

#[test]
fn link_headers_and_redirect() {
    assert_eq!(profile_link(), "<http://iiif.io/api/image/3/level2.json>;rel=\"profile\"");
    assert_eq!(
        image_link("http://x/i/full/max/0/default.jpg"),
        "<http://iiif.io/api/image/3/level2.json>;rel=\"profile\",<http://x/i/full/max/0/default.jpg>;rel=\"canonical\""
    );
    assert_eq!(info_redirect_location("http://localhost:8080", "some-image").unwrap(), "http://localhost:8080/some-image/info.json");
    assert!(matches!(info_redirect_location("http://x", "..%2Fpasswd"), Err(IiifError::BadRequest(_))));
    assert!(matches!(info_redirect_location("http://x", "bad%C3"), Err(IiifError::BadRequest(_))));
}

#[test]
fn image_request_parses_segments_in_order() {
    let r = ImageRequest::parse("img", "full", "max", "0", "default.jpg").unwrap();
    assert_eq!(r.identifier.as_str(), "img");
    assert_eq!(r.region, Region::Full);
    assert_eq!(r.quality, Quality::Default);
    assert_eq!(r.format, OutputFormat::Jpg);
    assert!(matches!(
        ImageRequest::parse("img", "notaregion", "max", "0", "default.jpg"),
        Err(IiifError::BadRequest(_))
    ));
    assert!(matches!(ImageRequest::parse("..%2Fpasswd", "full", "max", "0", "default.jpg"), Err(IiifError::BadRequest(_))));
    assert!(ImageRequest::parse("img", "full", "max", "0", "default.bmp").is_err());
    assert!(ImageRequest::parse("img", "full", "0,0", "0", "default.jpg").is_err());
}

#[test]
fn canonical_uris() {
    let cfg = AppConfig::default().image;
    let rot0 = Rotation::parse("0").unwrap();
    let full = build_canonical_uri(
        "http://localhost:8080", "img", &Region::Full, &Size::parse("max").unwrap(), &rot0,
        &Quality::Default, &OutputFormat::Jpg, 800, 600, &cfg,
    );
    assert_eq!(full, "http://localhost:8080/img/full/max/0/default.jpg");
    let square = build_canonical_uri(
        "http://x", "img", &Region::Square, &Size::parse("300,").unwrap(), &Rotation::parse("!90").unwrap(),
        &Quality::Gray, &OutputFormat::Png, 800, 600, &cfg,
    );
    assert_eq!(square, "http://x/img/100,0,600,600/300,300/!90/gray.png");
    let up = build_canonical_uri(
        "http://x", "img", &Region::Full, &Size::parse("^pct:200").unwrap(), &rot0,
        &Quality::Default, &OutputFormat::Jpg, 100, 50, &cfg,
    );
    assert_eq!(up, "http://x/img/full/^200,100/0/default.jpg");
}

#[test]
fn processing_plans() {
    let cfg = config();
    let p = plan_processing(&Region::Full, &Size::parse("max").unwrap(), &Rotation::parse("90").unwrap(), 800, 600, &cfg).unwrap();
    assert_eq!(p.crop, None);
    assert_eq!(p.resize, None);
    assert_eq!(p.turn, Turn::Quarter);
    let p = plan_processing(
        &Region::parse("10,10,100,100").unwrap(), &Size::parse("50,").unwrap(), &Rotation::parse("!22.5").unwrap(),
        800, 600, &cfg,
    )
    .unwrap();
    assert_eq!(p.crop, Some((10, 10, 100, 100)));
    assert_eq!(p.resize, Some((50, 50)));
    assert!(p.mirror);
    assert_eq!(p.turn, Turn::Other(Decimal { negative: false, mantissa: 225, scale: 1 }));
    let mut no_up = config();
    no_up.allow_upscaling = false;
    assert_eq!(
        plan_processing(&Region::Full, &Size::parse("^1600,").unwrap(), &Rotation::parse("0").unwrap(), 800, 600, &no_up)
            .unwrap_err(),
        IiifError::NotImplemented("Upscaling is not supported by this server".to_string())
    );
    assert!(matches!(
        plan_processing(&Region::parse("900,0,10,10").unwrap(), &Size::parse("max").unwrap(), &Rotation::parse("0").unwrap(), 800, 600, &cfg),
        Err(IiifError::BadRequest(_))
    ));
}

#[test]
fn dimensions_come_from_the_header() {
    let img = image::RgbImage::new(3, 2);
    let mut bytes = std::io::Cursor::new(Vec::new());
    img.write_to(&mut bytes, image::ImageFormat::Png).unwrap();
    assert_eq!(get_dimensions(bytes.get_ref()), Ok((3, 2)));
    match get_dimensions(b"not an image") {
        Err(IiifError::ImageProcessing(m)) => assert!(m.starts_with("Failed to")),
        other => panic!("unexpected {other:?}"),
    }
}

#[test]
fn header_outcomes_map_to_errors() {
    assert_eq!(dimensions_from_header(Ok((640, 480))), Ok((640, 480)));
    assert_eq!(
        dimensions_from_header(Err((true, "bad".to_string()))),
        Err(IiifError::ImageProcessing("Failed to guess image format: bad".to_string()))
    );
    assert_eq!(
        dimensions_from_header(Err((false, "short".to_string()))),
        Err(IiifError::ImageProcessing("Failed to read image dimensions: short".to_string()))
    );
}

#[test]
fn info_leaves_linking_properties_empty() {
    let info = ImageInfo::build("http://localhost:8080", "img", 100, 50, &config());
    assert!(info.part_of.is_none() && info.see_also.is_none() && info.service.is_none());
    assert!(info.homepage.is_none() && info.logo.is_none() && info.rendering.is_none() && info.provider.is_none());
}
