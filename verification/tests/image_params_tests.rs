use iiif::decimal::Decimal;
use iiif::error::IiifError;
use iiif::image_params::{fit_within, parse_u32, parse_wh, scale_dimension, Region, Rotation, Size, SizeMode};
use iiif::quality_format::{parse_quality_format, OutputFormat, Quality};

fn dec(mantissa: u64, scale: u32) -> Decimal {
    Decimal { negative: false, mantissa, scale }
}

#[test]
fn parse_all_formats() {
    assert_eq!("jpg".parse::<OutputFormat>().unwrap(), OutputFormat::Jpg);
    assert_eq!("jpeg".parse::<OutputFormat>().unwrap(), OutputFormat::Jpg);
    assert_eq!("png".parse::<OutputFormat>().unwrap(), OutputFormat::Png);
    assert_eq!("gif".parse::<OutputFormat>().unwrap(), OutputFormat::Gif);
    assert_eq!("webp".parse::<OutputFormat>().unwrap(), OutputFormat::Webp);
    assert_eq!("tif".parse::<OutputFormat>().unwrap(), OutputFormat::Tif);
    assert_eq!("tiff".parse::<OutputFormat>().unwrap(), OutputFormat::Tif);
}

#[test]
fn format_reject_unknown() {
    assert!("bmp".parse::<OutputFormat>().is_err());
    assert!("pdf".parse::<OutputFormat>().is_err());
}

#[test]
fn content_types() {
    assert_eq!(OutputFormat::Jpg.content_type(), "image/jpeg");
    assert_eq!(OutputFormat::Png.content_type(), "image/png");
    assert_eq!(OutputFormat::Webp.content_type(), "image/webp");
}

#[test]
fn format_extensions_and_types() {
    assert_eq!(OutputFormat::Jpg.extension(), "jpg");
    assert_eq!(OutputFormat::Tif.extension(), "tif");
    assert_eq!(OutputFormat::Gif.content_type(), "image/gif");
    assert_eq!(OutputFormat::Tif.content_type(), "image/tiff");
}

#[test]
fn parse_quality_format_valid() {
    let (q, f) = parse_quality_format("default.jpg").unwrap();
    assert_eq!(q, Quality::Default);
    assert_eq!(f, OutputFormat::Jpg);
}

#[test]
fn parse_quality_format_gray_png() {
    let (q, f) = parse_quality_format("gray.png").unwrap();
    assert_eq!(q, Quality::Gray);
    assert_eq!(f, OutputFormat::Png);
}

#[test]
fn parse_quality_format_missing_dot() {
    assert!(parse_quality_format("defaultjpg").is_err());
}

#[test]
fn parse_quality_format_empty_parts() {
    assert!(parse_quality_format(".jpg").is_err());
    assert!(parse_quality_format("default.").is_err());
}

#[test]
fn quality_format_splits_at_last_dot() {
    assert!(parse_quality_format("default.tar.jpg").is_err());
    assert_eq!(parse_quality_format("bitonal.tiff").unwrap(), (Quality::Bitonal, OutputFormat::Tif));
}

#[test]
fn parse_all_qualities() {
    assert_eq!("default".parse::<Quality>().unwrap(), Quality::Default);
    assert_eq!("color".parse::<Quality>().unwrap(), Quality::Color);
    assert_eq!("gray".parse::<Quality>().unwrap(), Quality::Gray);
    assert_eq!("bitonal".parse::<Quality>().unwrap(), Quality::Bitonal);
}

#[test]
fn quality_reject_unknown() {
    assert!("sepia".parse::<Quality>().is_err());
    assert!("Color".parse::<Quality>().is_err());
}

#[test]
fn display_roundtrip() {
    for q in [Quality::Default, Quality::Color, Quality::Gray, Quality::Bitonal] {
        assert_eq!(q.as_str().parse::<Quality>().unwrap(), q);
    }
}

#[test]
fn parse_full() {
    assert_eq!(Region::parse("full").unwrap(), Region::Full);
}

#[test]
fn parse_square() {
    assert_eq!(Region::parse("square").unwrap(), Region::Square);
}

#[test]
fn parse_absolute() {
    let r = Region::parse("10,20,300,400").unwrap();
    assert_eq!(r, Region::Absolute { x: 10, y: 20, w: 300, h: 400 });
}

#[test]
fn region_parse_percent() {
    let r = Region::parse("pct:10.5,20,30,40.5").unwrap();
    assert_eq!(r, Region::Percent { x: dec(105, 1), y: dec(20, 0), w: dec(30, 0), h: dec(405, 1) });
}

#[test]
fn reject_invalid() {
    assert!(Region::parse("pct:10,20").is_err());
    assert!(Region::parse("10,20").is_err());
    assert!(Region::parse("invalid").is_err());
}

#[test]
fn resolve_full() {
    let r = Region::Full.resolve(800, 600).unwrap();
    assert_eq!(r, (0, 0, 800, 600));
}

#[test]
fn resolve_square_landscape() {
    let r = Region::Square.resolve(800, 600).unwrap();
    assert_eq!(r, (100, 0, 600, 600));
}

#[test]
fn resolve_square_portrait() {
    let r = Region::Square.resolve(400, 600).unwrap();
    assert_eq!(r, (0, 100, 400, 400));
}

#[test]
fn resolve_clamps_to_bounds() {
    let r = Region::Absolute { x: 700, y: 500, w: 200, h: 200 }.resolve(800, 600).unwrap();
    assert_eq!(r, (700, 500, 100, 100));
}

#[test]
fn resolve_rejects_zero_dimensions() {
    assert!(Region::Absolute { x: 0, y: 0, w: 0, h: 100 }.resolve(800, 600).is_err());
}

#[test]
fn resolve_rejects_outside_bounds() {
    assert!(Region::Absolute { x: 800, y: 0, w: 100, h: 100 }.resolve(800, 600).is_err());
}

#[test]
fn percent_region_resolves_by_rounding() {
    let r = Region::parse("pct:10,10,50,50").unwrap();
    assert_eq!(r.resolve(800, 600).unwrap(), (80, 60, 400, 300));
    let r = Region::parse("pct:0,0,33.3,100").unwrap();
    assert_eq!(r.resolve(1000, 10).unwrap(), (0, 0, 333, 10));
}

#[test]
fn region_errors_name_the_field() {
    assert_eq!(
        Region::parse("a,0,1,1").unwrap_err(),
        IiifError::BadRequest("Invalid integer for region x: a".to_string())
    );
    assert_eq!(
        Region::parse("pct:1,b,1,1").unwrap_err(),
        IiifError::BadRequest("Invalid number for region y: b".to_string())
    );
}

#[test]
fn parse_max() {
    let s = Size::parse("max").unwrap();
    assert_eq!(s.mode, SizeMode::Max);
    assert!(!s.upscale);
}

#[test]
fn parse_upscale_max() {
    let s = Size::parse("^max").unwrap();
    assert_eq!(s.mode, SizeMode::Max);
    assert!(s.upscale);
}

#[test]
fn parse_width() {
    let s = Size::parse("300,").unwrap();
    assert_eq!(s.mode, SizeMode::Width(300));
    assert!(!s.upscale);
}

#[test]
fn parse_height() {
    let s = Size::parse(",200").unwrap();
    assert_eq!(s.mode, SizeMode::Height(200));
}

#[test]
fn size_parse_percent() {
    let s = Size::parse("pct:50").unwrap();
    assert_eq!(s.mode, SizeMode::Percent(dec(50, 0)));
}

#[test]
fn parse_exact() {
    let s = Size::parse("300,200").unwrap();
    assert_eq!(s.mode, SizeMode::Exact { w: 300, h: 200 });
}

#[test]
fn parse_best_fit() {
    let s = Size::parse("!300,200").unwrap();
    assert_eq!(s.mode, SizeMode::BestFit { w: 300, h: 200 });
}

#[test]
fn parse_upscale_best_fit() {
    let s = Size::parse("^!300,200").unwrap();
    assert_eq!(s.mode, SizeMode::BestFit { w: 300, h: 200 });
    assert!(s.upscale);
}

#[test]
fn resolve_max_no_limits() {
    let s = Size { mode: SizeMode::Max, upscale: false };
    assert_eq!(s.resolve(800, 600, None, None, None).unwrap(), (800, 600));
}

#[test]
fn resolve_max_with_limits() {
    let s = Size { mode: SizeMode::Max, upscale: false };
    assert_eq!(s.resolve(800, 600, Some(400), None, None).unwrap(), (400, 300));
}

#[test]
fn resolve_width_scales_proportionally() {
    let s = Size { mode: SizeMode::Width(400), upscale: false };
    assert_eq!(s.resolve(800, 600, None, None, None).unwrap(), (400, 300));
}

#[test]
fn resolve_width_rejects_upscale() {
    let s = Size { mode: SizeMode::Width(1000), upscale: false };
    assert!(s.resolve(800, 600, None, None, None).is_err());
}

#[test]
fn resolve_best_fit() {
    let s = Size { mode: SizeMode::BestFit { w: 200, h: 200 }, upscale: false };
    let (w, h) = s.resolve(800, 600, None, None, None).unwrap();
    assert!(w <= 200 && h <= 200);
    assert_eq!((w, h), (200, 150));
}

#[test]
fn resolve_respects_max_area() {
    let s = Size { mode: SizeMode::Max, upscale: false };
    assert_eq!(s.resolve(1000, 1000, None, None, Some(250_000)).unwrap(), (500, 500));
    let s = Size::parse("^pct:200").unwrap();
    assert_eq!(s.resolve(100, 50, None, None, None).unwrap(), (200, 100));
    let s = Size::parse("pct:200").unwrap();
    assert!(s.resolve(100, 50, None, None, None).is_err());
}

#[test]
fn size_arithmetic_helpers() {
    assert_eq!(scale_dimension(600, 400, 800), 300);
    assert_eq!(scale_dimension(1, 1, 3), 1);
    assert_eq!(scale_dimension(5, 5, 0), 1);
    assert_eq!(fit_within(800, 600, 200, 200), (200, 150));
    assert_eq!(fit_within(600, 800, 200, 200), (150, 200));
    assert_eq!(parse_wh("300,200").unwrap(), (300, 200));
    assert!(parse_wh("300").is_err());
    assert_eq!(parse_u32("42", "width").unwrap(), 42);
    assert_eq!(
        parse_u32("4x", "width").unwrap_err(),
        IiifError::BadRequest("Invalid integer for width: 4x".to_string())
    );
}

#[test]
fn parse_zero() {
    let r = Rotation::parse("0").unwrap();
    assert!(!r.mirror);
    assert_eq!(r.degrees, dec(0, 0));
    assert!(r.is_noop());
}

#[test]
fn parse_90() {
    let r = Rotation::parse("90").unwrap();
    assert_eq!(r.degrees, dec(90, 0));
    assert!(r.is_orthogonal());
}

#[test]
fn parse_mirror_180() {
    let r = Rotation::parse("!180").unwrap();
    assert!(r.mirror);
    assert_eq!(r.degrees, dec(180, 0));
}

#[test]
fn parse_arbitrary() {
    let r = Rotation::parse("22.5").unwrap();
    assert_eq!(r.degrees, dec(225, 1));
    assert!(!r.is_orthogonal());
}

#[test]
fn reject_out_of_range() {
    assert!(Rotation::parse("361").is_err());
    assert!(Rotation::parse("-1").is_err());
}

#[test]
fn reject_empty() {
    assert!(Rotation::parse("").is_err());
    assert!(Rotation::parse("!").is_err());
}

#[test]
fn display_integer() {
    let r = Rotation { mirror: false, degrees: dec(90, 0) };
    assert_eq!(r.to_text(), "90");
}

#[test]
fn display_mirror_float() {
    let r = Rotation { mirror: true, degrees: dec(225, 1) };
    assert_eq!(r.to_text(), "!22.5");
}

#[test]
fn rotation_edge_values() {
    assert!(Rotation::parse("360").unwrap().is_noop());
    assert!(!Rotation::parse("!0").unwrap().is_noop());
    assert_eq!(Rotation::parse("90.0").unwrap().to_text(), "90");
    assert_eq!(
        Rotation::parse("361").unwrap_err(),
        IiifError::BadRequest("Rotation must be between 0 and 360, got 361".to_string())
    );
}
