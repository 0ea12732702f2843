//! The Image API 3.0 service: info.json documents, parsed image requests,
//! canonical URIs, the processing plan of a request, and HTTP caching
//! (ETags, conditional requests, disk cache names).
use vstd::prelude::*;

use std::hash::BuildHasher;

use crate::config::ImageConfig;
use crate::decimal::{decimal_text, lemma_pow10_monotone, push_decimal_text, Decimal};
use crate::error::IiifError;
use crate::identifier::{decoded_identifier, ImageIdentifier};
use crate::image_params::{
    max_u32, outcome_is, region_box, region_spec, region_wf, rotation_spec, rotation_text,
    size_box, size_spec, size_wf, Region, Rotation, Size, SizeMode,
};
use crate::quality_format::{
    format_extension, quality_format_of, quality_name, parse_quality_format, OutputFormat, Quality,
};
use crate::storage::joined_path;
use crate::text::{
    concat2, concat3, decimal, decimal_string, hex_fixed, push_char, push_decimal, push_hex_fixed,
    split_chars, split_on, str_chars, str_eq, contains_chars, contains_seq, string_views,
};
use crate::auth_flow::trimmed;

verus! {

/// What the `image` crate reads from the header of an encoded image: its
/// width and height, or the text of the error together with whether it came
/// from guessing the format (`true`) or from reading the dimensions.
pub uninterp spec fn header_dimensions(bytes: Seq<u8>) -> Result<(u32, u32), (bool, Seq<char>)>;

/// Reads the dimensions from an encoded image's header; wraps
/// `image::ImageReader::new(Cursor::new(source)).with_guessed_format()` and
/// `ImageReader::into_dimensions`, giving each error's text with the stage
/// that raised it. The result is a function of the bytes alone.
#[verifier::external_body]
fn read_header_dimensions(source: &[u8]) -> (r: Result<(u32, u32), (bool, String)>)
    ensures
        match r {
            Ok(d) => header_dimensions(source@) == Ok::<(u32, u32), (bool, Seq<char>)>(d),
            Err(e) => header_dimensions(source@) == Err::<(u32, u32), (bool, Seq<char>)>((e.0, e.1@)),
        },
{
    let reader = image::ImageReader::new(std::io::Cursor::new(source))
        .with_guessed_format()
        .map_err(|e| (true, e.to_string()))?;
    reader.into_dimensions().map_err(|e| (false, e.to_string()))
}

/// The message of a failed header read.
pub open spec fn dimensions_error(guessing: bool, text: Seq<char>) -> Seq<char> {
    if guessing {
        "Failed to guess image format: "@ + text
    } else {
        "Failed to read image dimensions: "@ + text
    }
}

/// The outcome of reading an image header: its width and height, or an
/// `ImageProcessing` error naming the stage that failed and its text.
pub fn dimensions_from_header(header: Result<(u32, u32), (bool, String)>) -> (r: Result<(u32, u32), IiifError>)
    ensures
        match header {
            Ok(d) => r == Ok::<(u32, u32), IiifError>(d),
            Err(e) => r matches Err(IiifError::ImageProcessing(m)) && m@ == dimensions_error(e.0, e.1@),
        },
{
    match header {
        Ok(d) => Ok(d),
        Err((guessing, text)) => {
            if guessing {
                Err(IiifError::ImageProcessing(concat2("Failed to guess image format: ", text.as_str())))
            } else {
                Err(IiifError::ImageProcessing(concat2("Failed to read image dimensions: ", text.as_str())))
            }
        },
    }
}

/// The width and height of an encoded image, read from its header without
/// decoding it; an `ImageProcessing` error when the header cannot be read.
pub fn get_dimensions(source: &[u8]) -> (r: Result<(u32, u32), IiifError>)
    ensures
        match header_dimensions(source@) {
            Ok(d) => r == Ok::<(u32, u32), IiifError>(d),
            Err(e) => r matches Err(IiifError::ImageProcessing(m)) && m@ == dimensions_error(e.0, e.1),
        },
{
    dimensions_from_header(read_header_dimensions(source))
}

/// The profile document of Image API level 2.
pub open spec fn profile_uri() -> Seq<char> {
    "http://iiif.io/api/image/3/level2.json"@
}

/// A preferred size of an image.
#[derive(Debug, Clone, Copy, PartialEq, Eq)]
pub struct SizeEntry {
    pub width: u32,
    pub height: u32,
}

/// The tiles an image service offers.
#[derive(Debug, Clone)]
pub struct TileEntry {
    pub width: u32,
    pub height: Option<u32>,
    pub scale_factors: Vec<u32>,
}

/// The sizes from `(w, h)` down, halving while both sides are at least 128.
pub open spec fn halvings(w: u32, h: u32) -> Seq<(u32, u32)>
    decreases w,
{
    if w >= 128 && h >= 128 {
        seq![(w, h)] + halvings(w / 2, h / 2)
    } else {
        Seq::empty()
    }
}

/// The size the halving stops at.
pub open spec fn halving_end(w: u32, h: u32) -> (u32, u32)
    decreases w,
{
    if w >= 128 && h >= 128 {
        halving_end(w / 2, h / 2)
    } else {
        (w, h)
    }
}

/// The preferred sizes of an image, smallest first: the halvings of its
/// full size, with the size the halving stops at (at least 1×1) added when
/// it is not empty or when nothing else was listed.
pub open spec fn size_pyramid(w: u32, h: u32) -> Seq<(u32, u32)> {
    let hs = halvings(w, h);
    let (ew, eh) = halving_end(w, h);
    let all = if hs.len() == 0 || (ew > 0 && eh > 0) {
        hs.push((max_u32(ew, 1), max_u32(eh, 1)))
    } else {
        hs
    };
    all.reverse()
}

/// The entries as width and height pairs.
pub open spec fn size_pairs(v: Seq<SizeEntry>) -> Seq<(u32, u32)> {
    v.map_values(|e: SizeEntry| (e.width, e.height))
}

/// Generate the preferred sizes by halving dimensions until below 128px,
/// smallest first.
pub fn generate_sizes(width: u32, height: u32) -> (r: Vec<SizeEntry>)
    ensures
        size_pairs(r@) == size_pyramid(width, height),
{
    let mut sizes: Vec<SizeEntry> = Vec::new();
    let mut w = width;
    let mut h = height;
    while w >= 128 && h >= 128
        invariant
            size_pairs(sizes@) + halvings(w, h) == halvings(width, height),
            halving_end(w, h) == halving_end(width, height),
        decreases w,
    {
        let ghost before = size_pairs(sizes@);
        sizes.push(SizeEntry { width: w, height: h });
        assert(size_pairs(sizes@) =~= before.push((w, h)));
        assert(before + halvings(w, h) =~= before.push((w, h)) + halvings(w / 2, h / 2));
        w = w / 2;
        h = h / 2;
    }
    assert(halvings(w, h).len() == 0);
    assert(size_pairs(sizes@) =~= halvings(width, height));
    if sizes.len() == 0 || (w > 0 && h > 0) {
        sizes.push(
            SizeEntry {
                width: if w >= 1 {
                    w
                } else {
                    1
                },
                height: if h >= 1 {
                    h
                } else {
                    1
                },
            },
        );
    }
    let ghost all = size_pairs(sizes@);
    let mut out: Vec<SizeEntry> = Vec::new();
    let mut i: usize = sizes.len();
    while i > 0
        invariant
            i <= sizes@.len(),
            all == size_pairs(sizes@),
            out@.len() == sizes@.len() - i,
            forall|k: int|
                0 <= k < out@.len() ==> (#[trigger] out@[k]).width == all[all.len() - 1 - k].0
                    && out@[k].height == all[all.len() - 1 - k].1,
        decreases i,
    {
        i = i - 1;
        out.push(sizes[i]);
    }
    assert(size_pairs(out@) =~= all.reverse());
    out
}

proof fn lemma_halvings_shape(w: u32, h: u32)
    ensures
        forall|i: int| 0 <= i < halvings(w, h).len() ==> (#[trigger] halvings(w, h)[i]).0 >= 128,
        forall|i: int|
            0 <= i < halvings(w, h).len() - 1 ==> halvings(w, h)[i + 1].0 < (
            #[trigger] halvings(w, h)[i]).0,
        halvings(w, h).len() > 0 ==> halvings(w, h)[0] == (w, h),
        halvings(w, h).len() > 0 ==> halving_end(w, h).0 < halvings(w, h).last().0,
    decreases w,
{
    if w >= 128 && h >= 128 {
        lemma_halvings_shape(w / 2, h / 2);
        let rest = halvings(w / 2, h / 2);
        let all = halvings(w, h);
        assert(all == seq![(w, h)] + rest);
        assert(halving_end(w, h) == halving_end((w / 2) as u32, (h / 2) as u32));
        assert forall|i: int| 0 <= i < all.len() implies (#[trigger] all[i]).0 >= 128 by {
            if i > 0 {
                assert(all[i] == rest[i - 1]);
            }
        }
        assert forall|i: int| 0 <= i < all.len() - 1 implies all[i + 1].0 < (#[trigger] all[i]).0 by {
            assert(all[i + 1] == rest[i]);
            if i > 0 {
                assert(all[i] == rest[i - 1]);
            } else {
                assert(rest.len() > 0);
                assert(rest[0] == ((w / 2) as u32, (h / 2) as u32));
            }
        }
        if rest.len() == 0 {
            assert(all.last() == (w, h));
            assert(halving_end((w / 2) as u32, (h / 2) as u32) == ((w / 2) as u32, (h / 2) as u32));
        } else {
            assert(all.last() == rest.last());
        }
    }
}

/// The preferred sizes ascend in width, and the largest is the full image
/// whenever both sides are at least 128 pixels.
pub proof fn lemma_size_pyramid_ascends(w: u32, h: u32)
    ensures
        forall|i: int|
            0 <= i < size_pyramid(w, h).len() - 1 ==> (#[trigger] size_pyramid(w, h)[i]).0
                < size_pyramid(w, h)[i + 1].0,
        w >= 128 && h >= 128 ==> size_pyramid(w, h).last() == (w, h),
        size_pyramid(w, h).len() >= 1,
{
    lemma_halvings_shape(w, h);
    let hs = halvings(w, h);
    let (ew, eh) = halving_end(w, h);
    let all = if hs.len() == 0 || (ew > 0 && eh > 0) {
        hs.push((max_u32(ew, 1), max_u32(eh, 1)))
    } else {
        hs
    };
    assert(all.len() >= 1) by {
        if hs.len() > 0 {
        }
    }
    assert forall|i: int| 0 <= i < all.len() - 1 implies all[i + 1].0 < (#[trigger] all[i]).0 by {
        if i + 1 < hs.len() {
            assert(all[i] == hs[i] && all[i + 1] == hs[i + 1]);
        } else {
            assert(all[i] == hs[i]);
            assert(hs[i].0 >= 128);
        }
    }
    let r = all.reverse();
    assert forall|i: int| 0 <= i < r.len() - 1 implies (#[trigger] r[i]).0 < r[i + 1].0 by {
        assert(r[i] == all[all.len() - 1 - i]);
        assert(r[i + 1] == all[all.len() - 2 - i]);
        assert(all[(all.len() - 2 - i) + 1] == all[all.len() - 1 - i]);
    }
    if w >= 128 && h >= 128 {
        assert(r.last() == all[0]);
        assert(all[0] == hs[0]);
    }
}

/// A JSON value, as `serde_json` holds one.
#[verifier::external_type_specification]
#[verifier::external_body]
pub struct ExJsonValue(serde_json::Value);

/// An Image API 3.0 info.json document.
#[derive(Debug, Clone)]
pub struct ImageInfo {
    pub context: String,
    pub id: String,
    pub resource_type: String,
    pub protocol: String,
    pub profile: String,
    pub width: u32,
    pub height: u32,
    pub max_width: Option<u32>,
    pub max_height: Option<u32>,
    pub max_area: Option<u64>,
    pub sizes: Option<Vec<SizeEntry>>,
    pub tiles: Option<Vec<TileEntry>>,
    pub extra_qualities: Option<Vec<String>>,
    pub extra_formats: Option<Vec<String>>,
    pub extra_features: Option<Vec<String>>,
    pub preferred_formats: Option<Vec<String>>,
    pub rights: Option<String>,
    pub part_of: Option<Vec<serde_json::Value>>,
    pub see_also: Option<Vec<serde_json::Value>>,
    pub service: Option<Vec<serde_json::Value>>,
    pub homepage: Option<Vec<serde_json::Value>>,
    pub logo: Option<Vec<serde_json::Value>>,
    pub rendering: Option<Vec<serde_json::Value>>,
    pub provider: Option<Vec<serde_json::Value>>,
}

/// The texts of an optional list of strings.
pub open spec fn list_text(v: Option<Vec<String>>) -> Option<Seq<Seq<char>>> {
    match v {
        Some(l) => Some(string_views(l@)),
        None => None,
    }
}

/// The features this server announces.
pub open spec fn extra_features() -> Seq<Seq<char>> {
    seq![
        "baseUriRedirect"@,
        "canonicalLinkHeader"@,
        "cors"@,
        "mirroring"@,
        "profileLinkHeader"@,
        "regionByPct"@,
        "regionByPx"@,
        "regionSquare"@,
        "rotationArbitrary"@,
        "rotationBy90s"@,
        "sizeByConfinedWh"@,
        "sizeByH"@,
        "sizeByPct"@,
        "sizeByW"@,
        "sizeByWh"@,
        "sizeUpscaling"@,
    ]
}

/// The texts of string slices.
pub open spec fn str_views(v: Seq<&str>) -> Seq<Seq<char>> {
    v.map_values(|s: &str| s@)
}

fn strings(items: &[&str]) -> (r: Vec<String>)
    ensures
        string_views(r@) == str_views(items@),
{
    let mut out: Vec<String> = Vec::new();
    let mut i: usize = 0;
    while i < items.len()
        invariant
            i <= items@.len(),
            out@.len() == i,
            string_views(out@) == str_views(items@.take(i as int)),
        decreases items@.len() - i,
    {
        let ghost prev = out@;
        out.push(String::from_str(items[i]));
        assert forall|k: int| 0 <= k < i + 1 implies string_views(out@)[k] == str_views(
            items@.take(i + 1),
        )[k] by {
            if k < i {
                assert(out@[k] == prev[k]);
                assert(string_views(prev)[k] == str_views(items@.take(i as int))[k]);
            }
        }
        assert(string_views(out@) =~= str_views(items@.take(i + 1)));
        i = i + 1;
    }
    assert(items@.take(items@.len() as int) =~= items@);
    out
}

impl ImageInfo {
    /// The info.json of the image `identifier` of `img_width × img_height`.
    pub fn build(base_url: &str, identifier: &str, img_width: u32, img_height: u32, config: &ImageConfig) -> (r:
        Self)
        ensures
            r.context@ == "http://iiif.io/api/image/3/context.json"@,
            r.id@ == base_url@ + "/"@ + identifier@,
            r.resource_type@ == "ImageService3"@,
            r.protocol@ == "http://iiif.io/api/image"@,
            r.profile@ == "level2"@,
            r.width == img_width,
            r.height == img_height,
            r.max_width == config.max_width,
            r.max_height == config.max_height,
            r.max_area == config.max_area,
            r.sizes matches Some(s) && size_pairs(s@) == size_pyramid(img_width, img_height),
            r.tiles matches Some(t) && t@.len() == 1 && t@[0].width == config.tile_width
                && t@[0].height is None && t@[0].scale_factors@ == config.tile_scale_factors@,
            list_text(r.extra_qualities) == Some(seq!["color"@, "gray"@, "bitonal"@]),
            list_text(r.extra_formats) == Some(seq!["png"@, "webp"@]),
            list_text(r.extra_features) == Some(extra_features()),
            list_text(r.preferred_formats) == Some(seq!["webp"@, "jpg"@]),
            r.rights is None,
            r.part_of is None && r.see_also is None && r.service is None && r.homepage is None,
            r.logo is None && r.rendering is None && r.provider is None,
    {
        let id = concat3(base_url, "/", identifier);
        let sizes = generate_sizes(img_width, img_height);
        let mut factors: Vec<u32> = Vec::new();
        let mut i: usize = 0;
        while i < config.tile_scale_factors.len()
            invariant
                i <= config.tile_scale_factors@.len(),
                factors@ == config.tile_scale_factors@.take(i as int),
            decreases config.tile_scale_factors@.len() - i,
        {
            factors.push(config.tile_scale_factors[i]);
            i = i + 1;
            assert(factors@ == config.tile_scale_factors@.take(i as int));
        }
        assert(config.tile_scale_factors@.take(i as int) == config.tile_scale_factors@);
        let mut tiles: Vec<TileEntry> = Vec::new();
        tiles.push(TileEntry { width: config.tile_width, height: None, scale_factors: factors });
        let qualities = strings(&["color", "gray", "bitonal"]);
        let formats = strings(&["png", "webp"]);
        let features = strings(
            &[
                "baseUriRedirect",
                "canonicalLinkHeader",
                "cors",
                "mirroring",
                "profileLinkHeader",
                "regionByPct",
                "regionByPx",
                "regionSquare",
                "rotationArbitrary",
                "rotationBy90s",
                "sizeByConfinedWh",
                "sizeByH",
                "sizeByPct",
                "sizeByW",
                "sizeByWh",
                "sizeUpscaling",
            ],
        );
        let preferred = strings(&["webp", "jpg"]);
        ImageInfo {
            context: String::from_str("http://iiif.io/api/image/3/context.json"),
            id,
            resource_type: String::from_str("ImageService3"),
            protocol: String::from_str("http://iiif.io/api/image"),
            profile: String::from_str("level2"),
            width: img_width,
            height: img_height,
            max_width: config.max_width,
            max_height: config.max_height,
            max_area: config.max_area,
            sizes: Some(sizes),
            tiles: Some(tiles),
            extra_qualities: Some(qualities),
            extra_formats: Some(formats),
            extra_features: Some(features),
            preferred_formats: Some(preferred),
            rights: None,
            part_of: None,
            see_also: None,
            service: None,
            homepage: None,
            logo: None,
            rendering: None,
            provider: None,
        }
    }
}

/// The content type of an info.json response: JSON-LD unless the client
/// asks for plain JSON and not for JSON-LD.
pub open spec fn info_content_type_for(accept: Seq<char>) -> Seq<char> {
    if contains_seq(accept, "application/ld+json"@) || !contains_seq(accept, "application/json"@) {
        "application/ld+json;profile=\"http://iiif.io/api/image/3/context.json\""@
    } else {
        "application/json"@
    }
}

/// Content negotiation for info.json.
pub fn info_content_type(accept: &str) -> (r: &'static str)
    ensures
        r@ == info_content_type_for(accept@),
{
    let a = str_chars(accept);
    let ld = str_chars("application/ld+json");
    let json = str_chars("application/json");
    proof {
        reveal_strlit("application/ld+json");
        reveal_strlit("application/json");
    }
    if contains_chars(a.as_slice(), ld.as_slice()) || !contains_chars(a.as_slice(), json.as_slice()) {
        "application/ld+json;profile=\"http://iiif.io/api/image/3/context.json\""
    } else {
        "application/json"
    }
}

/// The hash the server keys ETags by: `DefaultHasher` fed the identifier,
/// the modification time in whole seconds when known, and the request
/// parameters.
pub uninterp spec fn etag_hash(identifier: Seq<char>, mtime_secs: Option<u64>, params: Seq<char>) -> u64;

/// Hashes an identifier, a modification time in seconds and request
/// parameters; wraps `BuildHasher::hash_one` of `DefaultHasher`'s default
/// builder on the triple, which feeds the three to one hasher in order.
#[verifier::external_body]
fn etag_hasher_timed(identifier: &str, mtime_secs: u64, params: &str) -> (r: u64)
    ensures
        r == etag_hash(identifier@, Some(mtime_secs), params@),
{
    std::hash::BuildHasherDefault::<std::collections::hash_map::DefaultHasher>::default().hash_one((identifier, mtime_secs, params))
}

/// Hashes an identifier and request parameters; wraps
/// `BuildHasher::hash_one` of `DefaultHasher`'s default builder on the pair,
/// which feeds the two to one hasher in order.
#[verifier::external_body]
fn etag_hasher_untimed(identifier: &str, params: &str) -> (r: u64)
    ensures
        r == etag_hash(identifier@, None, params@),
{
    std::hash::BuildHasherDefault::<std::collections::hash_map::DefaultHasher>::default().hash_one((identifier, params))
}

/// An ETag: the hash in sixteen lowercase hex digits, quoted.
pub open spec fn etag_text(identifier: Seq<char>, mtime_secs: Option<u64>, params: Seq<char>) -> Seq<char> {
    "\""@ + hex_fixed(etag_hash(identifier, mtime_secs, params) as nat, 16) + "\""@
}

/// A deterministic ETag from the identifier, the modification time (whole
/// seconds since the epoch, when known) and the request parameters.
pub fn compute_etag(identifier: &str, mtime_secs: Option<u64>, params: &str) -> (r: String)
    ensures
        r@ == etag_text(identifier@, mtime_secs, params@),
{
    let h = match mtime_secs {
        Some(t) => etag_hasher_timed(identifier, t, params),
        None => etag_hasher_untimed(identifier, params),
    };
    let mut s = String::from_str("\"");
    push_hex_fixed(&mut s, h, 16);
    s.append("\"");
    proof {
        reveal_strlit("\"");
    }
    s
}

/// The hash of a disk-cache key: `DefaultHasher` fed the key.
pub uninterp spec fn key_hash(key: Seq<char>) -> u64;

/// Hashes a disk-cache key; wraps `BuildHasher::hash_one` of
/// `DefaultHasher`'s default builder.
#[verifier::external_body]
fn key_hasher(key: &str) -> (r: u64)
    ensures
        r == key_hash(key@),
{
    std::hash::BuildHasherDefault::<std::collections::hash_map::DefaultHasher>::default().hash_one(key)
}

/// The disk-cache file of a processed image: `{dir}/{hash}.{ext}`.
pub open spec fn disk_cache_file(dir: Seq<char>, key: Seq<char>, format: OutputFormat) -> Seq<char> {
    joined_path(dir, hex_fixed(key_hash(key) as nat, 16) + "."@ + format_extension(format))
}

/// The path of a processed image in the disk tile cache.
pub fn disk_cache_path(dir: &str, cache_key: &str, format: &OutputFormat) -> (r: String)
    ensures
        r@ == disk_cache_file(dir@, cache_key@, *format),
{
    let h = key_hasher(cache_key);
    let mut name = String::new();
    push_hex_fixed(&mut name, h, 16);
    name.append(".");
    name.append(format.extension());
    crate::storage::join_path(dir, name.as_str())
}

/// Whether an `If-None-Match` value matches an ETag: the same text, `*`, or
/// a comma-separated list holding it (each entry trimmed).
pub open spec fn etag_matches(if_none_match: Seq<char>, etag: Seq<char>) -> bool {
    if_none_match == etag || if_none_match == "*"@ || exists|i: int|
        0 <= i < split_on(if_none_match, ',').len() && trimmed(
            #[trigger] split_on(if_none_match, ',')[i],
        ) == etag
}

/// Whether an `If-None-Match` header value matches the ETag.
pub fn if_none_match_matches(if_none_match: &str, etag: &str) -> (r: bool)
    ensures
        r == etag_matches(if_none_match@, etag@),
{
    if str_eq(if_none_match, etag) || str_eq(if_none_match, "*") {
        return true;
    }
    let cs = str_chars(if_none_match);
    let e = str_chars(etag);
    let parts = split_chars(&cs, ',');
    let ghost ps = split_on(if_none_match@, ',');
    let mut i: usize = 0;
    while i < parts.len()
        invariant
            parts@.len() == ps.len(),
            forall|k: int| 0 <= k < parts@.len() ==> #[trigger] parts@[k]@ == ps[k],
            ps == split_on(if_none_match@, ','),
            e@ == etag@,
            i <= ps.len(),
            forall|k: int| 0 <= k < i ==> trimmed(#[trigger] ps[k]) != etag@,
        decreases ps.len() - i,
    {
        let t = crate::auth_flow::trim_chars(parts[i].as_slice());
        if crate::config::cs_eq(t.as_slice(), e.as_slice()) {
            assert(trimmed(ps[i as int]) == etag@);
            return true;
        }
        i = i + 1;
    }
    false
}

/// Whether a conditional request can be answered `304 Not Modified`: an
/// `If-None-Match` that matches decides first; otherwise an
/// `If-Modified-Since` that parsed, compared with a known modification
/// time (`unmodified_since`).
pub open spec fn not_modified_for(
    if_none_match: Option<Seq<char>>,
    etag: Seq<char>,
    unmodified_since: Option<bool>,
) -> bool {
    (match if_none_match {
        Some(v) => etag_matches(v, etag),
        None => false,
    }) || unmodified_since == Some(true)
}

/// Checks `If-None-Match` against the ETag, then the outcome of the
/// `If-Modified-Since` comparison (absent when there is no such header, no
/// parsable date or no modification time).
pub fn is_not_modified(if_none_match: Option<&str>, etag: &str, unmodified_since: Option<bool>) -> (r:
    bool)
    ensures
        r == not_modified_for(
            match if_none_match {
                Some(v) => Some(v@),
                None => None,
            },
            etag@,
            unmodified_since,
        ),
{
    match if_none_match {
        Some(v) => {
            if if_none_match_matches(v, etag) {
                return true;
            }
        },
        None => {},
    }
    match unmodified_since {
        Some(b) => b,
        None => false,
    }
}

/// The `Link` header of an info.json response.
pub fn profile_link() -> (r: String)
    ensures
        r@ == "<"@ + profile_uri() + ">;rel=\"profile\""@,
{
    concat3("<", "http://iiif.io/api/image/3/level2.json", ">;rel=\"profile\"")
}

/// The `Link` header of an image response: the profile and the canonical
/// URI.
pub fn image_link(canonical: &str) -> (r: String)
    ensures
        r@ == "<"@ + profile_uri() + ">;rel=\"profile\",<"@ + canonical@ + ">;rel=\"canonical\""@,
{
    let mut s = concat3("<", "http://iiif.io/api/image/3/level2.json", ">;rel=\"profile\",<");
    s.append(canonical);
    s.append(">;rel=\"canonical\"");
    s
}

/// Where `/{identifier}` redirects: its info.json.
pub fn info_redirect_location(base_url: &str, raw_identifier: &str) -> (r: Result<String, IiifError>)
    ensures
        r is Ok <==> decoded_identifier(raw_identifier@) is Some,
        r matches Err(e) ==> e is BadRequest,
        r matches Ok(l) ==> l@ == base_url@ + "/"@ + raw_identifier@ + "/info.json"@,
{
    match ImageIdentifier::from_encoded(raw_identifier) {
        Ok(_) => {
            let mut l = concat3(base_url, "/", raw_identifier);
            l.append("/info.json");
            Ok(l)
        },
        Err(e) => Err(e),
    }
}


/// The text of a region, as written in a request path.
pub open spec fn region_text(r: Region) -> Seq<char> {
    match r {
        Region::Full => "full"@,
        Region::Square => "square"@,
        Region::Absolute { x, y, w, h } => decimal(x as nat) + ","@ + decimal(y as nat) + ","@
            + decimal(w as nat) + ","@ + decimal(h as nat),
        Region::Percent { x, y, w, h } => "pct:"@ + decimal_text(x) + ","@ + decimal_text(y) + ","@
            + decimal_text(w) + ","@ + decimal_text(h),
    }
}

/// The region as written in a request path.
pub fn region_to_text(r: &Region) -> (t: String)
    requires
        region_wf(*r),
    ensures
        t@ == region_text(*r),
{
    proof {
        reveal_strlit("full");
        reveal_strlit("square");
        reveal_strlit("pct:");
        reveal_strlit(",");
    }
    match r {
        Region::Full => String::from_str("full"),
        Region::Square => String::from_str("square"),
        Region::Absolute { x, y, w, h } => {
            let mut t = String::new();
            push_decimal(&mut t, *x as u64);
            push_char(&mut t, ',');
            push_decimal(&mut t, *y as u64);
            push_char(&mut t, ',');
            push_decimal(&mut t, *w as u64);
            push_char(&mut t, ',');
            push_decimal(&mut t, *h as u64);
            t
        },
        Region::Percent { x, y, w, h } => {
            let mut t = String::from_str("pct:");
            push_decimal_text(&mut t, x);
            push_char(&mut t, ',');
            push_decimal_text(&mut t, y);
            push_char(&mut t, ',');
            push_decimal_text(&mut t, w);
            push_char(&mut t, ',');
            push_decimal_text(&mut t, h);
            t
        },
    }
}

/// The text of a size, as written in a request path.
pub open spec fn size_text(z: Size) -> Seq<char> {
    let prefix: Seq<char> = if z.upscale {
        "^"@
    } else {
        Seq::empty()
    };
    prefix + match z.mode {
        SizeMode::Max => "max"@,
        SizeMode::Width(w) => decimal(w as nat) + ","@,
        SizeMode::Height(h) => ","@ + decimal(h as nat),
        SizeMode::Percent(n) => "pct:"@ + decimal_text(n),
        SizeMode::Exact { w, h } => decimal(w as nat) + ","@ + decimal(h as nat),
        SizeMode::BestFit { w, h } => "!"@ + decimal(w as nat) + ","@ + decimal(h as nat),
    }
}

/// The size as written in a request path.
pub fn size_to_text(z: &Size) -> (t: String)
    requires
        size_wf(*z),
    ensures
        t@ == size_text(*z),
{
    proof {
        reveal_strlit("^");
        reveal_strlit("max");
        reveal_strlit("pct:");
        reveal_strlit(",");
        reveal_strlit("!");
    }
    let mut t = String::new();
    if z.upscale {
        push_char(&mut t, '^');
    }
    let ghost p = t@;
    match z.mode {
        SizeMode::Max => {
            t.append("max");
        },
        SizeMode::Width(w) => {
            push_decimal(&mut t, w as u64);
            push_char(&mut t, ',');
        },
        SizeMode::Height(h) => {
            push_char(&mut t, ',');
            push_decimal(&mut t, h as u64);
        },
        SizeMode::Percent(n) => {
            t.append("pct:");
            push_decimal_text(&mut t, &n);
        },
        SizeMode::Exact { w, h } => {
            push_decimal(&mut t, w as u64);
            push_char(&mut t, ',');
            push_decimal(&mut t, h as u64);
        },
        SizeMode::BestFit { w, h } => {
            push_char(&mut t, '!');
            push_decimal(&mut t, w as u64);
            push_char(&mut t, ',');
            push_decimal(&mut t, h as u64);
        },
    }
    assert(t@ =~= size_text(*z));
    t
}

/// A fully parsed Image API request.
#[derive(Debug, Clone)]
pub struct ImageRequest {
    pub identifier: ImageIdentifier,
    pub region: Region,
    pub size: Size,
    pub rotation: Rotation,
    pub quality: Quality,
    pub format: OutputFormat,
}

/// Whether `r` is what the five path segments of an image request parse
/// to: every segment accepted by its own grammar.
pub open spec fn parses_to(
    r: ImageRequest,
    raw_identifier: Seq<char>,
    raw_region: Seq<char>,
    raw_size: Seq<char>,
    raw_rotation: Seq<char>,
    raw_quality_format: Seq<char>,
) -> bool {
    &&& decoded_identifier(raw_identifier) == Some(r.identifier@)
    &&& region_spec(raw_region) == Ok::<Region, Seq<char>>(r.region)
    &&& size_spec(raw_size) == Ok::<Size, Seq<char>>(r.size)
    &&& rotation_spec(raw_rotation) == Ok::<Rotation, Seq<char>>(r.rotation)
    &&& quality_format_of(raw_quality_format) == Some((r.quality, r.format))
    &&& region_wf(r.region) && size_wf(r.size) && r.rotation.degrees.wf()
}

/// The message refusing the first of region, size and rotation that its
/// grammar refuses, if any.
pub open spec fn first_refusal(raw_region: Seq<char>, raw_size: Seq<char>, raw_rotation: Seq<char>) -> Option<
    Seq<char>,
> {
    match region_spec(raw_region) {
        Err(m) => Some(m),
        Ok(_) => match size_spec(raw_size) {
            Err(m) => Some(m),
            Ok(_) => match rotation_spec(raw_rotation) {
                Err(m) => Some(m),
                Ok(_) => None,
            },
        },
    }
}

impl ImageRequest {
    /// Parses the segments `{identifier}/{region}/{size}/{rotation}/{quality}.{format}`
    /// in that order; the first refusal is the error, always a `BadRequest`.
    pub fn parse(
        raw_identifier: &str,
        raw_region: &str,
        raw_size: &str,
        raw_rotation: &str,
        raw_quality_format: &str,
    ) -> (r: Result<ImageRequest, IiifError>)
        ensures
            r is Ok <==> (decoded_identifier(raw_identifier@) is Some && region_spec(raw_region@) is Ok
                && size_spec(raw_size@) is Ok && rotation_spec(raw_rotation@) is Ok
                && quality_format_of(raw_quality_format@) is Some),
            r matches Ok(req) ==> parses_to(
                req,
                raw_identifier@,
                raw_region@,
                raw_size@,
                raw_rotation@,
                raw_quality_format@,
            ),
            r matches Err(e) ==> e is BadRequest,
            decoded_identifier(raw_identifier@) is Some ==> match first_refusal(
                raw_region@,
                raw_size@,
                raw_rotation@,
            ) {
                Some(m) => r matches Err(e) && e->BadRequest_0@ == m,
                None => true,
            },
    {
        let identifier = match ImageIdentifier::from_encoded(raw_identifier) {
            Ok(i) => i,
            Err(e) => {
                return Err(e);
            },
        };
        let region = match Region::parse(raw_region) {
            Ok(x) => x,
            Err(e) => {
                return Err(e);
            },
        };
        let size = match Size::parse(raw_size) {
            Ok(x) => x,
            Err(e) => {
                return Err(e);
            },
        };
        let rotation = match Rotation::parse(raw_rotation) {
            Ok(x) => x,
            Err(e) => {
                return Err(e);
            },
        };
        let (quality, format) = match parse_quality_format(raw_quality_format) {
            Ok(x) => x,
            Err(e) => {
                return Err(e);
            },
        };
        Ok(ImageRequest { identifier, region, size, rotation, quality, format })
    }
}

/// The canonical text of a resolved region: `full` for the whole image.
pub open spec fn canonical_region(rx: u32, ry: u32, rw: u32, rh: u32, img_w: u32, img_h: u32) -> Seq<char> {
    if rx == 0 && ry == 0 && rw == img_w && rh == img_h {
        "full"@
    } else {
        decimal(rx as nat) + ","@ + decimal(ry as nat) + ","@ + decimal(rw as nat) + ","@ + decimal(
            rh as nat,
        )
    }
}

/// The canonical text of a resolved size: `max` when unchanged and not
/// upscaled, `^w,h` when upscaled beyond the region, else `w,h`.
pub open spec fn canonical_size(sw: u32, sh: u32, rw: u32, rh: u32, upscale: bool) -> Seq<char> {
    if sw == rw && sh == rh && !upscale {
        "max"@
    } else if upscale && (sw > rw || sh > rh) {
        "^"@ + decimal(sw as nat) + ","@ + decimal(sh as nat)
    } else {
        decimal(sw as nat) + ","@ + decimal(sh as nat)
    }
}

/// The canonical form of an image request for an image of `img_w × img_h`:
/// the resolved region and size (the whole image and the region when they
/// do not resolve), then rotation, quality and format.
pub open spec fn canonical_text(
    base: Seq<char>,
    identifier: Seq<char>,
    region: Region,
    size: Size,
    rotation: Rotation,
    quality: Quality,
    format: OutputFormat,
    img_w: u32,
    img_h: u32,
    config: ImageConfig,
) -> Seq<char> {
    let (rx, ry, rw, rh) = match region_box(region, img_w, img_h) {
        Ok(b) => b,
        Err(_) => (0, 0, img_w, img_h),
    };
    let (sw, sh) = match size_box(size, rw, rh, config.max_width, config.max_height, config.max_area) {
        Ok(b) => b,
        Err(_) => (rw, rh),
    };
    base + "/"@ + identifier + "/"@ + canonical_region(rx, ry, rw, rh, img_w, img_h) + "/"@
        + canonical_size(sw, sh, rw, rh, size.upscale) + "/"@ + rotation_text(rotation) + "/"@
        + quality_name(quality) + "."@ + format_extension(format)
}

fn push_pair(t: &mut String, a: u32, b: u32)
    ensures
        final(t)@ == old(t)@ + decimal(a as nat) + ","@ + decimal(b as nat),
{
    push_decimal(t, a as u64);
    push_char(t, ',');
    push_decimal(t, b as u64);
    proof {
        reveal_strlit(",");
    }
}

fn canonical_region_exec(rx: u32, ry: u32, rw: u32, rh: u32, img_w: u32, img_h: u32) -> (r: String)
    ensures
        r@ == canonical_region(rx, ry, rw, rh, img_w, img_h),
{
    proof {
        reveal_strlit("full");
        reveal_strlit(",");
    }
    if rx == 0 && ry == 0 && rw == img_w && rh == img_h {
        String::from_str("full")
    } else {
        let mut t = String::new();
        push_pair(&mut t, rx, ry);
        push_char(&mut t, ',');
        push_pair(&mut t, rw, rh);
        assert(t@ =~= canonical_region(rx, ry, rw, rh, img_w, img_h));
        t
    }
}

fn canonical_size_exec(sw: u32, sh: u32, rw: u32, rh: u32, upscale: bool) -> (r: String)
    ensures
        r@ == canonical_size(sw, sh, rw, rh, upscale),
{
    proof {
        reveal_strlit("max");
        reveal_strlit("^");
    }
    if sw == rw && sh == rh && !upscale {
        String::from_str("max")
    } else if upscale && (sw > rw || sh > rh) {
        let mut t = String::from_str("^");
        push_pair(&mut t, sw, sh);
        t
    } else {
        let mut t = String::new();
        push_pair(&mut t, sw, sh);
        assert(t@ =~= canonical_size(sw, sh, rw, rh, upscale));
        t
    }
}

/// The canonical URI of an image request, for the `Link` header.
pub fn build_canonical_uri(
    base_url: &str,
    identifier: &str,
    region: &Region,
    size: &Size,
    rotation: &Rotation,
    quality: &Quality,
    format: &OutputFormat,
    img_w: u32,
    img_h: u32,
    config: &ImageConfig,
) -> (r: String)
    requires
        region_wf(*region),
        size_wf(*size),
        rotation.degrees.wf(),
    ensures
        r@ == canonical_text(
            base_url@,
            identifier@,
            *region,
            *size,
            *rotation,
            *quality,
            *format,
            img_w,
            img_h,
            *config,
        ),
{
    let (rx, ry, rw, rh) = match region.resolve(img_w, img_h) {
        Ok(b) => b,
        Err(_) => (0, 0, img_w, img_h),
    };
    let (sw, sh) = match size.resolve(rw, rh, config.max_width, config.max_height, config.max_area) {
        Ok(b) => b,
        Err(_) => (rw, rh),
    };
    let rt = canonical_region_exec(rx, ry, rw, rh, img_w, img_h);
    let st = canonical_size_exec(sw, sh, rw, rh, size.upscale);
    let rot = rotation.to_text();
    let mut t = concat3(base_url, "/", identifier);
    t.append("/");
    t.append(rt.as_str());
    t.append("/");
    t.append(st.as_str());
    t.append("/");
    t.append(rot.as_str());
    t.append("/");
    t.append(quality.as_str());
    t.append(".");
    t.append(format.extension());
    t
}

/// A quarter turn count, or another angle.
#[derive(Debug, Clone, Copy, PartialEq, Eq)]
pub enum Turn {
    Straight,
    Quarter,
    Half,
    ThreeQuarters,
    /// Any other angle, in degrees below 360.
    Other(Decimal),
}

/// What processing an image takes, step by step: crop, resize, mirror,
/// turn. Quality and encoding follow.
#[derive(Debug, Clone, Copy, PartialEq, Eq)]
pub struct ProcessingPlan {
    /// The crop box, when the region is not the whole image.
    pub crop: Option<(u32, u32, u32, u32)>,
    /// The target size, when it differs from the cropped size.
    pub resize: Option<(u32, u32)>,
    pub mirror: bool,
    pub turn: Turn,
}

/// The turn a rotation asks for: none for 0 or 360 degrees, quarter turns
/// for the multiples of 90 below 360, else the angle taken modulo 360.
pub open spec fn turn_of(d: Decimal) -> Turn {
    let den = d.den() as int;
    if d.num() == 0 || d.num() == 360 * den {
        Turn::Straight
    } else if d.num() == 90 * den {
        Turn::Quarter
    } else if d.num() == 180 * den {
        Turn::Half
    } else if d.num() == 270 * den {
        Turn::ThreeQuarters
    } else {
        Turn::Other(d)
    }
}

/// The clockwise angle by which a turn rotates the image, in degrees, as a
/// numerator over a positive denominator: none, a quarter, a half or three
/// quarters of a full turn, or the angle it carries.
pub open spec fn turn_degrees(t: Turn) -> (int, nat) {
    match t {
        Turn::Straight => (0, 1),
        Turn::Quarter => (90, 1),
        Turn::Half => (180, 1),
        Turn::ThreeQuarters => (270, 1),
        Turn::Other(e) => (e.num(), e.den()),
    }
}

/// A plan turns the image by exactly the angle the rotation asks for, a
/// full turn counting as none, and mirrors it exactly when asked: so 90,
/// 180 and 270 degrees give one, two and three quarter turns, and no two
/// different angles give the same turn.
pub proof fn lemma_plan_turns_by_requested_angle(
    region: Region,
    size: Size,
    rotation: Rotation,
    img_w: u32,
    img_h: u32,
    config: ImageConfig,
)
    requires
        rotation.degrees.wf(),
    ensures
        plan_for(region, size, rotation, img_w, img_h, config) matches Ok(p) ==> p.mirror == rotation.mirror
            && turn_degrees(p.turn).1 > 0 && turn_degrees(p.turn).0 * rotation.degrees.den() == (if rotation.degrees.num()
            == 360 * rotation.degrees.den() {
            0
        } else {
            rotation.degrees.num()
        }) * turn_degrees(p.turn).1,
{
    let d = rotation.degrees;
    lemma_pow10_monotone(0, d.scale as nat);
    let den = d.den() as int;
    let target: int = if d.num() == 360 * den {
        0
    } else {
        d.num()
    };
    let t = turn_of(d);
    assert(turn_degrees(t).0 * den == target * turn_degrees(t).1) by {
        match t {
            Turn::Other(e) => {
                assert(e == d);
                assert(target == d.num());
                assert(d.num() * den == d.num() * den);
            },
            _ => {},
        }
    }
    match plan_for(region, size, rotation, img_w, img_h, config) {
        Ok(p) => {
            assert(p.turn == t && p.mirror == rotation.mirror);
        },
        Err(_) => {},
    }
}

/// The processing plan of a request on an image of `img_w × img_h`, or
/// its refusal: the message of a refused region or size, or an upscale
/// the server does not allow (`None`).
pub open spec fn plan_for(
    region: Region,
    size: Size,
    rotation: Rotation,
    img_w: u32,
    img_h: u32,
    config: ImageConfig,
) -> Result<ProcessingPlan, Option<Seq<char>>> {
    match region_box(region, img_w, img_h) {
        Err(m) => Err(Some(m)),
        Ok((x, y, w, h)) => {
            let whole = x == 0 && y == 0 && w == img_w && h == img_h;
            let crop = if whole {
                None
            } else {
                Some((x, y, w, h))
            };
            match size_box(size, w, h, config.max_width, config.max_height, config.max_area) {
                Err(m) => Err(Some(m)),
                Ok((tw, th)) => if tw == w && th == h {
                    Ok(
                        ProcessingPlan {
                            crop,
                            resize: None,
                            mirror: rotation.mirror,
                            turn: turn_of(rotation.degrees),
                        },
                    )
                } else if !config.allow_upscaling && (tw > w || th > h) {
                    Err(None)
                } else {
                    Ok(
                        ProcessingPlan {
                            crop,
                            resize: Some((tw, th)),
                            mirror: rotation.mirror,
                            turn: turn_of(rotation.degrees),
                        },
                    )
                },
            }
        },
    }
}

/// Plans the processing of a request (region, then size, then rotation) on
/// an image of `img_w × img_h`.
pub fn plan_processing(
    region: &Region,
    size: &Size,
    rotation: &Rotation,
    img_w: u32,
    img_h: u32,
    config: &ImageConfig,
) -> (r: Result<ProcessingPlan, IiifError>)
    requires
        region_wf(*region),
        size_wf(*size),
        rotation.degrees.wf(),
    ensures
        match plan_for(*region, *size, *rotation, img_w, img_h, *config) {
            Ok(p) => r == Ok::<ProcessingPlan, IiifError>(p),
            Err(Some(m)) => r matches Err(e) && is_bad_region(e, m),
            Err(None) => r matches Err(e) && e == IiifError::NotImplemented(e->NotImplemented_0)
                && e->NotImplemented_0@ == "Upscaling is not supported by this server"@,
        },
{
    let (x, y, w, h) = match region.resolve(img_w, img_h) {
        Ok(b) => b,
        Err(e) => {
            return Err(e);
        },
    };
    let whole = x == 0 && y == 0 && w == img_w && h == img_h;
    let (tw, th) = match size.resolve(w, h, config.max_width, config.max_height, config.max_area) {
        Ok(b) => b,
        Err(e) => {
            return Err(e);
        },
    };
    let crop = if whole {
        None
    } else {
        Some((x, y, w, h))
    };
    let resize = if tw == w && th == h {
        None
    } else {
        if !config.allow_upscaling && (tw > w || th > h) {
            return Err(
                IiifError::NotImplemented(String::from_str("Upscaling is not supported by this server")),
            );
        }
        Some((tw, th))
    };
    let d = rotation.degrees;
    let turn = if d.equals_int(0) || d.equals_int(360) {
        Turn::Straight
    } else if d.equals_int(90) {
        Turn::Quarter
    } else if d.equals_int(180) {
        Turn::Half
    } else if d.equals_int(270) {
        Turn::ThreeQuarters
    } else {
        Turn::Other(d)
    };
    Ok(ProcessingPlan { crop, resize, mirror: rotation.mirror, turn })
}

/// Whether `e` is the `BadRequest` refusal `m`.
pub open spec fn is_bad_region(e: IiifError, m: Seq<char>) -> bool {
    e == IiifError::BadRequest(e->BadRequest_0) && e->BadRequest_0@ == m
}

} // verus!
