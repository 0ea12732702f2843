//! Presentation API 3.0: the resource types, per-image sidecar metadata,
//! the manifest and collection builders, and content negotiation.
use vstd::prelude::*;

use crate::config::AppConfig;
use crate::annotation::{AnnotationCollectionRef, AnnotationTarget, Selector, SpecificResource};
use crate::decimal::{round_div, sat_u32, Decimal};
use crate::error::IiifError;
use crate::search_index::{lemma_lex_asymmetric, lemma_lex_total, lemma_lex_transitive, lex_less, lex_lt};
use crate::services::{build_probe_service_descriptor, is_probe_descriptor, is_single, lang_map, LanguageMap};
use crate::text::{
    concat2, concat3, contains_chars, contains_seq, decimal, decimal_string, last_index_of, lowercase,
    rfind_char, slice_chars, str_chars, str_eq, string_from_chars, to_lowercase,
};

verus! {

/// The JSON-LD context of Presentation 3.0 documents.
pub open spec fn presentation_context() -> Seq<char> {
    "http://iiif.io/api/presentation/3/context.json"@
}

/// The `@context` value: a single string or a list.
#[derive(Debug, Clone)]
pub enum ContextValue {
    Single(String),
    Multiple(Vec<String>),
}

impl Default for ContextValue {
    fn default() -> (r: Self)
        ensures
            r matches ContextValue::Single(s) && s@ == presentation_context(),
    {
        ContextValue::Single(String::from_str("http://iiif.io/api/presentation/3/context.json"))
    }
}

/// A single-language map.
pub fn lang(language: &str, value: &str) -> (r: LanguageMap)
    ensures
        is_single(r, language@, value@),
{
    lang_map(language, value)
}

/// IIIF service reference (Image API, Auth, etc.).
#[derive(Debug, Clone)]
pub struct Service {
    pub id: String,
    pub service_type: String,
    pub profile: Option<String>,
}

/// Metadata label/value pair for descriptive properties.
#[derive(Debug, Clone)]
pub struct MetadataEntry {
    pub label: LanguageMap,
    pub value: LanguageMap,
}

/// Link to an external resource (homepage, rendering, seeAlso).
#[derive(Debug, Clone)]
pub struct ExternalResource {
    pub id: String,
    pub resource_type: String,
    pub label: Option<LanguageMap>,
    pub format: Option<String>,
    pub profile: Option<String>,
}

/// A web resource (image, video, audio, text) associated with a Canvas.
#[derive(Debug, Clone)]
pub struct ContentResource {
    pub id: String,
    pub resource_type: String,
    pub format: Option<String>,
    pub width: Option<u32>,
    pub height: Option<u32>,
    pub duration: Option<Decimal>,
    pub service: Option<Vec<Service>>,
    pub label: Option<LanguageMap>,
}

/// Agent or organization providing the resource.
#[derive(Debug, Clone)]
pub struct Provider {
    pub id: String,
    pub resource_type: String,
    pub label: LanguageMap,
    pub homepage: Option<Vec<ExternalResource>>,
    pub logo: Option<Vec<ContentResource>>,
}

/// Reference to a parent resource (Collection or Manifest).
#[derive(Debug, Clone)]
pub struct PartOf {
    pub id: String,
    pub resource_type: String,
    pub label: Option<LanguageMap>,
}

/// A reference to a Canvas.
#[derive(Debug, Clone)]
pub struct CanvasRef {
    pub id: String,
    pub resource_type: String,
}

/// The view a Manifest or Range opens on.
#[derive(Debug, Clone)]
pub struct Start {
    pub id: String,
    pub resource_type: String,
    pub source: Option<String>,
    pub selector: Option<Selector>,
}

/// Structural grouping of Canvases (chapters, sections).
#[derive(Debug)]
pub struct Range {
    pub id: String,
    pub resource_type: String,
    pub label: Option<LanguageMap>,
    pub items: Option<Vec<RangeItem>>,
    pub supplementary: Option<AnnotationCollectionRef>,
    pub start: Option<Start>,
    pub behavior: Option<Vec<String>>,
}

/// An item within a Range.
#[derive(Debug)]
pub enum RangeItem {
    Canvas(CanvasRef),
    Range(Range),
    Specific(SpecificResource),
}

/// Associates a content resource with a Canvas.
#[derive(Debug, Clone)]
pub struct Annotation {
    pub id: String,
    pub resource_type: String,
    pub motivation: String,
    pub body: ContentResource,
    pub target: AnnotationTarget,
}

/// An ordered list of Annotations.
#[derive(Debug, Clone)]
pub struct AnnotationPage {
    pub id: String,
    pub resource_type: String,
    pub items: Option<Vec<Annotation>>,
}

/// A single view within a Manifest.
#[derive(Debug)]
pub struct Canvas {
    pub id: String,
    pub resource_type: String,
    pub label: Option<LanguageMap>,
    pub width: Option<u32>,
    pub height: Option<u32>,
    pub duration: Option<Decimal>,
    pub thumbnail: Option<Vec<ContentResource>>,
    pub metadata: Option<Vec<MetadataEntry>>,
    pub items: Option<Vec<AnnotationPage>>,
    pub annotations: Option<Vec<AnnotationPage>>,
    pub placeholder_canvas: Option<Box<Canvas>>,
    pub accompanying_canvas: Option<Box<Canvas>>,
}

/// Presentation 3.0 Manifest.
#[derive(Debug)]
pub struct Manifest {
    pub context: ContextValue,
    pub id: String,
    pub resource_type: String,
    pub label: LanguageMap,
    pub summary: Option<LanguageMap>,
    pub metadata: Option<Vec<MetadataEntry>>,
    pub rights: Option<String>,
    pub required_statement: Option<MetadataEntry>,
    pub provider: Option<Vec<Provider>>,
    pub thumbnail: Option<Vec<ContentResource>>,
    pub viewing_direction: Option<String>,
    pub behavior: Option<Vec<String>>,
    pub nav_date: Option<String>,
    pub items: Vec<Canvas>,
    pub structures: Option<Vec<Range>>,
    pub homepage: Option<Vec<ExternalResource>>,
    pub logo: Option<Vec<ContentResource>>,
    pub rendering: Option<Vec<ExternalResource>>,
    pub see_also: Option<Vec<ExternalResource>>,
    pub service: Option<Vec<crate::services::Service>>,
    pub services: Option<Vec<Service>>,
    pub part_of: Option<Vec<PartOf>>,
    pub start: Option<Start>,
    pub placeholder_canvas: Option<Box<Canvas>>,
    pub accompanying_canvas: Option<Box<Canvas>>,
}

/// An item within a Collection.
#[derive(Debug, Clone)]
pub struct CollectionItem {
    pub id: String,
    pub resource_type: String,
    pub label: LanguageMap,
    pub thumbnail: Option<Vec<ContentResource>>,
}

/// Presentation 3.0 Collection.
#[derive(Debug, Clone)]
pub struct Collection {
    pub context: ContextValue,
    pub id: String,
    pub resource_type: String,
    pub label: LanguageMap,
    pub summary: Option<LanguageMap>,
    pub metadata: Option<Vec<MetadataEntry>>,
    pub rights: Option<String>,
    pub required_statement: Option<MetadataEntry>,
    pub provider: Option<Vec<Provider>>,
    pub thumbnail: Option<Vec<ContentResource>>,
    pub viewing_direction: Option<String>,
    pub behavior: Option<Vec<String>>,
    pub items: Vec<CollectionItem>,
    pub homepage: Option<Vec<ExternalResource>>,
    pub logo: Option<Vec<ContentResource>>,
    pub part_of: Option<Vec<PartOf>>,
    pub services: Option<Vec<Service>>,
}

/// Whether `s` is the level-2 Image API service at `id`.
pub open spec fn is_image_service(s: Service, id: Seq<char>) -> bool {
    s.id@ == id && s.service_type@ == "ImageService3"@ && (s.profile matches Some(p) && p@
        == "level2"@)
}

fn image_service(id: &str) -> (r: Vec<Service>)
    ensures
        r@.len() == 1,
        is_image_service(r@[0], id@),
{
    vec![
        Service {
            id: String::from_str(id),
            service_type: String::from_str("ImageService3"),
            profile: Some(String::from_str("level2")),
        },
    ]
}

/// The height of a 200-pixel-wide thumbnail of an image `w × h`, as the
/// float computation gives it: rounded, saturated; for a zero width the
/// ratio is infinite (the largest height) or undefined (zero).
pub open spec fn thumbnail_height(w: u32, h: u32) -> u32 {
    if w == 0 {
        if h == 0 {
            0
        } else {
            u32::MAX
        }
    } else {
        sat_u32(round_div((h as nat) * 200, w as nat))
    }
}

fn thumb_height(w: u32, h: u32) -> (r: u32)
    ensures
        r == thumbnail_height(w, h),
{
    if w == 0 {
        if h == 0 {
            0
        } else {
            0xffff_ffff
        }
    } else {
        let a: u64 = (h as u64) * 200;
        let b: u64 = w as u64;
        let q = (2 * a + b) / (2 * b);
        if q > 0xffff_ffff {
            0xffff_ffff
        } else {
            q as u32
        }
    }
}

/// Whether `t` is the 200-pixel JPEG thumbnail of image `identifier`.
pub open spec fn is_thumbnail(t: ContentResource, base: Seq<char>, identifier: Seq<char>, height: u32) -> bool {
    &&& t.id@ == base + "/"@ + identifier + "/full/200,/0/default.jpg"@
    &&& t.resource_type@ == "Image"@
    &&& (t.format matches Some(f) && f@ == "image/jpeg"@)
    &&& t.width == Some(200u32)
    &&& t.height == Some(height)
    &&& t.duration is None
    &&& (t.service matches Some(s) && s@.len() == 1 && is_image_service(
        s@[0],
        base + "/"@ + identifier,
    ))
    &&& t.label is None
}

fn thumbnail(base: &str, identifier: &str, height: u32) -> (r: ContentResource)
    ensures
        is_thumbnail(r, base@, identifier@, height),
{
    let mut id = concat3(base, "/", identifier);
    id.append("/full/200,/0/default.jpg");
    let service_id = concat3(base, "/", identifier);
    ContentResource {
        id,
        resource_type: String::from_str("Image"),
        format: Some(String::from_str("image/jpeg")),
        width: Some(200),
        height: Some(height),
        duration: None,
        service: Some(image_service(service_id.as_str())),
        label: None,
    }
}

/// The JSON-LD context of the Authorization Flow 2.0 API.
pub open spec fn auth_context() -> Seq<char> {
    "http://iiif.io/api/auth/2/context.json"@
}

/// Whether `r` holds a sidecar's metadata pairs as entries in its language,
/// or nothing when it has none.
pub open spec fn metadata_matches(r: Option<Vec<MetadataEntry>>, s: Sidecar) -> bool {
    &&& s.metadata@.len() == 0 ==> r is None
    &&& s.metadata@.len() > 0 ==> (r matches Some(v) && v@.len() == s.metadata@.len() && forall|i: int|
        0 <= i < v@.len() ==> in_sidecar_lang(#[trigger] v@[i].label, s, s.metadata@[i].label@)
            && in_sidecar_lang(v@[i].value, s, s.metadata@[i].value@))
}

/// Whether `r` holds a sidecar's provider as an Agent with its homepage as
/// an HTML text link, or nothing when it has none.
pub open spec fn provider_matches(r: Option<Vec<Provider>>, s: Sidecar) -> bool {
    match s.provider {
        None => r is None,
        Some(p) => r matches Some(v) && v@.len() == 1 && v@[0].id@ == p.id@ && v@[0].resource_type@
            == "Agent"@ && in_sidecar_lang(v@[0].label, s, p.label@) && v@[0].logo is None
            && match p.homepage {
            None => v@[0].homepage is None,
            Some(h) => v@[0].homepage matches Some(hs) && hs@.len() == 1 && hs@[0].id@ == h@
                && hs@[0].resource_type@ == "Text"@ && hs@[0].label is None && (hs@[0].format matches Some(
                f,
            ) && f@ == "text/html"@) && hs@[0].profile is None,
        },
    }
}

/// Whether `m` carries what a sidecar adds to a Manifest: its label (else the
/// identifier, in no language), summary, metadata, rights and provider; with
/// no sidecar, only the identifier as label.
pub open spec fn has_sidecar_fields(m: Manifest, identifier: Seq<char>, sidecar: Option<&Sidecar>) -> bool {
    match sidecar {
        Some(s) => {
            &&& match s.label {
                Some(l) => in_sidecar_lang(m.label, *s, l@),
                None => is_single(m.label, "none"@, identifier),
            }
            &&& match s.summary {
                Some(x) => m.summary matches Some(ms) && in_sidecar_lang(ms, *s, x@),
                None => m.summary is None,
            }
            &&& metadata_matches(m.metadata, *s)
            &&& match s.rights {
                Some(r) => m.rights matches Some(mr) && mr@ == r@,
                None => m.rights is None,
            }
            &&& provider_matches(m.provider, *s)
        },
        None => {
            &&& is_single(m.label, "none"@, identifier)
            &&& m.summary is None && m.metadata is None && m.rights is None && m.provider is None
        },
    }
}

/// Whether `m` is the single-canvas Manifest of image `identifier` of
/// `w × h`: the sidecar's descriptive fields, thumbnail, one canvas carrying
/// one painting annotation of the full image, and membership of the top
/// collection; a protected image's Manifest also carries the auth probe
/// service, with the auth context before the presentation context.
pub open spec fn is_image_manifest(
    m: Manifest,
    base: Seq<char>,
    identifier: Seq<char>,
    w: u32,
    h: u32,
    protected: bool,
    sidecar: Option<&Sidecar>,
) -> bool {
    &&& if protected {
        &&& (m.context matches ContextValue::Multiple(v) && v@.len() == 2 && v@[0]@ == auth_context()
            && v@[1]@ == presentation_context())
        &&& (m.service matches Some(ss) && ss@.len() == 1 && is_probe_descriptor(ss@[0], base, identifier))
    } else {
        &&& (m.context matches ContextValue::Single(c) && c@ == presentation_context())
        &&& m.service is None
    }
    &&& m.id@ == base + "/manifest/"@ + identifier
    &&& m.resource_type@ == "Manifest"@
    &&& has_sidecar_fields(m, identifier, sidecar)
    &&& m.required_statement is None
    &&& (m.thumbnail matches Some(t) && t@.len() == 1 && is_thumbnail(
        t@[0],
        base,
        identifier,
        thumbnail_height(w, h),
    ))
    &&& (m.viewing_direction matches Some(v) && v@ == "left-to-right"@)
    &&& m.behavior is None && m.nav_date is None && m.structures is None
    &&& m.homepage is None && m.logo is None && m.rendering is None && m.see_also is None
    &&& m.services is None && m.start is None
    &&& m.placeholder_canvas is None && m.accompanying_canvas is None
    &&& (m.part_of matches Some(p) && p@.len() == 1 && p@[0].id@ == base + "/collection/top"@
        && p@[0].resource_type@ == "Collection"@ && p@[0].label is None)
    &&& m.items@.len() == 1
    &&& is_image_canvas(m.items@[0], base, identifier, w, h)
}

/// Whether `c` is the canvas of image `identifier` of `w × h`.
pub open spec fn is_image_canvas(c: Canvas, base: Seq<char>, identifier: Seq<char>, w: u32, h: u32) -> bool {
    let canvas_id = base + "/canvas/"@ + identifier + "/p1"@;
    &&& c.id@ == canvas_id
    &&& c.resource_type@ == "Canvas"@
    &&& (c.label matches Some(l) && is_single(l, "none"@, identifier))
    &&& c.width == Some(w) && c.height == Some(h)
    &&& c.duration is None && c.thumbnail is None && c.metadata is None && c.annotations is None
    &&& c.placeholder_canvas is None && c.accompanying_canvas is None
    &&& match c.items {
        Some(pages) => pages@.len() == 1 && is_image_page(pages@[0], base, identifier, w, h),
        None => false,
    }
}

/// Whether `p` is the annotation page painting image `identifier`.
pub open spec fn is_image_page(p: AnnotationPage, base: Seq<char>, identifier: Seq<char>, w: u32, h: u32) -> bool {
    &&& p.id@ == base + "/annotation-page/"@ + identifier + "/p1"@
    &&& p.resource_type@ == "AnnotationPage"@
    &&& match p.items {
        Some(annos) => annos@.len() == 1 && is_painting(annos@[0], base, identifier, w, h),
        None => false,
    }
}

/// Whether `a` paints the full image `identifier` on its canvas.
pub open spec fn is_painting(a: Annotation, base: Seq<char>, identifier: Seq<char>, w: u32, h: u32) -> bool {
    &&& a.id@ == base + "/annotation/"@ + identifier + "/p1-image"@
    &&& a.resource_type@ == "Annotation"@
    &&& a.motivation@ == "painting"@
    &&& a.body.id@ == base + "/"@ + identifier + "/full/max/0/default.jpg"@
    &&& a.body.resource_type@ == "Image"@
    &&& (a.body.format matches Some(f) && f@ == "image/jpeg"@)
    &&& a.body.width == Some(w) && a.body.height == Some(h)
    &&& a.body.duration is None && a.body.label is None
    &&& (a.body.service matches Some(s) && s@.len() == 1 && is_image_service(
        s@[0],
        base + "/"@ + identifier,
    ))
    &&& (a.target matches AnnotationTarget::Id(t) && t@ == base + "/canvas/"@ + identifier
        + "/p1"@)
}

/// Build a Manifest for a single image, linking the Image API service,
/// merging the image's sidecar metadata when there is one, and offering the
/// auth probe service when the image is protected.
pub fn build_manifest_for_image(
    identifier: &str,
    img_width: u32,
    img_height: u32,
    config: &AppConfig,
    protected: bool,
    sidecar: Option<&Sidecar>,
) -> (m: Manifest)
    ensures
        is_image_manifest(m, config.server.base_url@, identifier@, img_width, img_height, protected, sidecar),
{
    let base_url = config.server.base_url.as_str();
    let manifest_id = concat3(base_url, "/manifest/", identifier);
    let mut canvas_id = concat3(base_url, "/canvas/", identifier);
    canvas_id.append("/p1");
    let mut page_id = concat3(base_url, "/annotation-page/", identifier);
    page_id.append("/p1");
    let mut anno_id = concat3(base_url, "/annotation/", identifier);
    anno_id.append("/p1-image");
    let service_id = concat3(base_url, "/", identifier);
    let mut image_id = concat3(base_url, "/", identifier);
    image_id.append("/full/max/0/default.jpg");
    let thumb_h = thumb_height(img_width, img_height);
    let annotation = Annotation {
        id: anno_id,
        resource_type: String::from_str("Annotation"),
        motivation: String::from_str("painting"),
        body: ContentResource {
            id: image_id,
            resource_type: String::from_str("Image"),
            format: Some(String::from_str("image/jpeg")),
            width: Some(img_width),
            height: Some(img_height),
            duration: None,
            service: Some(image_service(service_id.as_str())),
            label: None,
        },
        target: AnnotationTarget::Id(canvas_id.clone()),
    };
    let page = AnnotationPage {
        id: page_id,
        resource_type: String::from_str("AnnotationPage"),
        items: Some(vec![annotation]),
    };
    let canvas = Canvas {
        id: canvas_id,
        resource_type: String::from_str("Canvas"),
        label: Some(lang("none", identifier)),
        width: Some(img_width),
        height: Some(img_height),
        duration: None,
        thumbnail: None,
        metadata: None,
        items: Some(vec![page]),
        annotations: None,
        placeholder_canvas: None,
        accompanying_canvas: None,
    };
    let (label, summary, metadata, rights, provider) = match sidecar {
        Some(s) => {
            let label = match s.label_map() {
                Some(l) => l,
                None => lang("none", identifier),
            };
            let rights = match &s.rights {
                Some(r) => Some(r.clone()),
                None => None,
            };
            (label, s.summary_map(), s.metadata_entries(), rights, s.provider_entries())
        },
        None => (lang("none", identifier), None, None, None, None),
    };
    let (context, service) = if protected {
        (
            ContextValue::Multiple(
                vec![
                    String::from_str("http://iiif.io/api/auth/2/context.json"),
                    String::from_str("http://iiif.io/api/presentation/3/context.json"),
                ],
            ),
            Some(vec![build_probe_service_descriptor(base_url, identifier)]),
        )
    } else {
        (ContextValue::default(), None)
    };
    Manifest {
        context,
        id: manifest_id,
        resource_type: String::from_str("Manifest"),
        label,
        summary,
        metadata,
        rights,
        required_statement: None,
        provider,
        thumbnail: Some(vec![thumbnail(base_url, identifier, thumb_h)]),
        viewing_direction: Some(String::from_str("left-to-right")),
        behavior: None,
        nav_date: None,
        items: vec![canvas],
        structures: None,
        homepage: None,
        logo: None,
        rendering: None,
        see_also: None,
        service,
        services: None,
        part_of: Some(
            vec![
                PartOf {
                    id: concat2(base_url, "/collection/top"),
                    resource_type: String::from_str("Collection"),
                    label: None,
                },
            ],
        ),
        start: None,
        placeholder_canvas: None,
        accompanying_canvas: None,
    }
}

/// An image in the collection: its identifier and dimensions.
pub type ImageEntry = (String, u32, u32);

/// Whether the entries are in order of identifier.
pub open spec fn sorted_by_identifier(s: Seq<ImageEntry>) -> bool {
    forall|i: int, j: int| 0 <= i < j < s.len() ==> !lex_lt(#[trigger] s[j].0@, #[trigger] s[i].0@)
}

/// The entries, rearranged in order of identifier.
pub fn sort_entries(v: Vec<ImageEntry>) -> (r: Vec<ImageEntry>)
    ensures
        r@.to_multiset() == v@.to_multiset(),
        sorted_by_identifier(r@),
{
    broadcast use vstd::seq_lib::group_to_multiset_ensures;

    let mut out: Vec<ImageEntry> = Vec::new();
    let mut i: usize = 0;
    while i < v.len()
        invariant
            i <= v@.len(),
            out@.to_multiset() == v@.take(i as int).to_multiset(),
            sorted_by_identifier(out@),
        decreases v@.len() - i,
    {
        let x: ImageEntry = (v[i].0.clone(), v[i].1, v[i].2);
        assert(x == v@[i as int]);
        let xk = str_chars(x.0.as_str());
        let mut p: usize = 0;
        while p < out.len()
            invariant
                p <= out@.len(),
                xk@ == x.0@,
                forall|j: int| 0 <= j < p ==> !lex_lt(x.0@, #[trigger] out@[j].0@),
            ensures
                p <= out@.len(),
                forall|j: int| 0 <= j < p ==> !lex_lt(x.0@, #[trigger] out@[j].0@),
                p < out@.len() ==> lex_lt(x.0@, out@[p as int].0@),
            decreases out@.len() - p,
        {
            let ok = str_chars(out[p].0.as_str());
            if lex_less(xk.as_slice(), ok.as_slice()) {
                break;
            }
            p = p + 1;
        }
        let ghost o = out@;
        proof {
            assert forall|j: int| p <= j < o.len() implies lex_lt(x.0@, #[trigger] o[j].0@) by {
                if j > p && o[j].0@ != o[p as int].0@ {
                    assert(!lex_lt(o[j].0@, o[p as int].0@));
                    lemma_lex_total(o[j].0@, o[p as int].0@);
                    lemma_lex_transitive(x.0@, o[p as int].0@, o[j].0@);
                }
            }
        }
        out.insert(p, x);
        proof {
            let n = out@;
            assert(n == o.insert(p as int, x));
            assert forall|a: int, b: int| 0 <= a < b < n.len() implies !lex_lt(#[trigger] n[b].0@, #[trigger] n[a].0@) by {
                if b < p {
                    assert(n[a] == o[a] && n[b] == o[b]);
                } else if b == p {
                    assert(n[a] == o[a] && n[b] == x);
                } else if a < p {
                    assert(n[a] == o[a] && n[b] == o[b - 1]);
                } else if a == p {
                    assert(n[a] == x && n[b] == o[b - 1]);
                    lemma_lex_asymmetric(x.0@, o[b - 1].0@);
                } else {
                    assert(n[a] == o[a - 1] && n[b] == o[b - 1]);
                }
            }
        }
        assert(v@.take(i + 1) == v@.take(i as int).push(v@[i as int]));
        proof {
            vstd::seq_lib::to_multiset_insert(o, p as int, x);
            assert(out@.to_multiset() == o.to_multiset().insert(x));
            v@.take(i as int).to_multiset_ensures();
            assert(v@.take(i as int).push(x).to_multiset() == v@.take(i as int).to_multiset().insert(x));
        }
        i = i + 1;
    }
    assert(v@.take(v@.len() as int) == v@);
    out
}

/// Whether `item` lists image `img` as a Manifest of the collection.
pub open spec fn is_collection_item(item: CollectionItem, base: Seq<char>, img: ImageEntry) -> bool {
    let (id, w, h) = img;
    &&& item.id@ == base + "/manifest/"@ + id@
    &&& item.resource_type@ == "Manifest"@
    &&& is_single(item.label, "none"@, id@)
    &&& (item.thumbnail matches Some(t) && t@.len() == 1 && is_thumbnail(
        t@[0],
        base,
        id@,
        if thumbnail_height(w, h) >= 1 {
            thumbnail_height(w, h)
        } else {
            1
        },
    ))
}

/// The file extensions the collection scan lists, in lower case.
pub open spec fn scanned_extensions() -> Seq<Seq<char>> {
    seq!["jpg"@, "jpeg"@, "png"@, "tif"@, "tiff"@, "gif"@, "webp"@]
}

/// The identifier a file of the images directory is listed under: its name
/// up to the last `.`, where that `.` does not open the name and what follows
/// it is, in lower case, one of the scanned extensions.
pub open spec fn scanned_stem(name: Seq<char>) -> Option<Seq<char>> {
    let p = last_index_of(name, '.');
    if p <= 0 {
        None
    } else if scanned_extensions().contains(lowercase(name.subrange(p + 1, name.len() as int))) {
        Some(name.subrange(0, p))
    } else {
        None
    }
}

fn is_scanned_extension(ext: &str) -> (r: bool)
    ensures
        r == scanned_extensions().contains(ext@),
{
    let exts = ["jpg", "jpeg", "png", "tif", "tiff", "gif", "webp"];
    let ghost all = scanned_extensions();
    proof {
        reveal_strlit("jpg");
        reveal_strlit("jpeg");
        reveal_strlit("png");
        reveal_strlit("tif");
        reveal_strlit("tiff");
        reveal_strlit("gif");
        reveal_strlit("webp");
    }
    assert(exts@.map_values(|e: &str| e@) =~= all);
    let mut i: usize = 0;
    while i < 7
        invariant
            i <= 7,
            exts@.len() == 7,
            exts@.map_values(|e: &str| e@) == all,
            all == scanned_extensions(),
            forall|j: int| 0 <= j < i ==> all[j] != ext@,
        decreases 7 - i,
    {
        assert(all[i as int] == exts@[i as int]@);
        if str_eq(exts[i], ext) {
            assert(all[i as int] == ext@);
            return true;
        }
        i = i + 1;
    }
    assert(!all.contains(ext@));
    false
}

/// The collection scan lists exactly the image files: a file named
/// `{name}.{ext}`, for a non-empty name and an extension without `.`, is
/// listed under `name` when its extension is, in lower case, one of jpg,
/// jpeg, png, tif, tiff, gif or webp, and is not listed otherwise.
pub proof fn lemma_scan_lists_image_files(name: Seq<char>, ext: Seq<char>)
    requires
        name.len() > 0,
        !ext.contains('.'),
    ensures
        seq!["jpg"@, "jpeg"@, "png"@, "tif"@, "tiff"@, "gif"@, "webp"@].contains(lowercase(ext))
            ==> scanned_stem(name + "."@ + ext) == Some(name),
        !seq!["jpg"@, "jpeg"@, "png"@, "tif"@, "tiff"@, "gif"@, "webp"@].contains(lowercase(ext))
            ==> scanned_stem(name + "."@ + ext) is None,
{
    let f = name + "."@ + ext;
    reveal_strlit(".");
    let k = name.len() as int;
    assert(f[k] == '.');
    crate::text::lemma_last_index_of(f, '.');
    let p = last_index_of(f, '.');
    assert(p >= k) by {
        if p < k {
            assert(k < f.len());
        }
    }
    assert(p == k) by {
        if p > k {
            assert(ext[p - k - 1] == f[p]);
        }
    }
    assert(f.subrange(p + 1, f.len() as int) =~= ext);
    assert(f.subrange(0, p) =~= name);
}

/// The identifier the collection scan lists a file name under, if any.
pub fn scanned_image_stem(file_name: &str) -> (r: Option<String>)
    ensures
        r matches Some(s) ==> scanned_stem(file_name@) == Some(s@),
        r is None ==> scanned_stem(file_name@) is None,
{
    let cs = str_chars(file_name);
    match rfind_char(cs.as_slice(), '.') {
        None => None,
        Some(p) => {
            proof {
                crate::text::lemma_last_index_of(cs@, '.');
            }
            if p == 0 {
                return None;
            }
            assert(p < cs.len());
            let ext = string_from_chars(slice_chars(cs.as_slice(), p + 1, cs.len()).as_slice());
            let lower = to_lowercase(ext.as_str());
            if is_scanned_extension(lower.as_str()) {
                Some(string_from_chars(slice_chars(cs.as_slice(), 0, p).as_slice()))
            } else {
                None
            }
        },
    }
}

/// Build the root Collection listing every image as a Manifest.
pub fn build_root_collection(images: &[ImageEntry], config: &AppConfig) -> (c: Collection)
    ensures
        (c.context matches ContextValue::Single(x) && x@ == presentation_context()),
        c.id@ == config.server.base_url@ + "/collection/top"@,
        c.resource_type@ == "Collection"@,
        is_single(c.label, "en"@, "All Images"@),
        (c.summary matches Some(s) && is_single(s, "en"@, decimal(images@.len()) + " items"@)),
        c.items@.len() == images@.len(),
        forall|i: int|
            0 <= i < images@.len() ==> is_collection_item(#[trigger] c.items@[i], config.server.base_url@, images@[i]),
        c.metadata is None && c.rights is None && c.required_statement is None && c.provider is None,
        c.thumbnail is None && c.viewing_direction is None && c.behavior is None,
        c.homepage is None && c.logo is None && c.part_of is None && c.services is None,
{
    let base_url = config.server.base_url.as_str();
    let mut items: Vec<CollectionItem> = Vec::new();
    let mut i: usize = 0;
    while i < images.len()
        invariant
            i <= images@.len(),
            items@.len() == i,
            forall|k: int| 0 <= k < i ==> is_collection_item(#[trigger] items@[k], base_url@, images@[k]),
        decreases images@.len() - i,
    {
        let (id, w, h) = &images[i];
        let th = thumb_height(*w, *h);
        let th1 = if th >= 1 {
            th
        } else {
            1
        };
        items.push(
            CollectionItem {
                id: concat3(base_url, "/manifest/", id.as_str()),
                resource_type: String::from_str("Manifest"),
                label: lang("none", id.as_str()),
                thumbnail: Some(vec![thumbnail(base_url, id.as_str(), th1)]),
            },
        );
        i = i + 1;
    }
    let mut summary = decimal_string(items.len() as u64);
    summary.append(" items");
    Collection {
        context: ContextValue::default(),
        id: concat2(base_url, "/collection/top"),
        resource_type: String::from_str("Collection"),
        label: lang("en", "All Images"),
        summary: Some(lang("en", summary.as_str())),
        metadata: None,
        rights: None,
        required_statement: None,
        provider: None,
        thumbnail: None,
        viewing_direction: None,
        behavior: None,
        items,
        homepage: None,
        logo: None,
        part_of: None,
        services: None,
    }
}

/// A label/value pair of sidecar metadata.
#[derive(Debug, Clone)]
pub struct MetadataPair {
    pub label: String,
    pub value: String,
}

/// The provider section of a sidecar.
#[derive(Debug, Clone)]
pub struct SidecarProvider {
    pub id: String,
    pub label: String,
    pub homepage: Option<String>,
}

/// Optional per-image metadata kept beside an image (`<id>.toml`).
#[derive(Debug, Clone)]
pub struct Sidecar {
    pub label: Option<String>,
    /// Language tag of the label and summary; `none` when absent.
    pub language: Option<String>,
    pub summary: Option<String>,
    pub rights: Option<String>,
    pub metadata: Vec<MetadataPair>,
    pub provider: Option<SidecarProvider>,
}

impl Default for Sidecar {
    fn default() -> (r: Self)
        ensures
            r.label is None && r.language is None && r.summary is None && r.rights is None,
            r.metadata@.len() == 0,
            r.provider is None,
    {
        Sidecar {
            label: None,
            language: None,
            summary: None,
            rights: None,
            metadata: Vec::new(),
            provider: None,
        }
    }
}

/// The language a sidecar's texts are tagged with.
pub open spec fn sidecar_lang(s: Sidecar) -> Seq<char> {
    match s.language {
        Some(l) => l@,
        None => "none"@,
    }
}

/// Whether `m` is the single-language map of `value` in the sidecar's
/// language.
pub open spec fn in_sidecar_lang(m: LanguageMap, s: Sidecar, value: Seq<char>) -> bool {
    is_single(m, sidecar_lang(s), value)
}

impl Sidecar {
    /// The language of the sidecar's texts: its own, or `none`.
    pub fn default_lang(&self) -> (r: &str)
        ensures
            r@ == sidecar_lang(*self),
    {
        match &self.language {
            Some(l) => l.as_str(),
            None => "none",
        }
    }

    /// The label as a language map.
    pub fn label_map(&self) -> (r: Option<LanguageMap>)
        ensures
            match self.label {
                Some(l) => r matches Some(m) && in_sidecar_lang(m, *self, l@),
                None => r is None,
            },
    {
        match &self.label {
            Some(s) => Some(lang(self.default_lang(), s.as_str())),
            None => None,
        }
    }

    /// The summary as a language map.
    pub fn summary_map(&self) -> (r: Option<LanguageMap>)
        ensures
            match self.summary {
                Some(l) => r matches Some(m) && in_sidecar_lang(m, *self, l@),
                None => r is None,
            },
    {
        match &self.summary {
            Some(s) => Some(lang(self.default_lang(), s.as_str())),
            None => None,
        }
    }

    /// The metadata pairs as entries, or none when there are none.
    pub fn metadata_entries(&self) -> (r: Option<Vec<MetadataEntry>>)
        ensures
            metadata_matches(r, *self),
    {
        if self.metadata.len() == 0 {
            return None;
        }
        let mut out: Vec<MetadataEntry> = Vec::new();
        let mut i: usize = 0;
        while i < self.metadata.len()
            invariant
                i <= self.metadata@.len(),
                out@.len() == i,
                forall|k: int|
                    0 <= k < i ==> in_sidecar_lang(#[trigger] out@[k].label, *self, self.metadata@[k].label@)
                        && in_sidecar_lang(out@[k].value, *self, self.metadata@[k].value@),
            decreases self.metadata@.len() - i,
        {
            let m = &self.metadata[i];
            let label = lang(self.default_lang(), m.label.as_str());
            let value = lang(self.default_lang(), m.value.as_str());
            let ghost prev = out@;
            out.push(MetadataEntry { label, value });
            assert(forall|k: int| 0 <= k < i ==> out@[k] == prev[k]);
            i = i + 1;
        }
        Some(out)
    }

    /// The provider as an Agent, with its homepage as an HTML text link.
    pub fn provider_entries(&self) -> (r: Option<Vec<Provider>>)
        ensures
            provider_matches(r, *self),
    {
        let p = match &self.provider {
            Some(p) => p,
            None => {
                return None;
            },
        };
        let homepage = match &p.homepage {
            Some(h) => Some(
                vec![
                    ExternalResource {
                        id: h.clone(),
                        resource_type: String::from_str("Text"),
                        label: None,
                        format: Some(String::from_str("text/html")),
                        profile: None,
                    },
                ],
            ),
            None => None,
        };
        Some(
            vec![
                Provider {
                    id: p.id.clone(),
                    resource_type: String::from_str("Agent"),
                    label: lang(self.default_lang(), p.label.as_str()),
                    homepage,
                    logo: None,
                },
            ],
        )
    }
}

/// The representation a Presentation response is served as.
#[derive(Debug, Clone, Copy, PartialEq, Eq)]
pub enum NegotiatedType {
    JsonLd,
    Json,
}

/// The message refusing an `Accept` header that allows neither JSON form.
pub open spec fn not_acceptable_message(accept: Seq<char>) -> Seq<char> {
    "Unsupported Accept header: `"@ + accept
        + "`. Supported: application/ld+json, application/json."@
}

/// Content negotiation: JSON-LD by default, when asked for, or for `*/*`;
/// plain JSON when only that is asked for; `NotAcceptable` otherwise.
pub fn negotiate(accept: &str) -> (r: Result<NegotiatedType, IiifError>)
    ensures
        (accept@.len() == 0 || contains_seq(accept@, "application/ld+json"@) || contains_seq(
            accept@,
            "*/*"@,
        )) ==> r == Ok::<NegotiatedType, IiifError>(NegotiatedType::JsonLd),
        !(accept@.len() == 0 || contains_seq(accept@, "application/ld+json"@) || contains_seq(
            accept@,
            "*/*"@,
        )) && contains_seq(accept@, "application/json"@) ==> r == Ok::<NegotiatedType, IiifError>(
            NegotiatedType::Json,
        ),
        !(accept@.len() == 0 || contains_seq(accept@, "application/ld+json"@) || contains_seq(
            accept@,
            "*/*"@,
        ) || contains_seq(accept@, "application/json"@)) ==> (r matches Err(e) && e
            == IiifError::NotAcceptable(e->NotAcceptable_0) && e->NotAcceptable_0@
            == not_acceptable_message(accept@)),
{
    let a = str_chars(accept);
    let ld = str_chars("application/ld+json");
    let any = str_chars("*/*");
    let json = str_chars("application/json");
    if a.len() == 0 || contains_chars(a.as_slice(), ld.as_slice()) || contains_chars(
        a.as_slice(),
        any.as_slice(),
    ) {
        return Ok(NegotiatedType::JsonLd);
    }
    if contains_chars(a.as_slice(), json.as_slice()) {
        return Ok(NegotiatedType::Json);
    }
    let mut m = concat2("Unsupported Accept header: `", accept);
    m.append("`. Supported: application/ld+json, application/json.");
    Err(IiifError::NotAcceptable(m))
}

/// The content type of a negotiated representation.
pub fn content_type_of(t: NegotiatedType) -> (r: &'static str)
    ensures
        r@ == match t {
            NegotiatedType::JsonLd => "application/ld+json;profile=\"http://iiif.io/api/presentation/3/context.json\""@,
            NegotiatedType::Json => "application/json"@,
        },
{
    match t {
        NegotiatedType::JsonLd => "application/ld+json;profile=\"http://iiif.io/api/presentation/3/context.json\"",
        NegotiatedType::Json => "application/json",
    }
}

/// `NotFound` with the message `{what} not found: {id}/{sub}`.
fn child_not_found(what: &str, id: &str, sub: &str) -> (e: IiifError)
    ensures
        e == IiifError::NotFound(e->NotFound_0),
        e->NotFound_0@ == what@ + " not found: "@ + id@ + "/"@ + sub@,
{
    let mut m = concat3(what, " not found: ", id);
    m.append("/");
    m.append(sub);
    IiifError::NotFound(m)
}

proof fn lemma_not_found_prefixes()
    ensures
        "Canvas"@ + " not found: "@ == "Canvas not found: "@,
        "AnnotationPage"@ + " not found: "@ == "AnnotationPage not found: "@,
        "Annotation"@ + " not found: "@ == "Annotation not found: "@,
        "Range"@ + " not found: "@ == "Range not found: "@,
{
    reveal_strlit("Canvas");
    reveal_strlit("AnnotationPage");
    reveal_strlit("Annotation");
    reveal_strlit("Range");
    reveal_strlit(" not found: ");
    reveal_strlit("Canvas not found: ");
    reveal_strlit("AnnotationPage not found: ");
    reveal_strlit("Annotation not found: ");
    reveal_strlit("Range not found: ");
    assert("Canvas"@ + " not found: "@ =~= "Canvas not found: "@);
    assert("AnnotationPage"@ + " not found: "@ =~= "AnnotationPage not found: "@);
    assert("Annotation"@ + " not found: "@ =~= "Annotation not found: "@);
    assert("Range"@ + " not found: "@ =~= "Range not found: "@);
}

/// The canvas `cid` of image `id` exists only as `p1`.
pub fn check_canvas(id: &str, cid: &str) -> (r: Result<(), IiifError>)
    ensures
        r is Ok <==> cid@ == "p1"@,
        r matches Err(e) ==> e == IiifError::NotFound(e->NotFound_0) && e->NotFound_0@ == "Canvas not found: "@
            + id@ + "/"@ + cid@,
{
    if str_eq(cid, "p1") {
        Ok(())
    } else {
        proof {
            lemma_not_found_prefixes();
        }
        Err(child_not_found("Canvas", id, cid))
    }
}

/// The annotation page `pid` of image `id` exists only as `p1`.
pub fn check_annotation_page(id: &str, pid: &str) -> (r: Result<(), IiifError>)
    ensures
        r is Ok <==> pid@ == "p1"@,
        r matches Err(e) ==> e == IiifError::NotFound(e->NotFound_0) && e->NotFound_0@
            == "AnnotationPage not found: "@ + id@ + "/"@ + pid@,
{
    if str_eq(pid, "p1") {
        Ok(())
    } else {
        proof {
            lemma_not_found_prefixes();
        }
        Err(child_not_found("AnnotationPage", id, pid))
    }
}

/// The annotation `aid` of image `id` exists only as `p1-image`.
pub fn check_annotation(id: &str, aid: &str) -> (r: Result<(), IiifError>)
    ensures
        r is Ok <==> aid@ == "p1-image"@,
        r matches Err(e) ==> e == IiifError::NotFound(e->NotFound_0) && e->NotFound_0@
            == "Annotation not found: "@ + id@ + "/"@ + aid@,
{
    if str_eq(aid, "p1-image") {
        Ok(())
    } else {
        proof {
            lemma_not_found_prefixes();
        }
        Err(child_not_found("Annotation", id, aid))
    }
}

/// Generated manifests have no ranges: every range is `NotFound`.
pub fn range_not_found(id: &str, rid: &str) -> (e: IiifError)
    ensures
        e == IiifError::NotFound(e->NotFound_0),
        e->NotFound_0@ == "Range not found: "@ + id@ + "/"@ + rid@,
{
    proof {
        lemma_not_found_prefixes();
    }
    child_not_found("Range", id, rid)
}

/// The only collection is `top`.
pub fn check_collection(id: &str) -> (r: Result<(), IiifError>)
    ensures
        r is Ok <==> id@ == "top"@,
        r matches Err(e) ==> e == IiifError::NotFound(e->NotFound_0) && e->NotFound_0@
            == "Collection not found: "@ + id@,
{
    if str_eq(id, "top") {
        Ok(())
    } else {
        Err(IiifError::NotFound(concat2("Collection not found: ", id)))
    }
}

} // verus!
