//! Web Annotation primitives shared by Presentation 3.0 and Content Search
//! 2.0: selectors, specific resources, targets and page references.
use vstd::prelude::*;

use crate::decimal::Decimal;
use crate::services::LanguageMap;

verus! {

/// A region, point or quotation selector on a content resource.
#[derive(Debug, Clone)]
pub enum Selector {
    /// e.g. `value: "xywh=0,0,100,100"` or `value: "t=10,30"`.
    FragmentSelector { value: String },
    /// `x`/`y` for a spatial point, `t` for a temporal point.
    PointSelector { x: Option<Decimal>, y: Option<Decimal>, t: Option<Decimal> },
    /// Arbitrary SVG shape; `value` is the SVG markup.
    SvgSelector { value: String },
    /// Used by Content Search 2.0 for hit augmentation context.
    TextQuoteSelector { prefix: Option<String>, exact: String, suffix: Option<String> },
}

/// A portion of a `source` resource pinned by a selector.
#[derive(Debug, Clone)]
pub struct SpecificResource {
    pub source: String,
    pub resource_type: String,
    pub selector: Selector,
}

impl SpecificResource {
    /// A `SpecificResource` of `source` with the given selector.
    pub fn new(source: String, selector: Selector) -> (r: Self)
        ensures
            r.source == source,
            r.resource_type@ == "SpecificResource"@,
            r.selector == selector,
    {
        SpecificResource {
            source,
            resource_type: String::from_str("SpecificResource"),
            selector,
        }
    }
}

/// An annotation target: a plain URI, one specific resource, or several.
#[derive(Debug, Clone)]
pub enum AnnotationTarget {
    Id(String),
    Specific(SpecificResource),
    Multiple(Vec<SpecificResource>),
}

/// An unordered collection of annotation pages.
#[derive(Debug, Clone)]
pub struct AnnotationCollection {
    pub id: String,
    pub resource_type: String,
    pub label: Option<LanguageMap>,
    pub first: Option<AnnotationPageRef>,
    pub last: Option<AnnotationPageRef>,
}

/// Reference to an AnnotationPage (`{id, type: "AnnotationPage"}`).
#[derive(Debug, Clone)]
pub struct AnnotationPageRef {
    pub id: String,
    pub resource_type: String,
}

impl AnnotationPageRef {
    /// A reference to the annotation page `id`.
    pub fn new(id: &str) -> (r: Self)
        ensures
            r.id@ == id@,
            r.resource_type@ == "AnnotationPage"@,
    {
        AnnotationPageRef { id: String::from_str(id), resource_type: String::from_str("AnnotationPage") }
    }
}

/// Reference to an AnnotationCollection (`{id, type: "AnnotationCollection"}`).
#[derive(Debug, Clone)]
pub struct AnnotationCollectionRef {
    pub id: String,
    pub resource_type: String,
}

impl AnnotationCollectionRef {
    /// A reference to the annotation collection `id`.
    pub fn new(id: &str) -> (r: Self)
        ensures
            r.id@ == id@,
            r.resource_type@ == "AnnotationCollection"@,
    {
        AnnotationCollectionRef {
            id: String::from_str(id),
            resource_type: String::from_str("AnnotationCollection"),
        }
    }
}

} // verus!
