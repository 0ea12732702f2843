//! The rules of image storage: which source claims an identifier, how a
//! source is configured, the object keys and file names an image is looked
//! up under, the cache file of a source, and how a multi-source router
//! falls through from one source to the next.
use vstd::prelude::*;
use vstd::utf8::*;

use crate::config::StorageSourceConfig;
use crate::error::IiifError;
use crate::search_service::{sha256, sha256_digest};
use crate::text::{
    concat2, concat3, ends_with, hex_seq, hex_string, percent_encode, percent_encoded,
    starts_with, starts_with_chars, str_chars, str_eq, EscapeSet,
};

verus! {

/// The extensions an image file may carry, in the order they are tried.
pub open spec fn supported_extensions() -> Seq<Seq<char>> {
    seq!["jpg"@, "jpeg"@, "png"@, "tif"@, "tiff"@, "gif"@, "webp"@, "jp2"@]
}

/// The supported extensions, in order.
pub fn supported_extension_list() -> (r: Vec<String>)
    ensures
        r@.map_values(|s: String| s@) == supported_extensions(),
{
    let r = vec![
        String::from_str("jpg"),
        String::from_str("jpeg"),
        String::from_str("png"),
        String::from_str("tif"),
        String::from_str("tiff"),
        String::from_str("gif"),
        String::from_str("webp"),
        String::from_str("jp2"),
    ];
    assert(r@.map_values(|s: String| s@) =~= supported_extensions());
    r
}

/// Whether a source with this prefix filter claims `identifier`: an empty
/// filter claims everything.
pub open spec fn filter_claims(prefix_filter: Seq<char>, identifier: Seq<char>) -> bool {
    prefix_filter.len() == 0 || starts_with(identifier, prefix_filter)
}

fn filter_claims_exec(prefix_filter: &str, identifier: &str) -> (r: bool)
    ensures
        r == filter_claims(prefix_filter@, identifier@),
{
    if prefix_filter.is_empty() {
        return true;
    }
    let a = str_chars(identifier);
    let p = str_chars(prefix_filter);
    starts_with_chars(a.as_slice(), p.as_slice())
}

/// A key prefix as a source keeps it: with a trailing `/` when non-empty.
pub open spec fn normalized_prefix(p: Seq<char>) -> Seq<char> {
    if p.len() > 0 && !ends_with(p, "/"@) {
        p.push('/')
    } else {
        p
    }
}

/// The lookup rules of an object-store source: where its keys live, which
/// identifiers it claims, and the access zone of what it serves. The store
/// client itself is kept beside it by the server.
#[derive(Debug, Clone)]
pub struct ObjectStoreBackend {
    prefix: String,
    extensions: Vec<String>,
    access_zone: Option<String>,
    prefix_filter: String,
    label: String,
}

impl ObjectStoreBackend {
    pub closed spec fn spec_prefix(&self) -> Seq<char> {
        self.prefix@
    }

    pub closed spec fn spec_extensions(&self) -> Seq<Seq<char>> {
        self.extensions@.map_values(|s: String| s@)
    }

    pub closed spec fn spec_access_zone(&self) -> Option<Seq<char>> {
        match self.access_zone {
            Some(z) => Some(z@),
            None => None,
        }
    }

    pub closed spec fn spec_prefix_filter(&self) -> Seq<char> {
        self.prefix_filter@
    }

    pub closed spec fn spec_label(&self) -> Seq<char> {
        self.label@
    }

    /// A source whose keys live under `prefix` (kept with a trailing `/`),
    /// trying the supported extensions in order.
    pub fn new(prefix: &str, access_zone: Option<String>, prefix_filter: &str, label: &str) -> (r:
        Self)
        ensures
            r.spec_prefix() == normalized_prefix(prefix@),
            r.spec_extensions() == supported_extensions(),
            r.spec_access_zone() == (match access_zone {
                Some(z) => Some(z@),
                None => None,
            }),
            r.spec_prefix_filter() == prefix_filter@,
            r.spec_label() == label@,
    {
        proof {
            reveal_strlit("/");
        }
        let mut p = String::from_str(prefix);
        let pc = str_chars(prefix);
        if pc.len() > 0 && pc[pc.len() - 1] != '/' {
            p.append("/");
            assert(p@ =~= prefix@.push('/'));
        }
        proof {
            if prefix@.len() > 0 {
                assert("/"@ =~= seq!['/']);
                let tail = prefix@.subrange(prefix@.len() - 1, prefix@.len() as int);
                assert(tail =~= seq![prefix@.last()]);
                if prefix@.last() == '/' {
                    assert(tail =~= "/"@);
                } else {
                    assert(tail[0] != "/"@[0]);
                }
                assert(ends_with(prefix@, "/"@) == (prefix@.last() == '/'));
            }
        }
        ObjectStoreBackend {
            prefix: p,
            extensions: supported_extension_list(),
            access_zone,
            prefix_filter: String::from_str(prefix_filter),
            label: String::from_str(label),
        }
    }

    /// Human-readable label for logs.
    pub fn label(&self) -> (r: &str)
        ensures
            r@ == self.spec_label(),
    {
        self.label.as_str()
    }

    /// The prefix an identifier must start with for this source to handle
    /// it; empty for a catch-all source.
    pub fn prefix_filter(&self) -> (r: &str)
        ensures
            r@ == self.spec_prefix_filter(),
    {
        self.prefix_filter.as_str()
    }

    /// Whether this source claims `identifier`.
    pub fn claims(&self, identifier: &str) -> (r: bool)
        ensures
            r == filter_claims(self.spec_prefix_filter(), identifier@),
    {
        filter_claims_exec(self.prefix_filter.as_str(), identifier)
    }

    /// The access zone of `identifier`: the configured zone for claimed
    /// identifiers, none otherwise.
    pub fn access_zone(&self, identifier: &str) -> (r: Option<String>)
        ensures
            match r {
                Some(z) => filter_claims(self.spec_prefix_filter(), identifier@)
                    && self.spec_access_zone() == Some(z@),
                None => !filter_claims(self.spec_prefix_filter(), identifier@)
                    || self.spec_access_zone() is None,
            },
    {
        if !self.claims(identifier) {
            return None;
        }
        match &self.access_zone {
            Some(z) => Some(z.clone()),
            None => None,
        }
    }

    /// The object key of `identifier` with extension `ext` (none when
    /// empty): the prefix, then the identifier with controls, space, `#`
    /// and `?` percent-encoded.
    pub fn key(&self, identifier: &str, ext: &str) -> (r: String)
        ensures
            r@ == object_key(self.spec_prefix(), identifier@, ext@),
    {
        let enc = percent_encode(identifier, EscapeSet::PathSegment);
        let mut k = concat2(self.prefix.as_str(), enc.as_str());
        if !ext.is_empty() {
            k.append(".");
            k.append(ext);
        }
        k
    }

    /// The keys tried for `identifier`, in order: the bare identifier, then
    /// each extension.
    pub fn candidate_keys(&self, identifier: &str) -> (r: Vec<String>)
        ensures
            r@.len() == self.spec_extensions().len() + 1,
            r@[0]@ == object_key(self.spec_prefix(), identifier@, Seq::empty()),
            forall|i: int|
                0 <= i < self.spec_extensions().len() ==> #[trigger] r@[i + 1]@ == object_key(
                    self.spec_prefix(),
                    identifier@,
                    self.spec_extensions()[i],
                ),
    {
        proof {
            reveal_strlit("");
        }
        let mut out: Vec<String> = Vec::new();
        out.push(self.key(identifier, ""));
        let mut i: usize = 0;
        while i < self.extensions.len()
            invariant
                i <= self.extensions@.len(),
                out@.len() == i + 1,
                out@[0]@ == object_key(self.spec_prefix(), identifier@, Seq::empty()),
                forall|j: int|
                    0 <= j < i ==> #[trigger] out@[j + 1]@ == object_key(
                        self.spec_prefix(),
                        identifier@,
                        self.spec_extensions()[j],
                    ),
            decreases self.extensions@.len() - i,
        {
            let k = self.key(identifier, self.extensions[i].as_str());
            out.push(k);
            i = i + 1;
        }
        out
    }

    /// The key of the sidecar metadata of `identifier`.
    pub fn sidecar_key(&self, identifier: &str) -> (r: String)
        ensures
            r@ == object_key(self.spec_prefix(), identifier@, "toml"@),
    {
        self.key(identifier, "toml")
    }

    /// The error for an identifier this source does not claim.
    pub fn not_handled(&self, identifier: &str) -> (e: IiifError)
        ensures
            e == IiifError::NotFound(e->NotFound_0),
            e->NotFound_0@ == "Identifier not handled by source `"@ + self.spec_label() + "`: "@
                + identifier@,
    {
        let mut m = concat3("Identifier not handled by source `", self.label.as_str(), "`: ");
        m.append(identifier);
        IiifError::NotFound(m)
    }
}

/// The object key of an identifier under a prefix, with an extension when
/// one is given.
pub open spec fn object_key(prefix: Seq<char>, identifier: Seq<char>, ext: Seq<char>) -> Seq<char> {
    let base = prefix + percent_encoded(EscapeSet::PathSegment, encode_utf8(identifier));
    if ext.len() == 0 {
        base
    } else {
        base + "."@ + ext
    }
}

/// The object-store service a source is built on, with the settings its
/// client needs.
#[derive(Debug, Clone, PartialEq, Eq)]
pub enum SourceKind {
    S3 { bucket: String, region: Option<String>, endpoint: Option<String> },
    Azure { account: String, container: String },
    Gcs { bucket: String },
    Http { url: String },
    Local { root: Option<String> },
}

/// A source to build: the client to create and the lookup rules to pair it
/// with.
#[derive(Debug, Clone)]
pub struct SourcePlan {
    pub kind: SourceKind,
    pub backend: ObjectStoreBackend,
}

/// The label of a configured source: its own, or its kind when it has none.
pub open spec fn source_label(cfg: StorageSourceConfig) -> Seq<char> {
    if cfg.label@.len() == 0 {
        cfg.kind@
    } else {
        cfg.label@
    }
}

/// The text unless it is empty.
pub open spec fn unless_empty(s: Seq<char>) -> Option<Seq<char>> {
    if s.len() == 0 {
        None
    } else {
        Some(s)
    }
}

/// The reason a source configuration is refused, if it is.
pub open spec fn source_config_error(cfg: StorageSourceConfig) -> Option<Seq<char>> {
    let label = source_label(cfg);
    if cfg.kind@ == "s3"@ {
        if cfg.bucket@.len() == 0 {
            Some("[storage.sources] kind=s3 requires `bucket` (label `"@ + label + "`)"@)
        } else {
            None
        }
    } else if cfg.kind@ == "azure"@ {
        if cfg.account@.len() == 0 || cfg.container@.len() == 0 {
            Some(
                "[storage.sources] kind=azure requires `account` and `container` (label `"@ + label
                    + "`)"@,
            )
        } else {
            None
        }
    } else if cfg.kind@ == "gcs"@ {
        if cfg.bucket@.len() == 0 {
            Some("[storage.sources] kind=gcs requires `bucket` (label `"@ + label + "`)"@)
        } else {
            None
        }
    } else if cfg.kind@ == "http"@ {
        if cfg.url@.len() == 0 {
            Some("[storage.sources] kind=http requires `url` (label `"@ + label + "`)"@)
        } else {
            None
        }
    } else if cfg.kind@ == "local"@ {
        None
    } else {
        Some("[storage.sources] unknown kind `"@ + cfg.kind@ + "` (label `"@ + label + "`)"@)
    }
}

/// Whether `k` is the client that `cfg` asks for.
pub open spec fn kind_of(k: SourceKind, cfg: StorageSourceConfig) -> bool {
    match k {
        SourceKind::S3 { bucket, region, endpoint } => cfg.kind@ == "s3"@ && bucket@ == cfg.bucket@
            && (match region {
            Some(r) => Some(r@),
            None => None,
        }) == unless_empty(cfg.region@) && (match endpoint {
            Some(e) => Some(e@),
            None => None,
        }) == unless_empty(cfg.url@),
        SourceKind::Azure { account, container } => cfg.kind@ == "azure"@ && account@
            == cfg.account@ && container@ == cfg.container@,
        SourceKind::Gcs { bucket } => cfg.kind@ == "gcs"@ && bucket@ == cfg.bucket@,
        SourceKind::Http { url } => cfg.kind@ == "http"@ && url@ == cfg.url@,
        SourceKind::Local { root } => cfg.kind@ == "local"@ && (match root {
            Some(r) => Some(r@),
            None => None,
        }) == unless_empty(cfg.url@),
    }
}

fn optional(s: &String) -> (r: Option<String>)
    ensures
        match r {
            Some(x) => Some(x@),
            None => None,
        } == unless_empty(s@),
{
    if s.as_str().is_empty() {
        None
    } else {
        Some(s.clone())
    }
}

/// Plans an object-store source from its configuration: `BadRequest` for
/// an unknown kind or a missing required field, else the client to build
/// and the lookup rules (key prefix, zone, prefix filter, label).
pub fn build_source(cfg: &StorageSourceConfig) -> (r: Result<SourcePlan, IiifError>)
    ensures
        match source_config_error(*cfg) {
            Some(msg) => r matches Err(e) && e == IiifError::BadRequest(e->BadRequest_0)
                && e->BadRequest_0@ == msg,
            None => r matches Ok(plan) && kind_of(plan.kind, *cfg) && plan.backend.spec_prefix()
                == normalized_prefix(cfg.prefix@) && plan.backend.spec_extensions()
                == supported_extensions() && plan.backend.spec_access_zone() == unless_empty(
                cfg.access_zone@,
            ) && plan.backend.spec_prefix_filter() == cfg.prefix_filter@
                && plan.backend.spec_label() == source_label(*cfg),
        },
{
    let label = if cfg.label.as_str().is_empty() {
        cfg.kind.clone()
    } else {
        cfg.label.clone()
    };
    let access_zone = optional(&cfg.access_zone);
    let kind = cfg.kind.as_str();
    let source_kind = if str_eq(kind, "s3") {
        if cfg.bucket.as_str().is_empty() {
            let mut m = concat2("[storage.sources] kind=s3 requires `bucket` (label `", label.as_str());
            m.append("`)");
            return Err(IiifError::BadRequest(m));
        }
        SourceKind::S3 {
            bucket: cfg.bucket.clone(),
            region: optional(&cfg.region),
            endpoint: optional(&cfg.url),
        }
    } else if str_eq(kind, "azure") {
        if cfg.account.as_str().is_empty() || cfg.container.as_str().is_empty() {
            let mut m = concat2(
                "[storage.sources] kind=azure requires `account` and `container` (label `",
                label.as_str(),
            );
            m.append("`)");
            return Err(IiifError::BadRequest(m));
        }
        SourceKind::Azure { account: cfg.account.clone(), container: cfg.container.clone() }
    } else if str_eq(kind, "gcs") {
        if cfg.bucket.as_str().is_empty() {
            let mut m = concat2("[storage.sources] kind=gcs requires `bucket` (label `", label.as_str());
            m.append("`)");
            return Err(IiifError::BadRequest(m));
        }
        SourceKind::Gcs { bucket: cfg.bucket.clone() }
    } else if str_eq(kind, "http") {
        if cfg.url.as_str().is_empty() {
            let mut m = concat2("[storage.sources] kind=http requires `url` (label `", label.as_str());
            m.append("`)");
            return Err(IiifError::BadRequest(m));
        }
        SourceKind::Http { url: cfg.url.clone() }
    } else if str_eq(kind, "local") {
        SourceKind::Local { root: optional(&cfg.url) }
    } else {
        let mut m = concat3("[storage.sources] unknown kind `", kind, "` (label `");
        m.append(label.as_str());
        m.append("`)");
        return Err(IiifError::BadRequest(m));
    };
    let backend = ObjectStoreBackend::new(
        cfg.prefix.as_str(),
        access_zone,
        cfg.prefix_filter.as_str(),
        label.as_str(),
    );
    Ok(SourcePlan { kind: source_kind, backend })
}

/// The claim rules of an ordered list of sources, by prefix filter (empty
/// for a catch-all source such as a directory of files).
#[derive(Debug, Clone)]
pub struct RoutedStorage {
    filters: Vec<String>,
}

/// The positions of the sources, in order, whose filters claim `identifier`.
pub open spec fn claiming(filters: Seq<Seq<char>>, identifier: Seq<char>) -> Seq<usize>
    decreases filters.len(),
{
    if filters.len() == 0 {
        Seq::empty()
    } else if filter_claims(filters.last(), identifier) {
        claiming(filters.drop_last(), identifier).push((filters.len() - 1) as usize)
    } else {
        claiming(filters.drop_last(), identifier)
    }
}

impl RoutedStorage {
    pub closed spec fn spec_filters(&self) -> Seq<Seq<char>> {
        self.filters@.map_values(|s: String| s@)
    }

    /// A router over sources with these prefix filters, in order.
    pub fn new(filters: Vec<String>) -> (r: Self)
        ensures
            r.spec_filters() == filters@.map_values(|s: String| s@),
    {
        RoutedStorage { filters }
    }

    /// The sources that could own `identifier`, in order.
    pub fn pick(&self, identifier: &str) -> (r: Vec<usize>)
        ensures
            r@ == claiming(self.spec_filters(), identifier@),
    {
        let mut out: Vec<usize> = Vec::new();
        let mut i: usize = 0;
        while i < self.filters.len()
            invariant
                i <= self.filters@.len(),
                out@ == claiming(self.spec_filters().take(i as int), identifier@),
            decreases self.filters@.len() - i,
        {
            let ghost f = self.spec_filters();
            assert(f.take(i + 1).drop_last() =~= f.take(i as int));
            assert(f.take(i + 1).last() == self.filters@[i as int]@);
            if filter_claims_exec(self.filters[i].as_str(), identifier) {
                out.push(i);
            }
            i = i + 1;
        }
        assert(self.spec_filters().take(self.filters@.len() as int) =~= self.spec_filters());
        out
    }

    /// Whether some source claims `identifier`.
    pub fn claims(&self, identifier: &str) -> (r: bool)
        ensures
            r == (claiming(self.spec_filters(), identifier@).len() > 0),
    {
        self.pick(identifier).len() > 0
    }
}

/// Whether a router moves on to its next source after this outcome: only a
/// `NotFound` lets the search go on; success and every other error end it.
pub open spec fn falls_through<T>(outcome: Result<T, IiifError>) -> bool {
    outcome matches Err(IiifError::NotFound(_))
}

/// Whether to try the next source after this outcome.
pub fn try_next_source<T>(outcome: &Result<T, IiifError>) -> (r: bool)
    ensures
        r == falls_through(*outcome),
{
    match outcome {
        Err(IiifError::NotFound(_)) => true,
        _ => false,
    }
}

/// Whether an existence check goes on after this answer: on "no" and on
/// `NotFound`.
pub open spec fn exists_falls_through(outcome: Result<bool, IiifError>) -> bool {
    outcome == Ok::<bool, IiifError>(false) || falls_through(outcome)
}

/// Whether to ask the next source whether it has the image.
pub fn try_next_for_exists(outcome: &Result<bool, IiifError>) -> (r: bool)
    ensures
        r == exists_falls_through(*outcome),
{
    match outcome {
        Ok(found) => !*found,
        Err(IiifError::NotFound(_)) => true,
        _ => false,
    }
}

/// The error when no source claims an identifier.
pub fn no_source_claims(identifier: &str) -> (e: IiifError)
    ensures
        e == IiifError::NotFound(e->NotFound_0),
        e->NotFound_0@ == "No source claims identifier: "@ + identifier@,
{
    IiifError::NotFound(concat2("No source claims identifier: ", identifier))
}

/// The error when every claiming source missed: the last source's own
/// `NotFound`, or a generic one.
pub fn sources_exhausted(identifier: &str, last: Option<IiifError>) -> (e: IiifError)
    ensures
        match last {
            Some(l) => e == l,
            None => e == IiifError::NotFound(e->NotFound_0) && e->NotFound_0@ == "Image not found: "@
                + identifier@,
        },
{
    match last {
        Some(l) => l,
        None => image_not_found(identifier),
    }
}

/// `NotFound` for an image.
pub fn image_not_found(identifier: &str) -> (e: IiifError)
    ensures
        e == IiifError::NotFound(e->NotFound_0),
        e->NotFound_0@ == "Image not found: "@ + identifier@,
{
    IiifError::NotFound(concat2("Image not found: ", identifier))
}

/// The file names an image may have in a directory, in the order tried:
/// the identifier itself, then the identifier with each supported
/// extension.
pub open spec fn candidate_file_names(identifier: Seq<char>) -> Seq<Seq<char>> {
    seq![identifier] + supported_extensions().map_values(|e: Seq<char>| identifier + "."@ + e)
}

/// The file names an image may have, in the order tried.
pub fn candidate_files(identifier: &str) -> (r: Vec<String>)
    ensures
        r@.map_values(|s: String| s@) == candidate_file_names(identifier@),
{
    let exts = supported_extension_list();
    let mut out: Vec<String> = Vec::new();
    out.push(String::from_str(identifier));
    let mut i: usize = 0;
    while i < exts.len()
        invariant
            exts@.map_values(|s: String| s@) == supported_extensions(),
            i <= exts@.len(),
            out@.len() == i + 1,
            out@[0]@ == identifier@,
            forall|j: int| 0 <= j < i ==> #[trigger] out@[j + 1]@ == identifier@ + "."@ + exts@[j]@,
        decreases exts@.len() - i,
    {
        let name = concat3(identifier, ".", exts[i].as_str());
        out.push(name);
        i = i + 1;
    }
    assert(out@.map_values(|s: String| s@) =~= candidate_file_names(identifier@)) by {
        assert forall|j: int| 1 <= j < out@.len() implies out@[j]@ == identifier@ + "."@
            + supported_extensions()[j - 1] by {
            assert(out@[(j - 1) + 1]@ == identifier@ + "."@ + exts@[j - 1]@);
            assert(exts@.map_values(|s: String| s@)[j - 1] == exts@[j - 1]@);
        }
    }
    out
}

/// File-system backed image storage: images live in `root_dir` or in one of
/// its immediate subdirectories, whose name is their access zone.
#[derive(Debug, Clone)]
pub struct FilesystemStorage {
    pub root_dir: String,
}

impl FilesystemStorage {
    /// The first candidate file name of `identifier` that `is_file` accepts
    /// (`is_file` tells whether a name is a file of the directory searched),
    /// or none when it accepts none of them.
    pub fn try_find_in_dir<F: Fn(&str) -> bool>(&self, identifier: &str, is_file: F) -> (r: Option<
        String,
    >)
        requires
            forall|name: &str| #[trigger] call_requires(is_file, (name,)),
        ensures
            match r {
                Some(name) => exists|k: int|
                    0 <= k < candidate_file_names(identifier@).len()
                        && #[trigger] candidate_file_names(identifier@)[k] == name@
                        && answered(is_file, name@, true)
                        && forall|j: int| 0 <= j < k ==> answered(is_file, candidate_file_names(identifier@)[j], false),
                None => forall|j: int|
                    0 <= j < candidate_file_names(identifier@).len() ==> answered(
                        is_file,
                        #[trigger] candidate_file_names(identifier@)[j],
                        false,
                    ),
            },
    {
        let names = candidate_files(identifier);
        let ghost cands = candidate_file_names(identifier@);
        let mut i: usize = 0;
        while i < names.len()
            invariant
                forall|name: &str| #[trigger] call_requires(is_file, (name,)),
                names@.map_values(|s: String| s@) == cands,
                cands == candidate_file_names(identifier@),
                i <= names@.len(),
                forall|j: int| 0 <= j < i ==> answered(is_file, #[trigger] cands[j], false),
            decreases names@.len() - i,
        {
            assert(cands[i as int] == names@[i as int]@);
            let candidate = names[i].as_str();
            let found = is_file(candidate);
            assert(answered(is_file, cands[i as int], found));
            if found {
                return Some(names[i].clone());
            }
            i = i + 1;
        }
        None
    }
}

/// The directory searched `i`-th: the root first, then the subdirectories
/// (each a path and a name) in the order listed.
pub open spec fn search_dir(root: Seq<char>, subdirs: Seq<(String, String)>, i: int) -> Seq<char> {
    if i == 0 {
        root
    } else {
        subdirs[i - 1].0@
    }
}

/// The `k`-th candidate path of an image in the `i`-th directory searched.
pub open spec fn search_path(
    root: Seq<char>,
    subdirs: Seq<(String, String)>,
    identifier: Seq<char>,
    i: int,
    k: int,
) -> Seq<char> {
    joined_path(search_dir(root, subdirs, i), candidate_file_names(identifier)[k])
}

/// Whether `is_file` refused every candidate path searched before the `k`-th
/// one of the `i`-th directory.
pub open spec fn refused_before<F: Fn(&str) -> bool>(
    is_file: F,
    root: Seq<char>,
    subdirs: Seq<(String, String)>,
    identifier: Seq<char>,
    i: int,
    k: int,
) -> bool {
    &&& forall|a: int, b: int|
        0 <= a < i && 0 <= b < candidate_file_names(identifier).len() ==> answered(
            is_file,
            #[trigger] search_path(root, subdirs, identifier, a, b),
            false,
        )
    &&& forall|b: int|
        0 <= b < k ==> answered(is_file, #[trigger] search_path(root, subdirs, identifier, i, b), false)
}

/// Whether the image is found as the `k`-th candidate of the `i`-th directory:
/// `is_file` accepted that path and refused every path searched before it.
pub open spec fn found_at<F: Fn(&str) -> bool>(
    is_file: F,
    root: Seq<char>,
    subdirs: Seq<(String, String)>,
    identifier: Seq<char>,
    i: int,
    k: int,
) -> bool {
    &&& 0 <= i <= subdirs.len()
    &&& 0 <= k < candidate_file_names(identifier).len()
    &&& answered(is_file, search_path(root, subdirs, identifier, i, k), true)
    &&& refused_before(is_file, root, subdirs, identifier, i, k)
}

/// Whether the image is found in the `i`-th directory, at `path`.
pub open spec fn found_as<F: Fn(&str) -> bool>(
    is_file: F,
    root: Seq<char>,
    subdirs: Seq<(String, String)>,
    identifier: Seq<char>,
    i: int,
    path: Seq<char>,
) -> bool {
    exists|k: int|
        found_at(is_file, root, subdirs, identifier, i, k) && path == #[trigger] search_path(
            root,
            subdirs,
            identifier,
            i,
            k,
        )
}

/// Whether `is_file` refused every candidate path of every directory.
pub open spec fn found_nowhere<F: Fn(&str) -> bool>(
    is_file: F,
    root: Seq<char>,
    subdirs: Seq<(String, String)>,
    identifier: Seq<char>,
) -> bool {
    refused_before(is_file, root, subdirs, identifier, subdirs.len() + 1int, 0)
}

impl FilesystemStorage {
    /// Searches the root and then each subdirectory for the first candidate
    /// path that `is_file` accepts; gives the path and the index of the
    /// directory (0 for the root).
    fn locate<F: Fn(&str) -> bool>(
        &self,
        identifier: &str,
        subdirs: &Vec<(String, String)>,
        is_file: F,
    ) -> (r: Option<(String, usize)>)
        requires
            forall|p: &str| #[trigger] call_requires(is_file, (p,)),
        ensures
            r matches Some(v) ==> found_as(is_file, self.root_dir@, subdirs@, identifier@, v.1 as int, v.0@),
            r is None ==> found_nowhere(is_file, self.root_dir@, subdirs@, identifier@),
    {
        let names = candidate_files(identifier);
        let ghost cands = candidate_file_names(identifier@);
        let ghost root = self.root_dir@;
        let n = subdirs.len();
        let mut i: usize = 0;
        loop
            invariant
                forall|p: &str| #[trigger] call_requires(is_file, (p,)),
                names@.map_values(|s: String| s@) == cands,
                cands == candidate_file_names(identifier@),
                root == self.root_dir@,
                n == subdirs@.len(),
                i <= n,
                refused_before(is_file, root, subdirs@, identifier@, i as int, 0),
            ensures
                found_nowhere(is_file, root, subdirs@, identifier@),
            decreases n - i,
        {
            let dir: &str = if i == 0 {
                self.root_dir.as_str()
            } else {
                subdirs[i - 1].0.as_str()
            };
            assert(dir@ == search_dir(root, subdirs@, i as int));
            let mut k: usize = 0;
            while k < names.len()
                invariant
                    forall|p: &str| #[trigger] call_requires(is_file, (p,)),
                    names@.map_values(|s: String| s@) == cands,
                    cands == candidate_file_names(identifier@),
                    root == self.root_dir@,
                    n == subdirs@.len(),
                    i <= n,
                    dir@ == search_dir(root, subdirs@, i as int),
                    k <= names@.len(),
                    refused_before(is_file, root, subdirs@, identifier@, i as int, k as int),
                decreases names@.len() - k,
            {
                assert(cands[k as int] == names@[k as int]@);
                let path = join_path(dir, names[k].as_str());
                let found = is_file(path.as_str());
                assert(path@ == search_path(root, subdirs@, identifier@, i as int, k as int));
                assert(answered(is_file, path@, found));
                if found {
                    assert(found_at(is_file, root, subdirs@, identifier@, i as int, k as int));
                    assert(found_as(is_file, root, subdirs@, identifier@, i as int, path@));
                    return Some((path, i));
                }
                k = k + 1;
            }
            assert(refused_before(is_file, root, subdirs@, identifier@, i + 1, 0)) by {
                assert forall|a: int, b: int|
                    0 <= a < i + 1 && 0 <= b < cands.len() implies answered(
                    is_file,
                    #[trigger] search_path(root, subdirs@, identifier@, a, b),
                    false,
                ) by {
                    if a == i {
                        assert(0 <= b < k);
                    }
                }
            }
            if i == n {
                break ;
            }
            i = i + 1;
        }
        None
    }

    /// The path of an image: the first candidate path that `is_file` accepts,
    /// searching the root and then each of `subdirs` (a path and a name) in
    /// order; `NotFound` when it accepts none.
    pub fn find_image_file<F: Fn(&str) -> bool>(
        &self,
        identifier: &str,
        subdirs: &Vec<(String, String)>,
        is_file: F,
    ) -> (r: Result<String, IiifError>)
        requires
            forall|p: &str| #[trigger] call_requires(is_file, (p,)),
        ensures
            match r {
                Ok(path) => exists|i: int, k: int|
                    found_at(is_file, self.root_dir@, subdirs@, identifier@, i, k) && path@
                        == #[trigger] search_path(self.root_dir@, subdirs@, identifier@, i, k),
                Err(e) => found_nowhere(is_file, self.root_dir@, subdirs@, identifier@) && e
                    == IiifError::NotFound(e->NotFound_0) && e->NotFound_0@ == "Image not found: "@
                    + identifier@,
            },
    {
        match self.locate(identifier, subdirs, is_file) {
            Some((path, _)) => Ok(path),
            None => Err(image_not_found(identifier)),
        }
    }

    /// The name of the subdirectory that holds an image: none when the image
    /// is found in the root, or nowhere.
    pub fn find_containing_subdir<F: Fn(&str) -> bool>(
        &self,
        identifier: &str,
        subdirs: &Vec<(String, String)>,
        is_file: F,
    ) -> (r: Option<String>)
        requires
            forall|p: &str| #[trigger] call_requires(is_file, (p,)),
        ensures
            match r {
                Some(name) => exists|i: int, k: int|
                    1 <= i && #[trigger] found_at(is_file, self.root_dir@, subdirs@, identifier@, i, k)
                        && name@ == subdirs@[i - 1].1@,
                None => found_nowhere(is_file, self.root_dir@, subdirs@, identifier@) || exists|k: int|
                    #[trigger] found_at(is_file, self.root_dir@, subdirs@, identifier@, 0, k),
            },
    {
        match self.locate(identifier, subdirs, is_file) {
            Some((_, i)) => {
                if i == 0 {
                    None
                } else {
                    Some(subdirs[i - 1].1.clone())
                }
            },
            None => None,
        }
    }
}

/// Whether `f` answered `b` for some text equal to `name`.
pub open spec fn answered<F: Fn(&str) -> bool>(f: F, name: Seq<char>, b: bool) -> bool {
    exists|s: &str| s@ == name && #[trigger] call_ensures(f, (s,), b)
}

/// A directory path joined with a relative name, as `Path::join` does.
pub open spec fn joined_path(dir: Seq<char>, name: Seq<char>) -> Seq<char> {
    if dir.len() == 0 {
        name
    } else if dir.last() == '/' {
        dir + name
    } else {
        dir + "/"@ + name
    }
}

/// Joins a directory and a relative name.
pub fn join_path(dir: &str, name: &str) -> (r: String)
    ensures
        r@ == joined_path(dir@, name@),
{
    let d = str_chars(dir);
    if d.len() == 0 {
        String::from_str(name)
    } else if d[d.len() - 1] == '/' {
        concat2(dir, name)
    } else {
        concat3(dir, "/", name)
    }
}

/// The cache file of an identifier for a labelled source: the first eight
/// bytes of the SHA-256 of `label|identifier`, in hex, with `.bin`.
pub open spec fn source_cache_file(label: Seq<char>, identifier: Seq<char>) -> Seq<char> {
    hex_seq(sha256_digest(encode_utf8(label + "|"@ + identifier)).take(8)) + ".bin"@
}

/// A read-through byte cache in front of a source: the source, where its
/// cache lives, and the label that keeps two sources' entries apart.
#[derive(Debug, Clone)]
pub struct CachedSourceStorage<S> {
    inner: S,
    cache_dir: String,
    label: String,
}

impl<S> CachedSourceStorage<S> {
    pub closed spec fn spec_cache_dir(&self) -> Seq<char> {
        self.cache_dir@
    }

    pub closed spec fn spec_inner(&self) -> S {
        self.inner
    }

    /// The source the cache fronts.
    pub fn inner(&self) -> (r: &S)
        ensures
            *r == self.spec_inner(),
    {
        &self.inner
    }

    pub closed spec fn spec_label(&self) -> Seq<char> {
        self.label@
    }

    /// A cache for `inner` under `cache_dir`, keyed by `label`.
    pub fn new(inner: S, cache_dir: &str, label: &str) -> (r: Self)
        ensures
            r.spec_inner() == inner,
            r.spec_cache_dir() == cache_dir@,
            r.spec_label() == label@,
    {
        CachedSourceStorage {
            inner,
            cache_dir: String::from_str(cache_dir),
            label: String::from_str(label),
        }
    }

    /// The cache file of `identifier`: `<cache_dir>/source/<hash>.bin`.
    pub fn cache_path(&self, identifier: &str) -> (r: String)
        ensures
            r@ == joined_path(
                joined_path(self.spec_cache_dir(), "source"@),
                source_cache_file(self.spec_label(), identifier@),
            ),
    {
        let key = concat3(self.label.as_str(), "|", identifier);
        let digest = sha256(key.as_str().as_bytes());
        let mut first: Vec<u8> = Vec::new();
        let mut i: usize = 0;
        while i < 8
            invariant
                digest@.len() == 32,
                i <= 8,
                first@ == digest@.take(i as int),
            decreases 8 - i,
        {
            first.push(digest[i]);
            i = i + 1;
            assert(first@ == digest@.take(i as int));
        }
        let mut name = hex_string(&first);
        name.append(".bin");
        let dir = join_path(self.cache_dir.as_str(), "source");
        join_path(dir.as_str(), name.as_str())
    }
}

} // verus!
