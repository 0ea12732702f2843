//! IIIF Change Discovery API 1.0: the activity stream, kept oldest first,
//! and its paged ordered-collection views.
use vstd::prelude::*;

use chrono::{SecondsFormat, Utc};

use crate::error::IiifError;
use crate::text::{concat2, decimal, decimal_string};

verus! {

/// The JSON-LD context of Change Discovery responses.
pub open spec fn discovery_context() -> Seq<char> {
    "http://iiif.io/api/discovery/1/context.json"@
}

/// Reference to a page or collection.
#[derive(Debug, Clone)]
pub struct PageRef {
    pub id: String,
    pub resource_type: String,
}

/// The object that was created, updated, deleted or moved.
#[derive(Debug, Clone)]
pub struct ActivityObject {
    pub id: String,
    pub object_type: String,
}

/// Optional actor that performed the activity.
#[derive(Debug, Clone)]
pub struct Actor {
    pub id: String,
    pub actor_type: String,
}

/// A single activity in the stream. `Move` activities carry a `target`;
/// `Refresh` activities carry `start_time` and neither object nor target.
#[derive(Debug, Clone)]
pub struct Activity {
    pub id: String,
    pub activity_type: String,
    pub object: Option<ActivityObject>,
    pub target: Option<ActivityObject>,
    pub end_time: Option<String>,
    pub start_time: Option<String>,
    pub actor: Option<Actor>,
    pub summary: Option<String>,
}

fn copy_string_option(o: &Option<String>) -> (r: Option<String>)
    ensures
        r == *o,
{
    match o {
        Some(s) => Some(s.clone()),
        None => None,
    }
}

fn copy_object_option(o: &Option<ActivityObject>) -> (r: Option<ActivityObject>)
    ensures
        r == *o,
{
    match o {
        Some(x) => Some(ActivityObject { id: x.id.clone(), object_type: x.object_type.clone() }),
        None => None,
    }
}

impl Activity {
    /// A field-by-field copy.
    pub fn duplicate(&self) -> (r: Self)
        ensures
            r == *self,
    {
        Activity {
            id: self.id.clone(),
            activity_type: self.activity_type.clone(),
            object: copy_object_option(&self.object),
            target: copy_object_option(&self.target),
            end_time: copy_string_option(&self.end_time),
            start_time: copy_string_option(&self.start_time),
            actor: match &self.actor {
                Some(a) => Some(Actor { id: a.id.clone(), actor_type: a.actor_type.clone() }),
                None => None,
            },
            summary: copy_string_option(&self.summary),
        }
    }
}

/// The Change Discovery ordered collection.
#[derive(Debug, Clone)]
pub struct OrderedCollection {
    pub context: String,
    pub id: String,
    pub resource_type: String,
    pub total_items: usize,
    pub first: Option<PageRef>,
    pub last: Option<PageRef>,
}

/// A page of the ordered collection.
#[derive(Debug, Clone)]
pub struct OrderedCollectionPage {
    pub context: String,
    pub id: String,
    pub resource_type: String,
    pub start_index: usize,
    pub part_of: PageRef,
    pub ordered_items: Vec<Activity>,
    pub prev: Option<PageRef>,
    pub next: Option<PageRef>,
}

/// The URI of activity page `p`.
pub open spec fn activity_page_url(base: Seq<char>, p: nat) -> Seq<char> {
    base + "/activity/page/"@ + decimal(p)
}

fn page_url(base: &str, p: usize) -> (r: String)
    ensures
        r@ == activity_page_url(base@, p as nat),
{
    let mut u = concat2(base, "/activity/page/");
    let n = decimal_string(p as u64);
    u.append(n.as_str());
    u
}

/// A reference to an activity page.
fn page_ref(base: &str, p: usize) -> (r: PageRef)
    ensures
        r.id@ == activity_page_url(base@, p as nat),
        r.resource_type@ == "OrderedCollectionPage"@,
{
    PageRef { id: page_url(base, p), resource_type: String::from_str("OrderedCollectionPage") }
}

impl OrderedCollection {
    /// The collection of `total` activities over `page_count` pages; an
    /// empty stream has neither `first` nor `last`.
    pub fn new(base_url: &str, total: usize, page_count: usize) -> (r: Self)
        ensures
            r.context@ == discovery_context(),
            r.id@ == base_url@ + "/activity/all-changes"@,
            r.resource_type@ == "OrderedCollection"@,
            r.total_items == total,
            total == 0 ==> r.first is None && r.last is None,
            total > 0 ==> (r.first matches Some(f) && f.id@ == activity_page_url(base_url@, 0)
                && f.resource_type@ == "OrderedCollectionPage"@),
            total > 0 ==> (r.last matches Some(l) && l.id@ == activity_page_url(
                base_url@,
                if page_count == 0 {
                    0
                } else {
                    (page_count - 1) as nat
                },
            ) && l.resource_type@ == "OrderedCollectionPage"@),
    {
        let (first, last) = if total == 0 {
            (None, None)
        } else {
            let last_idx = if page_count == 0 {
                0
            } else {
                page_count - 1
            };
            (Some(page_ref(base_url, 0)), Some(page_ref(base_url, last_idx)))
        };
        OrderedCollection {
            context: String::from_str("http://iiif.io/api/discovery/1/context.json"),
            id: concat2(base_url, "/activity/all-changes"),
            resource_type: String::from_str("OrderedCollection"),
            total_items: total,
            first,
            last,
        }
    }
}

/// Whether `s` has the shape of an RFC 3339 UTC timestamp: a `T` between
/// date and time, and a closing `Z`.
pub open spec fn is_utc_timestamp(s: Seq<char>) -> bool {
    s.contains('T') && s.len() > 0 && s.last() == 'Z'
}

/// Wraps `Utc::now().to_rfc3339_opts(SecondsFormat::Secs, true)`: the
/// clock's current UTC time, formatted with a `T` between date and time and,
/// since the offset is zero and `use_z` is set, a closing `Z`. Which time it
/// gives depends on the clock, so nothing more is stated.
#[verifier::external_body]
fn utc_now_rfc3339() -> (r: String)
    ensures
        is_utc_timestamp(r@),
{
    Utc::now().to_rfc3339_opts(SecondsFormat::Secs, true)
}

/// The current UTC time as RFC 3339 with whole seconds and a `Z` suffix.
pub fn current_timestamp() -> (r: String)
    ensures
        is_utc_timestamp(r@),
{
    utc_now_rfc3339()
}

/// `s` without trailing `/` characters.
pub open spec fn without_trailing_slashes(s: Seq<char>) -> Seq<char>
    decreases s.len(),
{
    if s.len() > 0 && s.last() == '/' {
        without_trailing_slashes(s.drop_last())
    } else {
        s
    }
}

/// The id of the activity at position `n` of a stream published at `base`.
pub open spec fn activity_id(base: Seq<char>, n: nat) -> Seq<char> {
    without_trailing_slashes(base) + "/activity/"@ + decimal(n)
}

/// Whether `a` is the activity of the given type on one object.
pub open spec fn is_object_activity(a: Activity, id: Seq<char>, activity_type: Seq<char>, object_id: Seq<char>, object_type: Seq<char>) -> bool {
    &&& a.id@ == id
    &&& a.activity_type@ == activity_type
    &&& (a.object matches Some(o) && o.id@ == object_id && o.object_type@ == object_type)
    &&& a.target is None
    &&& (a.end_time matches Some(t) && is_utc_timestamp(t@))
    &&& a.start_time is None
    &&& a.actor is None
    &&& a.summary is None
}

/// The activities of the page `page` of a stream, `page_size` per page.
pub open spec fn page_slice(all: Seq<Activity>, page: nat, page_size: nat) -> Seq<Activity> {
    let start = page * page_size;
    if start >= all.len() {
        Seq::empty()
    } else if start + page_size <= all.len() {
        all.subrange(start as int, (start + page_size) as int)
    } else {
        all.subrange(start as int, all.len() as int)
    }
}

/// The number of pages of `total` activities (none for an empty stream).
pub open spec fn pages_of(total: nat, page_size: nat) -> nat {
    if total == 0 {
        0
    } else {
        ((total + page_size - 1) / page_size as int) as nat
    }
}

/// In-memory store for change activities, oldest first.
pub struct ActivityStore {
    activities: Vec<Activity>,
    page_size: usize,
    base_url: String,
}

impl View for ActivityStore {
    type V = Seq<Activity>;

    closed spec fn view(&self) -> Seq<Activity> {
        self.activities@
    }
}

impl ActivityStore {
    /// The base URL the store mints activity ids from.
    pub closed spec fn base(&self) -> Seq<char> {
        self.base_url@
    }

    /// The configured page size.
    pub closed spec fn spec_page_size(&self) -> nat {
        self.page_size as nat
    }

    /// Every activity's id names its position in the stream.
    pub closed spec fn wf(&self) -> bool {
        forall|i: int|
            0 <= i < self.activities@.len() ==> #[trigger] self.activities@[i].id@ == activity_id(
                self.base_url@,
                i as nat,
            )
    }

    /// A store of `page_size` activities per page, minting ids under
    /// `base_url`.
    pub fn new(page_size: usize, base_url: &str) -> (r: Self)
        ensures
            r.wf(),
            r@ == Seq::<Activity>::empty(),
            r.spec_page_size() == page_size,
            r.base() == base_url@,
    {
        ActivityStore {
            activities: Vec::new(),
            page_size,
            base_url: String::from_str(base_url),
        }
    }

    /// The id the next activity gets: the base URL without trailing
    /// slashes, `/activity/`, and its position.
    pub fn next_activity_id(&self) -> (r: String)
        ensures
            r@ == activity_id(self.base(), self@.len()),
    {
        let cs = crate::text::str_chars(self.base_url.as_str());
        let mut end = cs.len();
        assert(cs@.subrange(0, cs@.len() as int) =~= cs@);
        while end > 0 && cs[end - 1] == '/'
            invariant
                end <= cs@.len(),
                cs@ == self.base_url@,
                without_trailing_slashes(cs@) == without_trailing_slashes(cs@.subrange(0, end as int)),
            decreases end,
        {
            assert(cs@.subrange(0, end as int).drop_last() =~= cs@.subrange(0, end - 1));
            end = end - 1;
        }
        let trimmed = crate::text::slice_chars(&cs, 0, end);
        let mut id = crate::text::string_from_chars(&trimmed);
        id.append("/activity/");
        let n = decimal_string(self.activities.len() as u64);
        id.append(n.as_str());
        id
    }

    /// Appends an activity.
    fn push(&mut self, activity: Activity)
        requires
            old(self).wf(),
            activity.id@ == activity_id(old(self).base(), old(self)@.len()),
        ensures
            final(self).wf(),
            final(self)@ == old(self)@.push(activity),
            final(self).base() == old(self).base(),
            final(self).spec_page_size() == old(self).spec_page_size(),
    {
        self.activities.push(activity);
    }

    /// Record an activity that targets a single object (Create, Update,
    /// Delete, Add, Remove), stamped with the current time as `endTime`.
    pub fn record(&mut self, activity_type: &str, object_id: &str, object_type: &str)
        requires
            old(self).wf(),
        ensures
            final(self).wf(),
            final(self)@.len() == old(self)@.len() + 1,
            final(self)@.drop_last() == old(self)@,
            is_object_activity(
                final(self)@.last(),
                activity_id(old(self).base(), old(self)@.len()),
                activity_type@,
                object_id@,
                object_type@,
            ),
            final(self).base() == old(self).base(),
            final(self).spec_page_size() == old(self).spec_page_size(),
    {
        let activity = Activity {
            id: self.next_activity_id(),
            activity_type: String::from_str(activity_type),
            object: Some(
                ActivityObject {
                    id: String::from_str(object_id),
                    object_type: String::from_str(object_type),
                },
            ),
            target: None,
            end_time: Some(current_timestamp()),
            start_time: None,
            actor: None,
            summary: None,
        };
        self.push(activity);
    }

    /// Record a `Move` activity: the resource at `from_id` now lives at
    /// `to_id`.
    pub fn record_move(&mut self, from_id: &str, to_id: &str, object_type: &str)
        requires
            old(self).wf(),
        ensures
            final(self).wf(),
            final(self)@.len() == old(self)@.len() + 1,
            final(self)@.drop_last() == old(self)@,
            ({
                let a = final(self)@.last();
                &&& a.id@ == activity_id(old(self).base(), old(self)@.len())
                &&& a.activity_type@ == "Move"@
                &&& (a.object matches Some(o) && o.id@ == from_id@ && o.object_type@
                    == object_type@)
                &&& (a.target matches Some(t) && t.id@ == to_id@ && t.object_type@
                    == object_type@)
                &&& (a.end_time matches Some(t) && is_utc_timestamp(t@))
                &&& a.start_time is None
                &&& a.actor is None
                &&& a.summary is None
            }),
            final(self).base() == old(self).base(),
            final(self).spec_page_size() == old(self).spec_page_size(),
    {
        let activity = Activity {
            id: self.next_activity_id(),
            activity_type: String::from_str("Move"),
            object: Some(
                ActivityObject {
                    id: String::from_str(from_id),
                    object_type: String::from_str(object_type),
                },
            ),
            target: Some(
                ActivityObject {
                    id: String::from_str(to_id),
                    object_type: String::from_str(object_type),
                },
            ),
            end_time: Some(current_timestamp()),
            start_time: None,
            actor: None,
            summary: None,
        };
        self.push(activity);
    }

    /// Record a `Refresh` activity (a full re-issue of the stream), stamped
    /// with `startTime` and without object or target.
    pub fn record_refresh(&mut self)
        requires
            old(self).wf(),
        ensures
            final(self).wf(),
            final(self)@.len() == old(self)@.len() + 1,
            final(self)@.drop_last() == old(self)@,
            ({
                let a = final(self)@.last();
                &&& a.id@ == activity_id(old(self).base(), old(self)@.len())
                &&& a.activity_type@ == "Refresh"@
                &&& a.object is None
                &&& a.target is None
                &&& a.end_time is None
                &&& (a.start_time matches Some(t) && is_utc_timestamp(t@))
                &&& a.actor is None
                &&& a.summary is None
            }),
            final(self).base() == old(self).base(),
            final(self).spec_page_size() == old(self).spec_page_size(),
    {
        let activity = Activity {
            id: self.next_activity_id(),
            activity_type: String::from_str("Refresh"),
            object: None,
            target: None,
            end_time: None,
            start_time: Some(current_timestamp()),
            actor: None,
            summary: None,
        };
        self.push(activity);
    }

    /// Total number of activities.
    pub fn total(&self) -> (r: usize)
        ensures
            r == self@.len(),
    {
        self.activities.len()
    }

    /// Number of pages; `0` for an empty store.
    pub fn page_count(&self) -> (r: usize)
        requires
            self@.len() > 0 ==> self.spec_page_size() > 0,
        ensures
            r == pages_of(self@.len(), self.spec_page_size()),
    {
        let total = self.activities.len();
        if total == 0 {
            0
        } else {
            let q = total / self.page_size;
            let ps = self.page_size;
            if total % ps != 0 {
                assert(q < usize::MAX && q + 1 == (total + ps - 1) / ps as int) by (nonlinear_arith)
                    requires
                        q == total / ps,
                        total % ps != 0,
                        ps > 0,
                        total <= usize::MAX,
                {
                    let m = total % ps;
                    assert(total == q * ps + m);
                    assert(ps >= 2);
                    assert(q * 2 <= q * ps);
                    assert(total + ps - 1 == (q + 1) * ps + (m - 1));
                }
                q + 1
            } else {
                assert(q == (total + ps - 1) / ps as int) by (nonlinear_arith)
                    requires
                        q == total / ps,
                        total % ps == 0,
                        ps > 0,
                {
                    assert(total == q * ps);
                    assert(total + ps - 1 == q * ps + (ps - 1));
                }
                q
            }
        }
    }

    /// Page size.
    pub fn page_size(&self) -> (r: usize)
        ensures
            r == self.spec_page_size(),
    {
        self.page_size
    }

    /// Activities of page `page` (0-indexed, oldest first); empty past the
    /// end.
    pub fn get_page(&self, page: usize) -> (r: Vec<Activity>)
        ensures
            r@ == page_slice(self@, page as nat, self.spec_page_size()),
    {
        let len = self.activities.len();
        let start = match page.checked_mul(self.page_size) {
            Some(s) => s,
            None => {
                return Vec::new();
            },
        };
        if start >= len {
            return Vec::new();
        }
        let end = if len - start <= self.page_size {
            len
        } else {
            start + self.page_size
        };
        let mut out: Vec<Activity> = Vec::new();
        let mut i = start;
        while i < end
            invariant
                start <= i <= end,
                end <= self.activities@.len(),
                out@ == self.activities@.subrange(start as int, i as int),
            decreases end - i,
        {
            out.push(self.activities[i].duplicate());
            i = i + 1;
            assert(out@ == self.activities@.subrange(start as int, i as int));
        }
        out
    }
}

/// Whether `p` is page `page` of a stream: its activities, its place and
/// its neighbours.
pub open spec fn is_activity_page(
    p: OrderedCollectionPage,
    base: Seq<char>,
    all: Seq<Activity>,
    page: nat,
    page_size: nat,
) -> bool {
    let count = pages_of(all.len(), page_size);
    &&& p.context@ == discovery_context()
    &&& p.id@ == activity_page_url(base, page)
    &&& p.resource_type@ == "OrderedCollectionPage"@
    &&& p.start_index == page * page_size
    &&& p.part_of.id@ == base + "/activity/all-changes"@
    &&& p.part_of.resource_type@ == "OrderedCollection"@
    &&& p.ordered_items@ == page_slice(all, page, page_size)
    &&& match p.prev {
        Some(r) => page > 0 && r.id@ == activity_page_url(base, (page - 1) as nat)
            && r.resource_type@ == "OrderedCollectionPage"@,
        None => page == 0,
    }
    &&& match p.next {
        Some(r) => page + 1 < count && r.id@ == activity_page_url(base, page + 1)
            && r.resource_type@ == "OrderedCollectionPage"@,
        None => page + 1 >= count,
    }
}

/// A page of the activity stream; pages past the last are `NotFound`.
pub fn activity_page(base: &str, store: &ActivityStore, page: usize) -> (r: Result<
    OrderedCollectionPage,
    IiifError,
>)
    requires
        store@.len() > 0 ==> store.spec_page_size() > 0,
        store@.len() + store.spec_page_size() <= usize::MAX,
    ensures
        (page >= pages_of(store@.len(), store.spec_page_size())) <==> r is Err,
        r matches Err(e) ==> e == IiifError::NotFound(e->NotFound_0) && e->NotFound_0@ == "Page "@
            + decimal(page as nat) + " not found"@,
        r matches Ok(p) ==> is_activity_page(
            p,
            base@,
            store@,
            page as nat,
            store.spec_page_size(),
        ),
{
    let page_count = store.page_count();
    if page >= page_count {
        let mut msg = String::from_str("Page ");
        let n = decimal_string(page as u64);
        msg.append(n.as_str());
        msg.append(" not found");
        return Err(IiifError::NotFound(msg));
    }
    let ps = store.page_size();
    let total = store.total();
    assert(page * ps < total && (page + 1) * ps <= usize::MAX) by (nonlinear_arith)
        requires
            page < page_count,
            page_count == pages_of(total as nat, ps as nat),
            total > 0,
            ps > 0,
            total + ps <= usize::MAX,
    {
        assert(page_count * ps <= total + ps - 1);
        assert((page + 1) * ps <= page_count * ps);
    }
    let items = store.get_page(page);
    let prev = if page > 0 {
        Some(page_ref(base, page - 1))
    } else {
        None
    };
    let next = if page + 1 < page_count {
        Some(page_ref(base, page + 1))
    } else {
        None
    };
    Ok(
        OrderedCollectionPage {
            context: String::from_str("http://iiif.io/api/discovery/1/context.json"),
            id: page_url(base, page),
            resource_type: String::from_str("OrderedCollectionPage"),
            start_index: page * ps,
            part_of: PageRef {
                id: concat2(base, "/activity/all-changes"),
                resource_type: String::from_str("OrderedCollection"),
            },
            ordered_items: items,
            prev,
            next,
        },
    )
}

/// Paging covers the stream: every page before the last is full, and the
/// pages from the first to the last, in order, hold every activity.
pub proof fn lemma_pages_cover(all: Seq<Activity>, page_size: nat, page: nat)
    requires
        page_size > 0,
        page < pages_of(all.len(), page_size),
    ensures
        page_slice(all, page, page_size).len() > 0,
        page + 1 < pages_of(all.len(), page_size) ==> page_slice(all, page, page_size).len()
            == page_size,
        page_slice(all, page, page_size) == all.subrange(
            (page * page_size) as int,
            (page * page_size + page_slice(all, page, page_size).len()) as int,
        ),
{
    let count = pages_of(all.len(), page_size);
    assert(page * page_size < all.len()) by (nonlinear_arith)
        requires
            page < count,
            count == (all.len() + page_size - 1) / page_size as int,
            all.len() > 0,
            page_size > 0,
    {
        assert(count * page_size <= all.len() + page_size - 1);
        assert((page + 1) * page_size <= count * page_size);
    }
    if page + 1 < count {
        assert((page + 1) * page_size <= all.len()) by (nonlinear_arith)
            requires
                page + 1 < count,
                count == (all.len() + page_size - 1) / page_size as int,
                page_size > 0,
        {
            assert((page + 2) * page_size <= count * page_size);
            assert(count * page_size <= all.len() + page_size - 1);
        }
        assert(page * page_size + page_size == (page + 1) * page_size) by (nonlinear_arith);
    }
}

/// Pages past the end are empty: every page at or beyond the page count
/// holds no activity.
pub proof fn lemma_pages_past_end_empty(all: Seq<Activity>, page_size: nat, page: nat)
    requires
        page_size > 0,
        page >= pages_of(all.len(), page_size),
    ensures
        page_slice(all, page, page_size).len() == 0,
{
    if all.len() > 0 {
        let count = pages_of(all.len(), page_size);
        assert(page * page_size >= all.len()) by (nonlinear_arith)
            requires
                page >= count,
                count == (all.len() + page_size - 1) / page_size as int,
                all.len() > 0,
                page_size > 0,
        {
            assert(count * page_size >= all.len());
            assert(page * page_size >= count * page_size);
        }
    }
}

proof fn lemma_activity_ids_distinct(base: Seq<char>, i: nat, j: nat)
    requires
        i != j,
    ensures
        activity_id(base, i) != activity_id(base, j),
{
    let p = without_trailing_slashes(base) + "/activity/"@;
    if activity_id(base, i) == activity_id(base, j) {
        assert(decimal(i) == activity_id(base, i).subrange(p.len() as int, activity_id(base, i).len() as int));
        assert(decimal(j) == activity_id(base, j).subrange(p.len() as int, activity_id(base, j).len() as int));
        crate::text::lemma_decimal_value(i);
        crate::text::lemma_decimal_value(j);
    }
}

/// Activity ids name positions: in a store, the activity at position `i`
/// has the id `{base}/activity/{i}`, so no two activities share an id.
pub proof fn lemma_activity_ids(store: &ActivityStore, i: int, j: int)
    requires
        store.wf(),
        0 <= i < store@.len(),
        0 <= j < store@.len(),
    ensures
        store@[i].id@ == activity_id(store.base(), i as nat),
        i != j ==> store@[i].id@ != store@[j].id@,
{
    if i != j {
        lemma_activity_ids_distinct(store.base(), i as nat, j as nat);
    }
}

} // verus!
