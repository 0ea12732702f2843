use iiif::discovery::{activity_page, current_timestamp, ActivityStore, OrderedCollection};
use iiif::error::IiifError;

#[test]
fn record_and_retrieve() {
    let mut store = ActivityStore::new(10, "http://localhost:8080");
    store.record("Create", "http://example.org/manifest/1", "Manifest");
    store.record("Update", "http://example.org/manifest/1", "Manifest");

    assert_eq!(store.total(), 2);
    let page = store.get_page(0);
    assert_eq!(page.len(), 2);
    assert_eq!(page[0].activity_type, "Create");
    assert_eq!(page[1].activity_type, "Update");
}

#[test]
fn activity_id_is_absolute_iri() {
    let mut store = ActivityStore::new(10, "http://localhost:8080");
    store.record("Create", "http://example.org/m/1", "Manifest");
    let page = store.get_page(0);
    assert_eq!(page[0].id, "http://localhost:8080/activity/0");
}

#[test]
fn pagination() {
    let mut store = ActivityStore::new(2, "http://localhost:8080");
    for i in 0..5 {
        store.record("Create", &format!("manifest/{i}"), "Manifest");
    }

    assert_eq!(store.page_count(), 3);
    assert_eq!(store.get_page(0).len(), 2);
    assert_eq!(store.get_page(1).len(), 2);
    assert_eq!(store.get_page(2).len(), 1);
    assert!(store.get_page(3).is_empty());
}

#[test]
fn empty_store_has_zero_pages() {
    let store = ActivityStore::new(10, "http://localhost:8080");
    assert_eq!(store.page_count(), 0);
}

#[test]
fn timestamp_format() {
    let ts = current_timestamp();
    assert!(ts.ends_with('Z'));
    assert!(ts.contains('T'));
    assert_eq!(ts.len(), 20);
}

#[test]
fn move_helper_emits_target() {
    let mut store = ActivityStore::new(10, "http://localhost:8080");
    store.record_move("http://example.org/old", "http://example.org/new", "Manifest");
    let activity = &store.get_page(0)[0];
    assert_eq!(activity.activity_type, "Move");
    assert_eq!(activity.target.as_ref().unwrap().id, "http://example.org/new");
}

#[test]
fn refresh_helper_uses_start_time() {
    let mut store = ActivityStore::new(10, "http://localhost:8080");
    store.record_refresh();
    let activity = &store.get_page(0)[0];
    assert_eq!(activity.activity_type, "Refresh");
    assert!(activity.start_time.is_some());
    assert!(activity.end_time.is_none());
    assert!(activity.object.is_none());
}

#[test]
fn collection_serializes() {
    let col = OrderedCollection::new("http://localhost:8080", 42, 3);
    assert_eq!(col.resource_type, "OrderedCollection");
    assert_eq!(col.total_items, 42);
    assert_eq!(col.first.as_ref().unwrap().id, "http://localhost:8080/activity/page/0");
    assert_eq!(col.last.as_ref().unwrap().id, "http://localhost:8080/activity/page/2");
    assert_eq!(col.context, "http://iiif.io/api/discovery/1/context.json");
}

#[test]
fn empty_collection_omits_first_and_last() {
    let col = OrderedCollection::new("http://localhost:8080", 0, 0);
    assert!(col.first.is_none());
    assert!(col.last.is_none());
    assert_eq!(col.total_items, 0);
}

#[test]
fn activity_ids_count_up_and_trim_trailing_slashes() {
    let mut store = ActivityStore::new(10, "http://localhost:8080/");
    assert_eq!(store.next_activity_id(), "http://localhost:8080/activity/0");
    store.record("Create", "a", "Manifest");
    store.record("Delete", "a", "Manifest");
    let page = store.get_page(0);
    assert_eq!(page[1].id, "http://localhost:8080/activity/1");
    assert_eq!(page[1].object.as_ref().unwrap().object_type, "Manifest");
    assert_eq!(store.page_size(), 10);
}

#[test]
fn activity_pages_link_neighbours() {
    let mut store = ActivityStore::new(2, "http://localhost:8080");
    for i in 0..5 {
        store.record("Create", &format!("manifest/{i}"), "Manifest");
    }
    let base = "http://localhost:8080";
    let p1 = activity_page(base, &store, 1).unwrap();
    assert_eq!(p1.id, "http://localhost:8080/activity/page/1");
    assert_eq!(p1.start_index, 2);
    assert_eq!(p1.ordered_items.len(), 2);
    assert_eq!(p1.prev.unwrap().id, "http://localhost:8080/activity/page/0");
    assert_eq!(p1.next.unwrap().id, "http://localhost:8080/activity/page/2");
    let last = activity_page(base, &store, 2).unwrap();
    assert!(last.next.is_none());
    assert_eq!(last.ordered_items[0].object.as_ref().unwrap().id, "manifest/4");
    assert_eq!(
        activity_page(base, &store, 3).unwrap_err(),
        IiifError::NotFound("Page 3 not found".to_string())
    );
}

#[test]
fn pages_cover_the_stream_in_order() {
    let mut store = ActivityStore::new(3, "http://x");
    for i in 0..7 {
        store.record("Update", &format!("m/{i}"), "Manifest");
    }
    let mut seen = Vec::new();
    for p in 0..store.page_count() {
        let page = store.get_page(p);
        if p + 1 < store.page_count() {
            assert_eq!(page.len(), 3);
        }
        for a in page {
            seen.push(a.object.unwrap().id);
        }
    }
    let expected: Vec<String> = (0..7).map(|i| format!("m/{i}")).collect();
    assert_eq!(seen, expected);
}

#[test]
fn pages_far_past_the_end_are_empty() {
    let mut store = ActivityStore::new(10, "http://localhost:8080");
    store.record("Create", "http://example.org/m", "Manifest");
    assert_eq!(store.get_page(0).len(), 1);
    assert!(store.get_page(usize::MAX).is_empty());
}
