use iiif::annotation::{AnnotationTarget, Selector};
use iiif::error::IiifError;
use iiif::search_index::{find_term_positions, tokenize, trim_to_chars, IndexedAnnotation, SearchIndex};
use iiif::search_service::{
    autocomplete_response, build_collection_id, is_valid_date_range, page_url, search_response, short_hash,
    split_space_separated, url_encode, AutocompleteResponse, SearchAnnotation, SearchResponse, TermEntry,
    TextualBody,
};
use iiif::services::{build_search_service_descriptor, Service};

fn sample_annotation(id: &str, text: &str, target: &str) -> IndexedAnnotation {
    IndexedAnnotation {
        id: id.to_string(),
        text: text.to_string(),
        motivation: "painting".to_string(),
        target: target.to_string(),
        manifest_id: "manifest1".to_string(),
    }
}

#[test]
fn search_single_term() {
    let mut idx = SearchIndex::new();
    idx.add(sample_annotation("a1", "The quick brown fox", "canvas1"));
    idx.add(sample_annotation("a2", "A slow brown dog", "canvas2"));
    idx.add(sample_annotation("a3", "The quick red cat", "canvas3"));

    let results = idx.search("brown", None);
    assert_eq!(results.len(), 2);
}

#[test]
fn search_multiple_terms_and_logic() {
    let mut idx = SearchIndex::new();
    idx.add(sample_annotation("a1", "The quick brown fox", "canvas1"));
    idx.add(sample_annotation("a2", "A slow brown dog", "canvas2"));

    let results = idx.search("quick brown", None);
    assert_eq!(results.len(), 1);
    assert_eq!(results[0].id, "a1");
}

#[test]
fn search_with_motivation_filter() {
    let mut idx = SearchIndex::new();
    idx.add(IndexedAnnotation {
        id: "a1".to_string(),
        text: "Hello world".to_string(),
        motivation: "painting".to_string(),
        target: "c1".to_string(),
        manifest_id: "m1".to_string(),
    });
    idx.add(IndexedAnnotation {
        id: "a2".to_string(),
        text: "Hello again".to_string(),
        motivation: "commenting".to_string(),
        target: "c2".to_string(),
        manifest_id: "m1".to_string(),
    });

    let results = idx.search("hello", Some("commenting"));
    assert_eq!(results.len(), 1);
    assert_eq!(results[0].id, "a2");
}

#[test]
fn search_empty_query() {
    let mut idx = SearchIndex::new();
    idx.add(sample_annotation("a1", "Some text", "c1"));
    assert!(idx.search("", None).is_empty());
}

#[test]
fn autocomplete_prefix() {
    let mut idx = SearchIndex::new();
    idx.add(sample_annotation("a1", "bird birthday biryani", "c1"));
    idx.add(sample_annotation("a2", "bird watching", "c2"));

    let results = idx.autocomplete("bir", 10);
    assert!(results.iter().any(|(t, _)| t == "bird"));
    assert!(results.iter().any(|(t, _)| t == "birthday"));
    assert!(results.iter().any(|(t, _)| t == "biryani"));

    let bird = results.iter().find(|(t, _)| t == "bird").unwrap();
    assert_eq!(bird.1, 2);
}

#[test]
fn autocomplete_no_match() {
    let mut idx = SearchIndex::new();
    idx.add(sample_annotation("a1", "hello world", "c1"));
    assert!(idx.autocomplete("xyz", 10).is_empty());
}

#[test]
fn find_positions_basic() {
    let text = "The quick brown fox and the brown dog.";
    let positions = find_term_positions(text, "brown");
    assert_eq!(positions, vec![(10, 15), (28, 33)]);
}

#[test]
fn find_positions_case_insensitive() {
    let text = "Brown bears, brown rivers, BROWN sky";
    let positions = find_term_positions(text, "brown");
    assert_eq!(positions.len(), 3);
    assert_eq!(&text[positions[0].0..positions[0].1], "Brown");
    assert_eq!(&text[positions[1].0..positions[1].1], "brown");
    assert_eq!(&text[positions[2].0..positions[2].1], "BROWN");
}

#[test]
fn find_positions_empty_query() {
    assert!(find_term_positions("anything", "").is_empty());
}

#[test]
fn trim_to_chars_first_n() {
    assert_eq!(trim_to_chars("hello world", 5, false), "hello");
    assert_eq!(trim_to_chars("café shop", 4, false), "café");
    assert_eq!(trim_to_chars("short", 100, false), "short");
}

#[test]
fn trim_to_chars_last_n() {
    assert_eq!(trim_to_chars("hello world", 5, true), "world");
    assert_eq!(trim_to_chars("café shop", 4, true), "shop");
}

#[test]
fn case_insensitive() {
    let mut idx = SearchIndex::new();
    idx.add(sample_annotation("a1", "The Creation of Adam", "c1"));

    assert_eq!(idx.search("creation", None).len(), 1);
    assert_eq!(idx.search("CREATION", None).len(), 1);
    assert_eq!(idx.search("Creation", None).len(), 1);
}

#[test]
fn date_range_validation() {
    assert!(is_valid_date_range("2026-01-01T00:00:00Z/2026-12-31T23:59:59Z"));
    assert!(!is_valid_date_range("2026-01-01T00:00:00/2026-12-31T23:59:59Z"));
    assert!(!is_valid_date_range("2026-01-01T00:00:00Z"));
    assert!(!is_valid_date_range("/2026-12-31T23:59:59Z"));
    assert!(!is_valid_date_range("yesterday/today"));
}

#[test]
fn split_space_separated_produces_or_terms() {
    assert_eq!(
        split_space_separated("painting commenting"),
        vec!["painting".to_string(), "commenting".to_string()]
    );
    assert!(split_space_separated("   ").is_empty());
}

#[test]
fn hit_id_is_stable_across_queries() {
    let id1 = short_hash("anno-42|creation|17");
    let id2 = short_hash("anno-42|creation|17");
    assert_eq!(id1, id2);
    assert_eq!(id1.len(), 16);

    assert_ne!(short_hash("anno-42|creation|17"), short_hash("anno-42|world|17"));
    assert_ne!(short_hash("anno-42|creation|17"), short_hash("anno-43|creation|17"));
}

#[test]
fn short_hash_is_sha256_prefix() {
    assert_eq!(short_hash("abc"), "ba7816bf8f01cfea");
    assert_eq!(short_hash(""), "e3b0c44298fc1c14");
}

fn page_link(collection: &str, p: usize) -> String {
    if p == 0 {
        collection.to_string()
    } else {
        format!("{collection}&page={p}")
    }
}

#[test]
fn search_response_serializes() {
    let collection = "http://localhost:8080/search?q=bird";
    let resp = SearchResponse::paginated(
        collection,
        vec![SearchAnnotation {
            id: "http://localhost:8080/annotation/search/1".to_string(),
            resource_type: "Annotation".to_string(),
            motivation: "painting".to_string(),
            body: TextualBody {
                body_type: "TextualBody".to_string(),
                value: "A bird".to_string(),
                format: "text/plain".to_string(),
            },
            target: AnnotationTarget::Id("http://localhost:8080/canvas/p1#xywh=0,0,100,100".to_string()),
        }],
        vec![],
        1,
        0,
        50,
        None,
        |p| page_link(collection, p),
    );
    assert_eq!(resp.resource_type, "AnnotationPage");
    assert_eq!(resp.part_of.as_ref().unwrap().resource_type, "AnnotationCollection");
    assert_eq!(resp.context, "http://iiif.io/api/search/2/context.json");
    assert_eq!(resp.part_of.as_ref().unwrap().total, 1);
    assert_eq!(resp.start_index, Some(0));
}

#[test]
fn search_response_paging_links() {
    let collection = "http://localhost:8080/search?q=x";
    let url = |p: usize| -> String { page_link(collection, p) };
    let resp = SearchResponse::paginated(collection, vec![], vec![], 130, 1, 50, None, url);

    let part_of = resp.part_of.as_ref().unwrap();
    assert_eq!(part_of.total, 130);
    assert_eq!(part_of.first.id, collection);
    assert_eq!(part_of.last.as_ref().unwrap().id, format!("{collection}&page=2"));
    assert_eq!(resp.prev.as_ref().unwrap().id, collection);
    assert_eq!(resp.next.as_ref().unwrap().id, format!("{collection}&page=2"));
    assert_eq!(resp.start_index, Some(50));
}

#[test]
fn autocomplete_response_serializes() {
    let resp = AutocompleteResponse::new(
        "http://localhost:8080/autocomplete?q=bir",
        vec![
            TermEntry { value: "bird".to_string(), total: Some(5) },
            TermEntry { value: "birth".to_string(), total: Some(2) },
        ],
        vec![],
    );
    assert_eq!(resp.resource_type, "TermPage");
    assert_eq!(resp.items[0].value, "bird");
    assert_eq!(resp.id, "http://localhost:8080/autocomplete?q=bir");
}

#[test]
fn service_descriptor() {
    let desc = build_search_service_descriptor("http://localhost:8080");
    let Service::SearchService2(s) = desc else { panic!("not a search service") };
    assert_eq!(s.id, "http://localhost:8080/search");
    let Service::AutoCompleteService2(a) = &s.service[0] else { panic!("not an autocomplete service") };
    assert_eq!(a.id, "http://localhost:8080/autocomplete");
}

#[test]
fn tokens_are_lowercase_alphanumeric_runs() {
    assert_eq!(tokenize("The Creation, of ADAM!"), vec!["the", "creation", "of", "adam"]);
    assert_eq!(tokenize("  "), Vec::<String>::new());
    assert_eq!(tokenize("łódź-Kraków"), vec!["łódź", "kraków"]);
}

#[test]
fn index_size_and_pagination() {
    let mut idx = SearchIndex::new();
    assert!(idx.is_empty());
    for i in 0..5 {
        idx.add(sample_annotation(&format!("a{i}"), "common word", "c"));
    }
    assert_eq!(idx.len(), 5);
    let (page, total) = idx.search_paginated("common", None, 2, 2);
    assert_eq!(total, 5);
    let ids: Vec<&str> = page.iter().map(|a| a.id.as_str()).collect();
    assert_eq!(ids, vec!["a2", "a3"]);
    let (rest, _) = idx.search_paginated("common", None, 4, 2);
    assert_eq!(rest.len(), 1);
    let (none, _) = idx.search_paginated("common", None, 10, 2);
    assert!(none.is_empty());
}

#[test]
fn autocomplete_ranks_by_count_then_term() {
    let mut idx = SearchIndex::new();
    idx.add(sample_annotation("a1", "birch bird", "c"));
    idx.add(sample_annotation("a2", "bird birch bison", "c"));
    idx.add(sample_annotation("a3", "bird", "c"));
    let r = idx.autocomplete("bi", 2);
    assert_eq!(r, vec![("bird".to_string(), 3), ("birch".to_string(), 2)]);
}

#[test]
fn collection_ids_and_urls() {
    assert_eq!(url_encode("bird nest"), "bird%20nest");
    assert_eq!(url_encode("a-b.c"), "a%2Db%2Ec");
    assert_eq!(build_collection_id("http://x", "bird nest", None), "http://x/search?q=bird%20nest");
    let m = vec!["painting".to_string(), "commenting".to_string()];
    assert_eq!(
        build_collection_id("http://x", "q", Some(&m)),
        "http://x/search?q=q&motivation=painting%20commenting"
    );
    assert_eq!(build_collection_id("http://x", "q", Some(&[])), "http://x/search?q=q");
    assert_eq!(page_url("http://x/search?q=q", 0), "http://x/search?q=q");
    assert_eq!(page_url("http://x/search?q=q", 3), "http://x/search?q=q&page=3");
}

#[test]
fn search_page_with_hits() {
    let mut idx = SearchIndex::new();
    idx.add(sample_annotation("a1", "The quick brown fox", "canvas1"));
    idx.add(sample_annotation("a2", "A slow brown dog", "canvas2"));
    let resp = search_response("http://localhost:8080", &idx, "brown", None, Some("2026-01-01T00:00:00Z/2026-12-31T23:59:59Z"), true, 0)
        .unwrap();
    assert_eq!(resp.id, "http://localhost:8080/search?q=brown");
    assert_eq!(resp.items.len(), 2);
    assert_eq!(resp.items[0].id, "a1");
    assert_eq!(resp.items[0].body.value, "The quick brown fox");
    assert_eq!(resp.ignored, vec!["date".to_string(), "user".to_string()]);
    let pages = resp.annotations.unwrap();
    assert_eq!(pages.len(), 1);
    assert_eq!(pages[0].id, "http://localhost:8080/search?q=brown#hits-page-0");
    let hits = &pages[0].items;
    assert_eq!(hits.len(), 2);
    assert_eq!(hits[0].motivation, "contextualizing");
    assert_eq!(hits[0].id, format!("http://localhost:8080/annotation/hit/{}", short_hash("a1|brown|10")));
    match &hits[0].target {
        AnnotationTarget::Specific(sr) => {
            assert_eq!(sr.source, "a1");
            match &sr.selector {
                Selector::TextQuoteSelector { prefix, exact, suffix } => {
                    assert_eq!(exact, "brown");
                    assert_eq!(prefix.as_deref(), Some("The quick "));
                    assert_eq!(suffix.as_deref(), Some(" fox"));
                }
                other => panic!("unexpected selector {other:?}"),
            }
        }
        other => panic!("unexpected target {other:?}"),
    }
}

#[test]
fn search_rejects_malformed_dates() {
    let idx = SearchIndex::new();
    assert_eq!(
        search_response("http://x", &idx, "q", None, Some("bad"), false, 0).unwrap_err(),
        IiifError::BadRequest(
            "Invalid `date` parameter: expected `YYYY-MM-DDThh:mm:ssZ/YYYY-MM-DDThh:mm:ssZ`, got `bad`".to_string()
        )
    );
    let empty = search_response("http://x", &idx, "q", Some("painting"), None, false, 0).unwrap();
    assert!(empty.items.is_empty());
    assert!(empty.annotations.is_none());
    assert_eq!(empty.id, "http://x/search?q=q&motivation=painting");
}

#[test]
fn autocomplete_page_filters_rare_terms() {
    let mut idx = SearchIndex::new();
    idx.add(sample_annotation("a1", "bird birthday", "c1"));
    idx.add(sample_annotation("a2", "bird", "c2"));
    let r = autocomplete_response("http://x", &idx, "bir", 2);
    assert_eq!(r.id, "http://x/autocomplete?q=bir");
    assert_eq!(r.items.len(), 1);
    assert_eq!(r.items[0].value, "bird");
    assert_eq!(r.items[0].total, Some(2));
}

#[test]
fn repeated_term_matches_annotation_once() {
    let mut idx = SearchIndex::new();
    idx.add(sample_annotation("a1", "bird bird bird", "canvas1"));
    idx.add(sample_annotation("a2", "a bird and a cat", "canvas2"));
    let results = idx.search("bird", None);
    assert_eq!(results.len(), 2);
    assert_eq!(results[0].id, "a1");
    assert_eq!(results[1].id, "a2");
    let (page, total) = idx.search_paginated("bird bird", None, 0, 10);
    assert_eq!(total, 2);
    assert_eq!(page.len(), 2);
    assert_eq!(idx.autocomplete("bir", 10)[0], ("bird".to_string(), 4));
}

#[test]
fn added_annotation_is_found_by_each_token() {
    let mut idx = SearchIndex::new();
    idx.add(sample_annotation("a1", "The quick brown fox", "canvas1"));
    let before = idx.len();
    idx.add(sample_annotation("a2", "Lazy dogs sleep", "canvas2"));
    assert_eq!(idx.len(), before + 1);
    assert!(!idx.is_empty());
    for token in tokenize("Lazy dogs sleep") {
        assert!(idx.search(&token, None).iter().any(|a| a.id == "a2"));
    }
    assert!(idx.search("fox", None).iter().any(|a| a.id == "a1"));
}
