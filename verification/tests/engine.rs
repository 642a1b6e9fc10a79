use searchlite::engine::{create_index, Engine};
use searchlite::errors::EngineError;
use searchlite::schema::Criterion;
use searchlite::search::{TimeBudget, ScoringStrategy, Filter};

fn all_criteria() -> Vec<Criterion> {
    vec![
        Criterion::Words,
        Criterion::Typo,
        Criterion::Proximity,
        Criterion::Attribute,
        Criterion::Sort,
        Criterion::Exactness,
    ]
}

fn make_index() -> Engine {
    create_index(
        vec!["title".to_string(), "body".to_string()],
        vec!["category".to_string()],
        all_criteria(),
    )
    .unwrap()
}

fn strs(v: &[&str]) -> Vec<String> {
    v.iter().map(|s| s.to_string()).collect()
}

#[test]
fn end_to_end_example() {
    let mut e = make_index();
    let (added, total) = e
        .mutate(
            &strs(&[r#"{"id":"1","title":"red fox","body":"jumps"}"#]),
            &strs(&[]),
        )
        .unwrap();
    assert_eq!((added, total), (1, 1));
    let hits = e.search("red", &strs(&["title"]), 0, 20);
    assert_eq!(hits, vec![vec![("title".to_string(), "red fox".to_string())]]);
    let (added, total) = e.mutate(&strs(&[]), &strs(&["1"])).unwrap();
    assert_eq!((added, total), (0, 0));
    let hits = e.search("red", &strs(&["title"]), 0, 20);
    assert!(hits.is_empty());
}

#[test]
fn atomicity_on_malformed_batch() {
    let mut e = make_index();
    e.mutate(&strs(&[r#"{"id":"a","title":"one"}"#]), &strs(&[])).unwrap();
    let before = e.total_document_count();
    let r = e.mutate(
        &strs(&[r#"{"id":"b","title":"two"}"#, r#"{"id":"c","title": oops}"#]),
        &strs(&["a"]),
    );
    assert_eq!(r, Err(EngineError::ParseError));
    assert_eq!(e.total_document_count(), before);
    // neither the removal nor the first (well-formed) addition took effect
    assert!(!e.search("one", &strs(&["title"]), 0, 20).is_empty());
    assert!(e.search("two", &strs(&["title"]), 0, 20).is_empty());
}

#[test]
fn replace_semantics() {
    let mut e = make_index();
    e.mutate(&strs(&[r#"{"id":"x","title":"alpha beta"}"#]), &strs(&[])).unwrap();
    let (_, total) = e
        .mutate(&strs(&[r#"{"id":"x","title":"gamma"}"#]), &strs(&[]))
        .unwrap();
    assert_eq!(total, 1);
    let doc = e.get_document(&"x".to_string()).unwrap();
    assert_eq!(
        doc,
        vec![
            ("id".to_string(), "x".to_string()),
            ("title".to_string(), "gamma".to_string())
        ]
    );
    // no stale postings from the first submission
    assert!(e.search("alpha", &strs(&["title"]), 0, 20).is_empty());
    assert_eq!(e.search("gamma", &strs(&["title"]), 0, 20).len(), 1);
}

#[test]
fn removal_idempotence() {
    let mut e = make_index();
    e.mutate(&strs(&[r#"{"id":"a","title":"one"}"#]), &strs(&[])).unwrap();
    let (_, total) = e.mutate(&strs(&[]), &strs(&["zz"])).unwrap();
    assert_eq!(total, 1);
    let (_, total) = e.mutate(&strs(&[]), &strs(&["zz", "zz"])).unwrap();
    assert_eq!(total, 1);
}

#[test]
fn count_invariant() {
    let mut e = make_index();
    let adds = strs(&[
        r#"{"id":"1","title":"one"}"#,
        r#"{"id":"2","title":"two"}"#,
        r#"{"id":"3","title":"three"}"#,
        r#"{"id":"4","title":"four"}"#,
        r#"{"id":"5","title":"five"}"#,
    ]);
    let (added, total) = e.mutate(&adds, &strs(&[])).unwrap();
    assert_eq!((added, total), (5, 5));
    let (_, total) = e.mutate(&strs(&[]), &strs(&["2", "4"])).unwrap();
    assert_eq!(total, 3);
}

#[test]
fn relaxation_last_strategy() {
    let mut e = make_index();
    e.mutate(
        &strs(&[
            r#"{"id":"1","title":"red fox","body":"jumps"}"#,
            r#"{"id":"2","title":"red banana"}"#,
        ]),
        &strs(&[]),
    )
    .unwrap();
    // no document holds all three terms; document 1 holds the first two
    let hits = e.search("red fox banana", &strs(&["id"]), 0, 20);
    assert_eq!(hits, vec![vec![("id".to_string(), "1".to_string())]]);
}

#[test]
fn pagination() {
    let mut e = make_index();
    let mut adds = Vec::new();
    for i in 0..25 {
        adds.push(format!(r#"{{"id":"d{:02}","title":"common term {}"}}"#, i, i));
    }
    let (added, total) = e.mutate(&adds, &strs(&[])).unwrap();
    assert_eq!((added, total), (25, 25));
    let all = e.search("common", &strs(&["id"]), 0, 25);
    assert_eq!(all.len(), 25);
    let tail = e.search("common", &strs(&["id"]), 20, 20);
    assert_eq!(tail.len(), 5);
    assert_eq!(&all[20..25], &tail[..]);
    let beyond = e.search("common", &strs(&["id"]), 25, 20);
    assert!(beyond.is_empty());
}

#[test]
fn field_projection() {
    let mut e = make_index();
    e.mutate(
        &strs(&[r#"{"id":"1","title":"red fox","body":"jumps","category":"animal"}"#]),
        &strs(&[]),
    )
    .unwrap();
    let hits = e.search("red", &strs(&["title"]), 0, 20);
    assert_eq!(hits.len(), 1);
    for (name, _) in &hits[0] {
        assert_eq!(name, "title");
    }
    assert_eq!(hits[0], vec![("title".to_string(), "red fox".to_string())]);
}

#[test]
fn facet_lookup() {
    let mut e = make_index();
    e.mutate(
        &strs(&[
            r#"{"id":"1","title":"red fox","category":"animal"}"#,
            r#"{"id":"2","title":"oak","category":"plant"}"#,
        ]),
        &strs(&[]),
    )
    .unwrap();
    let r = e.facet_docs(&"color".to_string(), &"red".to_string());
    assert_eq!(r, Err(EngineError::ConfigError));
    let animals = e.facet_docs(&"category".to_string(), &"animal".to_string()).unwrap();
    assert_eq!(animals.len(), 1);
    let plants = e.facet_docs(&"category".to_string(), &"plant".to_string()).unwrap();
    assert_eq!(plants.len(), 1);
    assert_ne!(animals[0], plants[0]);
}

#[test]
fn duplicate_searchable_rejected() {
    let r = create_index(
        vec!["title".to_string(), "title".to_string()],
        vec![],
        all_criteria(),
    );
    assert!(matches!(r, Err(EngineError::ConfigError)));
}

#[test]
fn missing_id_is_parse_error() {
    let mut e = make_index();
    let r = e.mutate(&strs(&[r#"{"title":"no identifier"}"#]), &strs(&[]));
    assert_eq!(r, Err(EngineError::ParseError));
    assert_eq!(e.total_document_count(), 0);
}

#[test]
fn typo_tolerant_match() {
    let mut e = make_index();
    e.mutate(&strs(&[r#"{"id":"1","title":"fox","body":"jumps"}"#]), &strs(&[]))
        .unwrap();
    // one substitution on a five-letter term matches
    assert_eq!(e.search("jumqs", &strs(&["id"]), 0, 20).len(), 1);
    // short terms get no typo tolerance
    assert!(e.search("fax", &strs(&["id"]), 0, 20).is_empty());
}

#[test]
fn blank_query_matches_all() {
    let mut e = make_index();
    e.mutate(
        &strs(&[r#"{"id":"1","title":"one"}"#, r#"{"id":"2","title":"two"}"#]),
        &strs(&[]),
    )
    .unwrap();
    let hits = e.search("   ", &strs(&["id"]), 0, 20);
    assert_eq!(hits.len(), 2);
    assert_eq!(hits[0], vec![("id".to_string(), "1".to_string())]);
    assert_eq!(hits[1], vec![("id".to_string(), "2".to_string())]);
}

#[test]
fn tokenizer_splits_on_punctuation() {
    let mut e = make_index();
    e.mutate(&strs(&[r#"{"id":"1","title":"red-fox!! (42)"}"#]), &strs(&[]))
        .unwrap();
    assert_eq!(e.search("fox", &strs(&["id"]), 0, 20).len(), 1);
    assert_eq!(e.search("42", &strs(&["id"]), 0, 20).len(), 1);
}

#[test]
fn numeric_field_values_are_stored_as_json_text() {
    let mut e = make_index();
    e.mutate(&strs(&[r#"{"id":"1","title":"one","rank":7}"#]), &strs(&[]))
        .unwrap();
    let doc = e.get_document(&"1".to_string()).unwrap();
    assert!(doc.contains(&("rank".to_string(), "7".to_string())));
}

#[test]
fn get_document_not_found() {
    let e = make_index();
    assert_eq!(e.get_document(&"nope".to_string()), Err(EngineError::NotFound));
}

#[test]
fn exactness_ranks_exact_fields_first() {
    let mut e = make_index();
    e.mutate(
        &strs(&[
            r#"{"id":"long","title":"red fox jumps"}"#,
            r#"{"id":"exact","title":"red"}"#,
        ]),
        &strs(&[]),
    )
    .unwrap();
    let hits = e.search("red", &strs(&["id"]), 0, 20);
    assert_eq!(hits.len(), 2);
    assert_eq!(hits[0], vec![("id".to_string(), "exact".to_string())]);
}

#[test]
fn unlimited_budget_matches_plain_search() {
    let mut e = make_index();
    e.mutate(
        &strs(&[r#"{"id":"1","title":"red fox"}"#, r#"{"id":"2","title":"red oak"}"#]),
        &strs(&[]),
    )
    .unwrap();
    let plain = e.search("red", &strs(&["id"]), 0, 20);
    let budgeted = e.search_budgeted("red", &strs(&["id"]), 0, 20, &TimeBudget::Unlimited);
    assert_eq!(plain, budgeted);
    let generous = e.search_budgeted("red", &strs(&["id"]), 0, 20, &TimeBudget::Millis(60000));
    assert_eq!(plain, generous);
}

#[test]
fn detailed_scoring_reports_stage_keys() {
    let mut e = make_index();
    e.mutate(
        &strs(&[
            r#"{"id":"exact","title":"red"}"#,
            r#"{"id":"long","title":"red fox jumps"}"#,
        ]),
        &strs(&[]),
    )
    .unwrap();
    let (hits, scores) = e.search_with_scores("red", &strs(&["id"]), 0, 20, ScoringStrategy::Skip);
    assert_eq!(hits.len(), 2);
    assert!(scores.is_none());
    let (hits, scores) =
        e.search_with_scores("red", &strs(&["id"]), 0, 20, ScoringStrategy::Detailed);
    let scores = scores.unwrap();
    assert_eq!(scores.len(), hits.len());
    // stage order: Words, Typo, Proximity, Attribute, Sort, Exactness
    assert_eq!(hits[0], vec![("id".to_string(), "exact".to_string())]);
    assert_eq!(scores[0], vec![0, 0, 0, 0, 0, 0]);
    assert_eq!(scores[1], vec![0, 0, 0, 0, 0, 1]);
}

#[test]
fn universe_builder_with_filters() {
    let mut e = create_index(
        vec!["title".to_string()],
        vec!["category".to_string(), "color".to_string()],
        all_criteria(),
    )
    .unwrap();
    e.mutate(
        &strs(&[
            r#"{"id":"1","title":"fox","category":"animal","color":"red"}"#,
            r#"{"id":"2","title":"oak","category":"plant","color":"green"}"#,
            r#"{"id":"3","title":"rose","category":"plant","color":"red"}"#,
        ]),
        &strs(&[]),
    )
    .unwrap();
    let all = e.build_universe(None).unwrap();
    assert_eq!(all, vec![0, 1, 2]);
    let red_plants = e
        .build_universe(Some(&Filter::And(
            Box::new(Filter::Is("category".to_string(), "plant".to_string())),
            Box::new(Filter::Is("color".to_string(), "red".to_string())),
        )))
        .unwrap();
    assert_eq!(red_plants, vec![2]);
    let animals_or_green = e
        .build_universe(Some(&Filter::Or(
            Box::new(Filter::Is("category".to_string(), "animal".to_string())),
            Box::new(Filter::Is("color".to_string(), "green".to_string())),
        )))
        .unwrap();
    assert_eq!(animals_or_green, vec![0, 1]);
    let unknown = e.build_universe(Some(&Filter::Is("shape".to_string(), "round".to_string())));
    assert!(matches!(unknown, Err(EngineError::ConfigError)));
}
