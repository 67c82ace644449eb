use tfidf::model::InMemoryModel;
use tfidf::query::SearchHit;
use tfidf::query::inverse_document_frequency_ratio;
use tfidf::query::query_terms;
use tfidf::query::term_frequency_ratio;

fn chars_of(s: &str) -> Vec<char> {
    s.chars().collect()
}

// the floating-point score a caller computes from one hit's exact counts
fn score_of(hit: &SearchHit, n_docs: usize) -> f32 {
    let mut score = 0f32;
    for stat in &hit.stats {
        let tf = if hit.term_count == 0 {
            0f32
        } else {
            stat.count as f32 / hit.term_count as f32
        };
        let idf = (n_docs as f32 / stat.doc_freq as f32).ln();
        score += tf * idf;
    }
    score
}

#[test]
fn query_terms_are_distinct_in_order() {
    let terms = query_terms(&chars_of("cat dog cat bird dog"));
    assert_eq!(terms, vec!["CAT", "DOG", "BIRD"]);
}

#[test]
fn term_frequency_of_empty_document_is_exact_zero() {
    let model = InMemoryModel::default();
    let mut with_doc = InMemoryModel::default();
    with_doc.add_document("d".to_string(), &chars_of("")).unwrap();
    let table = with_doc.doc_at(0).counts();
    let (num, den) = term_frequency_ratio(&"ANY".to_string(), 0, table);
    assert_eq!((num, den), (0, 1));
    assert_eq!(num as f32 / den as f32, 0.0f32);
    assert_eq!(model.document_count(), 0);
}

#[test]
fn idf_of_unseen_term_defaults_to_one_document() {
    let mut model = InMemoryModel::default();
    model.add_document("a".to_string(), &chars_of("cat")).unwrap();
    model.add_document("b".to_string(), &chars_of("dog")).unwrap();
    let n = model.document_count();
    let (num, den) = inverse_document_frequency_ratio(
        &"UNICORN".to_string(),
        n,
        model.doc_freq_table(),
    );
    assert_eq!((num, den), (2, 1));
    let idf = (num as f32 / den as f32).ln();
    assert_eq!(idf, 2f32.ln());
    assert!(idf > 0.0f32);
}

#[test]
fn ranking_includes_sharing_documents_and_excludes_others() {
    let mut model = InMemoryModel::default();
    model.add_document("A".to_string(), &chars_of("the cat sat")).unwrap();
    model.add_document("B".to_string(), &chars_of("the cat sat on the mat")).unwrap();
    model.add_document("C".to_string(), &chars_of("a dog ran")).unwrap();
    let hits = model.search_query(&chars_of("cat"));
    let paths: Vec<&str> = hits.iter().map(|h| h.path.as_str()).collect();
    assert!(paths.contains(&"A"));
    assert!(paths.contains(&"B"));
    assert!(!paths.contains(&"C"));
    let n = model.document_count();
    for hit in &hits {
        assert!(score_of(hit, n) > 0.0f32);
    }
}

#[test]
fn query_scenario_ranks_the_containing_document_first() {
    let mut model = InMemoryModel::default();
    model.add_document("doc1".to_string(), &chars_of("APPLE banana apple")).unwrap();
    model.add_document("doc2".to_string(), &chars_of("banana banana cherry")).unwrap();
    let hits = model.search_query(&chars_of("apple"));
    let n = model.document_count();
    // doc2 shares no query term: it is excluded entirely, so doc1 is ranked
    // above it
    assert_eq!(hits.len(), 1);
    assert_eq!(hits[0].path, "doc1");
    let score = score_of(&hits[0], n);
    let expected = (2.0f32 / 3.0f32) * 2f32.ln();
    assert!((score - expected).abs() < 1e-6);
    assert!(score > 0.0f32);
}

#[test]
fn shared_by_all_documents_scores_zero_and_is_excluded() {
    let mut model = InMemoryModel::default();
    model.add_document("a".to_string(), &chars_of("common cat")).unwrap();
    model.add_document("b".to_string(), &chars_of("common dog")).unwrap();
    // "common" is in every document: ln(N/m) == ln(1) == 0, so no document
    // scores above zero
    let hits = model.search_query(&chars_of("common"));
    assert_eq!(hits.len(), 0);
}

#[test]
fn search_hits_carry_exact_counts() {
    let mut model = InMemoryModel::default();
    model.add_document("a".to_string(), &chars_of("x x y")).unwrap();
    model.add_document("b".to_string(), &chars_of("y z")).unwrap();
    let hits = model.search_query(&chars_of("x z"));
    assert_eq!(hits.len(), 2);
    assert_eq!(hits[0].path, "a");
    assert_eq!(hits[0].term_count, 3);
    assert_eq!(hits[0].stats.len(), 2);
    assert_eq!(hits[0].stats[0].count, 2); // X occurs twice in a
    assert_eq!(hits[0].stats[0].doc_freq, 1); // X is in one document
    assert_eq!(hits[0].stats[1].count, 0); // Z does not occur in a
    assert_eq!(hits[0].stats[1].doc_freq, 1);
    assert_eq!(hits[1].path, "b");
    assert_eq!(hits[1].stats[0].count, 0);
    assert_eq!(hits[1].stats[1].count, 1);
}

#[test]
fn searching_an_empty_corpus_finds_nothing() {
    let model = InMemoryModel::default();
    let hits = model.search_query(&chars_of("anything at all"));
    assert_eq!(hits.len(), 0);
}

#[test]
fn empty_document_never_matches() {
    let mut model = InMemoryModel::default();
    model.add_document("empty".to_string(), &chars_of("   ")).unwrap();
    model.add_document("full".to_string(), &chars_of("cat")).unwrap();
    let hits = model.search_query(&chars_of("cat"));
    assert_eq!(hits.len(), 1);
    assert_eq!(hits[0].path, "full");
    assert_eq!(model.doc_at(0).term_count(), 0);
}

#[test]
fn sorting_by_descending_score_ranks_denser_document_first() {
    let mut model = InMemoryModel::default();
    model.add_document("dense".to_string(), &chars_of("cat cat cat dog")).unwrap();
    model.add_document("sparse".to_string(), &chars_of("cat mouse mouse mouse")).unwrap();
    model.add_document("other".to_string(), &chars_of("bird")).unwrap();
    let n = model.document_count();
    let mut scored: Vec<(String, f32)> = model
        .search_query(&chars_of("cat"))
        .iter()
        .map(|h| (h.path.clone(), score_of(h, n)))
        .filter(|(_, s)| *s > 0.0f32)
        .collect();
    scored.sort_by(|(_, s1), (_, s2)| s2.partial_cmp(s1).unwrap());
    assert_eq!(scored.len(), 2);
    assert_eq!(scored[0].0, "dense");
    assert_eq!(scored[1].0, "sparse");
    assert!(scored[0].1 > scored[1].1);
}
