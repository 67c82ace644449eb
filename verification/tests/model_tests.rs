use tfidf::model::InMemoryModel;
use tfidf::model::count_terms;

fn chars_of(s: &str) -> Vec<char> {
    s.chars().collect()
}

#[test]
fn empty_model_has_no_documents() {
    let model = InMemoryModel::default();
    assert_eq!(model.document_count(), 0);
}

#[test]
fn adding_documents_counts_them() {
    let mut model = InMemoryModel::default();
    assert!(model.add_document("a".to_string(), &chars_of("one two")).is_ok());
    assert!(model.add_document("b".to_string(), &chars_of("three")).is_ok());
    assert_eq!(model.document_count(), 2);
}

#[test]
fn duplicate_key_is_rejected_and_model_unchanged() {
    let mut model = InMemoryModel::default();
    assert!(model.add_document("a".to_string(), &chars_of("one two")).is_ok());
    assert!(model.add_document("a".to_string(), &chars_of("three")).is_err());
    assert_eq!(model.document_count(), 1);
    let doc = model.doc_at(0);
    assert_eq!(doc.term_count(), 2);
    assert_eq!(doc.counts().get(&"THREE".to_string()), 0);
}

#[test]
fn per_document_counts_are_occurrences() {
    let mut model = InMemoryModel::default();
    model.add_document("d".to_string(), &chars_of("APPLE banana apple")).unwrap();
    let doc = model.doc_at(0);
    assert_eq!(doc.path(), "d");
    assert_eq!(doc.term_count(), 3);
    assert_eq!(doc.counts().get(&"APPLE".to_string()), 2);
    assert_eq!(doc.counts().get(&"BANANA".to_string()), 1);
    assert_eq!(doc.counts().get(&"CHERRY".to_string()), 0);
}

#[test]
fn document_frequency_grows_by_one_per_document() {
    let mut model = InMemoryModel::default();
    model.add_document("one".to_string(), &chars_of("banana split")).unwrap();
    assert_eq!(model.doc_freq_table().get(&"BANANA".to_string()), 1);
    // however often the term occurs in the new document, its document
    // frequency grows by exactly one
    model.add_document("two".to_string(), &chars_of("banana banana banana")).unwrap();
    assert_eq!(model.doc_freq_table().get(&"BANANA".to_string()), 2);
    assert_eq!(model.doc_freq_table().get(&"SPLIT".to_string()), 1);
    assert_eq!(model.doc_freq_table().get(&"MANGO".to_string()), 0);
}

#[test]
fn term_counts_sum_to_document_total() {
    let mut model = InMemoryModel::default();
    model.add_document("d".to_string(), &chars_of("a b a c b a")).unwrap();
    let doc = model.doc_at(0);
    let table = doc.counts();
    let mut sum: usize = 0;
    let mut i = 0;
    while i < table.len() {
        let (_, count) = table.entry_at(i);
        sum += count;
        i += 1;
    }
    assert_eq!(sum, doc.term_count());
    assert_eq!(sum, 6);
}

#[test]
fn count_terms_counts_every_token() {
    let (table, total) = count_terms(&chars_of("x y x 9 9 9"));
    assert_eq!(total, 6);
    assert_eq!(table.get(&"X".to_string()), 2);
    assert_eq!(table.get(&"Y".to_string()), 1);
    assert_eq!(table.get(&"9".to_string()), 3);
}
