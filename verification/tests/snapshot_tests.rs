use tfidf::model::InMemoryModel;
use tfidf::snapshot::Snapshot;
use tfidf::snapshot::from_snapshot;

fn chars_of(s: &str) -> Vec<char> {
    s.chars().collect()
}

fn sample_model() -> InMemoryModel {
    let mut model = InMemoryModel::default();
    model.add_document("doc1".to_string(), &chars_of("APPLE banana apple")).unwrap();
    model.add_document("doc2".to_string(), &chars_of("banana banana cherry")).unwrap();
    model
}

#[test]
fn snapshot_round_trip_reproduces_the_corpus() {
    let model = sample_model();
    let snapshot = model.to_snapshot();
    let restored = from_snapshot(&snapshot).unwrap();
    // the restored corpus snapshots to identical rows
    let again = restored.to_snapshot();
    assert_eq!(snapshot.docs, again.docs);
    assert_eq!(snapshot.doc_freqs, again.doc_freqs);
    assert_eq!(restored.document_count(), model.document_count());
    assert_eq!(restored.doc_at(0).counts().get(&"APPLE".to_string()), 2);
    assert_eq!(restored.doc_freq_table().get(&"BANANA".to_string()), 2);
}

#[test]
fn snapshot_rows_mirror_the_corpus() {
    let snapshot = sample_model().to_snapshot();
    assert_eq!(snapshot.docs.len(), 2);
    assert_eq!(snapshot.docs[0].0, "doc1");
    assert_eq!(snapshot.docs[0].1, 3);
    assert!(snapshot.docs[0].2.contains(&("APPLE".to_string(), 2)));
    assert!(snapshot.doc_freqs.contains(&("BANANA".to_string(), 2)));
    assert!(snapshot.doc_freqs.contains(&("CHERRY".to_string(), 1)));
}

#[test]
fn tampered_document_frequency_is_rejected() {
    let mut snapshot = sample_model().to_snapshot();
    for row in snapshot.doc_freqs.iter_mut() {
        if row.0 == "BANANA" {
            row.1 = 1;
        }
    }
    assert!(from_snapshot(&snapshot).is_err());
}

#[test]
fn tampered_term_total_is_rejected() {
    let mut snapshot = sample_model().to_snapshot();
    snapshot.docs[0].1 = 7;
    assert!(from_snapshot(&snapshot).is_err());
}

#[test]
fn duplicate_document_key_is_rejected() {
    let mut snapshot = sample_model().to_snapshot();
    let copy = snapshot.docs[0].clone();
    snapshot.docs.push(copy);
    assert!(from_snapshot(&snapshot).is_err());
}

#[test]
fn zero_count_row_is_rejected() {
    let mut snapshot = sample_model().to_snapshot();
    snapshot.docs[0].2.push(("GHOST".to_string(), 0));
    assert!(from_snapshot(&snapshot).is_err());
}

#[test]
fn empty_snapshot_restores_the_empty_corpus() {
    let snapshot = Snapshot { docs: Vec::new(), doc_freqs: Vec::new() };
    let restored = from_snapshot(&snapshot).unwrap();
    assert_eq!(restored.document_count(), 0);
}
