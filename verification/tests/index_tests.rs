use searchr::index::{Index, IndexError, Posting, TermEntry};
use searchr::source::Document;

fn doc(name: &str, tokens: &[&str]) -> Document {
    Document {
        name: name.to_string(),
        terms: tokens.iter().map(|t| t.to_string()).collect(),
    }
}

#[test]
fn tf_counts_are_exact() {
    let mut ix: Index<()> = Index::new();
    ix.rebuild_docs(&vec![doc("d", &["a", "a", "b"])]).unwrap();
    let ps = ix.postings();
    assert_eq!(ps.len(), 2);
    assert_eq!(ps[0].doc, "d");
    assert_eq!(ps[0].term, "a");
    assert_eq!(ps[0].count, 2);
    assert_eq!(ps[0].total, 3);
    assert_eq!(ps[1].term, "b");
    assert_eq!(ps[1].count, 1);
    assert_eq!(ps[1].total, 3);
}

#[test]
fn idf_of_term_in_one_of_three_docs_is_log10_three() {
    let mut ix: Index<()> = Index::new();
    ix.rebuild_docs(&vec![doc("d1", &["x"]), doc("d2", &["y"]), doc("d3", &["z"])])
        .unwrap();
    let entry = ix.terms().iter().find(|e| e.term == "x").unwrap();
    // log10(3) = 0.4771...; stored in Q20 fixed point, so the value must
    // lie within [0.4770, 0.4772] * 2^20.
    assert!(entry.idf >= 500171, "idf too small: {}", entry.idf);
    assert!(entry.idf <= 500380, "idf too large: {}", entry.idf);
    let f = entry.idf as f64 / 1048576.0;
    assert!((f - 0.4771).abs() < 0.0001);
}

#[test]
fn idf_of_universal_term_is_zero() {
    let mut ix: Index<()> = Index::new();
    ix.rebuild_docs(&vec![doc("d1", &["x"]), doc("d2", &["x"])]).unwrap();
    let entry = ix.terms().iter().find(|e| e.term == "x").unwrap();
    // log10(2/2) = 0 exactly.
    assert_eq!(entry.idf, 0);
}

#[test]
fn zero_token_document_produces_no_postings() {
    let mut ix: Index<()> = Index::new();
    ix.rebuild_docs(&vec![doc("empty", &[]), doc("full", &["a"])]).unwrap();
    assert_eq!(ix.documents().len(), 2);
    assert_eq!(ix.documents()[0], "empty");
    assert!(ix.postings().iter().all(|p| p.doc == "full"));
    // every stored score is a plain integer: nothing undefined or infinite
    for (d, v) in ix.find("a") {
        assert_eq!(d, "full");
        assert!(v < u64::MAX);
    }
}

#[test]
fn empty_corpus_rebuild_succeeds() {
    let mut ix: Index<()> = Index::new();
    ix.rebuild_docs(&vec![]).unwrap();
    assert!(ix.documents().is_empty());
    assert!(ix.terms().is_empty());
    assert!(ix.postings().is_empty());
    assert!(ix.find("anything").is_empty());
}

#[test]
fn duplicate_document_names_are_rejected_and_prior_generation_kept() {
    let mut ix: Index<()> = Index::new();
    ix.rebuild_docs(&vec![doc("d", &["a"])]).unwrap();
    let r = ix.rebuild_docs(&vec![doc("same", &["a"]), doc("same", &["b"])]);
    assert!(matches!(r, Err(IndexError::DuplicateDocument(ref n)) if n == "same"));
    // rollback: the previous generation is still committed
    assert_eq!(ix.documents().len(), 1);
    assert_eq!(ix.documents()[0], "d");
    assert_eq!(ix.find("a").len(), 1);
}

#[test]
fn find_matches_exactly_not_by_prefix() {
    let mut ix: Index<()> = Index::new();
    ix.rebuild_docs(&vec![doc("d", &["category"])]).unwrap();
    assert!(ix.find("cat").is_empty());
    assert_eq!(ix.find("category").len(), 1);
}

#[test]
fn rebuild_twice_on_same_input_gives_identical_scores() {
    let docs = vec![doc("d1", &["a", "b"]), doc("d2", &["b", "c", "b"])];
    let mut ix1: Index<()> = Index::new();
    let mut ix2: Index<()> = Index::new();
    ix1.rebuild_docs(&docs).unwrap();
    ix2.rebuild_docs(&vec![doc("other", &["zzz"])]).unwrap();
    ix2.rebuild_docs(&docs).unwrap();
    for t in ["a", "b", "c", "zzz"] {
        assert_eq!(ix1.find(t), ix2.find(t));
    }
    assert_eq!(ix1.documents(), ix2.documents());
    assert_eq!(
        ix1.postings().iter().map(|p| (p.doc.clone(), p.term.clone(), p.count, p.total)).collect::<Vec<_>>(),
        ix2.postings().iter().map(|p| (p.doc.clone(), p.term.clone(), p.count, p.total)).collect::<Vec<_>>()
    );
}

#[test]
fn from_parts_accepts_a_consistent_generation() {
    let mut ix: Index<()> = Index::new();
    let r = ix.from_parts(
        vec!["d1".to_string()],
        vec![TermEntry { term: "a".to_string(), idf: 1048576 }],
        vec![Posting { doc: "d1".to_string(), term: "a".to_string(), count: 1, total: 2 }],
    );
    assert!(r.is_ok());
    let sc = ix.find("a");
    assert_eq!(sc.len(), 1);
    // tf * idf = (1/2) * 1.0 in Q20 fixed point
    assert_eq!(sc[0], ("d1".to_string(), 524288));
}

#[test]
fn from_parts_rejects_dangling_posting() {
    let mut ix: Index<()> = Index::new();
    let r = ix.from_parts(
        vec!["d1".to_string()],
        vec![],
        vec![Posting { doc: "d1".to_string(), term: "ghost".to_string(), count: 1, total: 1 }],
    );
    assert!(matches!(r, Err(IndexError::InvalidRelations)));
    assert!(ix.documents().is_empty());
}

#[test]
fn from_parts_rejects_zero_count_posting() {
    let mut ix: Index<()> = Index::new();
    let r = ix.from_parts(
        vec!["d1".to_string()],
        vec![TermEntry { term: "a".to_string(), idf: 7 }],
        vec![Posting { doc: "d1".to_string(), term: "a".to_string(), count: 0, total: 3 }],
    );
    assert!(matches!(r, Err(IndexError::InvalidRelations)));
}

#[test]
fn from_parts_rejects_duplicate_posting_pair() {
    let mut ix: Index<()> = Index::new();
    let r = ix.from_parts(
        vec!["d1".to_string()],
        vec![TermEntry { term: "a".to_string(), idf: 7 }],
        vec![
            Posting { doc: "d1".to_string(), term: "a".to_string(), count: 1, total: 3 },
            Posting { doc: "d1".to_string(), term: "a".to_string(), count: 2, total: 3 },
        ],
    );
    assert!(matches!(r, Err(IndexError::InvalidRelations)));
}
