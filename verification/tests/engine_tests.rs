use searchr::engine::Engine;
use searchr::index::{Index, Posting, TermEntry};
use searchr::source::{Document, IndexSource, LocalFilesystemSource, document_from_text, document_from_html};

fn doc(name: &str, tokens: &[&str]) -> Document {
    Document {
        name: name.to_string(),
        terms: tokens.iter().map(|t| t.to_string()).collect(),
    }
}

struct FixedSource(Vec<(String, Vec<String>)>);

impl IndexSource for FixedSource {
    fn resolve(&self) -> Vec<Document> {
        self.0
            .iter()
            .map(|(n, ts)| Document { name: n.clone(), terms: ts.clone() })
            .collect()
    }
}

#[test]
fn multi_term_summation_ranks_by_summed_scores() {
    // terms a and b both carry idf 1.0 (Q20); postings give
    // D1 a score of 0.3 for "a", D2 scores of 0.2 for "a" and 0.5 for "b".
    let mut ix: Index<()> = Index::new();
    ix.from_parts(
        vec!["D1".to_string(), "D2".to_string()],
        vec![
            TermEntry { term: "a".to_string(), idf: 1048576 },
            TermEntry { term: "b".to_string(), idf: 1048576 },
        ],
        vec![
            Posting { doc: "D1".to_string(), term: "a".to_string(), count: 3, total: 10 },
            Posting { doc: "D2".to_string(), term: "a".to_string(), count: 2, total: 10 },
            Posting { doc: "D2".to_string(), term: "b".to_string(), count: 5, total: 10 },
        ],
    )
    .unwrap();
    let engine = Engine::new(ix);
    let r = engine.search("a b");
    assert_eq!(r.len(), 2);
    // D2 totals 0.2 + 0.5 = 0.7, D1 totals 0.3: D2 ranks first
    assert_eq!(r[0], ("D2".to_string(), 209715 + 524288));
    assert_eq!(r[1], ("D1".to_string(), 314572));
}

#[test]
fn unmatched_term_yields_empty_list() {
    let mut ix: Index<()> = Index::new();
    ix.rebuild_docs(&vec![doc("d", &["hello", "world"])]).unwrap();
    let engine = Engine::new(ix);
    assert!(engine.search("zzz_not_indexed").is_empty());
}

#[test]
fn empty_query_yields_empty_list() {
    let mut ix: Index<()> = Index::new();
    ix.rebuild_docs(&vec![doc("d", &["hello"])]).unwrap();
    let engine = Engine::new(ix);
    assert!(engine.search("").is_empty());
    assert!(engine.search("   ").is_empty());
}

#[test]
fn search_over_empty_corpus_yields_empty_list() {
    let mut ix: Index<()> = Index::new();
    ix.rebuild_docs(&vec![]).unwrap();
    let engine = Engine::new(ix);
    assert!(engine.search("anything at all").is_empty());
}

#[test]
fn equal_scores_keep_document_order() {
    let mut ix: Index<()> = Index::new();
    ix.from_parts(
        vec!["first".to_string(), "second".to_string()],
        vec![TermEntry { term: "t".to_string(), idf: 1048576 }],
        vec![
            Posting { doc: "first".to_string(), term: "t".to_string(), count: 1, total: 2 },
            Posting { doc: "second".to_string(), term: "t".to_string(), count: 1, total: 2 },
        ],
    )
    .unwrap();
    let engine = Engine::new(ix);
    let r = engine.search("t");
    assert_eq!(r[0].0, "first");
    assert_eq!(r[1].0, "second");
    assert_eq!(r[0].1, r[1].1);
}

#[test]
fn repeated_query_term_counts_twice() {
    let mut ix: Index<()> = Index::new();
    ix.from_parts(
        vec!["d".to_string()],
        vec![TermEntry { term: "a".to_string(), idf: 1048576 }],
        vec![Posting { doc: "d".to_string(), term: "a".to_string(), count: 1, total: 1 }],
    )
    .unwrap();
    let engine = Engine::new(ix);
    let once = engine.search("a");
    let twice = engine.search("a a");
    assert_eq!(once[0].1 * 2, twice[0].1);
}

#[test]
fn engine_builds_index_from_registered_sources() {
    let mut ix: Index<FixedSource> = Index::new();
    ix.add(FixedSource(vec![("d1".to_string(), vec!["cats".to_string()])]));
    ix.add(FixedSource(vec![("d2".to_string(), vec!["dogs".to_string(), "cats".to_string()])]));
    let mut engine = Engine::new(ix);
    engine.index().unwrap();
    let r = engine.search("dogs");
    assert_eq!(r.len(), 1);
    assert_eq!(r[0].0, "d2");
    let r = engine.search("cats");
    assert_eq!(r.len(), 2);
}

#[test]
fn document_from_text_splits_on_whitespace() {
    let d = document_from_text("name".to_string(), " hello\t twice  hello\nworld ");
    assert_eq!(d.name, "name");
    assert_eq!(d.terms, vec!["hello", "twice", "hello", "world"]);
}

#[test]
fn document_from_html_renders_markup_away() {
    let d = document_from_html(
        "page".to_string(),
        "<html><body><p>hello <b>brave</b> world</p></body></html>",
        50,
    )
    .unwrap();
    assert_eq!(d.name, "page");
    assert!(d.terms.contains(&"hello".to_string()));
    // the plain decorator may mark emphasis (e.g. *brave*), but the word
    // itself must survive and no tag may
    assert!(d.terms.iter().any(|t| t.contains("brave")));
    assert!(d.terms.contains(&"world".to_string()));
    assert!(d.terms.iter().all(|t| !t.contains('<')));
}

#[test]
fn filesystem_source_records_its_path() {
    let s = LocalFilesystemSource::new("./test");
    assert_eq!(s.path(), "./test");
}
