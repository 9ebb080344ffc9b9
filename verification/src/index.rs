use vstd::prelude::*;
use crate::idf::{idf_q20, tfidf_q20, idf_value, tfidf_value};
use crate::source::{Document, IndexSource};

verus! {

broadcast use vstd::seq_lib::group_seq_properties;

// ---------------------------------------------------------------------------
// The mathematical model of one index generation.
// ---------------------------------------------------------------------------

/// The mathematical content of one document: its name and its ordered token
/// sequence.
#[verifier::ext_equal]
pub struct DocModel {
    pub name: Seq<char>,
    pub tokens: Seq<Seq<char>>,
}

/// One term of the index together with its inverse document frequency
/// (Q20 fixed point), valid for the generation it was computed in.
#[verifier::ext_equal]
pub struct TermModel {
    pub term: Seq<char>,
    pub idf: nat,
}

/// One posting: a (document, term) pair with the term's occurrence count in
/// that document and the document's total token count; tf is count / total.
#[verifier::ext_equal]
pub struct PostingModel {
    pub doc: Seq<char>,
    pub term: Seq<char>,
    pub count: nat,
    pub total: nat,
}

/// Occurrences of token `t` in `tokens`, counted with repetition.
pub open spec fn count_in(tokens: Seq<Seq<char>>, t: Seq<char>) -> nat
    decreases tokens.len(),
{
    if tokens.len() == 0 {
        0
    } else {
        count_in(tokens.drop_last(), t) + (if tokens.last() == t {
            1nat
        } else {
            0nat
        })
    }
}

/// The distinct tokens of one document, in order of first occurrence.
pub open spec fn distinct_terms(tokens: Seq<Seq<char>>) -> Seq<Seq<char>>
    decreases tokens.len(),
{
    if tokens.len() == 0 {
        Seq::empty()
    } else {
        let rest = distinct_terms(tokens.drop_last());
        if rest.contains(tokens.last()) {
            rest
        } else {
            rest.push(tokens.last())
        }
    }
}

/// Append to `acc` every element of `ts` not already present, in order.
pub open spec fn merge_terms(acc: Seq<Seq<char>>, ts: Seq<Seq<char>>) -> Seq<Seq<char>>
    decreases ts.len(),
{
    if ts.len() == 0 {
        acc
    } else {
        let a2 = if acc.contains(ts.first()) {
            acc
        } else {
            acc.push(ts.first())
        };
        merge_terms(a2, ts.drop_first())
    }
}

/// Every distinct term of the corpus, in order of first occurrence.
pub open spec fn corpus_terms(docs: Seq<DocModel>) -> Seq<Seq<char>>
    decreases docs.len(),
{
    if docs.len() == 0 {
        Seq::empty()
    } else {
        merge_terms(corpus_terms(docs.drop_last()), distinct_terms(docs.last().tokens))
    }
}

/// Number of documents of the corpus that contain term `t`.
pub open spec fn df_of(docs: Seq<DocModel>, t: Seq<char>) -> nat
    decreases docs.len(),
{
    if docs.len() == 0 {
        0
    } else {
        df_of(docs.drop_last(), t) + (if count_in(docs.last().tokens, t) > 0 {
            1nat
        } else {
            0nat
        })
    }
}

/// The postings of one document: one per distinct term, in first-occurrence
/// order, with the term's occurrence count over the document's token total.
pub open spec fn doc_postings(d: DocModel) -> Seq<PostingModel> {
    distinct_terms(d.tokens).map_values(
        |t: Seq<char>|
            PostingModel {
                doc: d.name,
                term: t,
                count: count_in(d.tokens, t),
                total: d.tokens.len(),
            },
    )
}

/// The postings of the whole corpus, grouped by document in corpus order.
pub open spec fn postings_model(docs: Seq<DocModel>) -> Seq<PostingModel>
    decreases docs.len(),
{
    if docs.len() == 0 {
        Seq::empty()
    } else {
        postings_model(docs.drop_last()) + doc_postings(docs.last())
    }
}

/// The term relation of the corpus: every distinct term with
/// idf = log10(total documents / documents containing it), in Q20 fixed point.
pub open spec fn terms_model(docs: Seq<DocModel>) -> Seq<TermModel> {
    corpus_terms(docs).map_values(
        |t: Seq<char>|
            TermModel { term: t, idf: idf_q20(docs.len() as int, df_of(docs, t) as int) },
    )
}

/// The document names of the corpus, in corpus order.
pub open spec fn names_of(docs: Seq<DocModel>) -> Seq<Seq<char>> {
    docs.map_values(|d: DocModel| d.name)
}

/// No element of the sequence occurs twice.
pub open spec fn distinct_seq(s: Seq<Seq<char>>) -> bool {
    forall|i: int, j: int| 0 <= i < j < s.len() ==> s[i] != s[j]
}

/// At most one posting relates a given document to a given term.
pub open spec fn pair_distinct(ps: Seq<PostingModel>) -> bool {
    forall|i: int, j: int|
        0 <= i < j < ps.len() ==> !(ps[i].doc == ps[j].doc && ps[i].term == ps[j].term)
}

/// The term strings of a term relation, in relation order.
pub open spec fn term_names(ts: Seq<TermModel>) -> Seq<Seq<char>> {
    ts.map_values(|e: TermModel| e.term)
}

// ---------------------------------------------------------------------------
// Facts about the model.
// ---------------------------------------------------------------------------

pub proof fn lemma_count_in_le_len(tokens: Seq<Seq<char>>, t: Seq<char>)
    ensures
        count_in(tokens, t) <= tokens.len(),
    decreases tokens.len(),
{
    if tokens.len() > 0 {
        lemma_count_in_le_len(tokens.drop_last(), t);
    }
}

/// A token is among a document's distinct terms exactly when it occurs in it.
pub proof fn lemma_distinct_terms_contains(tokens: Seq<Seq<char>>, t: Seq<char>)
    ensures
        distinct_terms(tokens).contains(t) <==> count_in(tokens, t) > 0,
    decreases tokens.len(),
{
    if tokens.len() > 0 {
        lemma_distinct_terms_contains(tokens.drop_last(), t);
    }
}

pub proof fn lemma_distinct_terms_distinct(tokens: Seq<Seq<char>>)
    ensures
        distinct_seq(distinct_terms(tokens)),
    decreases tokens.len(),
{
    if tokens.len() > 0 {
        lemma_distinct_terms_distinct(tokens.drop_last());
        let rest = distinct_terms(tokens.drop_last());
        let full = distinct_terms(tokens);
        if !rest.contains(tokens.last()) {
            assert forall|i: int, j: int| 0 <= i < j < full.len() implies full[i] != full[j] by {
                if j == full.len() - 1 {
                    assert(rest.contains(rest[i]));
                }
            }
        }
    }
}

/// Merging one more element onto the right of `ts`.
pub proof fn lemma_merge_terms_snoc(acc: Seq<Seq<char>>, ts: Seq<Seq<char>>, t: Seq<char>)
    ensures
        merge_terms(acc, ts.push(t)) == (if merge_terms(acc, ts).contains(t) {
            merge_terms(acc, ts)
        } else {
            merge_terms(acc, ts).push(t)
        }),
    decreases ts.len(),
{
    if ts.len() == 0 {
        assert(ts.push(t).first() == t);
        assert(ts.push(t).drop_first() =~= Seq::<Seq<char>>::empty());
        let a2 = if acc.contains(t) {
            acc
        } else {
            acc.push(t)
        };
        assert(merge_terms(acc, ts.push(t)) == merge_terms(a2, ts.push(t).drop_first()));
        assert(merge_terms(a2, Seq::<Seq<char>>::empty()) == a2);
        assert(merge_terms(acc, ts) == acc);
    } else {
        let a2 = if acc.contains(ts.first()) {
            acc
        } else {
            acc.push(ts.first())
        };
        assert(ts.push(t).first() == ts.first());
        assert(ts.push(t).drop_first() =~= ts.drop_first().push(t));
        assert(merge_terms(acc, ts.push(t)) == merge_terms(a2, ts.drop_first().push(t)));
        assert(merge_terms(acc, ts) == merge_terms(a2, ts.drop_first()));
        lemma_merge_terms_snoc(a2, ts.drop_first(), t);
    }
}

pub proof fn lemma_merge_terms_contains(acc: Seq<Seq<char>>, ts: Seq<Seq<char>>, t: Seq<char>)
    ensures
        merge_terms(acc, ts).contains(t) <==> acc.contains(t) || ts.contains(t),
    decreases ts.len(),
{
    if ts.len() > 0 {
        let a2 = if acc.contains(ts.first()) {
            acc
        } else {
            acc.push(ts.first())
        };
        lemma_merge_terms_contains(a2, ts.drop_first(), t);
        assert(ts.contains(t) <==> (ts.first() == t || ts.drop_first().contains(t))) by {
            if ts.contains(t) {
                let i = choose|i: int| 0 <= i < ts.len() && ts[i] == t;
                if i > 0 {
                    assert(ts.drop_first()[i - 1] == t);
                }
            }
            if ts.drop_first().contains(t) {
                let i = choose|i: int|
                    0 <= i < ts.drop_first().len() && ts.drop_first()[i] == t;
                assert(ts[i + 1] == t);
            }
        }
    }
}

pub proof fn lemma_merge_terms_distinct(acc: Seq<Seq<char>>, ts: Seq<Seq<char>>)
    requires
        distinct_seq(acc),
    ensures
        distinct_seq(merge_terms(acc, ts)),
    decreases ts.len(),
{
    if ts.len() > 0 {
        let a2 = if acc.contains(ts.first()) {
            acc
        } else {
            acc.push(ts.first())
        };
        if !acc.contains(ts.first()) {
            assert forall|i: int, j: int| 0 <= i < j < a2.len() implies a2[i] != a2[j] by {
                if j == a2.len() - 1 {
                    assert(acc.contains(acc[i]));
                }
            }
        }
        lemma_merge_terms_distinct(a2, ts.drop_first());
    }
}

/// A term occurs in the corpus term list exactly when some document holds it.
pub proof fn lemma_corpus_terms_contains(docs: Seq<DocModel>, t: Seq<char>)
    ensures
        corpus_terms(docs).contains(t) <==> df_of(docs, t) > 0,
    decreases docs.len(),
{
    if docs.len() > 0 {
        lemma_corpus_terms_contains(docs.drop_last(), t);
        lemma_merge_terms_contains(
            corpus_terms(docs.drop_last()),
            distinct_terms(docs.last().tokens),
            t,
        );
        lemma_distinct_terms_contains(docs.last().tokens, t);
    }
}

pub proof fn lemma_df_le_len(docs: Seq<DocModel>, t: Seq<char>)
    ensures
        df_of(docs, t) <= docs.len(),
    decreases docs.len(),
{
    if docs.len() > 0 {
        lemma_df_le_len(docs.drop_last(), t);
    }
}

pub proof fn lemma_corpus_terms_distinct(docs: Seq<DocModel>)
    ensures
        distinct_seq(corpus_terms(docs)),
    decreases docs.len(),
{
    if docs.len() == 0 {
    } else {
        lemma_corpus_terms_distinct(docs.drop_last());
        lemma_merge_terms_distinct(
            corpus_terms(docs.drop_last()),
            distinct_terms(docs.last().tokens),
        );
    }
}


// ---------------------------------------------------------------------------
// The stored relations and the index store itself.
// ---------------------------------------------------------------------------

/// One row of the term relation: a term and its idf in Q20 fixed point.
pub struct TermEntry {
    pub term: String,
    pub idf: u64,
}

/// One row of the posting relation: a (document, term) pair with the term's
/// occurrence count in the document and the document's total token count.
pub struct Posting {
    pub doc: String,
    pub term: String,
    pub count: usize,
    pub total: usize,
}

/// Failures of the index store.
#[derive(Debug)]
pub enum IndexError {
    /// Two documents of one rebuild carry the same name; the rebuild is
    /// rejected as a whole and the prior generation is kept.
    DuplicateDocument(String),
    /// Relations handed over for installation break the generation
    /// invariant (a dangling posting, an inconsistent count, a duplicate
    /// key); nothing is installed and the prior generation is kept.
    InvalidRelations,
}

pub open spec fn docs_model(docs: Seq<Document>) -> Seq<DocModel> {
    docs.map_values(|d: Document| DocModel { name: d.name@, tokens: d.terms.deep_view() })
}

pub open spec fn terms_view_of(s: Seq<TermEntry>) -> Seq<TermModel> {
    s.map_values(|e: TermEntry| TermModel { term: e.term@, idf: e.idf as nat })
}

pub open spec fn postings_view_of(s: Seq<Posting>) -> Seq<PostingModel> {
    s.map_values(
        |p: Posting|
            PostingModel { doc: p.doc@, term: p.term@, count: p.count as nat, total: p.total as nat },
    )
}

/// The keys of a tally list, as character sequences, in list order.
pub open spec fn keys_view(s: Seq<(String, usize)>) -> Seq<Seq<char>> {
    s.map_values(|p: (String, usize)| p.0@)
}

/// The index store: it owns one committed generation of the three relations
/// (documents, terms, postings) and the registered document sources.
pub struct Index<S> {
    sources: Vec<S>,
    docs: Vec<String>,
    terms: Vec<TermEntry>,
    postings: Vec<Posting>,
}

impl<S> Index<S> {
    pub closed spec fn sources_view(self) -> Seq<S> {
        self.sources@
    }

    /// The committed document names, in insertion order.
    pub closed spec fn docs_view(self) -> Seq<Seq<char>> {
        self.docs.deep_view()
    }

    /// The committed term relation.
    pub closed spec fn terms_view(self) -> Seq<TermModel> {
        terms_view_of(self.terms@)
    }

    /// The committed posting relation.
    pub closed spec fn postings_view(self) -> Seq<PostingModel> {
        postings_view_of(self.postings@)
    }

    /// Referential integrity of the committed generation: every posting's
    /// document and term exist in the other two relations, its counts are
    /// consistent, and names are unique.
    pub open spec fn wf(self) -> bool {
        &&& (forall|i: int|
            #![trigger self.postings_view()[i]]
            0 <= i < self.postings_view().len() ==> {
                let p = self.postings_view()[i];
                &&& 1 <= p.count <= p.total
                &&& self.docs_view().contains(p.doc)
                &&& term_names(self.terms_view()).contains(p.term)
            })
        &&& pair_distinct(self.postings_view())
        &&& distinct_seq(self.docs_view())
        &&& distinct_seq(term_names(self.terms_view()))
    }

    /// A fresh store: no sources, an empty committed generation.
    pub fn new() -> (ix: Self)
        ensures
            ix.wf(),
            ix.sources_view() == Seq::<S>::empty(),
            ix.docs_view() == Seq::<Seq<char>>::empty(),
            ix.terms_view() == Seq::<TermModel>::empty(),
            ix.postings_view() == Seq::<PostingModel>::empty(),
    {
        let ix = Index { sources: Vec::new(), docs: Vec::new(), terms: Vec::new(), postings: Vec::new() };
        proof {
            assert(ix.docs_view() =~= Seq::<Seq<char>>::empty());
            assert(ix.terms_view() =~= Seq::<TermModel>::empty());
            assert(ix.postings_view() =~= Seq::<PostingModel>::empty());
        }
        ix
    }

    /// Register one more document source; the committed generation is
    /// untouched.
    pub fn add(&mut self, source: S)
        ensures
            final(self).sources_view() == old(self).sources_view().push(source),
            final(self).docs_view() == old(self).docs_view(),
            final(self).terms_view() == old(self).terms_view(),
            final(self).postings_view() == old(self).postings_view(),
            final(self).wf() == old(self).wf(),
    {
        self.sources.push(source);
        proof {
            assert(self.docs_view() == old(self).docs_view());
            assert(self.terms_view() == old(self).terms_view());
            assert(self.postings_view() == old(self).postings_view());
        }
    }
}

/// Position of the first tally whose key equals `w`, if any.
fn find_key(cc: &Vec<(String, usize)>, w: &String) -> (r: Option<usize>)
    ensures
        match r {
            Some(k) => k < cc@.len() && cc@[k as int].0@ == w@,
            None => forall|m: int| 0 <= m < cc@.len() ==> cc@[m].0@ != w@,
        },
{
    let mut k: usize = 0;
    while k < cc.len()
        invariant
            k <= cc@.len(),
            forall|m: int| 0 <= m < k ==> cc@[m].0@ != w@,
        decreases cc@.len() - k,
    {
        if cc[k].0 == *w {
            return Some(k);
        }
        k += 1;
    }
    None
}

/// Tally the occurrences of each distinct token of one document, in
/// first-occurrence order.
fn count_doc_terms(tokens: &Vec<String>) -> (cc: Vec<(String, usize)>)
    ensures
        keys_view(cc@) == distinct_terms(tokens.deep_view()),
        forall|k: int|
            #![trigger cc@[k]]
            0 <= k < cc@.len() ==> cc@[k].1 as nat == count_in(tokens.deep_view(), cc@[k].0@)
                && 1 <= cc@[k].1 <= tokens@.len(),
{
    let ghost toks = tokens.deep_view();
    let mut cc: Vec<(String, usize)> = Vec::new();
    let n = tokens.len();
    let mut j: usize = 0;
    proof {
        assert(toks.take(0) =~= Seq::<Seq<char>>::empty());
        assert(keys_view(cc@) =~= distinct_terms(toks.take(0)));
    }
    while j < n
        invariant
            j <= n,
            n == tokens@.len(),
            toks == tokens.deep_view(),
            toks.len() == n,
            keys_view(cc@) == distinct_terms(toks.take(j as int)),
            forall|k: int|
                #![trigger cc@[k]]
                0 <= k < cc@.len() ==> cc@[k].1 as nat == count_in(toks.take(j as int), cc@[k].0@)
                    && 1 <= cc@[k].1 <= j,
        decreases n - j,
    {
        let ghost pre = toks.take(j as int);
        let ghost post = toks.take(j as int + 1);
        proof {
            assert(post.drop_last() =~= pre);
            assert(post.last() == toks[j as int]);
            assert(toks[j as int] == tokens@[j as int]@);
            lemma_distinct_terms_distinct(pre);
        }
        let w = &tokens[j];
        let ghost oldcc = cc@;
        match find_key(&cc, w) {
            Some(k) => {
                proof {
                    assert(keys_view(oldcc)[k as int] == oldcc[k as int].0@);
                    assert(distinct_terms(pre).contains(w@));
                    lemma_distinct_terms_contains(pre, w@);
                    lemma_count_in_le_len(pre, w@);
                    // the term was already seen, so the key list is unchanged
                    assert(distinct_terms(post) == distinct_terms(pre));
                }
                let entry = cc.remove(k);
                let new_count = entry.1 + 1;
                cc.insert(k, (entry.0, new_count));
                proof {
                    assert(cc@ =~= oldcc.update(k as int, (oldcc[k as int].0, new_count)));
                    assert(keys_view(cc@) =~= keys_view(oldcc));
                    assert forall|m: int| 0 <= m < cc@.len() implies
                        cc@[m].1 as nat == count_in(post, cc@[m].0@) && 1 <= cc@[m].1 <= j + 1 by {
                        assert(keys_view(oldcc)[m] == oldcc[m].0@);
                        if m == k {
                            assert(cc@[m].0@ == w@);
                            assert(count_in(post, w@) == count_in(pre, w@) + 1);
                        } else {
                            assert(cc@[m] == oldcc[m]);
                            // keys are the distinct terms, hence pairwise different
                            assert(keys_view(oldcc)[m] != keys_view(oldcc)[k as int]);
                            assert(cc@[m].0@ != w@);
                            assert(count_in(post, cc@[m].0@) == count_in(pre, cc@[m].0@));
                        }
                    }
                }
            },
            None => {
                proof {
                    assert forall|m: int| 0 <= m < keys_view(oldcc).len() implies
                        keys_view(oldcc)[m] != w@ by {
                        assert(keys_view(oldcc)[m] == oldcc[m].0@);
                    }
                    assert(!distinct_terms(pre).contains(w@));
                    lemma_distinct_terms_contains(pre, w@);
                    assert(count_in(pre, w@) == 0);
                    assert(distinct_terms(post) == distinct_terms(pre).push(w@));
                }
                cc.push((w.clone(), 1));
                proof {
                    assert(keys_view(cc@) =~= keys_view(oldcc).push(w@));
                    assert forall|m: int| 0 <= m < cc@.len() implies
                        cc@[m].1 as nat == count_in(post, cc@[m].0@) && 1 <= cc@[m].1 <= j + 1 by {
                        if m < oldcc.len() {
                            assert(cc@[m] == oldcc[m]);
                            assert(keys_view(oldcc)[m] == oldcc[m].0@);
                            assert(cc@[m].0@ != w@);
                            assert(count_in(post, cc@[m].0@) == count_in(pre, cc@[m].0@));
                        } else {
                            assert(cc@[m].0@ == w@);
                            assert(count_in(post, w@) == count_in(pre, w@) + 1);
                        }
                    }
                }
            },
        }
        j += 1;
    }
    proof {
        assert(toks.take(n as int) =~= toks);
    }
    cc
}

/// Every posting of a freshly built generation is internally consistent and
/// refers to a document and a term of the same generation.
proof fn lemma_postings_model_wf(docs: Seq<DocModel>)
    ensures
        forall|i: int|
            #![trigger postings_model(docs)[i]]
            0 <= i < postings_model(docs).len() ==> {
                let p = postings_model(docs)[i];
                &&& 1 <= p.count <= p.total
                &&& names_of(docs).contains(p.doc)
                &&& corpus_terms(docs).contains(p.term)
            },
    decreases docs.len(),
{
    if docs.len() > 0 {
        let prev = docs.drop_last();
        let d = docs.last();
        lemma_postings_model_wf(prev);
        assert forall|i: int|
            0 <= i < postings_model(docs).len() implies {
                let p = #[trigger] postings_model(docs)[i];
                &&& 1 <= p.count <= p.total
                &&& names_of(docs).contains(p.doc)
                &&& corpus_terms(docs).contains(p.term)
            } by {
            let p = postings_model(docs)[i];
            if i < postings_model(prev).len() {
                assert(p == postings_model(prev)[i]);
                let j = choose|j: int| 0 <= j < names_of(prev).len() && names_of(prev)[j] == p.doc;
                assert(names_of(docs)[j] == p.doc);
                lemma_corpus_terms_contains(prev, p.term);
                lemma_corpus_terms_contains(docs, p.term);
            } else {
                let k = i - postings_model(prev).len();
                let dt = distinct_terms(d.tokens);
                assert(p == doc_postings(d)[k]);
                let t = dt[k];
                assert(dt.contains(t));
                lemma_distinct_terms_contains(d.tokens, t);
                lemma_count_in_le_len(d.tokens, t);
                assert(names_of(docs)[docs.len() - 1] == d.name);
                lemma_corpus_terms_contains(docs, t);
            }
        }
    }
}

/// A built generation holds at most one posting per (document, term) pair.
proof fn lemma_postings_model_pair_distinct(docs: Seq<DocModel>)
    requires
        distinct_seq(names_of(docs)),
    ensures
        pair_distinct(postings_model(docs)),
    decreases docs.len(),
{
    if docs.len() > 0 {
        let prev = docs.drop_last();
        let d = docs.last();
        assert(distinct_seq(names_of(prev))) by {
            assert forall|a: int, b: int|
                0 <= a < b < names_of(prev).len() implies names_of(prev)[a] != names_of(
                prev,
            )[b] by {
                assert(names_of(prev)[a] == names_of(docs)[a]);
                assert(names_of(prev)[b] == names_of(docs)[b]);
            }
        }
        lemma_postings_model_pair_distinct(prev);
        lemma_postings_model_wf(prev);
        lemma_distinct_terms_distinct(d.tokens);
        let np = postings_model(prev).len() as int;
        let dt = distinct_terms(d.tokens);
        assert forall|i: int, j: int|
            0 <= i < j < postings_model(docs).len() implies !(postings_model(docs)[i].doc
            == postings_model(docs)[j].doc && postings_model(docs)[i].term == postings_model(
            docs,
        )[j].term) by {
            let pi = postings_model(docs)[i];
            let pj = postings_model(docs)[j];
            if j < np {
                assert(pi == postings_model(prev)[i] && pj == postings_model(prev)[j]);
            } else if i >= np {
                // both belong to the last document: their terms differ
                assert(pi == doc_postings(d)[i - np] && pj == doc_postings(d)[j - np]);
                assert(pi.term == dt[i - np] && pj.term == dt[j - np]);
            } else {
                // the earlier posting's document is one of the previous
                // names, the later one's is the new, distinct name
                assert(pi == postings_model(prev)[i]);
                assert(pj == doc_postings(d)[j - np]);
                assert(names_of(prev).contains(pi.doc));
                let m = choose|m: int|
                    0 <= m < names_of(prev).len() && names_of(prev)[m] == pi.doc;
                assert(names_of(docs)[m] == pi.doc);
                assert(names_of(docs)[docs.len() - 1] == d.name);
                assert(pi.doc != d.name);
            }
        }
    }
}

impl<S> Index<S> {
    /// Atomically replace the committed generation with one built from
    /// `docs`: document names in input order; one posting per document and
    /// distinct term, carrying that term's occurrence count over the
    /// document's token total; one term row per distinct corpus term with
    /// idf = log10(corpus size / documents containing it) in Q20 fixed
    /// point. Succeeds exactly when the document names are pairwise
    /// distinct; on a duplicate the rebuild is rejected as a whole and the
    /// prior generation is kept untouched. A corpus of zero documents
    /// builds an empty generation, not an error. A document with no tokens
    /// contributes its name and no postings.
    pub fn rebuild_docs(&mut self, docs: &Vec<Document>) -> (r: Result<(), IndexError>)
        ensures
            final(self).sources_view() == old(self).sources_view(),
            match r {
                Ok(()) => {
                    &&& distinct_seq(names_of(docs_model(docs@)))
                    &&& final(self).docs_view() == names_of(docs_model(docs@))
                    &&& final(self).terms_view() == terms_model(docs_model(docs@))
                    &&& final(self).postings_view() == postings_model(docs_model(docs@))
                    &&& final(self).wf()
                },
                Err(e) => {
                    &&& !distinct_seq(names_of(docs_model(docs@)))
                    &&& (e matches IndexError::DuplicateDocument(name) && exists|a: int, b: int|
                        0 <= a < b < docs@.len() && names_of(docs_model(docs@))[a]
                            == names_of(docs_model(docs@))[b] && name@ == names_of(
                            docs_model(docs@),
                        )[b])
                    &&& *final(self) == *old(self)
                },
            },
    {
        let ghost dm = docs_model(docs@);
        let n = docs.len();
        // Reject duplicate names before touching the committed generation.
        let mut i: usize = 0;
        while i < n
            invariant
                i <= n,
                n == docs@.len(),
                dm == docs_model(docs@),
                *self == *old(self),
                forall|a: int, b: int| 0 <= a < b < i ==> names_of(dm)[a] != names_of(dm)[b],
            decreases n - i,
        {
            let mut j: usize = 0;
            while j < i
                invariant
                    j <= i,
                    i < n,
                    n == docs@.len(),
                    dm == docs_model(docs@),
                    *self == *old(self),
                    forall|a: int, b: int| 0 <= a < b < i ==> names_of(dm)[a] != names_of(dm)[b],
                    forall|b: int| 0 <= b < j ==> names_of(dm)[b] != names_of(dm)[i as int],
                decreases i - j,
            {
                if docs[j].name == docs[i].name {
                    proof {
                        assert(names_of(dm)[j as int] == docs@[j as int].name@);
                        assert(names_of(dm)[i as int] == docs@[i as int].name@);
                        assert(!distinct_seq(names_of(dm)));
                    }
                    return Err(IndexError::DuplicateDocument(docs[i].name.clone()));
                }
                proof {
                    assert(names_of(dm)[j as int] == docs@[j as int].name@);
                    assert(names_of(dm)[i as int] == docs@[i as int].name@);
                }
                j += 1;
            }
            i += 1;
        }
        proof {
            assert(distinct_seq(names_of(dm)));
        }
        // Build the new generation beside the committed one.
        let mut names: Vec<String> = Vec::new();
        let mut dfs: Vec<(String, usize)> = Vec::new();
        let mut postings: Vec<Posting> = Vec::new();
        let mut i: usize = 0;
        proof {
            assert(dm.take(0) =~= Seq::<DocModel>::empty());
            assert(names.deep_view() =~= names_of(dm.take(0)));
            assert(keys_view(dfs@) =~= corpus_terms(dm.take(0)));
            assert(postings_view_of(postings@) =~= postings_model(dm.take(0)));
        }
        while i < n
            invariant
                i <= n,
                n == docs@.len(),
                dm == docs_model(docs@),
                dm.len() == n,
                *self == *old(self),
                names.deep_view() == names_of(dm.take(i as int)),
                postings_view_of(postings@) == postings_model(dm.take(i as int)),
                keys_view(dfs@) == corpus_terms(dm.take(i as int)),
                forall|m: int|
                    #![trigger dfs@[m]]
                    0 <= m < dfs@.len() ==> dfs@[m].1 as nat == df_of(dm.take(i as int), dfs@[m].0@)
                        && 1 <= dfs@[m].1 <= i,
            decreases n - i,
        {
            let ghost dpre = dm.take(i as int);
            let ghost dpost = dm.take(i as int + 1);
            proof {
                assert(dpost.drop_last() =~= dpre);
                assert(dpost.last() == dm[i as int]);
                assert(dm[i as int] == DocModel {
                    name: docs@[i as int].name@,
                    tokens: docs@[i as int].terms.deep_view(),
                });
            }
            let d = &docs[i];
            let ghost names0 = names.deep_view();
            names.push(d.name.clone());
            proof {
                assert(names@.last()@ == dm[i as int].name);
                assert(names.deep_view() =~= names0.push(dm[i as int].name));
                assert(names_of(dpost) =~= names_of(dpre).push(dm[i as int].name));
                assert(names.deep_view() =~= names_of(dpost));
            }
            let cc = count_doc_terms(&d.terms);
            let ghost dt = distinct_terms(dm[i as int].tokens);
            let total: usize = d.terms.len();
            proof {
                assert(keys_view(cc@) == dt);
                assert(total == dm[i as int].tokens.len());
                assert(dt.take(0) =~= Seq::<Seq<char>>::empty());
                assert(merge_terms(corpus_terms(dpre), dt.take(0)) == corpus_terms(dpre));
                assert(doc_postings(dm[i as int]).take(0) =~= Seq::<PostingModel>::empty());
                assert(postings_view_of(postings@) =~= postings_model(dpre) + doc_postings(
                    dm[i as int],
                ).take(0));
                lemma_corpus_terms_distinct(dpre);
                lemma_distinct_terms_distinct(dm[i as int].tokens);
            }
            let mut k: usize = 0;
            while k < cc.len()
                invariant
                    k <= cc@.len(),
                    i < n,
                    n == docs@.len(),
                    dm == docs_model(docs@),
                    dm.len() == n,
                    *self == *old(self),
                    dpre == dm.take(i as int),
                    dpost == dm.take(i as int + 1),
                    dt == distinct_terms(dm[i as int].tokens),
                    distinct_seq(dt),
                    distinct_seq(corpus_terms(dpre)),
                    keys_view(cc@) == dt,
                    dt.len() == cc@.len(),
                    total == dm[i as int].tokens.len(),
                    names.deep_view() == names_of(dpost),
                    docs@[i as int].name@ == dm[i as int].name,
                    d.name@ == dm[i as int].name,
                    forall|m: int|
                        #![trigger cc@[m]]
                        0 <= m < cc@.len() ==> cc@[m].1 as nat == count_in(
                            dm[i as int].tokens,
                            cc@[m].0@,
                        ) && 1 <= cc@[m].1 <= total,
                    postings_view_of(postings@) == postings_model(dpre) + doc_postings(
                        dm[i as int],
                    ).take(k as int),
                    keys_view(dfs@) == merge_terms(corpus_terms(dpre), dt.take(k as int)),
                    forall|m: int|
                        #![trigger dfs@[m]]
                        0 <= m < dfs@.len() ==> dfs@[m].1 as nat == df_of(dpre, dfs@[m].0@) + (
                        if dt.take(k as int).contains(dfs@[m].0@) {
                            1nat
                        } else {
                            0nat
                        }) && 1 <= dfs@[m].1 <= i + 1,
                decreases cc@.len() - k,
            {
                let ghost kk = k as int;
                proof {
                    assert(cc@[kk].0@ == keys_view(cc@)[kk]);
                    assert(dt.take(kk + 1).drop_last() =~= dt.take(kk));
                    assert(dt.take(kk + 1).last() == dt[kk]);
                    assert(!dt.take(kk).contains(dt[kk])) by {
                        if dt.take(kk).contains(dt[kk]) {
                            let m = choose|m: int| 0 <= m < kk && dt.take(kk)[m] == dt[kk];
                            assert(dt[m] == dt[kk]);
                        }
                    }
                    assert(dt.take(kk + 1) =~= dt.take(kk).push(dt[kk]));
                    lemma_merge_terms_snoc(corpus_terms(dpre), dt.take(kk), dt[kk]);
                    lemma_merge_terms_contains(corpus_terms(dpre), dt.take(kk), dt[kk]);
                    lemma_merge_terms_distinct(corpus_terms(dpre), dt.take(kk));
                    lemma_df_le_len(dpre, dt[kk]);
                }
                let t = cc[k].0.clone();
                let c: usize = cc[k].1;
                proof {
                    assert(t@ == dt[kk]);
                    assert(cc@[kk].1 as nat == count_in(dm[i as int].tokens, cc@[kk].0@));
                    assert(c as nat == count_in(dm[i as int].tokens, dt[kk]));
                }
                let doc_name = d.name.clone();
                let term_name = t.clone();
                let ghost posts0 = postings@;
                postings.push(Posting { doc: doc_name, term: term_name, count: c, total });
                proof {
                    assert(doc_name@ == dm[i as int].name);
                    assert(term_name@ == dt[kk]);
                    assert(postings@ == posts0.push(
                        Posting { doc: doc_name, term: term_name, count: c, total },
                    ));
                    assert(postings@.last().doc@ == dm[i as int].name);
                    assert(postings@.last().term@ == dt[kk]);
                    assert(postings@.last().count == c && postings@.last().total == total);
                    assert(doc_postings(dm[i as int])[kk] == PostingModel {
                        doc: dm[i as int].name,
                        term: dt[kk],
                        count: count_in(dm[i as int].tokens, dt[kk]),
                        total: dm[i as int].tokens.len(),
                    });
                    assert(doc_postings(dm[i as int]).take(kk + 1) =~= doc_postings(
                        dm[i as int],
                    ).take(kk).push(doc_postings(dm[i as int])[kk]));
                    assert(postings_view_of(postings@) =~= postings_view_of(posts0).push(
                        PostingModel {
                            doc: dm[i as int].name,
                            term: dt[kk],
                            count: c as nat,
                            total: total as nat,
                        },
                    ));
                    assert(postings_model(dpre) + doc_postings(dm[i as int]).take(kk + 1) =~= (
                    postings_model(dpre) + doc_postings(dm[i as int]).take(kk)).push(
                        doc_postings(dm[i as int])[kk],
                    ));
                    assert(postings_view_of(postings@) == postings_model(dpre) + doc_postings(
                        dm[i as int],
                    ).take(kk + 1));
                }
                let ghost dfsold = dfs@;
                let ghost mkeys = merge_terms(corpus_terms(dpre), dt.take(kk));
                match find_key(&dfs, &t) {
                    Some(m) => {
                        proof {
                            assert(keys_view(dfsold)[m as int] == dfsold[m as int].0@);
                            assert(dfsold[m as int].0@ == t@);
                            assert(mkeys[m as int] == dt[kk]);
                            assert(mkeys.contains(dt[kk]));
                            assert(merge_terms(corpus_terms(dpre), dt.take(kk + 1)) == mkeys);
                        }
                        let entry = dfs.remove(m);
                        let newc = entry.1 + 1;
                        dfs.insert(m, (entry.0, newc));
                        proof {
                            assert(dfs@ =~= dfsold.update(m as int, (dfsold[m as int].0, newc)));
                            assert(keys_view(dfs@) =~= keys_view(dfsold));
                            assert forall|mm: int| 0 <= mm < dfs@.len() implies dfs@[mm].1 as nat
                                == df_of(dpre, dfs@[mm].0@) + (if dt.take(kk + 1).contains(
                                dfs@[mm].0@,
                            ) {
                                1nat
                            } else {
                                0nat
                            }) && 1 <= dfs@[mm].1 <= i + 1 by {
                                assert(keys_view(dfsold)[mm] == dfsold[mm].0@);
                                if mm == m {
                                    assert(dfs@[mm].0@ == dt[kk]);
                                    assert(dt.take(kk + 1).contains(dt[kk]));
                                } else {
                                    assert(dfs@[mm] == dfsold[mm]);
                                    assert(keys_view(dfsold)[mm] != keys_view(dfsold)[m as int]);
                                    assert(dfs@[mm].0@ != dt[kk]);
                                    assert(dt.take(kk + 1).contains(dfs@[mm].0@) == dt.take(
                                        kk,
                                    ).contains(dfs@[mm].0@)) by {
                                        assert(dt.take(kk + 1) =~= dt.take(kk).push(dt[kk]));
                                    }
                                }
                            }
                        }
                    },
                    None => {
                        proof {
                            assert forall|mm: int| 0 <= mm < mkeys.len() implies mkeys[mm]
                                != dt[kk] by {
                                assert(keys_view(dfsold)[mm] == dfsold[mm].0@);
                            }
                            assert(!mkeys.contains(dt[kk]));
                            assert(merge_terms(corpus_terms(dpre), dt.take(kk + 1)) == mkeys.push(
                                dt[kk],
                            ));
                            lemma_merge_terms_contains(corpus_terms(dpre), dt.take(kk), dt[kk]);
                            assert(!corpus_terms(dpre).contains(dt[kk]));
                            lemma_corpus_terms_contains(dpre, dt[kk]);
                            assert(df_of(dpre, dt[kk]) == 0);
                        }
                        dfs.push((t.clone(), 1));
                        proof {
                            assert(keys_view(dfs@) =~= keys_view(dfsold).push(dt[kk]));
                            assert forall|mm: int| 0 <= mm < dfs@.len() implies dfs@[mm].1 as nat
                                == df_of(dpre, dfs@[mm].0@) + (if dt.take(kk + 1).contains(
                                dfs@[mm].0@,
                            ) {
                                1nat
                            } else {
                                0nat
                            }) && 1 <= dfs@[mm].1 <= i + 1 by {
                                if mm < dfsold.len() {
                                    assert(dfs@[mm] == dfsold[mm]);
                                    assert(keys_view(dfsold)[mm] == dfsold[mm].0@);
                                    assert(mkeys.contains(dfs@[mm].0@));
                                    assert(dfs@[mm].0@ != dt[kk]);
                                    assert(dt.take(kk + 1).contains(dfs@[mm].0@) == dt.take(
                                        kk,
                                    ).contains(dfs@[mm].0@)) by {
                                        assert(dt.take(kk + 1) =~= dt.take(kk).push(dt[kk]));
                                    }
                                } else {
                                    assert(dfs@[mm].0@ == dt[kk]);
                                    assert(dt.take(kk + 1).contains(dt[kk]));
                                }
                            }
                        }
                    },
                }
                k += 1;
            }
            proof {
                assert(dt.take(cc@.len() as int) =~= dt);
                assert(doc_postings(dm[i as int]).take(dt.len() as int) =~= doc_postings(
                    dm[i as int],
                ));
                assert(postings_model(dpost) == postings_model(dpre) + doc_postings(dpost.last()));
                assert(corpus_terms(dpost) == merge_terms(
                    corpus_terms(dpre),
                    distinct_terms(dpost.last().tokens),
                ));
                assert forall|m: int| 0 <= m < dfs@.len() implies dfs@[m].1 as nat == df_of(
                    dpost,
                    dfs@[m].0@,
                ) && 1 <= dfs@[m].1 <= i + 1 by {
                    lemma_distinct_terms_contains(dm[i as int].tokens, dfs@[m].0@);
                    assert(df_of(dpost, dfs@[m].0@) == df_of(dpre, dfs@[m].0@) + (if count_in(
                        dpost.last().tokens,
                        dfs@[m].0@,
                    ) > 0 {
                        1nat
                    } else {
                        0nat
                    }));
                }
            }
            i += 1;
        }
        proof {
            assert(dm.take(n as int) =~= dm);
        }
        // Compute each term's idf against the finished document population.
        let mut terms: Vec<TermEntry> = Vec::new();
        let ghost ct = corpus_terms(dm);
        let mut k: usize = 0;
        proof {
            assert(terms_view_of(terms@) =~= terms_model(dm).take(0));
        }
        while k < dfs.len()
            invariant
                k <= dfs@.len(),
                n == docs@.len(),
                dm == docs_model(docs@),
                dm.len() == n,
                ct == corpus_terms(dm),
                *self == *old(self),
                names.deep_view() == names_of(dm),
                postings_view_of(postings@) == postings_model(dm),
                keys_view(dfs@) == ct,
                ct.len() == dfs@.len(),
                forall|m: int|
                    #![trigger dfs@[m]]
                    0 <= m < dfs@.len() ==> dfs@[m].1 as nat == df_of(dm, dfs@[m].0@) && 1
                        <= dfs@[m].1 <= n,
                terms_view_of(terms@) == terms_model(dm).take(k as int),
            decreases dfs@.len() - k,
        {
            let t = dfs[k].0.clone();
            let df: usize = dfs[k].1;
            proof {
                assert(dfs@[k as int].0@ == keys_view(dfs@)[k as int]);
                assert(t@ == ct[k as int]);
                assert(df as nat == df_of(dm, ct[k as int]));
            }
            let idf = idf_value(n, df);
            terms.push(TermEntry { term: t, idf });
            proof {
                assert(terms_model(dm)[k as int] == TermModel {
                    term: ct[k as int],
                    idf: idf_q20(dm.len() as int, df_of(dm, ct[k as int]) as int),
                });
                assert(terms_model(dm).take(k as int + 1) =~= terms_model(dm).take(
                    k as int,
                ).push(terms_model(dm)[k as int]));
                assert(terms_view_of(terms@).last() == TermModel { term: t@, idf: idf as nat });
                assert(terms_view_of(terms@) =~= terms_model(dm).take(k as int + 1));
            }
            k += 1;
        }
        proof {
            assert(terms_model(dm).take(dfs@.len() as int) =~= terms_model(dm));
        }
        // Commit: the new generation replaces the prior one as a whole.
        self.docs = names;
        self.terms = terms;
        self.postings = postings;
        proof {
            lemma_postings_model_wf(dm);
            lemma_postings_model_pair_distinct(dm);
            lemma_corpus_terms_distinct(dm);
            assert(term_names(self.terms_view()) =~= corpus_terms(dm));
            assert forall|p: int|
                0 <= p < self.postings_view().len() implies {
                    let pp = #[trigger] self.postings_view()[p];
                    &&& 1 <= pp.count <= pp.total
                    &&& self.docs_view().contains(pp.doc)
                    &&& term_names(self.terms_view()).contains(pp.term)
                } by {
                assert(self.postings_view()[p] == postings_model(dm)[p]);
            }
        }
        Ok(())
    }
}

// ---------------------------------------------------------------------------
// Scoring a single term.
// ---------------------------------------------------------------------------

/// The idf stored for term `t`: the first matching row's value (a
/// well-formed index stores each term once).
pub open spec fn idf_lookup(ts: Seq<TermModel>, t: Seq<char>) -> nat
    decreases ts.len(),
{
    if ts.len() == 0 {
        0
    } else if ts.first().term == t {
        ts.first().idf
    } else {
        idf_lookup(ts.drop_first(), t)
    }
}

/// Every document holding term `t`, with its tf·idf score, in posting
/// order: the committed mapping that a single-term query observes.
pub open spec fn score_model(ps: Seq<PostingModel>, ts: Seq<TermModel>, t: Seq<char>) -> Seq<
    (Seq<char>, nat),
>
    decreases ps.len(),
{
    if ps.len() == 0 {
        Seq::empty()
    } else {
        let rest = score_model(ps.drop_last(), ts, t);
        let p = ps.last();
        if p.term == t {
            rest.push(
                (p.doc, tfidf_q20(p.count as int, p.total as int, idf_lookup(ts, t) as int) as nat),
            )
        } else {
            rest
        }
    }
}

/// The view of a score list handed back by `find`.
pub open spec fn scores_view_of(s: Seq<(String, u64)>) -> Seq<(Seq<char>, nat)> {
    s.map_values(|p: (String, u64)| (p.0@, p.1 as nat))
}

/// The idf stored for `t`, which a well-formed index is known to hold.
fn find_term_idf(terms: &Vec<TermEntry>, t: &String) -> (v: u64)
    requires
        term_names(terms_view_of(terms@)).contains(t@),
    ensures
        v as nat == idf_lookup(terms_view_of(terms@), t@),
{
    let ghost tv = terms_view_of(terms@);
    let mut k: usize = 0;
    proof {
        assert(tv.skip(0) =~= tv);
    }
    while k < terms.len()
        invariant
            k <= terms@.len(),
            tv == terms_view_of(terms@),
            tv.len() == terms@.len(),
            term_names(tv).contains(t@),
            forall|m: int| 0 <= m < k ==> tv[m].term != t@,
            idf_lookup(tv, t@) == idf_lookup(tv.skip(k as int), t@),
        decreases terms@.len() - k,
    {
        proof {
            assert(tv.skip(k as int).first() == tv[k as int]);
            assert(tv[k as int].term == terms@[k as int].term@);
            assert(tv.skip(k as int).drop_first() =~= tv.skip(k as int + 1));
        }
        if terms[k].term == *t {
            return terms[k].idf;
        }
        k += 1;
    }
    proof {
        let m = choose|m: int| 0 <= m < term_names(tv).len() && term_names(tv)[m] == t@;
        assert(tv[m].term == t@);
        assert(false);
    }
    0
}

impl<S> Index<S> {
    /// Every document that contains `term`, together with its tf·idf score
    /// in Q20 fixed point, in posting order. Matching is exact on the term
    /// string; a term absent from the index yields an empty mapping, never
    /// an error.
    pub fn find(&self, term: &str) -> (r: Vec<(String, u64)>)
        requires
            self.wf(),
        ensures
            scores_view_of(r@) == score_model(self.postings_view(), self.terms_view(), term@),
    {
        let t = term.to_owned();
        let ghost pv = self.postings_view();
        let ghost tv = self.terms_view();
        let mut out: Vec<(String, u64)> = Vec::new();
        let mut i: usize = 0;
        proof {
            assert(pv.take(0) =~= Seq::<PostingModel>::empty());
            assert(scores_view_of(out@) =~= score_model(pv.take(0), tv, t@));
        }
        while i < self.postings.len()
            invariant
                i <= self.postings@.len(),
                self.wf(),
                pv == self.postings_view(),
                tv == self.terms_view(),
                pv.len() == self.postings@.len(),
                t@ == term@,
                scores_view_of(out@) == score_model(pv.take(i as int), tv, t@),
            decreases self.postings@.len() - i,
        {
            let ghost ii = i as int;
            proof {
                assert(pv.take(ii + 1).drop_last() =~= pv.take(ii));
                assert(pv.take(ii + 1).last() == pv[ii]);
                assert(pv[ii] == PostingModel {
                    doc: self.postings@[ii].doc@,
                    term: self.postings@[ii].term@,
                    count: self.postings@[ii].count as nat,
                    total: self.postings@[ii].total as nat,
                });
                assert(1 <= pv[ii].count <= pv[ii].total);
                assert(term_names(self.terms_view()).contains(pv[ii].term));
            }
            let p = &self.postings[i];
            if p.term == t {
                let idf = find_term_idf(&self.terms, &p.term);
                let v = tfidf_value(p.count, p.total, idf);
                out.push((p.doc.clone(), v));
                proof {
                    assert(scores_view_of(out@) =~= score_model(pv.take(ii), tv, t@).push(
                        (pv[ii].doc, tfidf_q20(
                            pv[ii].count as int,
                            pv[ii].total as int,
                            idf_lookup(tv, t@) as int,
                        ) as nat),
                    ));
                }
            } else {
                proof {
                    assert(pv[ii].term != t@);
                }
            }
            i += 1;
        }
        proof {
            assert(pv.take(pv.len() as int) =~= pv);
        }
        out
    }
}

impl<S: IndexSource> Index<S> {
    /// Resolve every registered source, in registration order, and rebuild
    /// the whole index from the concatenated documents. Whatever the
    /// sources returned, a successful rebuild commits one complete
    /// generation built from a single document list, never a mixture with
    /// the prior one; on failure the prior generation stays committed.
    pub fn build_index(&mut self) -> (r: Result<(), IndexError>)
        ensures
            final(self).sources_view() == old(self).sources_view(),
            match r {
                Ok(()) => {
                    &&& final(self).wf()
                    &&& exists|ds: Seq<DocModel>| {
                        &&& distinct_seq(names_of(ds))
                        &&& final(self).docs_view() == names_of(ds)
                        &&& final(self).terms_view() == terms_model(ds)
                        &&& final(self).postings_view() == postings_model(ds)
                    }
                },
                Err(_) => {
                    &&& final(self).docs_view() == old(self).docs_view()
                    &&& final(self).terms_view() == old(self).terms_view()
                    &&& final(self).postings_view() == old(self).postings_view()
                },
            },
    {
        let mut all: Vec<Document> = Vec::new();
        let mut i: usize = 0;
        while i < self.sources.len()
            invariant
                *self == *old(self),
            decreases self.sources@.len() - i,
        {
            let mut ds = self.sources[i].resolve();
            all.append(&mut ds);
            i += 1;
        }
        let r = self.rebuild_docs(&all);
        proof {
            if r is Ok {
                let ds = docs_model(all@);
                assert(distinct_seq(names_of(ds)) && self.docs_view() == names_of(ds)
                    && self.terms_view() == terms_model(ds) && self.postings_view()
                    == postings_model(ds));
            }
        }
        r
    }
}

/// A document with no tokens contributes no postings: its tf values are
/// never stored as undefined quantities, and since every stored score is an
/// integer, no undefined or infinite score can enter the index through it.
pub proof fn lemma_empty_doc_no_postings(d: DocModel)
    requires
        d.tokens.len() == 0,
    ensures
        doc_postings(d) == Seq::<PostingModel>::empty(),
{
    assert(doc_postings(d) =~= Seq::<PostingModel>::empty());
}

// ---------------------------------------------------------------------------
// Installing an already-persisted generation.
// ---------------------------------------------------------------------------

/// The generation invariant over bare relations: consistent counts,
/// referential integrity, unique keys, at most one posting per pair.
pub open spec fn relations_wf(
    docs: Seq<Seq<char>>,
    ts: Seq<TermModel>,
    ps: Seq<PostingModel>,
) -> bool {
    &&& (forall|i: int|
        #![trigger ps[i]]
        0 <= i < ps.len() ==> {
            &&& 1 <= ps[i].count <= ps[i].total
            &&& docs.contains(ps[i].doc)
            &&& term_names(ts).contains(ps[i].term)
        })
    &&& pair_distinct(ps)
    &&& distinct_seq(docs)
    &&& distinct_seq(term_names(ts))
}

/// Position of the first string equal to `w`, if any.
fn find_string(v: &Vec<String>, w: &String) -> (r: Option<usize>)
    ensures
        match r {
            Some(k) => k < v@.len() && v@[k as int]@ == w@,
            None => forall|m: int| 0 <= m < v@.len() ==> v@[m]@ != w@,
        },
{
    let mut k: usize = 0;
    while k < v.len()
        invariant
            k <= v@.len(),
            forall|m: int| 0 <= m < k ==> v@[m]@ != w@,
        decreases v@.len() - k,
    {
        if v[k] == *w {
            return Some(k);
        }
        k += 1;
    }
    None
}

/// Position of the first term row named `w`, if any.
fn find_term_pos(terms: &Vec<TermEntry>, w: &String) -> (r: Option<usize>)
    ensures
        match r {
            Some(k) => k < terms@.len() && terms@[k as int].term@ == w@,
            None => forall|m: int| 0 <= m < terms@.len() ==> terms@[m].term@ != w@,
        },
{
    let mut k: usize = 0;
    while k < terms.len()
        invariant
            k <= terms@.len(),
            forall|m: int| 0 <= m < k ==> terms@[m].term@ != w@,
        decreases terms@.len() - k,
    {
        if terms[k].term == *w {
            return Some(k);
        }
        k += 1;
    }
    None
}

impl<S> Index<S> {
    /// Install an already-persisted generation from its three relations,
    /// after validating the generation invariant. Succeeds exactly when
    /// the relations are well formed; on any violation nothing is
    /// installed and the prior generation stays committed.
    pub fn from_parts(
        &mut self,
        docs: Vec<String>,
        terms: Vec<TermEntry>,
        postings: Vec<Posting>,
    ) -> (r: Result<(), IndexError>)
        ensures
            final(self).sources_view() == old(self).sources_view(),
            match r {
                Ok(()) => {
                    &&& relations_wf(
                        docs.deep_view(),
                        terms_view_of(terms@),
                        postings_view_of(postings@),
                    )
                    &&& final(self).docs_view() == docs.deep_view()
                    &&& final(self).terms_view() == terms_view_of(terms@)
                    &&& final(self).postings_view() == postings_view_of(postings@)
                    &&& final(self).wf()
                },
                Err(_) => {
                    &&& !relations_wf(
                        docs.deep_view(),
                        terms_view_of(terms@),
                        postings_view_of(postings@),
                    )
                    &&& *final(self) == *old(self)
                },
            },
    {
        let ghost dv = docs.deep_view();
        let ghost tv = terms_view_of(terms@);
        let ghost pv = postings_view_of(postings@);
        // unique document names
        let mut i: usize = 0;
        while i < docs.len()
            invariant
                i <= docs@.len(),
                dv == docs.deep_view(),
                dv.len() == docs@.len(),
                *self == *old(self),
                forall|a: int, b: int| 0 <= a < b < i ==> dv[a] != dv[b],
            decreases docs@.len() - i,
        {
            let mut j: usize = 0;
            while j < i
                invariant
                    j <= i,
                    i < docs@.len(),
                    dv == docs.deep_view(),
                    dv.len() == docs@.len(),
                    *self == *old(self),
                    forall|b: int| 0 <= b < j ==> dv[b] != dv[i as int],
                decreases i - j,
            {
                if docs[j] == docs[i] {
                    proof {
                        assert(dv[j as int] == docs@[j as int]@);
                        assert(dv[i as int] == docs@[i as int]@);
                        assert(!distinct_seq(dv));
                    }
                    return Err(IndexError::InvalidRelations);
                }
                proof {
                    assert(dv[j as int] == docs@[j as int]@);
                    assert(dv[i as int] == docs@[i as int]@);
                }
                j += 1;
            }
            i += 1;
        }
        // unique term names
        let mut i: usize = 0;
        while i < terms.len()
            invariant
                i <= terms@.len(),
                tv == terms_view_of(terms@),
                tv.len() == terms@.len(),
                *self == *old(self),
                forall|a: int, b: int| 0 <= a < b < i ==> term_names(tv)[a] != term_names(tv)[b],
            decreases terms@.len() - i,
        {
            let mut j: usize = 0;
            while j < i
                invariant
                    j <= i,
                    i < terms@.len(),
                    tv == terms_view_of(terms@),
                    tv.len() == terms@.len(),
                    *self == *old(self),
                    forall|b: int| 0 <= b < j ==> term_names(tv)[b] != term_names(tv)[i as int],
                decreases i - j,
            {
                if terms[j].term == terms[i].term {
                    proof {
                        assert(term_names(tv)[j as int] == terms@[j as int].term@);
                        assert(term_names(tv)[i as int] == terms@[i as int].term@);
                        assert(!distinct_seq(term_names(tv)));
                    }
                    return Err(IndexError::InvalidRelations);
                }
                proof {
                    assert(term_names(tv)[j as int] == terms@[j as int].term@);
                    assert(term_names(tv)[i as int] == terms@[i as int].term@);
                }
                j += 1;
            }
            i += 1;
        }
        // each posting consistent and resolvable
        let mut i: usize = 0;
        while i < postings.len()
            invariant
                i <= postings@.len(),
                dv == docs.deep_view(),
                tv == terms_view_of(terms@),
                pv == postings_view_of(postings@),
                pv.len() == postings@.len(),
                *self == *old(self),
                forall|m: int|
                    #![trigger pv[m]]
                    0 <= m < i ==> 1 <= pv[m].count <= pv[m].total && dv.contains(pv[m].doc)
                        && term_names(tv).contains(pv[m].term),
            decreases postings@.len() - i,
        {
            let ghost ii = i as int;
            proof {
                assert(pv[ii] == PostingModel {
                    doc: postings@[ii].doc@,
                    term: postings@[ii].term@,
                    count: postings@[ii].count as nat,
                    total: postings@[ii].total as nat,
                });
            }
            let p = &postings[i];
            if p.count < 1 || p.count > p.total {
                proof {
                    assert(!(1 <= pv[ii].count <= pv[ii].total));
                }
                return Err(IndexError::InvalidRelations);
            }
            match find_string(&docs, &p.doc) {
                Some(k) => {
                    proof {
                        assert(dv[k as int] == docs@[k as int]@);
                        assert(dv.contains(pv[ii].doc));
                    }
                },
                None => {
                    proof {
                        assert(!dv.contains(pv[ii].doc)) by {
                            if dv.contains(pv[ii].doc) {
                                let m = choose|m: int| 0 <= m < dv.len() && dv[m] == pv[ii].doc;
                                assert(docs@[m]@ == pv[ii].doc);
                            }
                        }
                    }
                    return Err(IndexError::InvalidRelations);
                },
            }
            match find_term_pos(&terms, &p.term) {
                Some(k) => {
                    proof {
                        assert(term_names(tv)[k as int] == terms@[k as int].term@);
                        assert(term_names(tv).contains(pv[ii].term));
                    }
                },
                None => {
                    proof {
                        assert(!term_names(tv).contains(pv[ii].term)) by {
                            if term_names(tv).contains(pv[ii].term) {
                                let m = choose|m: int|
                                    0 <= m < term_names(tv).len() && term_names(tv)[m]
                                        == pv[ii].term;
                                assert(terms@[m].term@ == pv[ii].term);
                            }
                        }
                    }
                    return Err(IndexError::InvalidRelations);
                },
            }
            i += 1;
        }
        // at most one posting per (document, term) pair
        let mut i: usize = 0;
        while i < postings.len()
            invariant
                i <= postings@.len(),
                pv == postings_view_of(postings@),
                pv.len() == postings@.len(),
                *self == *old(self),
                forall|a: int, b: int|
                    0 <= a < b < i ==> !(pv[a].doc == pv[b].doc && pv[a].term == pv[b].term),
            decreases postings@.len() - i,
        {
            let mut j: usize = 0;
            while j < i
                invariant
                    j <= i,
                    i < postings@.len(),
                    pv == postings_view_of(postings@),
                    pv.len() == postings@.len(),
                    *self == *old(self),
                    forall|b: int|
                        0 <= b < j ==> !(pv[b].doc == pv[i as int].doc && pv[b].term
                            == pv[i as int].term),
                decreases i - j,
            {
                if postings[j].doc == postings[i].doc && postings[j].term == postings[i].term {
                    proof {
                        assert(pv[j as int].doc == postings@[j as int].doc@);
                        assert(pv[i as int].doc == postings@[i as int].doc@);
                        assert(pv[j as int].term == postings@[j as int].term@);
                        assert(pv[i as int].term == postings@[i as int].term@);
                        assert(!pair_distinct(pv));
                    }
                    return Err(IndexError::InvalidRelations);
                }
                proof {
                    assert(pv[j as int].doc == postings@[j as int].doc@);
                    assert(pv[i as int].doc == postings@[i as int].doc@);
                    assert(pv[j as int].term == postings@[j as int].term@);
                    assert(pv[i as int].term == postings@[i as int].term@);
                }
                j += 1;
            }
            i += 1;
        }
        self.docs = docs;
        self.terms = terms;
        self.postings = postings;
        Ok(())
    }
}

impl<S> Index<S> {
    /// The committed document relation.
    pub fn documents(&self) -> (r: &Vec<String>)
        ensures
            r.deep_view() == self.docs_view(),
    {
        &self.docs
    }

    /// The committed term relation.
    pub fn terms(&self) -> (r: &Vec<TermEntry>)
        ensures
            terms_view_of(r@) == self.terms_view(),
    {
        &self.terms
    }

    /// The committed posting relation.
    pub fn postings(&self) -> (r: &Vec<Posting>)
        ensures
            postings_view_of(r@) == self.postings_view(),
    {
        &self.postings
    }
}

} // verus!
