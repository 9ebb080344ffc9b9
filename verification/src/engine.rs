use vstd::prelude::*;
use crate::index::{
    Index, IndexError, DocModel, PostingModel, TermModel, score_model, pair_distinct,
    distinct_seq, names_of, terms_model, postings_model,
};
use crate::source::{IndexSource, whitespace_split, split_whitespace_words};

verus! {

broadcast use vstd::seq_lib::group_seq_properties;

// ---------------------------------------------------------------------------
// Aggregation of per-term scores into per-document totals.
// ---------------------------------------------------------------------------

/// The document names of a score or totals list, in list order.
pub open spec fn docs_of(s: Seq<(Seq<char>, nat)>) -> Seq<Seq<char>> {
    s.map_values(|p: (Seq<char>, nat)| p.0)
}

/// The view of a totals list handed back by a search.
pub open spec fn totals128_view(s: Seq<(String, u128)>) -> Seq<(Seq<char>, nat)> {
    s.map_values(|p: (String, u128)| (p.0@, p.1 as nat))
}

/// Add one document's contribution `v` into the running totals: an already
/// listed document has `v` added to its total, a new one is appended.
pub open spec fn add_one(acc: Seq<(Seq<char>, nat)>, doc: Seq<char>, v: nat) -> Seq<
    (Seq<char>, nat),
>
    decreases acc.len(),
{
    if acc.len() == 0 {
        seq![(doc, v)]
    } else if acc.first().0 == doc {
        seq![(acc.first().0, (acc.first().1 + v) as nat)] + acc.drop_first()
    } else {
        seq![acc.first()] + add_one(acc.drop_first(), doc, v)
    }
}

/// Add a whole per-term score list into the running totals, in score order.
pub open spec fn add_scores(acc: Seq<(Seq<char>, nat)>, sc: Seq<(Seq<char>, nat)>) -> Seq<
    (Seq<char>, nat),
>
    decreases sc.len(),
{
    if sc.len() == 0 {
        acc
    } else {
        add_scores(add_one(acc, sc.first().0, sc.first().1), sc.drop_first())
    }
}

/// Per-document total scores of a whole query: the sum over all query terms
/// of each document's tf·idf contribution; documents matching no term never
/// appear.
pub open spec fn totals_model(
    ps: Seq<PostingModel>,
    ts: Seq<TermModel>,
    q: Seq<Seq<char>>,
) -> Seq<(Seq<char>, nat)>
    decreases q.len(),
{
    if q.len() == 0 {
        Seq::empty()
    } else {
        add_scores(totals_model(ps, ts, q.drop_last()), score_model(ps, ts, q.last()))
    }
}

// ---------------------------------------------------------------------------
// Ranking: stable sort by descending total score.
// ---------------------------------------------------------------------------

/// Totals are in weakly descending score order.
pub open spec fn rank_sorted(s: Seq<(Seq<char>, nat)>) -> bool {
    forall|i: int, j: int| 0 <= i < j < s.len() ==> s[i].1 >= s[j].1
}

/// Insert one entry behind every earlier entry of greater or equal score:
/// ties keep their accumulation order.
pub open spec fn insert_ranked(s: Seq<(Seq<char>, nat)>, x: (Seq<char>, nat)) -> Seq<
    (Seq<char>, nat),
>
    decreases s.len(),
{
    if s.len() == 0 {
        seq![x]
    } else if s.last().1 >= x.1 {
        s.push(x)
    } else {
        insert_ranked(s.drop_last(), x).push(s.last())
    }
}

/// Stable sort by descending score: equal totals keep the order in which
/// their documents first matched, i.e. the index's document order.
pub open spec fn sort_ranked(s: Seq<(Seq<char>, nat)>) -> Seq<(Seq<char>, nat)>
    decreases s.len(),
{
    if s.len() == 0 {
        Seq::empty()
    } else {
        insert_ranked(sort_ranked(s.drop_last()), s.last())
    }
}

/// The ranked result of a query against a committed generation: per-document
/// totals, ordered by descending score, ties in document order.
pub open spec fn ranked_model(
    ps: Seq<PostingModel>,
    ts: Seq<TermModel>,
    q: Seq<Seq<char>>,
) -> Seq<(Seq<char>, nat)> {
    sort_ranked(totals_model(ps, ts, q))
}

// ---------------------------------------------------------------------------
// Facts used by the aggregation loops.
// ---------------------------------------------------------------------------

/// A found key makes `add_one` an in-place update.
proof fn lemma_add_one_found(acc: Seq<(Seq<char>, nat)>, doc: Seq<char>, v: nat, m: int)
    requires
        0 <= m < acc.len(),
        acc[m].0 == doc,
        forall|mm: int| 0 <= mm < m ==> acc[mm].0 != doc,
    ensures
        add_one(acc, doc, v) == acc.update(m, (doc, (acc[m].1 + v) as nat)),
    decreases acc.len(),
{
    if m == 0 {
        assert(add_one(acc, doc, v) =~= acc.update(0, (doc, (acc[0].1 + v) as nat)));
    } else {
        assert forall|mm: int| 0 <= mm < m - 1 implies acc.drop_first()[mm].0 != doc by {
            assert(acc.drop_first()[mm] == acc[mm + 1]);
        }
        lemma_add_one_found(acc.drop_first(), doc, v, m - 1);
        assert(add_one(acc, doc, v) =~= acc.update(m, (doc, (acc[m].1 + v) as nat)));
    }
}

/// An unknown key makes `add_one` an append.
proof fn lemma_add_one_new(acc: Seq<(Seq<char>, nat)>, doc: Seq<char>, v: nat)
    requires
        forall|mm: int| 0 <= mm < acc.len() ==> acc[mm].0 != doc,
    ensures
        add_one(acc, doc, v) == acc.push((doc, v)),
    decreases acc.len(),
{
    if acc.len() > 0 {
        assert forall|mm: int| 0 <= mm < acc.drop_first().len() implies acc.drop_first()[mm].0
            != doc by {
            assert(acc.drop_first()[mm] == acc[mm + 1]);
        }
        lemma_add_one_new(acc.drop_first(), doc, v);
        assert(add_one(acc, doc, v) =~= acc.push((doc, v)));
    }
}

/// Some posting relates document `d` to term `t`.
pub open spec fn has_posting_for(ps: Seq<PostingModel>, t: Seq<char>, d: Seq<char>) -> bool {
    exists|ii: int| 0 <= ii < ps.len() && (#[trigger] ps[ii]).term == t && ps[ii].doc == d
}

/// One term scores each document at most once, and only documents with a
/// posting for the term are scored.
proof fn lemma_score_docs_distinct(ps: Seq<PostingModel>, ts: Seq<TermModel>, t: Seq<char>)
    requires
        pair_distinct(ps),
    ensures
        distinct_seq(docs_of(score_model(ps, ts, t))),
        forall|m: int|
            #![trigger score_model(ps, ts, t)[m]]
            0 <= m < score_model(ps, ts, t).len() ==> has_posting_for(
                ps,
                t,
                score_model(ps, ts, t)[m].0,
            ),
    decreases ps.len(),
{
    if ps.len() > 0 {
        let prev = ps.drop_last();
        assert(pair_distinct(prev)) by {
            assert forall|i: int, j: int|
                0 <= i < j < prev.len() implies !(prev[i].doc == prev[j].doc && prev[i].term
                == prev[j].term) by {
                assert(prev[i] == ps[i] && prev[j] == ps[j]);
            }
        }
        lemma_score_docs_distinct(prev, ts, t);
        let rest = score_model(prev, ts, t);
        let full = score_model(ps, ts, t);
        assert forall|m: int|
            #![trigger score_model(ps, ts, t)[m]]
            0 <= m < score_model(ps, ts, t).len() implies has_posting_for(
                ps,
                t,
                score_model(ps, ts, t)[m].0,
            ) by {
            assert(score_model(ps, ts, t)[m] == full[m]);
            if m < rest.len() {
                assert(rest[m] == score_model(prev, ts, t)[m]);
                assert(has_posting_for(prev, t, rest[m].0));
                let ii = choose|ii: int|
                    0 <= ii < prev.len() && (#[trigger] prev[ii]).term == t && prev[ii].doc
                        == rest[m].0;
                assert(ps[ii] == prev[ii]);
                assert(0 <= ii < ps.len() && ps[ii].term == t && ps[ii].doc == full[m].0);
            } else {
                let ii = ps.len() - 1;
                assert(0 <= ii < ps.len() && ps[ii as int].term == t && ps[ii as int].doc
                    == full[m].0);
            }
        }
        if ps.last().term == t {
            assert forall|i: int, j: int|
                0 <= i < j < docs_of(full).len() implies docs_of(full)[i] != docs_of(full)[j] by {
                assert(docs_of(full)[i] == full[i].0);
                assert(docs_of(full)[j] == full[j].0);
                if j == full.len() - 1 {
                    if full[i].0 == full[j].0 {
                        assert(rest[i] == score_model(prev, ts, t)[i]);
                        assert(has_posting_for(prev, t, rest[i].0));
                        let ii = choose|ii: int|
                            0 <= ii < prev.len() && (#[trigger] prev[ii]).term == t && prev[ii].doc
                                == rest[i].0;
                        assert(ps[ii] == prev[ii]);
                        assert(ps[ii].doc == ps[ps.len() - 1].doc && ps[ii].term == ps[ps.len()
                            - 1].term);
                        assert(false);
                    }
                } else {
                    assert(docs_of(rest)[i] == rest[i].0 && docs_of(rest)[j] == rest[j].0);
                }
            }
        }
    }
}

// ---------------------------------------------------------------------------
// The query engine.
// ---------------------------------------------------------------------------

/// Position of the first totals entry for document name `w`, if any.
fn find_doc(tot: &Vec<(String, u128)>, w: &String) -> (r: Option<usize>)
    ensures
        match r {
            Some(k) => k < tot@.len() && tot@[k as int].0@ == w@,
            None => forall|m: int| 0 <= m < tot@.len() ==> tot@[m].0@ != w@,
        },
{
    let mut k: usize = 0;
    while k < tot.len()
        invariant
            k <= tot@.len(),
            forall|m: int| 0 <= m < k ==> tot@[m].0@ != w@,
        decreases tot@.len() - k,
    {
        if tot[k].0 == *w {
            return Some(k);
        }
        k += 1;
    }
    None
}

/// The query engine: it owns an index store and turns free-text queries
/// into ranked result lists. It is stateless across calls: every search is
/// an independent read of whatever generation is committed.
pub struct Engine<S> {
    index: Index<S>,
}

impl<S> Engine<S> {
    /// The owned index store.
    pub closed spec fn index_view(self) -> Index<S> {
        self.index
    }

    pub fn new(index: Index<S>) -> (e: Self)
        ensures
            e.index_view() == index,
    {
        Engine { index }
    }

    /// Rank every document matching at least one of the given query terms:
    /// a document's total is the sum of its per-term tf·idf contributions;
    /// the result is ordered by descending total, ties in document order.
    /// Documents matching no term are absent, so an unmatched query yields
    /// an empty list, never an error.
    pub fn search_terms(&self, terms: &Vec<String>) -> (r: Vec<(String, u128)>)
        requires
            self.index_view().wf(),
        ensures
            totals128_view(r@) == ranked_model(
                self.index_view().postings_view(),
                self.index_view().terms_view(),
                terms.deep_view(),
            ),
    {
        let ghost pv = self.index_view().postings_view();
        let ghost tv = self.index_view().terms_view();
        let ghost q = terms.deep_view();
        let mut tot: Vec<(String, u128)> = Vec::new();
        let nq = terms.len();
        let mut qi: usize = 0;
        proof {
            assert(q.take(0) =~= Seq::<Seq<char>>::empty());
            assert(totals128_view(tot@) =~= totals_model(pv, tv, q.take(0)));
        }
        while qi < nq
            invariant
                qi <= nq,
                nq == terms@.len(),
                q == terms.deep_view(),
                q.len() == nq,
                self.index_view().wf(),
                pv == self.index_view().postings_view(),
                tv == self.index_view().terms_view(),
                totals128_view(tot@) == totals_model(pv, tv, q.take(qi as int)),
                forall|m: int, mm: int|
                    0 <= m < mm < tot@.len() ==> tot@[m].0@ != tot@[mm].0@,
                forall|m: int|
                    #![trigger tot@[m]]
                    0 <= m < tot@.len() ==> tot@[m].1 as nat <= (qi as nat) * (u64::MAX as nat),
            decreases nq - qi,
        {
            proof {
                assert(q.take(qi as int + 1).drop_last() =~= q.take(qi as int));
                assert(q.take(qi as int + 1).last() == q[qi as int]);
                assert(q[qi as int] == terms@[qi as int]@);
            }
            let sc = self.index.find(terms[qi].as_str());
            let ghost scv = score_model(pv, tv, q[qi as int]);
            let ghost tot0 = totals128_view(tot@);
            proof {
                lemma_score_docs_distinct(pv, tv, q[qi as int]);
                assert(scv.skip(0) =~= scv);
            }
            let mut j: usize = 0;
            while j < sc.len()
                invariant
                    j <= sc@.len(),
                    qi < nq,
                    nq == terms@.len(),
                    crate::index::scores_view_of(sc@) == scv,
                    scv.len() == sc@.len(),
                    distinct_seq(docs_of(scv)),
                    tot0 == totals_model(pv, tv, q.take(qi as int)),
                    add_scores(totals128_view(tot@), scv.skip(j as int)) == add_scores(tot0, scv),
                    forall|m: int, mm: int|
                        0 <= m < mm < tot@.len() ==> tot@[m].0@ != tot@[mm].0@,
                    forall|m: int|
                        #![trigger tot@[m]]
                        0 <= m < tot@.len() ==> tot@[m].1 as nat <= (qi as nat) * (
                        u64::MAX as nat) + (if docs_of(scv).take(j as int).contains(tot@[m].0@) {
                            u64::MAX as nat
                        } else {
                            0nat
                        }),
                decreases sc@.len() - j,
            {
                let ghost jj = j as int;
                proof {
                    assert(scv.skip(jj).first() == scv[jj]);
                    assert(scv.skip(jj).drop_first() =~= scv.skip(jj + 1));
                    assert(scv[jj] == (sc@[jj].0@, sc@[jj].1 as nat));
                    assert(docs_of(scv)[jj] == scv[jj].0);
                    assert(docs_of(scv).take(jj + 1) =~= docs_of(scv).take(jj).push(scv[jj].0));
                    assert(!docs_of(scv).take(jj).contains(scv[jj].0)) by {
                        if docs_of(scv).take(jj).contains(scv[jj].0) {
                            let m = choose|m: int|
                                0 <= m < jj && docs_of(scv).take(jj)[m] == scv[jj].0;
                            assert(docs_of(scv)[m] == docs_of(scv)[jj]);
                        }
                    }
                }
                let d = &sc[j].0;
                let v = sc[j].1;
                let ghost totold = tot@;
                match find_doc(&tot, d) {
                    Some(m) => {
                        proof {
                            assert forall|mm: int| 0 <= mm < m implies totold[mm].0@ != d@ by {}
                            lemma_add_one_found(
                                totals128_view(totold),
                                d@,
                                v as nat,
                                m as int,
                            );
                            assert(totals128_view(totold)[m as int].0 == totold[m as int].0@);
                            // this entry was not yet touched by this term
                            assert(!docs_of(scv).take(jj).contains(totold[m as int].0@));
                            assert(totold[m as int].1 as nat <= (qi as nat) * (u64::MAX as nat));
                            assert(((qi as nat) + 1) * (u64::MAX as nat) <= u128::MAX as nat)
                                by (nonlinear_arith)
                                requires (qi as nat) + 1 <= u64::MAX as nat;
                            assert((qi as nat) * (u64::MAX as nat) + (u64::MAX as nat) == ((
                            qi as nat) + 1) * (u64::MAX as nat)) by (nonlinear_arith);
                        }
                        let entry = tot.remove(m);
                        let sum = entry.1 + (v as u128);
                        tot.insert(m, (entry.0, sum));
                        proof {
                            assert(tot@ =~= totold.update(m as int, (totold[m as int].0, sum)));
                            assert(totals128_view(tot@) =~= totals128_view(totold).update(
                                m as int,
                                (totold[m as int].0@, sum as nat),
                            ));
                            assert forall|mm: int| 0 <= mm < tot@.len() implies tot@[mm].1 as nat
                                <= (qi as nat) * (u64::MAX as nat) + (if docs_of(scv).take(
                                jj + 1,
                            ).contains(tot@[mm].0@) {
                                u64::MAX as nat
                            } else {
                                0nat
                            }) by {
                                if mm != m {
                                    assert(tot@[mm] == totold[mm]);
                                    if docs_of(scv).take(jj).contains(tot@[mm].0@) {
                                        assert(docs_of(scv).take(jj + 1).contains(tot@[mm].0@));
                                    }
                                } else {
                                    assert(docs_of(scv).take(jj + 1).contains(scv[jj].0));
                                    assert(tot@[mm].0@ == scv[jj].0);
                                }
                            }
                        }
                    },
                    None => {
                        proof {
                            assert forall|mm: int|
                                0 <= mm < totals128_view(totold).len() implies totals128_view(
                                totold,
                            )[mm].0 != d@ by {
                                assert(totals128_view(totold)[mm].0 == totold[mm].0@);
                            }
                            lemma_add_one_new(totals128_view(totold), d@, v as nat);
                        }
                        tot.push((d.clone(), v as u128));
                        proof {
                            assert(totals128_view(tot@) =~= totals128_view(totold).push(
                                (d@, v as nat),
                            ));
                            assert forall|mm: int| 0 <= mm < tot@.len() implies tot@[mm].1 as nat
                                <= (qi as nat) * (u64::MAX as nat) + (if docs_of(scv).take(
                                jj + 1,
                            ).contains(tot@[mm].0@) {
                                u64::MAX as nat
                            } else {
                                0nat
                            }) by {
                                if mm < totold.len() {
                                    assert(tot@[mm] == totold[mm]);
                                    if docs_of(scv).take(jj).contains(tot@[mm].0@) {
                                        assert(docs_of(scv).take(jj + 1).contains(tot@[mm].0@));
                                    }
                                } else {
                                    assert(tot@[mm].0@ == scv[jj].0);
                                    assert(docs_of(scv).take(jj + 1).contains(scv[jj].0));
                                }
                            }
                        }
                    },
                }
                j += 1;
            }
            proof {
                assert(scv.skip(sc@.len() as int) =~= Seq::<(Seq<char>, nat)>::empty());
                assert(totals128_view(tot@) == add_scores(tot0, scv));
                assert(totals_model(pv, tv, q.take(qi as int + 1)) == add_scores(
                    totals_model(pv, tv, q.take(qi as int)),
                    score_model(pv, tv, q[qi as int]),
                ));
                assert forall|m: int| 0 <= m < tot@.len() implies tot@[m].1 as nat <= ((
                qi as nat) + 1) * (u64::MAX as nat) by {
                    assert((qi as nat) * (u64::MAX as nat) + (u64::MAX as nat) == ((qi as nat)
                        + 1) * (u64::MAX as nat)) by (nonlinear_arith);
                }
            }
            qi += 1;
        }
        proof {
            assert(q.take(nq as int) =~= q);
        }
        rank_sort(tot)
    }
}

/// Order a totals list by descending score, stably: equal totals keep their
/// accumulation order.
#[verifier::rlimit(100)]
fn rank_sort(v: Vec<(String, u128)>) -> (r: Vec<(String, u128)>)
    ensures
        totals128_view(r@) == sort_ranked(totals128_view(v@)),
{
    let ghost sv = totals128_view(v@);
    let mut res: Vec<(String, u128)> = Vec::new();
    let mut i: usize = 0;
    proof {
        assert(sv.take(0) =~= Seq::<(Seq<char>, nat)>::empty());
        assert(totals128_view(res@) =~= sort_ranked(sv.take(0)));
    }
    while i < v.len()
        invariant
            i <= v@.len(),
            sv == totals128_view(v@),
            sv.len() == v@.len(),
            totals128_view(res@) == sort_ranked(sv.take(i as int)),
            rank_sorted(totals128_view(res@)),
        decreases v@.len() - i,
    {
        let ghost ii = i as int;
        let ghost rv = totals128_view(res@);
        proof {
            assert(sv.take(ii + 1).drop_last() =~= sv.take(ii));
            assert(sv.take(ii + 1).last() == sv[ii]);
            assert(sv[ii] == (v@[ii].0@, v@[ii].1 as nat));
        }
        let x = (v[i].0.clone(), v[i].1);
        let mut pos: usize = res.len();
        while pos > 0 && res[pos - 1].1 < x.1
            invariant
                pos <= res@.len(),
                rv == totals128_view(res@),
                rv.len() == res@.len(),
                x.1 == v@[ii].1,
                forall|m: int| pos <= m < rv.len() ==> rv[m].1 < x.1 as nat,
            decreases pos,
        {
            proof {
                assert(rv[pos - 1].1 == res@[pos - 1].1 as nat);
            }
            pos -= 1;
        }
        proof {
            if pos > 0 {
                assert(rv[pos - 1].1 == res@[pos - 1].1 as nat);
                assert(rv[pos - 1].1 >= x.1 as nat);
            }
            lemma_insert_ranked_at(rv, (x.0@, x.1 as nat), pos as int);
        }
        res.insert(pos, x);
        proof {
            assert(totals128_view(res@) =~= rv.take(pos as int).push((v@[ii].0@, v@[ii].1 as nat))
                + rv.skip(pos as int));
            assert(totals128_view(res@) == insert_ranked(rv, sv[ii]));
            assert(rank_sorted(totals128_view(res@))) by {
                let nv = totals128_view(res@);
                assert forall|a: int, b: int| 0 <= a < b < nv.len() implies nv[a].1 >= nv[b].1 by {
                    if a < pos {
                        assert(nv[a] == rv[a]);
                    } else if a > pos {
                        assert(nv[a] == rv[a - 1]);
                    }
                    if b < pos {
                        assert(nv[b] == rv[b]);
                    } else if b > pos {
                        assert(nv[b] == rv[b - 1]);
                    }
                }
            }
        }
        i += 1;
    }
    proof {
        assert(sv.take(sv.len() as int) =~= sv);
    }
    res
}

/// Inserting at the scan position reproduces `insert_ranked`.
#[verifier::rlimit(60)]
proof fn lemma_insert_ranked_at(s: Seq<(Seq<char>, nat)>, x: (Seq<char>, nat), p: int)
    requires
        rank_sorted(s),
        0 <= p <= s.len(),
        forall|m: int| p <= m < s.len() ==> s[m].1 < x.1,
        p > 0 ==> s[p - 1].1 >= x.1,
    ensures
        insert_ranked(s, x) == s.take(p).push(x) + s.skip(p),
    decreases s.len(),
{
    if s.len() == 0 {
        assert(insert_ranked(s, x) =~= s.take(0).push(x) + s.skip(0));
    } else if p == s.len() {
        assert(s.last().1 >= x.1);
        assert(insert_ranked(s, x) =~= s.take(p).push(x) + s.skip(p));
    } else {
        assert(s.last().1 < x.1);
        let dl = s.drop_last();
        assert forall|m: int| p <= m < dl.len() implies dl[m].1 < x.1 by {
            assert(dl[m] == s[m]);
        }
        if p > 0 {
            assert(dl[p - 1] == s[p - 1]);
        }
        lemma_insert_ranked_at(dl, x, p);
        assert(insert_ranked(s, x) =~= s.take(p).push(x) + s.skip(p)) by {
            assert(insert_ranked(s, x) == insert_ranked(dl, x).push(s.last()));
            assert(insert_ranked(dl, x) == dl.take(p).push(x) + dl.skip(p));
            assert(dl.take(p) =~= s.take(p));
        }
    }
}

impl<S: IndexSource> Engine<S> {
    /// Rebuild the owned index from its registered sources.
    pub fn index(&mut self) -> (r: Result<(), IndexError>)
        ensures
            final(self).index_view().sources_view() == old(self).index_view().sources_view(),
            match r {
                Ok(()) => {
                    &&& final(self).index_view().wf()
                    &&& exists|ds: Seq<crate::index::DocModel>| {
                        &&& distinct_seq(names_of(ds))
                        &&& final(self).index_view().docs_view() == names_of(ds)
                        &&& final(self).index_view().terms_view() == terms_model(ds)
                        &&& final(self).index_view().postings_view() == postings_model(ds)
                    }
                },
                Err(_) => {
                    &&& final(self).index_view().docs_view() == old(self).index_view().docs_view()
                    &&& final(self).index_view().terms_view() == old(
                        self,
                    ).index_view().terms_view()
                    &&& final(self).index_view().postings_view() == old(
                        self,
                    ).index_view().postings_view()
                },
            },
    {
        self.index.build_index()
    }
}

impl<S> Engine<S> {
    /// Answer a free-text query: split it on whitespace, score each term
    /// against the committed generation, sum per document and rank. An
    /// empty query, like a query matching nothing, yields an empty list.
    pub fn search(&self, query: &str) -> (r: Vec<(String, u128)>)
        requires
            self.index_view().wf(),
        ensures
            totals128_view(r@) == ranked_model(
                self.index_view().postings_view(),
                self.index_view().terms_view(),
                whitespace_split(query@),
            ),
    {
        let terms = split_whitespace_words(query);
        self.search_terms(&terms)
    }
}

// ---------------------------------------------------------------------------
// Laws of the engine.
// ---------------------------------------------------------------------------

/// Rebuilding from the same document list always commits the same
/// generation, whatever state either store held before: every single-term
/// score mapping and every ranked search result coincide. In particular,
/// running a rebuild twice on unchanged input leaves identical scores.
pub proof fn lemma_rebuild_idempotent<S1, S2>(a: Index<S1>, b: Index<S2>, ds: Seq<DocModel>)
    requires
        a.docs_view() == names_of(ds),
        a.terms_view() == terms_model(ds),
        a.postings_view() == postings_model(ds),
        b.docs_view() == names_of(ds),
        b.terms_view() == terms_model(ds),
        b.postings_view() == postings_model(ds),
    ensures
        forall|t: Seq<char>|
            #![trigger score_model(a.postings_view(), a.terms_view(), t)]
            score_model(a.postings_view(), a.terms_view(), t) == score_model(
                b.postings_view(),
                b.terms_view(),
                t,
            ),
        forall|q: Seq<Seq<char>>|
            #![trigger ranked_model(a.postings_view(), a.terms_view(), q)]
            ranked_model(a.postings_view(), a.terms_view(), q) == ranked_model(
                b.postings_view(),
                b.terms_view(),
                q,
            ),
{
}

/// A term that no posting carries scores nothing: querying a term absent
/// from the index yields an empty mapping, not an error.
pub proof fn lemma_unmatched_term(ps: Seq<PostingModel>, ts: Seq<TermModel>, t: Seq<char>)
    requires
        forall|i: int| 0 <= i < ps.len() ==> (#[trigger] ps[i]).term != t,
    ensures
        score_model(ps, ts, t) == Seq::<(Seq<char>, nat)>::empty(),
    decreases ps.len(),
{
    if ps.len() > 0 {
        assert forall|i: int| 0 <= i < ps.drop_last().len() implies (#[trigger] ps.drop_last()[i]).term
            != t by {
            assert(ps.drop_last()[i] == ps[i]);
        }
        lemma_unmatched_term(ps.drop_last(), ts, t);
    }
}

/// A query none of whose terms is carried by any posting yields an empty
/// ranked result, not an error; the empty query does likewise.
pub proof fn lemma_unmatched_query(ps: Seq<PostingModel>, ts: Seq<TermModel>, q: Seq<Seq<char>>)
    requires
        forall|i: int, j: int|
            0 <= i < ps.len() && 0 <= j < q.len() ==> (#[trigger] ps[i]).term != (#[trigger] q[j]),
    ensures
        totals_model(ps, ts, q) == Seq::<(Seq<char>, nat)>::empty(),
        ranked_model(ps, ts, q) == Seq::<(Seq<char>, nat)>::empty(),
    decreases q.len(),
{
    if q.len() > 0 {
        assert forall|i: int, j: int|
            0 <= i < ps.len() && 0 <= j < q.drop_last().len() implies (#[trigger] ps[i]).term != (
            #[trigger] q.drop_last()[j]) by {
            assert(q.drop_last()[j] == q[j]);
        }
        lemma_unmatched_query(ps, ts, q.drop_last());
        assert forall|i: int| 0 <= i < ps.len() implies (#[trigger] ps[i]).term != q.last() by {
            assert(q[q.len() - 1] == q.last());
        }
        lemma_unmatched_term(ps, ts, q.last());
        assert(totals_model(ps, ts, q) == add_scores(
            totals_model(ps, ts, q.drop_last()),
            score_model(ps, ts, q.last()),
        ));
    }
}

/// Over an empty corpus every search returns an empty list, whatever the
/// query: a rebuild of zero documents succeeds with an empty generation,
/// and an empty generation matches nothing.
pub proof fn lemma_empty_corpus_search(ts: Seq<TermModel>, q: Seq<Seq<char>>)
    ensures
        names_of(Seq::<DocModel>::empty()) == Seq::<Seq<char>>::empty(),
        postings_model(Seq::<DocModel>::empty()) == Seq::<PostingModel>::empty(),
        terms_model(Seq::<DocModel>::empty()) == Seq::<TermModel>::empty(),
        ranked_model(Seq::<PostingModel>::empty(), ts, q) == Seq::<(Seq<char>, nat)>::empty(),
{
    assert(names_of(Seq::<DocModel>::empty()) =~= Seq::<Seq<char>>::empty());
    assert(terms_model(Seq::<DocModel>::empty()) =~= Seq::<TermModel>::empty());
    lemma_unmatched_query(Seq::<PostingModel>::empty(), ts, q);
}

impl<S> Engine<S> {
    /// The owned index store, for callers that persist or inspect it.
    pub fn index_store(&self) -> (r: &Index<S>)
        ensures
            *r == self.index_view(),
    {
        &self.index
    }
}

} // verus!
