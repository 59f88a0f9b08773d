//! The sparse query path: scan the posting list of every nonzero query
//! dimension, accumulate each candidate's score as the sum of query value
//! times posting value, and return every touched candidate ranked by
//! descending score, ties broken by ascending identifier.

use vstd::prelude::*;

verus! {

use crate::errors::ValidationError;
use crate::sparse::{InvertedIndex, SparseVector};

/// Whether a posting with identifier `id` occurs in `list`.
pub open spec fn contains_id(list: Seq<(u32, i64)>, id: u32) -> bool
    decreases list.len(),
{
    if list.len() == 0 {
        false
    } else {
        contains_id(list.drop_last(), id) || list.last().0 == id
    }
}

/// Sum of the values of the postings of `id` in one list.
pub open spec fn list_score(list: Seq<(u32, i64)>, id: u32) -> int
    decreases list.len(),
{
    if list.len() == 0 {
        0
    } else {
        list_score(list.drop_last(), id) + if list.last().0 == id {
            list.last().1 as int
        } else {
            0
        }
    }
}

/// Whether `id` occurs in any posting list of the query's dimensions.
pub open spec fn touched(entries: Seq<(u32, i64)>, index: InvertedIndex, id: u32) -> bool
    decreases entries.len(),
{
    if entries.len() == 0 {
        false
    } else {
        touched(entries.drop_last(), index, id) || contains_id(
            index.postings(entries.last().0),
            id,
        )
    }
}

/// The score of candidate `id` for a query: over every query entry `(d, qv)`,
/// the query value times the summed values of the candidate's postings on
/// dimension `d`.
pub open spec fn query_score(entries: Seq<(u32, i64)>, index: InvertedIndex, id: u32) -> int
    decreases entries.len(),
{
    if entries.len() == 0 {
        0
    } else {
        query_score(entries.drop_last(), index, id) + (entries.last().1 as int) * list_score(
            index.postings(entries.last().0),
            id,
        )
    }
}

/// One ranked search result: a candidate identifier and its score, in the
/// square of the caller's fixed-point scale.
#[derive(Debug, Clone, Copy, PartialEq, Eq, Structural)]
pub struct SparseAnnResult {
    pub vector_id: u32,
    pub score: i128,
}

/// The ranking order: higher score first, ties broken by lower identifier.
pub open spec fn ranked_before(a: SparseAnnResult, b: SparseAnnResult) -> bool {
    a.score > b.score || (a.score == b.score && a.vector_id < b.vector_id)
}

/// Whether some result in `rs` carries identifier `id`.
pub open spec fn results_have(rs: Seq<SparseAnnResult>, id: u32) -> bool {
    exists|k: int| 0 <= k < rs.len() && rs[k].vector_id == id
}

fn beats(a: &SparseAnnResult, b: &SparseAnnResult) -> (r: bool)
    ensures
        r == ranked_before(*a, *b),
{
    if a.score > b.score {
        true
    } else if a.score == b.score {
        a.vector_id < b.vector_id
    } else {
        false
    }
}

fn find_id(rs: &Vec<SparseAnnResult>, id: u32) -> (r: Option<usize>)
    ensures
        match r {
            Some(i) => i < rs@.len() && rs@[i as int].vector_id == id,
            None => forall|k: int| 0 <= k < rs@.len() ==> rs@[k].vector_id != id,
        },
{
    let mut i: usize = 0;
    while i < rs.len()
        invariant
            i <= rs@.len(),
            forall|k: int| 0 <= k < i ==> rs@[k].vector_id != id,
        decreases rs@.len() - i,
    {
        if rs[i].vector_id == id {
            return Some(i);
        }
        i += 1;
    }
    None
}

/// A per-request query over one sparse vector; it never mutates the index.
#[derive(Debug, Clone)]
pub struct SparseAnnQuery {
    pub query_vector: SparseVector,
}

impl SparseAnnQuery {
    /// Wraps the query vector.
    pub fn new(query_vector: SparseVector) -> (q: SparseAnnQuery)
        ensures
            q.query_vector == query_vector,
    {
        SparseAnnQuery { query_vector }
    }

    /// Scans the index and ranks every touched candidate.  The result holds
    /// exactly the identifiers that occur on some queried dimension, each
    /// once, each with its exact accumulated score, ordered by descending
    /// score and ascending identifier.
    pub fn sequential_search(&self, index: &InvertedIndex) -> (results: Vec<SparseAnnResult>)
        requires
            index.wf(),
            self.query_vector.wf(),
            self.query_vector.entries@.len() <= 0x1_0000_0000,
            forall|j: int|
                0 <= j < self.query_vector.entries@.len() ==> (#[trigger] index.postings(
                    self.query_vector.entries@[j].0,
                )).len() <= 0x1_0000_0000,
        ensures
            forall|i: int|
                0 <= i < results@.len() ==> touched(
                    self.query_vector.entries@,
                    *index,
                    (#[trigger] results@[i]).vector_id,
                ) && results@[i].score == query_score(
                    self.query_vector.entries@,
                    *index,
                    results@[i].vector_id,
                ),
            forall|id: u32|
                touched(self.query_vector.entries@, *index, id) ==> results_have(results@, id),
            forall|i: int, j: int|
                0 <= i < j < results@.len() ==> (#[trigger] results@[i]).vector_id != (
                #[trigger] results@[j]).vector_id,
            forall|i: int, j: int|
                0 <= i < j < results@.len() ==> ranked_before(results@[i], results@[j]),
    {
        let q = &self.query_vector.entries;
        let qseq = Ghost(self.query_vector.entries@);
        let mut acc: Vec<SparseAnnResult> = Vec::new();
        let ghost mut cnt: int = 0;
        let mut j: usize = 0;
        while j < q.len()
            invariant
                index.wf(),
                self.query_vector.wf(),
                qseq@ == self.query_vector.entries@,
                q@ == qseq@,
                qseq@.len() <= 0x1_0000_0000,
                forall|jj: int|
                    0 <= jj < qseq@.len() ==> (#[trigger] index.postings(qseq@[jj].0)).len()
                        <= 0x1_0000_0000,
                j <= qseq@.len(),
                0 <= cnt <= j * 0x1_0000_0000,
                forall|k: int|
                    0 <= k < acc@.len() ==> (#[trigger] acc@[k]).score == query_score(
                        qseq@.take(j as int),
                        *index,
                        acc@[k].vector_id,
                    ),
                forall|k: int|
                    0 <= k < acc@.len() ==> -0x4000_0000_0000_0000 * cnt <= (#[trigger] acc@[k]).score
                        <= 0x4000_0000_0000_0000 * cnt,
                forall|id: u32|
                    touched(qseq@.take(j as int), *index, id) <==> results_have(acc@, id),
                forall|k: int, l: int|
                    0 <= k < l < acc@.len() ==> (#[trigger] acc@[k]).vector_id != (
                    #[trigger] acc@[l]).vector_id,
            decreases qseq@.len() - j,
        {
            let d = q[j].0;
            let qv = q[j].1;
            proof {
                assert(qseq@.take(j as int + 1).drop_last() =~= qseq@.take(j as int));
                assert(qseq@.take(j as int + 1).last() == qseq@[j as int]);
            }
            match index.get_list(d) {
                None => {
                    proof {
                        assert(list_score(index.postings(d), 0u32) == 0);
                        assert forall|id: u32|
                            query_score(qseq@.take(j as int + 1), *index, id) == query_score(
                                qseq@.take(j as int),
                                *index,
                                id,
                            ) && (touched(qseq@.take(j as int + 1), *index, id) <==> touched(
                                qseq@.take(j as int),
                                *index,
                                id,
                            )) by {
                            assert(list_score(index.postings(d), id) == 0);
                            assert(!contains_id(index.postings(d), id));
                            assert((qv as int) * 0 == 0) by (nonlinear_arith);
                        }
                        assert(cnt <= (j as int + 1) * 0x1_0000_0000) by (nonlinear_arith)
                            requires
                                cnt <= j * 0x1_0000_0000,
                                j >= 0,
                        ;
                    }
                },
                Some(list) => {
                    let ghost lseq = list@;
                    let ghost cnt0 = cnt;
                    let mut p: usize = 0;
                    while p < list.len()
                        invariant
                            index.wf(),
                            qseq@ == self.query_vector.entries@,
                            self.query_vector.wf(),
                            qseq@.len() <= 0x1_0000_0000,
                            j < qseq@.len(),
                            d == qseq@[j as int].0,
                            qv == qseq@[j as int].1,
                            lseq == list@,
                            lseq == index.postings(d),
                            lseq.len() <= 0x1_0000_0000,
                            p <= lseq.len(),
                            cnt == cnt0 + p,
                            0 <= cnt0 <= j * 0x1_0000_0000,
                            forall|k: int|
                                0 <= k < acc@.len() ==> (#[trigger] acc@[k]).score == query_score(
                                    qseq@.take(j as int),
                                    *index,
                                    acc@[k].vector_id,
                                ) + (qv as int) * list_score(
                                    lseq.take(p as int),
                                    acc@[k].vector_id,
                                ),
                            forall|k: int|
                                0 <= k < acc@.len() ==> -0x4000_0000_0000_0000 * cnt <= (
                                #[trigger] acc@[k]).score <= 0x4000_0000_0000_0000 * cnt,
                            forall|id: u32|
                                (touched(qseq@.take(j as int), *index, id) || contains_id(
                                    lseq.take(p as int),
                                    id,
                                )) <==> results_have(acc@, id),
                            forall|k: int, l: int|
                                0 <= k < l < acc@.len() ==> (#[trigger] acc@[k]).vector_id != (
                                #[trigger] acc@[l]).vector_id,
                        decreases lseq.len() - p,
                    {
                        let cid = list[p].0;
                        let cv = list[p].1;
                        proof {
                            assert(-0x8000_0000 <= qv <= 0x8000_0000) by {
                                assert(crate::sparse::values_in_range(qseq@));
                                assert(qseq@[j as int].1 == qv);
                            }
                            assert(-0x8000_0000 <= cv <= 0x8000_0000) by {
                                crate::sparse::lemma_lookup_in_range(
                                    index.dims@,
                                    index.lists@,
                                    d,
                                );
                                assert(crate::sparse::values_in_range(lseq));
                                assert(lseq[p as int].1 == cv);
                            }
                            assert(-0x4000_0000_0000_0000 <= (qv as int) * (cv as int)
                                <= 0x4000_0000_0000_0000) by (nonlinear_arith)
                                requires
                                    -0x8000_0000 <= qv <= 0x8000_0000,
                                    -0x8000_0000 <= cv <= 0x8000_0000,
                            ;
                        }
                        let term: i128 = (qv as i128) * (cv as i128);
                        proof {
                            assert(lseq.take(p as int + 1).drop_last() =~= lseq.take(p as int));
                            assert(lseq.take(p as int + 1).last() == lseq[p as int]);
                            assert forall|id: u32|
                                (qv as int) * list_score(lseq.take(p as int + 1), id) == (qv as int)
                                    * list_score(lseq.take(p as int), id) + (if id == cid {
                                    (qv as int) * (cv as int)
                                } else {
                                    0int
                                }) by {
                                let a = list_score(lseq.take(p as int), id);
                                if id == cid {
                                    assert(list_score(lseq.take(p as int + 1), id) == a + cv);
                                    assert((qv as int) * (a + cv) == (qv as int) * a + (qv as int)
                                        * (cv as int)) by (nonlinear_arith);
                                } else {
                                    assert(list_score(lseq.take(p as int + 1), id) == a);
                                }
                            }
                        }
                        match find_id(&acc, cid) {
                            Some(i) => {
                                let prev = acc[i];
                                let ghost accpre = acc@;
                                acc[i] = SparseAnnResult {
                                    vector_id: cid,
                                    score: prev.score + term,
                                };
                                proof {
                                    assert(acc@ =~= accpre.update(
                                        i as int,
                                        SparseAnnResult {
                                            vector_id: cid,
                                            score: (prev.score + term) as i128,
                                        },
                                    ));
                                    assert forall|id: u32|
                                        (touched(qseq@.take(j as int), *index, id) || contains_id(
                                            lseq.take(p as int + 1),
                                            id,
                                        )) <==> results_have(acc@, id) by {
                                        assert(results_have(acc@, id) == results_have(
                                            accpre,
                                            id,
                                        )) by {
                                            if results_have(accpre, id) {
                                                let w = choose|k: int|
                                                    0 <= k < accpre.len() && accpre[k].vector_id
                                                        == id;
                                                assert(acc@[w].vector_id == id);
                                            }
                                            if results_have(acc@, id) {
                                                let w = choose|k: int|
                                                    0 <= k < acc@.len() && acc@[k].vector_id == id;
                                                assert(accpre[w].vector_id == id);
                                            }
                                        }
                                        if id == cid {
                                            assert(results_have(accpre, id)) by {
                                                assert(accpre[i as int].vector_id == id);
                                            }
                                        }
                                    }
                                }
                            },
                            None => {
                                let ghost accpre = acc@;
                                acc.push(SparseAnnResult { vector_id: cid, score: term });
                                proof {
                                    assert forall|id: u32|
                                        (touched(qseq@.take(j as int), *index, id) || contains_id(
                                            lseq.take(p as int + 1),
                                            id,
                                        )) <==> results_have(acc@, id) by {
                                        if id == cid {
                                            assert(acc@[acc@.len() - 1].vector_id == id);
                                        } else {
                                            if results_have(accpre, id) {
                                                let w = choose|k: int|
                                                    0 <= k < accpre.len() && accpre[k].vector_id
                                                        == id;
                                                assert(acc@[w].vector_id == id);
                                            }
                                            if results_have(acc@, id) {
                                                let w = choose|k: int|
                                                    0 <= k < acc@.len() && acc@[k].vector_id == id;
                                                assert(w < accpre.len());
                                                assert(accpre[w].vector_id == id);
                                            }
                                        }
                                    }
                                    assert(query_score(qseq@.take(j as int), *index, cid) + (
                                    qv as int) * list_score(lseq.take(p as int), cid) == 0) by {
                                        assert(!results_have(accpre, cid));
                                        assert(!touched(qseq@.take(j as int), *index, cid)
                                            && !contains_id(lseq.take(p as int), cid));
                                        lemma_untouched_score_zero(
                                            qseq@.take(j as int),
                                            *index,
                                            cid,
                                        );
                                        lemma_uncontained_list_score_zero(
                                            lseq.take(p as int),
                                            cid,
                                        );
                                        assert((qv as int) * 0 == 0) by (nonlinear_arith);
                                    }
                                }
                            },
                        }
                        proof {
                            cnt = cnt + 1;
                        }
                        p += 1;
                    }
                    proof {
                        assert(lseq.take(lseq.len() as int) =~= lseq);
                        assert forall|id: u32|
                            query_score(qseq@.take(j as int + 1), *index, id) == query_score(
                                qseq@.take(j as int),
                                *index,
                                id,
                            ) + (qv as int) * list_score(lseq, id) && (touched(
                                qseq@.take(j as int + 1),
                                *index,
                                id,
                            ) <==> (touched(qseq@.take(j as int), *index, id) || contains_id(
                                lseq,
                                id,
                            ))) by {}
                        assert(cnt <= (j as int + 1) * 0x1_0000_0000) by (nonlinear_arith)
                            requires
                                cnt <= j * 0x1_0000_0000 + 0x1_0000_0000,
                                j >= 0,
                        ;
                    }
                },
            }
            j += 1;
        }
        proof {
            assert(qseq@.take(qseq@.len() as int) =~= qseq@);
            assert forall|k: int|
                0 <= k < acc@.len() implies result_exact(#[trigger] acc@[k], qseq@, *index) by {
                let id = acc@[k].vector_id;
                assert(results_have(acc@, id)) by {
                    assert(acc@[k].vector_id == id);
                }
                assert(touched(qseq@, *index, id));
            }
        }
        sort_results(&mut acc, Ghost(qseq@), Ghost(*index));
        acc
    }

    /// Like `sequential_search`, keeping only the `k` best-ranked results:
    /// the returned results are exact and ranked, and when a touched
    /// candidate is left out, the result list is full and every kept result
    /// ranks before it.
    pub fn search_top_k(&self, index: &InvertedIndex, k: usize) -> (results: Vec<SparseAnnResult>)
        requires
            index.wf(),
            self.query_vector.wf(),
            self.query_vector.entries@.len() <= 0x1_0000_0000,
            forall|j: int|
                0 <= j < self.query_vector.entries@.len() ==> (#[trigger] index.postings(
                    self.query_vector.entries@[j].0,
                )).len() <= 0x1_0000_0000,
        ensures
            results@.len() <= k,
            forall|i: int|
                0 <= i < results@.len() ==> touched(
                    self.query_vector.entries@,
                    *index,
                    (#[trigger] results@[i]).vector_id,
                ) && results@[i].score == query_score(
                    self.query_vector.entries@,
                    *index,
                    results@[i].vector_id,
                ),
            forall|i: int, j: int|
                0 <= i < j < results@.len() ==> (#[trigger] results@[i]).vector_id != (
                #[trigger] results@[j]).vector_id,
            forall|i: int, j: int|
                0 <= i < j < results@.len() ==> ranked_before(results@[i], results@[j]),
            forall|id: u32|
                touched(self.query_vector.entries@, *index, id) && !results_have(results@, id)
                    ==> results@.len() == k && forall|i: int|
                    0 <= i < results@.len() ==> (#[trigger] results@[i]).score > query_score(
                        self.query_vector.entries@,
                        *index,
                        id,
                    ) || (results@[i].score == query_score(self.query_vector.entries@, *index, id)
                        && results@[i].vector_id < id),
    {
        let mut results = self.sequential_search(index);
        let ghost full = results@;
        if results.len() > k {
            results.truncate(k);
        }
        proof {
            let qe = self.query_vector.entries@;
            assert forall|id: u32|
                touched(qe, *index, id) && !results_have(results@, id) implies results@.len() == k
                && forall|i: int|
                0 <= i < results@.len() ==> (#[trigger] results@[i]).score > query_score(
                    qe,
                    *index,
                    id,
                ) || (results@[i].score == query_score(qe, *index, id) && results@[i].vector_id
                    < id) by {
                assert(results_have(full, id));
                let w = choose|w: int| 0 <= w < full.len() && full[w].vector_id == id;
                if w < results@.len() {
                    assert(results@[w].vector_id == id);
                    assert(results_have(results@, id));
                }
                assert(w >= results@.len());
                assert(full.len() > k);
                assert forall|i: int|
                    0 <= i < results@.len() implies (#[trigger] results@[i]).score > query_score(
                    qe,
                    *index,
                    id,
                ) || (results@[i].score == query_score(qe, *index, id) && results@[i].vector_id
                    < id) by {
                    assert(results@[i] == full[i]);
                    assert(ranked_before(full[i], full[w]));
                    assert(full[w].score == query_score(qe, *index, id));
                }
            }
        }
        results
    }
}

/// What accumulation guarantees of every element handed to the sort: the
/// identifier was touched by the query and carries its exact score.
pub open spec fn result_exact(r: SparseAnnResult, qe: Seq<(u32, i64)>, index: InvertedIndex) -> bool {
    touched(qe, index, r.vector_id) && r.score == query_score(qe, index, r.vector_id)
}

/// A candidate on no queried posting list has score zero.
proof fn lemma_untouched_score_zero(entries: Seq<(u32, i64)>, index: InvertedIndex, id: u32)
    requires
        !touched(entries, index, id),
    ensures
        query_score(entries, index, id) == 0,
    decreases entries.len(),
{
    if entries.len() > 0 {
        lemma_untouched_score_zero(entries.drop_last(), index, id);
        lemma_uncontained_list_score_zero(index.postings(entries.last().0), id);
        assert((entries.last().1 as int) * 0 == 0) by (nonlinear_arith);
    }
}

/// A candidate absent from a list contributes nothing to its sum there.
proof fn lemma_uncontained_list_score_zero(list: Seq<(u32, i64)>, id: u32)
    requires
        !contains_id(list, id),
    ensures
        list_score(list, id) == 0,
    decreases list.len(),
{
    if list.len() > 0 {
        lemma_uncontained_list_score_zero(list.drop_last(), id);
    }
}

/// Sorts results in place by descending score, ties by ascending
/// identifier, preserving the identifiers present, their uniqueness, and the
/// exactness of every element's score.
fn sort_results(
    results: &mut Vec<SparseAnnResult>,
    Ghost(qe): Ghost<Seq<(u32, i64)>>,
    Ghost(index): Ghost<InvertedIndex>,
)
    requires
        forall|k: int, l: int|
            0 <= k < l < old(results)@.len() ==> (#[trigger] old(results)@[k]).vector_id != (
            #[trigger] old(results)@[l]).vector_id,
        forall|k: int|
            0 <= k < old(results)@.len() ==> result_exact(#[trigger] old(results)@[k], qe, index),
    ensures
        final(results)@.len() == old(results)@.len(),
        forall|k: int|
            0 <= k < final(results)@.len() ==> result_exact(
                #[trigger] final(results)@[k],
                qe,
                index,
            ),
        forall|id: u32| results_have(old(results)@, id) ==> results_have(final(results)@, id),
        forall|k: int, l: int|
            0 <= k < l < final(results)@.len() ==> (#[trigger] final(results)@[k]).vector_id != (
            #[trigger] final(results)@[l]).vector_id,
        forall|k: int, l: int|
            0 <= k < l < final(results)@.len() ==> ranked_before(
                final(results)@[k],
                final(results)@[l],
            ),
{
    let ghost orig = results@;
    let mut i: usize = 1;
    while i < results.len()
        invariant
            results@.len() == orig.len(),
            forall|k: int|
                0 <= k < results@.len() ==> result_exact(#[trigger] results@[k], qe, index),
            forall|id: u32| results_have(orig, id) ==> results_have(results@, id),
            forall|k: int, l: int|
                0 <= k < l < results@.len() ==> (#[trigger] results@[k]).vector_id != (
                #[trigger] results@[l]).vector_id,
            1 <= i,
            i <= results@.len() || results@.len() <= 1,
            forall|k: int, l: int| 0 <= k < l < i ==> ranked_before(results@[k], results@[l]),
        decreases results@.len() - i,
    {
        let mut jj: usize = i;
        while jj > 0 && beats(&results[jj], &results[jj - 1])
            invariant
                results@.len() == orig.len(),
                forall|k: int|
                    0 <= k < results@.len() ==> result_exact(#[trigger] results@[k], qe, index),
                forall|id: u32| results_have(orig, id) ==> results_have(results@, id),
                forall|k: int, l: int|
                    0 <= k < l < results@.len() ==> (#[trigger] results@[k]).vector_id != (
                    #[trigger] results@[l]).vector_id,
                i < results@.len(),
                0 <= jj <= i,
                forall|k: int, l: int|
                    0 <= k < l <= i && l != jj ==> ranked_before(results@[k], results@[l]),
                forall|l: int| jj < l <= i ==> ranked_before(results@[jj as int], results@[l]),
            decreases jj,
        {
            let ghost pre = results@;
            let ra = results[jj - 1];
            let rb = results[jj];
            results[jj - 1] = rb;
            results[jj] = ra;
            proof {
                assert(results@ =~= pre.update(jj - 1, rb).update(jj as int, ra));
                assert forall|id: u32|
                    results_have(orig, id) implies results_have(results@, id) by {
                    assert(results_have(pre, id));
                    let w = choose|k: int| 0 <= k < pre.len() && pre[k].vector_id == id;
                    if w == jj - 1 {
                        assert(results@[jj as int].vector_id == id);
                    } else if w == jj {
                        assert(results@[jj - 1].vector_id == id);
                    } else {
                        assert(results@[w].vector_id == id);
                    }
                }
            }
            jj -= 1;
        }
        proof {
            if jj > 0 {
                assert(!ranked_before(results@[jj as int], results@[jj - 1]));
                assert(ranked_before(results@[jj - 1], results@[jj as int]));
                assert forall|k: int, l: int|
                    0 <= k < l <= i implies ranked_before(results@[k], results@[l]) by {
                    if l == jj {
                        if k < jj - 1 {
                            assert(ranked_before(results@[k], results@[jj - 1]));
                        }
                    }
                }
            }
        }
        i += 1;
    }
}

} // verus!
