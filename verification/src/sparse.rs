//! Sparse vectors and the inverted index: a dimension-to-posting-list map
//! whose lists only ever grow.  Values are plain fixed-point integers in the
//! caller's chosen scale, bounded so that query scores can never overflow.
//!
//! Insertion appends one posting per nonzero entry; a failed insertion leaves
//! the index untouched.  Posting lists preserve insertion order but promise
//! only membership: two interleaved producers may interleave their postings.

use vstd::prelude::*;

verus! {

use vstd::seq_lib::lemma_multiset_commutative;
use crate::errors::{ValidationError, IndexError};

/// Greatest magnitude a sparse value may take: 2^31, the widest bound under
/// which a query score provably fits its 128-bit type — a product of two
/// values spans at most 62 bits, and a search accumulates at most 2^64 such
/// products (2^32 query dimensions of 2^32 postings each).
pub const VALUE_LIMIT: i64 = 2147483648;

/// Entries are strictly ascending by dimension: sorted and duplicate-free.
pub open spec fn entries_sorted(entries: Seq<(u32, i64)>) -> bool {
    forall|i: int, j: int|
        0 <= i < j < entries.len() ==> (#[trigger] entries[i]).0 < (#[trigger] entries[j]).0
}

/// Every value lies within the engine's fixed-point range.
pub open spec fn values_in_range(entries: Seq<(u32, i64)>) -> bool {
    forall|i: int|
        0 <= i < entries.len() ==> -VALUE_LIMIT <= (#[trigger] entries[i]).1 <= VALUE_LIMIT
}

/// A chain of ascending adjacent dimensions is strictly sorted throughout.
proof fn lemma_adjacent_implies_sorted(entries: Seq<(u32, i64)>)
    requires
        forall|i: int|
            0 <= i < entries.len() - 1 ==> (#[trigger] entries[i]).0 < entries[i + 1].0,
    ensures
        entries_sorted(entries),
{
    assert forall|i: int, j: int|
        0 <= i < j < entries.len() implies (#[trigger] entries[i]).0
        < (#[trigger] entries[j]).0 by {
        lemma_chain_ascending(entries, i, j);
    }
}

proof fn lemma_chain_ascending(entries: Seq<(u32, i64)>, i: int, j: int)
    requires
        forall|k: int|
            0 <= k < entries.len() - 1 ==> (#[trigger] entries[k]).0 < entries[k + 1].0,
        0 <= i < j < entries.len(),
    ensures
        entries[i].0 < entries[j].0,
    decreases j - i,
{
    if j > i + 1 {
        lemma_chain_ascending(entries, i, j - 1);
    }
}

/// Checks that entries are strictly ascending by dimension.
fn check_sorted(entries: &Vec<(u32, i64)>) -> (b: bool)
    ensures
        b == entries_sorted(entries@),
{
    let mut i: usize = 1;
    while i < entries.len()
        invariant
            1 <= i,
            i <= entries@.len() || entries@.len() == 0,
            forall|k: int| 0 <= k < i - 1 ==> (#[trigger] entries@[k]).0 < entries@[k + 1].0,
        decreases entries@.len() - i,
    {
        if entries[i - 1].0 >= entries[i].0 {
            return false;
        }
        i += 1;
    }
    proof {
        lemma_adjacent_implies_sorted(entries@);
    }
    true
}

/// Checks that every value lies within the engine's range.
fn check_values(entries: &Vec<(u32, i64)>) -> (b: bool)
    ensures
        b == values_in_range(entries@),
{
    let mut i: usize = 0;
    while i < entries.len()
        invariant
            i <= entries@.len(),
            forall|k: int|
                0 <= k < i ==> -VALUE_LIMIT <= (#[trigger] entries@[k]).1 <= VALUE_LIMIT,
        decreases entries@.len() - i,
    {
        let v = entries[i].1;
        if v < -VALUE_LIMIT || v > VALUE_LIMIT {
            return false;
        }
        i += 1;
    }
    true
}

/// A sparse vector: an identifier and its nonzero (dimension, value) entries,
/// strictly ascending by dimension.
#[derive(Debug, Clone)]
pub struct SparseVector {
    pub vector_id: u32,
    pub entries: Vec<(u32, i64)>,
}

impl SparseVector {
    /// Entries strictly ascending and values within range.
    pub open spec fn wf(self) -> bool {
        entries_sorted(self.entries@) && values_in_range(self.entries@)
    }

    /// Builds a sparse vector after validating its entries.
    pub fn new(vector_id: u32, entries: Vec<(u32, i64)>) -> (r: Result<
        SparseVector,
        ValidationError,
    >)
        ensures
            entries_sorted(entries@) && values_in_range(entries@) ==> (r matches Ok(v)
                && v.vector_id == vector_id && v.entries@ == entries@ && v.wf()),
            !entries_sorted(entries@) ==> r == Err::<SparseVector, ValidationError>(
                ValidationError::UnsortedEntries,
            ),
            entries_sorted(entries@) && !values_in_range(entries@) ==> r == Err::<
                SparseVector,
                ValidationError,
            >(ValidationError::ValueOutOfRange),
    {
        if !check_sorted(&entries) {
            return Err(ValidationError::UnsortedEntries);
        }
        if !check_values(&entries) {
            return Err(ValidationError::ValueOutOfRange);
        }
        Ok(SparseVector { vector_id, entries })
    }
}

/// The postings contributed by one sparse vector to dimension `d`: one
/// `(vector_id, value)` pair for each of its entries on that dimension.
pub open spec fn entry_postings(id: u32, entries: Seq<(u32, i64)>, d: u32) -> Seq<(u32, i64)>
    decreases entries.len(),
{
    if entries.len() == 0 {
        Seq::empty()
    } else {
        let rest = entry_postings(id, entries.drop_last(), d);
        if entries.last().0 == d {
            rest.push((id, entries.last().1))
        } else {
            rest
        }
    }
}

/// The posting list held for dimension `d` by parallel dimension and list
/// sequences; empty when the dimension has never been seen.
pub open spec fn lookup_list(dims: Seq<u32>, lists: Seq<Vec<(u32, i64)>>, d: u32) -> Seq<
    (u32, i64),
>
    decreases dims.len(),
{
    if dims.len() == 0 || lists.len() == 0 {
        Seq::empty()
    } else if dims.last() == d {
        lists.last()@
    } else {
        lookup_list(dims.drop_last(), lists.drop_last(), d)
    }
}

/// The inverted index: per-dimension posting lists that only grow.
#[derive(Debug)]
pub struct InvertedIndex {
    pub dims: Vec<u32>,
    pub lists: Vec<Vec<(u32, i64)>>,
}

/// When a dimension occurs at position `i`, the lookup returns list `i`.
proof fn lemma_lookup_found(dims: Seq<u32>, lists: Seq<Vec<(u32, i64)>>, d: u32, i: int)
    requires
        dims.len() == lists.len(),
        0 <= i < dims.len(),
        dims[i] == d,
        forall|p: int, q: int| 0 <= p < q < dims.len() ==> dims[p] != dims[q],
    ensures
        lookup_list(dims, lists, d) == lists[i]@,
    decreases dims.len(),
{
    if i == dims.len() - 1 {
    } else {
        assert(dims.last() != d);
        lemma_lookup_found(dims.drop_last(), lists.drop_last(), d, i);
    }
}

/// A dimension that occurs nowhere has an empty posting list.
proof fn lemma_lookup_missing(dims: Seq<u32>, lists: Seq<Vec<(u32, i64)>>, d: u32)
    requires
        dims.len() == lists.len(),
        forall|i: int| 0 <= i < dims.len() ==> dims[i] != d,
    ensures
        lookup_list(dims, lists, d) == Seq::<(u32, i64)>::empty(),
    decreases dims.len(),
{
    if dims.len() > 0 {
        lemma_lookup_missing(dims.drop_last(), lists.drop_last(), d);
    }
}

/// Every posting list that a lookup can return keeps its values in range.
pub proof fn lemma_lookup_in_range(dims: Seq<u32>, lists: Seq<Vec<(u32, i64)>>, d: u32)
    requires
        dims.len() == lists.len(),
        forall|i: int| 0 <= i < lists.len() ==> values_in_range((#[trigger] lists[i])@),
    ensures
        values_in_range(lookup_list(dims, lists, d)),
    decreases dims.len(),
{
    if dims.len() == 0 {
        assert(values_in_range(Seq::<(u32, i64)>::empty()));
    } else if dims.last() == d {
        assert(lists.last() == lists[lists.len() - 1]);
    } else {
        assert(forall|i: int|
            0 <= i < lists.drop_last().len() ==> values_in_range(
                (#[trigger] lists.drop_last()[i])@,
            ));
        lemma_lookup_in_range(dims.drop_last(), lists.drop_last(), d);
    }
}

/// Replacing list `i` only changes the lookup of the dimension stored there.
proof fn lemma_lookup_update(
    dims: Seq<u32>,
    lists: Seq<Vec<(u32, i64)>>,
    i: int,
    nl: Vec<(u32, i64)>,
    d: u32,
)
    requires
        dims.len() == lists.len(),
        0 <= i < lists.len(),
        dims[i] != d,
    ensures
        lookup_list(dims, lists.update(i, nl), d) == lookup_list(dims, lists, d),
    decreases dims.len(),
{
    let lists2 = lists.update(i, nl);
    if dims.last() == d {
        assert(i != dims.len() - 1);
        assert(lists2.last() == lists.last());
    } else {
        if i == dims.len() - 1 {
            assert(lists2.drop_last() =~= lists.drop_last());
        } else {
            assert(lists2.drop_last() =~= lists.drop_last().update(i, nl));
            lemma_lookup_update(dims.drop_last(), lists.drop_last(), i, nl, d);
        }
    }
}

impl InvertedIndex {
    /// Dimensions unique, one list per dimension, values within range.
    pub open spec fn wf(self) -> bool {
        &&& self.dims@.len() == self.lists@.len()
        &&& forall|p: int, q: int|
            0 <= p < q < self.dims@.len() ==> self.dims@[p] != self.dims@[q]
        &&& forall|i: int|
            0 <= i < self.lists@.len() ==> values_in_range((#[trigger] self.lists@[i])@)
    }

    /// The posting list of dimension `d`.
    pub open spec fn postings(self, d: u32) -> Seq<(u32, i64)> {
        lookup_list(self.dims@, self.lists@, d)
    }

    /// An empty index: every posting list is empty.
    pub fn new() -> (idx: InvertedIndex)
        ensures
            idx.wf(),
            forall|d: u32| #[trigger] idx.postings(d) == Seq::<(u32, i64)>::empty(),
    {
        InvertedIndex { dims: Vec::new(), lists: Vec::new() }
    }

    /// Position of dimension `d`, if it has been seen.
    fn find_dim(&self, d: u32) -> (r: Option<usize>)
        ensures
            match r {
                Some(i) => i < self.dims@.len() && self.dims@[i as int] == d,
                None => forall|i: int| 0 <= i < self.dims@.len() ==> self.dims@[i] != d,
            },
    {
        let mut i: usize = 0;
        while i < self.dims.len()
            invariant
                i <= self.dims@.len(),
                forall|k: int| 0 <= k < i ==> self.dims@[k] != d,
            decreases self.dims@.len() - i,
        {
            if self.dims[i] == d {
                return Some(i);
            }
            i += 1;
        }
        None
    }

    /// The posting list of dimension `d`, or nothing when the dimension has
    /// never been seen.
    pub fn get_list(&self, d: u32) -> (r: Option<&Vec<(u32, i64)>>)
        requires
            self.wf(),
        ensures
            match r {
                Some(l) => l@ == self.postings(d),
                None => self.postings(d) == Seq::<(u32, i64)>::empty(),
            },
    {
        match self.find_dim(d) {
            Some(i) => {
                proof {
                    lemma_lookup_found(self.dims@, self.lists@, d, i as int);
                }
                Some(&self.lists[i])
            },
            None => {
                proof {
                    lemma_lookup_missing(self.dims@, self.lists@, d);
                }
                None
            },
        }
    }

    /// Appends one posting per entry of `vector`: entry `(d, v)` adds
    /// `(vector.vector_id, v)` to the posting list of dimension `d`.
    /// A malformed vector is rejected before any mutation.  Duplicate
    /// identifiers are not deduplicated: inserting the same id twice leaves
    /// two postings.
    pub fn add_sparse_vector(&mut self, vector: &SparseVector) -> (r: Result<(), IndexError>)
        requires
            old(self).wf(),
        ensures
            final(self).wf(),
            !vector.wf() ==> r == Err::<(), IndexError>(IndexError::MalformedEntries)
                && *final(self) == *old(self),
            vector.wf() ==> r == Ok::<(), IndexError>(()) && forall|d: u32|
                #[trigger] final(self).postings(d) == old(self).postings(d) + entry_postings(
                    vector.vector_id,
                    vector.entries@,
                    d,
                ),
    {
        if !check_sorted(&vector.entries) {
            return Err(IndexError::MalformedEntries);
        }
        if !check_values(&vector.entries) {
            return Err(IndexError::MalformedEntries);
        }
        let id = vector.vector_id;
        let mut j: usize = 0;
        while j < vector.entries.len()
            invariant
                self.wf(),
                vector.wf(),
                id == vector.vector_id,
                j <= vector.entries@.len(),
                forall|d: u32|
                    #[trigger] self.postings(d) == old(self).postings(d) + entry_postings(
                        id,
                        vector.entries@.take(j as int),
                        d,
                    ),
            decreases vector.entries@.len() - j,
        {
            let ghost pre = *self;
            let e = vector.entries[j];
            let d0 = e.0;
            let posting = (id, e.1);
            match self.find_dim(d0) {
                Some(i) => {
                    let ghost oldlist = self.lists@[i as int];
                    self.lists[i].push(posting);
                    proof {
                        assert(self.dims@ == pre.dims@);
                        assert(self.lists@ =~= pre.lists@.update(
                            i as int,
                            self.lists@[i as int],
                        ));
                        assert(self.lists@[i as int]@ =~= oldlist@.push(posting));
                        assert(pre.dims@[i as int] == d0);
                        assert(pre.wf());
                        assert forall|d: u32| #[trigger]
                            self.postings(d) == old(self).postings(d) + entry_postings(
                                id,
                                vector.entries@.take(j as int + 1),
                                d,
                            ) by {
                            assert(vector.entries@.take(j as int + 1).drop_last()
                                =~= vector.entries@.take(j as int));
                            assert(vector.entries@.take(j as int + 1).last()
                                == vector.entries@[j as int]);
                            assert(pre.postings(d) == old(self).postings(d) + entry_postings(
                                id,
                                vector.entries@.take(j as int),
                                d,
                            ));
                            if d == d0 {
                                lemma_lookup_found(pre.dims@, pre.lists@, d, i as int);
                                lemma_lookup_found(self.dims@, self.lists@, d, i as int);
                                assert(self.postings(d) == self.lists@[i as int]@);
                                assert(pre.postings(d) == oldlist@);
                                assert(self.postings(d) =~= pre.postings(d).push(posting));
                                assert(entry_postings(id, vector.entries@.take(j as int + 1), d)
                                    == entry_postings(
                                    id,
                                    vector.entries@.take(j as int),
                                    d,
                                ).push(posting));
                                assert(pre.postings(d).push(posting) =~= old(self).postings(d)
                                    + entry_postings(
                                    id,
                                    vector.entries@.take(j as int + 1),
                                    d,
                                ));
                            } else {
                                lemma_lookup_update(
                                    pre.dims@,
                                    pre.lists@,
                                    i as int,
                                    self.lists@[i as int],
                                    d,
                                );
                                assert(lookup_list(pre.dims@, self.lists@, d) == lookup_list(
                                    pre.dims@,
                                    pre.lists@,
                                    d,
                                ));
                                assert(self.postings(d) == pre.postings(d));
                                assert(entry_postings(id, vector.entries@.take(j as int + 1), d)
                                    == entry_postings(id, vector.entries@.take(j as int), d));
                            }
                        }
                    }
                },
                None => {
                    let mut nl: Vec<(u32, i64)> = Vec::new();
                    nl.push(posting);
                    self.dims.push(d0);
                    self.lists.push(nl);
                    proof {
                        assert forall|d: u32| #[trigger]
                            self.postings(d) == old(self).postings(d) + entry_postings(
                                id,
                                vector.entries@.take(j as int + 1),
                                d,
                            ) by {
                            assert(vector.entries@.take(j as int + 1).drop_last()
                                =~= vector.entries@.take(j as int));
                            assert(vector.entries@.take(j as int + 1).last()
                                == vector.entries@[j as int]);
                            if d == d0 {
                                lemma_lookup_missing(pre.dims@, pre.lists@, d);
                                assert(self.postings(d) =~= nl@);
                                assert(pre.postings(d) =~= Seq::<(u32, i64)>::empty());
                                assert(nl@ =~= pre.postings(d).push(posting));
                                assert(pre.postings(d).push(posting) =~= old(self).postings(d)
                                    + entry_postings(
                                    id,
                                    vector.entries@.take(j as int + 1),
                                    d,
                                ));
                            } else {
                                assert(self.dims@.drop_last() =~= pre.dims@);
                                assert(self.lists@.drop_last() =~= pre.lists@);
                                assert(self.postings(d) == pre.postings(d));
                            }
                        }
                    }
                },
            }
            j += 1;
        }
        proof {
            assert(vector.entries@.take(vector.entries@.len() as int) =~= vector.entries@);
        }
        Ok(())
    }
}

/// Insertion order independence: whichever of two vectors' postings land
/// first on a dimension's list, the list's membership — as a multiset — is
/// the same.
pub proof fn lemma_insertion_order_membership(
    base: Seq<(u32, i64)>,
    pa: Seq<(u32, i64)>,
    pb: Seq<(u32, i64)>,
)
    ensures
        ((base + pa) + pb).to_multiset() == ((base + pb) + pa).to_multiset(),
{
    broadcast use vstd::multiset::group_multiset_axioms;

    lemma_multiset_commutative(base + pa, pb);
    lemma_multiset_commutative(base, pa);
    lemma_multiset_commutative(base + pb, pa);
    lemma_multiset_commutative(base, pb);
    assert(((base + pa) + pb).to_multiset() =~= ((base + pb) + pa).to_multiset());
}

} // verus!
