use cosdata::errors::{IndexError, ValidationError};
use cosdata::query::{SparseAnnQuery, SparseAnnResult};
use cosdata::sparse::{InvertedIndex, SparseVector};

fn sv(id: u32, entries: Vec<(u32, i64)>) -> SparseVector {
    SparseVector::new(id, entries).unwrap()
}

#[test]
fn sparse_vector_validation() {
    assert!(SparseVector::new(1, vec![(0, 10), (3, 20), (7, 5)]).is_ok());
    assert_eq!(
        SparseVector::new(1, vec![(3, 10), (3, 20)]).unwrap_err(),
        ValidationError::UnsortedEntries
    );
    assert_eq!(
        SparseVector::new(1, vec![(5, 10), (2, 20)]).unwrap_err(),
        ValidationError::UnsortedEntries
    );
    assert_eq!(
        SparseVector::new(1, vec![(0, 3_000_000_000)]).unwrap_err(),
        ValidationError::ValueOutOfRange
    );
}

#[test]
fn malformed_insert_leaves_index_unchanged() {
    let mut index = InvertedIndex::new();
    index.add_sparse_vector(&sv(1, vec![(0, 7)])).unwrap();
    let bad = SparseVector { vector_id: 2, entries: vec![(4, 1), (2, 1)] };
    assert_eq!(
        index.add_sparse_vector(&bad).unwrap_err(),
        IndexError::MalformedEntries
    );
    assert_eq!(index.get_list(0).unwrap().clone(), vec![(1u32, 7i64)]);
    assert!(index.get_list(2).is_none());
    assert!(index.get_list(4).is_none());
}

#[test]
fn postings_preserve_insertion_order_and_duplicates() {
    let mut index = InvertedIndex::new();
    index.add_sparse_vector(&sv(1, vec![(0, 10)])).unwrap();
    index.add_sparse_vector(&sv(2, vec![(0, 20)])).unwrap();
    // Inserting the same id twice is not deduplicated.
    index.add_sparse_vector(&sv(1, vec![(0, 30)])).unwrap();
    assert_eq!(
        index.get_list(0).unwrap().clone(),
        vec![(1u32, 10i64), (2, 20), (1, 30)]
    );
}

#[test]
fn insertion_order_independent_membership() {
    let a = sv(1, vec![(0, 10), (2, 5)]);
    let b = sv(2, vec![(0, 20), (3, 7)]);

    let mut first = InvertedIndex::new();
    first.add_sparse_vector(&a).unwrap();
    first.add_sparse_vector(&b).unwrap();

    let mut second = InvertedIndex::new();
    second.add_sparse_vector(&b).unwrap();
    second.add_sparse_vector(&a).unwrap();

    for d in [0u32, 1, 2, 3] {
        let mut lf: Vec<(u32, i64)> =
            first.get_list(d).map(|l| l.clone()).unwrap_or_default();
        let mut ls: Vec<(u32, i64)> =
            second.get_list(d).map(|l| l.clone()).unwrap_or_default();
        lf.sort();
        ls.sort();
        assert_eq!(lf, ls);
    }
}

#[test]
fn end_to_end_ranked_search() {
    // Index: id 1 holds {(0, 1.0)}, id 2 holds {(0, 0.5), (1, 1.0)}, at
    // fixed-point scale 1000.  Query {(0, 1.0)} ranks id 1 first with score
    // 1.0 and id 2 second with 0.5, in the squared scale.
    let mut index = InvertedIndex::new();
    index.add_sparse_vector(&sv(1, vec![(0, 1000)])).unwrap();
    index.add_sparse_vector(&sv(2, vec![(0, 500), (1, 1000)])).unwrap();

    let query = SparseAnnQuery::new(sv(3, vec![(0, 1000)]));
    let results = query.sequential_search(&index);
    assert_eq!(
        results,
        vec![
            SparseAnnResult { vector_id: 1, score: 1_000_000 },
            SparseAnnResult { vector_id: 2, score: 500_000 },
        ]
    );
}

#[test]
fn search_accumulates_across_dimensions() {
    let mut index = InvertedIndex::new();
    index.add_sparse_vector(&sv(1, vec![(0, 2), (1, 3)])).unwrap();
    index.add_sparse_vector(&sv(2, vec![(1, 10)])).unwrap();
    let query = SparseAnnQuery::new(sv(9, vec![(0, 5), (1, 4)]));
    let results = query.sequential_search(&index);
    // id 1: 5*2 + 4*3 = 22; id 2: 4*10 = 40.
    assert_eq!(
        results,
        vec![
            SparseAnnResult { vector_id: 2, score: 40 },
            SparseAnnResult { vector_id: 1, score: 22 },
        ]
    );
}

#[test]
fn ties_break_by_ascending_id() {
    let mut index = InvertedIndex::new();
    index.add_sparse_vector(&sv(7, vec![(0, 6)])).unwrap();
    index.add_sparse_vector(&sv(3, vec![(0, 6)])).unwrap();
    index.add_sparse_vector(&sv(5, vec![(0, 9)])).unwrap();
    let query = SparseAnnQuery::new(sv(1, vec![(0, 1)]));
    let results = query.sequential_search(&index);
    assert_eq!(
        results,
        vec![
            SparseAnnResult { vector_id: 5, score: 9 },
            SparseAnnResult { vector_id: 3, score: 6 },
            SparseAnnResult { vector_id: 7, score: 6 },
        ]
    );
}

#[test]
fn duplicate_postings_accumulate_into_one_candidate() {
    let mut index = InvertedIndex::new();
    index.add_sparse_vector(&sv(4, vec![(0, 10)])).unwrap();
    index.add_sparse_vector(&sv(4, vec![(0, 15)])).unwrap();
    let query = SparseAnnQuery::new(sv(1, vec![(0, 2)]));
    let results = query.sequential_search(&index);
    assert_eq!(results, vec![SparseAnnResult { vector_id: 4, score: 50 }]);
}

#[test]
fn top_k_keeps_the_best_ranked_prefix() {
    let mut index = InvertedIndex::new();
    index.add_sparse_vector(&sv(1, vec![(0, 3)])).unwrap();
    index.add_sparse_vector(&sv(2, vec![(0, 9)])).unwrap();
    index.add_sparse_vector(&sv(3, vec![(0, 6)])).unwrap();
    let query = SparseAnnQuery::new(sv(8, vec![(0, 1)]));
    let top = query.search_top_k(&index, 2);
    assert_eq!(
        top,
        vec![
            SparseAnnResult { vector_id: 2, score: 9 },
            SparseAnnResult { vector_id: 3, score: 6 },
        ]
    );
    let all = query.search_top_k(&index, 10);
    assert_eq!(all.len(), 3);
}

#[test]
fn search_on_untouched_dimensions_is_empty() {
    let mut index = InvertedIndex::new();
    index.add_sparse_vector(&sv(1, vec![(5, 100)])).unwrap();
    let query = SparseAnnQuery::new(sv(2, vec![(0, 50), (9, 3)]));
    assert!(query.sequential_search(&index).is_empty());
}
