use indexed_streams::add_stream::{union, AddStream, EitherOrBoth, IntersectingUnionStream};
use indexed_streams::contract_stream::ContractStream;
use indexed_streams::csr_mat::SparseCSRMat;
use indexed_streams::fun_stream::{Broadcast, FunStream};
use indexed_streams::mul_stream::{matmul_contract, MulFunStream, StreamMul};
use indexed_streams::sorted_vec::SortedVecGalloper;
use indexed_streams::sparse_vec::SparseVec;
use indexed_streams::stream_defs::{
    any_nonzero, collect_pairs, contract, to_dense, DenseStreamIterator, IndexedStream,
};

#[test]
fn union_tags_both_sides() {
    let a = SparseVec::from_iter(vec![(1, 10), (3, 30)]);
    let b = SparseVec::from_iter(vec![(2, 20), (3, 33)]);
    let merged = union(a.stream_iter(), b.stream_iter());
    let result = collect_pairs(merged);
    assert_eq!(
        result,
        vec![
            (1, EitherOrBoth::Left(10)),
            (2, EitherOrBoth::Right(20)),
            (3, EitherOrBoth::Both(30, 33)),
        ]
    );
}

#[test]
fn union_with_empty_side() {
    let a = SparseVec::from_iter(vec![(4, 7), (9, -1)]);
    let b: SparseVec<i64> = SparseVec::empty();
    let merged = union(a.stream_iter(), b.stream_iter());
    let result = collect_pairs(merged);
    assert_eq!(result, vec![(4, EitherOrBoth::Left(7)), (9, EitherOrBoth::Left(-1))]);
}

#[test]
fn either_or_both_map_keeps_tags() {
    let both: EitherOrBoth<i64, i64> = EitherOrBoth::Both(2, 3);
    assert_eq!(both.map(|a| a + 1, |b| b * 2), EitherOrBoth::Both(3, 6));
    let left: EitherOrBoth<i64, i64> = EitherOrBoth::Left(5);
    assert_eq!(left.map(|a| a - 1, |b| b), EitherOrBoth::Left(4));
    let right: EitherOrBoth<i64, i64> = EitherOrBoth::Right(9);
    assert_eq!(right.map(|a| a, |b| b + 10), EitherOrBoth::Right(19));
}

#[test]
fn add_stream_sums_at_shared_frontier() {
    let a = SparseVec::from_iter(vec![(1, 5), (4, 2)]);
    let b = SparseVec::from_iter(vec![(1, 7), (4, -9)]);
    let mut added = AddStream::add(a.stream_iter(), b.stream_iter());
    assert!(added.valid());
    assert!(added.ready());
    assert_eq!(added.index(), 1);
    assert_eq!(added.value(), 12);
    added.seek(1, true);
    assert_eq!(added.index(), 4);
    assert_eq!(added.value(), -7);
}

#[test]
fn intersecting_union_dispatches_sides() {
    let a = SparseVec::from_iter(vec![(1, 10), (3, 30)]);
    let b = SparseVec::from_iter(vec![(2, 20), (3, 33)]);
    let mut ius = IntersectingUnionStream::new(a.stream_iter(), b.stream_iter());
    assert!(ius.valid());
    assert_eq!(ius.index(), 1);
    assert_eq!(ius.value(), EitherOrBoth::Left(10));
    ius.seek(1, true);
    assert_eq!(ius.index(), 2);
    assert_eq!(ius.value(), EitherOrBoth::Right(20));
    ius.seek(2, true);
    assert_eq!(ius.index(), 3);
    assert_eq!(ius.value(), EitherOrBoth::Both(30, 33));
    ius.seek(3, true);
    assert!(!ius.valid());
}

#[test]
fn broadcast_scales_stream() {
    let v = SparseVec::from_iter(vec![(0, 2), (7, 3), (9, -1)]);
    let scaled = MulFunStream::mul(v.stream_iter(), Broadcast::new(4));
    assert_eq!(collect_pairs(scaled), vec![(0, 8), (7, 12), (9, -4)]);
    let b: Broadcast<i64> = Broadcast::new(11);
    assert_eq!(b.value(&42), 11);
}

#[test]
fn stream_mul_is_wrapping() {
    let x: i64 = 3;
    assert_eq!(x.mul(7), 21);
    assert_eq!(i64::MAX.mul(2), -2);
}

#[test]
fn contract_stream_forwards_values() {
    let v = SparseVec::from_iter(vec![(2, 5), (8, 6)]);
    let mut c = ContractStream::contract(v.stream_iter());
    assert!(c.valid());
    assert!(c.ready());
    assert_eq!(c.index(), ());
    assert_eq!(c.value(), 5);
    c.skip(&(), true);
    assert_eq!(c.value(), 6);
    c.skip(&(), true);
    assert!(!c.valid());
}

#[test]
fn dense_adapter_pads_with_zeros() {
    let v = SparseVec::from_iter(vec![(1, 5), (3, 7)]);
    assert_eq!(to_dense(v.stream_iter()), vec![0, 5, 0, 7]);
    let empty: SparseVec<i64> = SparseVec::empty();
    assert_eq!(to_dense(empty.stream_iter()), Vec::<i64>::new());
}

#[test]
fn dense_iterator_steps() {
    let v = SparseVec::from_iter(vec![(0, 4), (2, 9)]);
    let mut it = DenseStreamIterator::from_stream_iterator(v.stream_iter());
    assert_eq!(it.next(), Some(4));
    assert_eq!(it.next(), Some(0));
    assert_eq!(it.next(), Some(9));
    assert_eq!(it.next(), None);
}

#[test]
fn any_nonzero_finds_nonzero() {
    let zeros = SparseVec::from_iter(vec![(1, 0), (5, 0)]);
    assert!(!any_nonzero(zeros.stream_iter()));
    let mixed = SparseVec::from_iter(vec![(1, 0), (5, 7)]);
    assert!(any_nonzero(mixed.stream_iter()));
    let empty: SparseVec<i64> = SparseVec::empty();
    assert!(!any_nonzero(empty.stream_iter()));
}

#[test]
fn eq_ignoring_zeros_drops_explicit_zeros() {
    let a = SparseVec::from_iter(vec![(1, 0), (2, 3)]);
    let b = SparseVec::from_iter(vec![(2, 3), (5, 0)]);
    assert!(a.eq_ignoring_zeros(&b));
    let c = SparseVec::from_iter(vec![(2, 4)]);
    assert!(!a.eq_ignoring_zeros(&c));
    let d = SparseVec::from_iter(vec![(3, 3)]);
    assert!(!a.eq_ignoring_zeros(&d));
}

#[test]
fn sparse_vec_lookup() {
    let v = SparseVec::from_iter(vec![(1, 4), (20, 2), (33, 3)]);
    assert_eq!(v.get(20), Some(&2));
    assert_eq!(v.get(7), None);
    assert_eq!(v.get(33), Some(&3));
    assert_eq!(v.len(), 3);
    assert_eq!(v.iter(), vec![(1, 4), (20, 2), (33, 3)]);
}

#[test]
fn sparse_vec_round_trip() {
    let v = SparseVec::from_iter(vec![(2, -7), (4, 0), (9, 11)]);
    let rebuilt = SparseVec::from_stream_iterator(v.stream_iter());
    assert_eq!(rebuilt, v);
}

#[test]
fn csr_round_trip() {
    let mat = SparseCSRMat::from_iter(vec![(0, 1, 10), (0, 4, 20), (2, 0, 30), (2, 5, 40)]);
    let rebuilt = SparseCSRMat::from_stream_iterator(mat.into_stream_iterator());
    assert_eq!(rebuilt, mat);
    assert_eq!(mat.rows(), 3);
}

#[test]
fn matmul_contract_sums_products() {
    let a = SparseCSRMat::from_iter(vec![(0, 0, 2), (1, 1, 3)]);
    let b = SparseCSRMat::from_iter(vec![(0, 0, 5), (1, 2, 7)]);
    // row 0: 2 * 5; row 1: 3 * 7
    assert_eq!(matmul_contract(&a, &b), 31);
    let empty: SparseCSRMat<i64> = SparseCSRMat::empty();
    assert_eq!(matmul_contract(&a, &empty), 0);
}

#[test]
fn matmul_contract_crosses_rows() {
    // two values in one left row each multiply every value of the shared
    // right row
    let a = SparseCSRMat::from_iter(vec![(0, 0, 2), (0, 1, 3)]);
    let b = SparseCSRMat::from_iter(vec![(0, 4, 10), (0, 9, 100)]);
    // (2 + 3) * (10 + 100)
    assert_eq!(matmul_contract(&a, &b), 550);
}

#[test]
fn chained_sorted_sources() {
    let first: Vec<usize> = vec![2, 4];
    let second: Vec<usize> = vec![7, 9];
    let chain = indexed_streams::chain::FixedChainStream::new(
        SortedVecGalloper::new(&first),
        SortedVecGalloper::new(&second),
    );
    let both = indexed_streams::stream_defs::collect_indices(chain);
    assert_eq!(both, vec![2, 4, 7, 9]);
}

#[test]
fn union_of_linear_cursors() {
    let a = SparseVec::from_iter(vec![(1, 1), (4, 4), (6, 6)]);
    let b = SparseVec::from_iter(vec![(2, 2), (4, 40), (9, 9)]);
    let merged = union(a.stream_iter_linear(), b.stream_iter_linear());
    let result = collect_pairs(merged);
    assert_eq!(
        result,
        vec![
            (1, EitherOrBoth::Left(1)),
            (2, EitherOrBoth::Right(2)),
            (4, EitherOrBoth::Both(4, 40)),
            (6, EitherOrBoth::Left(6)),
            (9, EitherOrBoth::Right(9)),
        ]
    );
}

#[test]
fn empty_sources_stay_empty() {
    let empty: Vec<usize> = Vec::new();
    let keys: Vec<usize> = vec![3, 8];
    let zipped = indexed_streams::zip_stream::ZipStream::new(
        SortedVecGalloper::new(&empty),
        SortedVecGalloper::new(&keys),
    );
    assert_eq!(indexed_streams::stream_defs::collect_indices(zipped), Vec::<usize>::new());
    let v: SparseVec<i64> = SparseVec::empty();
    assert_eq!(contract(v.stream_iter()), 0);
}
