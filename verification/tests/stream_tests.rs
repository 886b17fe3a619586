use indexed_streams::chain::{ChainStream, FixedChainStream};
use indexed_streams::csr_mat::SparseCSRMat;
use indexed_streams::mul_stream::MulStream;
use indexed_streams::sorted_vec::SortedVecGalloper;
use indexed_streams::sparse_vec::{SparseVec, SparseVecGalloper};
use indexed_streams::stream_defs::{
    collect_indices, contract, extend_from_stream_iterator, to_dense, IndexedStream, MappedStream,
};
use indexed_streams::zip_stream::ZipStream;

#[test]
fn test_gallop() {
    let v1 = SparseVec::from_iter(vec![(1, 4), (20, 2), (33, 3)]);
    let v2 = SparseVec::from_iter(vec![(1, 7), (2, -3), (5, 10), (33, 9)]);
    let prod = MulStream::mul(v1.stream_iter_linear(), v2.stream_iter());
    let mut result: Vec<(usize, i64)> = Vec::with_capacity(v1.len().min(v2.len()));
    extend_from_stream_iterator(&mut result, prod);
    assert_eq!(result, vec![(1, 28), (33, 27)]);
}

#[test]
fn test_mul3() {
    let v1 = SparseVec::from_iter(vec![(1, 4), (20, 2), (33, 3)]);
    let v2 = SparseVec::from_iter(vec![(1, 7), (2, -3), (5, 10), (33, 9)]);
    let v3 = SparseVec::from_iter(vec![(1, -2), (2, 3), (5, 7), (29, 4)]);
    let prod2 = MulStream::mul(
        MulStream::mul(v1.stream_iter_linear(), v2.stream_iter_linear()),
        v3.stream_iter_linear(),
    );
    let mut result2: Vec<(usize, i64)> = Vec::with_capacity(v1.len().min(v2.len()).min(v3.len()));
    extend_from_stream_iterator(&mut result2, prod2);
    assert_eq!(result2, vec![(1, -56)]);
}

#[test]
fn test_sparse_vec_from_iter() {
    let v1 = SparseVec::from_iter(vec![(1, 4), (20, 2), (33, 3)]);
    let v4 = SparseVec::from_iter(vec![(3, -2), (10, 5), (20, 5), (33, 7)]);
    let prod3 = MulStream::mul(v4.stream_iter(), v1.stream_iter());
    let mut result3 = SparseVec::with_capacity(v4.len().min(v1.len()));
    result3.extend_from_stream_iterator(prod3);
    assert_eq!(result3, SparseVec::from_iter(vec![(20, 10), (33, 21)]));
}

#[test]
fn test_contract() {
    let v1 = SparseVec::from_iter(vec![(1, 4), (20, 2), (33, 3)]);
    let result4: i64 = contract(v1.stream_iter_linear());
    assert_eq!(result4, 9);
}

#[test]
fn test_matvecmul() {
    let v3 = SparseVec::from_iter(vec![(1, -2), (2, 3), (5, 7), (29, 4)]);
    let mat1 = SparseCSRMat::from_iter(vec![(0, 0, 1), (0, 1, 2), (1, 5, 3), (1, 29, 4)]);
    let sum2 = MappedStream::map(mat1.into_stream_iterator(), |_i, row: SparseVecGalloper<i64>| {
        contract(MulStream::mul(row, v3.stream_iter()))
    });
    let result5: Vec<i64> = to_dense(sum2);
    assert_eq!(result5, vec![-4, 37]);
}

#[test]
fn test_matvecmul2() {
    let mat = SparseCSRMat::from_iter(vec![(1, 0, 1)]);
    let vec = SparseVec::from_iter(vec![(0, 1)]);
    let prod = MappedStream::map(mat.into_stream_iterator(), |_i, row: SparseVecGalloper<i64>| {
        contract(MulStream::mul(row, vec.stream_iter()))
    });
    let result: Vec<i64> = to_dense(prod);
    assert_eq!(result, vec![0, 1]);
}

#[test]
fn test_csrmat_empty() {
    let mat: SparseCSRMat<i32> = SparseCSRMat::from_iter(Vec::new());
    assert_eq!(mat, SparseCSRMat::empty());
}

#[test]
fn sorted_vec_galloper() {
    let v1: Vec<usize> = vec![1, 2, 5, 10, 20, 33];
    let v2: Vec<usize> = vec![1, 2, 6, 8, 10, 25, 33];
    let intersection = ZipStream::new(SortedVecGalloper::new(&v1), SortedVecGalloper::new(&v2));
    assert_eq!(collect_indices(intersection), vec![1, 2, 10, 33]);
}

#[test]
fn basic_chain_test() {
    let stream = FixedChainStream::new(
        SortedVecGalloper::new(&[1, 2, 3, 4, 5]),
        SortedVecGalloper::new(&[6, 7, 8, 9, 10]),
    );
    assert_eq!(collect_indices(stream.clone()), vec![1, 2, 3, 4, 5, 6, 7, 8, 9, 10]);
}

#[test]
fn chain_seek_test() {
    let mut stream = FixedChainStream::new(
        SortedVecGalloper::new(&[1, 2, 3, 4, 5]),
        SortedVecGalloper::new(&[6, 7, 8, 9, 10]),
    );
    stream.seek(3, false);
    assert_eq!(stream.index(), 3);
    stream.seek(3, true);
    assert_eq!(stream.index(), 4);
    stream.seek(5, true);
    assert_eq!(stream.index(), 6);
    stream.seek(6, false);
    assert_eq!(stream.index(), 6);
    stream.seek(4, false);
    assert_eq!(stream.index(), 6);
}

#[test]
fn basic_and_then_chain_test() {
    let stream = ChainStream::chain(SortedVecGalloper::new(&[1, 2, 3, 4, 5]), |_| {
        SortedVecGalloper::new(&[6, 7, 8, 9, 10])
    });
    assert_eq!(collect_indices(stream.clone()), vec![1, 2, 3, 4, 5, 6, 7, 8, 9, 10]);
}

#[test]
fn and_then_chain_seek_test() {
    let mut stream = ChainStream::chain(SortedVecGalloper::new(&[1, 2, 3, 4, 5]), |_| {
        SortedVecGalloper::new(&[6, 7, 8, 9, 10])
    });
    stream.seek(3, false);
    assert_eq!(stream.index(), 3);
    stream.seek(3, true);
    assert_eq!(stream.index(), 4);
    stream.seek(5, true);
    assert_eq!(stream.index(), 6);
    stream.seek(6, false);
    assert_eq!(stream.index(), 6);
    stream.seek(4, false);
    assert_eq!(stream.index(), 6);
}
