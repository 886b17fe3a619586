use indexed_streams::mul_stream::csr_matvec;
use indexed_streams::csr_mat::SparseCSRMat;
use indexed_streams::sorted_vec::{
    vec_intersect_manual, vec_intersect_streams_gallop, vec_intersect_streams_linear,
    SortedVecGalloper,
};
use indexed_streams::sparse_vec::{SparseVec, SparseVecGalloper};
use indexed_streams::stream_defs::{
    collect_indices, stream_next, IndexedStream, MappedStream,
};
use indexed_streams::zip_stream::ZipStream;

#[test]
fn sorted_vec_intersection_three_ways() {
    let x: Vec<usize> = vec![1, 2, 3, 4, 5];
    let y: Vec<usize> = vec![3, 4, 5, 6, 7];
    let expected: Vec<usize> = vec![3, 4, 5];
    assert_eq!(vec_intersect_manual(&x, &y), expected);
    assert_eq!(vec_intersect_streams_gallop(&x, &y), expected);
    assert_eq!(vec_intersect_streams_linear(&x, &y), expected);
}

#[test]
fn galloping_skip_intersection() {
    let inds: Vec<usize> = vec![1, 2, 5, 10, 20, 33];
    let other: Vec<usize> = vec![1, 2, 6, 8, 10, 25, 33];
    let zipped = ZipStream::new(SortedVecGalloper::new(&inds), SortedVecGalloper::new(&other));
    assert_eq!(collect_indices(zipped), vec![1, 2, 10, 33]);
}

#[test]
fn csr_matvec_dense_padded() {
    let mat = SparseCSRMat::from_iter(vec![(0, 0, 1), (0, 1, 2), (1, 5, 3), (1, 29, 4)]);
    let v = SparseVec::from_iter(vec![(1, -2), (2, 3), (5, 7), (29, 4)]);
    assert_eq!(csr_matvec(&mat, &v), vec![-4, 37]);
}

#[test]
fn tree_sets_multi_intersect() {
    // ordered key sets {1..5}, {3..7}, {5..9}: the three-way intersection
    // holds exactly one key
    let a: Vec<usize> = vec![1, 2, 3, 4, 5];
    let b: Vec<usize> = vec![3, 4, 5, 6, 7];
    let c: Vec<usize> = vec![5, 6, 7, 8, 9];
    let two = ZipStream::new(SortedVecGalloper::new(&a), SortedVecGalloper::new(&b));
    let three = ZipStream::new(two, SortedVecGalloper::new(&c));
    let keys = collect_indices(three);
    assert_eq!(keys.len(), 1);
    assert_eq!(keys, vec![5]);
}

#[test]
fn seek_semantics_on_cursor() {
    let inds: Vec<usize> = vec![1, 2, 3, 4, 5];
    let vals: Vec<i64> = vec![1, 1, 2, 3, 5];
    let mut stream = SparseVecGalloper::new(&inds, &vals);
    assert_eq!(stream.index(), 1);
    assert_eq!(stream.value(), 1);

    stream.seek(3, false);
    assert_eq!(stream.index(), 3);
    assert_eq!(stream.value(), 2);

    stream.seek(1, true);
    assert_eq!(stream.index(), 3);
    assert_eq!(stream.value(), 2);

    stream.seek(3, true);
    assert_eq!(stream.index(), 4);
    assert_eq!(stream.value(), 3);

    stream_next(&mut stream);
    assert_eq!(stream.index(), 5);
    assert_eq!(stream.value(), 5);

    stream.seek(6, false);
    assert!(!stream.valid());
}

/// Drain a stream of keys whose values are themselves key streams two
/// levels deep, materializing every level.
fn drain_two_levels<S, T>(mut outer: S) -> Vec<(usize, Vec<usize>)>
where
    T: IndexedStream,
    S: IndexedStream<V = T>,
{
    let mut result = Vec::new();
    while outer.valid() {
        if outer.ready() {
            let key = outer.index();
            let inner = outer.value();
            result.push((key, collect_indices(inner)));
        }
        stream_next(&mut outer);
    }
    result
}

#[test]
fn triangle_query_all_pairs() {
    // three alphabets of four symbols each, with all-pairs relations: the
    // triangle query yields the full cartesian product, however computed
    let s1: Vec<usize> = vec![0, 1, 2, 3];
    let s2: Vec<usize> = vec![4, 5, 6, 7];
    let s3: Vec<usize> = vec![8, 9, 10, 11];

    // naive triple loop
    let mut naive: Vec<(usize, Vec<(usize, Vec<usize>)>)> = Vec::new();
    for a in s1.iter() {
        let mut bs = Vec::new();
        for b in s2.iter() {
            let mut cs = Vec::new();
            for c in s3.iter() {
                cs.push(*c);
            }
            bs.push((*b, cs));
        }
        naive.push((*a, bs));
    }

    // fused pipeline: join the a-level relations, then intersect the
    // c-level streams under each (a, b)
    let mut fused: Vec<(usize, Vec<(usize, Vec<usize>)>)> = Vec::new();
    let t1 = MappedStream::map(SortedVecGalloper::new(&s1), |_i, _v: ()| {
        SortedVecGalloper::new(&s2)
    });
    let t3 = MappedStream::map(SortedVecGalloper::new(&s1), |_i, _v: ()| {
        SortedVecGalloper::new(&s3)
    });
    let mut a_level = ZipStream::new(t1, t3);
    while a_level.valid() {
        if a_level.ready() {
            let a = a_level.index();
            let (rb, rc) = a_level.value();
            let t2 = MappedStream::map(SortedVecGalloper::new(&s2), |_i, _v: ()| {
                SortedVecGalloper::new(&s3)
            });
            let b_level = ZipStream::new(rb, t2);
            let mut bs = Vec::new();
            let mut b_cursor = b_level;
            while b_cursor.valid() {
                if b_cursor.ready() {
                    let b = b_cursor.index();
                    let (_unit, rc2) = b_cursor.value();
                    let c_level = ZipStream::new(rc2, rc);
                    bs.push((b, collect_indices(c_level)));
                }
                stream_next(&mut b_cursor);
            }
            fused.push((a, bs));
        }
        stream_next(&mut a_level);
    }

    // unfused: materialize the first join, then intersect with the third
    // relation
    let mut unfused: Vec<(usize, Vec<(usize, Vec<usize>)>)> = Vec::new();
    let t1b = MappedStream::map(SortedVecGalloper::new(&s1), |_i, _v: ()| {
        MappedStream::map(SortedVecGalloper::new(&s2), |_j, _w: ()| {
            SortedVecGalloper::new(&s3)
        })
    });
    let tmp: Vec<(usize, Vec<(usize, Vec<usize>)>)> = {
        let mut acc = Vec::new();
        let mut outer = t1b;
        while outer.valid() {
            if outer.ready() {
                let a = outer.index();
                let mid = outer.value();
                acc.push((a, drain_two_levels(mid)));
            }
            stream_next(&mut outer);
        }
        acc
    };
    for (a, bs) in tmp.iter() {
        let mut joined_bs = Vec::new();
        for (b, cs) in bs.iter() {
            let c_level = ZipStream::new(
                SortedVecGalloper::new(cs.as_slice()),
                SortedVecGalloper::new(&s3),
            );
            joined_bs.push((*b, collect_indices(c_level)));
        }
        unfused.push((*a, joined_bs));
    }

    assert_eq!(fused, naive);
    assert_eq!(unfused, naive);
}
