use search_core::sparse::{cs_mat_from_cs_vecs, cs_vec_count, intersection, SparseVec};

fn posting(dim: usize, ids: Vec<usize>) -> SparseVec<bool> {
    let n = ids.len();
    SparseVec::new(dim, ids, vec![true; n])
}

#[test]
fn test_intersection() {
    let v1 = posting(10, vec![1, 2, 5, 6, 9]);
    let v2 = posting(10, vec![1, 3, 5, 7, 9]);
    let v3 = intersection(&v1, &v2);
    assert_eq!(v3.indices, vec![1, 5, 9]);
    assert_eq!(v3.data, vec![true; 3]);
}

#[test]
fn test_cs_vec_count() {
    let tokens = vec![0, 0, 1, 1, 1, 2, 2, 2, 2];
    let vec = cs_vec_count(3, &tokens);
    assert_eq!(vec.indices, vec![0, 1, 2]);
    assert_eq!(vec.data, vec![2, 3, 4]);
}

#[test]
fn test_cs_mat_from_cs_vecs() {
    let vecs = vec![
        SparseVec::new(3, vec![0, 1], vec![1, 2]),
        SparseVec::new(3, vec![1, 2], vec![3, 4]),
    ];
    let mat = cs_mat_from_cs_vecs(&vecs);

    assert_eq!(mat.rows, 2);
    assert_eq!(mat.cols, 3);
    assert_eq!(mat.indptr, vec![0, 2, 4]);
    assert_eq!(mat.indices, vec![0, 1, 1, 2]);
    assert_eq!(mat.data, vec![1, 2, 3, 4]);
}

#[test]
fn cs_vec_count_of_nothing_is_empty() {
    let vec = cs_vec_count(5, &vec![]);
    assert_eq!(vec.dim, 5);
    assert!(vec.indices.is_empty());
    assert!(vec.data.is_empty());
}

#[test]
fn cs_vec_count_skips_gaps() {
    let vec = cs_vec_count(10, &vec![3, 7, 7, 9]);
    assert_eq!(vec.indices, vec![3, 7, 9]);
    assert_eq!(vec.data, vec![1, 2, 1]);
}

#[test]
fn intersection_with_itself_is_identity() {
    let v = posting(10, vec![0, 4, 8, 9]);
    let r = intersection(&v, &v);
    assert_eq!(r.dim, v.dim);
    assert_eq!(r.indices, v.indices);
    assert_eq!(r.data, v.data);
}

#[test]
fn intersection_is_commutative() {
    let a = posting(12, vec![0, 2, 4, 6, 8, 10]);
    let b = posting(12, vec![3, 4, 5, 6, 11]);
    let ab = intersection(&a, &b);
    let ba = intersection(&b, &a);
    assert_eq!(ab.indices, vec![4, 6]);
    assert_eq!(ab.indices, ba.indices);
    assert_eq!(ab.data, ba.data);
}

#[test]
fn intersection_with_empty_is_empty() {
    let a = posting(5, vec![0, 1, 2]);
    let b = posting(5, vec![]);
    assert!(intersection(&a, &b).indices.is_empty());
    assert!(intersection(&b, &a).indices.is_empty());
}

#[test]
fn outer_view_copies_one_row() {
    let vecs = vec![
        SparseVec::new(4, vec![0, 3], vec![5, 6]),
        SparseVec::new(4, vec![], vec![]),
        SparseVec::new(4, vec![1], vec![7]),
    ];
    let mat = cs_mat_from_cs_vecs(&vecs);
    assert_eq!(mat.indptr, vec![0, 2, 2, 3]);
    let row = mat.outer_view(2);
    assert_eq!(row.dim, 4);
    assert_eq!(row.indices, vec![1]);
    assert_eq!(row.data, vec![7]);
    assert!(mat.outer_view(1).indices.is_empty());
}
