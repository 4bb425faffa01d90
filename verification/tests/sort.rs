use lehopt::util::cosort_two_vecs_inplace;

#[test]
fn test_cosort_two_vecs_inplace_000() {
    let mut vec1 = vec![7, 5, 3, 2, 19, 17, 13, 11];
    let mut vec2 = vec![1, 2, 3, 4, 5, 6, 7, 8];

    cosort_two_vecs_inplace(&mut vec1, &mut vec2, |i1, _| *i1);
    assert_eq!(vec1, vec![2, 3, 5, 7, 11, 13, 17, 19]);
    assert_eq!(vec2, vec![4, 3, 2, 1, 8, 7, 6, 5]);

    cosort_two_vecs_inplace(&mut vec1, &mut vec2, |_, i2| -(*i2));
    assert_eq!(vec1, vec![11, 13, 17, 19, 2, 3, 5, 7]);
    assert_eq!(vec2, vec![8, 7, 6, 5, 4, 3, 2, 1]);
}

#[test]
fn test_cosort_two_vecs_inplace_001() {
    // test for proper handling of boundary conditions at smallest sizes

    // length 0
    let mut vec1_0: Vec<i32> = vec![];
    let mut vec2_0: Vec<usize> = vec![];
    cosort_two_vecs_inplace(&mut vec1_0, &mut vec2_0, |x1, _| *x1);
    cosort_two_vecs_inplace(&mut vec1_0, &mut vec2_0, |_, x2| *x2);
    assert_eq!(vec1_0.len(), 0);
    assert_eq!(vec2_0.len(), 0);

    // length 1
    let mut vec1_1: Vec<u16> = vec![65535];
    let mut vec2_1: Vec<i64> = vec![-13];
    cosort_two_vecs_inplace(&mut vec1_1, &mut vec2_1, |x1, _| *x1);
    cosort_two_vecs_inplace(&mut vec1_1, &mut vec2_1, |_, x2| *x2);
    assert_eq!(vec1_1, vec![65535]);
    assert_eq!(vec2_1, vec![-13]);

    // length 2
    let mut vec1_2: Vec<i32> = vec![54321, -654321];
    let mut vec2_2: Vec<u8> = vec![255, 0];
    cosort_two_vecs_inplace(&mut vec1_2, &mut vec2_2, |x1, _| *x1);
    assert_eq!(vec1_2, vec![-654321, 54321]);
    assert_eq!(vec2_2, vec![0, 255]);
    cosort_two_vecs_inplace(&mut vec1_2, &mut vec2_2, |_, x2| -(*x2 as i16));
    assert_eq!(vec1_2, vec![54321, -654321]);
    assert_eq!(vec2_2, vec![255, 0]);
}

#[test]
fn test_cosort_pairs_stay_together() {
    let mut keys = vec![5, 1, 4, 1, 5, 9, 2, 6, 5, 3];
    let mut tags: Vec<usize> = (0..10).collect();
    let orig = keys.clone();
    cosort_two_vecs_inplace(&mut keys, &mut tags, |k, _| *k);
    assert_eq!(keys, vec![1, 1, 2, 3, 4, 5, 5, 5, 6, 9]);
    let mut seen = tags.clone();
    seen.sort();
    assert_eq!(seen, (0..10).collect::<Vec<usize>>());
    for i in 0..10 {
        assert_eq!(keys[i], orig[tags[i]]);
    }
}

#[test]
fn test_cosort_tuple_key() {
    let mut a = vec![2, 1, 2, 1];
    let mut b = vec!['d', 'c', 'a', 'b'];
    cosort_two_vecs_inplace(&mut a, &mut b, |x, y| (*x, *y));
    assert_eq!(a, vec![1, 1, 2, 2]);
    assert_eq!(b, vec!['b', 'c', 'a', 'd']);
}
