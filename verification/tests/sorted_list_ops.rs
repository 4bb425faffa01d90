use lehopt::util::sorted_list_setminus_keyed;

#[test]
fn test_sorted_list_setminus_keyed_000() {
    let list1a = vec![];
    let list1b = vec![1, 2, 3];
    let result1 = sorted_list_setminus_keyed(&list1a, &list1b, |x| *x, |x| *x);
    assert_eq!(result1.len(), 0);

    let list2a = vec![2, 3, 5, 7];
    let list2b = vec![1, 2, 3, 4, 5, 6, 7, 8, 9];
    let result2 = sorted_list_setminus_keyed(&list2a, &list2b, |x| *x, |x| *x);
    assert_eq!(result2.len(), 0);

    let list3a = vec![1, 2, 3, 4, 5, 6, 7, 8, 9];
    let list3b = vec![2, 3, 5, 7];
    let result3 = sorted_list_setminus_keyed(&list3a, &list3b, |x| *x, |x| *x);
    assert_eq!(result3, vec![1, 4, 6, 8, 9]);

    let list4a = vec![1, 2, 3, 4];
    let list4b = vec![3, 5, 9];
    let result4 = sorted_list_setminus_keyed(&list4a, &list4b, |x| *x, |x| *x);
    assert_eq!(result4, vec![1, 2, 4]);

    let list5a = vec![1, 2, 3];
    let list5b = vec![];
    let result5 = sorted_list_setminus_keyed(&list5a, &list5b, |x| *x, |x| *x);
    assert_eq!(result5, list5a);

    let list6a = vec![1, 2, 3];
    let list6b = vec![-3, -2, -1];
    let result6 = sorted_list_setminus_keyed(&list6a, &list6b, |x| *x, |x| *x);
    assert_eq!(result6, list6a);
}

#[test]
fn test_setminus_result_func_and_key_func() {
    let list1 = vec![(1, 'a'), (2, 'b'), (3, 'c'), (4, 'd')];
    let list2 = vec![(2, 'x'), (3, 'y')];
    let result = sorted_list_setminus_keyed(&list1, &list2, |p| p.0, |p| p.1);
    assert_eq!(result, vec!['a', 'd']);
}

#[test]
fn test_setminus_keeps_every_absent_key() {
    let cases: Vec<(Vec<i32>, Vec<i32>, Vec<i32>)> = vec![
        (vec![1, 4, 5], vec![2, 3, 4], vec![1, 5]),
        (vec![1, 2, 3, 4], vec![0, 3, 5], vec![1, 2, 4]),
        (vec![1, 2, 5], vec![0, 3, 4, 5], vec![1, 2]),
        (vec![1, 6], vec![2, 3], vec![1, 6]),
        (vec![1, 1, 2, 2, 3], vec![2], vec![1, 1, 3]),
        (vec![1, 2, 3], vec![1, 1, 3, 3], vec![2]),
    ];
    for (list1, list2, expected) in cases {
        assert_eq!(sorted_list_setminus_keyed(&list1, &list2, |x| *x, |x| *x), expected);
    }
}
