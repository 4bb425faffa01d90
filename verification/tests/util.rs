use lehopt::util::{indices_complement, pos_int_is_power_of};

#[test]
fn test_indices_complement_000() {
    let v1 = vec![1, 2, 3];
    assert_eq!(indices_complement(&v1, 4), vec![0]);
    assert_eq!(indices_complement(&v1, 5), vec![0, 4]);
    assert_eq!(indices_complement(&v1, 6), vec![0, 4, 5]);

    let v2 = vec![0, 2, 3];
    assert_eq!(indices_complement(&v2, 4), vec![1]);
    assert_eq!(indices_complement(&v2, 5), vec![1, 4]);
    assert_eq!(indices_complement(&v2, 6), vec![1, 4, 5]);

    let v3 = vec![1, 7, 3, 0, 4];
    assert_eq!(indices_complement(&v3, 8), vec![2, 5, 6]);
    assert_eq!(indices_complement(&v3, 9), vec![2, 5, 6, 8]);
}

#[test]
fn test_indices_complement_edges() {
    let empty: Vec<usize> = vec![];
    assert_eq!(indices_complement(&empty, 0usize), Vec::<usize>::new());
    assert_eq!(indices_complement(&empty, 3usize), vec![0, 1, 2]);
    let all: Vec<i32> = vec![2, 0, 1];
    assert_eq!(indices_complement(&all, 3usize), Vec::<i32>::new());
    let dup: Vec<i32> = vec![1, 1, 3, 3];
    assert_eq!(indices_complement(&dup, 5i32), vec![0, 2, 4]);
}

#[test]
fn test_pos_int_is_power_of() {
    assert!(pos_int_is_power_of(1usize, 5usize));
    assert!(pos_int_is_power_of(1usize, 1usize));
    assert!(pos_int_is_power_of(8usize, 2usize));
    assert!(pos_int_is_power_of(1024i32, 2i32));
    assert!(pos_int_is_power_of(81usize, 3i32));
    assert!(pos_int_is_power_of(3i32, 3usize));
    assert!(!pos_int_is_power_of(12usize, 2usize));
    assert!(!pos_int_is_power_of(6usize, 3usize));
    assert!(!pos_int_is_power_of(2usize, 3usize));
    assert!(!pos_int_is_power_of(18i32, 3i32));
    assert!(!pos_int_is_power_of(10usize, 100usize));
}
