use algos::sorting::sort;

#[test]
fn test_sort_1() {
    let mut vec = vec![37, 73, 57, 75, 91, 19, 46, 64];
    sort(&mut vec);
    assert_eq!(vec, vec![19, 37, 46, 57, 64, 73, 75, 91]);
}

#[test]
fn test_sort_2() {
    let mut vec = vec![1];
    sort(&mut vec);
    assert_eq!(vec, vec![1]);
}

#[test]
fn test_sort_3() {
    let mut vec = vec![99, 88, 77, 66, 55, 44, 33, 22, 11];
    sort(&mut vec);
    assert_eq!(vec, vec![11, 22, 33, 44, 55, 66, 77, 88, 99]);
}

#[test]
fn test_sort_4_empty() {
    let mut vec: Vec<i32> = vec![];
    sort(&mut vec);
    assert_eq!(vec, vec![]);
}

#[test]
fn test_sort_5_duplicates() {
    let mut vec = vec![5, 1, 5, 2, 8, 2, 5];
    sort(&mut vec);
    assert_eq!(vec, vec![1, 2, 2, 5, 5, 5, 8]);
}

#[test]
fn sort_keeps_negative_values_in_order() {
    let mut vec = vec![0, -5, 3, -5, 2];
    sort(&mut vec);
    assert_eq!(vec, vec![-5, -5, 0, 2, 3]);
}
