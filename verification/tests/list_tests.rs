use algos::list::LinkedList;

fn render<T: std::fmt::Display>(list: &mut LinkedList<T>) -> String {
    let mut parts: Vec<String> = Vec::new();
    let mut i: i32 = 0;
    while i < list.length as i32 {
        parts.push(format!("{}", list.get(i).unwrap()));
        i += 1;
    }
    parts.join(", ")
}

#[test]
fn create_numeric_list() {
    let mut list = LinkedList::<i32>::new();
    list.add(1);
    list.add(2);
    list.add(3);
    println!("Linked List is {}", render(&mut list));
    assert_eq!(3, list.length);
    assert_eq!(Some(&1), list.get(0));
}

#[test]
fn create_string_list() {
    let mut list_str = LinkedList::<String>::new();
    list_str.add("A".to_string());
    list_str.add("B".to_string());
    list_str.add("C".to_string());
    println!("Linked List is {}", render(&mut list_str));
    assert_eq!(3, list_str.length);
    assert_eq!(Some(&"A".to_string()), list_str.get(0));
}

#[test]
fn list_get_every_position_and_out_of_range() {
    let mut list = LinkedList::<i32>::new();
    assert_eq!(None, list.get(0));
    list.add(10);
    list.add(20);
    list.add(30);
    assert_eq!(Some(&10), list.get(0));
    assert_eq!(Some(&20), list.get(1));
    assert_eq!(Some(&30), list.get(2));
    assert_eq!(None, list.get(3));
    assert_eq!(None, list.get(-1));
}

#[test]
fn test_merge_linked_list_1() {
    let mut list_a = LinkedList::<i32>::new();
    let mut list_b = LinkedList::<i32>::new();
    let vec_a = vec![1, 3, 5, 7];
    let vec_b = vec![2, 4, 6, 8];
    let target_vec = vec![1, 2, 3, 4, 5, 6, 7, 8];

    for i in 0..vec_a.len() {
        list_a.add(vec_a[i]);
    }
    for i in 0..vec_b.len() {
        list_b.add(vec_b[i]);
    }
    println!("list a: {} list b: {}", render(&mut list_a), render(&mut list_b));
    let mut list_c = LinkedList::<i32>::merge(list_a, list_b);
    println!("merged List is: {}", render(&mut list_c));
    assert_eq!(target_vec.len() as u32, list_c.length);
    for i in 0..target_vec.len() {
        assert_eq!(target_vec[i], *list_c.get(i as i32).unwrap());
    }
}

#[test]
fn test_merge_linked_list_2() {
    let mut list_a = LinkedList::<i32>::new();
    let mut list_b = LinkedList::<i32>::new();
    let vec_a = vec![11, 33, 44, 88, 89, 90, 100];
    let vec_b = vec![1, 22, 30, 45];
    let target_vec = vec![1, 11, 22, 30, 33, 44, 45, 88, 89, 90, 100];

    for i in 0..vec_a.len() {
        list_a.add(vec_a[i]);
    }
    for i in 0..vec_b.len() {
        list_b.add(vec_b[i]);
    }
    println!("list a: {} list b: {}", render(&mut list_a), render(&mut list_b));
    let mut list_c = LinkedList::<i32>::merge(list_a, list_b);
    println!("merged List is: {}", render(&mut list_c));
    assert_eq!(target_vec.len() as u32, list_c.length);
    for i in 0..target_vec.len() {
        assert_eq!(target_vec[i], *list_c.get(i as i32).unwrap());
    }
}

#[test]
fn test_merge_linked_list_empty() {
    let mut list_a = LinkedList::<i32>::new();
    let mut list_b = LinkedList::<i32>::new();
    let vec_b = vec![1, 2, 3];
    let target_vec = vec![1, 2, 3];

    for i in 0..vec_b.len() {
        list_b.add(vec_b[i]);
    }

    println!("list a: {} list b: {}", render(&mut list_a), render(&mut list_b));
    let mut list_c = LinkedList::<i32>::merge(list_a, list_b);
    println!("merged List is: {}", render(&mut list_c));
    assert_eq!(target_vec.len() as u32, list_c.length);
    for i in 0..target_vec.len() {
        assert_eq!(target_vec[i], *list_c.get(i as i32).unwrap());
    }

    let mut list_a = LinkedList::<i32>::new();
    let mut list_b = LinkedList::<i32>::new();
    let vec_a = vec![4, 5, 6];
    let target_vec = vec![4, 5, 6];

    for i in 0..vec_a.len() {
        list_a.add(vec_a[i]);
    }

    println!("list a: {} list b: {}", render(&mut list_a), render(&mut list_b));
    let mut list_c = LinkedList::<i32>::merge(list_a, list_b);
    println!("merged List is: {}", render(&mut list_c));
    assert_eq!(target_vec.len() as u32, list_c.length);
    for i in 0..target_vec.len() {
        assert_eq!(target_vec[i], *list_c.get(i as i32).unwrap());
    }
}
