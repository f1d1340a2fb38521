use containers::vector::Vector;

#[test]
fn new_vec() {
    let vec: Vector<i32> = Vector::new();
    assert_eq!(0, vec.len());
    assert_eq!(0, vec.capacity());
}

#[test]
fn vec_of_str_ref() {
    let string = String::from("scope string");
    let mut vec: Vector<&str> = Vector::new();
    vec.push(&string);
    vec.push("Static string");
    assert_eq!(2, vec.len());
    assert_eq!(2, vec.capacity());
    assert_eq!(Some("Static string"), vec.pop());
    assert_eq!(Some("scope string"), vec.pop());
    assert_eq!(0, vec.len());
    assert_eq!(2, vec.capacity());
}

#[test]
fn test_cap_exponential_grow() {
    let cap_order: [usize; 10] = [1, 2, 4, 4, 8, 8, 8, 8, 16, 16];

    let mut vec: Vector<usize> = Vector::new();
    for i in 0..10 {
        vec.push(i);
        assert_eq!(cap_order[i], vec.capacity());
        assert_eq!(i + 1, vec.len());
    }
    for i in (0..10).rev() {
        let val = vec.pop();
        assert_eq!(Some(i), val);
    }
    assert_eq!(0, vec.len());
    assert_eq!(16, vec.capacity());
}

#[test]
fn iterator() {
    let mut vec: Vector<usize> = Vector::new();
    for i in 0..10 {
        vec.push(i);
    }
    let mut it = vec.into_iter();
    let mut i = 0;
    while let Some(item) = it.next() {
        assert_eq!(i, item);
        i += 1;
    }
    assert_eq!(10, i);
}

#[test]
fn back_iterator() {
    let mut vec: Vector<usize> = Vector::new();
    for i in 0..10 {
        vec.push(i);
    }
    let mut it = vec.into_iter();
    let mut i = 0;
    while let Some(item) = it.next_back() {
        assert_eq!(9 - i, item);
        i += 1;
    }
    assert_eq!(10, i);
}

#[test]
fn sized() {
    let mut vec: Vector<String> = Vector::new();
    for i in 0..10 {
        vec.push(i.to_string());
    }
    let mut it = vec.into_iter();
    let mut i = 0;
    while let Some(item) = it.next() {
        assert_eq!(String::from(i.to_string()), item);
        i += 1;
    }
    assert_eq!(10, i);
}

fn pushed(n: usize) -> Vector<usize> {
    let mut vec: Vector<usize> = Vector::new();
    for i in 0..n {
        vec.push(i);
    }
    vec
}

fn contents(vec: &Vector<usize>) -> Vec<usize> {
    let mut out = Vec::new();
    for i in 0..vec.len() {
        out.push(*vec.get(i));
    }
    out
}

#[test]
fn capacity_is_smallest_power_of_two_at_least_len() {
    let mut vec: Vector<u8> = Vector::new();
    assert_eq!(0, vec.capacity());
    for k in 1..=100usize {
        vec.push(0);
        assert_eq!(k.next_power_of_two(), vec.capacity());
        assert_eq!(k, vec.len());
    }
}

#[test]
fn pop_on_empty_changes_nothing() {
    let mut vec: Vector<usize> = Vector::new();
    assert_eq!(None, vec.pop());
    assert_eq!(0, vec.len());
    assert_eq!(0, vec.capacity());
    let mut vec = pushed(3);
    for _ in 0..3 {
        vec.pop();
    }
    assert_eq!(None, vec.pop());
    assert_eq!(0, vec.len());
    assert_eq!(4, vec.capacity());
}

#[test]
fn insert_shifts_suffix_right() {
    let mut vec = pushed(4);
    vec.insert(1, 100);
    assert_eq!(vec![0, 100, 1, 2, 3], contents(&vec));
    assert_eq!(8, vec.capacity());
    vec.insert(0, 200);
    assert_eq!(vec![200, 0, 100, 1, 2, 3], contents(&vec));
    vec.insert(6, 300);
    assert_eq!(vec![200, 0, 100, 1, 2, 3, 300], contents(&vec));
}

#[test]
fn insert_into_empty_grows_to_one() {
    let mut vec: Vector<usize> = Vector::new();
    vec.insert(0, 7);
    assert_eq!(vec![7], contents(&vec));
    assert_eq!(1, vec.capacity());
}

#[test]
fn remove_shifts_suffix_left() {
    let mut vec = pushed(5);
    assert_eq!(2, vec.remove(2));
    assert_eq!(vec![0, 1, 3, 4], contents(&vec));
    assert_eq!(0, vec.remove(0));
    assert_eq!(4, vec.remove(2));
    assert_eq!(vec![1, 3], contents(&vec));
    assert_eq!(8, vec.capacity());
}

#[test]
fn vector_insert_then_remove_round_trip() {
    for pos in 0..=5 {
        let mut vec = pushed(5);
        vec.insert(pos, 42);
        assert_eq!(42, vec.remove(pos));
        assert_eq!(vec![0, 1, 2, 3, 4], contents(&vec));
        assert_eq!(5, vec.len());
    }
}

#[test]
fn get_mut_writes_in_place() {
    let mut vec = pushed(3);
    *vec.get_mut(1) = 9;
    assert_eq!(vec![0, 9, 2], contents(&vec));
}

#[test]
fn consuming_from_both_ends_meets_in_the_middle() {
    let mut it = pushed(7).into_iter();
    assert_eq!((7, Some(7)), it.size_hint());
    let mut front = Vec::new();
    let mut back = Vec::new();
    loop {
        match it.next() {
            Some(v) => front.push(v),
            None => break,
        }
        match it.next_back() {
            Some(v) => back.push(v),
            None => break,
        }
    }
    assert_eq!(vec![0, 1, 2, 3], front);
    assert_eq!(vec![6, 5, 4], back);
    assert_eq!(0, it.len());
    assert_eq!(None, it.next());
    assert_eq!(None, it.next_back());
}

#[test]
fn partial_consumption_then_drop() {
    let mut vec: Vector<String> = Vector::new();
    for i in 0..5 {
        vec.push(i.to_string());
    }
    let mut it = vec.into_iter();
    assert_eq!(Some(String::from("0")), it.next());
    assert_eq!(Some(String::from("4")), it.next_back());
    assert_eq!((3, Some(3)), it.size_hint());
}

#[test]
fn empty_into_iter_yields_nothing() {
    let vec: Vector<usize> = Vector::new();
    let mut it = vec.into_iter();
    assert_eq!(0, it.len());
    assert_eq!(None, it.next());
    assert_eq!(None, it.next_back());
}

#[test]
fn capacity_stays_power_of_two_and_covers_len() {
    let mut vec = pushed(3);
    vec.insert(0, 9);
    vec.insert(2, 8);
    vec.remove(1);
    vec.insert(4, 7);
    assert_eq!(5, vec.len());
    assert_eq!(8, vec.capacity());
    assert!(vec.capacity().is_power_of_two());
    assert!(vec.len() <= vec.capacity());
}
