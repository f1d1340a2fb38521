use containers::circular::Circular;

fn order<T: Clone>(c: &Circular<T>) -> Vec<T> {
    let mut out = Vec::new();
    for i in 0..c.len() {
        out.push(c.value_at(i).clone());
    }
    out
}

fn numbers(n: usize) -> Circular<usize> {
    let mut c: Circular<usize> = Circular::new();
    for i in 0..n {
        c.insert(i, i);
    }
    c
}

#[test]
fn test_iter() {
    let mut c: Circular<String> = Circular::new();
    for i in 1..=3 {
        c.prepend(i.to_string());
    }
    {
        let mut it = c.iter_mut();
        for i in 0..6 {
            let val = it.next().unwrap();
            val.push_str(&i.to_string());
        }
    }
    assert_eq!(3, c.len());
    assert_eq!("303", *c.index(0));
    assert_eq!("214", *c.index(1));
    assert_eq!("125", *c.index(2));
}

#[test]
fn prepend_then_remove_middle() {
    let mut c: Circular<String> = Circular::new();
    c.prepend(String::from("1"));
    c.prepend(String::from("2"));
    c.prepend(String::from("3"));
    assert_eq!(vec!["3", "2", "1"], order(&c));
    assert_eq!("2", c.remove(1));
    assert_eq!(vec!["3", "1"], order(&c));
    assert_eq!(2, c.len());
}

#[test]
fn insert_into_empty_links_node_to_itself() {
    let mut c: Circular<usize> = Circular::new();
    assert_eq!(0, c.len());
    c.insert(0, 5);
    assert_eq!(1, c.len());
    assert_eq!(vec![5], order(&c));
    let mut it = c.iter_mut();
    assert_eq!(Some(&mut 5), it.next());
    assert_eq!(Some(&mut 5), it.next());
    assert_eq!(Some(&mut 5), it.next_back());
    assert_eq!(Some(&mut 5), it.next_back());
}

#[test]
fn iter_mut_on_empty_yields_nothing() {
    let mut c: Circular<usize> = Circular::new();
    let mut it = c.iter_mut();
    assert_eq!(None, it.next());
    assert_eq!(None, it.next_back());
}

#[test]
fn insert_at_each_position() {
    let mut c = numbers(3);
    c.insert(0, 10);
    assert_eq!(vec![10, 0, 1, 2], order(&c));
    c.insert(2, 20);
    assert_eq!(vec![10, 0, 20, 1, 2], order(&c));
    c.insert(5, 30);
    assert_eq!(vec![10, 0, 20, 1, 2, 30], order(&c));
}

#[test]
fn remove_first_passes_first_on() {
    let mut c = numbers(4);
    assert_eq!(0, c.remove(0));
    assert_eq!(vec![1, 2, 3], order(&c));
    assert_eq!(3, c.remove(2));
    assert_eq!(vec![1, 2], order(&c));
    assert_eq!(1, c.remove(0));
    assert_eq!(2, c.remove(0));
    assert_eq!(0, c.len());
    c.insert(0, 8);
    assert_eq!(vec![8], order(&c));
}

#[test]
fn freed_slots_are_reused() {
    let mut c = numbers(5);
    c.remove(1);
    c.remove(2);
    c.insert(1, 11);
    c.insert(3, 33);
    c.insert(5, 55);
    assert_eq!(vec![0, 11, 2, 33, 4, 55], order(&c));
    let mut it = c.iter_mut();
    let mut back = Vec::new();
    for _ in 0..6 {
        back.push(*it.next_back().unwrap());
    }
    assert_eq!(vec![55, 4, 33, 2, 11, 0], back);
}

#[test]
fn circular_insert_then_remove_round_trip() {
    for pos in 0..=4 {
        let mut c = numbers(4);
        c.insert(pos, 99);
        assert_eq!(99, c.remove(pos));
        assert_eq!(vec![0, 1, 2, 3], order(&c));
    }
}

#[test]
fn forward_iteration_wraps_after_size_steps() {
    let mut c = numbers(4);
    let mut seen = Vec::new();
    let mut it = c.iter_mut();
    for _ in 0..7 {
        seen.push(*it.next().unwrap());
    }
    assert_eq!(vec![0, 1, 2, 3, 0, 1, 2], seen);
}

#[test]
fn backward_iteration_starts_at_last_and_wraps() {
    let mut c = numbers(3);
    let mut seen = Vec::new();
    let mut it = c.iter_mut();
    for _ in 0..5 {
        seen.push(*it.next_back().unwrap());
    }
    assert_eq!(vec![2, 1, 0, 2, 1], seen);
}

#[test]
fn index_wraps_modulo_size() {
    let c = numbers(3);
    for i in 0..20 {
        assert_eq!(*c.index(i % 3), *c.index(i));
        assert_eq!(i % 3, *c.index(i));
    }
}

#[test]
fn index_mut_and_value_at_mut_write_in_place() {
    let mut c = numbers(3);
    *c.index_mut(4) = 40;
    *c.value_at_mut(2) = 20;
    assert_eq!(vec![0, 40, 20], order(&c));
}
