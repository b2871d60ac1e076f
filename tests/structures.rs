use scheduler::structures::{DLLNode, DataStructureError, DLL};

fn obtain_list() -> DLL<u8> {
    let mut list = DLL::new();
    for x in 0..5 {
        list.append(x);
    }
    list
}

fn obtain_vector() -> Vec<u8> {
    (0..5).collect()
}

#[test]
fn structures_new() {
    let value = 1;
    let node = DLLNode::<usize>::new(value);
    assert_eq!(node.value, 1);
    assert_eq!(node.next, None);
    assert_eq!(node.prev, None);
}

#[test]
fn new() {
    let list: DLL<usize> = DLL::new();
    assert_eq!(list.len(), 0);
    assert_eq!(list.front(), None);
    assert_eq!(list.back(), None);
}

#[test]
fn append() {
    let mut list: DLL<u8> = DLL::new();
    for (i, x) in (0..3).enumerate() {
        assert_eq!(list.len(), i);
        list.append(x);
        assert_eq!(list.len(), i + 1);
        assert_eq!(list.back(), Some(&x));
    }
}

#[test]
fn prepend() {
    let mut list = DLL::new();
    for x in 0..5 {
        assert_eq!(list.len(), x);
        list.prepend(x);
        assert_eq!(list.front(), Some(&x));
    }
}

#[test]
fn pop_back() {
    let mut list = obtain_list();
    assert_eq!(list.len(), 5);
    for x in (0..5u8).rev() {
        assert_eq!(list.pop_back(), Some(x));
        assert_eq!(list.len() as u8, x);
    }
}

#[test]
fn pop_front() {
    let mut list = obtain_list();
    let end = 5;
    assert_eq!(list.len(), 5);
    for x in 0..5u8 {
        assert_eq!(list.pop_front(), Some(x));
        assert_eq!(list.len() as u8, end - (x + 1));
    }
}

#[test]
fn into_iter() {
    let list = obtain_list();
    let mut iter = list.into_iter();
    let mut count = 0;
    while iter.next().is_some() {
        count += 1;
    }
    assert_eq!(count, (0..5).count());
}

#[test]
fn exact_sized_iterator() {
    let list = obtain_list();
    let range = 0..5u8;
    let mut iter = list.iter();

    assert_eq!(iter.len(), range.len());
    let mut count = 0;
    for y in range {
        match iter.next() {
            Some(x) => {
                assert_eq!(*x, y);
                count += 1;
            }
            None => break,
        }
    }
    assert_eq!(count, 5);
    assert_eq!(iter.next(), None);
}

#[test]
fn double_ended_iter() {
    let list = obtain_list();
    let mut iter = list.iter();
    assert_eq!(iter.next(), Some(&0));
    assert_eq!(iter.next_back(), Some(&4));
    assert_eq!(iter.next(), Some(&1));
    assert_eq!(iter.next_back(), Some(&3));
    assert_eq!(iter.len(), 1);
    assert_eq!(iter.next_back(), Some(&2));
    assert_eq!(iter.next(), None);
    assert_eq!(iter.next_back(), None);
}

#[test]
fn from_iterator() {
    let list = obtain_list();
    assert_eq!(list.into_vec(), obtain_vector())
}

#[test]
fn insert() {
    let value = 100;
    let index = 3;
    let mut list_a = obtain_list();
    let mut list_b = obtain_list();

    list_a.insert(index, value).unwrap();
    list_b.insert(index, value).unwrap();
    list_a.append(value);
    list_b.append(value);

    // check indices
    let mut vector_a: Vec<_> = list_a.into_vec();
    assert_eq!(vector_a[index], value);
    assert_eq!(vector_a.last(), Some(&value));

    //check insert at front
    vector_a.insert(0, value);
    list_b.insert(0, value).unwrap();
    assert_eq!(vector_a.len(), list_b.len());

    let vector_b: Vec<_> = list_b.into_vec();
    assert_eq!(vector_a, vector_b);
}

#[test]
fn insert_at_length_appends_and_past_it_fails() {
    let mut list = obtain_list();
    assert_eq!(list.insert(5, 9), Ok(()));
    assert_eq!(list.back(), Some(&9));
    assert_eq!(list.insert(7, 1), Err(DataStructureError::InvalidIndex));
    assert_eq!(list.into_vec(), vec![0, 1, 2, 3, 4, 9]);
}

#[test]
fn insert_into_empty_and_middle() {
    let mut list: DLL<u8> = DLL::new();
    assert_eq!(list.insert(1, 3), Err(DataStructureError::InvalidIndex));
    list.insert(0, 3).unwrap();
    list.insert(0, 1).unwrap();
    list.insert(1, 2).unwrap();
    assert_eq!(list.into_vec(), vec![1, 2, 3]);
}

#[test]
fn fifo_pushes_then_pops() {
    let n: usize = 8;
    let mut list: DLL<usize> = DLL::new();
    for k in 0..n {
        assert_eq!(list.len(), k);
        list.append(k * 10);
    }
    assert_eq!(list.len(), n);
    for k in 0..n {
        assert_eq!(list.pop_front(), Some(k * 10));
        assert_eq!(list.len(), n - k - 1);
    }
    assert!(list.is_empty());
    assert_eq!(list.pop_front(), None);
    assert_eq!(list.pop_back(), None);
}

#[test]
fn round_trip_through_the_queue() {
    for n in 0..6usize {
        let v: Vec<usize> = (0..n).map(|x| x * 3 + 1).collect();
        let list = DLL::from_vec(v.clone());
        assert_eq!(list.len(), n);
        assert_eq!(list.into_vec(), v);
    }
}

#[test]
fn freed_slots_are_reused_without_mixing_values() {
    let mut list: DLL<u32> = DLL::new();
    let mut model: std::collections::VecDeque<u32> = std::collections::VecDeque::new();
    for round in 0..50u32 {
        list.append(round);
        model.push_back(round);
        list.append(round + 1000);
        model.push_back(round + 1000);
        assert_eq!(list.pop_front(), model.pop_front());
        list.prepend(round + 2000);
        model.push_front(round + 2000);
        assert_eq!(list.pop_back(), model.pop_back());
        let at = (round as usize) % (model.len() + 1);
        list.insert(at, round + 3000).unwrap();
        model.insert(at, round + 3000);
        assert_eq!(list.len(), model.len());
    }
    assert_eq!(list.into_vec(), model.into_iter().collect::<Vec<_>>());
}

#[test]
fn exact_sized_iterator_mut() {
    let mut list = obtain_list();
    let range = 0..5u8;
    let mut iter = list.iter_mut();

    assert_eq!(iter.len(), range.len());
    let mut count = 0;
    for y in range {
        match iter.next() {
            Some(x) => {
                assert_eq!(*x, y);
                count += 1;
            }
            None => break,
        }
    }
    assert_eq!(count, 5);
    assert_eq!(iter.len(), 0);
    assert!(iter.next().is_none());
}

#[test]
fn iter_mut_changes_the_values_in_place() {
    let mut list = obtain_list();
    {
        let mut iter = list.iter_mut();
        while let Some(x) = iter.next() {
            *x *= 10;
        }
    }
    assert_eq!(list.len(), 5);
    assert_eq!(list.into_vec(), vec![0, 10, 20, 30, 40]);
}

#[test]
fn double_ended_iter_mut() {
    let mut list = obtain_list();
    {
        let mut iter = list.iter_mut();
        assert_eq!(iter.next().map(|x| *x), Some(0));
        match iter.next_back() {
            Some(x) => {
                assert_eq!(*x, 4);
                *x = 40;
            }
            None => panic!("the walk ended early"),
        }
        assert_eq!(iter.next().map(|x| *x), Some(1));
        assert_eq!(iter.next_back().map(|x| *x), Some(3));
        assert_eq!(iter.len(), 1);
        assert_eq!(iter.next_back().map(|x| *x), Some(2));
        assert!(iter.next().is_none());
        assert!(iter.next_back().is_none());
    }
    assert_eq!(list.into_vec(), vec![0, 1, 2, 3, 40]);
}
