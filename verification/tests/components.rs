use lib::components::{ComponentContainer, IdIter};
use std::collections::HashMap;

#[test]
fn new_container_is_empty() {
    let c: ComponentContainer<u32, String> = ComponentContainer::new();
    assert!(c.get_opt(1).is_none());
    assert!(c.ids_collected().is_empty());
}

#[test]
fn default_container_is_empty() {
    let c: ComponentContainer<u32, i32> = Default::default();
    assert!(c.get_opt(0).is_none());
    assert_eq!(c.ids_collected().len(), 0);
}

#[test]
fn get_opt_mut_finds_nothing_in_an_empty_table() {
    let mut c: ComponentContainer<u32, i32> = ComponentContainer::new();
    assert!(c.get_opt_mut(3).is_none());
    assert!(c.get_opt(3).is_none());
}

#[test]
fn ids_of_an_empty_table() {
    let c: ComponentContainer<i64, ()> = ComponentContainer::new();
    let mut it = c.ids();
    assert_eq!(it.next(), None);
    assert_eq!(it.next(), None);
    assert!(it.collect().is_empty());
}

#[test]
fn clone_of_an_empty_table_is_empty() {
    let c: ComponentContainer<u32, String> = ComponentContainer::new();
    let d = c.clone();
    assert!(d.get_opt(1).is_none());
    assert!(d.ids_collected().is_empty());
}

#[test]
fn id_iter_hands_out_every_key() {
    let mut map: HashMap<u32, char> = HashMap::new();
    map.insert(10, 'a');
    map.insert(20, 'b');
    let mut it: IdIter<u32, char> = IdIter::new(&map);
    let mut seen = Vec::new();
    while let Some(id) = it.next() {
        seen.push(id);
    }
    assert_eq!(it.next(), None);
    assert_eq!(it.next(), None);
    seen.sort();
    assert_eq!(seen, vec![10, 20]);
}

#[test]
fn id_iter_collects_what_remains() {
    let mut map: HashMap<u64, ()> = HashMap::new();
    for id in [5u64, 1, 9, 3] {
        map.insert(id, ());
    }
    let mut it: IdIter<u64, ()> = IdIter::new(&map);
    let first = it.next().unwrap();
    let mut rest = it.collect();
    assert_eq!(rest.len(), 3);
    assert!(!rest.contains(&first));
    rest.push(first);
    rest.sort();
    assert_eq!(rest, vec![1, 3, 5, 9]);
    assert_eq!(it.next(), None);
}
