use std::collections::HashMap;

use simple_graph::ops::SuperIndex;

#[test]
fn enumerate_vec() {
    let v = vec![10, 20, 30, 40];

    // behaves like v.iter().enumerate()
    let mut e = v.enumerate().into_iter();
    assert_eq!(e.next(), Some((0, &10)));
    assert_eq!(e.next(), Some((1, &20)));
    assert_eq!(e.next(), Some((2, &30)));
    assert_eq!(e.next(), Some((3, &40)));
    assert_eq!(e.next(), None);

    for (index, item) in v.enumerate() {
        assert_eq!(&v[index], item);
    }
}

#[test]
fn enumerate_hashmap() {
    let mut capitals = HashMap::new();
    capitals.insert("Italy", "Rome");
    capitals.insert("France", "Paris");
    capitals.insert("Germany", "Mallorca");

    // visits every pair once, like capitals.iter()
    let mut count = 0;
    for (index, value) in capitals.enumerate() {
        count += 1;
        if index == "Italy" {
            assert_eq!(value, &"Rome")
        }
        if index == "France" {
            assert_eq!(value, &"Paris")
        }
        if index == "Germany" {
            assert_eq!(value, &"Mallorca")
        }
    }
    assert_eq!(count, 3);

    for (index, item) in capitals.enumerate() {
        assert_eq!(&capitals[index], item);
    }
}

#[test]
fn enumerate_empty() {
    let v: Vec<u8> = Vec::new();
    assert!(v.enumerate().is_empty());
    let m: HashMap<u32, u8> = HashMap::new();
    assert!(m.enumerate().is_empty());
}

#[test]
fn enumerate_hashmap_lists_each_key_once() {
    let mut m = HashMap::new();
    for k in 0..50u32 {
        m.insert(k, k * 2);
    }
    let mut keys: Vec<u32> = m.enumerate().iter().map(|p| p.0).collect();
    assert_eq!(keys.len(), 50);
    keys.sort();
    assert_eq!(keys, (0..50).collect::<Vec<u32>>());
    for (k, v) in m.enumerate() {
        assert_eq!(*v, k * 2);
    }
}

#[test]
fn lookup_present_and_absent() {
    let v = vec![10, 20, 30];
    assert_eq!(v.lookup(2), Some(&30));
    assert_eq!(v.lookup(3), None);
    let mut m = HashMap::new();
    m.insert("Italy", "Rome");
    assert_eq!(m.lookup("Italy"), Some(&"Rome"));
    assert_eq!(m.lookup("Spain"), None);
}
