use json::hash::hash_key;
use json::object::{Iter, IterMut, Object};

fn keys_of(o: &Object<i32>) -> Vec<String> {
    let mut it = o.iter();
    let mut out = Vec::new();
    while let Some((k, _)) = it.next() {
        out.push(k.to_string());
    }
    out
}

fn pairs_of(o: &Object<i32>) -> Vec<(String, i32)> {
    let mut it = o.iter();
    let mut out = Vec::new();
    while let Some((k, v)) = it.next() {
        out.push((k.to_string(), *v));
    }
    out
}

#[test]
fn hash_key_spreads_sorted_ids() {
    assert_eq!(hash_key(b"10000056"), 15043794053238616431);
    assert_eq!(hash_key(b"10000057"), 15043792953726988220);
    assert_eq!(hash_key(b"10000058"), 15043800650308385697);
    assert_eq!(hash_key(b"10000059"), 15043799550796757486);
}

#[test]
fn hash_key_of_empty_is_offset_basis() {
    assert_eq!(hash_key(b""), 0xcbf29ce484222325);
    assert_eq!(hash_key(b"a"), 12638187200555641996);
}

#[test]
fn new_object_is_empty() {
    let o: Object<i32> = Object::new();
    assert_eq!(o.len(), 0);
    assert!(o.is_empty());
    assert!(o.get("foo").is_none());
    let c: Object<i32> = Object::with_capacity(16);
    assert!(c.is_empty());
}

#[test]
fn read_after_write() {
    let mut o = Object::new();
    o.insert("foo", 1);
    o.insert("bar", 2);
    assert_eq!(o.get("foo"), Some(&1));
    assert_eq!(o.get("bar"), Some(&2));
    assert_eq!(o.get("baz"), None);
    assert_eq!(o.len(), 2);
    assert!(!o.is_empty());
}

#[test]
fn insert_overrides_in_place() {
    let mut o = Object::new();
    o.insert("a", 1);
    o.insert("b", 2);
    o.insert("c", 3);
    o.insert("b", 20);
    assert_eq!(o.len(), 3);
    assert_eq!(pairs_of(&o), vec![("a".to_string(), 1), ("b".to_string(), 20), ("c".to_string(), 3)]);
}

#[test]
fn many_sorted_keys_are_all_found() {
    let mut o = Object::new();
    for i in 0..500 {
        let k = format!("{}", 10000000 + i);
        o.insert(&k, i);
    }
    assert_eq!(o.len(), 500);
    for i in 0..500 {
        let k = format!("{}", 10000000 + i);
        assert_eq!(o.get(&k), Some(&i));
    }
    assert_eq!(o.get("9999999"), None);
    let keys = keys_of(&o);
    for (i, k) in keys.iter().enumerate() {
        assert_eq!(*k, format!("{}", 10000000 + i));
    }
}

#[test]
fn long_and_unicode_keys() {
    let long = "k".repeat(100);
    let mut o = Object::new();
    o.insert(&long, 1);
    o.insert("ключ", 2);
    o.insert("", 3);
    assert_eq!(o.get(&long), Some(&1));
    assert_eq!(o.get("ключ"), Some(&2));
    assert_eq!(o.get(""), Some(&3));
    assert_eq!(o.get(&"k".repeat(99)), None);
}

#[test]
fn remove_returns_value_and_keeps_order() {
    let mut o = Object::new();
    o.insert("a", 1);
    o.insert("b", 2);
    o.insert("c", 3);
    o.insert("d", 4);
    assert_eq!(o.remove("b"), Some(2));
    assert_eq!(o.get("b"), None);
    assert_eq!(o.len(), 3);
    assert_eq!(keys_of(&o), vec!["a", "c", "d"]);
    assert_eq!(o.get("c"), Some(&3));
    assert_eq!(o.get("d"), Some(&4));
    assert_eq!(o.remove("b"), None);
    assert_eq!(o.len(), 3);
}

#[test]
fn remove_from_empty_and_last() {
    let mut o: Object<i32> = Object::new();
    assert_eq!(o.remove("x"), None);
    o.insert("x", 7);
    assert_eq!(o.remove("x"), Some(7));
    assert!(o.is_empty());
    o.insert("y", 8);
    assert_eq!(o.get("y"), Some(&8));
}

#[test]
fn remove_undoes_insert_of_new_key() {
    let mut o = Object::new();
    o.insert("a", 1);
    o.insert("b", 2);
    let before = pairs_of(&o);
    o.insert("z", 26);
    o.remove("z");
    assert_eq!(pairs_of(&o), before);
}

#[test]
fn clear_empties() {
    let mut o = Object::new();
    o.insert("a", 1);
    o.clear();
    assert!(o.is_empty());
    assert_eq!(o.get("a"), None);
    o.insert("a", 2);
    assert_eq!(o.get("a"), Some(&2));
}

#[test]
fn get_mut_changes_value() {
    let mut o = Object::new();
    o.insert("a", 1);
    if let Some(v) = o.get_mut("a") {
        *v = 10;
    }
    assert_eq!(o.get("a"), Some(&10));
    assert!(o.get_mut("b").is_none());
}

#[test]
fn override_last_sets_newest_entry() {
    let mut o = Object::new();
    o.override_last(5);
    assert!(o.is_empty());
    o.insert("a", 1);
    o.insert("b", 2);
    o.override_last(9);
    assert_eq!(o.get("b"), Some(&9));
    assert_eq!(o.get("a"), Some(&1));
}

#[test]
fn index_gives_null_for_missing_key() {
    let mut o = Object::new();
    o.insert("foo", 1);
    let null = 0;
    assert_eq!(*o.index("foo", &null), 1);
    assert_eq!(*o.index("bar", &null), 0);
}

#[test]
fn index_mut_inserts_null_then_writes() {
    let mut o = Object::new();
    *o.index_mut("foo", 0) = 42;
    assert_eq!(o.get("foo"), Some(&42));
    *o.index_mut("foo", 0) += 1;
    assert_eq!(o.get("foo"), Some(&43));
    assert_eq!(*o.index_mut("bar", -1), -1);
    assert_eq!(keys_of(&o), vec!["foo", "bar"]);
}

#[test]
fn from_iter_later_pairs_win() {
    let o = Object::from_iter(vec![("a", 1), ("b", 2), ("a", 3)]);
    assert_eq!(o.len(), 2);
    assert_eq!(pairs_of(&o), vec![("a".to_string(), 3), ("b".to_string(), 2)]);
}

#[test]
fn eq_ignores_order() {
    let a = Object::from_iter(vec![("x", 1), ("y", 2)]);
    let b = Object::from_iter(vec![("y", 2), ("x", 1)]);
    let c = Object::from_iter(vec![("x", 1), ("y", 3)]);
    let d = Object::from_iter(vec![("x", 1)]);
    let e = Object::from_iter(vec![("x", 1), ("z", 2)]);
    assert!(a.eq(&b));
    assert!(!a.eq(&c));
    assert!(!a.eq(&d));
    assert!(!a.eq(&e));
}

#[test]
fn iter_from_both_ends() {
    let o = Object::from_iter(vec![("a", 1), ("b", 2), ("c", 3)]);
    let mut it = o.iter();
    assert_eq!(it.len(), 3);
    assert_eq!(it.next(), Some(("a", &1)));
    assert_eq!(it.next_back(), Some(("c", &3)));
    assert_eq!(it.len(), 1);
    assert_eq!(it.next(), Some(("b", &2)));
    assert_eq!(it.next(), None);
    assert_eq!(it.next_back(), None);
}

#[test]
fn empty_iterators_yield_nothing() {
    let mut it: Iter<i32> = Iter::empty();
    assert_eq!(it.len(), 0);
    assert!(it.next().is_none());
    let mut m: IterMut<i32> = IterMut::empty();
    assert_eq!(m.len(), 0);
    assert!(m.next().is_none());
}

#[test]
fn iter_mut_modifies_values() {
    let mut o = Object::from_iter(vec![("a", 1), ("b", 2), ("c", 3)]);
    {
        let mut it = o.iter_mut();
        assert_eq!(it.len(), 3);
        while let Some((k, v)) = it.next() {
            if k == "b" {
                *v = 20;
            } else {
                *v += 100;
            }
        }
    }
    {
        let mut it = o.iter_mut();
        if let Some((k, v)) = it.next_back() {
            assert_eq!(k, "c");
            *v += 1;
        }
    }
    assert_eq!(pairs_of(&o), vec![("a".to_string(), 101), ("b".to_string(), 20), ("c".to_string(), 104)]);
}

#[test]
fn clone_is_independent() {
    let mut a = Object::from_iter(vec![("a", 1)]);
    let b = a.clone();
    a.insert("a", 2);
    assert_eq!(b.get("a"), Some(&1));
    assert_eq!(a.get("a"), Some(&2));
}

#[test]
fn inserts_under_different_keys_commute() {
    let mut a = Object::new();
    a.insert("x", 1);
    a.insert("y", 2);
    let mut b = Object::new();
    b.insert("y", 2);
    b.insert("x", 1);
    assert!(a.eq(&b));
    assert_eq!(keys_of(&a), vec!["x", "y"]);
    assert_eq!(keys_of(&b), vec!["y", "x"]);
}

#[test]
fn storing_twice_keeps_second_value() {
    let mut a = Object::new();
    a.insert("k", 1);
    a.insert("k", 2);
    let mut b = Object::new();
    b.insert("k", 2);
    assert_eq!(pairs_of(&a), pairs_of(&b));
}

#[test]
fn entry_at_mut_writes_back() {
    let mut o = Object::from_iter(vec![("a", 1), ("b", 2), ("c", 3)]);
    for i in 0..o.len() {
        if let Some((k, v)) = o.entry_at_mut(i) {
            *v = if k == "b" { 20 } else { *v + 100 };
        }
    }
    assert!(o.entry_at_mut(3).is_none());
    assert_eq!(pairs_of(&o), vec![("a".to_string(), 101), ("b".to_string(), 20), ("c".to_string(), 103)]);
    assert_eq!(o.get("b"), Some(&20));
    assert_eq!(o.len(), 3);
}

#[test]
fn iter_interleaved_hands_out_each_once() {
    let o = Object::from_iter(vec![("a", 1), ("b", 2), ("c", 3), ("d", 4)]);
    let mut it = o.iter();
    assert_eq!(it.next_back(), Some(("d", &4)));
    assert_eq!(it.next(), Some(("a", &1)));
    assert_eq!(it.next_back(), Some(("c", &3)));
    assert_eq!(it.next(), Some(("b", &2)));
    assert_eq!(it.next(), None);
    assert_eq!(it.next_back(), None);
}

#[test]
fn eq_is_reflexive_and_symmetric() {
    let a = Object::from_iter(vec![("x", 1), ("y", 2)]);
    let b = Object::from_iter(vec![("y", 2), ("x", 1)]);
    let c = Object::from_iter(vec![("x", 1), ("y", 2)]);
    assert!(a.eq(&a));
    assert_eq!(a.eq(&b), b.eq(&a));
    assert!(a.eq(&b) && b.eq(&c) && a.eq(&c));
}

#[test]
fn iter_mut_keeps_keys_and_order() {
    let mut o = Object::from_iter(vec![("a", 1), ("b", 2), ("c", 3)]);
    {
        let mut it = o.iter_mut();
        while let Some((_k, v)) = it.next_back() {
            *v *= 10;
        }
    }
    assert_eq!(o.len(), 3);
    assert_eq!(pairs_of(&o), vec![("a".to_string(), 10), ("b".to_string(), 20), ("c".to_string(), 30)]);
    o.insert("d", 4);
    assert_eq!(o.get("d"), Some(&4));
}
