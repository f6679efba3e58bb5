use uset::umap::UMap;
use uset::uset::USet;

#[test]
fn round_trip_sorts_distinct_keys() {
    let s = USet::from_slice(&[10, 3, 7, 0, 12]);
    assert_eq!(s.to_vec(), vec![0, 3, 7, 10, 12]);
}

#[test]
fn repeated_keys_collapse() {
    let s = USet::from_slice(&[4, 4, 2, 2, 9]);
    assert_eq!(s.len(), 3);
    assert_eq!(s.to_vec(), vec![2, 4, 9]);
}

#[test]
fn bounds_come_from_unsorted_input() {
    let s = USet::from_slice(&[10, 3, 7]);
    assert_eq!(s.min(), Some(3));
    assert_eq!(s.max(), Some(10));
    assert_eq!(s.capacity(), 8);
    let wide = USet::from_slice(&[20, 5, 11]);
    assert_eq!(wide.capacity(), 16);
}

#[test]
fn map_bounds_come_from_unsorted_input() {
    let m = UMap::from_slice(&[(9, 'x'), (2, 'y'), (5, 'z')]);
    assert_eq!(m.min(), Some(2));
    assert_eq!(m.max(), Some(9));
    assert_eq!(m.capacity(), 8);
    let wide = UMap::from_slice(&[(30, 'x'), (2, 'y')]);
    assert_eq!(wide.capacity(), 29);
}

#[test]
fn union_laws() {
    let a = USet::from_slice(&[1, 4, 6]);
    let b = USet::from_slice(&[4, 5, 6, 9]);
    let e = USet::new();
    assert_eq!(a.union(&e), a);
    assert_eq!(a.union(&a), a);
    assert_eq!(
        a.union(&b).len(),
        a.len() + b.len() - a.common_part(&b).len()
    );
}

#[test]
fn difference_laws() {
    let a = USet::from_slice(&[1, 4, 6]);
    let e = USet::new();
    assert_eq!(a.difference(&a), USet::new());
    assert!(a.difference(&a).is_empty());
    assert_eq!(a.difference(&e), a);
}

#[test]
fn intersection_and_xor_laws() {
    let a = USet::from_slice(&[1, 4, 6]);
    let e = USet::new();
    assert_eq!(a.common_part(&a), a);
    assert!(a.xor_set(&a).is_empty());
    assert_eq!(a.xor_set(&e), a);
}

#[test]
fn push_adds_one_key() {
    let mut s = USet::from_slice(&[5, 7]);
    assert!(!s.contains(2));
    s.push(2);
    assert!(s.contains(2));
    assert_eq!(s.len(), 3);
    assert_eq!(s.min(), Some(2));
    s.push(40);
    assert_eq!(s.len(), 4);
    assert_eq!(s.max(), Some(40));
    assert_eq!(s.capacity(), 39);
    s.push(40);
    assert_eq!(s.len(), 4);
}

#[test]
fn remove_drops_one_key() {
    let mut s = USet::from_slice(&[5, 7, 9]);
    s.remove(5);
    assert!(!s.contains(5));
    assert_eq!(s.len(), 2);
    assert_eq!(s.min(), Some(7));
    s.remove(9);
    assert_eq!(s.max(), Some(7));
    s.remove(8);
    assert_eq!(s.len(), 1);
    s.remove(7);
    assert!(s.is_empty());
    assert_eq!(s.min(), None);
    assert_eq!(s.max(), None);
}

#[test]
fn bounds_follow_mutations() {
    let mut s = USet::new();
    assert_eq!(s.min(), None);
    s.push(2);
    assert_eq!(s.min(), Some(2));
    s.push(3);
    assert_eq!(s.min(), Some(2));
    s.push(1);
    assert_eq!(s.min(), Some(1));
    assert_eq!(s.max(), Some(3));
    s.remove(1);
    s.remove(3);
    assert_eq!(s.min(), Some(2));
    assert_eq!(s.max(), Some(2));
}

#[test]
fn map_read_after_write() {
    let mut m: UMap<String> = UMap::new();
    m.put(7, "seven".to_string());
    assert_eq!(m.get(7), Some("seven".to_string()));
    m.put(3, "three".to_string());
    assert_eq!(m.get_ref(3), Some(&"three".to_string()));
    m.put(3, "other".to_string());
    assert_eq!(m.get(3), Some("three".to_string()));
    m.replace(3, "other".to_string());
    assert_eq!(m.get(3), Some("other".to_string()));
}

#[test]
fn keys_match_entries() {
    let mut m = UMap::from_slice(&[(4, 'a'), (9, 'b'), (6, 'c')]);
    assert_eq!(m.keys(), USet::from_slice(&[4, 6, 9]));
    m.remove(6);
    assert_eq!(m.keys(), USet::from_slice(&[4, 9]));
    assert!(UMap::<char>::new().keys().is_empty());
}

#[test]
fn scenario_difference() {
    let r = USet::from_slice(&[0, 3, 8, 10]).difference(&USet::from_slice(&[3, 8]));
    assert_eq!(r, USet::from_slice(&[0, 10]));
    assert_eq!(r.len(), 2);
}

#[test]
fn scenario_intersection() {
    let r = USet::from_slice(&[0, 3, 8, 10]).common_part(&USet::from_slice(&[1, 2, 3]));
    assert_eq!(r, USet::from_slice(&[3]));
    assert_eq!(r.len(), 1);
}

#[test]
fn scenario_xor() {
    let r = USet::from_slice(&[0, 3, 8, 10]).xor_set(&USet::from_slice(&[2, 4, 6]));
    assert_eq!(r, USet::from_slice(&[0, 2, 3, 4, 6, 8, 10]));
    assert_eq!(r.len(), 7);
}

#[test]
fn scenario_join() {
    let a = UMap::from_slice(&[(1, "a"), (3, "c")]);
    let b = UMap::from_slice(&[(2, "b"), (4, "d")]);
    let j = a.join(&b);
    assert_eq!(j, UMap::from_slice(&[(1, "a"), (2, "b"), (3, "c"), (4, "d")]));
    assert_eq!(j.len(), 4);
}

#[test]
fn scenario_query() {
    let m = UMap::from_slice(&[(2, "aa".to_string()), (4, "b".to_string()), (3, "ccc".to_string())]);
    let q = m.query(|v| v.len() > 1);
    assert_eq!(q, USet::from_slice(&[2, 3]));
}

#[test]
fn join_keeps_left_value_on_shared_key() {
    let a = UMap::from_slice(&[(1, "left")]);
    let b = UMap::from_slice(&[(1, "right"), (2, "b")]);
    let j = a.join(&b);
    assert_eq!(j.get(1), Some("left"));
    assert_eq!(j.get(2), Some("b"));
    assert_eq!(UMap::<i32>::new().join(&UMap::new()).len(), 0);
}

#[test]
fn from_slice_keeps_first_value() {
    let m = UMap::from_slice(&[(1, "x"), (2, "y"), (1, "z")]);
    assert_eq!(m.len(), 2);
    assert_eq!(m.get(1), Some("x"));
    let mut n = UMap::from_slice(&[(5, "five")]);
    n.put_all(&[(5, "other"), (3, "three"), (3, "again"), (9, "nine")]);
    assert_eq!(n.to_vec(), vec![(3, "three"), (5, "five"), (9, "nine")]);
}

#[test]
fn from_range_covers_the_range() {
    let s = USet::from_range(3..6);
    assert_eq!(s.len(), 3);
    assert_eq!(s.to_vec(), vec![3, 4, 5]);
    assert_eq!(s.min(), Some(3));
    assert_eq!(s.max(), Some(5));
    assert!(USet::from_range(4..4).is_empty());
}

#[test]
fn from_fields_reads_flags() {
    let s = USet::from_fields(vec![false, false, true, true, false, true], 1);
    assert_eq!(s.len(), 3);
    assert_eq!(s.to_vec(), vec![3, 4, 6]);
    let e = USet::from_fields(vec![false, false], 4);
    assert!(e.is_empty());
    assert_eq!(e.capacity(), 2);
}

#[test]
fn truncate_and_drain() {
    let mut s = USet::from_slice(&[1, 2, 3, 4, 5]);
    s.truncate(2);
    assert_eq!(s, USet::from_slice(&[1, 2]));
    assert_eq!(s.max(), Some(2));
    let mut t = USet::from_slice(&[1, 2, 3]);
    t.truncate(8);
    assert_eq!(t, USet::from_slice(&[1, 2, 3]));
    t.truncate(0);
    assert!(t.is_empty());

    let mut d = USet::from_slice(&[1, 2, 3, 4, 5]);
    let drained = d.drain(2);
    assert_eq!(d, USet::from_slice(&[1, 2]));
    assert_eq!(drained, USet::from_slice(&[3, 4, 5]));
    let mut all = USet::from_slice(&[1, 2, 3]);
    let everything = all.drain(0);
    assert!(all.is_empty());
    assert_eq!(everything, USet::from_slice(&[1, 2, 3]));
    assert!(all.drain(4).is_empty());
}

#[test]
fn map_truncate_and_drain() {
    let mut m = UMap::from_slice(&[(1, "a"), (2, "b"), (3, "c"), (4, "d"), (5, "e")]);
    let drained = m.drain(2);
    assert_eq!(m, UMap::from_slice(&[(1, "a"), (2, "b")]));
    assert_eq!(drained, UMap::from_slice(&[(3, "c"), (4, "d"), (5, "e")]));
    m.truncate(1);
    assert_eq!(m.to_vec(), vec![(1, "a")]);
    m.clear();
    assert!(m.is_empty());
}

#[test]
fn capacity_operations() {
    let mut s = USet::from_slice(&[1, 8]);
    assert_eq!(8, s.capacity());
    s.enlarge_capacity_to(10);
    assert_eq!(10, s.capacity());
    s.push(9);
    assert_eq!(10, s.capacity());
    s.push(11);
    assert_eq!(11, s.capacity());

    let mut t = USet::from_slice(&[1, 50]);
    t.remove(1);
    t.shrink_to_fit();
    assert_eq!(t.capacity(), 1);
    t.clear();
    assert_eq!(t.capacity(), 1);
    t.shrink_to_fit();
    assert_eq!(t.capacity(), 0);
}

#[test]
fn positional_access() {
    let mut s = USet::from_slice(&[2, 3, 4]);
    assert_eq!(s.at_index(0), Some(2));
    assert_eq!(s.at_index(2), Some(4));
    assert_eq!(s.at_index(3), None);
    assert_eq!(s.pop(1), Some(3));
    assert_eq!(s, USet::from_slice(&[2, 4]));
    assert_eq!(s.pop(5), None);

    let mut m = UMap::from_slice(&[(2, "a"), (3, "b"), (4, "c")]);
    assert_eq!(m.at_index(1), Some((3, "b")));
    assert_eq!(m.at_index(3), None);
    assert_eq!(m.pop(1), Some((3, "b")));
    assert_eq!(m, UMap::from_slice(&[(2, "a"), (4, "c")]));
}

#[test]
fn subsets_and_bulk_removal() {
    let s1 = USet::from_slice(&[1, 2, 3]);
    let s2 = USet::from_slice(&[2, 3]);
    assert!(s2.is_subset_of(&s1));
    assert!(!s1.is_subset_of(&s2));
    assert!(s2.is_subset_of(&s2));
    assert!(!s1.is_subset_of(&USet::from_slice(&[2, 3, 4])));
    assert!(USet::new().is_subset_of(&s1));
    assert!(USet::new().is_subset_of(&USet::new()));

    let mut a = USet::from_slice(&[1, 2, 3, 4]);
    a.remove_all(&USet::from_slice(&[2, 3, 5]));
    assert_eq!(a, USet::from_slice(&[1, 4]));
}

#[test]
fn map_quantifiers_and_selection() {
    let m = UMap::from_slice(&[
        (2, "aa".to_string()),
        (4, "b".to_string()),
        (3, "ccc".to_string()),
        (5, "d".to_string()),
        (11, "ee".to_string()),
    ]);
    assert!(!m.all(|v| v.len() > 1));
    assert!(m.any(|v| v.len() > 1));
    let set = m.query(|v| v.len() > 1);
    assert_eq!(set, USet::from_slice(&[2, 3, 11]));
    assert!(m.all_in_subset(&set, |v| v.len() > 1));
    assert!(!m.all_in_subset(&set, |v| v.len() == 2));
    assert!(!m.any_in_subset(&set, |v| v.len() == 1));
    assert!(m.any_in_subset(&set, |v| v.len() == 3));
    let sub = m.submap(&set);
    assert!(sub.all(|v| v.len() > 1));
    assert_eq!(m.retrieve(&USet::from_slice(&[2, 3, 7])), vec!["aa".to_string(), "ccc".to_string()]);
    let refs = m.retrieve_ref(&USet::from_slice(&[5, 11]));
    assert_eq!(refs, vec![&"d".to_string(), &"ee".to_string()]);
}

#[test]
fn map_bulk_updates() {
    let mut m = UMap::from_slice(&[(2, "aa".to_string()), (4, "b".to_string()), (3, "ccc".to_string())]);
    let other = UMap::from_slice(&[(2, "d".to_string()), (6, "g".to_string())]);
    m.replace_all(&other);
    assert_eq!(
        m.to_vec(),
        vec![
            (2, "d".to_string()),
            (3, "ccc".to_string()),
            (4, "b".to_string()),
            (6, "g".to_string())
        ]
    );
    m.remove_all(&USet::from_slice(&[3, 6, 9]));
    assert_eq!(m.to_vec(), vec![(2, "d".to_string()), (4, "b".to_string())]);

    let mut n: UMap<&str> = UMap::new();
    let id = n.push("a");
    assert_eq!(id, 1);
    assert_eq!(n.get(id), Some("a"));
    let ids = n.push_all(&["b", "c"]);
    assert_eq!(ids, vec![2, 3]);
    assert_eq!(n.to_vec(), vec![(1, "a"), (2, "b"), (3, "c")]);
}

#[test]
fn map_iterates_from_both_ends() {
    let m = UMap::from_slice(&[(1, 'a'), (2, 'b'), (4, 'c')]);
    let mut it = m.iter();
    assert_eq!(it.next_back(), Some((4, &'c')));
    assert_eq!(it.next(), Some((1, &'a')));
    assert_eq!(it.next_back(), Some((2, &'b')));
    assert_eq!(it.next(), None);
    assert_eq!(it.next_back(), None);
}

#[test]
fn set_iterates_from_both_ends() {
    let s = USet::from_slice(&[1, 2, 4]);
    let mut it = s.iter();
    assert_eq!(it.next(), Some(1));
    assert_eq!(it.next_back(), Some(4));
    assert_eq!(it.next_back(), Some(2));
    assert_eq!(it.next(), None);
}

#[test]
fn defaults_are_empty_and_clones_are_equal() {
    let s = USet::default();
    assert!(s.is_empty());
    assert_eq!(s.capacity(), 0);
    let m: UMap<u8> = UMap::default();
    assert!(m.is_empty());
    let a = USet::from_slice(&[3, 9]);
    assert_eq!(a.clone(), a);
    let b = UMap::from_slice(&[(3, 'q'), (9, 'r')]);
    assert_eq!(b.clone(), b);
}
