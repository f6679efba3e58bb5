use uset::umap::UMap;
use uset::uset::USet;

#[test]
fn should_do_basic_operations() {
    let mut map = UMap::new() as UMap<bool>;
    assert!(map.is_empty());
    map.put(5, true);
    assert!(!map.is_empty());
    assert_eq!(map.len(), 1);
    assert!(map.contains(5));
    assert!(!map.contains(4));
    assert_eq!(Some(5), map.min());
    assert_eq!(Some(5), map.max());
    map.put(2, false);
    assert_eq!(map.len(), 2);
    assert_eq!(Some(2), map.min());
    assert_eq!(Some(5), map.max());
    assert_eq!(map.get(2), Some(false));
    let re1 = map.remove(5);
    assert_eq!(re1, Some(true));
    assert_eq!(map.len(), 1);
    let re2 = map.remove(1);
    assert_eq!(re2, None);
    map.remove(2);
    assert!(map.is_empty());

    assert_eq!(map.get(12), None);
}

#[test]
fn should_impl_basic_iterator() {
    let vec = vec![None, None, Some(2), None, Some(4), Some(5)];
    let mut iter = vec.iter().enumerate().filter_map(|(i, &v)| {
        if v.is_some() {
            Some((i, v.unwrap()))
        } else {
            None
        }
    });
    assert_eq!(iter.next(), Some((2, 2)));
    assert_eq!(iter.next(), Some((4, 4)));
    assert_eq!(iter.next(), Some((5, 5)));
    assert_eq!(iter.next(), None);
}

#[test]
fn should_impl_better_iterator() {
    let mut map = UMap::new();
    map.put(2, 2);
    map.put(4, 4);
    map.put(5, 5);

    let mut iter = map.iter();

    assert_eq!(iter.next(), Some((2, &2)));
    assert_eq!(iter.next(), Some((4, &4)));
    assert_eq!(iter.next(), Some((5, &5)));
    assert_eq!(iter.next(), None);
}

#[test]
fn should_min_max() {
    let map: UMap<&str> = UMap::from_slice(&vec![(2, "a"), (4, "b"), (5, "c")]);

    assert_eq!(map.min(), Some(2));
    assert_eq!(map.max(), Some(5));
}

#[test]
fn should_min_max_when_empty() {
    let map: UMap<&str> = UMap::new();

    assert_eq!(map.min(), None);
    assert_eq!(map.max(), None);
}

#[test]
fn should_join_maps() {
    let map1: UMap<i32> = UMap::from_slice(&vec![(2, 2), (4, 4), (5, 5)]);
    let mut iter1 = map1.iter();
    assert_eq!(iter1.next(), Some((2, &2)));
    assert_eq!(iter1.next(), Some((4, &4)));
    assert_eq!(iter1.next(), Some((5, &5)));
    assert_eq!(iter1.next(), None);

    let map2: UMap<i32> = UMap::from_slice(&vec![(1, 1), (3, 3), (5, 5), (8, 8)]);
    let mut iter2 = map2.iter();
    assert_eq!(iter2.next(), Some((1, &1)));
    assert_eq!(iter2.next(), Some((3, &3)));
    assert_eq!(iter2.next(), Some((5, &5)));
    assert_eq!(iter2.next(), Some((8, &8)));
    assert_eq!(iter2.next(), None);

    let map3 = map1.join(&map2);
    assert_eq!(map3.len(), 6);
    let mut iter3 = map3.iter();
    assert_eq!(iter3.next(), Some((1, &1)));
    assert_eq!(iter3.next(), Some((2, &2)));
    assert_eq!(iter3.next(), Some((3, &3)));
    assert_eq!(iter3.next(), Some((4, &4)));
    assert_eq!(iter3.next(), Some((5, &5)));
    assert_eq!(iter3.next(), Some((8, &8)));
    assert_eq!(iter3.next(), None);
}

#[test]
fn should_extract_submap() {
    let map1: UMap<i32> = UMap::from_slice(&vec![(1, 1), (3, 3), (5, 5), (8, 8)]);
    let set = USet::from_slice(&[3, 5]);
    let map2 = map1.submap(&set);
    assert_eq!(2, map2.len());
    assert_eq!(map2.get(3), Some(3));
    assert_eq!(map2.get(5), Some(5));

    let res = map1.retrieve(&set);
    assert_eq!(2, res.len());
    assert_eq!(res[0], 3);
    assert_eq!(res[1], 5);
}

#[test]
fn should_use_umap_macro() {
    let map1 = UMap::from_slice(&[(0, "a"), (1, "b"), (2, "c")]);
    let map2 = UMap::from_slice(&vec![(0, "a"), (1, "b"), (2, "c")]);
    assert_eq!(map1, map2);
}

#[test]
fn should_modify_with_get_ref_mut() {
    let mut map = UMap::from_slice(&[(0, "a"), (1, "b"), (2, "c")]);
    assert_eq!(Some(&"b"), map.get_ref(1));
    if let Some(v) = map.get_ref_mut(1) {
        *v = "d";
    }
    assert_eq!(Some(&"d"), map.get_ref(1));
}
