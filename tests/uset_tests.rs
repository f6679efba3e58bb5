use std::collections::HashSet;

use uset::uset::{USet, INITIAL_WORKING_CAPACITY};

fn set(keys: &[usize]) -> USet {
    USet::from_slice(keys)
}

#[test]
fn set_from_and_to_vec() {
    let v = vec![0, 3, 8, 10];
    let s: USet = USet::from_slice(&v);

    assert_eq!(s.len(), 4, "USet length");
    assert_eq!(s.capacity(), 11, "USet capacity");

    assert!(s.contains(0));
    assert!(s.contains(3));
    assert!(s.contains(8));
    assert!(s.contains(10));
    assert!(!s.contains(9));

    let v2: Vec<usize> = s.to_vec();

    assert_eq!(v2, v);
}

fn to_unique_sorted_vec(v: &Vec<usize>) -> Vec<usize> {
    let mut hs = HashSet::new();
    for x in v {
        hs.insert(*x);
    }
    let mut v2: Vec<usize> = hs.into_iter().collect();
    v2.sort();
    v2
}

fn round_trip_holds(v: Vec<usize>) -> bool {
    let small: Vec<usize> = v.iter().map(|x| x % 1000).collect();
    let unique_v = to_unique_sorted_vec(&small);
    let mut shuffled = unique_v.clone();
    shuffled.reverse();
    let result = USet::from_slice(&shuffled).to_vec();
    result == unique_v
}

#[test]
fn from_and_to_vec() {
    quickcheck::quickcheck(round_trip_holds as fn(Vec<usize>) -> bool);
}

#[test]
fn should_substract() {
    let s1 = set(&[0, 3, 8, 10]);
    let s2 = set(&[3, 8]);
    let s5 = USet::new();

    let s3 = s1.difference(&s2);

    assert_eq!(s3.len(), 2);
    assert!(s3.contains(0));
    assert!(s3.contains(10));

    let s4 = s1.difference(&s2);

    assert_eq!(s4.len(), 2);
    assert!(s4.contains(0));
    assert!(s4.contains(10));

    assert_eq!(s1.difference(&s5), s1.clone());
    assert_eq!(s5.difference(&s5), USet::new());
}

#[test]
fn should_compile() {
    let s4 = vec![0usize, 3, 8, 10];
    for _i in 1..10 {
        let _s5: USet = USet::from_slice(&s4);
    }
}

#[test]
fn should_be_equal() {
    let s1 = set(&[0, 3, 8, 10]);
    let s2 = set(&[0, 3, 8, 10]);
    assert_eq!(&s1, &s2);
    assert!(s1 == s2);
}

#[test]
fn should_find_min() {
    let s1 = set(&[0, 3, 8, 10]);
    assert_eq!(s1.iter().next(), Some(0));
    let s2 = set(&[3, 8, 10]);
    assert_eq!(s2.iter().next(), Some(3));
    let s3 = USet::new();
    let mut s3iter = s3.iter();
    assert_eq!(s3iter.next(), None);
    assert_eq!(s3iter.next(), None);

    let mut s2iter = s2.iter();
    assert_eq!(s2iter.next(), Some(3));
    assert_eq!(s2iter.next(), Some(8));
    assert_eq!(s2iter.next(), Some(10));
    assert_eq!(s2iter.next(), None);
    assert_eq!(s2iter.next(), None);

    let s4 = set(&[0]);
    let mut s4iter = s4.iter();
    assert_eq!(s4iter.next(), Some(0));
    assert_eq!(s4iter.next(), None);
    assert_eq!(s4iter.next(), None);
}

#[test]
fn should_find_max() {
    let s1 = set(&[0, 3, 8, 10]);
    assert_eq!(s1.iter().next_back(), Some(10));
    let s2 = set(&[0]);
    assert_eq!(s2.iter().next_back(), Some(0));
    let s3 = USet::new();
    let mut s3iter = s3.iter();
    assert_eq!(s3iter.next_back(), None);
    assert_eq!(s3iter.next_back(), None);

    let mut s2iter = s2.iter();
    assert_eq!(s2iter.next_back(), Some(0));
    assert_eq!(s2iter.next_back(), None);
    assert_eq!(s2iter.next_back(), None);
}

#[test]
fn should_add() {
    let s1 = set(&[0, 3, 8, 10]);
    let s2 = set(&[1, 4]);
    let s3 = set(&[3, 5]);
    let s4 = USet::new();

    assert_eq!(s1.union(&s2), set(&[0, 1, 3, 4, 8, 10]));
    assert_eq!(s1.union(&s3), set(&[0, 3, 5, 8, 10]));
    assert_eq!(s1.union(&s4), s1.clone());
    assert_eq!(s1.union(&s1), s1.clone());
    assert_eq!(s4.union(&s4), s4.clone());
}

#[test]
fn should_push_all() {
    let mut s1 = set(&[0, 3, 8, 10]);
    s1.push_all(&vec![1, 4]);
    assert_eq!(&s1, &set(&[0, 1, 3, 4, 8, 10]));

    let mut s2 = set(&[0, 3, 8, 10]);
    s2.push_all(&Vec::<usize>::new());
    assert_eq!(&s2, &set(&[0, 3, 8, 10]));

    let mut s3 = set(&[3, 8, 10]);
    s3.push_all(&vec![1, 4]);
    assert_eq!(&s3, &set(&[1, 3, 4, 8, 10]));

    let mut s4 = set(&[3, 8, 10]);
    s4.push_all(&vec![6, 12]);
    assert_eq!(&s4, &set(&[3, 6, 8, 10, 12]));

    let mut s5 = set(&[3, 8, 10]);
    s5.push_all(&vec![1, 14]);
    assert_eq!(&s5, &set(&[1, 3, 8, 10, 14]));

    let mut s6 = set(&[3, 8, 10]);
    s6.push_all(&vec![8, 10, 12]);
    assert_eq!(&s6, &set(&[3, 8, 10, 12]));
}

#[test]
fn should_join_sets() {
    let set1 = set(&[2, 4, 5]);
    let mut iter1 = set1.iter();
    assert_eq!(iter1.next(), Some(2));
    assert_eq!(iter1.next(), Some(4));
    assert_eq!(iter1.next(), Some(5));
    assert_eq!(iter1.next(), None);

    let set2 = set(&[1, 3, 5, 8]);
    let mut iter2 = set2.iter();
    assert_eq!(iter2.next(), Some(1));
    assert_eq!(iter2.next(), Some(3));
    assert_eq!(iter2.next(), Some(5));
    assert_eq!(iter2.next(), Some(8));
    assert_eq!(iter2.next(), None);

    let set3 = set1.union(&set2);
    assert_eq!(set3.len(), 6);
    let mut iter3 = set3.iter();
    assert_eq!(iter3.next(), Some(1));
    assert_eq!(iter3.next(), Some(2));
    assert_eq!(iter3.next(), Some(3));
    assert_eq!(iter3.next(), Some(4));
    assert_eq!(iter3.next(), Some(5));
    assert_eq!(iter3.next(), Some(8));
    assert_eq!(iter3.next(), None);
}

#[test]
fn should_mul() {
    let s1 = set(&[0, 3, 8, 10]);
    let s2 = set(&[3, 8]);
    assert_eq!(s1.common_part(&s2), set(&[3, 8]));

    let s3 = set(&[1, 2, 3]);
    assert_eq!(s1.common_part(&s3), set(&[3]));

    let s4 = USet::new();
    assert_eq!(s1.common_part(&s4), USet::new());

    assert_eq!(s1.common_part(&s1), s1.clone());

    let s5 = set(&[2, 4, 6]);
    assert_eq!(s1.common_part(&s5), USet::new());

    let s6 = set(&[10]);
    assert_eq!(s1.common_part(&s6), s6.clone());
}

#[test]
fn should_xor() {
    let s1 = set(&[0, 3, 8, 10]);

    let s2 = set(&[3, 8]);
    assert_eq!(s1.xor_set(&s2), set(&[0, 10]));

    let s3 = set(&[1, 2, 3]);
    assert_eq!(s1.xor_set(&s3), set(&[0, 1, 2, 8, 10]));

    let s4 = USet::new();
    assert_eq!(s1.xor_set(&s4), s1.clone());

    assert_eq!(s1.xor_set(&s1), USet::new());

    let s5 = set(&[2, 4, 6]);
    assert_eq!(s1.xor_set(&s5), set(&[0, 2, 3, 4, 6, 8, 10]));

    let s6 = set(&[10]);
    assert_eq!(s1.xor_set(&s6), set(&[0, 3, 8]));
}

#[test]
fn should_implement_into_iter() {
    let s = set(&[3, 5, 8]);
    let mut sum = 0;
    for i in s.to_vec() {
        sum += i;
    }
    assert_eq!(sum, 16);
}

#[test]
fn should_shrink_to_fit() {
    let mut s = set(&[3, 5, 8]);
    assert_eq!(3, s.len());
    assert_eq!(INITIAL_WORKING_CAPACITY, s.capacity());
    s.remove(3);
    assert_eq!(2, s.len());
    assert_eq!(INITIAL_WORKING_CAPACITY, s.capacity());
    s.shrink_to_fit();
    assert_eq!(2, s.len());
    assert_eq!(4, s.capacity());
}

#[test]
fn should_substract_sets() {
    let set1 = set(&[2, 4, 5]);
    assert_eq!(Some(2), set1.min());
    assert_eq!(Some(5), set1.max());
    let set2 = set(&[1, 3, 5, 8]);

    let set3 = set1.difference(&set2);
    assert_eq!(set3.len(), 2);
    let mut iter3 = set3.iter();
    assert_eq!(iter3.next(), Some(2));
    assert_eq!(iter3.next(), Some(4));
    assert_eq!(iter3.next(), None);

    assert_eq!(Some(2), set3.min());
    assert_eq!(Some(4), set3.max());
}

#[test]
fn should_make_set_from_iter() {
    let vec = vec![3usize, 5, 8, 11];
    let odd: Vec<usize> = vec
        .iter()
        .filter_map(|&n| if n % 2 != 0 { Some(n) } else { None })
        .collect();
    let set = USet::from_slice(&odd);
    assert!(set.contains(3));
    assert!(set.contains(5));
    assert!(set.contains(11));
    assert!(set.contains(8) == false);
}
