use std::hash::BuildHasher;
use corundum::hashmap::HashMap;
use corundum::pool::BuddyPool;
use corundum::stm::{Journal, TxOutcome};
use corundum::vec::Vec as PVec;

fn pool() -> BuddyPool {
    BuddyPool::init(1 << 16, 2)
}

fn begin() -> Journal {
    let mut j = Journal::new(1, 0);
    j.enter();
    j
}

#[test]
fn test_clear() {
    let mut p = pool();
    let mut j = begin();
    let mut vec = PVec::from_slice(&[1, 2, 3], &mut p, &mut j).unwrap();
    vec.truncate(0);
    assert_eq!(vec.as_slice(&p), Vec::<u64>::new());
    assert!(vec.is_empty());
}

#[test]
fn test_resize() {
    let mut p = pool();
    let mut j = begin();
    let mut buf = PVec::empty();
    let pre = p.used();
    let i = buf.len() as u64;
    assert!(buf.extend_from_slice(&[i + 1], &mut p, &mut j));
    assert_eq!(buf.as_slice(&p), vec![1]);
    assert!(p.used() > pre);
}

#[test]
fn test_array() {
    let mut p = pool();
    let mut j = begin();
    let mut buf = PVec::new(&j);
    for _ in 0..5 {
        let i = buf.len() as u64;
        assert!(buf.extend_from_slice(&[i + 1, i + 2, i + 3], &mut p, &mut j));
    }
    assert_eq!(buf.len(), 15);
    assert_eq!(buf.as_slice(&p), (1..=15).collect::<Vec<u64>>());
}

#[test]
fn vector_grows_in_place_then_moves() {
    let mut p = pool();
    let mut j = begin();
    let mut v = PVec::with_capacity(3, &mut p, &mut j).unwrap();
    let first = v.off();
    assert_eq!(v.capacity(), 3);
    assert!(v.push(1, &mut p, &mut j));
    assert!(v.push(2, &mut p, &mut j));
    assert!(v.push(3, &mut p, &mut j));
    // 3 words and 6 words fit the same 32-byte class only up to 4 words
    assert!(v.push(4, &mut p, &mut j));
    assert_eq!(v.capacity(), 6);
    assert_ne!(v.off(), first);
    assert_eq!(v.as_slice(&p), vec![1, 2, 3, 4]);
    assert!(v.reserve(0, &mut p, &mut j));
    assert_eq!(v.capacity(), 6);
}

#[test]
fn vector_edits() {
    let mut p = pool();
    let mut j = begin();
    let mut v = PVec::from_slice(&[10, 20, 30, 40], &mut p, &mut j).unwrap();
    assert!(v.insert(1, 15, &mut p, &mut j));
    assert_eq!(v.as_slice(&p), vec![10, 15, 20, 30, 40]);
    assert_eq!(v.remove(0, &mut p), 10);
    assert_eq!(v.as_slice(&p), vec![15, 20, 30, 40]);
    assert_eq!(v.swap_remove(0, &mut p), 15);
    assert_eq!(v.as_slice(&p), vec![40, 20, 30]);
    assert_eq!(v.pop(&p), Some(30));
    v.retain(&mut p, |x| x > 25);
    assert_eq!(v.as_slice(&p), vec![40]);
    let doubled = v.cast(&p, |x| x * 2);
    assert_eq!(doubled, vec![80]);
    let mut it = v.iter(&p);
    assert_eq!(it.next(), Some(40));
    assert_eq!(it.next(), None);
    v.clear();
    assert!(v.is_empty());
    assert_eq!(v.pop(&p), None);
}

#[test]
fn vector_retains_in_order() {
    let mut p = pool();
    let mut j = begin();
    let mut v = PVec::from_slice(&[1, 2, 3, 4, 5, 6, 7], &mut p, &mut j).unwrap();
    v.retain(&mut p, |x| x % 2 == 1);
    assert_eq!(v.as_slice(&p), vec![1, 3, 5, 7]);
    let mut it = v.into_iter(&p);
    assert_eq!(it.next(), Some(1));
    assert_eq!(it.next(), Some(3));
}

#[test]
fn vector_shrinks_to_fit() {
    let mut p = pool();
    let mut j = begin();
    let mut v = PVec::with_capacity(16, &mut p, &mut j).unwrap();
    assert!(v.push(7, &mut p, &mut j));
    let before = j.len();
    assert!(v.shrink_to_fit(&mut p, &mut j));
    assert_eq!(v.capacity(), 1);
    assert_eq!(v.as_slice(&p), vec![7]);
    assert_eq!(j.len(), before + 1);
    let mut e = PVec::with_capacity(4, &mut p, &mut j).unwrap();
    assert!(e.shrink_to_fit(&mut p, &mut j));
    assert_eq!(e.capacity(), 0);
    assert_eq!(j.finish(&mut p, true), TxOutcome::Committed);
}

#[test]
fn hash_map_puts_and_gets() {
    let mut m = HashMap::new();
    assert!(m.is_empty());
    m.put(1, 10);
    m.put(2, 20);
    m.put(1, 11);
    assert!(!m.is_empty());
    assert_eq!(m.get(1), Some(11));
    assert_eq!(m.get(2), Some(20));
    assert_eq!(m.get(3), None);
    let mut entries = m.foreach();
    entries.sort();
    assert_eq!(entries, vec![(1, 11), (2, 20)]);
    m.clear();
    assert!(m.is_empty());
    assert_eq!(m.get(1), None);
}

#[test]
fn hash_map_with_given_hashes() {
    let h = std::hash::BuildHasherDefault::<std::collections::hash_map::DefaultHasher>::default().hash_one(5u64);
    let mut m = HashMap::new();
    m.put_with_hash(5, h, 50);
    assert_eq!(m.get_with_hash(5, h), Some(50));
    assert_eq!(m.get_with_hash(5, h + 1), None);
    assert_eq!(m.get(5), Some(50));
}

#[test]
fn hash_map_files_a_key_under_the_hash_it_is_given() {
    let h = corundum::hashmap::hash(7);
    let other = h ^ 1;
    let mut m = HashMap::new();
    m.put_with_hash(7, other, 70);
    assert_eq!(m.get_with_hash(7, other), Some(70));
    assert_eq!(m.get(7), None);
    assert!(!m.is_empty());
    m.put(7, 71);
    assert_eq!(m.get(7), Some(71));
    assert_eq!(m.get_with_hash(7, other), Some(70));
    m.put_with_hash(7, other, 72);
    assert_eq!(m.get_with_hash(7, other), Some(72));
    assert_eq!(m.get(7), Some(71));
    assert_eq!(m.foreach().len(), 2);
}

#[test]
fn vec_split_off_keeps_the_head() {
    let mut p = pool();
    let mut j = begin();
    let mut vec = PVec::from_slice(&[1, 2, 3], &mut p, &mut j).unwrap();
    let vec2 = vec.split_off(1, &mut p, &mut j).unwrap();
    assert_eq!(vec.as_slice(&p), vec![1]);
    assert_eq!(vec2.as_slice(&p), vec![2, 3]);
    assert_eq!(vec2.capacity(), 2);
    let vec3 = vec.split_off(1, &mut p, &mut j).unwrap();
    assert!(vec3.is_empty());
    assert_eq!(vec.as_slice(&p), vec![1]);
    assert_eq!(j.finish(&mut p, true), TxOutcome::Committed);
}

#[test]
fn vec_append_moves_the_elements() {
    let mut p = pool();
    let mut j = begin();
    let mut vec = PVec::from_slice(&[1, 2, 3], &mut p, &mut j).unwrap();
    let mut vec2 = PVec::from_slice(&[4, 5, 6], &mut p, &mut j).unwrap();
    assert!(vec.append(&mut vec2, &mut p, &mut j));
    assert_eq!(vec.as_slice(&p), vec![1, 2, 3, 4, 5, 6]);
    assert_eq!(vec2.as_slice(&p), Vec::<u64>::new());
    assert_eq!(j.finish(&mut p, true), TxOutcome::Committed);
}

#[test]
fn vec_shrink_to_never_goes_below_the_length() {
    let mut p = pool();
    let mut j = begin();
    let mut v = PVec::with_capacity(10, &mut p, &mut j).unwrap();
    assert!(v.extend_from_slice(&[1, 2, 3], &mut p, &mut j));
    assert_eq!(v.capacity(), 10);
    assert!(v.shrink_to(12, &mut p, &mut j));
    assert_eq!(v.capacity(), 12);
    let before = j.len();
    assert!(v.shrink_to(0, &mut p, &mut j));
    assert_eq!(v.capacity(), 3);
    assert_eq!(v.as_slice(&p), vec![1, 2, 3]);
    assert_eq!(j.len(), before + 1);
    let mut e = PVec::with_capacity(4, &mut p, &mut j).unwrap();
    assert!(e.shrink_to(0, &mut p, &mut j));
    assert_eq!(e.capacity(), 0);
    assert_eq!(j.finish(&mut p, true), TxOutcome::Committed);
}

#[test]
fn hash_map_get_or_insert_and_put_once() {
    let mut m = HashMap::new();
    assert_eq!(m.get_or_insert(7, || 70), 70);
    assert_eq!(m.get_or_insert(7, || 71), 70);
    assert_eq!(m.get(7), Some(70));
    assert_eq!(m.put_once(8, 80), 80);
    assert_eq!(m.get(8), Some(80));
    assert_eq!(m.put_once(8, 81), 81);
    assert_eq!(m.get(8), Some(80));
}

#[test]
fn hash_map_update_with() {
    let mut m = HashMap::new();
    m.update_with(&3, |v| v + 5);
    assert_eq!(m.get(3), Some(5));
    m.update_with(&3, |v| v * 2);
    assert_eq!(m.get(3), Some(10));
    assert_eq!(m.get(4), None);
}

#[test]
fn vec_extend_within_capacity_keeps_it() {
    let mut p = pool();
    let mut j = begin();
    let mut vec = PVec::with_capacity(10, &mut p, &mut j).unwrap();
    let off = vec.off();
    assert!(vec.extend_from_slice(&[1, 2, 3], &mut p, &mut j));
    assert_eq!(vec.capacity(), 10);
    assert_eq!(vec.len(), 3);
    assert_eq!(vec.off(), off);
}

#[test]
fn hash_map_put_after_clear_and_public_hash() {
    let mut m = HashMap::new();
    m.put(1, 10);
    m.put(1, 11);
    assert_eq!(m.foreach(), vec![(1, 11)]);
    m.clear();
    assert!(m.is_empty());
    m.put(2, 20);
    assert_eq!(m.get(2), Some(20));
    let h = corundum::hashmap::hash(9);
    m.put_with_hash(9, h, 90);
    assert_eq!(m.get(9), Some(90));
}
