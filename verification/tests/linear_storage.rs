use stable_map::linear_storage::LinearStorage;

#[test]
fn storage_with_capacity() {
    let v = LinearStorage::<i32>::with_capacity(10);
    assert_eq!(v.capacity(), 10);
}

#[test]
fn storage_len() {
    let mut v = LinearStorage::<i32>::with_capacity(0);
    assert_eq!(v.len(), 0);
    v.insert(0);
    assert_eq!(v.len(), 1);
    v.clear();
    assert_eq!(v.len(), 0);
}

#[test]
fn storage_capacity() {
    let mut v = LinearStorage::<i32>::with_capacity(0);
    assert_eq!(v.capacity(), 0);
    v.reserve(10);
    assert_eq!(v.capacity(), 10);
}

#[test]
fn storage_shrink_to_fit() {
    let mut v = LinearStorage::<i32>::with_capacity(10);
    v.insert(0);
    assert_eq!(v.capacity(), 10);
    assert_eq!(v.len(), 1);
    v.shrink_to_fit();
    assert_eq!(v.capacity(), 1);
    assert_eq!(v.len(), 1);
}

#[test]
fn storage_insert() {
    let mut v = LinearStorage::<i32>::with_capacity(0);
    let p1 = v.insert(0);
    let p2 = v.insert(1);
    assert_eq!(v.index_of_pos(&p1), 0);
    assert_eq!(v.index_of_pos(&p2), 1);
    assert_eq!(*v.get_via_pos(&p1), 0);
    assert_eq!(*v.get_via_pos(&p2), 1);
    assert_eq!(v.get(0), Some(&0));
    assert_eq!(v.get(1), Some(&1));
}

#[test]
fn storage_compact() {
    let mut v = LinearStorage::with_capacity(0);
    let p0 = v.insert(0);
    let p1 = v.insert(1);
    let p2 = v.insert(2);
    let p3 = v.insert(3);
    let p4 = v.insert(4);
    let p5 = v.insert(5);
    v.take(p2);
    v.take(p3);
    assert_eq!(v.get(0), Some(&0));
    assert_eq!(v.get(1), Some(&1));
    assert_eq!(v.get(2), None);
    assert_eq!(v.get(3), None);
    assert_eq!(v.get(4), Some(&4));
    assert_eq!(v.get(5), Some(&5));
    assert_eq!(*v.get_via_pos(&p0), 0);
    assert_eq!(*v.get_via_pos(&p1), 1);
    assert_eq!(*v.get_via_pos(&p4), 4);
    assert_eq!(*v.get_via_pos(&p5), 5);
    v.force_compact();
    assert_eq!(v.get(0), Some(&0));
    assert_eq!(v.get(1), Some(&1));
    assert_eq!(v.get(2), Some(&5));
    assert_eq!(v.get(3), Some(&4));
    assert_eq!(v.index_of_pos(&p5), 2);
    assert_eq!(v.index_of_pos(&p4), 3);
    assert_eq!(*v.get_via_pos(&p0), 0);
    assert_eq!(*v.get_via_pos(&p1), 1);
    assert_eq!(*v.get_via_pos(&p4), 4);
    assert_eq!(*v.get_via_pos(&p5), 5);
}

#[test]
fn storage_clear() {
    let mut v = LinearStorage::with_capacity(0);
    v.insert(0);
    v.insert(1);
    assert_eq!(v.len(), 2);
    v.clear();
    assert_eq!(v.len(), 0);
}

#[test]
fn storage_get() {
    let mut v = LinearStorage::with_capacity(0);
    v.insert(0);
    v.insert(1);
    assert_eq!(v.get(0), Some(&0));
    assert_eq!(v.get(1), Some(&1));
    assert_eq!(v.get_mut(0), Some(&mut 0));
    assert_eq!(v.get_mut(1), Some(&mut 1));
}

#[test]
fn storage_get_unchecked() {
    let mut v = LinearStorage::with_capacity(0);
    let p1 = v.insert(0);
    let p2 = v.insert(1);
    assert_eq!(*v.get_via_pos(&p1), 0);
    assert_eq!(*v.get_via_pos(&p2), 1);
    assert_eq!(*v.get_via_pos_mut(&p1), 0);
    assert_eq!(*v.get_via_pos_mut(&p2), 1);
    assert_eq!(*v.get_occupied(v.index_of_pos(&p1)), 0);
    assert_eq!(*v.get_occupied(v.index_of_pos(&p2)), 1);
    let i1 = v.index_of_pos(&p1);
    let i2 = v.index_of_pos(&p2);
    assert_eq!(*v.get_occupied_mut(i1), 0);
    assert_eq!(*v.get_occupied_mut(i2), 1);
}

#[test]
fn storage_take_unchecked() {
    let mut v = LinearStorage::with_capacity(0);
    let p1 = v.insert(0);
    let p2 = v.insert(1);
    assert_eq!(*v.get_via_pos(&p1), 0);
    assert_eq!(*v.get_via_pos(&p2), 1);
    let i = v.take(p1);
    assert_eq!(i, 0);
    assert_eq!(*v.get_via_pos(&p2), 1);
    assert_eq!(v.len(), 2);
    let p3 = v.insert(2);
    assert_eq!(v.len(), 2);
    assert_eq!(v.index_of_pos(&p3), 0);
    assert_eq!(v.index_of_pos(&p2), 1);
    assert_eq!(*v.get_via_pos(&p3), 2);
    assert_eq!(*v.get_via_pos(&p2), 1);
}

#[test]
fn reuse() {
    let mut v = LinearStorage::with_capacity(0);
    let p0 = v.insert(0);
    let p1 = v.insert(1);
    let p2 = v.insert(2);
    let p3 = v.insert(3);
    let p4 = v.insert(4);
    let p5 = v.insert(5);
    assert_eq!(*v.get_via_pos(&p0), 0);
    assert_eq!(*v.get_via_pos(&p1), 1);
    assert_eq!(*v.get_via_pos(&p2), 2);
    assert_eq!(*v.get_via_pos(&p3), 3);
    assert_eq!(*v.get_via_pos(&p4), 4);
    assert_eq!(*v.get_via_pos(&p5), 5);
    assert_eq!(v.len(), 6);
    assert_eq!(v.take(p1), 1);
    assert_eq!(v.take(p3), 3);
    assert_eq!(v.take(p4), 4);
    assert_eq!(v.len(), 6);
    let p1 = v.insert(1);
    let p3 = v.insert(3);
    let p4 = v.insert(4);
    assert_eq!(v.len(), 6);
    assert_eq!(*v.get_via_pos(&p0), 0);
    assert_eq!(*v.get_via_pos(&p1), 1);
    assert_eq!(*v.get_via_pos(&p2), 2);
    assert_eq!(*v.get_via_pos(&p3), 3);
    assert_eq!(*v.get_via_pos(&p4), 4);
    assert_eq!(*v.get_via_pos(&p5), 5);
    let p6 = v.insert(6);
    assert_eq!(*v.get_via_pos(&p6), 6);
}

#[test]
fn storage_replace_with() {
    let mut v = LinearStorage::with_capacity(0);
    let p1 = v.insert(10);
    let p2 = v.insert(20);
    let kept = v.replace_with(p1, |x| Some(x + 1));
    assert!(kept);
    assert_eq!(v.get(0), Some(&11));
    let kept = v.replace_with(p2, |_| None);
    assert!(!kept);
    assert_eq!(v.get(1), None);
    let p3 = v.insert(30);
    assert_eq!(v.index_of_pos(&p3), 1);
}

#[test]
fn storage_get_pair_via_pos_mut() {
    let mut v = LinearStorage::with_capacity(0);
    let p1 = v.insert(1);
    let p2 = v.insert(2);
    let (a, b) = v.get_pair_via_pos_mut(&p1, &p2);
    *a += 10;
    *b += 20;
    assert_eq!(v.get(0), Some(&11));
    assert_eq!(v.get(1), Some(&22));
}
