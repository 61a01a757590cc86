use stable_map::pos_vec::PosVec;

#[test]
fn with_capacity() {
    let v = PosVec::<i32>::with_capacity(10);
    assert_eq!(v.capacity(), 10);
}

#[test]
fn len() {
    let mut v = PosVec::<i32>::with_capacity(0);
    assert_eq!(v.len(), 0);
    v.create_pos();
    assert_eq!(v.len(), 1);
    v.clear();
    assert_eq!(v.len(), 0);
}

#[test]
fn capacity() {
    let mut v = PosVec::<i32>::with_capacity(0);
    assert_eq!(v.capacity(), 0);
    v.reserve(10);
    assert_eq!(v.capacity(), 10);
}

#[test]
fn shrink_to_fit() {
    let mut v = PosVec::<i32>::with_capacity(10);
    v.create_pos();
    assert_eq!(v.capacity(), 10);
    assert_eq!(v.len(), 1);
    v.shrink_to_fit();
    assert_eq!(v.capacity(), 1);
    assert_eq!(v.len(), 1);
}

#[test]
fn create_pos() {
    let mut v = PosVec::<i32>::with_capacity(0);
    let p1 = v.create_pos();
    let p2 = v.create_pos();
    assert_eq!(v.index_of_pos(&p1), 0);
    assert_eq!(v.index_of_pos(&p2), 1);
    assert_eq!(v.len(), 2);
    v.clear();
    let p1 = v.create_pos();
    let p2 = v.create_pos();
    assert_eq!(v.index_of_pos(&p1), 0);
    assert_eq!(v.index_of_pos(&p2), 1);
    assert_eq!(v.len(), 2);
}

#[test]
fn store() {
    let mut v = PosVec::with_capacity(0);
    let p1 = v.create_pos();
    let p1 = v.store(p1, 1);
    assert_eq!(*v.get_via_pos(&p1), 1);
    assert_eq!(v.get(0), Some(&1));
    let p2 = v.create_pos();
    let p2 = v.store(p2, 2);
    assert_eq!(*v.get_via_pos(&p2), 2);
    assert_eq!(v.get(1), Some(&2));
    let (i, p1) = v.take(p1);
    assert_eq!(i, 1);
    assert_eq!(v.get(0), None);
    assert_eq!(*v.get_via_pos(&p2), 2);
    assert_eq!(v.get(1), Some(&2));
    let p1 = v.store(p1, 3);
    assert_eq!(*v.get_via_pos(&p1), 3);
    assert_eq!(v.get(0), Some(&3));
}

#[test]
fn compact() {
    let mut v = PosVec::with_capacity(0);
    let p1 = v.create_pos();
    let p2 = v.create_pos();
    let p3 = v.create_pos();
    let p4 = v.create_pos();
    let p5 = v.create_pos();
    let p6 = v.create_pos();
    let p1 = v.store(p1, 1);
    let p2 = v.store(p2, 2);
    let p5 = v.store(p5, 3);
    let p6 = v.store(p6, 4);
    assert_eq!(v.get(0), Some(&1));
    assert_eq!(v.get(1), Some(&2));
    assert_eq!(v.get(2), None);
    assert_eq!(v.get(3), None);
    assert_eq!(v.get(4), Some(&3));
    assert_eq!(v.get(5), Some(&4));
    assert_eq!(*v.get_via_pos(&p1), 1);
    assert_eq!(*v.get_via_pos(&p2), 2);
    assert_eq!(*v.get_via_pos(&p5), 3);
    assert_eq!(*v.get_via_pos(&p6), 4);
    let free = vec![v.index_of_pos(&p3), v.index_of_pos(&p4)];
    v.compact(&free);
    assert_eq!(v.get(0), Some(&1));
    assert_eq!(v.get(1), Some(&2));
    assert_eq!(v.get(2), Some(&4));
    assert_eq!(v.get(3), Some(&3));
    assert_eq!(v.index_of_pos(&p6), 2);
    assert_eq!(v.index_of_pos(&p5), 3);
    assert_eq!(*v.get_via_pos(&p1), 1);
    assert_eq!(*v.get_via_pos(&p2), 2);
    assert_eq!(*v.get_via_pos(&p5), 3);
    assert_eq!(*v.get_via_pos(&p6), 4);
}

#[test]
fn clear() {
    let mut v = PosVec::with_capacity(0);
    let p1 = v.create_pos();
    let p2 = v.create_pos();
    v.store(p1, 1);
    v.store(p2, 2);
    assert_eq!(v.len(), 2);
    v.clear();
    assert_eq!(v.len(), 0);
}

#[test]
fn get() {
    let mut v = PosVec::with_capacity(0);
    let p1 = v.create_pos();
    let p2 = v.create_pos();
    v.store(p1, 1);
    v.store(p2, 2);
    assert_eq!(v.get(0), Some(&1));
    assert_eq!(v.get(1), Some(&2));
    assert_eq!(v.get_mut(0), Some(&mut 1));
    assert_eq!(v.get_mut(1), Some(&mut 2));
}

#[test]
fn get_unchecked() {
    let mut v = PosVec::with_capacity(0);
    let p1 = v.create_pos();
    let p2 = v.create_pos();
    let p1 = v.store(p1, 1);
    let p2 = v.store(p2, 2);
    assert_eq!(*v.get_via_pos(&p1), 1);
    assert_eq!(*v.get_via_pos(&p2), 2);
    assert_eq!(*v.get_via_pos_mut(&p1), 1);
    assert_eq!(*v.get_via_pos_mut(&p2), 2);
    assert_eq!(*v.get_occupied(v.index_of_pos(&p1)), 1);
    assert_eq!(*v.get_occupied(v.index_of_pos(&p2)), 2);
    let i1 = v.index_of_pos(&p1);
    let i2 = v.index_of_pos(&p2);
    assert_eq!(*v.get_occupied_mut(i1), 1);
    assert_eq!(*v.get_occupied_mut(i2), 2);
}

#[test]
fn take_unchecked() {
    let mut v = PosVec::with_capacity(0);
    let p1 = v.create_pos();
    let p2 = v.create_pos();
    let p1 = v.store(p1, 1);
    let p2 = v.store(p2, 2);
    assert_eq!(*v.get_via_pos(&p1), 1);
    assert_eq!(*v.get_via_pos(&p2), 2);
    let (i, p1) = v.take(p1);
    assert_eq!(i, 1);
    assert_eq!(v.index_of_pos(&p1), 0);
    assert_eq!(*v.get_via_pos(&p2), 2);
}

#[test]
fn checked_pos_access() {
    let mut v = PosVec::with_capacity(0);
    let p1 = v.create_pos();
    assert!(v.get_checked(&p1).is_none());
    let p1 = v.store(p1, 7);
    assert_eq!(v.get_checked(&p1), Some(&7));
    let (val, p1) = v.take(p1);
    assert_eq!(val, 7);
    assert!(v.get_checked(&p1).is_none());
}

#[test]
fn get_pair_mut() {
    let mut v = PosVec::with_capacity(0);
    let p1 = v.create_pos();
    let p2 = v.create_pos();
    let p1 = v.store(p1, 1);
    let p2 = v.store(p2, 2);
    let i1 = v.index_of_pos(&p1);
    let i2 = v.index_of_pos(&p2);
    assert_eq!(v.get_pair_mut(i1, i2), (&mut 1, &mut 2));
    assert_eq!(v.get_pair_mut(i2, i1), (&mut 2, &mut 1));
}
