use seed_ecs::utils::mvec::{MVec, RawVec};

#[test]
fn new_buffer_is_empty_and_owns_nothing() {
    let v: MVec<u32, 16> = MVec::new();
    assert_eq!(v.len(), 0);
    assert_eq!(v.capacity(), 0);
    assert_eq!(MVec::<u32, 16>::max_cap(), 16);
    assert!(v.as_slice().is_empty());
}

#[test]
fn push_returns_offsets_and_doubles_capacity() {
    let mut v: MVec<u32, 20> = MVec::new();
    let mut caps = Vec::new();
    for k in 0..20u32 {
        assert_eq!(v.push(k * 10), k as usize);
        caps.push(v.capacity());
    }
    assert_eq!(
        caps,
        vec![1, 2, 4, 4, 8, 8, 8, 8, 16, 16, 16, 16, 16, 16, 16, 16, 20, 20, 20, 20]
    );
    assert_eq!(v.len(), 20);
    for k in 0..20usize {
        assert!(v.holds(k));
        assert_eq!(*v.get(k), k as u32 * 10);
    }
}

#[test]
fn growth_keeps_what_was_stored() {
    let mut v: MVec<String, 1024> = MVec::new();
    v.push(String::from("first"));
    v.push(String::from("second"));
    for k in 0..500 {
        v.push(format!("filler {}", k));
    }
    assert_eq!(v.get(0), "first");
    assert_eq!(v.get(1), "second");
    assert_eq!(v.get(2), "filler 0");
    assert_eq!(v.get(501), "filler 499");
    assert_eq!(v.capacity(), 512);
}

#[test]
fn pop_takes_the_last_cell() {
    let mut v: MVec<u8, 8> = MVec::new();
    assert_eq!(v.pop(), None);
    v.push(1);
    v.push(2);
    assert_eq!(v.pop(), Some(2));
    assert_eq!(v.len(), 1);
    assert_eq!(v.capacity(), 2);
    assert_eq!(v.pop(), Some(1));
    assert_eq!(v.pop(), None);
    assert_eq!(v.len(), 0);
}

#[test]
fn insert_past_the_end_extends_just_far_enough() {
    let mut v: MVec<u16, 100> = MVec::new();
    v.push(7);
    v.insert(5, 55);
    assert_eq!(v.len(), 6);
    assert_eq!(v.capacity(), 6);
    assert_eq!(v.as_slice(), &[Some(7), None, None, None, None, Some(55)]);
    assert!(!v.holds(3));
    assert!(v.holds(5));
    assert!(!v.holds(6));
    v.insert(3, 33);
    assert_eq!(v.len(), 6);
    assert_eq!(v.capacity(), 6);
    assert_eq!(*v.get(3), 33);
    assert_eq!(*v.get(0), 7);
    assert_eq!(*v.get(5), 55);
    v.insert(99, 1);
    assert_eq!(v.len(), 100);
    assert_eq!(v.capacity(), 100);
}

#[test]
fn insert_overwrites_in_place() {
    let mut v: MVec<u16, 4> = MVec::new();
    v.push(1);
    v.push(2);
    v.insert(0, 9);
    assert_eq!(v.as_slice(), &[Some(9), Some(2)]);
    assert_eq!(v.len(), 2);
}

#[test]
fn insert_within_capacity_past_length_raises_length_only() {
    let mut v: MVec<u16, 16> = MVec::new();
    v.push(1);
    v.push(2);
    v.push(3);
    assert_eq!(v.capacity(), 4);
    v.pop();
    v.pop();
    v.insert(3, 8);
    assert_eq!(v.capacity(), 4);
    assert_eq!(v.as_slice(), &[Some(1), None, None, Some(8)]);
}

#[test]
fn get_mut_changes_one_cell() {
    let mut v: MVec<i64, 4> = MVec::new();
    v.push(-1);
    v.push(-2);
    *v.get_mut(1) += 12;
    assert_eq!(v.as_slice(), &[Some(-1), Some(10)]);
}

#[test]
fn take_leaves_a_dead_cell() {
    let mut v: MVec<char, 4> = MVec::new();
    v.push('a');
    v.push('b');
    assert_eq!(v.take(0), Some('a'));
    assert_eq!(v.take(0), None);
    assert_eq!(v.take(9), None);
    assert_eq!(v.len(), 2);
    assert!(!v.holds(0));
    assert_eq!(v.as_slice(), &[None, Some('b')]);
    assert_eq!(v.pop(), Some('b'));
    assert_eq!(v.pop(), None);
    assert_eq!(v.len(), 0);
}

#[test]
fn extend_adds_capacity_and_no_length() {
    let mut v: MVec<u8, 10> = MVec::new();
    v.push(4);
    v.extend(6);
    assert_eq!(v.capacity(), 7);
    assert_eq!(v.len(), 1);
    assert_eq!(v.push(5), 1);
    assert_eq!(v.capacity(), 7);
}

#[test]
fn capacity_stops_at_the_maximum() {
    let mut v: MVec<u8, 3> = MVec::new();
    v.push(1);
    v.push(2);
    v.push(3);
    assert_eq!(v.capacity(), 3);
    assert_eq!(v.len(), MVec::<u8, 3>::max_cap());
}

#[test]
fn raw_store_grows_by_doubling_up_to_the_maximum() {
    let mut r: RawVec<u8, 5> = RawVec::new();
    assert_eq!(r.capacity(), 0);
    r.grow();
    assert_eq!(r.capacity(), 1);
    r.grow();
    assert_eq!(r.capacity(), 2);
    r.grow();
    assert_eq!(r.capacity(), 4);
    r.grow();
    assert_eq!(r.capacity(), 5);
    r.grow();
    assert_eq!(r.capacity(), 5);
}

#[test]
fn raw_store_extends_by_a_count() {
    let mut r: RawVec<u8, 50> = RawVec::new();
    r.extend(7);
    assert_eq!(r.capacity(), 7);
    r.extend(0);
    assert_eq!(r.capacity(), 7);
    r.grow();
    assert_eq!(r.capacity(), 14);
}

#[test]
fn raw_store_of_maximum_zero_never_grows() {
    let mut r: RawVec<u8, 0> = RawVec::new();
    r.grow();
    assert_eq!(r.capacity(), 0);
}
