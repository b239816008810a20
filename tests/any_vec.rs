use new_ecs::{AnyVec, Layout};

#[test]
fn capacity_grows_to_the_next_power_of_two() {
    let mut v: AnyVec<u32> = AnyVec::new();
    assert_eq!(v.capacity(), 0);
    let expected = [1usize, 2, 4, 4, 8, 8, 8, 8, 16];
    for (i, cap) in expected.iter().enumerate() {
        v.push(i as u32);
        assert_eq!(v.len(), i + 1);
        assert_eq!(v.capacity(), *cap);
    }
}

#[test]
fn pop_is_last_in_first_out() {
    let mut v: AnyVec<String> = AnyVec::new();
    v.push(String::from("a"));
    v.push(String::from("b"));
    v.push(String::from("c"));
    assert_eq!(v.pop().as_deref(), Some("c"));
    assert_eq!(v.pop().as_deref(), Some("b"));
    assert_eq!(v.pop().as_deref(), Some("a"));
    assert_eq!(v.pop(), None);
    assert_eq!(v.pop(), None);
    assert_eq!(v.capacity(), 4);
}

#[test]
fn indexed_access_is_bounds_checked() {
    let mut v: AnyVec<u64> = AnyVec::new();
    assert!(v.first().is_none());
    assert!(v.get(0).is_none());
    v.push(5);
    v.push(6);
    assert_eq!(v.first(), Some(&5));
    assert_eq!(v.get(1), Some(&6));
    assert!(v.get(2).is_none());
    *v.get_mut(0).unwrap() = 9;
    assert_eq!(v.get(0), Some(&9));
    assert!(v.get_mut(2).is_none());
}

#[test]
fn layout_is_that_of_the_element_type() {
    let v: AnyVec<u64> = AnyVec::new();
    assert_eq!(v.layout(), Layout { size: 8, align: 8 });
    let w: AnyVec<u8> = AnyVec::new();
    assert_eq!(w.layout(), Layout { size: 1, align: 1 });
}
