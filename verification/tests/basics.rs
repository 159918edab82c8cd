use attributes_info::{bar, foo};

#[test]
fn foo_keeps_elements() {
    let v = vec![1u32, 2, 3];
    assert_eq!(foo(v), vec![1u32, 2, 3]);
}

#[test]
fn bar_is_zero() {
    assert_eq!(bar(), 0);
}
