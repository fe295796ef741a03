use std::cmp::Ordering;
use stream_buffer::seq32::Seq32;

#[test]
fn seq32_from_and_deref() {
    let a = Seq32::from(7);
    assert_eq!(*a, 7);
    assert_eq!(a, Seq32(7));
}

#[test]
fn seq32_add_wraps() {
    assert_eq!(Seq32::from(4294967295) + 1u32, Seq32::from(0));
    assert_eq!(Seq32::from(4294967290) + Seq32::from(10), Seq32::from(4));
    assert_eq!(Seq32::from(5) + 6u32, Seq32::from(11));
    let mut a = Seq32::from(4294967295);
    a += 2u32;
    assert_eq!(a, Seq32::from(1));
    a += Seq32::from(4294967295);
    assert_eq!(a, Seq32::from(0));
}

#[test]
fn seq32_sub_wraps() {
    assert_eq!(Seq32::from(0) - 1u32, Seq32::from(4294967295));
    assert_eq!(Seq32::from(3) - Seq32::from(5), Seq32::from(4294967294));
    assert_eq!(Seq32::from(9) - 4u32, Seq32::from(5));
    let mut a = Seq32::from(1);
    a -= 2u32;
    assert_eq!(a, Seq32::from(4294967295));
    a -= Seq32::from(4294967295);
    assert_eq!(a, Seq32::from(0));
}

#[test]
fn seq32_distance() {
    assert_eq!(Seq32::from(10).distance_from(Seq32::from(4)), 6);
    assert_eq!(Seq32::from(4).distance_from(Seq32::from(10)), 4294967290);
    assert_eq!(Seq32::from(3).distance_from(Seq32::from(4294967295)), 4);
    assert_eq!(Seq32::from(3).distance_from(Seq32::from(3)), 0);
}

#[test]
fn seq32_order_plain() {
    assert!(Seq32::from(1) < Seq32::from(2));
    assert!(Seq32::from(2) > Seq32::from(1));
    assert!(Seq32::from(2) >= Seq32::from(2));
    assert!(Seq32::from(2) <= Seq32::from(2));
    assert_eq!(Seq32::from(5).cmp(&Seq32::from(5)), Ordering::Equal);
    assert_eq!(Seq32::from(5).cmp(&Seq32::from(6)), Ordering::Less);
    assert_eq!(Seq32::from(6).cmp(&Seq32::from(5)), Ordering::Greater);
    assert_eq!(Seq32::from(6).partial_cmp(&Seq32::from(5)), Some(Ordering::Greater));
}

#[test]
fn seq32_order_across_the_wrap() {
    assert!(Seq32::from(4294967290) < Seq32::from(100));
    assert!(Seq32::from(100) > Seq32::from(4294967290));
    assert!(Seq32::from(0) > Seq32::from(4294967295));
    assert!(Seq32::from(4294967280) < Seq32::from(0));
    assert_eq!(Seq32::from(0).cmp(&Seq32::from(4294967295)), Ordering::Greater);
}

#[test]
fn seq32_order_at_half_space() {
    // 2^31 - 1 ahead is greater, 2^31 ahead is less
    assert!(Seq32::from(2147483647) > Seq32::from(0));
    assert!(Seq32::from(2147483648) < Seq32::from(0));
    // opposite points are each less than the other
    assert!(Seq32::from(0) < Seq32::from(2147483648));
    assert_eq!(Seq32::from(0).cmp(&Seq32::from(2147483648)), Ordering::Less);
    assert_eq!(Seq32::from(2147483648).cmp(&Seq32::from(0)), Ordering::Less);
}
