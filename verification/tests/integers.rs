use enum_gallery::compare;
use std::cmp::Ordering;

#[test]
fn compare_smaller_is_less() {
    assert_eq!(compare(3, 4), Ordering::Less);
    assert_eq!(compare(-1, 0), Ordering::Less);
    assert_eq!(compare(i32::MIN, i32::MAX), Ordering::Less);
}

#[test]
fn compare_larger_is_greater() {
    assert_eq!(compare(4, 3), Ordering::Greater);
    assert_eq!(compare(0, -1), Ordering::Greater);
    assert_eq!(compare(i32::MAX, i32::MIN), Ordering::Greater);
}

#[test]
fn compare_same_is_equal() {
    assert_eq!(compare(0, 0), Ordering::Equal);
    assert_eq!(compare(7, 7), Ordering::Equal);
    assert_eq!(compare(i32::MIN, i32::MIN), Ordering::Equal);
    assert_eq!(compare(i32::MAX, i32::MAX), Ordering::Equal);
}

#[test]
fn compare_agrees_with_std() {
    let values = [i32::MIN, -100, -1, 0, 1, 2, 99, i32::MAX];
    for n in values {
        for m in values {
            assert_eq!(compare(n, m), n.cmp(&m));
            assert_eq!(compare(m, n), compare(n, m).reverse());
        }
    }
}
