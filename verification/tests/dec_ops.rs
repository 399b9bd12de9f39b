use lattic3::dec::{Dec, MAX_RAW, MAX_WHOLE, SCALE};

/// Whole-number conversion respects the representable range.
#[test]
fn from_whole_bounds() {
    assert_eq!(Dec::from_whole(0).unwrap(), Dec::zero());
    assert_eq!(Dec::from_whole(1).unwrap(), Dec::one());
    assert_eq!(Dec::from_whole(MAX_WHOLE).unwrap().raw, MAX_RAW);
    assert!(Dec::from_whole(MAX_WHOLE + 1).is_none());
}

/// Checked addition and subtraction saturate into failure, not values.
#[test]
fn add_sub_are_checked() {
    let a = Dec::from_whole(7).unwrap();
    let b = Dec::from_whole(3).unwrap();
    assert_eq!(a.checked_sub(b).unwrap(), Dec::from_whole(4).unwrap());
    assert!(b.checked_sub(a).is_none());
    assert_eq!(a.checked_add(b).unwrap(), Dec::from_whole(10).unwrap());
    assert!(Dec { raw: MAX_RAW }.checked_add(Dec { raw: 1 }).is_none());
}

/// Division by zero is refused; an exact division has no rounding.
#[test]
fn div_is_checked_and_exact() {
    let a = Dec::from_whole(3).unwrap();
    assert!(a.checked_div(Dec::zero()).is_none());
    let half = Dec { raw: SCALE / 2 };
    assert_eq!(a.checked_div(half).unwrap(), Dec::from_whole(6).unwrap());
}

/// A product of whole numbers is exact; the minimum of two decimals is
/// the smaller one.
#[test]
fn mul_and_min() {
    let a = Dec::from_whole(12).unwrap();
    let b = Dec::from_whole(5).unwrap();
    assert_eq!(a.checked_mul(b).unwrap(), Dec::from_whole(60).unwrap());
    assert_eq!(a.min(b), b);
    assert_eq!(b.min(a), b);
    assert!(Dec::zero().is_zero());
    assert!(!Dec::one().is_zero());
}
