use coredit::PositiveUsize;

#[test]
fn test_lower_bound() {
    let a: PositiveUsize = 228.into();
    let b: PositiveUsize = 322.into();

    assert_eq!(a - b, PositiveUsize::from(1));
}

#[test]
fn test_addition() {
    let a: PositiveUsize = 228.into();
    let b: PositiveUsize = 322.into();

    assert_eq!(a + b, PositiveUsize::from(550));
}
