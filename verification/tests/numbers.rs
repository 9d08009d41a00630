use ena_graph::numbers::{gcd, lcm};
use ena_graph::ratio::Ratio;

#[test]
fn greatest_common_divisor() {
    assert_eq!(gcd(12, 18), 6);
    assert_eq!(gcd(18, 12), 6);
    assert_eq!(gcd(7, 13), 1);
    assert_eq!(gcd(5, 5), 5);
    assert_eq!(gcd(1, u128::MAX), 1);
    assert_eq!(gcd(u128::MAX, u128::MAX), u128::MAX);
}

#[test]
fn least_common_multiple() {
    assert_eq!(lcm(4, 6), Some(12));
    assert_eq!(lcm(1, 1), Some(1));
    assert_eq!(lcm(7, 13), Some(91));
    assert_eq!(lcm(u128::MAX, u128::MAX), Some(u128::MAX));
    assert_eq!(lcm(u128::MAX, 2), None);
    assert_eq!(lcm(1 << 100, 3 << 90), Some(3 << 100));
    assert_eq!(lcm(1 << 127, 3), None);
}

#[test]
fn ratios() {
    assert_eq!(Ratio::new(3, 4), Ratio { num: 3, den: 4 });
    assert_eq!(Ratio::zero(), Ratio { num: 0, den: 1 });
    assert!(Ratio::new(3, 4).at_most(1));
    assert!(Ratio::new(4, 4).at_most(1));
    assert!(!Ratio::new(5, 4).at_most(1));
    assert!(Ratio::new(5, 4).at_most(u128::MAX));
    assert!(Ratio::new(u128::MAX, 1 << 100).at_most(1 << 100));
    assert!(!Ratio::new(1, 1).at_most(0));
}
