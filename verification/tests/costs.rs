use maze_agent::cost::{Cost, Strength};

fn strength_of(num: u32, den: u16) -> Strength {
    Strength::new(num, den).expect("a denominator other than zero")
}

fn open_cost(dist_sq: u32, visits: u64) -> Cost {
    Cost::Reachable { dist_sq, visits }
}

#[test]
fn strength_needs_a_denominator() {
    assert!(Strength::new(3, 0).is_none());
    assert!(Strength::new(0, 0).is_none());
    let s = Strength::new(3, 2).unwrap();
    assert_eq!(s.num(), 3);
    assert_eq!(s.den(), 2);
}

#[test]
fn zero_strength_is_a_strength() {
    let s = strength_of(0, 5);
    // With no strength the visits count for nothing: sqrt(2) < sqrt(8).
    assert!(open_cost(2, 2).less_than(&open_cost(8, 1), s));
    assert!(!open_cost(8, 1).less_than(&open_cost(2, 2), s));
}

#[test]
fn equal_costs_are_not_less() {
    let s = strength_of(3, 2);
    assert!(!open_cost(5, 0).less_than(&open_cost(5, 0), s));
    assert!(!open_cost(5, 7).less_than(&open_cost(5, 7), s));
}

#[test]
fn unvisited_costs_order_by_distance() {
    let s = strength_of(3, 2);
    assert!(open_cost(4, 0).less_than(&open_cost(5, 0), s));
    assert!(!open_cost(5, 0).less_than(&open_cost(4, 0), s));
}

#[test]
fn visits_weigh_the_strength() {
    let s = strength_of(3, 2);
    // sqrt(2) = 1.414.. is below 0 + 1.5, and 1.5 is not below sqrt(2).
    assert!(open_cost(2, 0).less_than(&open_cost(0, 1), s));
    assert!(!open_cost(0, 1).less_than(&open_cost(2, 0), s));
}

#[test]
fn a_tie_between_a_root_and_a_sum_is_no_order() {
    let s = strength_of(3, 2);
    // sqrt(9) = 3 = 0 + 2 * 1.5.
    assert!(!open_cost(9, 0).less_than(&open_cost(0, 2), s));
    assert!(!open_cost(0, 2).less_than(&open_cost(9, 0), s));
}

#[test]
fn unreachable_is_above_every_number() {
    let s = strength_of(3, 2);
    let far = open_cost(u32::MAX, u64::MAX);
    assert!(far.less_than(&Cost::Unreachable, s));
    assert!(open_cost(0, 0).less_than(&Cost::Unreachable, s));
    assert!(!Cost::Unreachable.less_than(&far, s));
    assert!(!Cost::Unreachable.less_than(&Cost::Unreachable, s));
}

#[test]
fn close_calls_are_decided_exactly() {
    // sqrt(2) = 1.41421356237.. against 1 + 0.414213562 and 1 + 41421/65535.
    let fine = strength_of(414213562, 1000);
    assert!(open_cost(2, 0).less_than(&open_cost(1, 1), fine));
    let coarse = strength_of(41421, 65535);
    assert!(open_cost(2, 0).less_than(&open_cost(1, 1), coarse));
    assert!(!open_cost(1, 1).less_than(&open_cost(2, 0), coarse));
}

#[test]
fn the_largest_numbers_do_not_overflow() {
    let big = strength_of(u32::MAX, u16::MAX);
    let a = open_cost(u32::MAX, u64::MAX);
    let b = open_cost(0, u64::MAX);
    assert!(!a.less_than(&b, big));
    assert!(b.less_than(&a, big));

    let whole = strength_of(u32::MAX, 1);
    let c = open_cost(0, u64::MAX);
    let d = open_cost(u32::MAX, u64::MAX - 1);
    assert!(!c.less_than(&d, whole));
    assert!(d.less_than(&c, whole));

    let thin = strength_of(1, u16::MAX);
    assert!(!open_cost(u32::MAX, 0).less_than(&open_cost(u32::MAX - 1, 0), thin));
    assert!(open_cost(u32::MAX - 1, 0).less_than(&open_cost(u32::MAX, 0), thin));
}

#[test]
fn large_roots_against_large_sums() {
    let one = strength_of(1, 1);
    // sqrt(4294967295) = 65535.99..: above 65535, below 65536.
    assert!(!open_cost(u32::MAX, 0).less_than(&open_cost(0, 65535), one));
    assert!(open_cost(0, 65535).less_than(&open_cost(u32::MAX, 0), one));
    assert!(!open_cost(0, 65536).less_than(&open_cost(u32::MAX, 0), one));
    // 4294836225 = 65535^2: a tie with 65535 visits, at strength 1 and 1/7.
    assert!(!open_cost(4294836225, 0).less_than(&open_cost(0, 65535), one));
    assert!(!open_cost(0, 65535).less_than(&open_cost(4294836225, 0), one));
    let seventh = strength_of(1, 7);
    assert!(!open_cost(4294836225, 0).less_than(&open_cost(0, 458745), seventh));
    assert!(!open_cost(0, 458745).less_than(&open_cost(4294836225, 0), seventh));
}
