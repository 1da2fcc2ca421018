use cosmic_vorticity::coupling::{fits, selection_rules};

#[test]
fn orders_of_a_degree() {
    assert!(fits(0, 0));
    assert!(!fits(0, 1));
    assert!(!fits(0, -1));
    assert!(fits(3, -3));
    assert!(fits(3, 3));
    assert!(!fits(3, 4));
    assert!(!fits(3, -4));
    assert!(fits(65535, 65535));
    assert!(!fits(65535, 65536));
    assert!(!fits(2, i32::MIN));
    assert!(!fits(2, i32::MAX));
}

#[test]
fn rules_pass_for_a_regular_tuple() {
    assert!(selection_rules(0, 0, 0, 0, 0, 0));
    assert!(selection_rules(2, 2, 2, 0, 0, 0));
    assert!(selection_rules(2, 2, 2, 1, -2, 1));
    assert!(selection_rules(1, 1, 2, 1, 1, -2));
    assert!(selection_rules(1, 1, 0, -1, 1, 0));
}

#[test]
fn rules_fail_when_the_degrees_do_not_couple() {
    assert!(!selection_rules(1, 1, 1, 0, 0, 0));
    assert!(!selection_rules(1, 1, 1, 1, -1, 0));
    assert!(!selection_rules(1, 1, 4, 0, 0, 0));
    assert!(!selection_rules(5, 1, 2, 0, 0, 0));
}

#[test]
fn rules_fail_when_the_orders_do_not_cancel() {
    assert!(!selection_rules(2, 2, 2, 1, -2, 0));
    assert!(!selection_rules(2, 2, 2, 1, 1, 1));
    assert!(!selection_rules(2, 2, 2, 0, 0, 1));
}

#[test]
fn rules_fail_when_an_order_exceeds_its_degree() {
    assert!(!selection_rules(2, 2, 2, 3, -2, -1));
    assert!(!selection_rules(2, 2, 2, -1, 3, -2));
    assert!(!selection_rules(2, 2, 2, 1, 2, -3));
    assert!(!selection_rules(0, 2, 2, 1, -1, 0));
}

#[test]
fn rules_do_not_overflow_on_extreme_orders() {
    assert!(!selection_rules(2, 2, 2, i32::MAX, i32::MAX, 2));
    assert!(!selection_rules(2, 2, 2, i32::MIN, i32::MIN, 0));
    assert!(!selection_rules(65535, 65535, 65534, i32::MAX, i32::MIN, 1));
    assert!(selection_rules(65535, 65535, 65534, 65535, -65535, 0));
}

#[test]
fn rules_ignore_the_order_of_the_columns() {
    for l1 in 0u16..4 {
        for l2 in 0u16..4 {
            for l3 in 0u16..4 {
                for m1 in -4i32..=4 {
                    for m2 in -4i32..=4 {
                        for m3 in -4i32..=4 {
                            let base = selection_rules(l1, l2, l3, m1, m2, m3);
                            assert_eq!(selection_rules(l2, l3, l1, m2, m3, m1), base);
                            assert_eq!(selection_rules(l3, l1, l2, m3, m1, m2), base);
                            assert_eq!(selection_rules(l2, l1, l3, m2, m1, m3), base);
                            assert_eq!(selection_rules(l1, l3, l2, m1, m3, m2), base);
                            assert_eq!(selection_rules(l3, l2, l1, m3, m2, m1), base);
                            assert_eq!(selection_rules(l1, l2, l3, -m1, -m2, -m3), base);
                        }
                    }
                }
            }
        }
    }
}

#[test]
fn coefficient_vanishes_where_even_degrees_fail_the_rules() {
    for l1 in 0u16..5 {
        for l2 in 0u16..5 {
            for l3 in 0u16..5 {
                if (l1 + l2 + l3) % 2 != 0 {
                    continue;
                }
                for m1 in -(l1 as i32)..=(l1 as i32) {
                    for m2 in -(l2 as i32)..=(l2 as i32) {
                        for m3 in -(l3 as i32)..=(l3 as i32) {
                            if !selection_rules(l1, l2, l3, m1, m2, m3) {
                                let w = wigners::wigner_3j(
                                    l1 as u32, l2 as u32, l3 as u32, m1, m2, m3,
                                );
                                assert_eq!(w, 0.0);
                            }
                        }
                    }
                }
            }
        }
    }
}

#[test]
fn coefficient_keeps_its_value_under_column_permutations_where_the_rules_pass() {
    for l1 in 0u16..5 {
        for l2 in 0u16..5 {
            for l3 in 0u16..5 {
                for m1 in -(l1 as i32)..=(l1 as i32) {
                    for m2 in -(l2 as i32)..=(l2 as i32) {
                        let m3 = -m1 - m2;
                        if !selection_rules(l1, l2, l3, m1, m2, m3) {
                            continue;
                        }
                        let (a, b, c) = (l1 as u32, l2 as u32, l3 as u32);
                        let base = wigners::wigner_3j(a, b, c, m1, m2, m3);
                        let rotated = wigners::wigner_3j(b, c, a, m2, m3, m1);
                        let swapped = wigners::wigner_3j(b, a, c, m2, m1, m3);
                        assert!((rotated - base).abs() < 1e-12);
                        assert!((swapped - base).abs() < 1e-12);
                    }
                }
            }
        }
    }
}
