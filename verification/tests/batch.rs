use cosmic_vorticity::batch::evaluate_all;
use cosmic_vorticity::triangle::admissible;

#[test]
fn one_result_per_configuration_in_sequence() {
    let configs = vec![(2u16, 2u16, 2u16), (1, 1, 1), (0, 0, 0), (5, 3, 2)];
    let results = evaluate_all(&configs, |l1: u16, l2: u16, l3: u16| {
        l1 as u32 * 10000 + l2 as u32 * 100 + l3 as u32
    });
    assert_eq!(results, vec![20202, 10101, 0, 50302]);
}

#[test]
fn no_configuration_gives_no_result() {
    let configs: Vec<(u16, u16, u16)> = Vec::new();
    let results = evaluate_all(&configs, |l1: u16, _l2: u16, _l3: u16| l1);
    assert!(results.is_empty());
}

#[test]
fn repeated_configurations_are_kept() {
    let configs = vec![(2u16, 2u16, 2u16), (2, 2, 2), (2, 2, 2)];
    let results = evaluate_all(&configs, |l1: u16, l2: u16, l3: u16| admissible(l1, l2, l3));
    assert_eq!(results, vec![true, true, true]);
}

#[test]
fn configurations_that_do_not_couple_are_not_filtered_out() {
    let configs = vec![(1u16, 1u16, 1u16), (2, 2, 2), (1, 1, 4), (3, 3, 2)];
    let results = evaluate_all(&configs, |l1: u16, l2: u16, l3: u16| admissible(l1, l2, l3));
    assert_eq!(results, vec![false, true, false, true]);
}

#[test]
fn permuting_the_configurations_permutes_the_results() {
    let configs = vec![(2u16, 2u16, 2u16), (1, 1, 2), (0, 4, 4), (6, 3, 3), (1, 2, 3)];
    let estimate = |l1: u16, l2: u16, l3: u16| -> f32 {
        l1 as f32 * 0.5 - l2 as f32 * 0.25 + l3 as f32 * 3.0
    };
    let base = evaluate_all(&configs, estimate);
    let order = [3usize, 0, 4, 2, 1];
    let permuted: Vec<(u16, u16, u16)> = order.iter().map(|&i| configs[i]).collect();
    let results = evaluate_all(&permuted, estimate);
    assert_eq!(results.len(), base.len());
    for (k, &i) in order.iter().enumerate() {
        assert_eq!(results[k], base[i]);
    }
}
