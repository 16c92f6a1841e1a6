use network_shapley::constants::city_prefix;
use network_shapley::quantity::Real;
use network_shapley::shapley::{
    coalition_count, empty_value, enumerable_players, exact_plan, factorial, find_players,
    marginal_terms, operator_mask, operator_masks, outage_terms, reuse_gate, Outage, ALWAYS_BIT,
};
use network_shapley::types::Device;
use std::collections::HashMap;

fn exact(x: f64) -> Real {
    Real { bits: x.to_bits() }
}

fn number(x: Real) -> f64 {
    f64::from_bits(x.bits)
}

fn names(list: &[&str]) -> Vec<String> {
    list.iter().map(|s| s.to_string()).collect()
}

/// The averages over who is up, term by term.
fn expected_values(svalue: &[Option<f64>], n: usize, uptime: f64) -> Vec<f64> {
    let values: Vec<Option<Real>> = svalue.iter().map(|v| v.map(exact)).collect();
    let mut out: Vec<f64> = (0..coalition_count(n))
        .map(|s| {
            outage_terms(s, &values)
                .iter()
                .map(|t| {
                    uptime.powi(t.up as i32)
                        * (1.0 - uptime).powi(t.down as i32)
                        * number(values[t.coalition].unwrap())
                })
                .sum()
        })
        .collect();
    if let Some(v) = empty_value(&values) {
        out[0] = number(v);
    }
    out
}

/// The values of the players, term by term.
fn values_of(worth: &[f64], n: usize) -> Vec<f64> {
    let all = factorial(n) as f64;
    (0..n)
        .map(|k| {
            marginal_terms(n, k)
                .iter()
                .map(|t| t.weight as f64 / all * (worth[t.with] - worth[t.without]))
                .sum()
        })
        .collect()
}

#[test]
fn test_compute_expected_values_simple() {
    let n_ops = 2;
    let uptime = 0.9;

    // Coalitions: {}, {B}, {A}, {A,B}
    let svalue = vec![Some(100.0), Some(120.0), Some(150.0), Some(200.0)];

    let evalue = expected_values(&svalue, n_ops, uptime);

    let expected_evalue = vec![100.0, 118.0, 145.0, 187.3];

    for (i, (val, exp)) in evalue.iter().zip(expected_evalue).enumerate() {
        assert!((val - exp).abs() < 1e-9, "Mismatch at index {i}: got {val}, expected {exp}");
    }
}

#[test]
fn outages_are_listed_from_the_whole_down() {
    let values = vec![
        Some(exact(1.0)),
        None,
        Some(exact(2.0)),
        Some(exact(f64::INFINITY)),
        Some(exact(3.0)),
        Some(exact(4.0)),
        Some(exact(5.0)),
        Some(exact(6.0)),
    ];
    let list: Vec<usize> = outage_terms(7, &values).iter().map(|t| t.coalition).collect();
    assert_eq!(list, vec![7, 6, 5, 4, 2, 0]);
    assert_eq!(
        outage_terms(5, &values),
        vec![
            Outage { coalition: 5, up: 2, down: 0 },
            Outage { coalition: 4, up: 1, down: 1 },
            Outage { coalition: 0, up: 0, down: 2 },
        ]
    );
    assert_eq!(empty_value(&values), Some(exact(1.0)));
    assert_eq!(empty_value(&[None]), None);
    assert_eq!(empty_value(&[Some(exact(f64::NAN))]), None);
}

#[test]
fn chances_of_a_coalition_add_up_to_one() {
    let values = vec![Some(exact(1.0)); 16];
    let p: f64 = 0.85;
    for s in 0..16 {
        let sum: f64 = outage_terms(s, &values)
            .iter()
            .map(|t| p.powi(t.up as i32) * (1.0 - p).powi(t.down as i32))
            .sum();
        assert!((sum - 1.0).abs() < 1e-12);
    }
}

#[test]
fn values_of_players_add_up() {
    // Three players; the glove game with two left gloves and one right one.
    let worth: Vec<f64> =
        (0..8usize).map(|s| if s & 4 != 0 && s & 3 != 0 { 1.0 } else { 0.0 }).collect();
    let values = values_of(&worth, 3);
    assert!((values[0] - 1.0 / 6.0).abs() < 1e-12);
    assert!((values[1] - 1.0 / 6.0).abs() < 1e-12);
    assert!((values[2] - 4.0 / 6.0).abs() < 1e-12);
    assert!((values.iter().sum::<f64>() - 1.0).abs() < 1e-12);
}

#[test]
fn an_idle_player_is_worth_nothing() {
    let worth: Vec<f64> = (0..8usize).map(|s| (s & 3) as f64).collect();
    assert_eq!(values_of(&worth, 3)[2], 0.0);
}

#[test]
fn weights_add_up_to_the_factorial() {
    assert_eq!(factorial(0), 1);
    assert_eq!(factorial(20), 2432902008176640000);
    for n in 1..=8usize {
        for k in 0..n {
            let terms = marginal_terms(n, k);
            assert_eq!(terms.len(), 1 << (n - 1));
            assert_eq!(terms.iter().map(|t| t.weight).sum::<u64>(), factorial(n));
            assert!(terms.iter().all(|t| t.with & (1 << k) != 0 && t.without == t.with ^ (1 << k)));
        }
    }
    // Operator 0 of three: alone, with either other, with both.
    let weights: Vec<u64> = marginal_terms(3, 0).iter().map(|t| t.weight).collect();
    assert_eq!(weights, vec![2, 1, 1, 2]);
}

#[test]
fn drawing_who_is_up_estimates_the_average() {
    let worth = [3.0, 5.0, 11.0, 20.0, 1.0, 8.0, 9.0, 40.0];
    let svalue: Vec<Option<f64>> = worth.iter().map(|&v| Some(v)).collect();
    let p = 0.7;
    let average = expected_values(&svalue, 3, p);
    // Operator 2 joins coalition {0, 1}: 7 after, 3 before.
    let values: Vec<Option<Real>> = svalue.iter().map(|v| v.map(exact)).collect();
    let addition: f64 = outage_terms(3, &values)
        .iter()
        .map(|t| {
            p.powi(t.up as i32)
                * (1.0f64 - p).powi(t.down as i32)
                * (worth[t.coalition + 4] - worth[t.coalition])
        })
        .sum();
    assert!((average[7] - average[3] - p * addition).abs() < 1e-9);
}

#[test]
fn players_and_their_bits() {
    let devices: Vec<Device> = [("A1", "Zeta"), ("B1", "Private"), ("C1", "Alpha"), ("D1", "Zeta")]
        .iter()
        .map(|(d, o)| Device::new(d.to_string(), 1, o.to_string()))
        .collect();
    let players = find_players(&devices);
    assert_eq!(players, names(&["Alpha", "Zeta"]));
    assert_eq!(operator_mask("Zeta", &players), 2);
    assert_eq!(operator_mask("Public", &players), ALWAYS_BIT);
    assert_eq!(operator_mask("Private", &players), 1 << 31);
    assert_eq!(operator_mask("", &players), 1 << 31);
    assert_eq!(operator_mask("Nobody", &players), 0);
    assert_eq!(operator_masks(&names(&["Alpha", "Zeta", "x"]), &players), vec![1, 2, 0]);
    assert_eq!(reuse_gate(&names(&["Zeta", "Nobody", "Zeta"]), &players), 2);
    assert_eq!(reuse_gate(&names(&["Zeta", "Alpha"]), &players), 3);
}

#[test]
fn too_many_players_are_refused() {
    let mut devices: Vec<Device> = (0..20)
        .map(|i| Device::new(format!("D{i}"), 1, format!("Op{i}")))
        .collect();
    assert_eq!(enumerable_players(&devices).unwrap().len(), 20);
    devices.push(Device::new("E".to_string(), 1, "Op20".to_string()));
    assert_eq!(
        enumerable_players(&devices).unwrap_err().message(),
        "Too many operators: 21 (limit is 20)"
    );
}

#[test]
fn earlier_values_are_taken_over_outside_the_changed_players() {
    assert_eq!(coalition_count(0), 1);
    assert_eq!(coalition_count(5), 32);
    let mut seed = HashMap::new();
    for s in 0..4u32 {
        seed.insert(s | ALWAYS_BIT, Some(exact(s as f64)));
    }
    seed.insert(2 | ALWAYS_BIT, None);
    seed.insert(1, Some(exact(9.0)));
    assert_eq!(
        exact_plan(2, &seed, 1),
        vec![Some(Some(exact(0.0))), None, Some(None), None]
    );
    assert_eq!(exact_plan(2, &HashMap::new(), 0), vec![None, None, None, None]);
}

#[test]
fn city_codes_are_three_characters() {
    assert_eq!(city_prefix("FRA1"), Some("FRA"));
    assert_eq!(city_prefix("FRA"), Some("FRA"));
    assert_eq!(city_prefix("FR"), None);
    assert_eq!(city_prefix(""), None);
    assert_eq!(city_prefix("\u{e9}A1"), Some("\u{e9}A1"));
    assert_eq!(city_prefix("AA\u{e9}1"), Some("AA\u{e9}"));
    assert_eq!(city_prefix("\u{e9}\u{e9}"), None);
    assert_eq!(city_prefix("\u{e9}A"), None);
}

#[test]
fn like_operators_get_like_values() {
    // The first two add the same to every coalition, the third something else.
    let worth = [0.0, 5.0, 5.0, 12.0, 1.0, 9.0, 9.0, 20.0];
    let values: Vec<f64> = (0..3)
        .map(|k| {
            marginal_terms(3, k)
                .iter()
                .map(|t| t.weight as f64 / 6.0 * (worth[t.with] - worth[t.without]))
                .sum()
        })
        .collect();
    assert!((values[0] - values[1]).abs() < 1e-12);
    assert!((values[0] - 47.0 / 6.0).abs() < 1e-12, "{}", values[0]);
    assert!((values[2] - 13.0 / 3.0).abs() < 1e-12, "{}", values[2]);
}
