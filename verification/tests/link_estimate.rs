use network_shapley::error::ShapleyError;
use network_shapley::link_estimate::{
    check_link_estimate_inputs, find_edge_players, is_real_device, list_links, retag_links,
};
use network_shapley::quantity::{float_key, Real};
use network_shapley::types::{ConsolidatedLink, Device, PrivateLink};
use network_shapley::validation::check_inputs;

fn exact(x: f64) -> Real {
    Real { bits: x.to_bits() }
}

fn link(a: &str, b: &str, latency: f64, bandwidth: f64, shared: Option<u32>) -> PrivateLink {
    PrivateLink::new(
        a.to_string(),
        b.to_string(),
        exact(latency),
        exact(bandwidth),
        exact(1.0),
        shared,
    )
}

fn edge(a: &str, b: &str, latency: f64, bandwidth: f64, op1: &str, op2: &str) -> ConsolidatedLink {
    ConsolidatedLink {
        device1: a.to_string(),
        device2: b.to_string(),
        latency: exact(latency),
        bandwidth: exact(bandwidth),
        operator1: op1.to_string(),
        operator2: op2.to_string(),
        shared: 0,
        link_type: 0,
    }
}

fn precheck(links: Vec<PrivateLink>) -> Result<(), ShapleyError> {
    let devices = vec![
        Device::new("AAA1".into(), 10, "Alpha".into()),
        Device::new("BBB1".into(), 10, "Alpha".into()),
        Device::new("CCC1".into(), 10, "Beta".into()),
    ];
    check_link_estimate_inputs(&links, &devices, "Alpha")
}

fn expect_validation(links: Vec<PrivateLink>, needle: &str) {
    let err = precheck(links).expect_err("pre-check must reject this input");
    assert!(
        matches!(&err, ShapleyError::Validation(msg) if msg.contains(needle)),
        "expected Validation containing {needle:?}, got {err:?}"
    );
}

#[test]
fn real_device_matcher_matches_python_regex() {
    for ok in ["NYC1", "LON01", "PAR12", "AAA9", "FRA123"] {
        assert!(is_real_device(ok), "{ok} should be a real device");
    }
    for bad in [
        "NYC00", "NYC", "NYC0", "nyc1", "NY1", "NYCA", "FRA", "FRA1A", "ABCD", "AB12",
    ] {
        assert!(!is_real_device(bad), "{bad} should NOT be a real device");
    }
}

#[test]
fn test_link_estimate_too_many_operators() {
    let devices: Vec<Device> = (0..21)
        .map(|i| Device::new(format!("DEV{i}"), 10, format!("Op{i}")))
        .collect();
    let links = vec![link("DEV0", "DEV1", 1.0, 10.0, None)];
    assert!(check_link_estimate_inputs(&links, &devices, "Op0").is_ok());
    let err = check_inputs(&links, &devices, &[], &[], exact(1.0))
        .expect_err("21 operators must be rejected");
    assert!(
        matches!(err, ShapleyError::TooManyOperators { limit: 20, count } if count >= 21),
        "expected TooManyOperators{{limit:20}}, got {err:?}"
    );
}

#[test]
fn test_shared_group_on_focus_links_rejected() {
    expect_validation(
        vec![
            link("AAA1", "BBB1", 1.0, 10.0, Some(7)),
            link("AAA1", "CCC1", 2.0, 10.0, Some(7)),
        ],
        "Shared groups",
    );
}

#[test]
fn test_duplicate_links_rejected() {
    expect_validation(
        vec![link("AAA1", "BBB1", 1.0, 10.0, None), link("BBB1", "AAA1", 1.0, 10.0, None)],
        "Duplicate links",
    );
}

#[test]
fn test_signed_zero_duplicate_links_rejected() {
    expect_validation(
        vec![link("AAA1", "BBB1", 1.0, 0.0, None), link("AAA1", "BBB1", 1.0, -0.0, None)],
        "Duplicate links",
    );
}

#[test]
fn links_that_differ_are_accepted() {
    assert!(precheck(vec![
        link("AAA1", "BBB1", 1.0, 10.0, Some(1)),
        link("AAA1", "BBB1", 2.0, 10.0, Some(2)),
        link("CCC1", "CCC1", 2.0, 10.0, Some(1)),
    ])
    .is_ok());
    assert_eq!(float_key(exact(-0.0)), 0);
    assert_eq!(float_key(exact(2.0)), 2.0f64.to_bits());
}

#[test]
fn test_nan_latency_fails_loudly_instead_of_half_tagging() {
    let mut links = vec![
        edge("AMS1", "FRA1", f64::NAN, 10.0, "Alpha", "Beta"),
        edge("FRA1", "AMS1", f64::NAN, 10.0, "Beta", "Alpha"),
    ];
    let err = retag_links(&mut links, "Alpha").expect_err("missing symmetric edge is an error");
    assert_eq!((err.device1.as_str(), err.device2.as_str()), ("AMS1", "FRA1"));
    assert!(f64::from_bits(err.latency.bits).is_nan());
    assert_eq!(err.bandwidth, exact(10.0));
}

fn network() -> Vec<ConsolidatedLink> {
    vec![
        edge("NYC1", "LON1", 1.0, 10.0, "Alpha", "Alpha"),
        edge("LON1", "PAR1", 2.0, 10.0, "Alpha", "Beta"),
        edge("PAR1", "BER1", 3.0, 10.0, "Beta", "Gamma"),
        edge("LON1", "NYC1", 1.0, 10.0, "Alpha", "Alpha"),
        edge("PAR1", "LON1", 2.0, 10.0, "Beta", "Alpha"),
        edge("BER1", "PAR1", 3.0, 10.0, "Gamma", "Beta"),
        edge("NYC", "NYC1", 0.0, 5.0, "Alpha", "Alpha"),
        edge("PAR1", "PAR", 0.0, 5.0, "Beta", "Beta"),
        edge("NYC00", "PAR00", 9.0, 0.0, "Public", "Public"),
    ]
}

#[test]
fn links_in_focus_become_players() {
    let mut links = network();
    retag_links(&mut links, "Alpha").unwrap();
    let operators: Vec<(&str, &str)> =
        links.iter().map(|l| (l.operator1.as_str(), l.operator2.as_str())).collect();
    assert_eq!(
        operators,
        vec![
            ("1", "1"),
            ("2", "Others"),
            ("Others", "Others"),
            ("1", "1"),
            ("Others", "2"),
            ("Others", "Others"),
            ("Private", "Private"),
            ("Others", "Others"),
            ("Public", "Public"),
        ]
    );
    let players = find_edge_players(&links).unwrap();
    assert_eq!(players, vec!["1".to_string(), "2".to_string(), "Others".to_string()]);
    let rows = list_links(&links, &players);
    let ends: Vec<(&str, &str, Option<usize>)> =
        rows.iter().map(|r| (r.device1.as_str(), r.device2.as_str(), r.player)).collect();
    assert_eq!(ends, vec![("LON1", "PAR1", Some(1)), ("LON1", "NYC1", Some(0))]);
}

#[test]
fn an_operator_without_links_has_no_rows() {
    let mut links = network();
    retag_links(&mut links, "NoSuchOperator").unwrap();
    let players = find_edge_players(&links).unwrap();
    assert_eq!(players, vec!["Others".to_string()]);
    assert!(list_links(&links, &players).is_empty());
}

#[test]
fn too_many_links_are_refused() {
    let mut links = vec![];
    for i in 0..21 {
        links.push(edge("AAA1", "BBB1", i as f64, 1.0, "Alpha", "Alpha"));
        links.push(edge("BBB1", "AAA1", i as f64, 1.0, "Alpha", "Alpha"));
    }
    retag_links(&mut links, "Alpha").unwrap();
    assert_eq!(links[41].operator1, "21");
    assert_eq!(
        find_edge_players(&links).unwrap_err().message(),
        "Too many operators: 21 (limit is 20)"
    );
}
