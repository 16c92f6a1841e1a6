use network_shapley::error::ShapleyError;
use network_shapley::quantity::Real;
use network_shapley::types::{Demand, Device, PrivateLink, PublicLink};
use network_shapley::validation::check_inputs;

fn exact(x: f64) -> Real {
    Real { bits: x.to_bits() }
}

fn link(a: &str, b: &str) -> PrivateLink {
    PrivateLink::new(a.to_string(), b.to_string(), exact(50.0), exact(10.0), exact(1.0), None)
}

fn device(name: &str, operator: &str) -> Device {
    Device::new(name.to_string(), 1, operator.to_string())
}

fn demand(start: &str, end: &str, traffic: f64, kind: u32, multicast: bool) -> Demand {
    Demand::new(start.to_string(), end.to_string(), 1, exact(traffic), exact(1.0), kind, multicast)
}

fn road(a: &str, b: &str) -> PublicLink {
    PublicLink::new(a.to_string(), b.to_string(), exact(100.0))
}

struct Network {
    links: Vec<PrivateLink>,
    devices: Vec<Device>,
    demands: Vec<Demand>,
    roads: Vec<PublicLink>,
    uptime: f64,
}

fn good() -> Network {
    Network {
        links: vec![link("SIN1", "FRA1")],
        devices: vec![device("SIN1", "Alpha"), device("FRA1", "Beta")],
        demands: vec![demand("SIN", "FRA", 1.0, 1, false)],
        roads: vec![road("SIN", "FRA")],
        uptime: 1.0,
    }
}

fn check(n: &Network) -> Result<(), ShapleyError> {
    check_inputs(&n.links, &n.devices, &n.demands, &n.roads, exact(n.uptime))
}

fn message(n: &Network) -> String {
    check(n).expect_err("this network is not in order").message()
}

#[test]
fn test_valid_inputs() {
    assert!(check(&good()).is_ok());
}

#[test]
fn test_too_many_operators() {
    let mut devices = vec![];
    for i in 0..25 {
        devices.push(device(&format!("D{i}"), &format!("Op{i}")));
    }
    let network = Network {
        links: vec![link("A1", "B1")],
        devices,
        demands: vec![demand("A", "B", 1.0, 1, false)],
        roads: vec![road("A", "B")],
        uptime: 0.98,
    };

    let result = check(&network);
    assert!(matches!(result, Err(ShapleyError::TooManyOperators { .. })));
}

#[test]
fn operators_are_limited_by_uptime() {
    let mut network = good();
    network.devices.clear();
    for i in 0..16 {
        network.devices.push(device(&format!("DEV{i}"), &format!("Op{i}")));
    }
    network.links = vec![link("DEV1", "DEV2")];
    assert!(check(&network).is_ok());
    network.uptime = 0.999;
    assert_eq!(message(&network), "Too many operators: 16 (limit is 15)");
    network.devices.push(device("DEV16", "Private"));
    network.devices.truncate(15);
    assert!(check(&network).is_ok());
    network.uptime = f64::NAN;
    assert!(check(&network).is_ok());
}

#[test]
fn the_public_operator_is_reserved() {
    let mut network = good();
    network.links.clear();
    network.devices[1].operator = "Public".to_string();
    assert_eq!(
        message(&network),
        "Validation error: Public is a protected keyword for operator names; choose another."
    );
}

#[test]
fn there_is_a_private_link() {
    let mut network = good();
    network.links.clear();
    assert_eq!(
        message(&network),
        "Validation error: There must be at least one private link for this simulation."
    );
}

#[test]
fn cities_hold_no_digits() {
    let mut network = good();
    network.roads = vec![road("SIN", "FRA"), road("AMS", "LON2")];
    network.demands[0].start = "SIN9".to_string();
    assert_eq!(
        message(&network),
        "Invalid city label: City LON2 should not contain a digit"
    );
    network.roads.truncate(1);
    assert_eq!(
        message(&network),
        "Invalid city label: City SIN9 should not contain a digit"
    );
}

#[test]
fn demands_of_a_kind_agree() {
    let mut network = good();
    network.demands.push(demand("SIN", "FRA", 1.0, 17, false));
    network.demands.push(demand("SIN", "FRA", 2.0, 17, false));
    assert_eq!(
        message(&network),
        "Data inconsistency: Demand type 17 has inconsistent properties"
    );
    network.demands[2] = demand("FRA", "FRA", 1.0, 17, false);
    assert!(check(&network).is_err());
    network.demands[2] = demand("SIN", "FRA", 1.0, 17, true);
    assert!(check(&network).is_err());
    network.demands[2] = demand("SIN", "SIN", 1.0, 17, false);
    assert!(check(&network).is_ok());
    // A missing number differs from itself, but the first of a kind is held to nothing.
    network.demands = vec![demand("SIN", "FRA", f64::NAN, 1, false)];
    assert!(check(&network).is_ok());
    network.demands.push(demand("SIN", "FRA", f64::NAN, 1, false));
    assert!(check(&network).is_err());
    // The two zeros are one number.
    network.demands =
        vec![demand("SIN", "FRA", 0.0, 1, false), demand("SIN", "FRA", -0.0, 1, false)];
    assert!(check(&network).is_ok());
}

#[test]
fn devices_are_listed_once() {
    let mut network = good();
    network.devices.push(device("SIN1", "Alpha"));
    assert_eq!(message(&network), "Data inconsistency: There are duplicated devices in the list.");
}

#[test]
fn devices_of_links_are_listed() {
    let mut network = good();
    network.links.push(link("FRA1", "AMS1"));
    assert_eq!(message(&network), "Missing device: AMS1");
    network.links.push(link("LON1", "AMS1"));
    assert_eq!(message(&network), "Missing device: AMS1");
    network.links.remove(1);
    assert_eq!(message(&network), "Missing device: LON1");
}

#[test]
fn demands_lie_on_the_public_network() {
    let mut network = good();
    network.demands.push(demand("FRA", "LON", 1.0, 2, false));
    assert_eq!(message(&network), "Unreachable demand node: LON");
}
