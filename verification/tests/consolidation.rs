use network_shapley::consolidation::demand::{
    consolidate_demand, demand_numbers_fit, merge_demands,
};
use network_shapley::consolidation::links::{consolidate_links, group_numbers_fit};
use network_shapley::error::ShapleyError;
use network_shapley::quantity::Real;
use network_shapley::types::{
    ConsolidatedDemand, ConsolidatedLink, Demand, Device, PrivateLink, PublicLink,
};

fn exact(x: f64) -> Real {
    Real { bits: x.to_bits() }
}

fn number(x: Real) -> f64 {
    f64::from_bits(x.bits)
}

fn demand(
    start: &str,
    end: &str,
    receivers: u32,
    traffic: f64,
    priority: f64,
    kind: u32,
    multicast: bool,
) -> Demand {
    Demand::new(
        start.to_string(),
        end.to_string(),
        receivers,
        exact(traffic),
        exact(priority),
        kind,
        multicast,
    )
}

fn rounded(priority: f64) -> i64 {
    (priority * 100.0).round() as i64
}

fn consolidate(demands: &[Demand], multiplier: f64) -> Vec<ConsolidatedDemand> {
    let keys: Vec<i64> = demands.iter().map(|d| rounded(number(d.priority))).collect();
    let groups = merge_demands(demands, &keys);
    let priorities: Vec<f64> = groups
        .iter()
        .map(|g| {
            if g.len() > 1 {
                g.iter().map(|&i| number(demands[i].priority)).sum::<f64>() / g.len() as f64
            } else {
                number(demands[g[0]].priority)
            }
        })
        .collect();
    let traffic: Vec<Real> =
        groups.iter().map(|g| exact(number(demands[g[0]].traffic) * multiplier)).collect();
    let keys: Vec<i64> = priorities.iter().map(|&p| rounded(p)).collect();
    let priorities: Vec<Real> = priorities.into_iter().map(exact).collect();
    assert!(demand_numbers_fit(demands, &groups, &keys));
    consolidate_demand(demands, &groups, &priorities, &traffic, &keys)
}

fn factor(uptime: f64) -> f64 {
    (-1578.9474_f64 * uptime.powi(2) + 3176.3158 * uptime - 1596.3684).clamp(0.0, 1.0)
}

fn link(a: &str, b: &str, latency: f64, bandwidth: f64, uptime: f64, shared: Option<u32>) -> PrivateLink {
    PrivateLink::new(
        a.to_string(),
        b.to_string(),
        exact(latency),
        exact(bandwidth),
        exact(uptime),
        shared,
    )
}

fn device(name: &str, edge: u32, operator: &str) -> Device {
    Device::new(name.to_string(), edge, operator.to_string())
}

fn road(a: &str, b: &str, latency: f64) -> PublicLink {
    PublicLink::new(a.to_string(), b.to_string(), exact(latency))
}

fn edges(
    links: &[PrivateLink],
    devices: &[Device],
    flows: &[ConsolidatedDemand],
    roads: &[PublicLink],
    bonus: f64,
) -> Result<Vec<ConsolidatedLink>, ShapleyError> {
    let capacity: Vec<Real> = links
        .iter()
        .map(|l| exact(number(l.bandwidth) * factor(number(l.uptime))))
        .collect();
    assert!(group_numbers_fit(links, devices.len()));
    consolidate_links(links, &capacity, devices, flows, roads, exact(bonus))
}

#[test]
fn test_consolidate_demand_basic() {
    let demands = vec![
        demand("A", "B", 1, 1.0, 1.0, 1, false),
        demand("A", "C", 2, 1.0, 1.0, 1, false),
    ];

    let result = consolidate(&demands, 2.0);

    assert_eq!(result.len(), 2);
    assert_eq!(number(result[0].traffic), 2.0);
    assert_eq!(number(result[1].traffic), 2.0);
}

#[test]
fn test_consolidate_demand_with_multicast() {
    let demands = vec![
        demand("A", "B", 1, 1.0, 1.0, 1, true),
        demand("A", "C", 1, 1.0, 1.0, 1, true),
        demand("A", "D", 1, 1.0, 1.0, 1, true),
        demand("X", "Y", 1, 2.0, 1.0, 2, true),
        demand("X", "Z", 1, 2.0, 1.0, 2, true),
    ];

    let result = consolidate(&demands, 1.0);

    let multicast_results: Vec<_> = result.iter().filter(|d| d.multicast).collect();
    assert_eq!(multicast_results.len(), 5);

    let types: Vec<_> = multicast_results.iter().map(|d| d.kind).collect();
    let unique_types: std::collections::HashSet<_> = types.iter().cloned().collect();
    assert!(unique_types.len() >= 2);
    assert_eq!(types, vec![1, 3, 4, 2, 5]);
}

#[test]
fn test_consolidate_demand_empty() {
    let demands = vec![];
    let result = consolidate(&demands, 1.0);

    assert_eq!(result.len(), 0);
}

#[test]
fn test_mixed_multicast_and_regular() {
    let demands = vec![
        demand("A", "B", 1, 1.0, 1.0, 1, false),
        demand("C", "D", 2, 2.0, 1.0, 2, false),
        demand("E", "F", 3, 3.0, 1.0, 3, true),
        demand("E", "G", 3, 3.0, 1.0, 3, true),
    ];

    let result = consolidate(&demands, 1.0);

    assert_eq!(result.len(), 4);

    let multicast_types: Vec<_> =
        result.iter().filter(|d| d.multicast).map(|d| d.kind).collect();

    let unique_multicast_types: std::collections::HashSet<_> =
        multicast_types.iter().cloned().collect();
    assert_eq!(unique_multicast_types.len(), multicast_types.len());
}

#[test]
fn demands_of_one_end_and_priority_merge() {
    let demands = vec![
        demand("A", "C", 4, 1.0, 1.0, 1, false),
        demand("A", "B", 1, 1.0, 2.0, 1, false),
        demand("A", "B", 2, 1.0, 2.004, 1, false),
        demand("A", "D", 7, 1.0, 3.0, 1, false),
    ];
    let keys: Vec<i64> = demands.iter().map(|d| rounded(number(d.priority))).collect();
    assert_eq!(keys, vec![100, 200, 200, 300]);
    assert_eq!(merge_demands(&demands, &keys), vec![vec![1, 2], vec![0], vec![3]]);

    let result = consolidate(&demands, 1.0);
    assert_eq!(result.len(), 3);
    assert_eq!(result[0].end, "B");
    assert_eq!(result[0].receivers, 3);
    assert_eq!(number(result[0].priority), (2.0 + 2.004) / 2.0);
    // The lowest priority keeps the kind, the others get numbers of their own.
    assert_eq!(result.iter().map(|d| d.kind).collect::<Vec<_>>(), vec![2, 1, 3]);
    assert_eq!(result.iter().map(|d| d.original).collect::<Vec<_>>(), vec![1, 1, 1]);
}

#[test]
fn groups_come_in_the_order_of_kind_end_and_priority() {
    let demands = vec![
        demand("A", "Z", 1, 1.0, 1.0, 2, false),
        demand("A", "Z", 1, 1.0, 1.0, 2, false),
        demand("A", "B", 1, 1.0, 1.0, 2, false),
        demand("A", "B", 1, 1.0, 1.0, 2, false),
        demand("Q", "Z", 1, 1.0, 1.0, 1, false),
        demand("Q", "Z", 1, 1.0, 1.0, 1, false),
    ];
    let keys = vec![100; 6];
    assert_eq!(merge_demands(&demands, &keys), vec![vec![4, 5], vec![2, 3], vec![0, 1]]);
}

#[test]
fn receivers_beyond_u32_do_not_fit() {
    let demands = vec![
        demand("A", "B", u32::MAX, 1.0, 1.0, 1, false),
        demand("A", "B", 1, 1.0, 1.0, 1, false),
    ];
    let groups = merge_demands(&demands, &[100, 100]);
    assert!(!demand_numbers_fit(&demands, &groups, &[100]));
    let top = vec![
        demand("A", "B", 1, 1.0, 1.0, u32::MAX, true),
        demand("A", "C", 1, 1.0, 1.0, u32::MAX, true),
    ];
    let groups = merge_demands(&top, &[100, 100]);
    assert!(!demand_numbers_fit(&top, &groups, &[100, 100]));
}

#[test]
fn unicast_rows_share_a_commodity_just_where_kind_and_priority_agree() {
    let demands = vec![
        demand("A", "B", 1, 1.0, 1.0, 1, false),
        demand("A", "C", 1, 1.0, 5.0, 1, false),
        demand("A", "D", 1, 1.0, 5.0, 1, false),
        demand("B", "C", 1, 1.0, 2.0, 4, false),
        demand("B", "D", 1, 1.0, 1.0, 4, false),
    ];
    let result = consolidate(&demands, 1.0);
    let kinds: Vec<u32> = result.iter().map(|d| d.kind).collect();
    assert_eq!(kinds, vec![1, 5, 5, 6, 4]);
}

#[test]
fn test_uptime_penalty_perfect() {
    let factor = (-1578.9474_f64 * 1.0_f64.powi(2) + 3176.3158 * 1.0 - 1596.3684).clamp(0.0, 1.0);
    assert!((factor - 1.0).abs() < 0.01);
}

#[test]
fn test_uptime_penalty_99_percent() {
    let factor =
        (-1578.9474_f64 * 0.99_f64.powi(2) + 3176.3158 * 0.99 - 1596.3684).clamp(0.0, 1.0);
    assert!(factor > 0.6 && factor < 0.7, "99% uptime should be ~0.66, got {factor}");
}

#[test]
fn test_uptime_penalty_98_percent_drops_to_zero() {
    let factor =
        (-1578.9474_f64 * 0.98_f64.powi(2) + 3176.3158 * 0.98 - 1596.3684).clamp(0.0, 1.0);
    assert!(factor < 0.01, "98% uptime should be ~0, got {factor}");
}

#[test]
fn test_uptime_penalty_below_98_is_zero() {
    for uptime in [0.97_f64, 0.95, 0.90, 0.50, 0.0] {
        let factor =
            (-1578.9474_f64 * uptime.powi(2) + 3176.3158 * uptime - 1596.3684).clamp(0.0, 1.0);
        assert_eq!(factor, 0.0, "{uptime} uptime should clamp to 0, got {factor}");
    }
}

#[test]
fn test_uptime_penalty_applied_to_bandwidth() {
    let private_links = vec![link("AAA1", "BBB1", 10.0, 100.0, 0.99, Some(1))];
    let devices = vec![device("AAA1", 10, "Op1"), device("BBB1", 10, "Op1")];
    let demands = vec![ConsolidatedDemand {
        start: "A".to_string(),
        end: "B".to_string(),
        receivers: 1,
        traffic: exact(1.0),
        priority: exact(1.0),
        kind: 1,
        multicast: false,
        original: 1,
    }];

    let result = edges(&private_links, &devices, &demands, &[], 5.0)
        .expect("consolidate_links should succeed");

    let ab_link = result.iter().find(|l| l.device1 == "AAA1" && l.device2 == "BBB1");
    assert!(ab_link.is_some(), "Should have AAA1→BBB1 link");

    let bw = number(ab_link.unwrap().bandwidth);
    assert!(bw > 60.0 && bw < 70.0, "Bandwidth should be ~66 (penalized), got {bw}");
}

fn small_network() -> (Vec<PrivateLink>, Vec<Device>, Vec<ConsolidatedDemand>, Vec<PublicLink>) {
    let links = vec![
        link("SIN1", "FRA1", 50.0, 10.0, 1.0, None),
        link("FRA1", "AMS1", 3.0, 20.0, 1.0, Some(4)),
    ];
    let devices = vec![
        device("SIN1", 3, "Alpha"),
        device("FRA1", 4, "Alpha"),
        device("AMS1", 5, "Beta"),
    ];
    let flows = consolidate(&[demand("SIN", "AMS", 1, 1.0, 1.0, 1, false)], 1.0);
    let roads = vec![road("SIN", "AMS", 102.0)];
    (links, devices, flows, roads)
}

#[test]
fn edges_come_in_their_order() {
    let (links, devices, flows, roads) = small_network();
    let all = edges(&links, &devices, &flows, &roads, 5.0).unwrap();
    let ends: Vec<(&str, &str)> =
        all.iter().map(|e| (e.device1.as_str(), e.device2.as_str())).collect();
    assert_eq!(
        ends,
        vec![
            ("SIN1", "FRA1"),
            ("FRA1", "AMS1"),
            ("FRA1", "SIN1"),
            ("AMS1", "FRA1"),
            ("SIN", "SIN1"),
            ("AMS1", "AMS"),
            ("AMS1", "AMS00"),
            ("AMS00", "AMS1"),
            ("SIN1", "SIN00"),
            ("SIN00", "SIN1"),
            ("SIN00", "AMS00"),
            ("AMS00", "SIN00"),
            ("SIN", "SIN00"),
            ("AMS00", "AMS"),
        ]
    );
    // The group given stays apart from the one handed out, directions stay apart, and
    // the numbers have no gaps.
    let groups: Vec<u32> = all.iter().map(|e| e.shared).collect();
    assert_eq!(groups, vec![2, 1, 4, 3, 5, 8, 8, 6, 7, 5, 0, 0, 0, 0]);
    let types: Vec<u32> = all.iter().map(|e| e.link_type).collect();
    assert_eq!(types, vec![0, 0, 0, 0, 1, 1, 0, 0, 0, 0, 0, 0, 1, 1]);
    assert_eq!(number(all[4].bandwidth), 3.0);
    assert_eq!(number(all[6].latency), 5.0);
    assert_eq!(all[1].operator1, "Alpha");
    assert_eq!(all[1].operator2, "Beta");
    assert_eq!(all[3].operator1, "Beta");
    assert_eq!(all[10].operator1, "Public");
}

#[test]
fn every_link_goes_both_ways() {
    let (links, devices, flows, roads) = small_network();
    let all = edges(&links, &devices, &flows, &roads, 5.0).unwrap();
    for i in 0..links.len() {
        let (ahead, back) = (&all[i], &all[links.len() + i]);
        assert_eq!(back.device1, ahead.device2);
        assert_eq!(back.device2, ahead.device1);
        assert_eq!(back.latency, ahead.latency);
        assert_eq!(back.bandwidth, ahead.bandwidth);
        assert_eq!(back.operator1, ahead.operator2);
    }
}

#[test]
fn a_link_without_its_device_is_refused() {
    let links = vec![link("AAA1", "BBB1", 1.0, 1.0, 1.0, None)];
    let devices = vec![device("AAA1", 1, "Op")];
    match edges(&links, &devices, &[], &[], 5.0) {
        Err(ShapleyError::MissingDevice(name)) => assert_eq!(name, "BBB1"),
        other => panic!("expected MissingDevice, got {other:?}"),
    }
    let devices = vec![device("BBB1", 1, "Op")];
    match edges(&links, &devices, &[], &[], 5.0) {
        Err(e) => assert_eq!(e.message(), "Missing device: AAA1"),
        other => panic!("expected MissingDevice, got {other:?}"),
    }
}

#[test]
fn groups_beyond_u32_do_not_fit() {
    let links = vec![link("AAA1", "BBB1", 1.0, 1.0, 1.0, Some(u32::MAX / 2))];
    assert!(!group_numbers_fit(&links, 1));
    assert!(group_numbers_fit(&links, 0));
}
