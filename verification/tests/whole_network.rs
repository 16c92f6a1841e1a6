//! Whole networks, from their tables to the values of their operators. The linear
//! programs are small enough for a plain simplex method on a full table.
use network_shapley::consolidation::demand::{consolidate_demand, merge_demands};
use network_shapley::consolidation::links::consolidate_links;
use network_shapley::error::ShapleyError;
use network_shapley::link_estimate::{list_links, EstimateError};
use network_shapley::lp_builder::{LpBuilderInput, LpBuilderOutput};
use network_shapley::model::CoalitionModel;
use network_shapley::quantity::Real;
use network_shapley::sampling::{Sampler, SamplingConfig, Verdict};
use network_shapley::shapley::{
    coalition_count, empty_value, enumerable_players, exact_plan, factorial, marginal_terms,
    operator_masks, outage_terms, ALWAYS_BIT,
};
use network_shapley::solver::{
    coalition_program, coalition_value, read_status, CoalitionBuffers, ColumnGate, ModelStatus,
    PrecomputedRows, SolveStatus,
};
use network_shapley::types::{
    ConsolidatedDemand, ConsolidatedLink, Demand, Device, PrivateLink, PublicLink, ShapleyInput,
};
use network_shapley::validation::check_inputs;
use std::collections::{BTreeMap, HashMap};

fn exact(x: f64) -> Real {
    Real { bits: x.to_bits() }
}

fn number(x: Real) -> f64 {
    f64::from_bits(x.bits)
}

fn link(a: &str, b: &str, latency: f64, bandwidth: f64, uptime: f64, shared: Option<u32>) -> PrivateLink {
    PrivateLink::new(a.into(), b.into(), exact(latency), exact(bandwidth), exact(uptime), shared)
}

fn device(name: &str, edge: u32, operator: &str) -> Device {
    Device::new(name.into(), edge, operator.into())
}

fn road(a: &str, b: &str, latency: f64) -> PublicLink {
    PublicLink::new(a.into(), b.into(), exact(latency))
}

fn demand(
    start: &str,
    end: &str,
    receivers: u32,
    traffic: f64,
    priority: f64,
    kind: u32,
    multicast: bool,
) -> Demand {
    Demand::new(start.into(), end.into(), receivers, exact(traffic), exact(priority), kind, multicast)
}

/// A linear program: least cost, equal rows, rows with limits, nothing below zero.
struct Program {
    cost: Vec<f64>,
    eq: Vec<(Vec<(usize, f64)>, f64)>,
    ub: Vec<(Vec<(usize, f64)>, f64)>,
}

const EPS: f64 = 1e-9;

fn pivot(table: &mut [Vec<f64>], basis: &mut [usize], row: usize, col: usize) {
    let scale = table[row][col];
    for x in table[row].iter_mut() {
        *x /= scale;
    }
    let fixed = table[row].clone();
    for (r, line) in table.iter_mut().enumerate() {
        if r != row && line[col].abs() > 0.0 {
            let factor = line[col];
            for (x, y) in line.iter_mut().zip(&fixed) {
                *x -= factor * y;
            }
        }
    }
    basis[row] = col;
}

/// Steps by the first column that helps and the first row that allows it.
fn descend(table: &mut [Vec<f64>], basis: &mut [usize], cost: &[f64], open: usize) -> bool {
    let width = table[0].len() - 1;
    loop {
        let col = (0..open).find(|&j| {
            let gain: f64 =
                cost[j] - (0..table.len()).map(|r| cost[basis[r]] * table[r][j]).sum::<f64>();
            gain < -EPS
        });
        let Some(col) = col else {
            return true;
        };
        let mut best: Option<(f64, usize)> = None;
        for r in 0..table.len() {
            if table[r][col] > EPS {
                let ratio = table[r][width] / table[r][col];
                let better = match best {
                    None => true,
                    Some((least, at)) => {
                        ratio < least - EPS || (ratio < least + EPS && basis[r] < basis[at])
                    }
                };
                if better {
                    best = Some((ratio, r));
                }
            }
        }
        match best {
            Some((_, row)) => pivot(table, basis, row, col),
            None => return false,
        }
    }
}

/// The least cost, or how the search ended.
fn solve(program: &Program) -> (ModelStatus, f64) {
    let n = program.cost.len();
    let slacks = program.ub.len();
    let rows = program.eq.len() + slacks;
    let width = n + slacks + rows;
    let mut table: Vec<Vec<f64>> = vec![];
    let mut basis: Vec<usize> = vec![];
    let all = program.ub.iter().enumerate().map(|(k, r)| (Some(k), r));
    for (r, (slack, (entries, rhs))) in
        all.chain(program.eq.iter().map(|r| (None, r))).enumerate()
    {
        let mut line = vec![0.0; width + 1];
        for &(col, value) in entries {
            line[col] += value;
        }
        if let Some(k) = slack {
            line[n + k] = 1.0;
        }
        line[width] = *rhs;
        if *rhs < 0.0 {
            for x in line.iter_mut() {
                *x = -*x;
            }
        }
        line[n + slacks + r] = 1.0;
        table.push(line);
        basis.push(n + slacks + r);
    }
    if table.is_empty() {
        return (ModelStatus::Optimal, 0.0);
    }
    let mut first = vec![0.0; width];
    for x in first.iter_mut().skip(n + slacks) {
        *x = 1.0;
    }
    descend(&mut table, &mut basis, &first, n + slacks);
    let missing: f64 =
        (0..table.len()).filter(|&r| basis[r] >= n + slacks).map(|r| table[r][width]).sum();
    if missing > 1e-7 {
        return (ModelStatus::Infeasible, 0.0);
    }
    let mut r = 0;
    while r < table.len() {
        if basis[r] >= n + slacks {
            match (0..n + slacks).find(|&j| table[r][j].abs() > 1e-7) {
                Some(col) => {
                    pivot(&mut table, &mut basis, r, col);
                    r += 1;
                }
                None => {
                    table.remove(r);
                    basis.remove(r);
                }
            }
        } else {
            r += 1;
        }
    }
    let mut cost = program.cost.clone();
    cost.resize(width, 0.0);
    if !table.is_empty() && !descend(&mut table, &mut basis, &cost, n + slacks) {
        return (ModelStatus::UnboundedOrInfeasible, 0.0);
    }
    let value = (0..table.len()).map(|r| cost[basis[r]] * table[r][width]).sum();
    (ModelStatus::Optimal, value)
}

/// A network and what is asked of it.
struct Input {
    private_links: Vec<PrivateLink>,
    devices: Vec<Device>,
    demands: Vec<Demand>,
    public_links: Vec<PublicLink>,
    operator_uptime: f64,
    contiguity_bonus: f64,
    demand_multiplier: f64,
}

fn factor(uptime: f64) -> f64 {
    (-1578.9474_f64 * uptime.powi(2) + 3176.3158 * uptime - 1596.3684).clamp(0.0, 1.0)
}

fn rounded(priority: f64) -> i64 {
    (priority * 100.0).round() as i64
}

fn flows_of(demands: &[Demand], multiplier: f64) -> Vec<ConsolidatedDemand> {
    let keys: Vec<i64> = demands.iter().map(|d| rounded(number(d.priority))).collect();
    let groups = merge_demands(demands, &keys);
    let priorities: Vec<f64> = groups
        .iter()
        .map(|g| g.iter().map(|&i| number(demands[i].priority)).sum::<f64>() / g.len() as f64)
        .collect();
    let traffic: Vec<Real> =
        groups.iter().map(|g| exact(number(demands[g[0]].traffic) * multiplier)).collect();
    let keys: Vec<i64> = priorities.iter().map(|&p| rounded(p)).collect();
    let priorities: Vec<Real> = priorities.into_iter().map(exact).collect();
    consolidate_demand(demands, &groups, &priorities, &traffic, &keys)
}

fn edges_of(input: &Input, flows: &[ConsolidatedDemand]) -> Vec<ConsolidatedLink> {
    let capacity: Vec<Real> = input
        .private_links
        .iter()
        .map(|l| exact(number(l.bandwidth) * factor(number(l.uptime))))
        .collect();
    consolidate_links(
        &input.private_links,
        &capacity,
        &input.devices,
        flows,
        &input.public_links,
        exact(input.contiguity_bonus),
    )
    .expect("consolidate links")
}

/// The numbers of a linear program: costs, right sides of equalities, limits.
struct Numbers {
    cost: Vec<f64>,
    b_eq: Vec<f64>,
    b_ub: Vec<f64>,
}

fn numbers_of(
    program: &LpBuilderOutput,
    edges: &[ConsolidatedLink],
    flows: &[ConsolidatedDemand],
) -> Numbers {
    let priority: Vec<f64> = program
        .commodities
        .iter()
        .map(|&t| {
            let list: Vec<f64> =
                flows.iter().filter(|d| d.kind == t).map(|d| number(d.priority)).collect();
            list.iter().sum::<f64>() / list.len() as f64
        })
        .collect();
    Numbers {
        cost: program
            .cost
            .iter()
            .map(|c| c.map_or(0.0, |t| number(edges[t.link].latency) * priority[t.commodity]))
            .collect(),
        b_eq: program
            .b_eq
            .iter()
            .map(|terms| {
                let mut sum = 0.0;
                for t in terms {
                    let quantity = number(flows[t.flow].traffic) * flows[t.flow].receivers as f64;
                    if t.starts {
                        sum += quantity;
                    } else {
                        sum -= quantity;
                    }
                }
                sum
            })
            .collect(),
        b_ub: program.b_ub.iter().map(|&b| number(b)).collect(),
    }
}

/// The value of a coalition by its own linear program.
fn value_of(model: &CoalitionModel, numbers: &Numbers, mask: u32) -> Option<f64> {
    let mut buffers = CoalitionBuffers::new(model.col_op1_mask.len());
    let Ok(sub) = model.program_for(&mut buffers, mask) else {
        return None;
    };
    let program = Program {
        cost: sub.cols.iter().map(|&c| numbers.cost[c]).collect(),
        eq: sub
            .eq_rows
            .iter()
            .zip(&numbers.b_eq)
            .map(|(row, &b)| (row.iter().map(|&(c, v)| (c, v as f64)).collect(), b))
            .collect(),
        ub: sub
            .ub_rows
            .iter()
            .zip(&sub.ub_places)
            .map(|(row, &at)| {
                let entries =
                    row.iter().map(|&(c, v)| (c, v.num as f64 / v.den as f64)).collect();
                (entries, numbers.b_ub[at])
            })
            .collect(),
    };
    let (status, objective) = solve(&program);
    let result = read_status(status, exact(objective)).expect("the program was solved");
    coalition_value(result).map(number)
}

struct Prepared {
    players: Vec<String>,
    model: CoalitionModel,
    numbers: Numbers,
}

fn prepare(input: &Input, changed: &[String]) -> Result<Prepared, ShapleyError> {
    check_inputs(
        &input.private_links,
        &input.devices,
        &input.demands,
        &input.public_links,
        exact(input.operator_uptime),
    )?;
    let players = enumerable_players(&input.devices)?;
    let flows = flows_of(&input.demands, input.demand_multiplier);
    let edges = edges_of(input, &flows);
    assert!(LpBuilderInput::new(&edges, &flows).is_ready());
    let model = CoalitionModel::over_map(&players, &edges, &flows, changed)?;
    assert!(model.does_line_up());
    let numbers = numbers_of(&model.program, &edges, &flows);
    Ok(Prepared { players, model, numbers })
}

type Cache = HashMap<u32, Option<Real>>;

fn compute_with(
    input: &Input,
    seed: &Cache,
    changed: &[String],
) -> Result<BTreeMap<String, f64>, ShapleyError> {
    let p = prepare(input, changed)?;
    let n = p.players.len();
    let values: Vec<Option<Real>> = exact_plan(n, seed, p.model.reuse_gate)
        .into_iter()
        .enumerate()
        .map(|(s, seeded)| match seeded {
            Some(value) => value,
            None => value_of(&p.model, &p.numbers, s as u32 | ALWAYS_BIT).map(exact),
        })
        .collect();
    assert_eq!(values.len(), coalition_count(n));
    let uptime = input.operator_uptime;
    let worth: Vec<f64> = if uptime < 1.0 {
        let mut list: Vec<f64> = (0..values.len())
            .map(|s| {
                outage_terms(s, &values)
                    .iter()
                    .map(|t| {
                        uptime.powi(t.up as i32)
                            * (1.0 - uptime).powi(t.down as i32)
                            * number(values[t.coalition].unwrap())
                    })
                    .sum()
            })
            .collect();
        if let Some(v) = empty_value(&values) {
            list[0] = number(v);
        }
        list
    } else {
        values.iter().map(|v| v.map_or(f64::NEG_INFINITY, number)).collect()
    };
    let all = factorial(n) as f64;
    Ok(p.players
        .iter()
        .enumerate()
        .map(|(k, name)| {
            let value = marginal_terms(n, k)
                .iter()
                .map(|t| t.weight as f64 / all * (worth[t.with] - worth[t.without]))
                .sum();
            (name.clone(), value)
        })
        .collect())
}

fn compute(input: &Input) -> Result<BTreeMap<String, f64>, ShapleyError> {
    compute_with(input, &HashMap::new(), &[])
}

struct Estimate {
    values: BTreeMap<String, f64>,
    samples_used: usize,
    converged: bool,
    cache: Cache,
    reused: usize,
}

fn means_and_errors(marginals: &[Vec<f64>], n: usize) -> (Vec<f64>, Vec<f64>) {
    let m = marginals.len() as f64;
    let means: Vec<f64> =
        (0..n).map(|i| marginals.iter().map(|s| s[i]).sum::<f64>() / m).collect();
    let errors = (0..n)
        .map(|i| {
            let spread: f64 = marginals.iter().map(|s| (s[i] - means[i]).powi(2)).sum();
            (spread / (m * (m - 1.0).max(1.0))).sqrt()
        })
        .collect();
    (means, errors)
}

fn compute_sampled_with(
    input: &Input,
    config: SamplingConfig,
    seed: &Cache,
    changed: &[String],
) -> Result<Estimate, ShapleyError> {
    let p = prepare(input, changed)?;
    let n = p.players.len();
    let mut sampler =
        Sampler::start(n, exact(input.operator_uptime), config, seed, p.model.reuse_gate);
    let mut marginals: Vec<Vec<f64>> = vec![];
    loop {
        sampler.draw_batch();
        let values: Vec<Option<Real>> = sampler
            .needed
            .iter()
            .map(|&mask| value_of(&p.model, &p.numbers, mask).map(exact))
            .collect();
        for pairs in sampler.take_values(&values) {
            marginals.push(
                pairs
                    .iter()
                    .map(|&(before, with)| input.operator_uptime * (number(with) - number(before)))
                    .collect(),
            );
        }
        let (means, errors) = means_and_errors(&marginals, n);
        let worst = means
            .iter()
            .zip(&errors)
            .filter(|(m, _)| m.abs() > 1e-10)
            .map(|(m, e)| e / m.abs())
            .fold(0.0f64, f64::max);
        match sampler.judge(exact(worst)) {
            Verdict::Continue => {}
            Verdict::Stop { converged } => {
                return Ok(Estimate {
                    values: p.players.iter().cloned().zip(means).collect(),
                    samples_used: sampler.total,
                    converged,
                    cache: sampler.cache,
                    reused: sampler.reused,
                });
            }
            Verdict::GiveUp => panic!("sampling loop exited unexpectedly"),
        }
    }
}

fn proportions(values: &BTreeMap<String, f64>) -> BTreeMap<String, f64> {
    let total: f64 = values.values().map(|v| v.max(0.0)).sum();
    values
        .iter()
        .map(|(k, v)| (k.clone(), if total > 0.0 { v.max(0.0) / total } else { 0.0 }))
        .collect()
}

fn two_operators(uptime: f64) -> Input {
    Input {
        private_links: vec![
            link("NYC1", "LON1", 10.0, 100.0, 1.0, Some(1)),
            link("LON1", "PAR1", 10.0, 100.0, 1.0, Some(2)),
        ],
        devices: vec![
            device("NYC1", 1, "Operator1"),
            device("LON1", 1, "Operator1"),
            device("PAR1", 1, "Operator2"),
        ],
        demands: vec![demand("NYC", "PAR", 1, 50.0, 1.0, 1, false)],
        public_links: vec![road("NYC", "PAR", 100.0)],
        operator_uptime: uptime,
        contiguity_bonus: 5.0,
        demand_multiplier: 1.0,
    }
}

#[test]
fn test_shapley_computation() {
    let result = compute(&two_operators(1.0));
    assert!(result.is_ok(), "Error in test: {result:?}");

    let values = result.expect("Shapley computation should succeed in tests");
    assert_eq!(values.len(), 2);
    // One unit of the fifty fits through the ramps: 20 instead of 100, shared evenly.
    assert!((values["Operator1"] - 40.0).abs() < 1e-6);
    assert!((values["Operator2"] - 40.0).abs() < 1e-6);
}

#[test]
fn test_sampled_matches_exact_2_operators() {
    let input = two_operators(1.0);
    let exact_values = proportions(&compute(&input).expect("exact compute should succeed"));
    let config = SamplingConfig {
        min_samples: 500,
        max_samples: 500,
        target_se: exact(0.001),
        batch_size: 500,
    };
    let sampled = compute_sampled_with(&input, config, &HashMap::new(), &[])
        .expect("sampled compute should succeed");
    let sampled = proportions(&sampled.values);

    for (op, ev) in &exact_values {
        let sv = sampled.get(op).unwrap();
        let err = (ev - sv).abs();
        assert!(err < 0.05, "{op}: exact={ev:.4} sampled={sv:.4} err={err:.4}");
    }
}

#[test]
fn test_sampled_matches_exact_with_uptime() {
    let input = two_operators(0.9);
    let exact_values = proportions(&compute(&input).expect("exact compute should succeed"));
    let config = SamplingConfig {
        min_samples: 4000,
        max_samples: 4000,
        target_se: exact(0.0001),
        batch_size: 4000,
    };
    let sampled = compute_sampled_with(&input, config, &HashMap::new(), &[])
        .expect("sampled compute should succeed");
    let sampled = proportions(&sampled.values);

    for (op, ev) in &exact_values {
        let sv =
            sampled.get(op).unwrap_or_else(|| panic!("operator {op} missing from sampled output"));
        let err = (ev - sv).abs();
        assert!(err < 0.06, "{op}: exact={ev:.4} sampled={sv:.4} err={err:.4}");
    }
}

#[test]
fn test_sampled_adaptive_converges() {
    let result =
        compute_sampled_with(&two_operators(1.0), SamplingConfig::default(), &HashMap::new(), &[])
            .expect("sampled compute should succeed");

    assert!(result.converged, "should converge for simple 2-operator case");
    assert!(result.samples_used >= 100, "should use at least min_samples");
    assert!(result.samples_used <= 500, "should not exceed max_samples");
    assert_eq!(result.values.len(), 2, "should have 2 operators");
}

fn topology(a_latency: f64, a_shared: Option<u32>, b_shared: Option<u32>) -> Input {
    Input {
        private_links: vec![
            link("FRAa", "AMSa", a_latency, 100.0, 1.0, a_shared),
            link("FRAb", "AMSb", 6.0, 100.0, 1.0, b_shared),
            link("LONc", "AMSc", 7.0, 100.0, 1.0, None),
        ],
        devices: vec![
            device("FRAa", 10, "A"),
            device("AMSa", 10, "A"),
            device("FRAb", 10, "B"),
            device("AMSb", 10, "B"),
            device("LONc", 10, "C"),
            device("AMSc", 10, "C"),
        ],
        demands: vec![
            demand("FRA", "AMS", 1, 10.0, 1.0, 1, false),
            demand("FRA", "LON", 1, 10.0, 1.0, 1, false),
        ],
        public_links: vec![
            road("FRA", "AMS", 50.0),
            road("AMS", "LON", 50.0),
            road("FRA", "LON", 80.0),
        ],
        operator_uptime: 0.98,
        contiguity_bonus: 5.0,
        demand_multiplier: 1.0,
    }
}

fn baseline_cache(input: &Input) -> Cache {
    let config = SamplingConfig {
        min_samples: 400,
        max_samples: 400,
        target_se: exact(0.0),
        batch_size: 50,
    };
    compute_sampled_with(input, config, &HashMap::new(), &[]).expect("baseline sampling").cache
}

fn assert_outputs_eq(a: &BTreeMap<String, f64>, b: &BTreeMap<String, f64>, ctx: &str) {
    assert_eq!(a.len(), b.len(), "{ctx}: operator count differs");
    let (pa, pb) = (proportions(a), proportions(b));
    for (op, va) in a {
        let vb = b.get(op).unwrap_or_else(|| panic!("{ctx}: missing operator {op}"));
        assert!((va - vb).abs() < EPS, "{ctx}: value mismatch for {op}: reuse={va} fresh={vb}");
        assert!((pa[op] - pb[op]).abs() < EPS, "{ctx}: proportion mismatch for {op}");
    }
}

fn names(list: &[&str]) -> Vec<String> {
    list.iter().map(|s| s.to_string()).collect()
}

#[test]
fn d1_exact_reuse_equals_fresh() {
    let baseline = topology(5.0, None, None);
    let modified = topology(3.0, None, None);

    let seed = baseline_cache(&baseline);
    assert!(!seed.is_empty(), "seed must be populated");

    let reuse = compute_with(&modified, &seed, &names(&["A"])).expect("compute_with reuse");
    let fresh = compute(&modified).expect("compute");

    assert_outputs_eq(&reuse, &fresh, "d1_exact");

    let base = compute(&baseline).expect("baseline compute");
    assert!(
        (base["A"] - fresh["A"]).abs() > EPS,
        "A's value should change when A's link changes (base={}, mod={})",
        base["A"],
        fresh["A"]
    );
}

#[test]
fn d1_sampled_common_masks_match_and_reuse_happens() {
    let baseline = topology(5.0, None, None);
    let modified = topology(3.0, None, None);

    let seed = baseline_cache(&baseline);
    let config = SamplingConfig {
        min_samples: 300,
        max_samples: 300,
        target_se: exact(0.0),
        batch_size: 50,
    };

    let reuse =
        compute_sampled_with(&modified, config, &seed, &names(&["A"])).expect("sampled reuse");
    let fresh =
        compute_sampled_with(&modified, config, &HashMap::new(), &[]).expect("sampled fresh");

    assert!(reuse.reused > 0, "expected some coalitions to be reused");

    let mut common = 0;
    for (mask, rv) in &reuse.cache {
        if let Some(fv) = fresh.cache.get(mask) {
            common += 1;
            match (rv, fv) {
                (Some(r), Some(f)) => assert!(
                    (number(*r) - number(*f)).abs() < EPS,
                    "mask {mask:#x}: reuse={} fresh={}",
                    number(*r),
                    number(*f)
                ),
                (None, None) => {}
                _ => panic!("mask {mask:#x}: feasibility mismatch reuse={rv:?} fresh={fv:?}"),
            }
        }
    }
    assert!(common > 0, "no common masks to compare");
}

#[test]
fn d2_shared_id_change_reuse_equals_fresh() {
    let baseline = topology(5.0, Some(5), Some(5));
    let modified = topology(3.0, Some(5), Some(5));

    let seed = baseline_cache(&baseline);
    let reuse = compute_with(&modified, &seed, &names(&["A"])).expect("compute_with reuse");
    let fresh = compute(&modified).expect("compute");
    assert_outputs_eq(&reuse, &fresh, "d2_shared_id");
}

#[test]
fn d2_wrong_changed_set_diverges() {
    let baseline = topology(5.0, None, None);
    let modified = topology(3.0, None, None);

    let seed = baseline_cache(&baseline);
    let wrong = compute_with(&modified, &seed, &[]).expect("compute_with wrong set");
    let fresh = compute(&modified).expect("compute");

    let diff = (wrong["A"] - fresh["A"]).abs();
    assert!(diff > EPS, "wrong changed-set should distort A's value (diff={diff})");
}

#[test]
fn d6_empty_set_same_topology_equals_fresh() {
    let input = topology(5.0, None, None);
    let seed = baseline_cache(&input);
    let reuse = compute_with(&input, &seed, &[]).expect("compute_with reuse");
    let fresh = compute(&input).expect("compute");
    assert_outputs_eq(&reuse, &fresh, "d6_empty_same_topology");
}

#[test]
fn d7_all_changed_degrades_to_fresh() {
    let baseline = topology(5.0, None, None);
    let modified = topology(3.0, None, None);
    let seed = baseline_cache(&baseline);
    let reuse =
        compute_with(&modified, &seed, &names(&["A", "B", "C"])).expect("compute_with reuse");
    let fresh = compute(&modified).expect("compute");
    assert_outputs_eq(&reuse, &fresh, "d7_all_changed");
}

#[test]
fn reuse_equals_fresh_when_links_come_and_go() {
    let baseline = topology(5.0, None, None);
    let mut modified = topology(5.0, None, None);
    modified.private_links.remove(0);
    modified.private_links.push(link("FRAa", "LONa", 4.0, 60.0, 1.0, None));
    modified.devices.push(device("LONa", 7, "A"));
    modified.devices[1].edge = 3;

    let seed = baseline_cache(&baseline);
    let reuse = compute_with(&modified, &seed, &names(&["A"])).expect("compute_with reuse");
    let fresh = compute(&modified).expect("compute");
    assert_outputs_eq(&reuse, &fresh, "links come and go");
    let base = compute(&baseline).expect("baseline compute");
    assert!((base["A"] - fresh["A"]).abs() > EPS);
}

/// The links of B and C share a group; B's link leads it, and is what limits both.
fn mixed_topology(with_a: bool) -> Input {
    let mut input = topology(5.0, None, Some(9));
    input.private_links[1] = link("FRAb", "AMSb", 6.0, 4.0, 1.0, Some(9));
    input.private_links[2] = link("LONc", "AMSc", 7.0, 100.0, 1.0, Some(9));
    if !with_a {
        input.private_links.remove(0);
        input.devices.retain(|d| d.device != "AMSa");
    }
    input
}

#[test]
fn reuse_equals_fresh_with_mixed_groups_of_others() {
    let baseline = mixed_topology(true);
    let modified = mixed_topology(false);
    let seed = baseline_cache(&baseline);
    let reuse = compute_with(&modified, &seed, &names(&["A"])).expect("compute_with reuse");
    let fresh = compute(&modified).expect("compute");
    assert_outputs_eq(&reuse, &fresh, "mixed groups of others");
    let base = compute(&baseline).expect("baseline compute");
    assert!((base["A"] - fresh["A"]).abs() > EPS);
    // The group counts: without it, C could carry more.
    let mut apart = mixed_topology(false);
    apart.private_links[1] = link("LONc", "AMSc", 7.0, 100.0, 1.0, None);
    let other = compute(&apart).expect("compute");
    assert!(fresh.iter().any(|(op, v)| (v - other[op]).abs() > EPS));
}

#[test]
fn warm_matches_fresh_where_a_group_runs_both_ways() {
    let (mut links, demands) = three_op_network();
    links[0].operator2 = "B".to_string();
    links[1].operator1 = "B".to_string();
    links[1].operator2 = "A".to_string();
    links[1].shared = 1;
    links[2].shared = 2;
    assert_warm_matches_fresh(&links, &demands);
    // A link of more operators may follow one of fewer.
    links[0].operator2 = "A".to_string();
    assert_warm_matches_fresh(&links, &demands);
}

fn three_op_network() -> (Vec<ConsolidatedLink>, Vec<ConsolidatedDemand>) {
    let link = |op: &str, latency: f64, bandwidth: f64, shared: u32| ConsolidatedLink {
        device1: "SRC".to_string(),
        device2: "DST".to_string(),
        latency: exact(latency),
        bandwidth: exact(bandwidth),
        operator1: op.to_string(),
        operator2: op.to_string(),
        shared,
        link_type: 0,
    };
    let links = vec![
        link("A", 10.0, 10.0, 1),
        link("B", 20.0, 10.0, 2),
        link("C", 5.0, 3.0, 3),
    ];
    let demands = vec![ConsolidatedDemand {
        start: "SRC".to_string(),
        end: "DST".to_string(),
        receivers: 1,
        traffic: exact(5.0),
        priority: exact(1.0),
        kind: 1,
        multicast: false,
        original: 1,
    }];
    (links, demands)
}

/// The value of a coalition by the program of the whole network, in which the columns
/// that are shut are left empty.
fn pinned_value(
    program: &LpBuilderOutput,
    rows: &PrecomputedRows,
    numbers: &Numbers,
    gate: &ColumnGate,
) -> Option<f64> {
    let whole = Program {
        cost: numbers.cost.clone(),
        eq: rows
            .eq_rows
            .iter()
            .zip(&numbers.b_eq)
            .map(|(row, &b)| {
                let open = row.iter().filter(|e| gate.col_active[e.0]);
                (open.map(|&(c, v)| (c, v as f64)).collect(), b)
            })
            .collect(),
        ub: rows
            .ub_rows
            .iter()
            .zip(&numbers.b_ub)
            .map(|(row, &b)| {
                let open = row.iter().filter(|e| gate.col_active[e.0]);
                (open.map(|&(c, v)| (c, v.num as f64 / v.den as f64)).collect(), b)
            })
            .collect(),
    };
    assert_eq!(whole.cost.len(), program.a_eq.n);
    let (status, objective) = solve(&whole);
    coalition_value(read_status(status, exact(objective)).unwrap()).map(number)
}

fn assert_warm_matches_fresh(links: &[ConsolidatedLink], demands: &[ConsolidatedDemand]) {
    let program = LpBuilderInput::new(links, demands).build().expect("LP build should succeed");
    let rows = PrecomputedRows::new(&program);
    let numbers = numbers_of(&program, links, demands);
    let players: Vec<String> = links
        .iter()
        .flat_map(|l| [l.operator1.clone(), l.operator2.clone()])
        .filter(|o| o != "Public" && o != "Private" && !o.is_empty())
        .collect::<std::collections::BTreeSet<_>>()
        .into_iter()
        .collect();
    assert!((1..=20).contains(&players.len()));
    let model = CoalitionModel::over_map(&players, links, demands, &[]).unwrap();
    let near = operator_masks(&program.col_op1, &players);
    let far = operator_masks(&program.col_op2, &players);
    let mut gate = ColumnGate::all_open(program.a_eq.n);

    let mut feasible_seen = 0;
    for coalition in 0..(1u32 << players.len()) {
        let mask = coalition | ALWAYS_BIT;
        let fresh = value_of(&model, &numbers, mask);
        let (_, open) = gate.switch_to(mask, &near, &far);
        let warmed =
            if open == 0 { None } else { pinned_value(&program, &rows, &numbers, &gate) };
        match (fresh, warmed) {
            (Some(f), Some(w)) => {
                feasible_seen += 1;
                assert!((f - w).abs() < 1e-9, "coalition {coalition:b}: fresh={f} warm={w}");
            }
            (None, None) => {}
            (f, w) => {
                panic!("coalition {coalition:b}: feasibility differs fresh={f:?} warm={w:?}")
            }
        }
    }
    assert!(feasible_seen > 0, "fixture produced no feasible coalitions — test is vacuous");
}

#[test]
fn warm_matches_fresh() {
    let (links, demands) = three_op_network();
    assert_warm_matches_fresh(&links, &demands);
}

fn small_input() -> Input {
    Input {
        private_links: vec![
            link("SIN1", "FRA1", 50.0, 10.0, 1.0, None),
            link("FRA1", "AMS1", 3.0, 10.0, 1.0, None),
            link("FRA1", "LON1", 5.0, 10.0, 1.0, None),
        ],
        devices: vec![
            device("SIN1", 1, "Alpha"),
            device("FRA1", 1, "Alpha"),
            device("AMS1", 1, "Beta"),
            device("LON1", 1, "Beta"),
        ],
        public_links: vec![
            road("SIN", "FRA", 100.0),
            road("SIN", "AMS", 102.0),
            road("FRA", "LON", 7.0),
            road("FRA", "AMS", 5.0),
        ],
        demands: vec![
            demand("SIN", "AMS", 1, 1.0, 1.0, 1, true),
            demand("SIN", "LON", 5, 1.0, 2.0, 1, true),
            demand("AMS", "LON", 2, 3.0, 1.0, 2, false),
            demand("AMS", "FRA", 1, 3.0, 1.0, 2, false),
        ],
        operator_uptime: 0.98,
        contiguity_bonus: 5.0,
        demand_multiplier: 1.0,
    }
}

#[test]
fn warm_matches_fresh_multicast() {
    let input = small_input();
    let flows = flows_of(&input.demands, 1.0);
    let edges = edges_of(&input, &flows);
    assert_warm_matches_fresh(&edges, &flows);
}

#[test]
fn warm_repeated_solve_is_stable() {
    let (links, demands) = three_op_network();
    let program = LpBuilderInput::new(&links, &demands).build().unwrap();
    let rows = PrecomputedRows::new(&program);
    let numbers = numbers_of(&program, &links, &demands);
    let players = names(&["A", "B", "C"]);
    let near = operator_masks(&program.col_op1, &players);
    let far = operator_masks(&program.col_op2, &players);
    let mut gate = ColumnGate::all_open(program.a_eq.n);

    let grand = 0b111 | ALWAYS_BIT;
    gate.switch_to(grand, &near, &far);
    let first = pinned_value(&program, &rows, &numbers, &gate);
    gate.switch_to(0b001 | ALWAYS_BIT, &near, &far);
    let alone = pinned_value(&program, &rows, &numbers, &gate);
    gate.switch_to(grand, &near, &far);
    let again = pinned_value(&program, &rows, &numbers, &gate);
    assert!((first.unwrap() - again.unwrap()).abs() < 1e-9);
    // Three units at 5 and two at 10; five at 10 alone.
    assert!((first.unwrap() + 35.0).abs() < 1e-9);
    assert!((alone.unwrap() + 50.0).abs() < 1e-9);
}

#[test]
fn test_solve_coalition_grand_coalition() {
    let links = vec![ConsolidatedLink {
        device1: "A".to_string(),
        device2: "B".to_string(),
        latency: exact(1.0),
        bandwidth: exact(10.0),
        operator1: "Op1".to_string(),
        operator2: "Op1".to_string(),
        shared: 1,
        link_type: 0,
    }];
    let demands = vec![ConsolidatedDemand {
        start: "A".to_string(),
        end: "B".to_string(),
        receivers: 1,
        traffic: exact(5.0),
        priority: exact(1.0),
        kind: 1,
        multicast: false,
        original: 1,
    }];
    let program = LpBuilderInput::new(&links, &demands).build().unwrap();
    let rows = PrecomputedRows::new(&program);
    let numbers = numbers_of(&program, &links, &demands);
    let mut buffers = CoalitionBuffers::new(program.cost.len());

    let all_bits = u32::MAX;
    let col_masks = vec![all_bits; program.cost.len()];
    let row_masks = vec![all_bits; program.b_ub.len()];
    let sub = coalition_program(
        &rows,
        &mut buffers,
        all_bits,
        &col_masks,
        &col_masks,
        &row_masks,
        &row_masks,
    )
    .unwrap();
    let whole = Program {
        cost: sub.cols.iter().map(|&c| numbers.cost[c]).collect(),
        eq: sub
            .eq_rows
            .iter()
            .zip(&numbers.b_eq)
            .map(|(row, &b)| (row.iter().map(|&(c, v)| (c, v as f64)).collect(), b))
            .collect(),
        ub: sub
            .ub_rows
            .iter()
            .zip(&sub.ub_places)
            .map(|(row, &at)| {
                let entries = row.iter().map(|&(c, v)| (c, v.num as f64 / v.den as f64)).collect();
                (entries, numbers.b_ub[at])
            })
            .collect(),
    };
    assert_eq!(whole.ub, vec![(vec![(0, 1.0)], 10.0)]);
    let (status, objective) = solve(&whole);
    let result = read_status(status, exact(objective)).unwrap();
    assert_eq!(result.status, SolveStatus::Solved);
    assert!(number(result.objective_value).is_finite());
    assert_eq!(number(result.objective_value), 5.0);
}

#[test]
fn values_add_up_to_what_the_network_saves() {
    let mut input = small_input();
    input.operator_uptime = 1.0;
    let values = compute(&input).unwrap();
    let p = prepare(&input, &[]).unwrap();
    assert_eq!(coalition_count(p.players.len()), 4, "2 operators -> 2^2 coalitions");
    let all = value_of(&p.model, &p.numbers, 3 | ALWAYS_BIT).unwrap();
    let none = value_of(&p.model, &p.numbers, ALWAYS_BIT).unwrap();
    let sum: f64 = values.values().sum();
    assert!((sum - (all - none)).abs() < 1e-6, "{sum} {all} {none}");
    assert!(sum > 0.0);
}

/// What a link of the operator in focus adds.
struct Worth {
    ends: (String, String),
    bandwidth: f64,
    latency: f64,
    value: f64,
    percent: f64,
}

fn percents(rows: &mut [Worth]) {
    let total: f64 = rows.iter().map(|r| r.value.max(0.0)).sum();
    for r in rows.iter_mut() {
        r.percent = if total > 0.0 { r.value.max(0.0) / total } else { 0.0 };
    }
    rows.sort_by(|a, b| {
        a.ends
            .cmp(&b.ends)
            .then(a.bandwidth.total_cmp(&b.bandwidth))
            .then(a.latency.total_cmp(&b.latency))
    });
}

fn network_link_estimate(input: Input, focus: &str) -> Result<Vec<Worth>, EstimateError> {
    let flows = flows_of(&input.demands, input.demand_multiplier);
    let capacity: Vec<Real> = input
        .private_links
        .iter()
        .map(|l| exact(number(l.bandwidth) * factor(number(l.uptime))))
        .collect();
    let network = ShapleyInput {
        private_links: input.private_links,
        devices: input.devices,
        demands: input.demands,
        public_links: input.public_links,
        operator_uptime: exact(input.operator_uptime),
        contiguity_bonus: exact(input.contiguity_bonus),
        demand_multiplier: exact(input.demand_multiplier),
    };
    network.check_link_estimate(focus).map_err(EstimateError::Network)?;
    let map = network.map_link_estimate(&capacity, &flows, focus)?;
    let n = map.players.len();
    assert!(LpBuilderInput::new(&map.edges, &flows).is_ready());
    let model = CoalitionModel::over_map(&map.players, &map.edges, &flows, &[])
        .map_err(EstimateError::Network)?;
    assert!(model.does_line_up());
    let numbers = numbers_of(&model.program, &map.edges, &flows);
    let worth: Vec<f64> = (0..coalition_count(n))
        .map(|s| {
            value_of(&model, &numbers, s as u32 | ALWAYS_BIT).unwrap_or(f64::NEG_INFINITY)
        })
        .collect();
    let all = factorial(n) as f64;
    let values: Vec<f64> = (0..n)
        .map(|k| {
            marginal_terms(n, k)
                .iter()
                .map(|t| t.weight as f64 / all * (worth[t.with] - worth[t.without]))
                .sum()
        })
        .collect();
    let mut rows: Vec<Worth> = list_links(&map.edges, &map.players)
        .into_iter()
        .map(|r| Worth {
            ends: (r.device1, r.device2),
            bandwidth: number(r.bandwidth),
            latency: number(r.latency),
            value: r.player.map_or(0.0, |k| values[k]),
            percent: 0.0,
        })
        .collect();
    percents(&mut rows);
    Ok(rows)
}

type Key = ((String, String), u64, u64);

fn key_of(edge: &ConsolidatedLink) -> Key {
    let (a, b) = (edge.device1.clone(), edge.device2.clone());
    let ends = if a < b { (a, b) } else { (b, a) };
    (ends, edge.bandwidth.bits, edge.latency.bits)
}

fn is_switch(name: &str) -> bool {
    name.len() > 3 && !name.ends_with("00")
}

/// The same by definition: for every order in which the links and the other operators
/// join, what each adds to the network of those before it, on average.
fn estimate_by_orders(input: &Input, focus: &str) -> Vec<Worth> {
    let flows = flows_of(&input.demands, input.demand_multiplier);
    let own: Vec<Key> = edges_of(input, &flows)
        .iter()
        .filter(|e| e.operator1 == focus || e.operator2 == focus)
        .filter(|e| is_switch(&e.device1) && is_switch(&e.device2) && e.device1 < e.device2)
        .map(key_of)
        .collect();
    let n = own.len() + 1;
    let saved = |members: &[bool]| -> f64 {
        let mut edges = edges_of(input, &flows);
        edges.retain(|e| {
            let with_others = members[n - 1];
            let foreign = |op: &str| op != focus && op != "Public";
            if e.operator1 == "Public" && e.operator2 == "Public" {
                true
            } else if e.operator1 != focus && e.operator2 != focus {
                with_others
            } else if is_switch(&e.device1) && is_switch(&e.device2) {
                let at = own.iter().position(|k| *k == key_of(e)).unwrap();
                members[at] && (with_others || !(foreign(&e.operator1) || foreign(&e.operator2)))
            } else {
                true
            }
        });
        let mut groups: Vec<u32> = edges.iter().map(|e| e.shared).filter(|&g| g > 0).collect();
        groups.sort();
        groups.dedup();
        for e in edges.iter_mut() {
            if e.shared > 0 {
                e.shared = groups.iter().position(|&g| g == e.shared).unwrap() as u32 + 1;
            }
            if e.operator1 != "Public" {
                e.operator1 = "Private".to_string();
                e.operator2 = "Private".to_string();
            }
        }
        let model = CoalitionModel::over_map(&[], &edges, &flows, &[]).expect("a model");
        let numbers = numbers_of(&model.program, &edges, &flows);
        value_of(&model, &numbers, ALWAYS_BIT).unwrap_or(f64::NEG_INFINITY)
    };
    let worth: Vec<f64> = (0..1usize << n)
        .map(|s| saved(&(0..n).map(|i| s >> i & 1 == 1).collect::<Vec<bool>>()))
        .collect();
    let mut orders: Vec<Vec<usize>> = vec![vec![]];
    for _ in 0..n {
        orders = orders
            .iter()
            .flat_map(|o| {
                (0..n).filter(|i| !o.contains(i)).map(|i| {
                    let mut longer = o.clone();
                    longer.push(i);
                    longer
                })
            })
            .collect();
    }
    let mut values = vec![0.0; n];
    for order in &orders {
        let mut before = 0usize;
        for &i in order {
            values[i] += (worth[before | 1 << i] - worth[before]) / orders.len() as f64;
            before |= 1 << i;
        }
    }
    let mut rows: Vec<Worth> = own
        .into_iter()
        .zip(values)
        .map(|((ends, bandwidth, latency), value)| Worth {
            ends,
            bandwidth: f64::from_bits(bandwidth),
            latency: f64::from_bits(latency),
            value,
            percent: 0.0,
        })
        .collect();
    percents(&mut rows);
    rows
}

/// Three operators; the demands are unicast, or unicast and multicast.
fn fixture_input(second: bool, operator_uptime: f64, multiplier: f64) -> Input {
    let mut demands = vec![
        demand("SIN", "AMS", 1, 5.0, 1.0, 1, false),
        demand("SIN", "LON", 2, 5.0, 2.0, 1, false),
        demand("LON", "FRA", 1, 3.0, 1.0, 2, false),
        demand("LON", "AMS", 1, 3.0, 1.0, 2, false),
    ];
    if second {
        demands.push(demand("FRA", "AMS", 2, 1.0, 1.0, 3, true));
        demands.push(demand("FRA", "LON", 3, 1.0, 2.0, 3, true));
    }
    Input {
        private_links: vec![
            link("SIN1", "FRA1", 50.0, 10.0, 1.0, None),
            link("SIN1", "FRA1", 60.0, 20.0, 0.99, None),
            link("FRA1", "AMS1", 3.0, 10.0, 1.0, None),
            link("FRA1", "LON1", 5.0, 10.0, 1.0, Some(4)),
            link("LON1", "AMS2", 4.0, 8.0, 1.0, None),
        ],
        devices: vec![
            device("SIN1", 20, "Alpha"),
            device("FRA1", 20, "Alpha"),
            device("AMS1", 10, "Beta"),
            device("LON1", 10, "Beta"),
            device("AMS2", 10, "Theta"),
        ],
        demands,
        public_links: vec![
            road("SIN", "FRA", 100.0),
            road("SIN", "AMS", 102.0),
            road("FRA", "LON", 7.0),
            road("FRA", "AMS", 5.0),
        ],
        operator_uptime,
        contiguity_bonus: 5.0,
        demand_multiplier: multiplier,
    }
}

#[test]
fn test_link_estimate_python_parity() {
    for (second, focus, n_links) in [(false, "Alpha", 4), (true, "Alpha", 4), (false, "Theta", 1)] {
        let rows = network_link_estimate(fixture_input(second, 0.98, 1.0), focus)
            .expect("network_link_estimate failed");
        let expected = estimate_by_orders(&fixture_input(second, 0.98, 1.0), focus);
        assert_eq!(rows.len(), expected.len(), "{focus}: link count mismatch");
        assert_eq!(rows.len(), n_links, "{focus}");
        for (a, b) in rows.iter().zip(&expected) {
            assert_eq!(a.ends, b.ends, "{focus}: row pairing mismatch after sort");
            assert!((a.bandwidth - b.bandwidth).abs() < 1e-6, "{focus}: bandwidth");
            assert!((a.latency - b.latency).abs() < 1e-9, "{focus}: latency");
            assert!((a.value - b.value).abs() < 0.01, "{focus}: {:?} {} {}", a.ends, a.value, b.value);
            assert!((a.percent - b.percent).abs() < 1e-4, "{focus}: percent");
        }
        assert!(rows.iter().any(|r| r.value > 0.1), "{focus}: some link is worth something");
    }
}

#[test]
fn test_link_estimate_ignores_operator_uptime() {
    let a = network_link_estimate(fixture_input(false, 0.98, 1.0), "Alpha").unwrap();
    let b = network_link_estimate(fixture_input(false, 1.0, 1.0), "Alpha").unwrap();

    assert_eq!(a.len(), b.len(), "link count differs across uptime inputs");
    for (ra, rb) in a.iter().zip(&b) {
        assert_eq!(ra.ends, rb.ends, "row pairing mismatch after sort");
        assert!((ra.value - rb.value).abs() < 1e-6, "uptime changed value for {:?}", ra.ends);
    }
}

#[test]
fn test_link_estimate_unknown_focus_is_empty() {
    let rows = network_link_estimate(fixture_input(false, 1.0, 1.0), "NoSuchOperator")
        .expect("should not error");
    assert!(rows.is_empty(), "expected no links, got {}", rows.len());
}

#[test]
fn uptime_does_not_lower_the_limit_for_links() {
    let many = |uptime: f64| {
        let mut input = two_operators(uptime);
        for i in 0..16 {
            input.devices.push(device(&format!("ZZZ{i}"), 1, &format!("Op{i}")));
        }
        input
    };
    for uptime in [0.9, 1.0] {
        let rows = network_link_estimate(many(uptime), "Operator1").expect("18 operators are fine");
        assert_eq!(rows.len(), 2);
        // Both links and the other operators are needed for the saving of 80.
        for r in &rows {
            assert!((r.value - 80.0 / 3.0).abs() < 1e-6, "{:?} {}", r.ends, r.value);
            assert!((r.percent - 0.5).abs() < 1e-9);
        }
    }
    assert!(matches!(
        compute(&many(0.9)),
        Err(ShapleyError::TooManyOperators { count: 18, limit: 15 })
    ));
}

#[test]
fn links_that_run_beside_each_other_are_all_listed() {
    let mut input = fixture_input(false, 1.0, 1.0);
    // Downtime leaves nothing of either bandwidth, so the two look the same.
    input.private_links[0] = link("SIN1", "FRA1", 50.0, 10.0, 0.5, None);
    input.private_links[1] = link("SIN1", "FRA1", 50.0, 20.0, 0.6, None);
    let rows = network_link_estimate(input, "Alpha").expect("network_link_estimate failed");
    let ends: Vec<(&str, &str)> =
        rows.iter().map(|r| (r.ends.0.as_str(), r.ends.1.as_str())).collect();
    assert_eq!(
        ends,
        vec![("AMS1", "FRA1"), ("FRA1", "LON1"), ("FRA1", "SIN1"), ("FRA1", "SIN1")]
    );
    assert_eq!((rows[2].bandwidth, rows[3].bandwidth), (0.0, 0.0));
    assert_eq!((rows[2].value, rows[3].value), (0.0, 0.0));
}
