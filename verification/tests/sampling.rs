use network_shapley::quantity::Real;
use network_shapley::sampling::{
    admit_seed, draw_walk, extend_cache, needed_masks, read_draws, read_walk, Sampler, SamplingConfig, Verdict,
    Walk,
};
use network_shapley::shapley::{marginal_terms, ALWAYS_BIT};
use std::collections::HashMap;

fn exact(x: f64) -> Real {
    Real { bits: x.to_bits() }
}

#[test]
fn test_sampling_config_for_problem() {
    let config = SamplingConfig::for_problem(14, 1148);
    assert_eq!(config.min_samples, 50);
    assert_eq!(config.max_samples, 300);

    let config_heavy = SamplingConfig::for_problem(14, 3000);
    assert_eq!(config_heavy.min_samples, 40);
    assert_eq!(config_heavy.max_samples, 150);
}

#[test]
fn configurations() {
    let usual = SamplingConfig::default();
    assert_eq!((usual.min_samples, usual.max_samples, usual.batch_size), (100, 500, 50));
    assert_eq!(usual.target_se, exact(0.05));
    assert_eq!(SamplingConfig::for_problem(3, 2000).target_se, exact(0.05));
    let light = SamplingConfig::for_simulation(3, 2000);
    assert_eq!((light.min_samples, light.max_samples, light.batch_size), (40, 200, 50));
    assert_eq!(light.target_se, exact(0.10));
    let heavy = SamplingConfig::for_simulation(3, 2001);
    assert_eq!((heavy.min_samples, heavy.max_samples), (30, 120));
}

#[test]
fn seeds_outside_the_changed_players_are_admitted() {
    let mut seed = HashMap::new();
    for s in 0..8u32 {
        seed.insert(s | ALWAYS_BIT, Some(exact(s as f64)));
    }
    let admitted = admit_seed(&seed, 0b010);
    let mut masks: Vec<u32> = admitted.keys().map(|m| m & 7).collect();
    masks.sort();
    assert_eq!(masks, vec![0, 1, 4, 5]);
    assert_eq!(admitted[&(5 | ALWAYS_BIT)], Some(exact(5.0)));
    assert_eq!(admit_seed(&seed, 0).len(), 8);
}

#[test]
fn walks_ask_for_the_coalitions_before_and_after() {
    let walk = Walk { perm: vec![2, 0, 1], up: vec![false, true, true] };
    let steps: Vec<(u32, u32)> =
        walk.steps().iter().map(|(a, b)| (a & !ALWAYS_BIT, b & !ALWAYS_BIT)).collect();
    assert_eq!(steps, vec![(0, 4), (4, 5), (4, 6)]);
    assert!(walk.steps().iter().all(|(a, b)| a & ALWAYS_BIT != 0 && b & ALWAYS_BIT != 0));

    let mut cache = HashMap::new();
    cache.insert(ALWAYS_BIT, Some(exact(1.0)));
    let mut needed = needed_masks(&[walk], &cache, 3);
    needed.sort();
    assert_eq!(needed, vec![4 | ALWAYS_BIT, 5 | ALWAYS_BIT, 6 | ALWAYS_BIT]);
}

#[test]
fn all_orders_together_give_the_value() {
    let worth = [1.0, 4.0, 2.0, 9.0, 3.0, 11.0, 7.0, 30.0];
    let cache: HashMap<u32, Option<Real>> = (0..8u32)
        .map(|s| (s | ALWAYS_BIT, Some(exact(worth[s as usize]))))
        .collect();
    let orders =
        [[0, 1, 2], [0, 2, 1], [1, 0, 2], [1, 2, 0], [2, 0, 1], [2, 1, 0]];
    let mut added = [0.0f64; 3];
    for order in orders {
        let walk = Walk { perm: order.to_vec(), up: vec![true; 3] };
        for (i, (before, with)) in read_walk(&walk, &cache).into_iter().enumerate() {
            added[i] += f64::from_bits(with.bits) - f64::from_bits(before.bits);
        }
    }
    for (k, total) in added.iter().enumerate() {
        let value: f64 = marginal_terms(3, k)
            .iter()
            .map(|t| t.weight as f64 * (worth[t.with] - worth[t.without]))
            .sum();
        assert!((total - value).abs() < 1e-9, "{k}: {total} {value}");
    }
}

#[test]
fn readings_follow_the_players() {
    let walk = Walk { perm: vec![1, 0], up: vec![true, true] };
    let mut cache = HashMap::new();
    let masks = needed_masks(
        &[Walk { perm: vec![1, 0], up: vec![true, true] }],
        &cache,
        2,
    );
    let values: Vec<Option<Real>> = masks
        .iter()
        .map(|m| match m & 3 {
            0 => Some(exact(1.0)),
            2 => None,
            _ => Some(exact(7.0)),
        })
        .collect();
    extend_cache(&mut cache, &masks, &values);
    assert_eq!(cache.len(), 3);
    let pairs = read_walk(&walk, &cache);
    assert_eq!(pairs[1], (exact(1.0), exact(0.0)));
    assert_eq!(pairs[0], (exact(0.0), exact(7.0)));
}

#[test]
fn orders_are_shuffled() {
    let mut first = [0usize; 5];
    for _ in 0..400 {
        let walk = draw_walk(5, exact(1.0));
        let mut sorted = walk.perm.clone();
        sorted.sort();
        assert_eq!(sorted, vec![0, 1, 2, 3, 4]);
        assert_eq!(walk.up, vec![true; 5]);
        first[walk.perm[0]] += 1;
    }
    // Every player comes first now and then.
    assert!(first.iter().all(|&n| n > 20), "{first:?}");
}

#[test]
fn draws_below_the_uptime_are_up() {
    let half = 1u64 << 63;
    let words = [0, half - 1, half, u64::MAX];
    assert_eq!(read_draws(exact(0.5), &words), vec![true, true, false, false]);
    assert_eq!(read_draws(exact(0.0), &words), vec![false; 4]);
    assert_eq!(read_draws(exact(1.0), &words), vec![true; 4]);
    for word in [3u64 << 40, 0x0123_4567_89ab_cdef, u64::MAX - 5] {
        let draw = (word >> 11) as f64 / (1u64 << 53) as f64;
        for uptime in [0.25, 0.98, draw, f64::MIN_POSITIVE] {
            assert_eq!(read_draws(exact(uptime), &[word]), vec![draw < uptime]);
        }
    }
}

#[test]
fn players_are_up_as_often_as_their_uptime() {
    let mut up = 0usize;
    for _ in 0..400 {
        up += draw_walk(10, exact(0.75)).up.iter().filter(|&&b| b).count();
    }
    assert!((2850..3150).contains(&up), "{up}");
    assert!(draw_walk(10, exact(0.0)).up.iter().all(|&b| !b));
    assert!(draw_walk(10, exact(f64::NAN)).up.iter().all(|&b| b));
}

#[test]
fn draws_fall_below_a_share_by_their_upper_bits() {
    let half = exact(0.5);
    assert!(half.exceeds_draw(0));
    assert!(half.exceeds_draw((1u64 << 63) - 1));
    assert!(!half.exceeds_draw(1u64 << 63));
    assert!(!exact(0.0).exceeds_draw(0));
    for word in [0u64, 1 << 11, 0x1234_5678_9ABC_DEF0, u64::MAX] {
        let draw = (word >> 11) as f64 * (1.0 / (1u64 << 53) as f64);
        for share in [0.0, 1e-300, 0.071, 0.25, 0.999, 1.0 - f64::EPSILON / 2.0, 1.0, 2.0, -1.0] {
            assert_eq!(exact(share).exceeds_draw(word), draw < share, "{word} {share}");
        }
    }
}

#[test]
fn an_estimate_step_by_step() {
    let config = SamplingConfig {
        min_samples: 6,
        max_samples: 10,
        target_se: exact(0.05),
        batch_size: 3,
    };
    let mut seed = HashMap::new();
    seed.insert(ALWAYS_BIT, Some(exact(0.0)));
    seed.insert(1 | ALWAYS_BIT, Some(exact(5.0)));
    let mut sampler = Sampler::start(2, exact(1.0), config, &seed, 1);
    assert_eq!(sampler.reused, 1);
    let mut batches = vec![];
    loop {
        sampler.draw_batch();
        batches.push(sampler.walks.len());
        // A coalition is worth ten for each player.
        let values: Vec<Option<Real>> = sampler
            .needed
            .iter()
            .map(|m| Some(exact(10.0 * (m & 3).count_ones() as f64)))
            .collect();
        let readings = sampler.take_values(&values);
        assert_eq!(readings.len(), *batches.last().unwrap());
        for pairs in readings {
            for (before, with) in pairs {
                assert_eq!(f64::from_bits(with.bits) - f64::from_bits(before.bits), 10.0);
            }
        }
        match sampler.judge(exact(0.06)) {
            Verdict::Continue => {}
            verdict => {
                assert_eq!(verdict, Verdict::Stop { converged: false });
                break;
            }
        }
    }
    assert_eq!(batches, vec![6, 3, 1]);
    assert_eq!(sampler.total, 10);
    assert_eq!(sampler.cache.len(), 4);
    assert_eq!(sampler.judge(exact(0.05)), Verdict::Stop { converged: true });
    assert_eq!(sampler.judge(exact(f64::NAN)), Verdict::Stop { converged: false });
}

#[test]
fn the_most_samples_are_a_hard_cap() {
    let given =
        SamplingConfig { min_samples: 100, max_samples: 120, target_se: exact(0.05), batch_size: 50 };
    for (config, expected) in [
        (given, vec![100, 20]),
        (SamplingConfig::for_problem(3, 3000), vec![40, 50, 50, 10]),
        (SamplingConfig::for_simulation(3, 10), vec![40, 50, 50, 50, 10]),
        (SamplingConfig::for_simulation(3, 3000), vec![30, 50, 40]),
    ] {
        let most = config.max_samples;
        let mut sampler = Sampler::start(1, exact(1.0), config, &HashMap::new(), 0);
        let mut batches = vec![];
        loop {
            sampler.draw_batch();
            batches.push(sampler.walks.len());
            let values = vec![Some(exact(1.0)); sampler.needed.len()];
            sampler.take_values(&values);
            match sampler.judge(exact(1.0)) {
                Verdict::Continue => assert!(sampler.total < most),
                verdict => {
                    assert_eq!(verdict, Verdict::Stop { converged: false });
                    break;
                }
            }
        }
        assert_eq!(batches, expected);
        assert_eq!(sampler.total, most);
    }
}

#[test]
fn too_few_orders_are_never_enough() {
    let config = SamplingConfig {
        min_samples: 10,
        max_samples: 5,
        target_se: exact(0.05),
        batch_size: 3,
    };
    let mut sampler = Sampler::start(1, exact(1.0), config, &HashMap::new(), 0);
    assert_eq!(sampler.judge(exact(0.0)), Verdict::Continue);
    sampler.total = 7;
    assert_eq!(sampler.judge(exact(0.0)), Verdict::GiveUp);
}
