//! Estimating the values of the players from random orders in which they join.
use crate::quantity::{ONE, Real};
use crate::shapley::{bits_are_apart, player_bit, ALWAYS_BIT};
use crate::solver::belongs;
use rand::seq::SliceRandom;
use rand::Rng;
use std::collections::{HashMap, HashSet};
use vstd::prelude::*;
use vstd::std_specs::hash::*;

verus! {

broadcast use group_hash_axioms;

/// How many orders to draw, and when to stop.
#[derive(Clone, Copy, Debug, PartialEq, Eq, Structural)]
pub struct SamplingConfig {
    /// The fewest orders before convergence is judged.
    pub min_samples: usize,
    /// The most orders.
    pub max_samples: usize,
    /// The relative standard error to reach for every player.
    pub target_se: Real,
    /// How many orders are added at a time after the first ones.
    pub batch_size: usize,
}

/// The number one twentieth, as near as a binary64 number comes.
pub const FIVE_PERCENT: u64 = 0x3FA9_9999_9999_999A;

/// The number one tenth, as near as a binary64 number comes.
pub const TEN_PERCENT: u64 = 0x3FB9_9999_9999_999A;

impl Default for SamplingConfig {
    /// Between 100 and 500 orders in batches of 50, to five per cent.
    fn default() -> (r: Self)
        ensures
            r.min_samples == 100,
            r.max_samples == 500,
            r.target_se.bits == FIVE_PERCENT,
            r.batch_size == 50,
    {
        SamplingConfig {
            min_samples: 100,
            max_samples: 500,
            target_se: Real { bits: FIVE_PERCENT },
            batch_size: 50,
        }
    }
}

/// The least and the greatest number of orders for the size of a problem, in earnest or
/// for trying things out.
pub open spec fn orders_for(n_demands: usize, trial: bool) -> (usize, usize) {
    if n_demands > 2000 {
        if trial {
            (30, 120)
        } else {
            (40, 150)
        }
    } else if trial {
        (40, 200)
    } else {
        (50, 300)
    }
}

impl SamplingConfig {
    /// A configuration for the size of the problem: fewer orders where there are many
    /// demands.
    pub fn for_problem(_n_operators: usize, n_demands: usize) -> (r: Self)
        ensures
            n_demands > 2000 ==> r.min_samples == 40 && r.max_samples == 150,
            n_demands <= 2000 ==> r.min_samples == 50 && r.max_samples == 300,
            (r.min_samples, r.max_samples) == orders_for(n_demands, false),
            r.target_se.bits == FIVE_PERCENT,
            r.batch_size == 50,
    {
        let usual = SamplingConfig::default();
        if n_demands > 2000 {
            SamplingConfig { min_samples: 40, max_samples: 150, ..usual }
        } else {
            SamplingConfig { min_samples: 50, max_samples: 300, ..usual }
        }
    }

    /// A configuration for trying things out: fewer orders, to ten per cent.
    pub fn for_simulation(_n_operators: usize, n_demands: usize) -> (r: Self)
        ensures
            n_demands > 2000 ==> r.min_samples == 30 && r.max_samples == 120,
            n_demands <= 2000 ==> r.min_samples == 40 && r.max_samples == 200,
            (r.min_samples, r.max_samples) == orders_for(n_demands, true),
            r.target_se.bits == TEN_PERCENT,
            r.batch_size == 50,
    {
        if n_demands > 2000 {
            SamplingConfig {
                min_samples: 30,
                max_samples: 120,
                target_se: Real { bits: TEN_PERCENT },
                batch_size: 50,
            }
        } else {
            SamplingConfig {
                min_samples: 40,
                max_samples: 200,
                target_se: Real { bits: TEN_PERCENT },
                batch_size: 50,
            }
        }
    }
}

/// Values of coalitions that can be taken over from an earlier run: of the coalitions
/// without any player whose bit is in `gate`.
pub open spec fn is_admitted(
    seed: Map<u32, Option<Real>>,
    gate: u32,
    admitted: Map<u32, Option<Real>>,
) -> bool {
    forall|mask: u32|
        {
            &&& #[trigger] admitted.contains_key(mask) <==> seed.contains_key(mask) && mask & gate
                == 0
            &&& admitted.contains_key(mask) ==> admitted[mask] == seed[mask]
        }
}

/// Takes over the values of coalitions without any player whose bit is in `gate`.
pub fn admit_seed(seed: &HashMap<u32, Option<Real>>, gate: u32) -> (r: HashMap<u32, Option<Real>>)
    ensures
        is_admitted(seed@, gate, r@),
{
    let mut cache: HashMap<u32, Option<Real>> = HashMap::new();
    let ghost all = vstd::std_specs::iter::IteratorSpec::remaining(&spec_hash_map_iter(seed));
    for (mask, value) in it: seed.iter()
        invariant
            it.seq() == all,
            all == vstd::std_specs::iter::IteratorSpec::remaining(&spec_hash_map_iter(seed)),
            forall|k: u32| #[trigger]
                cache@.contains_key(k) ==> seed@.contains_key(k) && k & gate == 0 && cache@[k]
                    == seed@[k],
            forall|j: int|
                0 <= j < it.index() && *(#[trigger] all[j]).0 & gate == 0 ==> cache@.contains_key(
                    *all[j].0,
                ),
    {
        assert(all[it.index()] == (mask, value));
        assert(seed@.contains_key(*all[it.index()].0));
        if *mask & gate == 0 {
            cache.insert(*mask, *value);
        }
    }
    proof {
        assert forall|k: u32|
            {
                &&& #[trigger] cache@.contains_key(k) <==> seed@.contains_key(k) && k & gate == 0
                &&& cache@.contains_key(k) ==> cache@[k] == seed@[k]
            } by {
            if seed@.contains_key(k) && k & gate == 0 {
                assert(all.contains((&k, &seed@[k])));
                let j = choose|j: int| 0 <= j < all.len() && all[j] == (&k, &seed@[k]);
                assert(*all[j].0 == k);
            }
        }
    }
    cache
}

/// An order in which the players join, and which of them are up.
#[derive(Debug)]
pub struct Walk {
    pub perm: Vec<usize>,
    pub up: Vec<bool>,
}

/// `perm` names each of the players `0` to `n - 1` once.
pub open spec fn is_order(perm: Seq<usize>, n: int) -> bool {
    &&& perm.len() == n
    &&& perm.no_duplicates()
    &&& forall|j: int| 0 <= j < perm.len() ==> #[trigger] perm[j] < n
}

impl Walk {
    /// The walk is one of `n` players.
    pub open spec fn wf(self, n: int) -> bool {
        is_order(self.perm@, n) && self.up@.len() == n
    }
}

/// Calls `shuffle` of the trait `rand::seq::SliceRandom` with the generator of the
/// thread, `rand::rng()`, which the crate leaves to chance: all that is claimed is that
/// the members stay the same, in whatever order. (Where the system gives no randomness
/// to start with, the generator panics.)
#[verifier::external_body]
fn shuffle(perm: &mut Vec<usize>)
    ensures
        final(perm)@.to_multiset() == old(perm)@.to_multiset(),
{
    perm.shuffle(&mut rand::rng());
}

/// Calls `random` of the trait `rand::Rng` on the generator of the thread,
/// `rand::rng()`, for a `u64`: sixty-four random bits, of which nothing is claimed.
/// (Where the system gives no randomness to start with, the generator panics.)
#[verifier::external_body]
fn random_word() -> (r: u64) {
    rand::rng().random::<u64>()
}

/// The players in the order of their numbers.
pub open spec fn counting(n: int) -> Seq<usize> {
    Seq::new(n as nat, |i: int| i as usize)
}

/// What holds the same members as the players in order is an order of the players.
proof fn shuffled_is_order(perm: Seq<usize>, n: int)
    requires
        0 <= n <= usize::MAX,
        perm.to_multiset() == counting(n).to_multiset(),
    ensures
        is_order(perm, n),
{
    broadcast use vstd::seq_lib::group_to_multiset_ensures;

    let line = counting(n);
    assert(perm.len() == line.len()) by {
        assert(perm.to_multiset().len() == perm.len());
        assert(line.to_multiset().len() == line.len());
    }
    assert forall|j: int| 0 <= j < perm.len() implies #[trigger] perm[j] < n by {
        assert(perm.contains(perm[j]));
        assert(perm.to_multiset().count(perm[j]) > 0);
        assert(line.contains(perm[j]));
        let k = choose|k: int| 0 <= k < line.len() && line[k] == perm[j];
    }
    assert(line.no_duplicates());
    line.lemma_multiset_has_no_duplicates();
    perm.lemma_multiset_has_no_duplicates_conv();
}

/// Which players are up where each has drawn a word: all of them at an uptime of one or
/// more, else those whose draw falls below the uptime.
pub open spec fn up_by(uptime: Real, words: Seq<u64>) -> Seq<bool> {
    Seq::new(
        words.len(),
        |i: int| !uptime.less_than(Real { bits: ONE }) || uptime.above_draw(words[i]),
    )
}

/// The players that are up, by whatever they have drawn.
pub open spec fn is_drawn(up: Seq<bool>, uptime: Real) -> bool {
    exists|words: Seq<u64>| up == #[trigger] up_by(uptime, words)
}

/// Tells which players are up where each has drawn a word.
pub fn read_draws(uptime: Real, words: &[u64]) -> (r: Vec<bool>)
    ensures
        r@ == up_by(uptime, words@),
{
    let one = Real { bits: ONE };
    let steady = !uptime.is_less(&one);
    let mut up: Vec<bool> = Vec::new();
    for i in 0..words.len()
        invariant
            up@ == up_by(uptime, words@).take(i as int),
            steady == !uptime.less_than(Real { bits: ONE }),
    {
        up.push(steady || uptime.exceeds_draw(words[i]));
        assert(up@ =~= up_by(uptime, words@).take(i + 1));
    }
    assert(up@ =~= up_by(uptime, words@));
    up
}

/// Draws an order of the players, and for each whether it is up.
pub fn draw_walk(n: usize, uptime: Real) -> (r: Walk)
    ensures
        r.wf(n as int),
        is_drawn(r.up@, uptime),
{
    let mut perm: Vec<usize> = Vec::new();
    for i in 0..n
        invariant
            perm@ == counting(i as int),
    {
        perm.push(i);
        assert(perm@ =~= counting(i + 1));
    }
    shuffle(&mut perm);
    proof {
        shuffled_is_order(perm@, n as int);
    }
    let one = Real { bits: ONE };
    let draws = uptime.is_less(&one);
    let mut words: Vec<u64> = Vec::new();
    for i in 0..n
        invariant
            words@.len() == i,
    {
        let word: u64 = if draws {
            random_word()
        } else {
            0
        };
        words.push(word);
    }
    let up = read_draws(uptime, words.as_slice());
    Walk { perm, up }
}

/// At an uptime of one or more, every player is up whatever is drawn.
pub proof fn steady_players_are_up(up: Seq<bool>, uptime: Real)
    requires
        is_drawn(up, uptime),
        !uptime.less_than(Real { bits: ONE }),
    ensures
        forall|i: int| 0 <= i < up.len() ==> #[trigger] up[i],
{
}

/// The bits of the players that are up among the first `j` of an order.
pub open spec fn up_prefix(perm: Seq<usize>, up: Seq<bool>, j: int) -> u32
    decreases j,
{
    if j <= 0 {
        0
    } else {
        let i = perm[j - 1] as int;
        if up[i] {
            up_prefix(perm, up, j - 1) | player_bit(i)
        } else {
            up_prefix(perm, up, j - 1)
        }
    }
}

/// The coalition that the `j`th player of an order finds: those before it that are up.
pub open spec fn mask_before(perm: Seq<usize>, up: Seq<bool>, j: int) -> u32 {
    up_prefix(perm, up, j) | ALWAYS_BIT
}

/// The same coalition with the `j`th player.
pub open spec fn mask_after(perm: Seq<usize>, up: Seq<bool>, j: int) -> u32 {
    up_prefix(perm, up, j) | player_bit(perm[j] as int) | ALWAYS_BIT
}

/// The coalitions without and with each player, in the order of the walk.
pub open spec fn steps_of(perm: Seq<usize>, up: Seq<bool>) -> Seq<(u32, u32)> {
    Seq::new(perm.len(), |j: int| (mask_before(perm, up, j), mask_after(perm, up, j)))
}

impl Walk {
    /// Lists the coalitions without and with each player, in the order of the walk.
    pub fn steps(&self) -> (r: Vec<(u32, u32)>)
        requires
            self.wf(self.perm@.len() as int),
            self.perm@.len() <= 32,
        ensures
            r@ == steps_of(self.perm@, self.up@),
    {
        let mut out: Vec<(u32, u32)> = Vec::new();
        let mut prefix: u32 = 0;
        for j in 0..self.perm.len()
            invariant
                self.wf(self.perm@.len() as int),
                self.perm@.len() <= 32,
                prefix == up_prefix(self.perm@, self.up@, j as int),
                out@ == steps_of(self.perm@, self.up@).take(j as int),
        {
            let i: usize = self.perm[j];
            assert(i < self.perm@.len());
            let bit: u32 = 1u32 << (i as u32);
            out.push((prefix | ALWAYS_BIT, prefix | bit | ALWAYS_BIT));
            assert(out@ =~= steps_of(self.perm@, self.up@).take(j + 1));
            if self.up[i] {
                prefix = prefix | bit;
            }
        }
        assert(out@ =~= steps_of(self.perm@, self.up@));
        out
    }
}

/// A coalition that some walk asks for.
pub open spec fn is_asked(walks: Seq<Walk>, mask: u32) -> bool {
    exists|w: int, j: int|
        0 <= w < walks.len() && 0 <= j < walks[w].perm@.len() && is_step(
            #[trigger] walks[w],
            #[trigger] nth(j),
            mask,
        )
}

/// The number itself, to name a step by.
pub open spec fn nth(j: int) -> int {
    j
}

/// The `j`th step of the walk asks for the coalition.
pub open spec fn is_step(walk: Walk, j: int, mask: u32) -> bool {
    mask == mask_before(walk.perm@, walk.up@, j) || mask == mask_after(walk.perm@, walk.up@, j)
}

/// All walks are of `n` players.
pub open spec fn walks_valid(walks: Seq<Walk>, n: int) -> bool {
    forall|w: int| 0 <= w < walks.len() ==> (#[trigger] walks[w]).wf(n)
}

/// Lists the coalitions that walks ask for and that are not known, each once.
pub fn needed_masks(walks: &[Walk], cache: &HashMap<u32, Option<Real>>, n: usize) -> (r: Vec<u32>)
    requires
        n <= 32,
        walks_valid(walks@, n as int),
    ensures
        r@.no_duplicates(),
        forall|mask: u32| #[trigger]
            r@.contains(mask) <==> is_asked(walks@, mask) && !cache@.contains_key(mask),
{
    let mut seen: HashSet<u32> = HashSet::new();
    let mut out: Vec<u32> = Vec::new();
    for w in 0..walks.len()
        invariant
            n <= 32,
            walks_valid(walks@, n as int),
            out@.no_duplicates(),
            forall|mask: u32| #[trigger] seen@.contains(mask) <==> out@.contains(mask),
            forall|mask: u32| #[trigger]
                out@.contains(mask) <==> is_asked(walks@.take(w as int), mask)
                    && !cache@.contains_key(mask),
    {
        let walk = &walks[w];
        assert(walk.wf(n as int));
        let steps = walk.steps();
        let ghost before = out@;
        assert forall|mask: u32| #[trigger]
            out@.contains(mask) <==> (is_asked(walks@.take(w as int), mask) || asked_upto(
                *walk,
                0,
                mask,
            )) && !cache@.contains_key(mask) by {}
        for j in 0..steps.len()
            invariant
                steps@ == steps_of(walk.perm@, walk.up@),
                out@.no_duplicates(),
                forall|mask: u32| #[trigger] seen@.contains(mask) <==> out@.contains(mask),
                forall|mask: u32| #[trigger]
                    out@.contains(mask) <==> (is_asked(walks@.take(w as int), mask) || asked_upto(
                        *walk,
                        j as int,
                        mask,
                    )) && !cache@.contains_key(mask),
        {
            let (without, with) = steps[j];
            note_mask(&mut out, &mut seen, cache, without);
            note_mask(&mut out, &mut seen, cache, with);
            proof {
                assert forall|mask: u32|
                    asked_upto(*walk, j + 1, mask) == (asked_upto(*walk, j as int, mask) || mask
                        == without || mask == with) by {
                    if asked_upto(*walk, j + 1, mask) {
                        let k = choose|k: int|
                            0 <= k < j + 1 && is_step(*walk, #[trigger] nth(k), mask);
                        if k < j {
                            assert(is_step(*walk, nth(k), mask));
                        }
                    }
                    if asked_upto(*walk, j as int, mask) {
                        let k = choose|k: int|
                            0 <= k < j && is_step(*walk, #[trigger] nth(k), mask);
                        assert(is_step(*walk, nth(k), mask));
                    }
                    if mask == without || mask == with {
                        assert(is_step(*walk, nth(j as int), mask));
                    }
                }
            }
        }
        proof {
            let front = walks@.take(w as int);
            let more = walks@.take(w + 1);
            assert forall|mask: u32|
                #[trigger] is_asked(more, mask) == (is_asked(front, mask) || asked_upto(
                    *walk,
                    walk.perm@.len() as int,
                    mask,
                )) by {
                if is_asked(more, mask) {
                    let (v, j) = choose|v: int, j: int|
                        0 <= v < more.len() && 0 <= j < more[v].perm@.len() && is_step(
                            #[trigger] more[v],
                            #[trigger] nth(j),
                            mask,
                        );
                    if v < w {
                        assert(front[v] == more[v]);
                        assert(is_step(front[v], nth(j), mask));
                    } else {
                        assert(is_step(*walk, nth(j), mask));
                    }
                }
                if is_asked(front, mask) {
                    let (v, j) = choose|v: int, j: int|
                        0 <= v < front.len() && 0 <= j < front[v].perm@.len() && is_step(
                            #[trigger] front[v],
                            #[trigger] nth(j),
                            mask,
                        );
                    assert(more[v] == front[v]);
                    assert(is_step(more[v], nth(j), mask));
                }
                if asked_upto(*walk, walk.perm@.len() as int, mask) {
                    let j = choose|j: int|
                        0 <= j < walk.perm@.len() && is_step(*walk, #[trigger] nth(j), mask);
                    assert(more[w as int] == *walk);
                    assert(is_step(more[w as int], nth(j), mask));
                }
            }
        }
    }
    assert(walks@.take(walks@.len() as int) =~= walks@);
    out
}

/// One of the first `n` steps of the walk asks for the coalition.
spec fn asked_upto(walk: Walk, n: int, mask: u32) -> bool {
    exists|j: int| 0 <= j < n && is_step(walk, #[trigger] nth(j), mask)
}

/// Notes a coalition that is neither known nor noted.
fn note_mask(
    out: &mut Vec<u32>,
    seen: &mut HashSet<u32>,
    cache: &HashMap<u32, Option<Real>>,
    mask: u32,
)
    requires
        old(out)@.no_duplicates(),
        forall|x: u32| #[trigger] old(seen)@.contains(x) <==> old(out)@.contains(x),
    ensures
        final(out)@.no_duplicates(),
        forall|x: u32| #[trigger] final(seen)@.contains(x) <==> final(out)@.contains(x),
        forall|x: u32| #[trigger]
            final(out)@.contains(x) <==> old(out)@.contains(x) || x == mask && !cache@.contains_key(
                x,
            ),
{
    if !cache.contains_key(&mask) && !seen.contains(&mask) {
        let ghost before = out@;
        out.push(mask);
        seen.insert(mask);
        assert forall|x: u32| #[trigger] out@.contains(x) <==> before.contains(x) || x == mask by {
            crate::lists::pushed(before, mask, x);
        }
        assert(out@.no_duplicates()) by {
            assert(!before.contains(mask));
        }
    }
}

/// The cache with the values of the coalitions listed.
pub open spec fn is_extended(
    before: Map<u32, Option<Real>>,
    masks: Seq<u32>,
    values: Seq<Option<Real>>,
    after: Map<u32, Option<Real>>,
) -> bool {
    &&& forall|mask: u32| #[trigger]
        after.contains_key(mask) <==> before.contains_key(mask) || masks.contains(mask)
    &&& forall|i: int| 0 <= i < masks.len() ==> after[#[trigger] masks[i]] == values[i]
    &&& forall|mask: u32| #[trigger]
        before.contains_key(mask) && !masks.contains(mask) ==> after[mask] == before[mask]
}

/// Adds the values of coalitions, each listed once, to the cache.
pub fn extend_cache(
    cache: &mut HashMap<u32, Option<Real>>,
    masks: &[u32],
    values: &[Option<Real>],
)
    requires
        masks@.no_duplicates(),
        values@.len() == masks@.len(),
    ensures
        is_extended(old(cache)@, masks@, values@, final(cache)@),
{
    let ghost before = cache@;
    for i in 0..masks.len()
        invariant
            masks@.no_duplicates(),
            values@.len() == masks@.len(),
            forall|mask: u32| #[trigger]
                cache@.contains_key(mask) <==> before.contains_key(mask) || masks@.take(
                    i as int,
                ).contains(mask),
            forall|k: int| 0 <= k < i ==> cache@[#[trigger] masks@[k]] == values@[k],
            forall|mask: u32| #[trigger]
                before.contains_key(mask) && !masks@.take(i as int).contains(mask) ==> cache@[mask]
                    == before[mask],
    {
        let ghost front = masks@.take(i as int);
        assert(masks@.take(i + 1) =~= front.push(masks@[i as int]));
        assert forall|mask: u32|
            #[trigger] front.push(masks@[i as int]).contains(mask) == (front.contains(mask) || mask
                == masks@[i as int]) by {
            crate::lists::pushed(front, masks@[i as int], mask);
        }
        cache.insert(masks[i], values[i]);
    }
    assert(masks@.take(masks@.len() as int) =~= masks@);
}

/// The value of a coalition, where there is one, and else zero.
pub open spec fn value_or_zero(value: Option<Real>) -> Real {
    match value {
        Some(x) => x,
        None => Real { bits: 0 },
    }
}

/// Every coalition that the walk asks for is known.
pub open spec fn is_covered(walk: Walk, cache: Map<u32, Option<Real>>) -> bool {
    forall|j: int|
        0 <= j < walk.perm@.len() ==> cache.contains_key(
            mask_before(walk.perm@, walk.up@, #[trigger] nth(j)),
        ) && cache.contains_key(mask_after(walk.perm@, walk.up@, nth(j)))
}

/// The values before and after each player joins: entry `i` is for player `i`.
pub open spec fn is_reading(
    walk: Walk,
    cache: Map<u32, Option<Real>>,
    pairs: Seq<(Real, Real)>,
) -> bool {
    &&& pairs.len() == walk.perm@.len()
    &&& forall|j: int|
        0 <= j < walk.perm@.len() ==> pairs[walk.perm@[#[trigger] nth(j)] as int] == (
            value_or_zero(cache[mask_before(walk.perm@, walk.up@, j)]),
            value_or_zero(cache[mask_after(walk.perm@, walk.up@, j)]),
        )
}

/// Looks up the value of a coalition.
fn look_up(cache: &HashMap<u32, Option<Real>>, mask: u32) -> (r: Real)
    requires
        cache@.contains_key(mask),
    ensures
        r == value_or_zero(cache@[mask]),
{
    match cache.get(&mask) {
        Some(value) => match *value {
            Some(x) => x,
            None => Real { bits: 0 },
        },
        None => Real { bits: 0 },
    }
}

/// Reads the values before and after each player joins, for each player in the order
/// of their numbers.
pub fn read_walk(walk: &Walk, cache: &HashMap<u32, Option<Real>>) -> (r: Vec<(Real, Real)>)
    requires
        walk.wf(walk.perm@.len() as int),
        walk.perm@.len() <= 32,
        is_covered(*walk, cache@),
    ensures
        is_reading(*walk, cache@, r@),
{
    let n: usize = walk.perm.len();
    let steps = walk.steps();
    let nothing = Real { bits: 0 };
    let mut pairs: Vec<(Real, Real)> = Vec::new();
    for i in 0..n
        invariant
            pairs@.len() == i,
    {
        pairs.push((nothing, nothing));
    }
    for j in 0..n
        invariant
            n == walk.perm@.len(),
            walk.wf(n as int),
            steps@ == steps_of(walk.perm@, walk.up@),
            is_covered(*walk, cache@),
            pairs@.len() == n,
            forall|k: int|
                0 <= k < j ==> pairs@[walk.perm@[#[trigger] nth(k)] as int] == (
                    value_or_zero(cache@[mask_before(walk.perm@, walk.up@, k)]),
                    value_or_zero(cache@[mask_after(walk.perm@, walk.up@, k)]),
                ),
    {
        let i: usize = walk.perm[j];
        let (without, with) = steps[j];
        assert(i < n);
        assert(cache@.contains_key(mask_before(walk.perm@, walk.up@, nth(j as int))));
        let ghost before = pairs@;
        pairs[i] = (look_up(cache, without), look_up(cache, with));
        assert forall|k: int| 0 <= k < j + 1 implies pairs@[walk.perm@[#[trigger] nth(k)] as int]
            == (
            value_or_zero(cache@[mask_before(walk.perm@, walk.up@, k)]),
            value_or_zero(cache@[mask_after(walk.perm@, walk.up@, k)]),
        ) by {
            if k < j {
                assert(walk.perm@[k] != walk.perm@[j as int]);
                assert(walk.perm@[k] < n);
            }
        }
    }
    pairs
}

/// Once the coalitions that walks need are solved and added, reading them never
/// misses.
pub proof fn readings_never_miss(
    walks: Seq<Walk>,
    before: Map<u32, Option<Real>>,
    needed: Seq<u32>,
    values: Seq<Option<Real>>,
    after: Map<u32, Option<Real>>,
    w: int,
)
    requires
        forall|mask: u32| #[trigger]
            needed.contains(mask) <==> is_asked(walks, mask) && !before.contains_key(mask),
        is_extended(before, needed, values, after),
        0 <= w < walks.len(),
    ensures
        is_covered(walks[w], after),
{
    let walk = walks[w];
    assert forall|j: int| 0 <= j < walk.perm@.len() implies after.contains_key(
        mask_before(walk.perm@, walk.up@, #[trigger] nth(j)),
    ) && after.contains_key(mask_after(walk.perm@, walk.up@, nth(j))) by {
        let (a, b) = (mask_before(walk.perm@, walk.up@, j), mask_after(walk.perm@, walk.up@, j));
        assert(is_step(walks[w], nth(j), a));
        assert(is_step(walks[w], nth(j), b));
        assert(is_asked(walks, a) && is_asked(walks, b));
        assert(needed.contains(a) || before.contains_key(a));
        assert(needed.contains(b) || before.contains_key(b));
    }
}

/// What to do after a batch of orders.
#[derive(Clone, Copy, Debug, PartialEq, Eq, Structural)]
pub enum Verdict {
    /// Draw another batch.
    Continue,
    /// Give the values found; whether they converged.
    Stop { converged: bool },
    /// Give up: the most orders are drawn, and still not the fewest.
    GiveUp,
}

/// The verdict after `total` orders with a largest relative standard error of `error`.
pub open spec fn verdict_of(total: int, config: SamplingConfig, error: Real) -> Verdict {
    let converged = error.less_than(config.target_se) || error.equal_to(config.target_se);
    if total >= config.min_samples && (converged || total >= config.max_samples) {
        Verdict::Stop { converged }
    } else if total >= config.max_samples {
        Verdict::GiveUp
    } else {
        Verdict::Continue
    }
}

/// The state of an estimate between its steps: draw a batch of orders, have the
/// coalitions solved that they need, read what each player adds, judge.
#[derive(Debug)]
pub struct Sampler {
    pub n: usize,
    pub uptime: Real,
    pub config: SamplingConfig,
    /// The values of coalitions that are known.
    pub cache: HashMap<u32, Option<Real>>,
    /// How many of them were taken over from an earlier run.
    pub reused: usize,
    /// The orders of the batch at hand.
    pub walks: Vec<Walk>,
    /// The coalitions that they need and that are not known.
    pub needed: Vec<u32>,
    /// How many orders are read.
    pub total: usize,
}

impl Sampler {
    /// The most orders that are ever drawn: the cap, but never fewer than the first batch.
    pub open spec fn most(self) -> usize {
        if self.config.min_samples <= self.config.max_samples {
            self.config.max_samples
        } else {
            self.config.min_samples
        }
    }

    /// The orders are of the players and within the cap, and what they need is what they
    /// ask for beyond what is known.
    pub open spec fn wf(self) -> bool {
        &&& self.n <= 32
        &&& self.total + self.walks@.len() <= self.most()
        &&& walks_valid(self.walks@, self.n as int)
        &&& self.needed@.no_duplicates()
        &&& forall|mask: u32| #[trigger]
            self.needed@.contains(mask) <==> is_asked(self.walks@, mask)
                && !self.cache@.contains_key(mask)
    }

    /// How many orders the next batch has: the fewest that are asked for, and after them
    /// a batch each time, cut to what is left of the cap.
    pub open spec fn batch(self) -> int {
        let left = self.config.max_samples - self.total;
        if self.total == 0 {
            self.config.min_samples as int
        } else if left <= 0 {
            0
        } else if self.config.batch_size <= left {
            self.config.batch_size as int
        } else {
            left
        }
    }

    /// Starts an estimate. Of an earlier run it takes over the values of coalitions
    /// without any player whose bit is in `gate`.
    pub fn start(
        n: usize,
        uptime: Real,
        config: SamplingConfig,
        seed: &HashMap<u32, Option<Real>>,
        gate: u32,
    ) -> (r: Self)
        requires
            n <= 32,
        ensures
            r.wf(),
            r.n == n,
            r.uptime == uptime,
            r.config == config,
            is_admitted(seed@, gate, r.cache@),
            r.reused == r.cache@.len(),
            r.walks@.len() == 0,
            r.total == 0,
    {
        let cache = admit_seed(seed, gate);
        let reused: usize = cache.len();
        Sampler {
            n,
            uptime,
            config,
            cache,
            reused,
            walks: Vec::new(),
            needed: Vec::new(),
            total: 0,
        }
    }

    /// Draws the orders of the next batch and lists the coalitions that they need.
    pub fn draw_batch(&mut self)
        requires
            old(self).wf(),
        ensures
            final(self).wf(),
            final(self).walks@.len() == old(self).batch(),
            forall|w: int|
                0 <= w < final(self).walks@.len() ==> is_drawn(
                    (#[trigger] final(self).walks@[w]).up@,
                    old(self).uptime,
                ),
            final(self).n == old(self).n,
            final(self).uptime == old(self).uptime,
            final(self).config == old(self).config,
            final(self).cache@ == old(self).cache@,
            final(self).reused == old(self).reused,
            final(self).total == old(self).total,
    {
        let size: usize = if self.total == 0 {
            self.config.min_samples
        } else if self.total >= self.config.max_samples {
            0
        } else if self.config.batch_size <= self.config.max_samples - self.total {
            self.config.batch_size
        } else {
            self.config.max_samples - self.total
        };
        let n: usize = self.n;
        let uptime = self.uptime;
        let mut walks: Vec<Walk> = Vec::new();
        for w in 0..size
            invariant
                walks@.len() == w,
                walks_valid(walks@, n as int),
                forall|k: int|
                    0 <= k < walks@.len() ==> is_drawn((#[trigger] walks@[k]).up@, uptime),
        {
            walks.push(draw_walk(n, uptime));
        }
        self.needed = needed_masks(walks.as_slice(), &self.cache, n);
        self.walks = walks;
    }

    /// Takes the values of the coalitions that were needed, and gives for each order of
    /// the batch the values before and after each player joins.
    pub fn take_values(&mut self, values: &[Option<Real>]) -> (r: Vec<Vec<(Real, Real)>>)
        requires
            old(self).wf(),
            values@.len() == old(self).needed@.len(),
        ensures
            final(self).wf(),
            is_extended(old(self).cache@, old(self).needed@, values@, final(self).cache@),
            r@.len() == old(self).walks@.len(),
            forall|w: int|
                0 <= w < r@.len() ==> is_reading(
                    old(self).walks@[w],
                    final(self).cache@,
                    (#[trigger] r@[w])@,
                ),
            final(self).walks@.len() == 0,
            final(self).total == old(self).total + old(self).walks@.len(),
            final(self).n == old(self).n,
            final(self).uptime == old(self).uptime,
            final(self).config == old(self).config,
            final(self).reused == old(self).reused,
    {
        extend_cache(&mut self.cache, self.needed.as_slice(), values);
        let mut readings: Vec<Vec<(Real, Real)>> = Vec::new();
        for w in 0..self.walks.len()
            invariant
                self.n <= 32,
                walks_valid(self.walks@, self.n as int),
                old(self).wf(),
                self.walks@ == old(self).walks@,
                is_extended(old(self).cache@, old(self).needed@, values@, self.cache@),
                readings@.len() == w,
                forall|k: int|
                    0 <= k < w ==> is_reading(
                        self.walks@[k],
                        self.cache@,
                        (#[trigger] readings@[k])@,
                    ),
        {
            proof {
                readings_never_miss(
                    self.walks@,
                    old(self).cache@,
                    old(self).needed@,
                    values@,
                    self.cache@,
                    w as int,
                );
                assert(self.walks@[w as int].wf(self.n as int));
            }
            readings.push(read_walk(&self.walks[w], &self.cache));
        }
        self.total = self.total + self.walks.len();
        self.walks = Vec::new();
        self.needed = Vec::new();
        readings
    }

    /// Judges whether to stop, from the largest relative standard error.
    pub fn judge(&self, error: Real) -> (r: Verdict)
        ensures
            r == verdict_of(self.total as int, self.config, error),
    {
        let converged = error.is_at_most(&self.config.target_se);
        if self.total >= self.config.min_samples && (converged || self.total
            >= self.config.max_samples) {
            Verdict::Stop { converged }
        } else if self.total >= self.config.max_samples {
            Verdict::GiveUp
        } else {
            Verdict::Continue
        }
    }
}

/// The cap is hard: where the fewest orders are no more than the most, an estimate that
/// stops has drawn no fewer than the fewest and no more than the most, and it never gives
/// up.
pub proof fn samples_stay_within(sampler: Sampler, error: Real)
    requires
        sampler.wf(),
        sampler.config.min_samples <= sampler.config.max_samples,
    ensures
        sampler.total + sampler.walks@.len() <= sampler.config.max_samples,
        verdict_of(sampler.total as int, sampler.config, error) is Stop
            ==> sampler.config.min_samples <= sampler.total <= sampler.config.max_samples,
        !(verdict_of(sampler.total as int, sampler.config, error) is GiveUp),
{
}

/// An estimate that goes on draws more, so that it comes to the cap: where batches are
/// not empty, the next one is not.
pub proof fn an_estimate_goes_on(sampler: Sampler, error: Real)
    requires
        sampler.config.min_samples > 0,
        sampler.config.batch_size > 0,
        verdict_of(sampler.total as int, sampler.config, error) is Continue,
    ensures
        sampler.batch() > 0,
{
}

/// The coalition that a player finds are those before it in the order that are up.
pub proof fn coalition_found_is_up(perm: Seq<usize>, up: Seq<bool>, j: int, i: int)
    requires
        is_order(perm, perm.len() as int),
        up.len() == perm.len(),
        perm.len() <= 31,
        0 <= j <= perm.len(),
        0 <= i < perm.len(),
    ensures
        belongs(player_bit(i), mask_before(perm, up, j)) <==> up[i] && exists|l: int|
            0 <= l < j && #[trigger] perm[l] == i,
    decreases j,
{
    let bit = player_bit(i);
    bits_are_apart(i, i);
    let prefix = up_prefix(perm, up, j);
    assert((bit & (prefix | 0x8000_0000u32) != 0) == (bit & prefix != 0)) by (bit_vector)
        requires
            bit & 0x8000_0000u32 == 0,
    ;
    if j == 0 {
        assert(bit & 0u32 == 0) by (bit_vector);
    } else {
        coalition_found_is_up(perm, up, j - 1, i);
        let before = up_prefix(perm, up, j - 1);
        assert((bit & (before | 0x8000_0000u32) != 0) == (bit & before != 0)) by (bit_vector)
            requires
                bit & 0x8000_0000u32 == 0,
        ;
        let p = perm[j - 1] as int;
        assert(perm[j - 1] < perm.len());
        bits_are_apart(i, p);
        let other = player_bit(p);
        assert((bit & (before | other) != 0) == (bit & before != 0 || bit & other != 0))
            by (bit_vector);
        if p == i {
            assert(perm[j - 1] == i);
        }
        if exists|l: int| 0 <= l < j && #[trigger] perm[l] == i {
            let l = choose|l: int| 0 <= l < j && #[trigger] perm[l] == i;
            if l < j - 1 {
                assert(perm[l] == i);
            }
        }
    }
}

} // verus!
