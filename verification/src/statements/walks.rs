//! What an order of the players asks for and what is read of it.
use crate::quantity::{Real, ONE};
use crate::sampling::{
    is_asked, is_order, is_reading, is_step, mask_after, mask_before, nth, orders_for, steps_of,
    up_by, up_prefix, value_or_zero, verdict_of, Sampler, SamplingConfig, Verdict, Walk,
};
use crate::shapley::player_bit;
use vstd::arithmetic::power2::pow2;
use vstd::prelude::*;

verus! {

/// Bit `p` of a mask is set.
pub open spec fn has(mask: u32, p: int) -> bool {
    mask & (1u32 << (p as u32)) != 0
}

/// Player `p` comes among the first `j` of an order and is up.
pub open spec fn precedes(perm: Seq<usize>, up: Seq<bool>, j: int, p: int) -> bool {
    0 <= p < up.len() && up[p] && exists|l: int| 0 <= l < j && #[trigger] perm[l] == p
}

/// The bits that are set one by one are all there is to a mask.
pub proof fn same_bits(a: u32, b: u32)
    requires
        forall|p: int| 0 <= p < 32 ==> #[trigger] has(a, p) == has(b, p),
    ensures
        a == b,
{
    let c = a ^ b;
    if c != 0 {
        let p = some_bit(c, 32);
        assert(has(a, p) == has(b, p));
        let q = p as u32;
        assert((a ^ b) & (1u32 << q) == 0) by (bit_vector)
            requires
                (a & (1u32 << q) != 0) == (b & (1u32 << q) != 0),
                q < 32,
        ;
    }
    assert(a == b) by (bit_vector)
        requires
            a ^ b == 0,
    ;
}

/// A mask below a power of two that is not zero has a bit below it.
pub proof fn some_bit(c: u32, n: nat) -> (p: int)
    requires
        c != 0,
        n <= 32,
        n < 32 ==> c >> (n as u32) == 0,
    ensures
        0 <= p < n,
        has(c, p),
    decreases n,
{
    if n == 0 {
        assert(c >> 0u32 == c) by (bit_vector);
        0
    } else {
        let q = (n - 1) as u32;
        if has(c, n - 1) {
            n - 1
        } else {
            if n == 32 {
                assert(c >> 31u32 == 0) by (bit_vector)
                    requires
                        c & (1u32 << 31u32) == 0,
                ;
            } else {
                assert(c >> q == 0) by (bit_vector)
                    requires
                        c & (1u32 << q) == 0,
                        c >> ((q + 1) as u32) == 0,
                        q < 31,
                ;
            }
            some_bit(c, (n - 1) as nat)
        }
    }
}

/// The coalition of the players before the `j`th that are up has just their bits.
proof fn prefix_bits(perm: Seq<usize>, up: Seq<bool>, j: int, p: int)
    requires
        is_order(perm, perm.len() as int),
        up.len() == perm.len(),
        perm.len() <= 31,
        0 <= j <= perm.len(),
        0 <= p < 32,
    ensures
        has(up_prefix(perm, up, j), p) <==> precedes(perm, up, j, p),
    decreases j,
{
    let q = p as u32;
    if j == 0 {
        assert(0u32 & (1u32 << q) == 0) by (bit_vector);
    } else {
        prefix_bits(perm, up, j - 1, p);
        let i = perm[j - 1] as int;
        assert(perm[j - 1] < perm.len());
        let before = up_prefix(perm, up, j - 1);
        let bit = player_bit(i);
        let k = i as u32;
        assert(((before | (1u32 << k)) & (1u32 << q) != 0) == (before & (1u32 << q) != 0 || k == q))
            by (bit_vector)
            requires
                k < 32,
                q < 32,
        ;
        if up[i] && i == p {
            assert(perm[j - 1] == p);
        }
        if precedes(perm, up, j, p) {
            let l = choose|l: int| 0 <= l < j && #[trigger] perm[l] == p;
            if l < j - 1 {
                assert(perm[l] == p);
            }
        }
        if precedes(perm, up, j - 1, p) {
            let l = choose|l: int| 0 <= l < j - 1 && #[trigger] perm[l] == p;
            assert(perm[l] == p);
        }
    }
}

/// At every step of a walk, the coalition without the player has just those that come
/// before it and are up, and the one with it has the player besides. Both have the bit of
/// the operators that are always there, and no other.
pub proof fn a_step_adds_its_player(
    steps: Seq<(u32, u32)>,
    perm: Seq<usize>,
    up: Seq<bool>,
    j: int,
)
    requires
        steps == steps_of(perm, up),
        is_order(perm, perm.len() as int),
        up.len() == perm.len(),
        perm.len() <= 31,
        0 <= j < perm.len(),
    ensures
        steps.len() == perm.len(),
        forall|p: int|
            0 <= p < 32 ==> (#[trigger] has(steps[j].0, p) <==> p == 31 || precedes(
                perm,
                up,
                j,
                p,
            )),
        forall|p: int|
            0 <= p < 32 ==> (#[trigger] has(steps[j].1, p) <==> p == perm[j] || has(
                steps[j].0,
                p,
            )),
{
    let (before, with) = steps[j];
    let prefix = up_prefix(perm, up, j);
    let k = perm[j] as u32;
    assert forall|p: int| 0 <= p < 32 implies (#[trigger] has(before, p) <==> p == 31 || precedes(
        perm,
        up,
        j,
        p,
    )) && (has(with, p) <==> p == perm[j] || has(before, p)) by {
        prefix_bits(perm, up, j, p);
        let q = p as u32;
        assert(((prefix | 0x8000_0000u32) & (1u32 << q) != 0) == (prefix & (1u32 << q) != 0 || q
            == 31)) by (bit_vector)
            requires
                q < 32,
        ;
        assert(((prefix | (1u32 << k) | 0x8000_0000u32) & (1u32 << q) != 0) == ((prefix
            | 0x8000_0000u32) & (1u32 << q) != 0 || k == q)) by (bit_vector)
            requires
                q < 32,
                k < 32,
        ;
    }
    assert forall|p: int| 0 <= p < 32 implies (#[trigger] has(with, p) <==> p == perm[j] || has(
        before,
        p,
    )) by {
        assert(has(before, p) <==> p == 31 || precedes(perm, up, j, p));
    }
}

/// What is read of a walk for a player: the values of the coalition that it finds and of
/// that coalition with it, whatever masks stand for these.
pub proof fn readings_are_of_the_steps(
    walk: Walk,
    cache: Map<u32, Option<Real>>,
    pairs: Seq<(Real, Real)>,
    j: int,
    before: u32,
    with: u32,
)
    requires
        is_reading(walk, cache, pairs),
        walk.wf(walk.perm@.len() as int),
        walk.perm@.len() <= 31,
        0 <= j < walk.perm@.len(),
        forall|p: int|
            0 <= p < 32 ==> (#[trigger] has(before, p) <==> p == 31 || precedes(
                walk.perm@,
                walk.up@,
                j,
                p,
            )),
        forall|p: int|
            0 <= p < 32 ==> (#[trigger] has(with, p) <==> p == walk.perm@[j] || has(before, p)),
    ensures
        pairs.len() == walk.perm@.len(),
        pairs[walk.perm@[j] as int].0 == match cache[before] {
            Some(x) => x,
            None => Real { bits: 0 },
        },
        pairs[walk.perm@[j] as int].1 == match cache[with] {
            Some(x) => x,
            None => Real { bits: 0 },
        },
{
    let (perm, up) = (walk.perm@, walk.up@);
    let steps = steps_of(perm, up);
    a_step_adds_its_player(steps, perm, up, j);
    assert forall|p: int| 0 <= p < 32 implies #[trigger] has(before, p) == has(steps[j].0, p) by {}
    same_bits(before, steps[j].0);
    assert forall|p: int| 0 <= p < 32 implies #[trigger] has(with, p) == has(steps[j].1, p) by {
        assert(has(before, p) == has(steps[j].0, p));
    }
    same_bits(with, steps[j].1);
    assert(nth(j) == j);
    assert(pairs[perm[nth(j)] as int] == (
        value_or_zero(cache[mask_before(perm, up, j)]),
        value_or_zero(cache[mask_after(perm, up, j)]),
    ));
}

/// The coalitions to solve for walks are those of their steps that are not known, each
/// once.
pub proof fn needed_are_the_steps(sampler: Sampler)
    requires
        sampler.wf(),
    ensures
        sampler.needed@.no_duplicates(),
        forall|w: int, j: int|
            #![trigger sampler.walks@[w].perm@[j]]
            0 <= w < sampler.walks@.len() && 0 <= j < sampler.walks@[w].perm@.len() ==> {
                let step = steps_of(sampler.walks@[w].perm@, sampler.walks@[w].up@)[j];
                &&& sampler.needed@.contains(step.0) <==> !sampler.cache@.contains_key(step.0)
                &&& sampler.needed@.contains(step.1) <==> !sampler.cache@.contains_key(step.1)
            },
        forall|mask: u32| #[trigger]
            sampler.needed@.contains(mask) ==> exists|w: int, j: int|
                #![trigger sampler.walks@[w].perm@[j]]
                0 <= w < sampler.walks@.len() && 0 <= j < sampler.walks@[w].perm@.len() && {
                    let step = steps_of(sampler.walks@[w].perm@, sampler.walks@[w].up@)[j];
                    mask == step.0 || mask == step.1
                },
{
    let walks = sampler.walks@;
    assert forall|w: int, j: int|
        #![trigger walks[w].perm@[j]]
        0 <= w < walks.len() && 0 <= j < walks[w].perm@.len() implies {
        let step = steps_of(walks[w].perm@, walks[w].up@)[j];
        &&& sampler.needed@.contains(step.0) <==> !sampler.cache@.contains_key(step.0)
        &&& sampler.needed@.contains(step.1) <==> !sampler.cache@.contains_key(step.1)
    } by {
        let step = steps_of(walks[w].perm@, walks[w].up@)[j];
        assert(is_step(walks[w], nth(j), step.0));
        assert(is_step(walks[w], nth(j), step.1));
        assert(is_asked(walks, step.0) && is_asked(walks, step.1));
    }
    assert forall|mask: u32| #[trigger] sampler.needed@.contains(mask) implies exists|w: int, j: int|
        #![trigger walks[w].perm@[j]]
        0 <= w < walks.len() && 0 <= j < walks[w].perm@.len() && {
            let step = steps_of(walks[w].perm@, walks[w].up@)[j];
            mask == step.0 || mask == step.1
        } by {
        assert(is_asked(walks, mask));
        let (w, j) = choose|w: int, j: int|
            0 <= w < walks.len() && 0 <= j < walks[w].perm@.len() && is_step(
                #[trigger] walks[w],
                #[trigger] nth(j),
                mask,
            );
        assert(nth(j) == j);
        let x = walks[w].perm@[j];
    }
}

/// After the first batch, each has the size asked for, or is what is left of the cap where
/// that is less; the first has the fewest orders asked for.
pub proof fn batches_have_their_size(sampler: Sampler)
    ensures
        sampler.total == 0 ==> sampler.batch() == sampler.config.min_samples,
        0 < sampler.total < sampler.config.max_samples ==> {
            &&& sampler.batch() <= sampler.config.batch_size
            &&& sampler.total + sampler.batch() <= sampler.config.max_samples
            &&& sampler.batch() == sampler.config.batch_size || sampler.total + sampler.batch()
                == sampler.config.max_samples
        },
        sampler.total > 0 && sampler.total >= sampler.config.max_samples ==> sampler.batch() == 0,
{
}

/// When an estimate stops: never before the fewest orders, always at the cap once these are
/// drawn, before it just where the error is no larger than asked for; and it says that it
/// converged just there.
pub proof fn estimates_stop_when_they_should(total: int, config: SamplingConfig, error: Real)
    ensures
        ({
            let small = !config.target_se.less_than(error) && !error.nan()
                && !config.target_se.nan();
            let v = verdict_of(total, config, error);
            &&& v is Stop ==> total >= config.min_samples
            &&& total >= config.min_samples && total >= config.max_samples ==> v is Stop
            &&& config.min_samples <= total < config.max_samples ==> (v is Stop <==> small)
            &&& v matches Verdict::Stop { converged } ==> converged == small
            &&& v is GiveUp <==> config.max_samples <= total < config.min_samples
        }),
{
}

/// At an uptime below one, a player is up just where its draw, counted in units of 2 to the
/// -53, lies below the uptime so counted: of 2 to the 53 draws, as many as the uptime asks.
pub proof fn draws_below_count(uptime: Real, words: Seq<u64>, c: int, i: int)
    requires
        0 <= i < words.len(),
        uptime.finite(),
        !uptime.negative(),
        uptime.units() == c * pow2(1021),
        0 <= c < 0x20_0000_0000_0000,
        uptime.less_than(Real { bits: ONE }),
    ensures
        up_by(uptime, words).len() == words.len(),
        up_by(uptime, words)[i] <==> words[i] / 2048 < c,
{
    vstd::arithmetic::power2::lemma_pow2_pos(1021);
    let (w, h) = ((words[i] / 2048) as int, pow2(1021) as int);
    assert(w * h < c * h <==> w < c) by (nonlinear_arith)
        requires
            h > 0,
    ;
}

/// At an uptime of one, or of anything that is not below one, everybody is up.
pub proof fn everybody_is_up_at_full_uptime(uptime: Real, words: Seq<u64>, i: int)
    requires
        0 <= i < words.len(),
        !uptime.less_than(Real { bits: 0x3FF0_0000_0000_0000 }),
    ensures
        up_by(uptime, words).len() == words.len(),
        up_by(uptime, words)[i],
{
}

/// At an uptime below zero, or of zero, nobody is up.
pub proof fn nobody_is_up_without_uptime(uptime: Real, words: Seq<u64>, i: int)
    requires
        0 <= i < words.len(),
        uptime.less_than(Real { bits: 1 }),
    ensures
        !up_by(uptime, words)[i],
{
    if !uptime.negative() {
        assert(uptime.bits == 0);
        assert(uptime.units() == 0);
        vstd::arithmetic::power2::lemma_pow2_pos(1021);
        let (w, h) = ((words[i] / 2048) as int, pow2(1021) as int);
        assert(w * h >= 0) by (nonlinear_arith)
            requires
                w >= 0,
                h > 0,
        ;
    }
}

/// Of an earlier run just the values are admitted of coalitions that hold no player whose bit
/// bars them, as they are.
pub proof fn seeds_are_admitted(
    seed: Map<u32, Option<Real>>,
    gate: u32,
    admitted: Map<u32, Option<Real>>,
    mask: u32,
)
    requires
        crate::sampling::is_admitted(seed, gate, admitted),
    ensures
        admitted.contains_key(mask) <==> seed.contains_key(mask) && forall|p: int|
            0 <= p < 32 ==> !(#[trigger] has(mask, p) && has(gate, p)),
        admitted.contains_key(mask) ==> admitted[mask] == seed[mask],
{
    if mask & gate == 0 {
        assert forall|p: int| 0 <= p < 32 implies !(#[trigger] has(mask, p) && has(gate, p)) by {
            let b = p as u32;
            assert(!(mask & (1u32 << b) != 0 && gate & (1u32 << b) != 0)) by (bit_vector)
                requires
                    mask & gate == 0,
            ;
        }
    } else {
        let p = some_bit(mask & gate, 32);
        let b = p as u32;
        assert(mask & (1u32 << b) != 0 && gate & (1u32 << b) != 0) by (bit_vector)
            requires
                (mask & gate) & (1u32 << b) != 0,
        ;
        assert(has(mask, p) && has(gate, p));
    }
    assert(admitted.contains_key(mask) <==> seed.contains_key(mask) && mask & gate == 0);
}

/// Answers are added to what is known: each coalition that was asked for has its answer, and
/// what was known of others stays.
pub proof fn answers_are_added(
    before: Map<u32, Option<Real>>,
    masks: Seq<u32>,
    values: Seq<Option<Real>>,
    after: Map<u32, Option<Real>>,
    mask: u32,
)
    requires
        crate::sampling::is_extended(before, masks, values, after),
    ensures
        forall|i: int| 0 <= i < masks.len() ==> after.contains_key(#[trigger] masks[i])
            && after[masks[i]] == values[i],
        (forall|i: int| 0 <= i < masks.len() ==> #[trigger] masks[i] != mask) ==> (
        after.contains_key(mask) <==> before.contains_key(mask)) && (before.contains_key(mask)
            ==> after[mask] == before[mask]),
{
    assert forall|i: int| 0 <= i < masks.len() implies after.contains_key(#[trigger] masks[i])
        && after[masks[i]] == values[i] by {
        assert(masks.contains(masks[i]));
    }
    if forall|i: int| 0 <= i < masks.len() ==> #[trigger] masks[i] != mask {
        assert(!masks.contains(mask));
    }
}

/// A larger problem never asks for more orders, and a trial never for as many as the same
/// problem in earnest. Only whether there are more than two thousand demands matters.
pub proof fn larger_problems_take_fewer_orders(n: usize, m: usize, trial: bool)
    ensures
        n <= m ==> orders_for(m, trial).0 <= orders_for(n, trial).0 && orders_for(m, trial).1
            <= orders_for(n, trial).1,
        orders_for(n, trial) == orders_for(m, trial) <==> (n > 2000) == (m > 2000),
        orders_for(n, true).0 + 10 == orders_for(n, false).0,
        orders_for(n, true).1 < orders_for(n, false).1,
        orders_for(n, trial).0 <= orders_for(n, trial).1,
{
}

} // verus!
