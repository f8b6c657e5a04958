use vstd::prelude::*;

verus! {

use vstd::arithmetic::power2::lemma2_to64;
use crate::coin_flip::{Coin, FlipResult, saw_heads, saw_tails, is_trial_draws};
use crate::source::CoinSource;

/// Upper bound on the rounds of `RunUntilTerminated`; it keeps the loop finite
/// where no round ever ends the cascade and the copies stop growing.
pub const MAX_ROUNDS: usize = usize::MAX;

/// When the controller stops repeating rounds.
#[derive(Debug, Clone, Copy, PartialEq, Eq, Structural)]
pub enum TerminationPolicy {
    /// Repeat rounds while the last one saw tails and the copies have room.
    RunUntilTerminated,
    /// Repeat rounds exactly `fixed_iterations` times.
    FixedCount,
}

/// What one simulation is asked to do.
#[derive(Debug, Clone, Copy, PartialEq, Eq, Structural)]
pub struct SimulationParameters {
    /// Coins flipped in each round (one coin per trial).
    pub stacking_factor: usize,
    /// Rounds played under `FixedCount`.
    pub fixed_iterations: usize,
    pub termination_policy: TerminationPolicy,
}

/// The two counters one simulation produces.
#[derive(Debug, Clone, Copy, PartialEq, Eq, Structural)]
pub struct SimulationResult {
    pub copy_count: usize,
    pub total_coins_flipped: usize,
}

/// `x`, clamped to `ceiling`.
pub open spec fn clamp(x: int, ceiling: int) -> int {
    if x < ceiling {
        x
    } else {
        ceiling
    }
}

/// Copies that one round with draws `c` yields: one for each draw but the
/// first tails, and one more where no tails came at all.
pub open spec fn round_copies(c: Seq<bool>) -> nat {
    if saw_tails(c) {
        (c.len() - 1) as nat
    } else {
        c.len() + 1
    }
}

/// The draws of round `r` where every round draws `k` coins.
pub open spec fn round_draws(d: Seq<bool>, k: nat, r: nat) -> Seq<bool> {
    d.subrange((r * k) as int, (r * k + k) as int)
}

/// Copies of the first `m` rounds, each drawing `k` coins from `d`.
pub open spec fn copies(d: Seq<bool>, k: nat, m: nat) -> nat
    decreases m,
{
    if m == 0 {
        0
    } else {
        copies(d, k, (m - 1) as nat) + round_copies(round_draws(d, k, (m - 1) as nat))
    }
}

/// Under `RunUntilTerminated`, round `r` is played: it is the first round, or
/// the round before saw tails; the copies so far are below the ceiling; and the
/// round bound is not reached.
pub open spec fn continues(d: Seq<bool>, k: nat, r: nat, ceiling: nat) -> bool {
    &&& r == 0 || saw_tails(round_draws(d, k, (r - 1) as nat))
    &&& clamp(copies(d, k, r) as int, ceiling as int) != ceiling
    &&& r < MAX_ROUNDS
}

/// Under `RunUntilTerminated`, exactly `m` rounds of `k` coins drew `d`.
pub open spec fn stops_after(d: Seq<bool>, k: nat, m: nat, ceiling: nat) -> bool {
    &&& d.len() == m * k
    &&& forall|r: nat| r < m ==> #[trigger] continues(d, k, r, ceiling)
    &&& !continues(d, k, m, ceiling)
}

/// The result of `m` rounds of `k` coins that drew `d`.
pub open spec fn tally(d: Seq<bool>, k: nat, m: nat, ceiling: nat) -> SimulationResult {
    SimulationResult {
        copy_count: clamp(copies(d, k, m) as int, ceiling as int) as usize,
        total_coins_flipped: clamp((m * k) as int, ceiling as int) as usize,
    }
}

/// A simulation of `p`, with counters clamped at `ceiling`, that turned the
/// source `before` into `after` gave `res`.
pub open spec fn simulated(
    p: SimulationParameters,
    ceiling: nat,
    before: CoinSource,
    after: CoinSource,
    res: SimulationResult,
) -> bool {
    let d = after@.subrange(before@.len() as int, after@.len() as int);
    let k = p.stacking_factor as nat;
    &&& before.yields(after, d)
    &&& match p.termination_policy {
        TerminationPolicy::FixedCount => {
            &&& d.len() == p.fixed_iterations * k
            &&& res == tally(d, k, p.fixed_iterations as nat, ceiling)
        },
        TerminationPolicy::RunUntilTerminated => exists|m: nat|
            stops_after(d, k, m, ceiling) && res == #[trigger] tally(d, k, m, ceiling),
    }
}

proof fn lemma_mul_succ(m: nat, k: nat)
    ensures
        (m + 1) * k == m * k + k,
        m * k + k <= (m + 1) * k,
{
    assert((m + 1) * k == m * k + k) by (nonlinear_arith);
}

proof fn lemma_mul_mono(a: nat, b: nat, k: nat)
    requires
        a <= b,
    ensures
        a * k <= b * k,
{
    assert(a * k <= b * k) by (nonlinear_arith)
        requires
            a <= b,
    ;
}

/// The first `m` rounds depend only on the first `m * k` draws.
proof fn lemma_copies_prefix(d: Seq<bool>, e: Seq<bool>, k: nat, m: nat)
    requires
        m * k <= d.len(),
    ensures
        copies(d + e, k, m) == copies(d, k, m),
        forall|r: nat| r < m ==> #[trigger] round_draws(d + e, k, r) == round_draws(d, k, r),
    decreases m,
{
    if m > 0 {
        let r = (m - 1) as nat;
        lemma_mul_succ(r, k);
        lemma_copies_prefix(d, e, k, r);
        assert(round_draws(d + e, k, r) =~= round_draws(d, k, r));
        assert forall|q: nat| q < m implies #[trigger] round_draws(d + e, k, q) == round_draws(d, k, q) by {
            if q < r {
            } else {
                assert(q == r);
            }
        }
    }
}

/// Appending the draws `c` of one more round.
proof fn lemma_copies_extend(d: Seq<bool>, c: Seq<bool>, k: nat, m: nat)
    requires
        d.len() == m * k,
        c.len() == k,
    ensures
        (d + c).len() == (m + 1) * k,
        round_draws(d + c, k, m) == c,
        copies(d + c, k, m + 1) == copies(d, k, m) + round_copies(c),
{
    lemma_mul_succ(m, k);
    lemma_copies_prefix(d, c, k, m);
    assert(round_draws(d + c, k, m) =~= c);
}

/// Whether round `r` is played depends only on the draws before it.
proof fn lemma_continues_prefix(d: Seq<bool>, e: Seq<bool>, k: nat, r: nat, ceiling: nat)
    requires
        r * k <= d.len(),
    ensures
        continues(d + e, k, r, ceiling) == continues(d, k, r, ceiling),
{
    lemma_copies_prefix(d, e, k, r);
    if r > 0 {
        assert(round_draws(d + e, k, (r - 1) as nat) == round_draws(d, k, (r - 1) as nat));
    }
}

/// Under `FixedCount` with no coins per round, every round adds one copy.
proof fn lemma_copies_no_coins(d: Seq<bool>, m: nat)
    ensures
        copies(d, 0, m) == m,
    decreases m,
{
    if m > 0 {
        lemma_copies_no_coins(d, (m - 1) as nat);
        assert(round_draws(d, 0, (m - 1) as nat) =~= Seq::<bool>::empty());
    }
}

/// With a stacking factor of zero no coin is flipped, and each round yields
/// the one copy of a round that saw no tails: `fixed_iterations` copies under
/// `FixedCount`, a single round under `RunUntilTerminated`.
pub proof fn lemma_no_coins(
    p: SimulationParameters,
    ceiling: nat,
    before: CoinSource,
    after: CoinSource,
    res: SimulationResult,
)
    requires
        simulated(p, ceiling, before, after, res),
        p.stacking_factor == 0,
        ceiling <= usize::MAX,
    ensures
        res.total_coins_flipped == 0,
        after@ == before@,
        p.termination_policy == TerminationPolicy::FixedCount ==> res.copy_count == clamp(
            p.fixed_iterations as int,
            ceiling as int,
        ),
        p.termination_policy == TerminationPolicy::RunUntilTerminated ==> res.copy_count
            == clamp(1, ceiling as int),
{
    let d = after@.subrange(before@.len() as int, after@.len() as int);
    match p.termination_policy {
        TerminationPolicy::FixedCount => {
            lemma_copies_no_coins(d, p.fixed_iterations as nat);
        },
        TerminationPolicy::RunUntilTerminated => {
            let m = choose|m: nat|
                stops_after(d, 0, m, ceiling) && res == #[trigger] tally(d, 0, m, ceiling);
            lemma_copies_no_coins(d, m);
            lemma_copies_no_coins(d, 1);
            if m >= 2 {
                assert(continues(d, 0, 1, ceiling));
                assert(round_draws(d, 0, 0) =~= Seq::<bool>::empty());
            }
        },
    }
    assert(after@ =~= before@ + d);
}

/// Copies of `m` rounds that drew only tails: `k - 1` each.
proof fn lemma_copies_all_tails(d: Seq<bool>, k: nat, m: nat)
    requires
        k >= 1,
        m * k <= d.len(),
        forall|i: int| 0 <= i < d.len() ==> !#[trigger] d[i],
    ensures
        copies(d, k, m) == m * (k - 1),
    decreases m,
{
    if m > 0 {
        let r = (m - 1) as nat;
        lemma_mul_succ(r, k);
        lemma_copies_all_tails(d, k, r);
        let c = round_draws(d, k, r);
        assert(c.len() == k);
        assert(!c[0]);
        assert(saw_tails(c));
        assert(round_copies(c) == k - 1);
        assert(copies(d, k, m) == copies(d, k, r) + round_copies(c));
        assert(m * (k - 1) == r * (k - 1) + (k - 1)) by (nonlinear_arith)
            requires
                m == r + 1,
        ;
    } else {
        assert(m * (k - 1) == 0) by (nonlinear_arith)
            requires
                m == 0,
        ;
    }
}

/// Where every coin comes up tails, `RunUntilTerminated` never ends on a round
/// without tails: it stops only once the copies reach the ceiling (or the
/// round bound is hit), each round having added `k - 1` copies.
pub proof fn lemma_all_tails_runs_to_ceiling(d: Seq<bool>, k: nat, m: nat, ceiling: nat)
    requires
        k >= 1,
        stops_after(d, k, m, ceiling),
        forall|i: int| 0 <= i < d.len() ==> !#[trigger] d[i],
    ensures
        copies(d, k, m) == m * (k - 1),
        clamp(copies(d, k, m) as int, ceiling as int) == ceiling || m == MAX_ROUNDS,
{
    lemma_copies_all_tails(d, k, m);
    if m > 0 {
        let r = (m - 1) as nat;
        lemma_mul_succ(r, k);
        let c = round_draws(d, k, r);
        assert(!c[0]);
        assert(saw_tails(c));
    }
    if m > MAX_ROUNDS {
        assert(continues(d, k, MAX_ROUNDS as nat, ceiling));
    }
}

/// Two scripted sources with the same upcoming flips draw the same coins
/// under the same parameters, and give the same result.
pub proof fn lemma_run_deterministic(
    p: SimulationParameters,
    ceiling: nat,
    s1: CoinSource,
    a1: CoinSource,
    r1: SimulationResult,
    s2: CoinSource,
    a2: CoinSource,
    r2: SimulationResult,
)
    requires
        simulated(p, ceiling, s1, a1, r1),
        simulated(p, ceiling, s2, a2, r2),
        forall|i: nat| #[trigger] s1.upcoming(i) is Some && s1.upcoming(i) == s2.upcoming(i),
    ensures
        r1 == r2,
        a1@.subrange(s1@.len() as int, a1@.len() as int) == a2@.subrange(
            s2@.len() as int,
            a2@.len() as int,
        ),
{
    let d1 = a1@.subrange(s1@.len() as int, a1@.len() as int);
    let d2 = a2@.subrange(s2@.len() as int, a2@.len() as int);
    let k = p.stacking_factor as nat;
    assert forall|i: int| 0 <= i < d1.len() && i < d2.len() implies d1[i] == d2[i] by {
        assert(s1.upcoming(i as nat) is Some);
        assert(s2.upcoming(i as nat) is Some);
    }
    match p.termination_policy {
        TerminationPolicy::FixedCount => {
            assert(d1 =~= d2);
        },
        TerminationPolicy::RunUntilTerminated => {
            let m1 = choose|m: nat|
                stops_after(d1, k, m, ceiling) && r1 == #[trigger] tally(d1, k, m, ceiling);
            let m2 = choose|m: nat|
                stops_after(d2, k, m, ceiling) && r2 == #[trigger] tally(d2, k, m, ceiling);
            if m1 < m2 {
                lemma_mul_mono(m1, m2, k);
                let e = d2.skip(d1.len() as int);
                assert(d2 =~= d1 + e);
                assert(continues(d2, k, m1, ceiling));
                lemma_continues_prefix(d1, e, k, m1, ceiling);
            } else if m2 < m1 {
                lemma_mul_mono(m2, m1, k);
                let e = d1.skip(d2.len() as int);
                assert(d1 =~= d2 + e);
                assert(continues(d1, k, m2, ceiling));
                lemma_continues_prefix(d2, e, k, m2, ceiling);
            }
            assert(d1 =~= d2);
        },
    }
}

/// `x + y`, saturating at `ceiling`.
pub fn add_capped(x: usize, y: usize, ceiling: usize) -> (r: usize)
    requires
        x <= ceiling,
    ensures
        r == clamp(x + y, ceiling as int),
{
    if y >= ceiling - x {
        ceiling
    } else {
        x + y
    }
}

/// One round: flips `krark_count` single coins, adding the round's copies to
/// `copy_count` and one per coin to `total_coins_flipped`, both saturating at
/// `ceiling`. Returns whether the round saw tails.
pub fn play_round(
    src: &mut CoinSource,
    krark_count: usize,
    ceiling: usize,
    copy_count: &mut usize,
    total_coins_flipped: &mut usize,
) -> (tails_seen: bool)
    requires
        old(src).wf(),
        *old(copy_count) <= ceiling,
        *old(total_coins_flipped) <= ceiling,
    ensures
        ({
            let c = final(src)@.subrange(old(src)@.len() as int, final(src)@.len() as int);
            &&& old(src).yields(*final(src), c)
            &&& c.len() == krark_count
            &&& tails_seen == saw_tails(c)
            &&& *final(copy_count) == clamp(*old(copy_count) + round_copies(c), ceiling as int)
            &&& *final(total_coins_flipped) == clamp(
                *old(total_coins_flipped) + krark_count,
                ceiling as int,
            )
        }),
{
    let ghost start = *src;
    let ghost copies0 = *copy_count as nat;
    let ghost total0 = *total_coins_flipped as nat;
    let ghost mut c: Seq<bool> = Seq::empty();
    let mut tails_seen = false;
    let mut flips = Coin::flip(0, krark_count);
    let mut i: usize = 0;
    proof {
        lemma2_to64();
        start.lemma_yields_none();
    }
    while i < krark_count
        invariant
            start.yields(*src, c),
            c.len() == i,
            i <= krark_count,
            flips.coins() == 1,
            flips.remaining() == krark_count - i,
            tails_seen == saw_tails(c),
            *copy_count <= ceiling,
            *copy_count == clamp(
                copies0 + (if tails_seen { i - 1 } else { i as int }),
                ceiling as int,
            ),
            *total_coins_flipped == clamp(total0 + i, ceiling as int),
        decreases krark_count - i,
    {
        let ghost before = *src;
        let flip = flips.next(src);
        let ghost t = src@.subrange(before@.len() as int, src@.len() as int);
        proof {
            assert(is_trial_draws(t, 1));
            if t.len() == 0 {
                assert(!saw_heads(t));
            }
            assert(t =~= seq![t[0]]);
            if t[0] {
                assert(saw_heads(t));
                assert(!saw_tails(t));
            } else {
                assert(saw_tails(t));
                assert(!saw_heads(t));
            }
            start.lemma_yields_trans(before, *src, c, t);
            let prev = c;
            c = prev + t;
            assert(c[i as int] == t[0]);
            assert forall|q: int| 0 <= q < i implies c[q] == prev[q] by {}
            if t[0] {
                assert(saw_tails(c) == saw_tails(prev));
            } else {
                assert(saw_tails(c));
            }
        }
        if !tails_seen && (flip == Some(FlipResult::Tails) || flip == Some(FlipResult::Both)) {
            tails_seen = true;
        } else {
            *copy_count = add_capped(*copy_count, 1, ceiling);
        }
        *total_coins_flipped = add_capped(*total_coins_flipped, 1, ceiling);
        i = i + 1;
    }
    if !tails_seen {
        *copy_count = add_capped(*copy_count, 1, ceiling);
    }
    proof {
        assert(src@.subrange(start@.len() as int, src@.len() as int) =~= c);
    }
    tails_seen
}

/// Runs the cascade of `params` on coins from `src`, with both counters
/// saturating at `ceiling` instead of the largest `usize`.
pub fn run_with_ceiling(params: SimulationParameters, src: &mut CoinSource, ceiling: usize) -> (res:
    SimulationResult)
    requires
        old(src).wf(),
    ensures
        simulated(params, ceiling as nat, *old(src), *final(src), res),
{
    let ghost start = *src;
    let ghost mut d: Seq<bool> = Seq::empty();
    let ghost k = params.stacking_factor as nat;
    let mut copy_count: usize = 0;
    let mut total_coins_flipped: usize = 0;
    let mut rounds: usize = 0;
    proof {
        start.lemma_yields_none();
    }
    match params.termination_policy {
        TerminationPolicy::RunUntilTerminated => {
            let mut tails_seen = true;
            while tails_seen && copy_count != ceiling && rounds < MAX_ROUNDS
                invariant
                    start.yields(*src, d),
                    k == params.stacking_factor,
                    d.len() == rounds * k,
                    copy_count <= ceiling,
                    total_coins_flipped <= ceiling,
                    copy_count == clamp(copies(d, k, rounds as nat) as int, ceiling as int),
                    total_coins_flipped == clamp((rounds * k) as int, ceiling as int),
                    tails_seen == (rounds == 0 || saw_tails(
                        round_draws(d, k, (rounds - 1) as nat),
                    )),
                    forall|r: nat| r < rounds ==> #[trigger] continues(d, k, r, ceiling as nat),
                decreases MAX_ROUNDS - rounds,
            {
                let ghost before = *src;
                proof {
                    assert(continues(d, k, rounds as nat, ceiling as nat));
                }
                tails_seen = play_round(
                    src,
                    params.stacking_factor,
                    ceiling,
                    &mut copy_count,
                    &mut total_coins_flipped,
                );
                proof {
                    let c = src@.subrange(before@.len() as int, src@.len() as int);
                    let prev = d;
                    start.lemma_yields_trans(before, *src, prev, c);
                    lemma_copies_extend(prev, c, k, rounds as nat);
                    d = prev + c;
                    assert forall|r: nat| r < rounds + 1 implies #[trigger] continues(
                        d,
                        k,
                        r,
                        ceiling as nat,
                    ) by {
                        lemma_mul_mono(r, rounds as nat, k);
                        lemma_continues_prefix(prev, c, k, r, ceiling as nat);
                    }
                }
                rounds = rounds + 1;
            }
            proof {
                assert(stops_after(d, k, rounds as nat, ceiling as nat));
            }
        },
        TerminationPolicy::FixedCount => {
            while rounds < params.fixed_iterations
                invariant
                    start.yields(*src, d),
                    rounds <= params.fixed_iterations,
                    k == params.stacking_factor,
                    d.len() == rounds * k,
                    copy_count <= ceiling,
                    total_coins_flipped <= ceiling,
                    copy_count == clamp(copies(d, k, rounds as nat) as int, ceiling as int),
                    total_coins_flipped == clamp((rounds * k) as int, ceiling as int),
                decreases params.fixed_iterations - rounds,
            {
                let ghost before = *src;
                play_round(
                    src,
                    params.stacking_factor,
                    ceiling,
                    &mut copy_count,
                    &mut total_coins_flipped,
                );
                proof {
                    let c = src@.subrange(before@.len() as int, src@.len() as int);
                    let prev = d;
                    start.lemma_yields_trans(before, *src, prev, c);
                    lemma_copies_extend(prev, c, k, rounds as nat);
                    d = prev + c;
                }
                rounds = rounds + 1;
            }
        },
    }
    let res = SimulationResult { copy_count, total_coins_flipped };
    proof {
        assert(src@.subrange(start@.len() as int, src@.len() as int) =~= d);
        assert(res == tally(d, k, rounds as nat, ceiling as nat));
    }
    res
}

/// Runs the cascade of `params` on coins from `src`; both counters saturate at
/// the largest `usize`.
pub fn run(params: SimulationParameters, src: &mut CoinSource) -> (res: SimulationResult)
    requires
        old(src).wf(),
    ensures
        simulated(params, usize::MAX as nat, *old(src), *final(src), res),
{
    run_with_ceiling(params, src, usize::MAX)
}

} // verus!
