use vstd::prelude::*;

verus! {

use vstd::arithmetic::power2::{pow2, lemma2_to64, lemma_pow2_unfold, lemma_pow2_strictly_increases};
use crate::source::CoinSource;

/// How one trial of simultaneous coins came out.
#[derive(Debug, Clone, Copy, PartialEq, Eq, Hash, Structural)]
pub enum FlipResult {
    /// Every coin drawn came up heads.
    Heads,
    /// Every coin drawn came up tails, or no coin was drawn at all.
    Tails,
    /// At least one heads and at least one tails were drawn.
    Both,
}

/// Ways a player may resolve a trial; the cascade does not consult them.
pub enum FlipStrategy {
    Conservative,
    Greedy,
}

/// State shared by the parts of a game; it holds nothing yet.
pub struct GameContext {}

/// Entry point of the trial generator.
pub struct Coin;

/// Some draw came up heads.
pub open spec fn saw_heads(d: Seq<bool>) -> bool {
    exists|k: int| 0 <= k < d.len() && #[trigger] d[k]
}

/// Some draw came up tails.
pub open spec fn saw_tails(d: Seq<bool>) -> bool {
    exists|k: int| 0 <= k < d.len() && !#[trigger] d[k]
}

/// The outcome of a trial whose draws were `d`.
pub open spec fn classify(d: Seq<bool>) -> FlipResult {
    if saw_heads(d) && saw_tails(d) {
        FlipResult::Both
    } else if saw_heads(d) {
        FlipResult::Heads
    } else {
        FlipResult::Tails
    }
}

/// Coins per trial: `2^thumb_count`, clamped to the largest `usize`.
pub open spec fn coin_count(thumb_count: nat) -> nat {
    if pow2(thumb_count) <= usize::MAX {
        pow2(thumb_count)
    } else {
        usize::MAX as nat
    }
}

/// `d` is what one trial of `coins` coins draws: coins one at a time, up to
/// `coins` of them, stopping as soon as both faces have shown up.
pub open spec fn is_trial_draws(d: Seq<bool>, coins: nat) -> bool {
    &&& d.len() <= coins
    &&& d.len() < coins ==> saw_heads(d) && saw_tails(d)
    &&& d.len() > 0 ==> !(saw_heads(d.drop_last()) && saw_tails(d.drop_last()))
}

/// Stopping early never changes an outcome: where a trial of `full.len()`
/// coins would draw all of `full` but stops after its first `m` draws, both
/// classify alike.
pub proof fn lemma_early_exit_transparent(full: Seq<bool>, m: nat)
    requires
        m <= full.len(),
        is_trial_draws(full.take(m as int), full.len()),
    ensures
        classify(full.take(m as int)) == classify(full),
{
    let d = full.take(m as int);
    if m == full.len() {
        assert(d =~= full);
    } else {
        let h = choose|k: int| 0 <= k < d.len() && #[trigger] d[k];
        let t = choose|k: int| 0 <= k < d.len() && !#[trigger] d[k];
        assert(full[h]);
        assert(!full[t]);
    }
}

/// A trial with no coins draws nothing and is classified `Tails`.
pub proof fn lemma_zero_coins_tails(d: Seq<bool>)
    requires
        is_trial_draws(d, 0),
    ensures
        d.len() == 0,
        classify(d) == FlipResult::Tails,
{
}

/// `2^thumb_count`, saturating at the largest `usize`.
pub fn coins_per_flip(thumb_count: usize) -> (r: usize)
    ensures
        r == coin_count(thumb_count as nat),
{
    let mut r: usize = 1;
    let mut i: usize = 0;
    proof {
        lemma2_to64();
    }
    while i < thumb_count
        invariant
            i <= thumb_count,
            r as nat == pow2(i as nat),
        decreases thumb_count - i,
    {
        proof {
            lemma_pow2_unfold((i + 1) as nat);
        }
        if r > usize::MAX / 2 {
            proof {
                if i + 1 < thumb_count {
                    lemma_pow2_strictly_increases((i + 1) as nat, thumb_count as nat);
                }
            }
            return usize::MAX;
        }
        r = r * 2;
        i = i + 1;
    }
    r
}

/// A lazy, single-pass sequence of trials: each `next` flips the coins of one
/// trial, in order, until `remaining` trials have been produced.
pub struct Flips {
    coins_per_flip: usize,
    remaining: usize,
}

impl Flips {
    pub closed spec fn coins(&self) -> nat {
        self.coins_per_flip as nat
    }

    pub closed spec fn remaining(&self) -> nat {
        self.remaining as nat
    }

    /// Runs the next trial with coins from `rng`, or returns `None` once every
    /// trial has been produced.
    pub fn next(&mut self, rng: &mut CoinSource) -> (r: Option<FlipResult>)
        requires
            old(rng).wf(),
        ensures
            final(self).coins() == old(self).coins(),
            old(self).remaining() == 0 ==> r is None && final(self).remaining() == 0
                && old(rng).yields(*final(rng), Seq::empty()),
            old(self).remaining() > 0 ==> {
                let d = final(rng)@.subrange(old(rng)@.len() as int, final(rng)@.len() as int);
                &&& final(self).remaining() == old(self).remaining() - 1
                &&& old(rng).yields(*final(rng), d)
                &&& is_trial_draws(d, old(self).coins())
                &&& r == Some(classify(d))
            },
    {
        let ghost start = *rng;
        if self.remaining == 0 {
            proof {
                start.lemma_yields_none();
            }
            return None;
        }
        self.remaining = self.remaining - 1;
        let mut seen_heads = false;
        let mut seen_tails = false;
        let mut i: usize = 0;
        let ghost mut d: Seq<bool> = Seq::empty();
        proof {
            start.lemma_yields_none();
        }
        while i < self.coins_per_flip && !(seen_heads && seen_tails)
            invariant
                start.yields(*rng, d),
                d.len() == i,
                i <= self.coins_per_flip,
                seen_heads == saw_heads(d),
                seen_tails == saw_tails(d),
                i > 0 ==> !(saw_heads(d.drop_last()) && saw_tails(d.drop_last())),
            decreases self.coins_per_flip - i,
        {
            let ghost before = *rng;
            let ghost prev = d;
            let v = rng.draw();
            proof {
                start.lemma_yields_trans(before, *rng, prev, seq![v]);
                d = prev + seq![v];
                assert(d.drop_last() =~= prev);
                assert(d[i as int] == v);
                assert forall|k: int| 0 <= k < i implies d[k] == prev[k] by {}
            }
            if v {
                seen_heads = true;
            } else {
                seen_tails = true;
            }
            i = i + 1;
        }
        proof {
            assert(rng@.subrange(start@.len() as int, rng@.len() as int) =~= d);
        }
        if seen_heads && seen_tails {
            Some(FlipResult::Both)
        } else if seen_heads {
            Some(FlipResult::Heads)
        } else {
            Some(FlipResult::Tails)
        }
    }
}

impl Coin {
    /// The trials of `times` flips of `2^thumb_count` coins each (saturating).
    /// Nothing is drawn until `next` is called.
    pub fn flip(thumb_count: usize, times: usize) -> (f: Flips)
        ensures
            f.coins() == coin_count(thumb_count as nat),
            f.remaining() == times,
    {
        Flips { coins_per_flip: coins_per_flip(thumb_count), remaining: times }
    }
}

} // verus!
