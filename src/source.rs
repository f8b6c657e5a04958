use vstd::prelude::*;
use rand::rngs::StdRng;

verus! {

use vstd::arithmetic::div_mod::{lemma_add_mod_noop_right, lemma_mod_self_0, lemma_small_mod};

#[verifier::external_type_specification]
#[verifier::external_body]
pub struct ExStdRng(rand::rngs::StdRng);

/// Relies on `rand::SeedableRng::seed_from_u64` for `StdRng`: builds a
/// generator whose whole output is fixed by the seed. Nothing is stated of
/// the values it later yields.
#[verifier::external_body]
fn seeded_rng(seed: u64) -> (r: StdRng) {
    <StdRng as rand::SeedableRng>::seed_from_u64(seed)
}

/// Relies on `rand::Rng::gen_ratio`: one Bernoulli sample that is `true` with
/// probability `numerator / denominator`. It panics when the denominator is
/// zero or below the numerator, which `requires` leaves out. What it returns
/// depends on the generator's state, so nothing is stated of the value.
#[verifier::external_body]
fn gen_ratio(rng: &mut StdRng, numerator: u32, denominator: u32) -> (r: bool)
    requires
        0 < denominator,
        numerator <= denominator,
{
    <StdRng as rand::Rng>::gen_ratio(rng, numerator, denominator)
}

/// Where the coin values come from.
enum Feed {
    /// A fixed cycle of values, repeated forever from position `next`.
    Cycle { values: Vec<bool>, next: usize },
    /// Fair samples of a pseudo-random generator.
    Random { rng: StdRng },
}

/// A source of fair coin flips (`true` is heads, `false` is tails).
///
/// Its view is the sequence of every value drawn from it so far. A scripted
/// source also knows every value it will yield (`upcoming`).
pub struct CoinSource {
    feed: Feed,
    drawn: Ghost<Seq<bool>>,
}

impl View for CoinSource {
    type V = Seq<bool>;

    closed spec fn view(&self) -> Seq<bool> {
        self.drawn@
    }
}

impl CoinSource {
    pub closed spec fn wf(&self) -> bool {
        match self.feed {
            Feed::Cycle { values, next } => 0 < values@.len() && next < values@.len(),
            Feed::Random { .. } => true,
        }
    }

    /// The value that the `i`-th next draw yields, where the source is
    /// scripted; `None` where it is random.
    pub closed spec fn upcoming(&self, i: nat) -> Option<bool> {
        match self.feed {
            Feed::Cycle { values, next } => Some(
                values@[((next + i) % (values@.len() as int)) as int],
            ),
            Feed::Random { .. } => None,
        }
    }

    /// `after` is this source once it has yielded `d`, and nothing else: its
    /// history grew by `d`, a scripted source yielded its scripted values, and
    /// what it yields next is what came after them.
    pub open spec fn yields(&self, after: CoinSource, d: Seq<bool>) -> bool {
        &&& after.wf()
        &&& after@ == self@ + d
        &&& forall|i: int|
            0 <= i < d.len() && (#[trigger] self.upcoming(i as nat)) is Some ==> d[i]
                == self.upcoming(i as nat)->0
        &&& forall|j: nat| #[trigger] after.upcoming(j) == self.upcoming(j + d.len())
    }

    /// A source that has yielded nothing is itself.
    pub proof fn lemma_yields_none(&self)
        requires
            self.wf(),
        ensures
            self.yields(*self, Seq::empty()),
    {
        assert(self@ + Seq::<bool>::empty() =~= self@);
    }

    /// Yielding `d1` and then `d2` is yielding `d1 + d2`.
    pub proof fn lemma_yields_trans(&self, mid: CoinSource, after: CoinSource, d1: Seq<bool>, d2: Seq<bool>)
        requires
            self.yields(mid, d1),
            mid.yields(after, d2),
        ensures
            self.yields(after, d1 + d2),
    {
        assert(after@ =~= self@ + (d1 + d2));
        let d = d1 + d2;
        assert forall|i: int|
            0 <= i < d.len() && (#[trigger] self.upcoming(i as nat)) is Some implies d[i]
                == self.upcoming(i as nat)->0 by {
            if i >= d1.len() {
                assert(mid.upcoming((i - d1.len()) as nat) == self.upcoming(
                    ((i - d1.len()) as nat + d1.len()) as nat,
                ));
            }
        }
        assert forall|j: nat| #[trigger] after.upcoming(j) == self.upcoming(j + d.len()) by {
            assert(after.upcoming(j) == mid.upcoming(j + d2.len()));
            assert(mid.upcoming(j + d2.len()) == self.upcoming(j + d2.len() + d1.len()));
        }
    }

    /// A source that yields `values` in order, starting over after the last.
    pub fn scripted(values: Vec<bool>) -> (s: CoinSource)
        requires
            values@.len() > 0,
        ensures
            s.wf(),
            s@ == Seq::<bool>::empty(),
            forall|i: nat| #[trigger]
                s.upcoming(i) == Some(values@[(i % (values@.len() as nat)) as int]),
    {
        let s = CoinSource { feed: Feed::Cycle { values, next: 0 }, drawn: Ghost(Seq::empty()) };
        s
    }

    /// A pseudo-random source whose flips are fixed by `seed`.
    pub fn seeded(seed: u64) -> (s: CoinSource)
        ensures
            s.wf(),
            s@ == Seq::<bool>::empty(),
            forall|i: nat| #[trigger] s.upcoming(i) is None,
    {
        CoinSource::from_rng(seeded_rng(seed))
    }

    /// A source that flips fair coins with `rng`.
    pub fn from_rng(rng: StdRng) -> (s: CoinSource)
        ensures
            s.wf(),
            s@ == Seq::<bool>::empty(),
            forall|i: nat| #[trigger] s.upcoming(i) is None,
    {
        CoinSource { feed: Feed::Random { rng }, drawn: Ghost(Seq::empty()) }
    }

    /// Flips one coin.
    pub fn draw(&mut self) -> (r: bool)
        requires
            old(self).wf(),
        ensures
            final(self).wf(),
            final(self)@ == old(self)@.push(r),
            old(self).yields(*final(self), seq![r]),
            old(self).upcoming(0) is Some ==> r == old(self).upcoming(0)->0,
            forall|i: nat| #[trigger] final(self).upcoming(i) == old(self).upcoming(i + 1),
    {
        let ghost pre = *self;
        let r = match self.feed {
            Feed::Cycle { ref values, ref mut next } => {
                let v = values[*next];
                let len = values.len();
                proof {
                    lemma_small_mod(*next as nat, len as nat);
                    if *next + 1 == len {
                        lemma_mod_self_0(len as int);
                    } else {
                        lemma_small_mod((*next + 1) as nat, len as nat);
                    }
                    assert forall|i: nat| #[trigger]
                        ((((*next + 1) % (len as int)) + i) % (len as int)) == (*next + (i
                            + 1)) % (len as int) by {
                        lemma_add_mod_noop_right(i as int, *next + 1, len as int);
                    }
                }
                if *next + 1 == len {
                    *next = 0;
                } else {
                    *next = *next + 1;
                }
                v
            },
            Feed::Random { ref mut rng } => gen_ratio(rng, 1, 2),
        };
        proof {
            self.drawn@ = self.drawn@.push(r);
            assert(pre@.push(r) =~= pre@ + seq![r]);
        }
        r
    }
}

} // verus!
