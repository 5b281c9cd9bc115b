use vstd::prelude::*;

use rand::rngs::StdRng;
use rand::Rng;

verus! {

/// Something that draws uniformly distributed integers below a bound.
pub trait DrawSource {
    /// Every draw made so far, in order, as `(bound, value returned)`.
    spec fn calls(&self) -> Seq<(nat, nat)>;

    /// Returns an integer in `[0, bound)`, and records the draw.
    fn draw_below(&mut self, bound: usize) -> (r: usize)
        requires
            bound > 0,
        ensures
            r < bound,
            final(self).calls() == old(self).calls().push((bound as nat, r as nat)),
    ;
}

#[verifier::external_type_specification]
#[verifier::external_body]
pub struct ExStdRng(StdRng);

/// Relies on `rand::Rng::gen_range` (rand 0.7): for `low < high` it returns a
/// value in `[low, high)`, and it panics only when `low >= high`.
#[verifier::external_body]
fn gen_below(rng: &mut StdRng, bound: usize) -> (r: usize)
    requires
        bound > 0,
    ensures
        r < bound,
{
    rng.gen_range(0, bound)
}

/// A [`DrawSource`] backed by rand's standard generator. Seed the generator
/// from system entropy for real use, or from a fixed seed for repeatable runs.
pub struct RandomSource {
    rng: StdRng,
    calls: Ghost<Seq<(nat, nat)>>,
}

impl RandomSource {
    /// Draws from `rng` from now on.
    pub fn new(rng: StdRng) -> (r: RandomSource)
        ensures
            r.calls() == Seq::<(nat, nat)>::empty(),
    {
        RandomSource { rng, calls: Ghost(Seq::empty()) }
    }
}

impl DrawSource for RandomSource {
    closed spec fn calls(&self) -> Seq<(nat, nat)> {
        self.calls@
    }

    fn draw_below(&mut self, bound: usize) -> (r: usize) {
        let r = gen_below(&mut self.rng, bound);
        self.calls = Ghost(self.calls@.push((bound as nat, r as nat)));
        r
    }
}

} // verus!

verus! {

/// A [`DrawSource`] for repeatable runs: every draw returns `V`, or
/// `bound - 1` where `V` is not below the bound. `bounds` holds the bounds of
/// the draws made so far, in order.
pub struct FixedSource<const V: usize> {
    pub bounds: Vec<usize>,
}

/// What a [`FixedSource`] returns for a draw below `bound`.
pub open spec fn fixed_draw(value: nat, bound: nat) -> nat {
    if value < bound { value } else { (bound - 1) as nat }
}

impl<const V: usize> FixedSource<V> {
    /// A source that has made no draw yet.
    pub fn new() -> (r: FixedSource<V>)
        ensures
            r.calls() == Seq::<(nat, nat)>::empty(),
    {
        let r = FixedSource { bounds: Vec::new() };
        assert(r.calls() =~= Seq::<(nat, nat)>::empty());
        r
    }
}

impl<const V: usize> DrawSource for FixedSource<V> {
    open spec fn calls(&self) -> Seq<(nat, nat)> {
        self.bounds@.map_values(|b: usize| (b as nat, fixed_draw(V as nat, b as nat)))
    }

    fn draw_below(&mut self, bound: usize) -> (r: usize) {
        let r = if V < bound { V } else { bound - 1 };
        self.bounds.push(bound);
        assert(self.calls() =~= old(self).calls().push((bound as nat, r as nat)));
        r
    }
}

} // verus!
