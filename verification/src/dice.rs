use vstd::prelude::*;
use rand::RngExt;

verus! {

#[verifier::external_type_specification]
#[verifier::external_body]
pub struct ExThreadRng(rand::rngs::ThreadRng);

/// Calls `rand::rng()`, which hands out this thread's lazily seeded random
/// generator. Nothing is claimed of the generator's state.
#[verifier::external_body]
pub(crate) fn thread_rng() -> rand::rngs::ThreadRng {
    rand::rng()
}

/// Calls `RngExt::random_range` on the inclusive range `low..=high`. The crate
/// documents the result as a value in the given range, and panics on an empty
/// range, which the `requires` rules out. Which value comes is chance and is not
/// stated.
#[verifier::external_body]
pub(crate) fn random_in(rng: &mut rand::rngs::ThreadRng, low: u32, high: u32) -> (r: u32)
    requires
        low <= high,
    ensures
        low <= r <= high,
{
    rng.random_range(low..=high)
}

/// A source of die faces: this thread's random generator, together with the
/// faces it has handed out so far.
pub struct Dice {
    rng: rand::rngs::ThreadRng,
    drawn: Ghost<Seq<u32>>,
}

impl View for Dice {
    type V = Seq<u32>;

    /// The faces drawn so far, oldest first.
    closed spec fn view(&self) -> Seq<u32> {
        self.drawn@
    }
}

impl Dice {
    /// Dice on this thread's generator that have drawn nothing yet.
    pub fn new() -> (d: Dice)
        ensures
            d@ == Seq::<u32>::empty(),
    {
        Dice { rng: thread_rng(), drawn: Ghost(Seq::empty()) }
    }

    /// Draws one face between `low` and `high`, a draw of its own from the
    /// generator, and records it.
    pub fn draw(&mut self, low: u32, high: u32) -> (r: u32)
        requires
            low <= high,
        ensures
            low <= r <= high,
            final(self)@ == old(self)@.push(r),
    {
        let r = random_in(&mut self.rng, low, high);
        self.drawn = Ghost(self.drawn@.push(r));
        r
    }
}

} // verus!
