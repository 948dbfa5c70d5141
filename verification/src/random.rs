//! Sources of random draws.
//!
//! A random walk has no bound on its length, so every source hands out a
//! limited number of draws and says so when it has run dry. The work that
//! needs draws then stops with an error instead of going on for ever.

use vstd::prelude::*;
use rand::Rng;
use rand::rngs::ThreadRng;

verus! {

/// Something that hands out random numbers, a limited number of times.
pub trait RandomSource {
    /// How many draws the source will still hand out.
    spec fn remaining(&self) -> nat;

    /// The numbers that the source has handed out so far, in order.
    spec fn drawn(&self) -> Seq<usize>;

    /// A number below `bound`, or `None` once the source has run dry.
    fn next_below(&mut self, bound: usize) -> (draw: Option<usize>)
        requires
            bound >= 1,
        ensures
            draw is Some <==> old(self).remaining() > 0,
            draw matches Some(v) ==> {
                &&& v < bound
                &&& final(self).remaining() == old(self).remaining() - 1
                &&& final(self).drawn() == old(self).drawn().push(v)
            },
            draw is None ==> {
                &&& final(self).remaining() == 0
                &&& final(self).drawn() == old(self).drawn()
            },
    ;
}

/// The random number generator that `rand` keeps for each thread.
#[verifier::external_type_specification]
#[verifier::external_body]
pub struct ExThreadRng(rand::rngs::ThreadRng);

/// Calls `rand::rng`, which hands out a handle to the generator of the
/// calling thread. Nothing is claimed of the handle. The call panics if the
/// operating system cannot seed the generator, which no argument decides.
#[verifier::external_body]
fn thread_generator() -> ThreadRng {
    rand::rng()
}

/// Calls `rand::Rng::random_range` on the half-open range from zero to
/// `bound`. The claim is that the number drawn lies in that range; an empty
/// range, on which the call would panic, is excluded.
#[verifier::external_body]
fn draw_below(generator: &mut ThreadRng, bound: usize) -> (drawn: usize)
    requires
        bound >= 1,
    ensures
        drawn < bound,
{
    generator.random_range(0..bound)
}

/// Draws from the random number generator of the calling thread.
pub struct ThreadRandom {
    generator: ThreadRng,
    budget: u64,
    handed: Ghost<Seq<usize>>,
}

impl ThreadRandom {
    /// A source that hands out at most `budget` draws.
    pub fn new(budget: u64) -> (source: ThreadRandom)
        ensures
            source.remaining() == budget,
            source.drawn() == Seq::<usize>::empty(),
    {
        ThreadRandom { generator: thread_generator(), budget, handed: Ghost(Seq::empty()) }
    }
}

impl RandomSource for ThreadRandom {
    closed spec fn remaining(&self) -> nat {
        self.budget as nat
    }

    closed spec fn drawn(&self) -> Seq<usize> {
        self.handed@
    }

    fn next_below(&mut self, bound: usize) -> (draw: Option<usize>) {
        if self.budget == 0 {
            None
        } else {
            self.budget = self.budget - 1;
            let value = draw_below(&mut self.generator, bound);
            proof {
                self.handed@ = self.handed@.push(value);
            }
            Some(value)
        }
    }
}

/// Hands out draws from a list fixed in advance, each reduced modulo the
/// bound that is asked for. The same list gives the same draws every time.
pub struct ScriptedRandom {
    draws: Vec<usize>,
    cursor: usize,
    handed: Ghost<Seq<usize>>,
}

impl ScriptedRandom {
    /// The numbers that have not been handed out yet, in order.
    pub closed spec fn pending(&self) -> Seq<usize> {
        self.draws@.skip(self.cursor as int)
    }

    /// What holds of every scripted source.
    #[verifier::type_invariant]
    closed spec fn wf(&self) -> bool {
        self.cursor <= self.draws.len()
    }

    /// A source that hands out `draws` from first to last.
    pub fn new(draws: Vec<usize>) -> (source: ScriptedRandom)
        ensures
            source.pending() == draws@,
            source.drawn() == Seq::<usize>::empty(),
    {
        let source = ScriptedRandom { draws, cursor: 0, handed: Ghost(Seq::empty()) };
        assert(source.draws@.skip(0) =~= source.draws@);
        source
    }
}

impl RandomSource for ScriptedRandom {
    open spec fn remaining(&self) -> nat {
        self.pending().len()
    }

    closed spec fn drawn(&self) -> Seq<usize> {
        self.handed@
    }

    fn next_below(&mut self, bound: usize) -> (draw: Option<usize>)
        ensures
            old(self).pending().len() == 0 ==> draw is None && final(self).pending()
                == old(self).pending(),
            old(self).pending().len() > 0 ==> draw == Some(old(self).pending()[0] % bound)
                && final(self).pending() == old(self).pending().skip(1),
    {
        proof {
            use_type_invariant(&*self);
        }
        if self.cursor >= self.draws.len() {
            None
        } else {
            let value = self.draws[self.cursor] % bound;
            self.cursor = self.cursor + 1;
            proof {
                self.handed@ = self.handed@.push(value);
            }
            assert(self.pending() =~= old(self).pending().skip(1));
            Some(value)
        }
    }
}

} // verus!
