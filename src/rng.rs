//! The random source that generation draws from.

use vstd::prelude::*;

verus! {

/// The value that the raw draw `d` gives in the half-open range `[min, max)`.
pub open spec fn draw_in(d: u32, min: int, max: int) -> int {
    min + (d as int) % (max - min)
}

/// A source of random integers that hands out, one draw after the other, a
/// sequence of raw values fixed in advance. Each value is reduced into the
/// range that is asked for; when the sequence is used up no draw is left.
pub struct RandomNumberGenerator {
    draws: Vec<u32>,
    pos: usize,
}

impl RandomNumberGenerator {
    #[verifier::type_invariant]
    spec fn inv(&self) -> bool {
        self.pos <= self.draws@.len()
    }
}

impl View for RandomNumberGenerator {
    type V = Seq<u32>;

    /// The draws that are still to come, next one first.
    closed spec fn view(&self) -> Seq<u32> {
        self.draws@.subrange(self.pos as int, self.draws@.len() as int)
    }
}

impl RandomNumberGenerator {
    /// A source that yields `draws`, first to last.
    pub fn from_draws(draws: Vec<u32>) -> (r: RandomNumberGenerator)
        ensures
            r@ == draws@,
    {
        let r = RandomNumberGenerator { draws, pos: 0 };
        assert(r@ =~= r.draws@);
        r
    }

    /// How many draws are left.
    pub fn remaining(&self) -> (n: usize)
        ensures
            n == self@.len(),
    {
        proof {
            use_type_invariant(self);
        }
        self.draws.len() - self.pos
    }

    /// The next draw, as an integer in `[min, max)`.
    pub fn range(&mut self, min: i32, max: i32) -> (r: i32)
        requires
            min < max,
            old(self)@.len() > 0,
        ensures
            r as int == draw_in(old(self)@[0], min as int, max as int),
            min <= r < max,
            final(self)@ == old(self)@.drop_first(),
    {
        proof {
            use_type_invariant(&*self);
            assert(self@.len() == self.draws@.len() - self.pos);
        }
        let p = self.pos;
        let n = self.draws.len();
        assert(p < n);
        let d = self.draws[p];
        self.pos = p + 1;
        assert(self@ =~= old(self)@.drop_first());
        let span: u64 = (max as i64 - min as i64) as u64;
        let off: u64 = (d as u64) % span;
        (min as i64 + off as i64) as i32
    }
}

} // verus!
