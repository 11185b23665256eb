use vstd::prelude::*;

verus! {

/// The denominator of the fixed-point fractions returned by `Rng::unit`.
pub const UNIT: u32 = 0x0100_0000;

/// A seeded pseudo-random stream. `count` is the number of values drawn so far.
#[derive(Clone, Copy, Debug, PartialEq, Eq)]
pub struct Rng {
    pub state: u64,
    pub count: u64,
}

/// The position of a stream after one more draw.
pub open spec fn advanced(before: Rng, after: Rng) -> bool {
    after.count == (if before.count < u64::MAX { before.count + 1 } else { before.count as int })
}

/// The splitmix64 output function: the value drawn when the state has become `z`.
#[verifier::opaque]
pub open spec fn mix(z: u64) -> u64 {
    let a = vstd::wrapping::u64_specs::wrapping_mul(z ^ (z >> 30u64), 0xBF58_476D_1CE4_E5B9u64);
    let b = vstd::wrapping::u64_specs::wrapping_mul(a ^ (a >> 27u64), 0x94D0_49BB_1331_11EBu64);
    b ^ (b >> 31u64)
}

/// The stream after one draw: the state moves on by the splitmix64 increment and one
/// more value counts as drawn.
pub open spec fn next_rng(r: Rng) -> Rng {
    Rng {
        state: vstd::wrapping::u64_specs::wrapping_add(r.state, 0x9E37_79B9_7F4A_7C15u64),
        count: if r.count < u64::MAX { (r.count + 1) as u64 } else { r.count },
    }
}

/// The raw value that the next draw from `r` gives.
pub open spec fn raw_value(r: Rng) -> u64 {
    mix(next_rng(r).state)
}

/// The stream after `k` draws.
pub open spec fn advance_n(r: Rng, k: nat) -> Rng
    decreases k,
{
    if k == 0 {
        r
    } else {
        next_rng(advance_n(r, (k - 1) as nat))
    }
}

/// The sum of the first `k` fractions (over `UNIT`) drawn from `r`.
pub open spec fn units_sum(r: Rng, k: nat) -> int
    decreases k,
{
    if k == 0 {
        0
    } else {
        units_sum(r, (k - 1) as nat) + (raw_value(advance_n(r, (k - 1) as nat)) % (UNIT as u64)) as int
    }
}

/// What `gaussian` gives for a stream at `r`: the twelve fractions summed, scaled by
/// `spread`, centred on `mean` (at least 0) and clamped to `min..=max`.
pub open spec fn gaussian_value(r: Rng, mean: u32, spread: u32, min: u32, max: u32) -> u32 {
    let scaled = units_sum(r, 12) * spread / (UNIT as int);
    let raw = if scaled + mean >= 6 * spread { scaled + mean - 6 * spread } else { 0 };
    if raw < min {
        min
    } else if raw > max {
        max
    } else {
        raw as u32
    }
}

/// The index that a shuffle draws from `len` items left: a draw below `len` (capped at
/// `u32::MAX`), or 0 without a draw when one item is left.
pub open spec fn shuffle_pick(r: Rng, len: int) -> int {
    if len > 1 {
        (raw_value(r) % (if len > u32::MAX { u32::MAX as u64 } else { len as u64 })) as int
    } else {
        0
    }
}

/// The order that `shuffle` gives `items` with the stream at `r`, and the stream after:
/// the picked item comes first, then the shuffle of the rest.
pub open spec fn shuffled<T>(r: Rng, items: Seq<T>) -> (Seq<T>, Rng)
    decreases items.len(),
{
    if items.len() == 0 {
        (Seq::empty(), r)
    } else {
        let j = shuffle_pick(r, items.len() as int);
        let after = if items.len() > 1 { next_rng(r) } else { r };
        if 0 <= j < items.len() {
            let rest = shuffled(after, items.remove(j));
            (seq![items[j]] + rest.0, rest.1)
        } else {
            (items, r)
        }
    }
}

impl Rng {
    /// The stream that `from_seed` starts: nothing drawn yet.
    pub open spec fn seeded(seed: u64) -> Rng {
        Rng { state: seed ^ 0x5DEE_CE66_D1CE_4E5Bu64, count: 0 }
    }

    pub fn from_seed(seed: u64) -> (rng: Rng)
        ensures
            rng == Rng::seeded(seed),
    {
        Rng { state: seed ^ 0x5DEE_CE66_D1CE_4E5B, count: 0 }
    }

    /// Draws the next raw 64-bit value (a splitmix64 step).
    pub fn next_u64(&mut self) -> (value: u64)
        ensures
            advanced(*old(self), *final(self)),
            *final(self) == next_rng(*old(self)),
            value == raw_value(*old(self)),
    {
        self.state = self.state.wrapping_add(0x9E37_79B9_7F4A_7C15);
        let mut z = self.state;
        z = (z ^ (z >> 30u64)).wrapping_mul(0xBF58_476D_1CE4_E5B9);
        z = (z ^ (z >> 27u64)).wrapping_mul(0x94D0_49BB_1331_11EB);
        z = z ^ (z >> 31u64);
        self.count = self.count.saturating_add(1);
        proof {
            reveal(mix);
        }
        z
    }

    /// A uniform value in `0..bound`.
    pub fn below(&mut self, bound: u32) -> (value: u32)
        requires
            bound > 0,
        ensures
            value < bound,
            advanced(*old(self), *final(self)),
            *final(self) == next_rng(*old(self)),
            value == raw_value(*old(self)) % (bound as u64),
    {
        let raw = self.next_u64();
        (raw % (bound as u64)) as u32
    }

    /// A uniform index into a list of `len` items.
    pub fn index(&mut self, len: usize) -> (value: usize)
        requires
            len > 0,
        ensures
            value < len,
            advanced(*old(self), *final(self)),
            *final(self) == next_rng(*old(self)),
            value == raw_value(*old(self)) % (len as u64),
    {
        let raw = self.next_u64();
        (raw % (len as u64)) as usize
    }

    /// A uniform fraction in `[0, 1)`, as a numerator over `UNIT`.
    pub fn unit(&mut self) -> (value: u32)
        ensures
            value < UNIT,
            advanced(*old(self), *final(self)),
            *final(self) == next_rng(*old(self)),
            value == raw_value(*old(self)) % (UNIT as u64),
    {
        self.below(UNIT)
    }

    /// Skips `steps` draws.
    pub fn forward(&mut self, steps: u32)
        ensures
            final(self).count >= old(self).count,
            final(self).count <= old(self).count + steps,
            steps > 0 && old(self).count < u64::MAX ==> final(self).count > old(self).count,
            *final(self) == advance_n(*old(self), steps as nat),
    {
        let mut i: u32 = 0;
        while i < steps
            invariant
                i <= steps,
                self.count >= old(self).count,
                self.count <= old(self).count + i,
                i > 0 && old(self).count < u64::MAX ==> self.count > old(self).count,
                *self == advance_n(*old(self), i as nat),
            decreases steps - i,
        {
            self.next_u64();
            i = i + 1;
        }
    }

    /// A roughly normal value with the given mean and spread, clamped to `min..=max`:
    /// the sum of twelve uniform draws, centred, in units of the spread.
    pub fn gaussian(&mut self, mean: u32, spread: u32, min: u32, max: u32) -> (value: u32)
        requires
            min <= max,
            mean <= 1000,
            spread <= 1000,
        ensures
            min <= value <= max,
            value == gaussian_value(*old(self), mean, spread, min, max),
            *final(self) == advance_n(*old(self), 12),
    {
        let mut sum: u64 = 0;
        let mut i: u32 = 0;
        while i < 12
            invariant
                i <= 12,
                sum <= i * 16777216,
                sum == units_sum(*old(self), i as nat),
                *self == advance_n(*old(self), i as nat),
            decreases 12 - i,
        {
            let u = self.unit();
            sum = sum + u as u64;
            i = i + 1;
        }
        // sum / UNIT lies in [0, 12); centred at 6 it has spread 1.
        assert(sum * (spread as u64) <= 201326592 * 1000) by (nonlinear_arith)
            requires
                sum <= 201326592,
                spread <= 1000,
        ;
        let scaled: u64 = (sum * (spread as u64)) / (UNIT as u64);
        let low: u64 = 6 * (spread as u64);
        let raw: u64 = if scaled + (mean as u64) >= low {
            scaled + (mean as u64) - low
        } else {
            0
        };
        if raw < min as u64 {
            min
        } else if raw > max as u64 {
            max
        } else {
            raw as u32
        }
    }

    /// Shuffles `items` in place: every draw picks the next element from those left.
    pub fn shuffle<T>(&mut self, items: &mut Vec<T>)
        ensures
            final(items)@.len() == old(items)@.len(),
            final(items)@.to_multiset() == old(items)@.to_multiset(),
            final(self).count >= old(self).count,
            final(items)@ == shuffled(*old(self), old(items)@).0,
            *final(self) == shuffled(*old(self), old(items)@).1,
    {
        broadcast use vstd::seq_lib::group_to_multiset_ensures;
        broadcast use vstd::multiset::group_multiset_axioms;

        let ghost given = items@;
        let ghost start = *self;
        let mut out: Vec<T> = Vec::new();
        while items.len() > 0
            invariant
                out@.len() + items@.len() == given.len(),
                out@.to_multiset().add(items@.to_multiset()) == given.to_multiset(),
                self.count >= old(self).count,
                shuffled(start, given).0 == out@ + shuffled(*self, items@).0,
                shuffled(start, given).1 == shuffled(*self, items@).1,
            decreases items@.len(),
        {
            let ghost r0 = *self;
            let ghost before_items = items@;
            let len = items.len();
            let bound: u32 = if len > u32::MAX as usize { u32::MAX } else { len as u32 };
            let j: usize = if len > 1 {
                self.below(bound) as usize
            } else {
                0
            };
            let ghost before = items@;
            let x = items.remove(j);
            let ghost out_before = out@;
            out.push(x);
            proof {
                assert(j as int == shuffle_pick(r0, before_items.len() as int));
                let rest = shuffled(*self, items@);
                assert(shuffled(r0, before_items).0 == seq![x] + rest.0);
                assert(out@ + rest.0 =~= out_before + (seq![x] + rest.0));
                assert(items@ == before.remove(j as int));
                assert(x == before[j as int]);
                before.to_multiset_ensures();
                out_before.to_multiset_ensures();
                assert(before.contains(x));
                assert(before.to_multiset().count(x) > 0);
                assert(out@.to_multiset().add(items@.to_multiset()) =~= out_before.to_multiset().add(
                    before.to_multiset(),
                ));
            }
        }
        proof {
            assert(items@.to_multiset() =~= vstd::multiset::Multiset::empty());
            assert(items@ =~= Seq::<T>::empty());
            assert(out@ + Seq::<T>::empty() =~= out@);
        }
        std::mem::swap(items, &mut out);
    }
}

} // verus!
