use vstd::prelude::*;

verus! {

/// The uniform random source that every generation algorithm and every
/// random-cell selection draws from explicitly; no algorithm touches
/// ambient randomness. `System` draws fresh machine randomness; `Fixed`
/// replays a recorded sequence, cycling through it and yielding zero when
/// the sequence is empty, so that a run can be reproduced exactly.
pub enum RandomSource {
    System,
    Fixed(Vec<usize>, usize),
}

/// The raw value a fixed source yields at a cursor position: the cursor's
/// entry of the cycle, or zero when the sequence is empty.
pub open spec fn fixed_raw(values: Seq<usize>, cursor: usize) -> usize {
    if values.len() == 0 {
        0
    } else {
        values[cursor as int % values.len() as int]
    }
}

/// Where a fixed source's cursor stands after one draw: one step along
/// the cycle, or unmoved when the sequence is empty.
pub open spec fn fixed_next_cursor(values: Seq<usize>, cursor: usize) -> usize {
    if values.len() == 0 {
        cursor
    } else {
        ((cursor as int % values.len() as int + 1) % values.len() as int) as usize
    }
}

/// Relies on rand::random: one uniformly distributed 64-bit value drawn
/// from the thread-local generator. Nothing can be promised of the value;
/// callers bound it.
#[verifier::external_body]
fn random_word() -> usize {
    rand::random::<u64>() as usize
}

impl RandomSource {
    /// A source backed by the machine's random generator.
    pub fn system() -> (r: RandomSource)
        ensures
            r is System,
    {
        RandomSource::System
    }

    /// A deterministic source that replays `values` in a cycle, or yields
    /// zero forever when `values` is empty.
    pub fn fixed(values: Vec<usize>) -> (r: RandomSource)
        ensures
            r == RandomSource::Fixed(values, 0usize),
    {
        RandomSource::Fixed(values, 0)
    }

    /// The next value of this source, reduced below `bound`. A `System`
    /// source stays a `System` source and promises only the bound; a
    /// `Fixed` source yields exactly its cursor's entry reduced below the
    /// bound and advances its cursor one step along the cycle.
    pub fn random_below(&mut self, bound: usize) -> (r: usize)
        requires
            bound >= 1,
        ensures
            r < bound,
            *old(self) is System ==> *final(self) is System,
            *old(self) matches RandomSource::Fixed(values, cursor) ==> r == fixed_raw(
                values@,
                cursor,
            ) % bound && *final(self) == RandomSource::Fixed(
                values,
                fixed_next_cursor(values@, cursor),
            ),
    {
        match self {
            RandomSource::System => random_word() % bound,
            RandomSource::Fixed(values, cursor) => {
                let ghost old_vals = values@;
                let ghost old_cur = *cursor;
                if values.len() == 0 {
                    proof {
                        assert(fixed_raw(old_vals, old_cur) == 0);
                        assert(fixed_next_cursor(old_vals, old_cur) == old_cur);
                    }
                    0
                } else {
                    let i = *cursor % values.len();
                    let raw = values[i];
                    *cursor = (i + 1) % values.len();
                    proof {
                        assert(raw == fixed_raw(old_vals, old_cur));
                        assert(*cursor == fixed_next_cursor(old_vals, old_cur));
                    }
                    raw % bound
                }
            },
        }
    }
}

} // verus!
