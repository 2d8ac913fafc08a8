use vstd::prelude::*;

verus! {

/// Draws a number from macroquad's global pseudo-random generator
/// (`macroquad::rand::gen_range`, a re-export of `quad_rand::gen_range`).
///
/// The source computes `low + (high - low) * (x / 2^32)` in `f64` from a
/// 32-bit draw `x` and truncates it back to `usize`.  With `high` at most
/// 2^20 every step of that computation is exact, so the result lies in
/// `low..high`.  Which number of that range comes back depends on the
/// generator's hidden state, so nothing more is claimed.
#[verifier::external_body]
pub(crate) fn gen_range(low: usize, high: usize) -> (r: usize)
    requires
        low < high <= 0x10_0000,
    ensures
        low <= r < high,
{
    macroquad::rand::gen_range(low, high)
}

} // verus!
