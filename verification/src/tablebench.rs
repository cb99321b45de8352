//! The key table on its own: inserts in order, then lookups in a scattered
//! order.

use crate::kvbench::{db_key_into, db_key_of};
use crate::rng::{xorshift, Rng};
use vstd::prelude::*;

verus! {

/// The sizes that are measured.
pub const SIZES: [u64; 4] = [100_000, 1_000_000, 4_000_000, 8_000_000];

/// Where the scattered order starts.
pub const SCATTER_START: u64 = 12345;

/// The key of a number, sixteen decimal digits.
pub fn db_key(n: u64, buf: &mut [u8; 16])
    ensures
        final(buf)@ == db_key_of(n),
{
    db_key_into(n, buf);
}

/// The next key of the scattered order over `n` keys.
pub fn scattered(rng: &mut Rng, n: u64) -> (k: u64)
    requires
        n > 0,
    ensures
        k == xorshift(old(rng).0) % n,
        k < n,
        final(rng).0 == xorshift(old(rng).0),
{
    rng.next() % n
}

} // verus!
