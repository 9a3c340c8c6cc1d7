//! The bots' source of chance: a seeded generator from the `rand` crate, and
//! draws from it whose range is proved.
use vstd::prelude::*;
use rand::rngs::StdRng;
use rand::{Rng, SeedableRng};

verus! {

#[verifier::external_type_specification]
#[verifier::external_body]
pub struct ExStdRng(StdRng);

/// `Rng::gen_range` over `lo..hi`: rand asserts that the range is not empty
/// and returns a value of it. Which value comes depends on the generator's
/// state, so nothing more is said of it.
#[verifier::external_body]
pub(crate) fn gen_range_u64(rng: &mut StdRng, lo: u64, hi: u64) -> (r: u64)
    requires
        lo < hi,
    ensures
        lo <= r < hi,
{
    rng.gen_range(lo..hi)
}

/// The generator that `StdRng::from_seed` makes from a key.
pub uninterp spec fn seeded_generator(key: Seq<u8>) -> StdRng;

/// `SeedableRng::from_seed` for `StdRng`: the generator seeded with `key`.
/// It is a function of the key alone: `from_seed` builds the generator's
/// state from the key and nothing else, and rand documents that a fixed
/// seed gives the same sequence of values on every run.
#[verifier::external_body]
fn rng_from_seed(key: [u8; 32]) -> (r: StdRng)
    ensures
        r == seeded_generator(key@),
{
    StdRng::from_seed(key)
}

/// The 32-byte key that a seed folds into.
pub open spec fn spec_seed_key(seed: Seq<u8>) -> Seq<u8> {
    Seq::new(32, |j: int| seed_byte(seed, j, seed.len() as int))
}

/// Byte `j` of the key that the first `n` bytes of a seed make: the exclusive
/// or of the bytes whose index is `j` modulo 32.
pub open spec fn seed_byte(seed: Seq<u8>, j: int, n: int) -> u8
    decreases n,
{
    if n <= 0 {
        0
    } else {
        let r = seed_byte(seed, j, n - 1);
        if (n - 1) % 32 == j {
            r ^ seed[n - 1]
        } else {
            r
        }
    }
}

/// Folds a seed of any length into a 32-byte key: byte `i` of the seed goes
/// into byte `i % 32` of the key by exclusive or.
pub fn seed_key(seed: &Vec<u8>) -> (key: [u8; 32])
    ensures
        forall|j: int| 0 <= j < 32 ==> #[trigger] key@[j] == seed_byte(seed@, j, seed@.len() as int),
        key@ == spec_seed_key(seed@),
{
    let mut key: [u8; 32] = [0u8; 32];
    let n = seed.len();
    let mut i: usize = 0;
    assert forall|j: int| 0 <= j < 32 implies #[trigger] key@[j] == seed_byte(seed@, j, 0) by {}
    while i < n
        invariant
            n == seed@.len(),
            i <= n,
            key@.len() == 32,
            forall|j: int| 0 <= j < 32 ==> #[trigger] key@[j] == seed_byte(seed@, j, i as int),
        decreases n - i,
    {
        let slot: usize = i % 32;
        let b: u8 = key[slot] ^ seed[i];
        let ghost old_key = key@;
        key[slot] = b;
        assert forall|j: int| 0 <= j < 32 implies #[trigger] key@[j] == seed_byte(seed@, j, i + 1) by {
            if j == slot as int {
                assert(old_key[j] == seed_byte(seed@, j, i as int));
            } else {
                assert(old_key[j] == seed_byte(seed@, j, i as int));
            }
        }
        i = i + 1;
    }
    assert(key@ =~= spec_seed_key(seed@));
    key
}

/// A generator seeded with the bytes of `seed`, folded into a key: the same
/// seed always gives the same generator.
pub fn seeded_rng(seed: &Vec<u8>) -> (r: StdRng)
    ensures
        r == seeded_generator(spec_seed_key(seed@)),
{
    let key = seed_key(seed);
    rng_from_seed(key)
}

/// A random number from 1 to `max`.
pub fn random_count(rng: &mut StdRng, max: usize) -> (r: usize)
    requires
        max >= 1,
    ensures
        1 <= r <= max,
{
    let v = gen_range_u64(rng, 0, max as u64);
    v as usize + 1
}

/// A random index below `n`.
pub fn random_index(rng: &mut StdRng, n: usize) -> (r: usize)
    requires
        n >= 1,
    ensures
        r < n,
{
    let v = gen_range_u64(rng, 0, n as u64);
    v as usize
}

} // verus!
