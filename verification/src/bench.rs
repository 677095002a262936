//! Workload builders for exercising the container from the outside: a fixed
//! boolean pattern and a reproducible sequence of in-range random indexes.

use vstd::prelude::*;

verus! {

#[verifier::external_type_specification]
#[verifier::external_body]
pub struct ExStdRng(rand::rngs::StdRng);

/// Relies on rand::SeedableRng::seed_from_u64 for rand::rngs::StdRng: builds
/// a generator from the given seed.
#[verifier::external_body]
fn rng_from_seed(seed: u64) -> rand::rngs::StdRng {
    <rand::rngs::StdRng as rand::SeedableRng>::seed_from_u64(seed)
}

/// Relies on rand::Rng::gen_range over the half-open range `0..bound`: the
/// result is drawn from that range, so it lies below `bound`. The call panics
/// on an empty range, which `bound >= 1` rules out.
#[verifier::external_body]
fn rng_index_below(rng: &mut rand::rngs::StdRng, bound: usize) -> (r: usize)
    requires
        bound >= 1,
    ensures
        r < bound,
{
    rand::Rng::gen_range(rng, 0..bound)
}

/// The boolean pattern used when filling a container for comparison runs:
/// element `i` is `true` exactly when `i` is divisible by three.
pub fn bench_values(size: usize) -> (r: Vec<bool>)
    ensures
        r@.len() == size,
        forall|i: int| 0 <= i < size ==> r@[i] == (i % 3 == 0),
{
    let mut out: Vec<bool> = Vec::new();
    let mut n: usize = 0;
    while n < size
        invariant
            n <= size,
            out@.len() == n,
            forall|i: int| 0 <= i < n ==> out@[i] == (i % 3 == 0),
        decreases size - n,
    {
        out.push(n % 3 == 0);
        n = n + 1;
    }
    out
}

/// A random access pattern for an indexable collection of length `len`:
/// `len` indexes drawn from a generator with a fixed seed, each below `len`.
pub fn bench_random_access(len: usize) -> (r: Vec<usize>)
    ensures
        r@.len() == len,
        forall|i: int| 0 <= i < len ==> r@[i] < len,
{
    let mut rng = rng_from_seed(0);
    let mut out: Vec<usize> = Vec::new();
    let mut n: usize = 0;
    while n < len
        invariant
            n <= len,
            out@.len() == n,
            forall|i: int| 0 <= i < n ==> out@[i] < len,
        decreases len - n,
    {
        let index = rng_index_below(&mut rng, len);
        out.push(index);
        n = n + 1;
    }
    out
}

} // verus!
