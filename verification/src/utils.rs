//! A seeded general-purpose hash: one non-cryptographic hash primitive,
//! re-seeded per probe index, so a family of independent-looking hash
//! functions can be drawn from a single primitive.

use std::collections::hash_map::DefaultHasher;
use std::hash::Hasher;
use vstd::prelude::*;
use vstd::std_specs::hash::DefaultHasherAdditionalSpecFns;

verus! {

/// The digest that the standard library's default hasher yields after
/// absorbing the little-endian bytes of `seed` and then the UTF-8 bytes of
/// `input`.
pub open spec fn spec_hash_with_seed(input: Seq<char>, seed: u32) -> u64 {
    DefaultHasher::spec_finish(
        seq![vstd::bytes::spec_u32_to_le_bytes(seed), vstd::utf8::encode_utf8(input)],
    )
}

/// Hashes `input` under `seed`: the seed is absorbed first, so distinct seeds
/// act as distinct hash functions over the same input.
pub fn hash_with_seed(input: &str, seed: u32) -> (r: u64)
    ensures
        r == spec_hash_with_seed(input@, seed),
{
    let mut hasher = DefaultHasher::new();
    let seed_bytes = vstd::bytes::u32_to_le_bytes(seed);
    hasher.write(seed_bytes.as_slice());
    hasher.write(input.as_bytes());
    proof {
        assert(hasher@ =~= seq![
            vstd::bytes::spec_u32_to_le_bytes(seed),
            vstd::utf8::encode_utf8(input@),
        ]);
    }
    hasher.finish()
}

} // verus!
