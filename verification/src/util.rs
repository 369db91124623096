//! Little-endian byte utilities shared by consumers of the assignment
//! tables.

use vstd::prelude::*;

verus! {

use vstd::arithmetic::div_mod::lemma_fundamental_div_mod;
use vstd::arithmetic::mul::lemma_mul_inequality;
use vstd::arithmetic::power2::{lemma2_to64, lemma2_to64_rest, lemma_pow2_adds, pow2};
use vstd::bits::lemma_u64_shl_is_mul;

/// The value of a little-endian byte sequence.
pub open spec fn le_value(s: Seq<u8>) -> nat
    decreases s.len(),
{
    if s.len() == 0 {
        0
    } else {
        (le_value(s.drop_last()) + s.last() * pow2((8 * (s.len() - 1)) as nat)) as nat
    }
}

/// Reads a little-endian byte slice, whose length must be a multiple of
/// eight, as a vector of 64-bit words, low word first.
pub fn le_bytes_to_u64s(le_bytes: &[u8]) -> (r: Vec<u64>)
    requires
        le_bytes@.len() % 8 == 0,
    ensures
        r@.len() == le_bytes@.len() / 8,
        forall|i: int|
            0 <= i < r@.len() ==> (#[trigger] r@[i]) as nat == le_value(
                le_bytes@.subrange(8 * i, 8 * i + 8),
            ),
{
    let n = le_bytes.len();
    let words = n / 8;
    proof {
        lemma_fundamental_div_mod(n as int, 8);
    }
    let mut r: Vec<u64> = Vec::new();
    let mut i: usize = 0;
    while i < words
        invariant
            i <= words,
            words == le_bytes@.len() / 8,
            n == le_bytes@.len(),
            n == 8 * words,
            r@.len() == i,
            forall|j: int|
                0 <= j < i ==> (#[trigger] r@[j]) as nat == le_value(
                    le_bytes@.subrange(8 * j, 8 * j + 8),
                ),
        decreases words - i,
    {
        proof {
            lemma_mul_inequality(i as int + 1, words as int, 8);
        }
        let ghost chunk = le_bytes@.subrange(8 * i as int, 8 * i as int + 8);
        let mut x: u64 = 0;
        let mut k: usize = 0;
        proof {
            lemma2_to64();
            assert(chunk.subrange(0, 0) =~= Seq::<u8>::empty());
        }
        while k < 8
            invariant
                k <= 8,
                i < words,
                n == le_bytes@.len(),
                n == 8 * words,
                chunk == le_bytes@.subrange(8 * i as int, 8 * i as int + 8),
                x as nat == le_value(chunk.subrange(0, k as int)),
                x < pow2((8 * k) as nat),
            decreases 8 - k,
        {
            let b = le_bytes[8 * i + k];
            let shift: u64 = 8 * (k as u64);
            proof {
                lemma2_to64();
                lemma2_to64_rest();
                lemma_mul_inequality(b as int, 255, pow2((8 * k) as nat) as int);
                assert((b as u64) * pow2(shift as nat) <= 255 * pow2((8 * k) as nat));
                lemma_u64_shl_is_mul(b as u64, shift);
                lemma_pow2_adds((8 * k) as nat, 8);
                assert(pow2((8 * k) as nat) + 255 * pow2((8 * k) as nat) == 256 * pow2(
                    (8 * k) as nat,
                ));
                assert(256 * pow2((8 * k) as nat) == pow2(8) * pow2((8 * k) as nat));
            }
            let shifted = (b as u64) << shift;
            x = x + shifted;
            proof {
                let sub1 = chunk.subrange(0, k + 1);
                assert(sub1.drop_last() =~= chunk.subrange(0, k as int));
                assert(sub1.last() == chunk[k as int]);
                assert(chunk[k as int] == le_bytes@[8 * i + k]);
            }
            k += 1;
        }
        proof {
            assert(chunk.subrange(0, 8) =~= chunk);
        }
        r.push(x);
        i += 1;
    }
    r
}

} // verus!
