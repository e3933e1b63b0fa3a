//! The bucket hash of the earlier worker node, for buckets numbered in a byte.
use vstd::prelude::*;
use vstd::arithmetic::div_mod::{lemma_add_mod_noop, lemma_mul_mod_noop, lemma_mul_mod_noop_left};
use crate::text::chars_of;
use crate::worker::hasher::{bucket_of, hash_sum, low_byte, square_weight, weighted};

verus! {

/// The bucket number, between 1 and `lim`, of the string `v`. The sum is kept reduced
/// modulo `lim`, so that any string can be hashed.
pub fn get_hash(v: &str, lim: u8) -> (h: u8)
    requires
        lim > 0,
    ensures
        h == bucket_of(v@, lim as nat),
        1 <= h <= lim,
{
    let cs = chars_of(v);
    let m: u32 = lim as u32;
    let ghost mi = lim as int;
    let mut sum: u32 = 0;
    let mut i: usize = 0;
    assert(hash_sum(v@, 0, lim as nat) == 0);
    while i < cs.len()
        invariant
            cs@ == v@,
            m == lim as u32,
            mi == lim as int,
            m > 0,
            i <= cs@.len(),
            sum < m,
            sum == hash_sum(v@, i as int, lim as nat) % (lim as nat),
        decreases cs@.len() - i,
    {
        let b: u32 = cs[i] as u32 % 256;
        let r: u32 = ((i + 1) % (m as usize)) as u32;
        assert(r < 256);
        assert(r * r < 65536) by (nonlinear_arith)
            requires
                r < 256,
        ;
        let sq: u32 = r * r % m;
        assert(sq * b < 65536) by (nonlinear_arith)
            requires
                sq < 256,
                b < 256,
        ;
        let t: u32 = sq * b % m;
        proof {
            let k = i as int + 1;
            assert(b as nat == low_byte(v@[i as int]));
            assert(r as int == k % mi);
            lemma_mul_mod_noop(k, k, mi);
            assert(sq as int == square_weight(i as int) % mi);
            lemma_mul_mod_noop_left(square_weight(i as int), b as int, mi);
            assert(square_weight(i as int) >= 0);
            assert(weighted(v@, i as int) == square_weight(i as int) * (b as int));
            assert(t as int == weighted(v@, i as int) % (lim as nat));
            let hs = hash_sum(v@, i as int, lim as nat) as int;
            lemma_add_mod_noop(hs, weighted(v@, i as int) as int, mi);
            assert(hash_sum(v@, i + 1, lim as nat) == hs + weighted(v@, i as int) % (lim as nat));
            lemma_add_mod_noop(hs, (weighted(v@, i as int) % (lim as nat)) as int, mi);
            vstd::arithmetic::div_mod::lemma_small_mod(t as nat, lim as nat);
        }
        sum = (sum + t) % m;
        i = i + 1;
    }
    proof {
        let hs = hash_sum(v@, v@.len() as int, lim as nat) as int;
        vstd::arithmetic::div_mod::lemma_mod_twice(hs, mi);
    }
    (sum % m + 1) as u8
}

} // verus!
