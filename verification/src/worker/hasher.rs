//! The string hash that assigns each key to one of the shuffle splits.
use vstd::prelude::*;
use crate::text::chars_of;

verus! {

/// The low byte of a character's code point (`c as u8`).
pub open spec fn low_byte(c: char) -> nat {
    (c as u32 % 256) as nat
}

/// The weight of position `i`: the square of its number counted from 1.
pub open spec fn square_weight(i: int) -> int {
    (i + 1) * (i + 1)
}

/// The weight of position `i` times the low byte of its character.
pub open spec fn weighted(s: Seq<char>, i: int) -> nat {
    (square_weight(i) * low_byte(s[i])) as nat
}

/// The sum of the first `n` weighted characters, each reduced modulo `lim`.
pub open spec fn hash_sum(s: Seq<char>, n: int, lim: nat) -> nat
    decreases n,
{
    if n <= 0 {
        0
    } else {
        hash_sum(s, n - 1, lim) + weighted(s, n - 1) % lim
    }
}

/// The bucket of `s` among `lim` buckets, numbered from 1.
pub open spec fn bucket_of(s: Seq<char>, lim: nat) -> nat {
    hash_sum(s, s.len() as int, lim) % lim + 1
}

/// Every weighted character and every partial sum of `s` fits in a `usize`.
pub open spec fn hash_fits_usize(s: Seq<char>, lim: nat) -> bool {
    &&& forall|i: int|
        #![trigger weighted(s, i)]
        #![trigger square_weight(i)]
        0 <= i < s.len() ==> square_weight(i) <= usize::MAX && weighted(s, i) <= usize::MAX
    &&& forall|n: int| 0 <= n <= s.len() ==> #[trigger] hash_sum(s, n, lim) <= usize::MAX
}

/// The bucket number, between 1 and `lim`, of the string `v`.
pub fn get_hash(v: &str, lim: usize) -> (h: usize)
    requires
        lim > 0,
        hash_fits_usize(v@, lim as nat),
    ensures
        h == bucket_of(v@, lim as nat),
        1 <= h <= lim,
{
    let cs = chars_of(v);
    let mut sum: usize = 0;
    let mut i: usize = 0;
    while i < cs.len()
        invariant
            cs@ == v@,
            lim > 0,
            hash_fits_usize(v@, lim as nat),
            i <= cs@.len(),
            sum == hash_sum(v@, i as int, lim as nat),
        decreases cs@.len() - i,
    {
        let b = (cs[i] as u32 % 256) as usize;
        assert(weighted(v@, i as int) <= usize::MAX);
        assert(hash_sum(v@, i + 1, lim as nat) <= usize::MAX);
        assert(square_weight(i as int) == (i + 1) * (i + 1));
        let sq = (i + 1) * (i + 1);
        let w = sq * b;
        assert(w == weighted(v@, i as int));
        sum = sum + w % lim;
        i = i + 1;
    }
    sum % lim + 1
}

/// The first `k` weighted characters and partial sums of `s` fit in a `usize`.
pub open spec fn prefix_fits_usize(s: Seq<char>, k: int, lim: nat) -> bool {
    &&& forall|i: int|
        #![trigger weighted(s, i)]
        #![trigger square_weight(i)]
        0 <= i < k ==> square_weight(i) <= usize::MAX && weighted(s, i) <= usize::MAX
    &&& forall|n: int| 0 <= n <= k ==> #[trigger] hash_sum(s, n, lim) <= usize::MAX
}

proof fn lemma_prefix_fits_step(s: Seq<char>, k: int, lim: nat)
    requires
        0 <= k,
        prefix_fits_usize(s, k, lim),
        square_weight(k) <= usize::MAX,
        weighted(s, k) <= usize::MAX,
        hash_sum(s, k + 1, lim) <= usize::MAX,
    ensures
        prefix_fits_usize(s, k + 1, lim),
{
    assert forall|i: int| 0 <= i < k + 1 implies square_weight(i) <= usize::MAX && #[trigger] weighted(
        s,
        i,
    ) <= usize::MAX by {
        if i < k {
            assert(weighted(s, i) <= usize::MAX);
            assert(square_weight(i) <= usize::MAX);
        } else {
            assert(i == k);
            assert(square_weight(i) == square_weight(k));
        }
    }
    assert forall|n: int| 0 <= n <= k + 1 implies #[trigger] hash_sum(s, n, lim) <= usize::MAX by {
        if n <= k {
            assert(hash_sum(s, n, lim) <= usize::MAX);
        }
    }
}

/// The bucket of `v` as `get_hash` computes it, or `None` where `get_hash` would overflow.
pub fn try_get_hash(v: &str, lim: usize) -> (h: Option<usize>)
    requires
        lim > 0,
    ensures
        h is Some <==> hash_fits_usize(v@, lim as nat),
        h matches Some(x) ==> x == bucket_of(v@, lim as nat) && 1 <= x <= lim,
{
    let cs = chars_of(v);
    let mut sum: usize = 0;
    let mut i: usize = 0;
    while i < cs.len()
        invariant
            cs@ == v@,
            lim > 0,
            i <= cs@.len(),
            sum == hash_sum(v@, i as int, lim as nat),
            prefix_fits_usize(v@, i as int, lim as nat),
        decreases cs@.len() - i,
    {
        let b = (cs[i] as u32 % 256) as usize;
        let sq = match (i + 1).checked_mul(i + 1) {
            Some(x) => x,
            None => {
                assert(!(square_weight(i as int) <= usize::MAX && weighted(v@, i as int) <= usize::MAX));
                return None;
            },
        };
        assert(sq == square_weight(i as int));
        let w = match sq.checked_mul(b) {
            Some(x) => x,
            None => {
                assert(weighted(v@, i as int) > usize::MAX);
                return None;
            },
        };
        assert(w == weighted(v@, i as int));
        sum = match sum.checked_add(w % lim) {
            Some(x) => x,
            None => {
                assert(hash_sum(v@, i + 1, lim as nat) > usize::MAX);
                return None;
            },
        };
        proof {
            lemma_prefix_fits_step(v@, i as int, lim as nat);
        }
        i = i + 1;
    }
    Some(sum % lim + 1)
}

} // verus!
