//! Packed n-gram keys of the word trigram LMs: token ids are `u32`, a
//! bigram key packs `(h1, w)` into a `u64` and a trigram key packs
//! `(h2, h1, w)` into a `u128`, so the count tables key on integers.

use vstd::prelude::*;

verus! {

pub open spec fn bi_key_spec(h1: u32, w: u32) -> int {
    h1 as int * 0x1_0000_0000 + w as int
}

pub open spec fn tri_key_spec(h2: u32, h1: u32, w: u32) -> int {
    h2 as int * 0x1_0000_0000_0000_0000 + h1 as int * 0x1_0000_0000 + w as int
}

/// Bigram key: `h1` in the high half, `w` in the low half.
pub fn bi_key(h1: u32, w: u32) -> (k: u64)
    ensures
        k == bi_key_spec(h1, w),
{
    let k = ((h1 as u64) << 32u64) | w as u64;
    assert(k == h1 as u64 * 0x1_0000_0000u64 + w as u64) by (bit_vector)
        requires
            k == ((h1 as u64) << 32u64) | w as u64,
    ;
    k
}

/// Trigram key: `h2`, `h1`, `w` from the high bits down.
pub fn tri_key(h2: u32, h1: u32, w: u32) -> (k: u128)
    ensures
        k == tri_key_spec(h2, h1, w),
{
    let a = h2 as u128;
    let b = h1 as u128;
    let c = w as u128;
    let lo = (b << 32u128) | c;
    assert(lo == b * 0x1_0000_0000u128 + c && lo < 0x1_0000_0000_0000_0000u128) by (bit_vector)
        requires
            lo == (b << 32u128) | c,
            b < 0x1_0000_0000u128,
            c < 0x1_0000_0000u128,
    ;
    let hi = a << 64u128;
    assert(hi == a * 0x1_0000_0000_0000_0000u128) by (bit_vector)
        requires
            hi == a << 64u128,
            a < 0x1_0000_0000u128,
    ;
    let k = hi | lo;
    assert(k == hi + lo) by (bit_vector)
        requires
            k == hi | lo,
            hi % 0x1_0000_0000_0000_0000u128 == 0,
            lo < 0x1_0000_0000_0000_0000u128,
    ;
    k
}

/// The history part of a trigram key, as a bigram key: the denominator
/// slot of the trigram probability.
pub fn tri_history(k: u128) -> (r: u64)
    requires
        k < 0x1_0000_0000_0000_0000_0000_0000,
    ensures
        r == k / 0x1_0000_0000,
{
    let r = (k >> 32u128) as u64;
    assert(r == k / 0x1_0000_0000u128) by (bit_vector)
        requires
            r == (k >> 32u128) as u64,
            k < 0x1_0000_0000_0000_0000_0000_0000u128,
    ;
    r
}

/// The history token of a bigram key: the denominator slot of the bigram
/// probability.
pub fn bi_history(k: u64) -> (r: u32)
    ensures
        r == k / 0x1_0000_0000,
{
    let r = (k >> 32u64) as u32;
    assert(r == k / 0x1_0000_0000u64) by (bit_vector)
        requires
            r == (k >> 32u64) as u32,
    ;
    r
}

/// Distinct n-grams get distinct keys, and a trigram's history slot is the
/// bigram key of its two history tokens; a bigram's history slot is its
/// history token.
pub proof fn law_keys_pack(h2: u32, h1: u32, w: u32, g2: u32, g1: u32, v: u32)
    ensures
        bi_key_spec(h1, w) == bi_key_spec(g1, v) <==> (h1 == g1 && w == v),
        tri_key_spec(h2, h1, w) == tri_key_spec(g2, g1, v) <==> (h2 == g2 && h1 == g1 && w == v),
        tri_key_spec(h2, h1, w) / 0x1_0000_0000 == bi_key_spec(h2, h1),
        bi_key_spec(h1, w) / 0x1_0000_0000 == h1,
{
    assert(tri_key_spec(h2, h1, w) == bi_key_spec(h2, h1) * 0x1_0000_0000 + w) by (nonlinear_arith);
    assert(tri_key_spec(g2, g1, v) == bi_key_spec(g2, g1) * 0x1_0000_0000 + v) by (nonlinear_arith);
    lemma_div_pack(bi_key_spec(h2, h1), w as int);
    lemma_div_pack(h1 as int, w as int);
    lemma_div_pack(bi_key_spec(g2, g1), v as int);
    lemma_div_pack(g1 as int, v as int);
    lemma_div_pack(h2 as int, h1 as int);
    lemma_div_pack(g2 as int, g1 as int);
}

proof fn lemma_div_pack(a: int, b: int)
    requires
        0 <= b < 0x1_0000_0000,
        a >= 0,
    ensures
        (a * 0x1_0000_0000 + b) / 0x1_0000_0000 == a,
        (a * 0x1_0000_0000 + b) % 0x1_0000_0000 == b,
{
    vstd::arithmetic::div_mod::lemma_fundamental_div_mod_converse(a * 0x1_0000_0000 + b, 0x1_0000_0000, a, b);
}

/// The personal-layer slot left silent: adds no probability mass and no
/// lexicon bonus.
pub struct NoPersonalLayer;

} // verus!
