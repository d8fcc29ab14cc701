use vstd::prelude::*;
use vstd::arithmetic::div_mod::{lemma_fundamental_div_mod, lemma_fundamental_div_mod_converse};

verus! {

/// `-(b + 1)` modulo `m` is `m - 1 - b % m`.
proof fn lemma_mod_of_negative(b: int, m: int)
    requires
        b >= 0,
        m > 0,
    ensures
        (-(b + 1)) % m == m - 1 - b % m,
{
    lemma_fundamental_div_mod(b, m);
    let q = b / m;
    let r = b % m;
    assert(-(b + 1) == m * (-q - 1) + (m - 1 - r)) by (nonlinear_arith)
        requires
            b == m * q + r,
    ;
    lemma_fundamental_div_mod_converse(-(b + 1), m, -q - 1, m - 1 - r);
}

/// `a` modulo `m`, always in `0..m`.
pub fn rem_euclid_i64(a: i64, m: i64) -> (r: i64)
    requires
        m > 0,
    ensures
        r == a % m,
{
    if a >= 0 {
        a % m
    } else {
        let b: i64 = -(a + 1);
        let r: i64 = b % m;
        proof {
            lemma_mod_of_negative(b as int, m as int);
        }
        m - 1 - r
    }
}

/// `a` modulo `m`, always in `0..m`.
pub fn rem_euclid_i32(a: i32, m: i32) -> (r: i32)
    requires
        m > 0,
    ensures
        r == a % m,
{
    if a >= 0 {
        a % m
    } else {
        let b: i32 = -(a + 1);
        let r: i32 = b % m;
        proof {
            lemma_mod_of_negative(b as int, m as int);
        }
        m - 1 - r
    }
}


/// Division rounding toward zero.
pub open spec fn div_trunc(a: int, b: int) -> int {
    if a >= 0 {
        a / b
    } else {
        -((-a) / b)
    }
}

/// `a / b` as machine division computes it, rounding toward zero.
pub fn div_trunc_i32(a: i32, b: i32) -> (r: i32)
    requires
        b > 0,
    ensures
        r == div_trunc(a as int, b as int),
{
    if a >= 0 {
        let q: u32 = (a as u32) / (b as u32);
        proof {
            vstd::arithmetic::div_mod::lemma_div_is_ordered_by_denominator(a as int, 1, b as int);
            vstd::arithmetic::div_mod::lemma_div_basics(a as int);
        }
        q as i32
    } else {
        let na: i64 = -(a as i64);
        let q: i64 = na / (b as i64);
        proof {
            vstd::arithmetic::div_mod::lemma_div_is_ordered_by_denominator(na as int, 1, b as int);
            vstd::arithmetic::div_mod::lemma_div_basics(na as int);
        }
        (-q) as i32
    }
}

} // verus!

