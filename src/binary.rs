//! Rendering of unsigned values as fixed-width strings of `0` and `1`.
use vstd::arithmetic::div_mod::lemma_div_denominator;
use vstd::arithmetic::power2::{
    lemma2_to64, lemma_pow2_pos, lemma_pow2_strictly_increases, lemma_pow2_unfold, pow2,
};
use vstd::prelude::*;

verus! {

/// The character that stands for the lowest bit of `n`.
pub open spec fn bit_char(n: nat) -> char {
    if n % 2 == 1 {
        '1'
    } else {
        '0'
    }
}

/// The lowest `w` bits of `n`, most significant first.
pub open spec fn bits(n: nat, w: nat) -> Seq<char>
    decreases w,
{
    if w == 0 {
        Seq::empty()
    } else {
        bits(n / 2, (w - 1) as nat).push(bit_char(n % 2))
    }
}

/// The value of a string of binary digits, most significant first
/// (any character other than `1` counts as a zero).
pub open spec fn bits_value(s: Seq<char>) -> nat
    decreases s.len(),
{
    if s.len() == 0 {
        0
    } else {
        2 * bits_value(s.drop_last()) + if s.last() == '1' {
            1nat
        } else {
            0nat
        }
    }
}

/// `bits(n, w)` has exactly `w` characters, each of them `0` or `1`.
pub proof fn lemma_bits_shape(n: nat, w: nat)
    ensures
        bits(n, w).len() == w,
        forall|i: int| 0 <= i < w ==> (#[trigger] bits(n, w)[i] == '0' || bits(n, w)[i] == '1'),
    decreases w,
{
    if w > 0 {
        lemma_bits_shape(n / 2, (w - 1) as nat);
    }
}

/// Reading back `w` rendered bits gives the value, when it fits in `w` bits.
pub proof fn lemma_bits_value(n: nat, w: nat)
    requires
        n < pow2(w),
    ensures
        bits_value(bits(n, w)) == n,
    decreases w,
{
    if w == 0 {
        lemma2_to64();
    } else {
        lemma_pow2_unfold(w);
        let rest = bits(n / 2, (w - 1) as nat);
        lemma_bits_value(n / 2, (w - 1) as nat);
        assert(bits(n, w).drop_last() == rest);
    }
}

/// Appends the lowest `w` bits of `n` to `out`, most significant first.
pub fn push_bits(out: &mut String, n: u16, w: u16)
    requires
        1 <= w <= 16,
    ensures
        final(out)@ == old(out)@ + bits(n as nat, w as nat),
{
    proof {
        lemma2_to64();
    }
    // p == 2^(w - 1)
    let mut p: u32 = 1;
    let mut k: u16 = 1;
    while k < w
        invariant
            1 <= k <= w <= 16,
            p as nat == pow2((k - 1) as nat),
        decreases w - k,
    {
        proof {
            lemma_pow2_unfold(k as nat);
            lemma_pow2_strictly_increases((k - 1) as nat, 15);
            lemma2_to64();
        }
        p = p * 2;
        k = k + 1;
    }
    let mut i: u16 = 0;
    while i < w
        invariant
            0 <= i <= w <= 16,
            i < w ==> p as nat == pow2((w - i - 1) as nat),
            out@ == old(out)@ + bits(n as nat / pow2((w - i) as nat), i as nat),
        decreases w - i,
    {
        let ghost e: nat = (w - i - 1) as nat;
        let ghost before = out@;
        proof {
            reveal_strlit("0");
            reveal_strlit("1");
            lemma_pow2_pos(e);
        }
        let d: u32 = (n as u32) / p;
        proof {
            lemma_pow2_unfold(e + 1);
            lemma_div_denominator(n as int, pow2(e) as int, 2);
            assert(bits(n as nat / pow2(e), (i + 1) as nat) == bits(
                n as nat / pow2((w - i) as nat),
                i as nat,
            ).push(bit_char(n as nat / pow2(e))));
        }
        if d % 2 == 1 {
            out.append("1");
        } else {
            out.append("0");
        }
        proof {
            assert(out@ == before.push(bit_char(n as nat / pow2(e))));
            assert(out@ == old(out)@ + bits(n as nat / pow2(e), (i + 1) as nat));
            if e > 0 {
                lemma_pow2_unfold(e);
            }
        }
        p = p / 2;
        i = i + 1;
    }
    proof {
        assert(n as nat / pow2(0) == n as nat);
    }
}

} // verus!
