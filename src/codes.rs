//! The fixed tables of the compute instruction's three fields, and the
//! layout of its 16-bit word.
use crate::binary::{bits, bits_value, lemma_bits_shape, lemma_bits_value};
use crate::text::segment_is;
use vstd::arithmetic::power2::{lemma2_to64, pow2};
use vstd::prelude::*;

verus! {

/// The 3-bit code of a destination field (`A`, `M`, `D` from high bit to low).
pub open spec fn dest_table(s: Seq<char>) -> Option<u8> {
    if s == ""@ {
        Some(0)
    } else if s == "M"@ {
        Some(1)
    } else if s == "D"@ {
        Some(2)
    } else if s == "MD"@ {
        Some(3)
    } else if s == "A"@ {
        Some(4)
    } else if s == "AM"@ {
        Some(5)
    } else if s == "AD"@ {
        Some(6)
    } else if s == "AMD"@ {
        Some(7)
    } else {
        None
    }
}

/// The destination field that a 3-bit code stands for.
pub open spec fn dest_name(c: nat) -> Seq<char> {
    if c == 1 {
        "M"@
    } else if c == 2 {
        "D"@
    } else if c == 3 {
        "MD"@
    } else if c == 4 {
        "A"@
    } else if c == 5 {
        "AM"@
    } else if c == 6 {
        "AD"@
    } else if c == 7 {
        "AMD"@
    } else {
        ""@
    }
}

/// The 7-bit code (the `a` bit and six ALU control bits) of a computation.
pub open spec fn comp_table(s: Seq<char>) -> Option<u8> {
    if s == "0"@ {
        Some(42)
    } else if s == "1"@ {
        Some(63)
    } else if s == "-1"@ {
        Some(58)
    } else if s == "D"@ {
        Some(12)
    } else if s == "A"@ {
        Some(48)
    } else if s == "!D"@ {
        Some(13)
    } else if s == "!A"@ {
        Some(49)
    } else if s == "-D"@ {
        Some(15)
    } else if s == "-A"@ {
        Some(51)
    } else if s == "D+1"@ {
        Some(31)
    } else if s == "A+1"@ {
        Some(55)
    } else if s == "D-1"@ {
        Some(14)
    } else if s == "A-1"@ {
        Some(50)
    } else if s == "D+A"@ {
        Some(2)
    } else if s == "D-A"@ {
        Some(19)
    } else if s == "A-D"@ {
        Some(7)
    } else if s == "D&A"@ {
        Some(0)
    } else if s == "D|A"@ {
        Some(21)
    } else if s == "M"@ {
        Some(112)
    } else if s == "!M"@ {
        Some(113)
    } else if s == "-M"@ {
        Some(115)
    } else if s == "M+1"@ {
        Some(119)
    } else if s == "M-1"@ {
        Some(114)
    } else if s == "D+M"@ {
        Some(66)
    } else if s == "D-M"@ {
        Some(83)
    } else if s == "M-D"@ {
        Some(71)
    } else if s == "D&M"@ {
        Some(64)
    } else if s == "D|M"@ {
        Some(85)
    } else {
        None
    }
}

/// The computation that a 7-bit code stands for.
pub open spec fn comp_name(c: nat) -> Seq<char> {
    if c == 42 {
        "0"@
    } else if c == 63 {
        "1"@
    } else if c == 58 {
        "-1"@
    } else if c == 12 {
        "D"@
    } else if c == 48 {
        "A"@
    } else if c == 13 {
        "!D"@
    } else if c == 49 {
        "!A"@
    } else if c == 15 {
        "-D"@
    } else if c == 51 {
        "-A"@
    } else if c == 31 {
        "D+1"@
    } else if c == 55 {
        "A+1"@
    } else if c == 14 {
        "D-1"@
    } else if c == 50 {
        "A-1"@
    } else if c == 2 {
        "D+A"@
    } else if c == 19 {
        "D-A"@
    } else if c == 7 {
        "A-D"@
    } else if c == 0 {
        "D&A"@
    } else if c == 21 {
        "D|A"@
    } else if c == 112 {
        "M"@
    } else if c == 113 {
        "!M"@
    } else if c == 115 {
        "-M"@
    } else if c == 119 {
        "M+1"@
    } else if c == 114 {
        "M-1"@
    } else if c == 66 {
        "D+M"@
    } else if c == 83 {
        "D-M"@
    } else if c == 71 {
        "M-D"@
    } else if c == 64 {
        "D&M"@
    } else {
        "D|M"@
    }
}

/// The 3-bit code of a jump condition.
pub open spec fn jump_table(s: Seq<char>) -> Option<u8> {
    if s == ""@ {
        Some(0)
    } else if s == "JGT"@ {
        Some(1)
    } else if s == "JEQ"@ {
        Some(2)
    } else if s == "JGE"@ {
        Some(3)
    } else if s == "JLT"@ {
        Some(4)
    } else if s == "JNE"@ {
        Some(5)
    } else if s == "JLE"@ {
        Some(6)
    } else if s == "JMP"@ {
        Some(7)
    } else {
        None
    }
}

/// The jump condition that a 3-bit code stands for.
pub open spec fn jump_name(c: nat) -> Seq<char> {
    if c == 1 {
        "JGT"@
    } else if c == 2 {
        "JEQ"@
    } else if c == 3 {
        "JGE"@
    } else if c == 4 {
        "JLT"@
    } else if c == 5 {
        "JNE"@
    } else if c == 6 {
        "JLE"@
    } else if c == 7 {
        "JMP"@
    } else {
        ""@
    }
}

/// The word of a compute instruction: `111`, then the computation, the
/// destination and the jump codes.
pub open spec fn compute_word(comp: nat, dest: nat, jump: nat) -> Seq<char> {
    seq!['1', '1', '1'] + bits(comp, 7) + bits(dest, 3) + bits(jump, 3)
}

/// Looks up the destination field `v[lo..hi]`.
pub fn dest_code(v: &Vec<char>, lo: usize, hi: usize) -> (r: Option<u8>)
    requires
        lo <= hi <= v@.len(),
    ensures
        r == dest_table(v@.subrange(lo as int, hi as int)),
{
    if segment_is(v, lo, hi, "") {
        Some(0)
    } else if segment_is(v, lo, hi, "M") {
        Some(1)
    } else if segment_is(v, lo, hi, "D") {
        Some(2)
    } else if segment_is(v, lo, hi, "MD") {
        Some(3)
    } else if segment_is(v, lo, hi, "A") {
        Some(4)
    } else if segment_is(v, lo, hi, "AM") {
        Some(5)
    } else if segment_is(v, lo, hi, "AD") {
        Some(6)
    } else if segment_is(v, lo, hi, "AMD") {
        Some(7)
    } else {
        None
    }
}

/// Looks up the computation `v[lo..hi]`.
pub fn comp_code(v: &Vec<char>, lo: usize, hi: usize) -> (r: Option<u8>)
    requires
        lo <= hi <= v@.len(),
    ensures
        r == comp_table(v@.subrange(lo as int, hi as int)),
{
    if segment_is(v, lo, hi, "0") {
        Some(42)
    } else if segment_is(v, lo, hi, "1") {
        Some(63)
    } else if segment_is(v, lo, hi, "-1") {
        Some(58)
    } else if segment_is(v, lo, hi, "D") {
        Some(12)
    } else if segment_is(v, lo, hi, "A") {
        Some(48)
    } else if segment_is(v, lo, hi, "!D") {
        Some(13)
    } else if segment_is(v, lo, hi, "!A") {
        Some(49)
    } else if segment_is(v, lo, hi, "-D") {
        Some(15)
    } else if segment_is(v, lo, hi, "-A") {
        Some(51)
    } else if segment_is(v, lo, hi, "D+1") {
        Some(31)
    } else if segment_is(v, lo, hi, "A+1") {
        Some(55)
    } else if segment_is(v, lo, hi, "D-1") {
        Some(14)
    } else if segment_is(v, lo, hi, "A-1") {
        Some(50)
    } else if segment_is(v, lo, hi, "D+A") {
        Some(2)
    } else if segment_is(v, lo, hi, "D-A") {
        Some(19)
    } else if segment_is(v, lo, hi, "A-D") {
        Some(7)
    } else if segment_is(v, lo, hi, "D&A") {
        Some(0)
    } else if segment_is(v, lo, hi, "D|A") {
        Some(21)
    } else if segment_is(v, lo, hi, "M") {
        Some(112)
    } else if segment_is(v, lo, hi, "!M") {
        Some(113)
    } else if segment_is(v, lo, hi, "-M") {
        Some(115)
    } else if segment_is(v, lo, hi, "M+1") {
        Some(119)
    } else if segment_is(v, lo, hi, "M-1") {
        Some(114)
    } else if segment_is(v, lo, hi, "D+M") {
        Some(66)
    } else if segment_is(v, lo, hi, "D-M") {
        Some(83)
    } else if segment_is(v, lo, hi, "M-D") {
        Some(71)
    } else if segment_is(v, lo, hi, "D&M") {
        Some(64)
    } else if segment_is(v, lo, hi, "D|M") {
        Some(85)
    } else {
        None
    }
}

/// Looks up the jump condition `v[lo..hi]`.
pub fn jump_code(v: &Vec<char>, lo: usize, hi: usize) -> (r: Option<u8>)
    requires
        lo <= hi <= v@.len(),
    ensures
        r == jump_table(v@.subrange(lo as int, hi as int)),
{
    if segment_is(v, lo, hi, "") {
        Some(0)
    } else if segment_is(v, lo, hi, "JGT") {
        Some(1)
    } else if segment_is(v, lo, hi, "JEQ") {
        Some(2)
    } else if segment_is(v, lo, hi, "JGE") {
        Some(3)
    } else if segment_is(v, lo, hi, "JLT") {
        Some(4)
    } else if segment_is(v, lo, hi, "JNE") {
        Some(5)
    } else if segment_is(v, lo, hi, "JLE") {
        Some(6)
    } else if segment_is(v, lo, hi, "JMP") {
        Some(7)
    } else {
        None
    }
}

/// Each table entry is read back from its code.
pub proof fn lemma_tables_invert(dest: Seq<char>, comp: Seq<char>, jump: Seq<char>)
    ensures
        dest_table(dest) matches Some(c) ==> c < 8 && dest_name(c as nat) == dest,
        comp_table(comp) matches Some(c) ==> c < 128 && comp_name(c as nat) == comp,
        jump_table(jump) matches Some(c) ==> c < 8 && jump_name(c as nat) == jump,
{
}

/// Reading the fields back out of a compute word gives the fields that were
/// encoded, for every valid destination, computation and jump.
pub proof fn lemma_compute_word_decodes(dest: Seq<char>, comp: Seq<char>, jump: Seq<char>)
    requires
        dest_table(dest) is Some,
        comp_table(comp) is Some,
        jump_table(jump) is Some,
    ensures
        ({
            let w = compute_word(
                comp_table(comp)->0 as nat,
                dest_table(dest)->0 as nat,
                jump_table(jump)->0 as nat,
            );
            &&& w.len() == 16
            &&& w.subrange(0, 3) == seq!['1', '1', '1']
            &&& comp_name(bits_value(w.subrange(3, 10))) == comp
            &&& dest_name(bits_value(w.subrange(10, 13))) == dest
            &&& jump_name(bits_value(w.subrange(13, 16))) == jump
        }),
{
    let c = comp_table(comp)->0 as nat;
    let d = dest_table(dest)->0 as nat;
    let j = jump_table(jump)->0 as nat;
    lemma_tables_invert(dest, comp, jump);
    lemma2_to64();
    lemma_bits_shape(c, 7);
    lemma_bits_shape(d, 3);
    lemma_bits_shape(j, 3);
    lemma_bits_value(c, 7);
    lemma_bits_value(d, 3);
    lemma_bits_value(j, 3);
    let w = compute_word(c, d, j);
    assert(w.subrange(0, 3) == seq!['1', '1', '1']);
    assert(w.subrange(3, 10) == bits(c, 7));
    assert(w.subrange(10, 13) == bits(d, 3));
    assert(w.subrange(13, 16) == bits(j, 3));
}

} // verus!
