//! The three instruction shapes, how each is read from its text and how each
//! real instruction is rendered as a 16-bit word.
use crate::binary::{bits, bits_value, lemma_bits_shape, lemma_bits_value, push_bits};
use crate::codes::{comp_code, comp_table, compute_word, dest_code, dest_table, jump_code, jump_table};
use crate::text::chars_of;
use vstd::arithmetic::power2::lemma2_to64;
use vstd::prelude::*;

verus! {

/// Why a line cannot be translated.
#[derive(Debug, Clone, Copy, PartialEq, Eq, Structural)]
pub enum ParseError {
    /// The line starts with a character that no instruction starts with.
    InvalidCharacter,
    /// The text after `@` is neither a decimal address below 32768 nor a symbol.
    InvalidAddress,
    /// A label is not a symbol between `(` and `)`.
    InvalidLabel,
    /// A destination, computation or jump field is not in its table.
    InvalidOperand,
}

/// The largest address an address instruction can load.
pub const MAX_ADDRESS: i16 = 32767;

/// What an address instruction loads: a number, or a name still to be resolved.
pub enum AddressTarget {
    Literal(i16),
    Symbolic(String),
}

/// The model of an address target.
pub enum TargetModel {
    Literal(int),
    Symbolic(Seq<char>),
}

/// `@value` or `@symbol`.
pub struct AInstruction {
    pub target: AddressTarget,
}

/// `dest=comp;jump`, held as the three codes of its fields.
pub struct CInstruction {
    dest: u8,
    comp: u8,
    jump: u8,
}

/// `(symbol)`: names the address of the next real instruction.
pub struct LInstruction {
    pub symbol: String,
}

/// One parsed instruction.
pub enum InstructionType {
    C(CInstruction),
    A(AInstruction),
    L(LInstruction),
}

/// The model of an instruction: compute codes are (comp, dest, jump).
pub enum InstrModel {
    Address(TargetModel),
    Compute(nat, nat, nat),
    Label(Seq<char>),
}

impl View for AddressTarget {
    type V = TargetModel;

    open spec fn view(&self) -> TargetModel {
        match self {
            AddressTarget::Literal(n) => TargetModel::Literal(*n as int),
            AddressTarget::Symbolic(s) => TargetModel::Symbolic(s@),
        }
    }
}

impl View for CInstruction {
    type V = (nat, nat, nat);

    closed spec fn view(&self) -> (nat, nat, nat) {
        (self.comp as nat, self.dest as nat, self.jump as nat)
    }
}

impl View for InstructionType {
    type V = InstrModel;

    open spec fn view(&self) -> InstrModel {
        match self {
            InstructionType::C(c) => InstrModel::Compute(c@.0, c@.1, c@.2),
            InstructionType::A(a) => InstrModel::Address(a.target@),
            InstructionType::L(l) => InstrModel::Label(l.symbol@),
        }
    }
}

/// Every numeric address in the program can be loaded (is non-negative).
pub open spec fn literals_in_range(p: Seq<InstrModel>) -> bool {
    forall|i: int|
        0 <= i < p.len() ==> (#[trigger] p[i] matches InstrModel::Address(
            TargetModel::Literal(a),
        ) ==> a >= 0)
}

pub open spec fn is_digit(c: char) -> bool {
    '0' as u32 <= c as u32 <= '9' as u32
}

/// A character that may start a symbol: a letter, `_`, `.` or `$`.
pub open spec fn is_symbol_start(c: char) -> bool {
    ||| 'A' as u32 <= c as u32 <= 'Z' as u32
    ||| 'a' as u32 <= c as u32 <= 'z' as u32
    ||| c == '_'
    ||| c == '.'
    ||| c == '$'
}

pub open spec fn is_symbol_char(c: char) -> bool {
    is_symbol_start(c) || is_digit(c)
}

/// `[A-Za-z_.$][A-Za-z0-9_.$]*`
pub open spec fn is_symbol(s: Seq<char>) -> bool {
    &&& s.len() > 0
    &&& is_symbol_start(s[0])
    &&& forall|i: int| 1 <= i < s.len() ==> #[trigger] is_symbol_char(s[i])
}

pub open spec fn all_digits(s: Seq<char>) -> bool {
    &&& s.len() > 0
    &&& forall|i: int| 0 <= i < s.len() ==> #[trigger] is_digit(s[i])
}

/// The value of a string of decimal digits.
pub open spec fn decimal_value(s: Seq<char>) -> nat
    decreases s.len(),
{
    if s.len() == 0 {
        0
    } else {
        10 * decimal_value(s.drop_last()) + (s.last() as u32 - '0' as u32) as nat
    }
}

/// What the text after `@` denotes.
pub open spec fn target_of(s: Seq<char>) -> Result<TargetModel, ParseError> {
    if all_digits(s) {
        if decimal_value(s) <= MAX_ADDRESS {
            Ok(TargetModel::Literal(decimal_value(s) as int))
        } else {
            Err(ParseError::InvalidAddress)
        }
    } else if is_symbol(s) {
        Ok(TargetModel::Symbolic(s))
    } else {
        Err(ParseError::InvalidAddress)
    }
}

/// An address instruction's text: `@` and a target.
pub open spec fn address_of_text(s: Seq<char>) -> Result<TargetModel, ParseError> {
    if s.len() > 0 && s[0] == '@' {
        target_of(s.subrange(1, s.len() as int))
    } else {
        Err(ParseError::InvalidAddress)
    }
}

/// A label's text: a symbol between parentheses.
pub open spec fn label_of_text(s: Seq<char>) -> Result<Seq<char>, ParseError> {
    if s.len() >= 2 && s[0] == '(' && s.last() == ')' && is_symbol(s.subrange(1, s.len() - 1)) {
        Ok(s.subrange(1, s.len() - 1))
    } else {
        Err(ParseError::InvalidLabel)
    }
}

/// The first index at or after `i` that holds `c`, or the length of `s`.
pub open spec fn find_char(s: Seq<char>, c: char, i: int) -> int
    decreases s.len() - i,
{
    if i < 0 || i >= s.len() {
        s.len() as int
    } else if s[i] == c {
        i
    } else {
        find_char(s, c, i + 1)
    }
}

/// Where the computation field starts: after the first `=`, or at 0.
pub open spec fn comp_start(s: Seq<char>) -> int {
    let eq = find_char(s, '=', 0);
    if eq < s.len() {
        eq + 1
    } else {
        0
    }
}

/// The destination field: what stands before the first `=`, if any.
pub open spec fn dest_field(s: Seq<char>) -> Seq<char> {
    let eq = find_char(s, '=', 0);
    if eq < s.len() {
        s.subrange(0, eq)
    } else {
        Seq::empty()
    }
}

/// The computation field: from `comp_start` to the next `;`.
pub open spec fn comp_field(s: Seq<char>) -> Seq<char> {
    s.subrange(comp_start(s), find_char(s, ';', comp_start(s)))
}

/// The jump field: what follows that `;`, if any.
pub open spec fn jump_field(s: Seq<char>) -> Seq<char> {
    let semi = find_char(s, ';', comp_start(s));
    if semi < s.len() {
        s.subrange(semi + 1, s.len() as int)
    } else {
        Seq::empty()
    }
}

/// A compute instruction's text `[dest=]comp[;jump]`, as (comp, dest, jump) codes.
pub open spec fn compute_of_text(s: Seq<char>) -> Result<(nat, nat, nat), ParseError> {
    match (comp_table(comp_field(s)), dest_table(dest_field(s)), jump_table(jump_field(s))) {
        (Some(c), Some(d), Some(j)) => Ok((c as nat, d as nat, j as nat)),
        _ => Err(ParseError::InvalidOperand),
    }
}

/// The word of an address instruction: `0`, then 15 bits of the address.
pub open spec fn address_word(n: int) -> Seq<char> {
    seq!['0'] + bits(n as nat, 15)
}

/// The word that loads a numeric address is a `0` followed by the address
/// in 15 binary digits, left-padded with zeros.
pub proof fn lemma_address_word(n: int)
    requires
        0 <= n <= MAX_ADDRESS,
    ensures
        address_word(n).len() == 16,
        address_word(n)[0] == '0',
        address_word(n).subrange(1, 16) == bits(n as nat, 15),
        bits_value(address_word(n).subrange(1, 16)) == n,
        forall|i: int| 0 <= i < 16 ==> #[trigger] address_word(n)[i] == '0' || address_word(n)[i] == '1',
{
    lemma2_to64();
    lemma_bits_shape(n as nat, 15);
    lemma_bits_value(n as nat, 15);
    assert(address_word(n).subrange(1, 16) == bits(n as nat, 15));
    assert forall|i: int| 0 <= i < 16 implies #[trigger] address_word(n)[i] == '0' || address_word(n)[i] == '1' by {
        if i > 0 {
            assert(address_word(n)[i] == bits(n as nat, 15)[i - 1]);
        }
    }
}

/// Renders the word that loads address `n`.
pub fn address_binary(n: i16) -> (r: String)
    requires
        n >= 0,
    ensures
        r@ == address_word(n as int),
{
    let mut r = String::from_str("0");
    proof {
        reveal_strlit("0");
    }
    push_bits(&mut r, n as u16, 15);
    r
}

/// The first index in `from..v.len()` that holds `c`, or `v.len()`.
fn find_in(v: &Vec<char>, c: char, from: usize) -> (r: usize)
    requires
        from <= v@.len(),
    ensures
        r as int == find_char(v@, c, from as int),
        from <= r <= v@.len(),
{
    let mut i = from;
    while i < v.len()
        invariant
            from <= i <= v@.len(),
            find_char(v@, c, from as int) == find_char(v@, c, i as int),
        decreases v@.len() - i,
    {
        if v[i] == c {
            return i;
        }
        i = i + 1;
    }
    i
}

fn char_is_digit(c: char) -> (r: bool)
    ensures
        r == is_digit(c),
{
    '0' as u32 <= c as u32 && c as u32 <= '9' as u32
}

fn char_is_symbol_start(c: char) -> (r: bool)
    ensures
        r == is_symbol_start(c),
{
    let u = c as u32;
    ('A' as u32 <= u && u <= 'Z' as u32) || ('a' as u32 <= u && u <= 'z' as u32) || c == '_'
        || c == '.' || c == '$'
}

/// Whether `v[lo..]` is a symbol.
fn symbol_from(v: &Vec<char>, lo: usize, hi: usize) -> (r: bool)
    requires
        lo <= hi <= v@.len(),
    ensures
        r == is_symbol(v@.subrange(lo as int, hi as int)),
{
    if lo == hi || !char_is_symbol_start(v[lo]) {
        return false;
    }
    let mut i = lo + 1;
    while i < hi
        invariant
            lo < i <= hi <= v@.len(),
            forall|k: int| lo + 1 <= k < i ==> #[trigger] is_symbol_char(v@[k]),
        decreases hi - i,
    {
        if !(char_is_symbol_start(v[i]) || char_is_digit(v[i])) {
            assert(!is_symbol_char(v@.subrange(lo as int, hi as int)[i - lo]));
            return false;
        }
        i = i + 1;
    }
    let ghost s = v@.subrange(lo as int, hi as int);
    assert forall|k: int| 1 <= k < s.len() implies #[trigger] is_symbol_char(s[k]) by {
        assert(s[k] == v@[lo + k]);
    }
    true
}

/// A longer string of digits is worth at least as much as its prefix.
proof fn lemma_decimal_prefix(s: Seq<char>, k: int)
    requires
        0 <= k <= s.len(),
    ensures
        decimal_value(s.subrange(0, k)) <= decimal_value(s),
    decreases s.len(),
{
    if k < s.len() {
        lemma_decimal_prefix(s.drop_last(), k);
        assert(s.drop_last().subrange(0, k) == s.subrange(0, k));
    } else {
        assert(s.subrange(0, k) == s);
    }
}

/// The value of the digits `v[lo..hi]`, when it is an address.
fn decimal_from(v: &Vec<char>, lo: usize, hi: usize) -> (r: Option<i16>)
    requires
        lo <= hi <= v@.len(),
        all_digits(v@.subrange(lo as int, hi as int)),
    ensures
        ({
            let n = decimal_value(v@.subrange(lo as int, hi as int));
            if n <= MAX_ADDRESS {
                r == Some(n as i16)
            } else {
                r is None
            }
        }),
{
    let ghost s = v@.subrange(lo as int, hi as int);
    let mut acc: u32 = 0;
    let mut i = lo;
    while i < hi
        invariant
            lo <= i <= hi <= v@.len(),
            s == v@.subrange(lo as int, hi as int),
            all_digits(s),
            acc as nat == decimal_value(v@.subrange(lo as int, i as int)),
            acc <= 32767,
        decreases hi - i,
    {
        let ghost t = v@.subrange(lo as int, i + 1);
        assert(t.drop_last() == v@.subrange(lo as int, i as int));
        assert(is_digit(s[i - lo]));
        acc = acc * 10 + (v[i] as u32 - '0' as u32);
        if acc > 32767 {
            proof {
                assert(t == s.subrange(0, i + 1 - lo));
                lemma_decimal_prefix(s, i + 1 - lo);
            }
            return None;
        }
        i = i + 1;
    }
    Some(acc as i16)
}

/// Reads the target of an address instruction from `v[lo..hi]`.
fn target_from(raw: &str, v: &Vec<char>, lo: usize, hi: usize) -> (r: Result<AddressTarget, ParseError>)
    requires
        v@ == raw@,
        lo <= hi <= v@.len(),
    ensures
        match (r, target_of(v@.subrange(lo as int, hi as int))) {
            (Ok(t), Ok(m)) => t@ == m,
            (Err(e), Err(f)) => e == f,
            _ => false,
        },
{
    let ghost s = v@.subrange(lo as int, hi as int);
    let mut digits = lo < hi;
    let mut i = lo;
    while i < hi
        invariant
            lo <= i <= hi <= v@.len(),
            s == v@.subrange(lo as int, hi as int),
            digits == (lo < hi && forall|k: int| lo <= k < i ==> #[trigger] is_digit(v@[k])),
        decreases hi - i,
    {
        if !char_is_digit(v[i]) {
            digits = false;
        }
        i = i + 1;
    }
    assert(digits == all_digits(s)) by {
        if !digits && lo < hi {
            let k = choose|k: int| lo <= k < hi && !#[trigger] is_digit(v@[k]);
            assert(s[k - lo] == v@[k]);
        }
        if digits {
            assert forall|k: int| 0 <= k < s.len() implies #[trigger] is_digit(s[k]) by {
                assert(s[k] == v@[lo + k]);
            }
        }
    }
    if digits {
        match decimal_from(v, lo, hi) {
            Some(n) => Ok(AddressTarget::Literal(n)),
            None => Err(ParseError::InvalidAddress),
        }
    } else if symbol_from(v, lo, hi) {
        let name = String::from_str(raw.substring_char(lo, hi));
        Ok(AddressTarget::Symbolic(name))
    } else {
        Err(ParseError::InvalidAddress)
    }
}

impl AInstruction {
    /// Reads `@value` or `@symbol`.
    pub fn new(raw: String) -> (r: Result<AInstruction, ParseError>)
        ensures
            match (r, address_of_text(raw@)) {
                (Ok(a), Ok(m)) => a.target@ == m,
                (Err(e), Err(f)) => e == f,
                _ => false,
            },
    {
        let v = chars_of(raw.as_str());
        if v.len() == 0 || v[0] != '@' {
            return Err(ParseError::InvalidAddress);
        }
        match target_from(raw.as_str(), &v, 1, v.len()) {
            Ok(target) => Ok(AInstruction { target }),
            Err(e) => Err(e),
        }
    }

    /// Whether the instruction already holds a numeric address.
    pub fn resolved_symbol_to_address(&self) -> (r: bool)
        ensures
            r == (self.target is Literal),
    {
        match self.target {
            AddressTarget::Literal(_) => true,
            AddressTarget::Symbolic(_) => false,
        }
    }

    /// The word of a resolved instruction.
    pub fn to_binary(&self) -> (r: String)
        requires
            self.target matches AddressTarget::Literal(n) && n >= 0,
        ensures
            r@ == address_word(self.target@->Literal_0),
    {
        match self.target {
            AddressTarget::Literal(n) => address_binary(n),
            AddressTarget::Symbolic(_) => address_binary(0),
        }
    }
}

impl LInstruction {
    /// Reads `(symbol)`.
    pub fn new(raw: String) -> (r: Result<LInstruction, ParseError>)
        ensures
            match (r, label_of_text(raw@)) {
                (Ok(l), Ok(m)) => l.symbol@ == m,
                (Err(e), Err(f)) => e == f,
                _ => false,
            },
    {
        let v = chars_of(raw.as_str());
        let n = v.len();
        if n < 2 || v[0] != '(' || v[n - 1] != ')' || !symbol_from(&v, 1, n - 1) {
            return Err(ParseError::InvalidLabel);
        }
        let symbol = String::from_str(raw.as_str().substring_char(1, n - 1));
        Ok(LInstruction { symbol })
    }
}

impl CInstruction {
    /// Reads `[dest=]comp[;jump]`.
    pub fn new(raw: String) -> (r: Result<CInstruction, ParseError>)
        ensures
            match (r, compute_of_text(raw@)) {
                (Ok(c), Ok(m)) => c@ == m,
                (Err(e), Err(f)) => e == f,
                _ => false,
            },
    {
        let v = chars_of(raw.as_str());
        let n = v.len();
        let eq = find_in(&v, '=', 0);
        let (dest_end, start) = if eq < n {
            (eq, eq + 1)
        } else {
            (0, 0)
        };
        let semi = find_in(&v, ';', start);
        let jump_start = if semi < n {
            semi + 1
        } else {
            n
        };
        let dest = dest_code(&v, 0, dest_end);
        let comp = comp_code(&v, start, semi);
        let jump = jump_code(&v, jump_start, n);
        proof {
            let s = raw@;
            assert(v@.subrange(0, 0) == Seq::<char>::empty());
            assert(v@.subrange(n as int, n as int) == Seq::<char>::empty());
            assert(dest_field(s) == v@.subrange(0, dest_end as int));
            assert(comp_field(s) == v@.subrange(start as int, semi as int));
            assert(jump_field(s) == v@.subrange(jump_start as int, n as int));
        }
        match (comp, dest, jump) {
            (Some(comp), Some(dest), Some(jump)) => Ok(CInstruction { dest, comp, jump }),
            _ => Err(ParseError::InvalidOperand),
        }
    }

    /// The word `111`, computation, destination, jump.
    pub fn to_binary(&self) -> (r: String)
        ensures
            r@ == compute_word(self@.0, self@.1, self@.2),
    {
        let mut r = String::from_str("111");
        proof {
            reveal_strlit("111");
        }
        push_bits(&mut r, self.comp as u16, 7);
        push_bits(&mut r, self.dest as u16, 3);
        push_bits(&mut r, self.jump as u16, 3);
        proof {
            assert(r@ == compute_word(self@.0, self@.1, self@.2));
        }
        r
    }
}

} // verus!
