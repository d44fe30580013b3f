//! The line classifier: comment stripping, trimming, and dispatch on the
//! first character.
use crate::instruction::{
    address_of_text, compute_of_text, label_of_text, literals_in_range, AInstruction, CInstruction, InstrModel,
    InstructionType, LInstruction, ParseError,
};
use crate::text::chars_of;
use vstd::prelude::*;

verus! {

/// A character with the Unicode `White_Space` property.
pub open spec fn is_space(c: char) -> bool {
    let u = c as u32;
    ||| 0x09 <= u <= 0x0D
    ||| u == 0x20
    ||| u == 0x85
    ||| u == 0xA0
    ||| u == 0x1680
    ||| 0x2000 <= u <= 0x200A
    ||| u == 0x2028
    ||| u == 0x2029
    ||| u == 0x202F
    ||| u == 0x205F
    ||| u == 0x3000
}

/// The index of the first `//` at or after `i`, or the length of `s`.
pub open spec fn comment_start(s: Seq<char>, i: int) -> int
    decreases s.len() - i,
{
    if i < 0 || i + 1 >= s.len() {
        s.len() as int
    } else if s[i] == '/' && s[i + 1] == '/' {
        i
    } else {
        comment_start(s, i + 1)
    }
}

/// The first index in `lo..hi` that is not a space, or `hi`.
pub open spec fn skip_spaces(s: Seq<char>, lo: int, hi: int) -> int
    decreases hi - lo,
{
    if lo >= hi {
        hi
    } else if is_space(s[lo]) {
        skip_spaces(s, lo + 1, hi)
    } else {
        lo
    }
}

/// The end of `s[lo..hi]` once trailing spaces are dropped.
pub open spec fn trim_back(s: Seq<char>, lo: int, hi: int) -> int
    decreases hi - lo,
{
    if hi <= lo {
        lo
    } else if is_space(s[hi - 1]) {
        trim_back(s, lo, hi - 1)
    } else {
        hi
    }
}

/// A line without its comment and without surrounding spaces.
pub open spec fn cleaned(s: Seq<char>) -> Seq<char> {
    let e = comment_start(s, 0);
    let lo = skip_spaces(s, 0, e);
    s.subrange(lo, trim_back(s, lo, e))
}

/// The characters that a computation (and so a compute instruction) starts with.
pub open spec fn is_compute_start(c: char) -> bool {
    c == '0' || c == '1' || c == '-' || c == '!' || c == 'A' || c == 'D' || c == 'M'
}

/// What a cleaned line holds: nothing, one instruction, or an error.
pub open spec fn classify(t: Seq<char>) -> Result<Option<InstrModel>, ParseError> {
    if t.len() == 0 {
        Ok(None)
    } else if t[0] == '@' {
        match address_of_text(t) {
            Ok(m) => Ok(Some(InstrModel::Address(m))),
            Err(e) => Err(e),
        }
    } else if t[0] == '(' {
        match label_of_text(t) {
            Ok(m) => Ok(Some(InstrModel::Label(m))),
            Err(e) => Err(e),
        }
    } else if is_compute_start(t[0]) {
        match compute_of_text(t) {
            Ok(m) => Ok(Some(InstrModel::Compute(m.0, m.1, m.2))),
            Err(e) => Err(e),
        }
    } else {
        Err(ParseError::InvalidCharacter)
    }
}

/// What a raw source line holds.
pub open spec fn line_model(s: Seq<char>) -> Result<Option<InstrModel>, ParseError> {
    classify(cleaned(s))
}

pub open spec fn line_view(r: Result<Option<InstructionType>, ParseError>) -> Result<
    Option<InstrModel>,
    ParseError,
> {
    match r {
        Ok(Some(i)) => Ok(Some(i@)),
        Ok(None) => Ok(None),
        Err(e) => Err(e),
    }
}

/// The instructions of the first `n` lines, or the error of the first line
/// that has one.
pub open spec fn program_prefix(ls: Seq<Seq<char>>, n: int) -> Result<Seq<InstrModel>, ParseError>
    decreases n,
{
    if n <= 0 {
        Ok(Seq::empty())
    } else {
        match program_prefix(ls, n - 1) {
            Err(e) => Err(e),
            Ok(p) => match line_model(ls[n - 1]) {
                Err(e) => Err(e),
                Ok(None) => Ok(p),
                Ok(Some(i)) => Ok(p.push(i)),
            },
        }
    }
}

/// The instructions of a whole program, or the error of its first bad line.
pub open spec fn program_model(ls: Seq<Seq<char>>) -> Result<Seq<InstrModel>, ParseError> {
    program_prefix(ls, ls.len() as int)
}

pub open spec fn lines_view(lines: Seq<String>) -> Seq<Seq<char>> {
    lines.map_values(|s: String| s@)
}

pub open spec fn instrs_view(v: Seq<InstructionType>) -> Seq<InstrModel> {
    v.map_values(|i: InstructionType| i@)
}

/// Classifies one raw line.
pub fn parse_line(line: &str) -> (r: Result<Option<InstructionType>, ParseError>)
    ensures
        line_view(r) == line_model(line@),
{
    let v = chars_of(line);
    let n = v.len();
    let mut e: usize = 0;
    while e < n && e + 1 < n && !(v[e] == '/' && v[e + 1] == '/')
        invariant
            e <= n == v@.len(),
            v@ == line@,
            comment_start(v@, 0) == comment_start(v@, e as int),
        decreases n - e,
    {
        e = e + 1;
    }
    if e >= n || e + 1 >= n {
        e = n;
    }
    let mut lo: usize = 0;
    while lo < e && is_space_char(v[lo])
        invariant
            lo <= e <= n == v@.len(),
            skip_spaces(v@, 0, e as int) == skip_spaces(v@, lo as int, e as int),
        decreases e - lo,
    {
        lo = lo + 1;
    }
    let mut hi: usize = e;
    while lo < hi && is_space_char(v[hi - 1])
        invariant
            lo <= hi <= e <= n == v@.len(),
            trim_back(v@, lo as int, e as int) == trim_back(v@, lo as int, hi as int),
        decreases hi - lo,
    {
        hi = hi - 1;
    }
    let ghost t = cleaned(line@);
    assert(t == v@.subrange(lo as int, hi as int));
    if lo == hi {
        return Ok(None);
    }
    let raw = String::from_str(line.substring_char(lo, hi));
    let first = v[lo];
    assert(t[0] == first);
    if first == '@' {
        match AInstruction::new(raw) {
            Ok(a) => Ok(Some(InstructionType::A(a))),
            Err(e) => Err(e),
        }
    } else if first == '(' {
        match LInstruction::new(raw) {
            Ok(l) => Ok(Some(InstructionType::L(l))),
            Err(e) => Err(e),
        }
    } else if first == '0' || first == '1' || first == '-' || first == '!' || first == 'A'
        || first == 'D' || first == 'M' {
        match CInstruction::new(raw) {
            Ok(c) => Ok(Some(InstructionType::C(c))),
            Err(e) => Err(e),
        }
    } else {
        Err(ParseError::InvalidCharacter)
    }
}

fn is_space_char(c: char) -> (r: bool)
    ensures
        r == is_space(c),
{
    let u = c as u32;
    (0x09 <= u && u <= 0x0D) || u == 0x20 || u == 0x85 || u == 0xA0 || u == 0x1680 || (0x2000
        <= u && u <= 0x200A) || u == 0x2028 || u == 0x2029 || u == 0x202F || u == 0x205F || u
        == 0x3000
}

/// Once a prefix of the program has failed, every longer prefix fails the same way.
proof fn lemma_prefix_error_stays(ls: Seq<Seq<char>>, k: int, n: int)
    requires
        0 <= k <= n,
        program_prefix(ls, k) is Err,
    ensures
        program_prefix(ls, n) == program_prefix(ls, k),
    decreases n - k,
{
    if n > k {
        lemma_prefix_error_stays(ls, k, n - 1);
    }
}

/// Classifies every line of a program, in order; the first bad line fails
/// the whole program.
pub fn parse_lines(lines: &Vec<String>) -> (r: Result<Vec<InstructionType>, ParseError>)
    ensures
        match (r, program_model(lines_view(lines@))) {
            (Ok(v), Ok(m)) => instrs_view(v@) == m,
            (Err(e), Err(f)) => e == f,
            _ => false,
        },
        r matches Ok(v) ==> literals_in_range(instrs_view(v@)),
{
    let ghost ls = lines_view(lines@);
    let mut out: Vec<InstructionType> = Vec::new();
    let mut i: usize = 0;
    assert(instrs_view(out@) == Seq::<InstrModel>::empty());
    while i < lines.len()
        invariant
            i <= lines@.len(),
            ls == lines_view(lines@),
            program_prefix(ls, i as int) == Ok::<Seq<InstrModel>, ParseError>(instrs_view(out@)),
            literals_in_range(instrs_view(out@)),
        decreases lines@.len() - i,
    {
        let r = parse_line(lines[i].as_str());
        assert(ls[i as int] == lines@[i as int]@);
        match r {
            Err(e) => {
                proof {
                    lemma_prefix_error_stays(ls, i + 1, ls.len() as int);
                }
                return Err(e);
            },
            Ok(None) => {},
            Ok(Some(instr)) => {
                let ghost prev = out@;
                let ghost m = instr@;
                out.push(instr);
                assert(instrs_view(out@) == instrs_view(prev).push(m));
            },
        }
        i = i + 1;
    }
    Ok(out)
}

/// Two programs that agree on their first `n` lines agree on what those lines hold.
proof fn lemma_prefix_agrees(a: Seq<Seq<char>>, b: Seq<Seq<char>>, n: int)
    requires
        0 <= n <= a.len(),
        n <= b.len(),
        forall|i: int| 0 <= i < n ==> a[i] == b[i],
    ensures
        program_prefix(a, n) == program_prefix(b, n),
    decreases n,
{
    if n > 0 {
        lemma_prefix_agrees(a, b, n - 1);
    }
}

/// A line that is empty once its comment and spaces are gone holds no
/// instruction: inserting it anywhere in a program changes nothing.
pub proof fn lemma_blank_line_adds_nothing(before: Seq<Seq<char>>, blank: Seq<char>, after: Seq<Seq<char>>)
    requires
        cleaned(blank).len() == 0,
    ensures
        line_model(blank) == Ok::<Option<InstrModel>, ParseError>(None),
        program_model(before.push(blank) + after) == program_model(before + after),
{
    let a = before.push(blank) + after;
    let b = before + after;
    let m = before.len() as int;
    lemma_prefix_agrees(a, b, m);
    assert(a[m] == blank);
    lemma_blank_shifts(a, b, m, after.len() as int);
}

proof fn lemma_blank_shifts(a: Seq<Seq<char>>, b: Seq<Seq<char>>, m: int, n: int)
    requires
        0 <= m,
        0 <= n,
        a.len() == m + 1 + n,
        b.len() == m + n,
        cleaned(a[m]).len() == 0,
        forall|i: int| 0 <= i < m ==> a[i] == b[i],
        forall|i: int| m < i < a.len() ==> a[i] == b[i - 1],
        program_prefix(a, m) == program_prefix(b, m),
    ensures
        program_prefix(a, m + 1 + n) == program_prefix(b, m + n),
    decreases n,
{
    if n > 0 {
        lemma_prefix_agrees(a, a.drop_last(), m);
        lemma_prefix_agrees(b, b.drop_last(), m);
        lemma_blank_shifts(a.drop_last(), b.drop_last(), m, n - 1);
        lemma_prefix_agrees(a, a.drop_last(), m + n);
        lemma_prefix_agrees(b, b.drop_last(), m + n - 1);
        assert(a[m + n] == b[m + n - 1]);
    }
}

/// A line whose instruction starts with an unsupported character fails with
/// `InvalidCharacter`, and any failing line fails the whole program.
pub proof fn lemma_bad_line_fails_program(ls: Seq<Seq<char>>, k: int)
    requires
        0 <= k < ls.len(),
        line_model(ls[k]) is Err || ({
            let t = cleaned(ls[k]);
            t.len() > 0 && t[0] != '@' && t[0] != '(' && !is_compute_start(t[0])
        }),
    ensures
        line_model(ls[k]) is Err,
        program_model(ls) is Err,
        ({
            let t = cleaned(ls[k]);
            t.len() > 0 && t[0] != '@' && t[0] != '(' && !is_compute_start(t[0])
        }) ==> line_model(ls[k]) == Err::<Option<InstrModel>, ParseError>(ParseError::InvalidCharacter),
{
    assert(program_prefix(ls, k + 1) is Err);
    lemma_prefix_error_stays(ls, k + 1, ls.len() as int);
}

} // verus!
