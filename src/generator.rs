//! The two passes: labels first, then variables and words.
use crate::codes::compute_word;
use crate::instruction::{
    address_binary, address_word, literals_in_range, AInstruction, AddressTarget, InstrModel, InstructionType, TargetModel,
};
use crate::parser::instrs_view;
use crate::symbol::{reserved_address, reserved_table, SymbolTable, FIRST_VARIABLE_ADDRESS};
use vstd::prelude::*;

verus! {

/// The longest program whose variables all get an address below 32768.
pub const MAX_PROGRAM_LEN: usize = 32751;

/// A program the generator can translate: short enough for every variable
/// to get an address, and with every literal address non-negative.
pub open spec fn program_fits(p: Seq<InstrModel>) -> bool {
    &&& p.len() <= MAX_PROGRAM_LEN
    &&& literals_in_range(p)
}

/// The table and instruction counter after the label pass has seen the
/// first `n` instructions.
pub open spec fn label_pass(p: Seq<InstrModel>, n: int) -> (Map<Seq<char>, i16>, int)
    decreases n,
{
    if n <= 0 {
        (reserved_table(), 0)
    } else {
        let (t, c) = label_pass(p, n - 1);
        match p[n - 1] {
            InstrModel::Label(s) => (t.insert(s, c as i16), c),
            _ => (t, c + 1),
        }
    }
}

/// The table once every label is bound.
pub open spec fn labels(p: Seq<InstrModel>) -> Map<Seq<char>, i16> {
    label_pass(p, p.len() as int).0
}

/// The table, the next variable address and the words after the encode pass
/// has seen the first `n` instructions.
pub open spec fn encode_pass(p: Seq<InstrModel>, n: int) -> (
    Map<Seq<char>, i16>,
    int,
    Seq<Seq<char>>,
)
    decreases n,
{
    if n <= 0 {
        (labels(p), FIRST_VARIABLE_ADDRESS as int, Seq::empty())
    } else {
        let (t, next, ws) = encode_pass(p, n - 1);
        match p[n - 1] {
            InstrModel::Compute(c, d, j) => (t, next, ws.push(compute_word(c, d, j))),
            InstrModel::Address(TargetModel::Literal(a)) => (t, next, ws.push(address_word(a))),
            InstrModel::Address(TargetModel::Symbolic(s)) => if t.contains_key(s) {
                (t, next, ws.push(address_word(t[s] as int)))
            } else {
                (t.insert(s, next as i16), next + 1, ws.push(address_word(next)))
            },
            InstrModel::Label(_) => (t, next, ws),
        }
    }
}

/// The words of a program, one per address or compute instruction, in order.
pub open spec fn translate(p: Seq<InstrModel>) -> Seq<Seq<char>> {
    encode_pass(p, p.len() as int).2
}

pub open spec fn words_view(v: Seq<String>) -> Seq<Seq<char>> {
    v.map_values(|s: String| s@)
}

/// The address that the encode pass uses for a reference to `s` at index `i`:
/// its binding if it has one, else the next variable address.
pub open spec fn symbol_address(p: Seq<InstrModel>, i: int, s: Seq<char>) -> int {
    let t = encode_pass(p, i).0;
    if t.contains_key(s) {
        t[s] as int
    } else {
        encode_pass(p, i).1
    }
}

/// The instruction at index `i` once its address, if symbolic, is filled in.
pub open spec fn resolved_at(p: Seq<InstrModel>, i: int) -> InstrModel {
    match p[i] {
        InstrModel::Address(TargetModel::Symbolic(s)) => InstrModel::Address(
            TargetModel::Literal(symbol_address(p, i, s)),
        ),
        other => other,
    }
}

/// The program with every symbolic address replaced by the address it
/// resolved to; every other instruction is unchanged.
pub open spec fn resolved(p: Seq<InstrModel>) -> Seq<InstrModel> {
    Seq::new(p.len(), |i: int| resolved_at(p, i))
}

/// Every bound address can be loaded by an address instruction.
pub open spec fn addresses_in_range(t: Map<Seq<char>, i16>) -> bool {
    forall|k: Seq<char>| #[trigger] t.contains_key(k) ==> 0 <= t[k]
}

/// Translates a parsed program in two passes.
pub struct Generator {
    instructions: Vec<InstructionType>,
    symbol_table: SymbolTable,
    binary_instructions: Option<Vec<String>>,
}

impl Generator {
    /// The program being translated.
    pub closed spec fn program(&self) -> Seq<InstrModel> {
        instrs_view(self.instructions@)
    }

    /// The symbol table as the last run left it.
    pub closed spec fn symbols(&self) -> Map<Seq<char>, i16> {
        self.symbol_table@
    }

    /// The address the next variable would get.
    pub closed spec fn next_variable(&self) -> int {
        self.symbol_table.next_ram()
    }

    /// The words produced, once the translation has run.
    pub closed spec fn output(&self) -> Option<Seq<Seq<char>>> {
        match self.binary_instructions {
            Some(v) => Some(words_view(v@)),
            None => None,
        }
    }

    /// A generator for `instructions` that has produced nothing yet.
    pub fn new(instructions: Vec<InstructionType>) -> (r: Generator)
        ensures
            r.program() == instrs_view(instructions@),
            r.output() is None,
    {
        let symbol_table = SymbolTable::new();
        Generator { instructions, symbol_table, binary_instructions: None }
    }

    /// Runs both passes from the reserved table, fills in every symbolic
    /// address and keeps the words.
    pub fn generate_binary_code(&mut self)
        requires
            program_fits(old(self).program()),
        ensures
            final(self).program() == resolved(old(self).program()),
            program_fits(final(self).program()),
            final(self).output() == Some(translate(old(self).program())),
            final(self).symbols() == encode_pass(old(self).program(), old(self).program().len() as int).0,
            final(self).next_variable() == encode_pass(
                old(self).program(),
                old(self).program().len() as int,
            ).1,
    {
        self.symbol_table = SymbolTable::new();
        self.symbol_table_pass();
        self.instruction_to_binary_pass();
    }

    /// The instructions, with addresses filled in once the translation has run.
    pub fn instructions(&self) -> (r: &Vec<InstructionType>)
        ensures
            instrs_view(r@) == self.program(),
    {
        &self.instructions
    }

    /// The words, once the translation has run.
    pub fn binary_instructions(&self) -> (r: Option<&Vec<String>>)
        ensures
            match (r, self.output()) {
                (Some(v), Some(w)) => words_view(v@) == w,
                (None, None) => true,
                _ => false,
            },
    {
        match &self.binary_instructions {
            Some(v) => Some(v),
            None => None,
        }
    }

    fn symbol_table_pass(&mut self)
        requires
            program_fits(old(self).program()),
            old(self).symbol_table@ == reserved_table(),
        ensures
            final(self).instructions == old(self).instructions,
            final(self).binary_instructions == old(self).binary_instructions,
            final(self).symbol_table@ == labels(old(self).program()),
            final(self).symbol_table.next_ram() == old(self).symbol_table.next_ram(),
            addresses_in_range(final(self).symbol_table@),
    {
        let ghost p = self.program();
        let mut rom_count: i16 = 0;
        let mut i: usize = 0;
        while i < self.instructions.len()
            invariant
                p == self.program(),
                p.len() == self.instructions@.len(),
                program_fits(p),
                self.instructions == old(self).instructions,
                self.binary_instructions == old(self).binary_instructions,
                self.symbol_table.next_ram() == old(self).symbol_table.next_ram(),
                i <= self.instructions@.len(),
                0 <= rom_count <= i,
                self.symbol_table@ == label_pass(p, i as int).0,
                rom_count == label_pass(p, i as int).1,
                addresses_in_range(self.symbol_table@),
            decreases self.instructions@.len() - i,
        {
            assert(p[i as int] == self.instructions@[i as int]@);
            match &self.instructions[i] {
                InstructionType::L(instr) => {
                    self.symbol_table.add_entry(instr.symbol.clone(), rom_count);
                },
                _ => {
                    rom_count = rom_count + 1;
                },
            }
            i = i + 1;
        }
    }

    fn instruction_to_binary_pass(&mut self)
        requires
            program_fits(old(self).program()),
            old(self).symbol_table@ == labels(old(self).program()),
            old(self).symbol_table.next_ram() == FIRST_VARIABLE_ADDRESS,
            addresses_in_range(old(self).symbol_table@),
        ensures
            final(self).program() == resolved(old(self).program()),
            literals_in_range(final(self).program()),
            final(self).output() == Some(translate(old(self).program())),
            final(self).symbol_table@ == encode_pass(
                old(self).program(),
                old(self).program().len() as int,
            ).0,
            final(self).symbol_table.next_ram() == encode_pass(
                old(self).program(),
                old(self).program().len() as int,
            ).1,
    {
        let ghost p = self.program();
        let mut out: Vec<String> = Vec::new();
        let mut i: usize = 0;
        assert(words_view(out@) == Seq::<Seq<char>>::empty());
        while i < self.instructions.len()
            invariant
                p == old(self).program(),
                p.len() == self.instructions@.len(),
                program_fits(p),
                literals_in_range(self.program()),
                forall|j: int| 0 <= j < i ==> #[trigger] self.program()[j] == resolved_at(p, j),
                forall|j: int| i <= j < p.len() ==> #[trigger] self.program()[j] == p[j],
                i <= self.instructions@.len(),
                self.symbol_table@ == encode_pass(p, i as int).0,
                self.symbol_table.next_ram() == encode_pass(p, i as int).1,
                FIRST_VARIABLE_ADDRESS <= self.symbol_table.next_ram() <= FIRST_VARIABLE_ADDRESS
                    + i,
                words_view(out@) == encode_pass(p, i as int).2,
                addresses_in_range(self.symbol_table@),
            decreases self.instructions@.len() - i,
        {
            assert(p[i as int] == self.program()[i as int]);
            assert(p[i as int] == self.instructions@[i as int]@);
            let ghost prev = out@;
            let mut filled: Option<i16> = None;
            match &self.instructions[i] {
                InstructionType::C(instr) => {
                    out.push(instr.to_binary());
                },
                InstructionType::A(instr) => {
                    match &instr.target {
                        AddressTarget::Literal(_) => {
                            out.push(instr.to_binary());
                        },
                        AddressTarget::Symbolic(symbol) => {
                            let found: Option<i16> = match self.symbol_table.get_address(symbol) {
                                Some(a) => Some(*a),
                                None => None,
                            };
                            let address = match found {
                                Some(a) => a,
                                None => self.symbol_table.add_ram_entry(symbol),
                            };
                            assert(address as int == symbol_address(p, i as int, symbol@));
                            out.push(address_binary(address));
                            filled = Some(address);
                        },
                    }
                },
                InstructionType::L(_) => {},
            }
            assert(words_view(out@) == encode_pass(p, i + 1).2) by {
                if out@.len() > prev.len() {
                    assert(words_view(out@) == words_view(prev).push(out@.last()@));
                }
            }
            let ghost before = self.program();
            match filled {
                Some(a) => {
                    self.instructions.set(
                        i,
                        InstructionType::A(AInstruction { target: AddressTarget::Literal(a) }),
                    );
                    assert(self.program() == before.update(
                        i as int,
                        InstrModel::Address(TargetModel::Literal(a as int)),
                    ));
                },
                None => {},
            }
            assert(self.program()[i as int] == resolved_at(p, i as int));
            i = i + 1;
        }
        assert(self.program() == resolved(p));
        self.binary_instructions = Some(out);
    }
}

/// How many instructions of `p` are not labels.
pub open spec fn real_count(p: Seq<InstrModel>) -> nat
    decreases p.len(),
{
    if p.len() == 0 {
        0
    } else {
        real_count(p.drop_last()) + if p.last() is Label {
            0nat
        } else {
            1nat
        }
    }
}

/// The word emitted for the instruction at index `i`.
pub open spec fn word_of(p: Seq<InstrModel>, i: int) -> Seq<char> {
    translate(p)[real_count(p.take(i)) as int]
}

/// Both passes count exactly the instructions that are not labels.
proof fn lemma_counts(p: Seq<InstrModel>, n: int)
    requires
        0 <= n <= p.len(),
    ensures
        label_pass(p, n).1 == real_count(p.take(n)),
        encode_pass(p, n).2.len() == real_count(p.take(n)),
        real_count(p.take(n)) <= n,
        FIRST_VARIABLE_ADDRESS <= encode_pass(p, n).1 <= FIRST_VARIABLE_ADDRESS + n,
    decreases n,
{
    if n > 0 {
        lemma_counts(p, n - 1);
        assert(p.take(n).drop_last() == p.take(n - 1));
    } else {
        assert(p.take(0).len() == 0);
    }
}

/// The encode pass only adds bindings and words, and never lowers the next
/// variable address.
proof fn lemma_encode_grows(p: Seq<InstrModel>, m: int, n: int)
    requires
        0 <= m <= n <= p.len(),
    ensures
        forall|k: Seq<char>|
            #[trigger] encode_pass(p, m).0.contains_key(k) ==> encode_pass(p, n).0.contains_key(k)
                && encode_pass(p, n).0[k] == encode_pass(p, m).0[k],
        encode_pass(p, n).2.take(encode_pass(p, m).2.len() as int) == encode_pass(p, m).2,
        encode_pass(p, m).2.len() <= encode_pass(p, n).2.len(),
        encode_pass(p, m).1 <= encode_pass(p, n).1,
    decreases n - m,
{
    if n > m {
        lemma_encode_grows(p, m, n - 1);
        let a = encode_pass(p, n - 1).2;
        let b = encode_pass(p, n).2;
        let l = encode_pass(p, m).2.len() as int;
        assert(b.take(l) == a.take(l));
    } else {
        assert(encode_pass(p, n).2.take(encode_pass(p, n).2.len() as int) == encode_pass(p, n).2);
    }
}

/// Every name bound during the encode pass is a label, a reserved name, or a
/// name referenced earlier.
proof fn lemma_encode_keys(p: Seq<InstrModel>, n: int, k: Seq<char>)
    requires
        0 <= n <= p.len(),
        encode_pass(p, n).0.contains_key(k),
        !labels(p).contains_key(k),
    ensures
        exists|h: int|
            0 <= h < n && #[trigger] p[h] == InstrModel::Address(TargetModel::Symbolic(k)),
    decreases n,
{
    if n > 0 {
        if encode_pass(p, n - 1).0.contains_key(k) {
            lemma_encode_keys(p, n - 1, k);
            let h = choose|h: int|
                0 <= h < n - 1 && #[trigger] p[h] == InstrModel::Address(TargetModel::Symbolic(k));
            assert(p[h] == InstrModel::Address(TargetModel::Symbolic(k)));
        } else {
            assert(p[n - 1] == InstrModel::Address(TargetModel::Symbolic(k)));
        }
    }
}

/// The word of a real instruction sits at its count among real instructions.
proof fn lemma_word_position(p: Seq<InstrModel>, i: int)
    requires
        0 <= i < p.len(),
        !(p[i] is Label),
    ensures
        word_of(p, i) == encode_pass(p, i + 1).2.last(),
        encode_pass(p, i + 1).2.len() == real_count(p.take(i)) + 1,
{
    lemma_counts(p, i);
    lemma_counts(p, i + 1);
    lemma_encode_grows(p, i + 1, p.len() as int);
    let w = encode_pass(p, i + 1).2;
    assert(translate(p).take(w.len() as int) == w);
    assert(translate(p)[w.len() - 1] == w.last());
}

/// The label pass binds a label's name to the count of real instructions
/// before its last definition.
proof fn lemma_label_binding(p: Seq<InstrModel>, k: int, s: Seq<char>, n: int)
    requires
        0 <= k < n <= p.len(),
        p.len() <= MAX_PROGRAM_LEN,
        p[k] == InstrModel::Label(s),
        forall|j: int| k < j < p.len() ==> p[j] != InstrModel::Label(s),
    ensures
        label_pass(p, n).0.contains_key(s),
        label_pass(p, n).0[s] as int == real_count(p.take(k)),
    decreases n,
{
    lemma_counts(p, k);
    if n > k + 1 {
        lemma_label_binding(p, k, s, n - 1);
    }
}

/// The label pass keeps the reserved binding of a name that no label defines.
proof fn lemma_reserved_kept(p: Seq<InstrModel>, s: Seq<char>, n: int)
    requires
        0 <= n <= p.len(),
        forall|j: int| 0 <= j < p.len() ==> p[j] != InstrModel::Label(s),
    ensures
        label_pass(p, n).0.contains_key(s) == reserved_table().contains_key(s),
        reserved_table().contains_key(s) ==> label_pass(p, n).0[s] == reserved_table()[s],
    decreases n,
{
    if n > 0 {
        lemma_reserved_kept(p, s, n - 1);
    }
}

/// Labels take no address: a program yields one word per instruction that is
/// not a label, and a label's name is bound to the number of real
/// instructions before its (last) definition.
pub proof fn lemma_labels_take_no_address(p: Seq<InstrModel>, k: int, s: Seq<char>)
    requires
        p.len() <= MAX_PROGRAM_LEN,
        0 <= k < p.len(),
        p[k] == InstrModel::Label(s),
        forall|j: int| k < j < p.len() ==> p[j] != InstrModel::Label(s),
    ensures
        translate(p).len() == real_count(p),
        labels(p).contains_key(s),
        labels(p)[s] as int == real_count(p.take(k)),
{
    lemma_counts(p, p.len() as int);
    assert(p.take(p.len() as int) == p);
    lemma_label_binding(p, k, s, p.len() as int);
}

/// A reference to a label resolves to the label's address, whether the
/// label is defined before or after the reference.
pub proof fn lemma_label_reference_resolves(p: Seq<InstrModel>, i: int, k: int, s: Seq<char>)
    requires
        p.len() <= MAX_PROGRAM_LEN,
        0 <= i < p.len(),
        0 <= k < p.len(),
        p[i] == InstrModel::Address(TargetModel::Symbolic(s)),
        p[k] == InstrModel::Label(s),
        forall|j: int| k < j < p.len() ==> p[j] != InstrModel::Label(s),
    ensures
        word_of(p, i) == address_word(real_count(p.take(k)) as int),
{
    lemma_label_binding(p, k, s, p.len() as int);
    assert(encode_pass(p, 0).0.contains_key(s));
    lemma_encode_grows(p, 0, i);
    assert(encode_pass(p, i).0.contains_key(s));
    lemma_word_position(p, i);
}

/// A reserved name that no label redefines resolves to its fixed address and
/// allocates no variable.
pub proof fn lemma_reserved_names_resolve(p: Seq<InstrModel>, i: int, s: Seq<char>)
    requires
        0 <= i < p.len(),
        p[i] == InstrModel::Address(TargetModel::Symbolic(s)),
        reserved_address(s) is Some,
        forall|j: int| 0 <= j < p.len() ==> p[j] != InstrModel::Label(s),
    ensures
        word_of(p, i) == address_word(reserved_address(s)->0 as int),
        encode_pass(p, i + 1).1 == encode_pass(p, i).1,
        encode_pass(p, i + 1).0 == encode_pass(p, i).0,
{
    lemma_reserved_kept(p, s, p.len() as int);
    assert(encode_pass(p, 0).0.contains_key(s));
    lemma_encode_grows(p, 0, i);
    assert(encode_pass(p, i).0.contains_key(s));
    lemma_word_position(p, i);
}

/// A variable is bound at its first reference to the next free address (at
/// least 16), and every later reference reuses that address.
pub proof fn lemma_variable_reused(p: Seq<InstrModel>, i: int, j: int, s: Seq<char>)
    requires
        p.len() <= MAX_PROGRAM_LEN,
        0 <= i < j < p.len(),
        p[i] == InstrModel::Address(TargetModel::Symbolic(s)),
        p[j] == InstrModel::Address(TargetModel::Symbolic(s)),
        !labels(p).contains_key(s),
        forall|h: int| 0 <= h < i ==> p[h] != InstrModel::Address(TargetModel::Symbolic(s)),
    ensures
        encode_pass(p, i).1 >= FIRST_VARIABLE_ADDRESS,
        word_of(p, i) == address_word(encode_pass(p, i).1),
        word_of(p, j) == word_of(p, i),
{
    lemma_counts(p, i);
    lemma_encode_grows(p, 0, i);
    if encode_pass(p, i).0.contains_key(s) {
        lemma_encode_keys(p, i, s);
    }
    assert(encode_pass(p, i + 1).0.contains_key(s));
    lemma_encode_grows(p, i + 1, j);
    assert(encode_pass(p, j).0.contains_key(s));
    lemma_word_position(p, i);
    lemma_word_position(p, j);
}

/// Variables get increasing addresses in the order of their first reference.
pub proof fn lemma_variables_ordered(p: Seq<InstrModel>, i: int, j: int, a: Seq<char>, b: Seq<char>)
    requires
        0 <= i < j < p.len(),
        a != b,
        p[i] == InstrModel::Address(TargetModel::Symbolic(a)),
        p[j] == InstrModel::Address(TargetModel::Symbolic(b)),
        !labels(p).contains_key(a),
        !labels(p).contains_key(b),
        forall|h: int| 0 <= h < i ==> p[h] != InstrModel::Address(TargetModel::Symbolic(a)),
        forall|h: int| 0 <= h < j ==> p[h] != InstrModel::Address(TargetModel::Symbolic(b)),
    ensures
        FIRST_VARIABLE_ADDRESS <= encode_pass(p, i).1 < encode_pass(p, j).1,
        word_of(p, i) == address_word(encode_pass(p, i).1),
        word_of(p, j) == address_word(encode_pass(p, j).1),
{
    lemma_encode_grows(p, 0, i);
    lemma_encode_grows(p, i + 1, j);
    if encode_pass(p, i).0.contains_key(a) {
        lemma_encode_keys(p, i, a);
    }
    if encode_pass(p, j).0.contains_key(b) {
        lemma_encode_keys(p, j, b);
    }
    lemma_word_position(p, i);
    lemma_word_position(p, j);
}

/// Whether the instruction at `h` is the first reference to a name that is
/// neither reserved nor a label, so that it needs a variable.
pub open spec fn introduces_variable(p: Seq<InstrModel>, h: int) -> bool {
    &&& p[h] is Address
    &&& p[h]->Address_0 is Symbolic
    &&& !labels(p).contains_key(p[h]->Address_0->Symbolic_0)
    &&& forall|g: int| 0 <= g < h ==> #[trigger] p[g] != p[h]
}

/// How many of the first `n` instructions introduce a variable.
pub open spec fn new_variables(p: Seq<InstrModel>, n: int) -> nat
    decreases n,
{
    if n <= 0 {
        0
    } else {
        new_variables(p, n - 1) + if introduces_variable(p, n - 1) {
            1nat
        } else {
            0nat
        }
    }
}

/// The next variable address is 16 plus the number of variables introduced so far.
proof fn lemma_variable_count(p: Seq<InstrModel>, n: int)
    requires
        0 <= n <= p.len(),
    ensures
        encode_pass(p, n).1 == FIRST_VARIABLE_ADDRESS + new_variables(p, n),
    decreases n,
{
    if n > 0 {
        lemma_variable_count(p, n - 1);
        match p[n - 1] {
            InstrModel::Address(TargetModel::Symbolic(s)) => {
                if introduces_variable(p, n - 1) {
                    if encode_pass(p, n - 1).0.contains_key(s) {
                        lemma_encode_keys(p, n - 1, s);
                        let h = choose|h: int|
                            0 <= h < n - 1 && #[trigger] p[h] == InstrModel::Address(
                                TargetModel::Symbolic(s),
                            );
                        assert(p[h] == p[n - 1]);
                    }
                } else if labels(p).contains_key(s) {
                    assert(encode_pass(p, 0).0.contains_key(s));
                    lemma_encode_grows(p, 0, n - 1);
                } else {
                    let g = choose|g: int| 0 <= g < n - 1 && #[trigger] p[g] == p[n - 1];
                    assert(encode_pass(p, g + 1).0.contains_key(s));
                    lemma_encode_grows(p, g + 1, n - 1);
                }
            },
            _ => {},
        }
    }
}

/// The name that introduces the m-th variable (counting from 0) gets
/// address 16 + m, at its first reference and at every later one.
pub proof fn lemma_variable_address(p: Seq<InstrModel>, i: int, j: int)
    requires
        p.len() <= MAX_PROGRAM_LEN,
        0 <= i <= j < p.len(),
        introduces_variable(p, i),
        p[j] == p[i],
    ensures
        word_of(p, j) == address_word(FIRST_VARIABLE_ADDRESS + new_variables(p, i)),
{
    lemma_variable_count(p, i);
    lemma_counts(p, i);
    let s = p[i]->Address_0->Symbolic_0;
    lemma_encode_grows(p, 0, i);
    if encode_pass(p, i).0.contains_key(s) {
        lemma_encode_keys(p, i, s);
        let h = choose|h: int|
            0 <= h < i && #[trigger] p[h] == InstrModel::Address(TargetModel::Symbolic(s));
        assert(p[h] == p[i]);
    }
    lemma_word_position(p, i);
    if j > i {
        assert(encode_pass(p, i + 1).0.contains_key(s));
        lemma_encode_grows(p, i + 1, j);
        assert(encode_pass(p, j).0.contains_key(s));
        lemma_word_position(p, j);
    }
}

/// The label pass over a program with one more label `l` after `b` differs
/// from the pass without it only in the binding of `l`.
proof fn lemma_label_pass_shift(b: Seq<InstrModel>, l: Seq<char>, a: Seq<InstrModel>, n: int)
    requires
        0 <= n <= b.len() + 1 + a.len(),
        forall|j: int| 0 <= j < (b + a).len() ==> (b + a)[j] != InstrModel::Label(l),
    ensures
        ({
            let p = b + a;
            let q = b.push(InstrModel::Label(l)) + a;
            let m = if n <= b.len() {
                n
            } else {
                n - 1
            };
            &&& label_pass(q, n).1 == label_pass(p, m).1
            &&& label_pass(q, n).0 == if n <= b.len() {
                label_pass(p, n).0
            } else {
                label_pass(p, m).0.insert(l, label_pass(p, b.len() as int).1 as i16)
            }
        }),
    decreases n,
{
    let p = b + a;
    let q = b.push(InstrModel::Label(l)) + a;
    if n > 0 {
        lemma_label_pass_shift(b, l, a, n - 1);
        if n <= b.len() {
            assert(q[n - 1] == p[n - 1]);
        } else if n == b.len() + 1 {
            assert(q[n - 1] == InstrModel::Label(l));
        } else {
            assert(q[n - 1] == p[n - 2]);
            let c = label_pass(p, b.len() as int).1 as i16;
            match p[n - 2] {
                InstrModel::Label(s) => {
                    assert(s != l);
                    let t = label_pass(p, n - 2).0;
                    let v = label_pass(p, n - 2).1 as i16;
                    assert(t.insert(l, c).insert(s, v) == t.insert(s, v).insert(l, c));
                },
                _ => {},
            }
        }
    }
}

/// The encode pass over a program with one more, unreferenced, label `l`
/// produces the same next address and words, and a table that differs
/// only in the binding of `l`.
proof fn lemma_encode_pass_shift(b: Seq<InstrModel>, l: Seq<char>, a: Seq<InstrModel>, n: int)
    requires
        0 <= n <= b.len() + 1 + a.len(),
        forall|j: int|
            0 <= j < (b + a).len() ==> (b + a)[j] != InstrModel::Label(l) && (b + a)[j]
                != InstrModel::Address(TargetModel::Symbolic(l)),
    ensures
        ({
            let p = b + a;
            let q = b.push(InstrModel::Label(l)) + a;
            let m = if n <= b.len() {
                n
            } else {
                n - 1
            };
            let c = label_pass(p, b.len() as int).1 as i16;
            &&& encode_pass(q, n).0 == encode_pass(p, m).0.insert(l, c)
            &&& encode_pass(q, n).1 == encode_pass(p, m).1
            &&& encode_pass(q, n).2 == encode_pass(p, m).2
        }),
    decreases n,
{
    let p = b + a;
    let q = b.push(InstrModel::Label(l)) + a;
    let c = label_pass(p, b.len() as int).1 as i16;
    if n == 0 {
        lemma_label_pass_shift(b, l, a, q.len() as int);
        assert(q.len() == p.len() + 1);
    } else {
        lemma_encode_pass_shift(b, l, a, n - 1);
        let m = if n - 1 <= b.len() {
            n - 1
        } else {
            n - 2
        };
        if n - 1 != b.len() {
            assert(q[n - 1] == p[m]);
            let t = encode_pass(p, m).0;
            match p[m] {
                InstrModel::Address(TargetModel::Symbolic(s)) => {
                    assert(s != l);
                    assert(t.insert(l, c).contains_key(s) == t.contains_key(s));
                    if !t.contains_key(s) {
                        let v = encode_pass(p, m).1 as i16;
                        assert(t.insert(l, c).insert(s, v) == t.insert(s, v).insert(l, c));
                    }
                },
                _ => {},
            }
        } else {
            assert(q[n - 1] == InstrModel::Label(l));
        }
    }
}

/// A label that no instruction references, and that no other label repeats,
/// adds no word and moves no address: inserting it anywhere in a program
/// leaves the words unchanged.
pub proof fn lemma_unreferenced_label_adds_nothing(
    before: Seq<InstrModel>,
    l: Seq<char>,
    after: Seq<InstrModel>,
)
    requires
        forall|j: int|
            0 <= j < (before + after).len() ==> (before + after)[j] != InstrModel::Label(l) && (
            before + after)[j] != InstrModel::Address(TargetModel::Symbolic(l)),
    ensures
        translate(before.push(InstrModel::Label(l)) + after) == translate(before + after),
{
    let q = before.push(InstrModel::Label(l)) + after;
    lemma_encode_pass_shift(before, l, after, q.len() as int);
}

} // verus!
