//! The symbol table: names bound to addresses, seeded with the machine's
//! reserved names, with an allocator for variables.
use vstd::prelude::*;

verus! {

/// The first address handed to a variable.
pub const FIRST_VARIABLE_ADDRESS: i16 = 16;

/// The address a reserved name stands for.
pub open spec fn reserved_address(k: Seq<char>) -> Option<i16> {
    if k == "SP"@ {
        Some(0)
    } else if k == "LCL"@ {
        Some(1)
    } else if k == "ARG"@ {
        Some(2)
    } else if k == "THIS"@ {
        Some(3)
    } else if k == "THAT"@ {
        Some(4)
    } else if k == "SCREEN"@ {
        Some(16384)
    } else if k == "KBD"@ {
        Some(24567)
    } else if k == "R0"@ {
        Some(0)
    } else if k == "R1"@ {
        Some(1)
    } else if k == "R2"@ {
        Some(2)
    } else if k == "R3"@ {
        Some(3)
    } else if k == "R4"@ {
        Some(4)
    } else if k == "R5"@ {
        Some(5)
    } else if k == "R6"@ {
        Some(6)
    } else if k == "R7"@ {
        Some(7)
    } else if k == "R8"@ {
        Some(8)
    } else if k == "R9"@ {
        Some(9)
    } else if k == "R10"@ {
        Some(10)
    } else if k == "R11"@ {
        Some(11)
    } else if k == "R12"@ {
        Some(12)
    } else if k == "R13"@ {
        Some(13)
    } else if k == "R14"@ {
        Some(14)
    } else if k == "R15"@ {
        Some(15)
    } else {
        None
    }
}

/// The table that every translation starts from.
pub open spec fn reserved_table() -> Map<Seq<char>, i16> {
    Map::new(|k: Seq<char>| reserved_address(k) is Some, |k: Seq<char>| reserved_address(k)->0)
}

/// The address of `k` in a list of bindings where a later binding wins.
pub open spec fn lookup(es: Seq<(Seq<char>, i16)>, k: Seq<char>) -> Option<i16>
    decreases es.len(),
{
    if es.len() == 0 {
        None
    } else if es.last().0 == k {
        Some(es.last().1)
    } else {
        lookup(es.drop_last(), k)
    }
}

/// Names and their addresses; bindings are only ever added.
pub struct SymbolTable {
    entries: Vec<(String, i16)>,
    ram_address_counter: i16,
}

impl View for SymbolTable {
    type V = Map<Seq<char>, i16>;

    closed spec fn view(&self) -> Map<Seq<char>, i16> {
        Map::new(
            |k: Seq<char>| lookup(self.bindings(), k) is Some,
            |k: Seq<char>| lookup(self.bindings(), k)->0,
        )
    }
}

impl SymbolTable {
    /// The bindings in the order they were made.
    pub closed spec fn bindings(&self) -> Seq<(Seq<char>, i16)> {
        self.entries@.map_values(|e: (String, i16)| (e.0@, e.1))
    }

    /// The address the next variable will get.
    pub closed spec fn next_ram(&self) -> int {
        self.ram_address_counter as int
    }

    /// A table that holds the reserved names and nothing else.
    pub fn new() -> (r: SymbolTable)
        ensures
            r@ == reserved_table(),
            r.next_ram() == FIRST_VARIABLE_ADDRESS,
    {
        let mut t = SymbolTable { entries: Vec::new(), ram_address_counter: FIRST_VARIABLE_ADDRESS };
        assert(t@ == Map::<Seq<char>, i16>::empty());
        t.add_entry(String::from_str("R15"), 15);
        t.add_entry(String::from_str("R14"), 14);
        t.add_entry(String::from_str("R13"), 13);
        t.add_entry(String::from_str("R12"), 12);
        t.add_entry(String::from_str("R11"), 11);
        t.add_entry(String::from_str("R10"), 10);
        t.add_entry(String::from_str("R9"), 9);
        t.add_entry(String::from_str("R8"), 8);
        t.add_entry(String::from_str("R7"), 7);
        t.add_entry(String::from_str("R6"), 6);
        t.add_entry(String::from_str("R5"), 5);
        t.add_entry(String::from_str("R4"), 4);
        t.add_entry(String::from_str("R3"), 3);
        t.add_entry(String::from_str("R2"), 2);
        t.add_entry(String::from_str("R1"), 1);
        t.add_entry(String::from_str("R0"), 0);
        t.add_entry(String::from_str("KBD"), 24567);
        t.add_entry(String::from_str("SCREEN"), 16384);
        t.add_entry(String::from_str("THAT"), 4);
        t.add_entry(String::from_str("THIS"), 3);
        t.add_entry(String::from_str("ARG"), 2);
        t.add_entry(String::from_str("LCL"), 1);
        t.add_entry(String::from_str("SP"), 0);
        assert(t@ == reserved_table());
        t
    }

    /// Binds `symbol` to `address`, replacing any earlier binding.
    pub fn add_entry(&mut self, symbol: String, address: i16)
        ensures
            final(self)@ == old(self)@.insert(symbol@, address),
            final(self).next_ram() == old(self).next_ram(),
    {
        let ghost k = symbol@;
        self.entries.push((symbol, address));
        proof {
            let es = self.bindings();
            assert(es.drop_last() == old(self).bindings());
            assert(es.last() == (k, address));
            assert(self@ == old(self)@.insert(k, address));
        }
    }

    /// Binds `symbol` to the next free variable address and returns it.
    pub fn add_ram_entry(&mut self, symbol: &String) -> (r: i16)
        requires
            old(self).next_ram() < i16::MAX,
        ensures
            r == old(self).next_ram(),
            final(self)@ == old(self)@.insert(symbol@, r),
            final(self).next_ram() == old(self).next_ram() + 1,
    {
        let address = self.ram_address_counter;
        self.add_entry(symbol.clone(), address);
        self.ram_address_counter = address + 1;
        address
    }

    /// Whether `symbol` is bound.
    pub fn contains(&self, symbol: &String) -> (r: bool)
        ensures
            r == self@.contains_key(symbol@),
    {
        self.get_address(symbol).is_some()
    }

    /// The address bound to `symbol`, if any.
    pub fn get_address(&self, symbol: &String) -> (r: Option<&i16>)
        ensures
            r matches Some(a) ==> self@.contains_key(symbol@) && self@[symbol@] == *a,
            r is None ==> !self@.contains_key(symbol@),
    {
        let ghost es = self.bindings();
        let mut i = self.entries.len();
        assert(es.take(i as int) == es);
        while i > 0
            invariant
                i <= self.entries@.len(),
                es == self.bindings(),
                lookup(es, symbol@) == lookup(es.take(i as int), symbol@),
            decreases i,
        {
            let ghost pre = es.take(i as int);
            assert(pre.last() == es[i - 1]);
            if self.entries[i - 1].0 == *symbol {
                return Some(&self.entries[i - 1].1);
            }
            assert(pre.drop_last() == es.take(i - 1));
            i = i - 1;
        }
        None
    }
}

} // verus!
