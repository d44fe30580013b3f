use hack_assembler::generator::Generator;
use hack_assembler::instruction::{
    AInstruction, AddressTarget, CInstruction, InstructionType, LInstruction, ParseError,
};
use hack_assembler::parser::{parse_line, parse_lines};
use hack_assembler::symbol::SymbolTable;

fn assemble(lines: &[&str]) -> Result<Vec<String>, ParseError> {
    let lines: Vec<String> = lines.iter().map(|l| l.to_string()).collect();
    let instructions = parse_lines(&lines)?;
    let mut generator = Generator::new(instructions);
    generator.generate_binary_code();
    Ok(generator.binary_instructions().expect("words after generation").clone())
}

#[test]
fn numeric_address_is_zero_then_fifteen_bits() {
    assert_eq!(assemble(&["@5"]).unwrap(), vec!["0000000000000101"]);
    assert_eq!(assemble(&["@0"]).unwrap(), vec!["0000000000000000"]);
    assert_eq!(assemble(&["@32767"]).unwrap(), vec!["0111111111111111"]);
    assert_eq!(assemble(&["@21845"]).unwrap(), vec!["0101010101010101"]);
}

#[test]
fn compute_words_follow_the_tables() {
    assert_eq!(assemble(&["D=A"]).unwrap(), vec!["1110110000010000"]);
    assert_eq!(assemble(&["0;JMP"]).unwrap(), vec!["1110101010000111"]);
    assert_eq!(assemble(&["AM=M+1"]).unwrap(), vec!["1111110111101000"]);
    assert_eq!(assemble(&["D;JGT"]).unwrap(), vec!["1110001100000001"]);
    assert_eq!(assemble(&["AMD=D|M;JLE"]).unwrap(), vec!["1111010101111110"]);
    assert_eq!(assemble(&["M=-1"]).unwrap(), vec!["1110111010001000"]);
    assert_eq!(assemble(&["D=D&A"]).unwrap(), vec!["1110000000010000"]);
}

#[test]
fn every_computation_has_its_code() {
    let table = [
        ("0", 42u32), ("1", 63), ("-1", 58), ("D", 12), ("A", 48), ("!D", 13), ("!A", 49),
        ("-D", 15), ("-A", 51), ("D+1", 31), ("A+1", 55), ("D-1", 14), ("A-1", 50),
        ("D+A", 2), ("D-A", 19), ("A-D", 7), ("D&A", 0), ("D|A", 21), ("M", 112),
        ("!M", 113), ("-M", 115), ("M+1", 119), ("M-1", 114), ("D+M", 66), ("D-M", 83),
        ("M-D", 71), ("D&M", 64), ("D|M", 85),
    ];
    for (comp, code) in table.iter() {
        let line = format!("D={}", comp);
        let words = assemble(&[line.as_str()]).unwrap();
        assert_eq!(words[0], format!("111{:07b}010000", code), "comp {}", comp);
    }
}

#[test]
fn every_destination_and_jump_has_its_code() {
    let dests = ["", "M", "D", "MD", "A", "AM", "AD", "AMD"];
    let jumps = ["", "JGT", "JEQ", "JGE", "JLT", "JNE", "JLE", "JMP"];
    for (d, dest) in dests.iter().enumerate() {
        for (j, jump) in jumps.iter().enumerate() {
            let mut line = String::new();
            if !dest.is_empty() {
                line.push_str(dest);
                line.push('=');
            }
            line.push_str("D+1");
            if !jump.is_empty() {
                line.push(';');
                line.push_str(jump);
            }
            let words = assemble(&[line.as_str()]).unwrap();
            assert_eq!(words[0], format!("1110011111{:03b}{:03b}", d, j), "line {}", line);
        }
    }
}

#[test]
fn label_takes_no_address() {
    assert_eq!(assemble(&["(LOOP)", "@LOOP"]).unwrap(), vec!["0000000000000000"]);
    assert_eq!(
        assemble(&["@1", "(LOOP)", "D=A", "@LOOP", "0;JMP"]).unwrap(),
        vec!["0000000000000001", "1110110000010000", "0000000000000001", "1110101010000111"]
    );
}

#[test]
fn forward_reference_resolves() {
    assert_eq!(
        assemble(&["@END", "0;JMP", "(END)", "@END"]).unwrap(),
        vec!["0000000000000010", "1110101010000111", "0000000000000010"]
    );
}

#[test]
fn variables_are_allocated_in_first_reference_order() {
    assert_eq!(
        assemble(&["@foo", "@bar", "@foo"]).unwrap(),
        vec!["0000000000010000", "0000000000010001", "0000000000010000"]
    );
}

#[test]
fn reserved_names_keep_their_addresses() {
    assert_eq!(
        assemble(&["@SP", "@LCL", "@ARG", "@THIS", "@THAT", "@SCREEN", "@KBD", "@R0", "@R15", "@x"])
            .unwrap(),
        vec![
            "0000000000000000",
            "0000000000000001",
            "0000000000000010",
            "0000000000000011",
            "0000000000000100",
            "0100000000000000",
            "0101111111110111",
            "0000000000000000",
            "0000000000001111",
            "0000000000010000",
        ]
    );
}

#[test]
fn blank_and_comment_lines_produce_nothing() {
    assert_eq!(assemble(&["", "   ", "// a comment", "\t// indented"]).unwrap(), Vec::<String>::new());
    assert!(matches!(parse_line("   // only a comment"), Ok(None)));
    assert!(matches!(parse_line(""), Ok(None)));
    assert_eq!(
        assemble(&["@3", "   // between", "", "D=A"]).unwrap(),
        assemble(&["@3", "D=A"]).unwrap()
    );
}

#[test]
fn inline_comments_and_spaces_are_stripped() {
    assert_eq!(assemble(&["  D=M   // load", "\t@7\t"]).unwrap(), vec!["1111110000010000", "0000000000000111"]);
}

#[test]
fn unsupported_first_character_fails_the_whole_program() {
    assert_eq!(assemble(&["@1", "#foo", "D=A"]), Err(ParseError::InvalidCharacter));
    assert!(matches!(parse_line("x=1"), Err(ParseError::InvalidCharacter)));
}

#[test]
fn unknown_operands_fail() {
    assert_eq!(assemble(&["D=X"]), Err(ParseError::InvalidOperand));
    assert_eq!(assemble(&["D=D*A"]), Err(ParseError::InvalidOperand));
    assert_eq!(assemble(&["D;JXX"]), Err(ParseError::InvalidOperand));
    assert_eq!(assemble(&["MA=D"]), Err(ParseError::InvalidOperand));
}

#[test]
fn malformed_addresses_and_labels_fail() {
    assert_eq!(assemble(&["@32768"]), Err(ParseError::InvalidAddress));
    assert_eq!(assemble(&["@1abc"]), Err(ParseError::InvalidAddress));
    assert_eq!(assemble(&["@"]), Err(ParseError::InvalidAddress));
    assert_eq!(assemble(&["(LOOP"]), Err(ParseError::InvalidLabel));
    assert_eq!(assemble(&["(1A)"]), Err(ParseError::InvalidLabel));
}

#[test]
fn instruction_constructors() {
    let a = AInstruction::new("@17".to_string()).unwrap();
    assert!(a.resolved_symbol_to_address());
    assert_eq!(a.to_binary(), "0000000000010001");
    let s = AInstruction::new("@i.x$_".to_string()).unwrap();
    assert!(!s.resolved_symbol_to_address());
    assert!(matches!(s.target, AddressTarget::Symbolic(ref n) if n == "i.x$_"));
    let c = CInstruction::new("MD=M-1".to_string()).unwrap();
    assert_eq!(c.to_binary(), "1111110010011000");
    let l = LInstruction::new("(OUTPUT_FIRST)".to_string()).unwrap();
    assert_eq!(l.symbol, "OUTPUT_FIRST");
}

#[test]
fn symbol_table_behaviour() {
    let mut t = SymbolTable::new();
    let kbd = "KBD".to_string();
    assert!(t.contains(&kbd));
    assert_eq!(t.get_address(&kbd), Some(&24567));
    assert_eq!(t.get_address(&"SCREEN".to_string()), Some(&16384));
    assert_eq!(t.get_address(&"R7".to_string()), Some(&7));
    let foo = "foo".to_string();
    assert!(!t.contains(&foo));
    assert_eq!(t.add_ram_entry(&foo), 16);
    assert_eq!(t.add_ram_entry(&"bar".to_string()), 17);
    assert_eq!(t.get_address(&foo), Some(&16));
    t.add_entry("LOOP".to_string(), 4);
    t.add_entry("LOOP".to_string(), 9);
    assert_eq!(t.get_address(&"LOOP".to_string()), Some(&9));
}

#[test]
fn generator_holds_nothing_before_it_runs() {
    let generator = Generator::new(Vec::new());
    assert!(generator.binary_instructions().is_none());
}

#[test]
fn running_twice_gives_the_same_words() {
    let lines: Vec<String> = ["@x", "(L)", "@L", "@y"].iter().map(|l| l.to_string()).collect();
    let mut generator = Generator::new(parse_lines(&lines).unwrap());
    generator.generate_binary_code();
    let first = generator.binary_instructions().unwrap().clone();
    generator.generate_binary_code();
    assert_eq!(generator.binary_instructions().unwrap(), &first);
    assert_eq!(first, vec!["0000000000010000", "0000000000000001", "0000000000010001"]);
}

#[test]
fn symbolic_addresses_are_filled_in_after_generation() {
    let lines: Vec<String> = ["@x", "(L)", "@L", "@7", "D=A", "@x", "@SCREEN"]
        .iter()
        .map(|l| l.to_string())
        .collect();
    let mut generator = Generator::new(parse_lines(&lines).unwrap());
    generator.generate_binary_code();
    let literals: Vec<i16> = generator
        .instructions()
        .iter()
        .filter_map(|i| match i {
            InstructionType::A(a) => match a.target {
                AddressTarget::Literal(n) => Some(n),
                AddressTarget::Symbolic(_) => panic!("unresolved address after generation"),
            },
            _ => None,
        })
        .collect();
    assert_eq!(literals, vec![16, 1, 7, 16, 16384]);
    assert_eq!(generator.instructions().len(), 7);
    assert!(matches!(generator.instructions()[1], InstructionType::L(ref l) if l.symbol == "L"));
}

#[test]
fn unicode_whitespace_is_trimmed() {
    assert_eq!(assemble(&["\u{3000}D=M\u{A0}"]).unwrap(), vec!["1111110000010000"]);
    assert_eq!(assemble(&["\u{2003}@3 \u{85}// note"]).unwrap(), vec!["0000000000000011"]);
}

#[test]
fn unreferenced_label_changes_no_word() {
    assert_eq!(
        assemble(&["@1", "(UNUSED)", "D=A", "@x"]).unwrap(),
        assemble(&["@1", "D=A", "@x"]).unwrap()
    );
}
