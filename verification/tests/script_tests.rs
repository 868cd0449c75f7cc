use test_data_generator::compiler::Compiler;
use test_data_generator::parser::Parser;
use test_data_generator::variable::Variable;
use test_data_generator::virtual_machine::VirtualMachine;

const TEST1: &str = "(BEGIN;; 1)(1..10 ; int ; 10)(END)";
const TEST2: &str = "(BEGIN;; 3)\n\nabc\n \n(1..10 3..19; = =; 3) (UPC SPACE LOC; = = =; 10)\n(END)";
const TEST3: &str = "(BEGIN;; 1)(ALC \\abcdefg ; = string ; 8 ; *)\n(1..100 \\25..75 ; = int ; 11; SPACE)\n(1..100:.4f \\25..75:.4f ; = float ; 15; SPACE)(END)";

const TEST3_FLOATS: &str =
    "RDF 1 24.999 0.00010000000000000005 RDF 75.001 100 0.00010000000000000005";

fn parse_script(name: &str, text: &str) -> Vec<Variable> {
    let mut p = Parser::new(name.to_string(), text.to_string());
    match p.parse() {
        Ok(r) => r,
        Err(e) => {
            println!("{}", e.get_msg());
            panic!("parse failed");
        }
    }
}

fn parse_error(text: &str) -> String {
    let mut p = Parser::new("t.tds".to_string(), text.to_string());
    match p.parse() {
        Ok(_) => panic!("the script should be refused"),
        Err(e) => e.get_msg(),
    }
}

fn float_outs_for(tokens: &Vec<Variable>, text: &str) -> Vec<String> {
    tokens
        .iter()
        .map(|t| if t.float_materials().is_empty() { String::new() } else { text.to_string() })
        .collect()
}

fn compile_script(name: &str, text: &str, floats: &str) -> String {
    let tokens = parse_script(name, text);
    let float_outs = float_outs_for(&tokens, floats);
    let mut compiler = Compiler::new();
    match compiler.compile(&tokens, &float_outs) {
        Ok(r) => r,
        Err(e) => {
            println!("{}", e.get_msg());
            panic!("compile failed");
        }
    }
}

#[test]
fn parse_1() {
    let r = parse_script("./test_file/test1.tds", TEST1);
    for i in r.iter() {
        println!("{}", i.to_text());
    }
    // BEGIN, the variable, END, and the end of the line.
    assert_eq!(r.len(), 4);
    assert!(r[0].is_tag() && r[2].is_tag());
    assert_eq!(r[3].const_str(), "\n");
}

#[test]
fn parse_2() {
    let r = parse_script("./test_file/test2.tds", TEST2);
    for i in r.iter() {
        println!("{}", i.to_text());
    }
    assert!(r[0].is_tag());
    assert!(r[r.len() - 2].is_tag());
}

#[test]
fn parse_3() {
    let r = parse_script("./test_file/test3.tds", TEST3);
    for i in r.iter() {
        println!("{}", i.to_text());
    }
    assert!(r.iter().any(|t| !t.float_materials().is_empty()));
}

#[test]
fn compile_1() {
    let r = compile_script("./test_file/test1.tds", TEST1, "");
    println!("{}", r);
    assert_eq!(r, "REP 1\nOUT RD QU 10 EC  RDI 1 10 CRD\nCREP\nOUT NEWLINE");
}

#[test]
fn compile_2() {
    let r = compile_script("./test_file/test2.tds", TEST2, "");
    println!("{}", r);
    assert!(r.starts_with("REP 3\n"));
    assert!(r.ends_with("CREP\nOUT NEWLINE"));
}

#[test]
fn compile_3() {
    let r = compile_script("./test_file/test3.tds", TEST3, TEST3_FLOATS);
    println!("{}", r);
    let tokens: Vec<&str> = r.split_whitespace().collect();
    let expected: Vec<&str> = vec!["REP", "1", "OUT", "RD", "QU", "8", "EC", "*", "RDS", "ABCDEFGHIJKLMNOPQRSTUVWXYZhijklmnopqrstuvwxyz~`!@#$%^&*()_-+=\\|[]{}:;'\"/?.>,<", "CRDS", "CRD", "OUT", "NEWLINE", "OUT", "RD", "QU", "11", "EC", "SPACE", "RDI", "1", "24", "RDI", "76", "100", "CRD", "OUT", "NEWLINE", "OUT", "RD", "QU", "15", "EC", "SPACE", "RDF", "1", "24.999", "0.00010000000000000005", "RDF", "75.001", "100", "0.00010000000000000005", "CRD", "CREP", "OUT", "NEWLINE"];
    assert_eq!(tokens, expected);
}

#[test]
fn parse_text_between_variables_is_constant() {
    let r = parse_script("t.tds", "(BEGIN;; 2)abc(1..3; int; 1)(END)");
    assert_eq!(r.len(), 5);
    assert!(r[1].is_constant());
    assert_eq!(r[1].const_str(), "abc");
}

#[test]
fn parse_int_material_ranges() {
    let r = parse_script("t.tds", "(BEGIN;; 1)(1..10 \\3..4 20..30; int int int; 2)(END)");
    assert_eq!(r[1].get_int_ranges(), &vec![(1, 2), (5, 10), (20, 30)]);
    assert_eq!(r[1].quantity(), 2);
}

#[test]
fn parse_error_unpaired_right_bracket() {
    let m = parse_error("(BEGIN;; 1))(END)");
    assert!(m.starts_with("[CompilerError] t.tds:"));
    assert!(m.ends_with("=> Unpaired right bracket"));
}

#[test]
fn parse_error_too_many_attributes() {
    let m = parse_error("(BEGIN;; 1)(1..2; int; 1; SPACE; x)(END)");
    assert!(m.ends_with("=> too much attributes in one variable"));
}

#[test]
fn parse_error_material_type_count() {
    let m = parse_error("(BEGIN;; 1)(1..2 3..4; int; 1)(END)");
    assert!(m.ends_with("=> number of material and type must be the same"));
}

#[test]
fn parse_error_unknown_type() {
    let m = parse_error("(BEGIN;; 1)(1..2; double; 1)(END)");
    assert!(m.ends_with("=> has unkown type in this variable"));
}

#[test]
fn parse_error_quantity() {
    let m = parse_error("(BEGIN;; 1)(1..2; int; x)(END)");
    assert!(m.ends_with("=> the argument quantity must be positive integer"));
}

#[test]
fn parse_error_int_border() {
    let m = parse_error("(BEGIN;; 1)(a..2; int; 1)(END)");
    assert!(m.ends_with("=> the border of NumberRange must be a number"));
}

#[test]
fn compile_two_lines_joined_by_newline() {
    let r = compile_script("t.tds", "(BEGIN;; 2)(END)", "");
    assert_eq!(r, "REP 2\nCREP\nOUT NEWLINE");
}

#[test]
fn compiled_script_runs() {
    let r = compile_script("./test_file/test1.tds", TEST1, "");
    let mut vm = VirtualMachine::new(r);
    assert!(vm.exec().is_ok());
    // Ten integers of 1..10 with no end char, then the end of the line.
    let out = vm.stdout().clone();
    assert!(out.ends_with('\n'));
    let digits = &out[..out.len() - 1];
    assert!(digits.len() >= 10 && digits.len() <= 20);
    assert!(digits.chars().all(|c| c.is_ascii_digit()));
}

#[test]
fn parse_error_quantity_zero() {
    let m = parse_error("(BEGIN;; 1)(1..10;int;0)(END)");
    assert!(m.ends_with("=> the argument quantity must be positive integer"));
}

#[test]
fn space_material_adds_a_space() {
    let r = parse_script("t.tds", "(BEGIN;; 1)(UPC SPACE LOC; = = =; 10)(END)");
    assert!(r[1].get_str_set().contains(' '));
    assert!(r[1].get_str_set().contains('A') && r[1].get_str_set().contains('z'));
}

#[test]
fn variable_text() {
    let r = parse_script("t.tds", "(BEGIN;; 1)(1..3 \\2..2 7..9; int int int; 4; SPACE)(END)");
    assert_eq!(
        r[1].to_text(),
        "[\n\tint_ranges: ((1, 1), (3, 3), (7, 9))\n\tfloat_ranges: ()\n\tstr_set: ()\n\tquantity: (4)\n\tend_char: ( )\n\tconstant: (false)\n\tconst_str: ()\n\ttag: (0)\n\tfloat_digits: ()\n]"
    );
}

#[test]
fn constant_command_is_split() {
    let r = compile_script("t.tds", "(BEGIN;; 1)OUT(END)", "");
    assert_eq!(r, "REP 1\nOUT O\nOUT UT\nCREP\nOUT NEWLINE");
    assert!(!r.ends_with('\n'));
    let commands = ["REP", "CREP", "RD", "QU", "EC", "CRD", "RDI", "RDF", "RDS", "CRDS", "OUT"];
    for line in r.split('\n') {
        for c in commands.iter() {
            assert_ne!(line, format!("OUT {}", c));
        }
    }
}
