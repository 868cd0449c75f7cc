use test_data_generator::buffer_reader::BufferReader;
use test_data_generator::virtual_machine::VirtualMachine;

const TEST3_TDC: &str = "REP 1\nOUT RD QU 8 EC * RDS ABCDEFGHIJKLMNOPQRSTUVWXYZhijklmnopqrstuvwxyz~`!@#$%^&*()_-+=|[]{}:;'\"/?.>,< CRDS CRD\nOUT NEWLINE\nOUT RD QU 11 EC SPACE RDI 1 24 RDI 76 100 CRD\nOUT NEWLINE\nOUT RD QU 15 EC SPACE RDF 1 24.999 0.00010000000000000005 RDF 75.001 100 0.00010000000000000005 CRD\nCREP\nOUT NEWLINE\n";

#[test]
fn read_all() {
    let mut bfr = BufferReader::new(TEST3_TDC.to_string());

    let res = match bfr.read_to_end() {
        Ok(v) => v,
        Err(_) => panic!("BufferReader::read_to_end()"),
    };
    let mut ans: Vec<String> = Vec::new();
    let _ans: Vec<&str> = vec!["REP", "1", "OUT", "RD", "QU", "8", "EC", "*", "RDS", "ABCDEFGHIJKLMNOPQRSTUVWXYZhijklmnopqrstuvwxyz~`!@#$%^&*()_-+=|[]{}:;'\"/?.>,<", "CRDS", "CRD", "OUT", "NEWLINE", "OUT", "RD", "QU", "11", "EC", "SPACE", "RDI", "1", "24", "RDI", "76", "100", "CRD", "OUT", "NEWLINE", "OUT", "RD", "QU", "15", "EC", "SPACE", "RDF", "1", "24.999", "0.00010000000000000005", "RDF", "75.001", "100", "0.00010000000000000005", "CRD", "CREP", "OUT", "NEWLINE"];

    ans.extend(_ans.iter().map(|a| -> String { a.to_string() }));

    assert_eq!(res, ans);
}

#[test]
fn run_3() {
    let mut vm = VirtualMachine::new(TEST3_TDC.to_string());

    match vm.exec() {
        Ok(_) => {}
        Err(_) => panic!("VirtualMachine::exec()"),
    };

    println!("vm.stdout() = [{}]", vm.stdout());
}

fn set_of_test3() -> Vec<char> {
    "ABCDEFGHIJKLMNOPQRSTUVWXYZhijklmnopqrstuvwxyz~`!@#$%^&*()_-+=|[]{}:;'\"/?.>,<".chars().collect()
}

#[test]
fn run_3_writes_drawn_data() {
    let mut vm = VirtualMachine::new(TEST3_TDC.to_string());
    assert!(vm.exec().is_ok());
    let out = vm.stdout().clone();
    let lines: Vec<&str> = out.split('\n').collect();
    assert_eq!(lines.len(), 4);
    // Eight characters of the set, with `*` between each two.
    let first: Vec<char> = lines[0].chars().collect();
    assert_eq!(first.len(), 15);
    let set = set_of_test3();
    for (i, c) in first.iter().enumerate() {
        if i % 2 == 1 {
            assert_eq!(*c, '*');
        } else {
            assert!(set.contains(c));
        }
    }
    // Eleven integers of 1..24 and 76..100, with a space between each two.
    let nums: Vec<i64> = lines[1].split(' ').map(|t| t.parse().unwrap()).collect();
    assert_eq!(nums.len(), 11);
    assert!(nums.iter().all(|x| (1 <= *x && *x <= 24) || (76 <= *x && *x <= 100)));
    // Fifteen decimals of 1..24.999 and 75.001..100 with four decimals each.
    let floats: Vec<&str> = lines[2].split(' ').collect();
    assert_eq!(floats.len(), 15);
    for t in floats.iter() {
        let (_, frac) = t.split_once('.').unwrap();
        assert_eq!(frac.len(), 4);
        let x: f64 = t.parse().unwrap();
        assert!((1.0 <= x && x <= 24.999) || (75.001 <= x && x <= 100.0));
    }
    assert_eq!(lines[3], "");
}

#[test]
fn rd_writes_quantity_items_with_end_char() {
    let mut vm = VirtualMachine::new("REP 1 OUT RD QU 3 EC * RDS a CRDS CRD CREP".to_string());
    assert!(vm.exec().is_ok());
    assert_eq!(vm.stdout(), "a*a*a");
    let mut vm = VirtualMachine::new("REP 1 OUT RD QU 2 EC SPACE RDI 5 5 CRD CREP".to_string());
    assert!(vm.exec().is_ok());
    assert_eq!(vm.stdout(), "5 5");
}

#[test]
fn rd_mixes_integers_and_characters() {
    let mut vm = VirtualMachine::new("REP 1 OUT RD QU 4 EC , RDI 7 7 RDS x CRDS CRD CREP".to_string());
    assert!(vm.exec().is_ok());
    let out = vm.stdout().clone();
    let items: Vec<&str> = out.split(',').collect();
    assert_eq!(items.len(), 4);
    assert!(items.iter().all(|t| *t == "7" || *t == "x"));
    assert!(items.contains(&"7") && items.contains(&"x"));
}

#[test]
fn rd_with_reversed_range() {
    let mut vm = VirtualMachine::new("REP 1 OUT RD QU 2 EC x RDI 5 1 CRD CREP".to_string());
    let e = vm.exec().unwrap_err();
    assert_eq!(e.get_msg(), "[RuntimeError] Internal RuntimeError: occured when generating datas");
}

#[test]
fn repeat_writes_word_n_times() {
    let mut vm = VirtualMachine::new("REP 3 OUT ab CREP".to_string());
    assert!(vm.exec().is_ok());
    assert_eq!(vm.stdout(), "ababab");
}

#[test]
fn out_decodes_space_and_newline() {
    let mut vm = VirtualMachine::new("REP 1 OUT xSPACEy OUT NEWLINE CREP".to_string());
    assert!(vm.exec().is_ok());
    assert_eq!(vm.stdout(), "x y\n");
}

#[test]
fn program_must_start_with_rep() {
    let mut vm = VirtualMachine::new("OUT a".to_string());
    let e = vm.exec().unwrap_err();
    assert_eq!(e.get_msg(), "[RuntimeError] the beginning of the program must be (BEGIN)");
}

#[test]
fn crep_without_rep() {
    let mut vm = VirtualMachine::new("REP 1 OUT a CREP CREP".to_string());
    let e = vm.exec().unwrap_err();
    assert_eq!(e.get_msg(), "[RuntimeError] Internal RuntimeError: CREP without REP");
}

#[test]
fn rd_needs_qu() {
    let mut vm = VirtualMachine::new("REP 1 OUT RD EC x CRD CREP".to_string());
    let e = vm.exec().unwrap_err();
    assert_eq!(e.get_msg(), "[RuntimeError] Internal RuntimeError: didn't find QU cmd after RD cmd");
}

#[test]
fn rd_needs_ec() {
    let mut vm = VirtualMachine::new("REP 1 OUT RD QU 2 x CRD CREP".to_string());
    let e = vm.exec().unwrap_err();
    assert_eq!(e.get_msg(), "[RuntimeError] Internal RuntimeError: didn't find EC cmd after RD cmd");
}

#[test]
fn rep_count_must_be_a_number() {
    let mut vm = VirtualMachine::new("REP x OUT a CREP".to_string());
    let e = vm.exec().unwrap_err();
    assert_eq!(e.get_msg(), "[RuntimeError] Internal RuntimeError: cannot convert this token to type T");
}

#[test]
fn reader_runs_out() {
    let mut r = BufferReader::new("A B".to_string());
    assert_eq!(r.read_cmd().unwrap(), "A");
    assert_eq!(r.read_token().unwrap(), "B");
    assert!(r.read_cmd().is_err());
}

#[test]
fn reader_reads_numbers() {
    let mut r = BufferReader::new("12 -7 x".to_string());
    assert_eq!(r.read_arg::<u64>().unwrap(), 12);
    assert_eq!(r.read_arg::<i64>().unwrap(), -7);
    assert!(r.read_arg::<u64>().is_err());
    assert_eq!(r.get_reader_index(), 3);
    r.move_reader(1);
    assert_eq!(r.read_cmd().unwrap(), "-7");
}

#[test]
fn reader_drops_carriage_returns() {
    let mut r = BufferReader::new("  A\r\nB C \n".to_string());
    assert_eq!(r.len(), 3);
    assert_eq!(r.read_to_end().unwrap(), vec!["A".to_string(), "B".to_string(), "C".to_string()]);
}

#[test]
fn repeat_writes_every_word_each_time() {
    let mut vm = VirtualMachine::new("REP 2\nOUT a\nOUT bSPACE\nOUT NEWLINE\nCREP".to_string());
    assert!(vm.exec().is_ok());
    assert_eq!(vm.stdout(), "ab \nab \n");
}

#[test]
fn rd_writes_fixed_decimals() {
    let mut vm = VirtualMachine::new("REP 1 OUT RD QU 3 EC ; RDF -0.5 -0.5 0.01 CRD CREP".to_string());
    assert!(vm.exec().is_ok());
    assert_eq!(vm.stdout(), "-0.50;-0.50;-0.50");
}
