use test_data_generator::attribute_table::lookup_attribute;
use test_data_generator::fixed::{digits_of_text, fixed_text_of, scaled_value};
use test_data_generator::error::{CompilerError, Location, RuntimeError};
use test_data_generator::number::{
    decimal_i64, decimal_u64, decimal_usize, is_float_text, parse_i128, parse_i64, parse_u64,
};
use test_data_generator::random::{gen_chars, gen_ints, Gener};
use test_data_generator::td_assembly::get_assembly_sytanx_hashmap;
use test_data_generator::text::{
    char_position, find_chars, replace_chars, split_chars, split_chars_on, trim_chars,
};
use test_data_generator::variable::{make_const_variable, Attribute};

fn v(s: &str) -> Vec<char> {
    s.chars().collect()
}

fn s(v: &Vec<char>) -> String {
    v.iter().collect()
}

#[test]
fn parse_integers_like_str_parse() {
    assert_eq!(parse_u64(&v("18446744073709551615")), Some(u64::MAX));
    assert_eq!(parse_u64(&v("18446744073709551616")), None);
    assert_eq!(parse_u64(&v("+12")), Some(12));
    assert_eq!(parse_u64(&v("-1")), None);
    assert_eq!(parse_u64(&v("")), None);
    assert_eq!(parse_i64(&v("-9223372036854775808")), Some(i64::MIN));
    assert_eq!(parse_i64(&v("9223372036854775808")), None);
    assert_eq!(parse_i64(&v("1a")), None);
    assert_eq!(parse_i128(&v("-170141183460469231731687303715884105728")), Some(i128::MIN));
    assert_eq!(parse_i128(&v("+")), None);
}

#[test]
fn decimal_forms() {
    assert_eq!(s(&decimal_u64(0)), "0");
    assert_eq!(s(&decimal_u64(u64::MAX)), u64::MAX.to_string());
    assert_eq!(s(&decimal_usize(1024)), "1024");
    assert_eq!(s(&decimal_i64(i64::MIN)), i64::MIN.to_string());
    assert_eq!(s(&decimal_i64(-5)), "-5");
}

#[test]
fn decimal_reads_back() {
    for n in [0u64, 7, 10, 99, 12345, u64::MAX] {
        assert_eq!(parse_u64(&decimal_u64(n)), Some(n));
    }
}

#[test]
fn float_texts() {
    for t in ["1", "1.5", "-0.25", "+3.", ".5", "1e10", "2.5E-3", "inf", "-infinity", "NaN"] {
        assert!(is_float_text(&v(t)), "{}", t);
        assert!(t.parse::<f64>().is_ok());
    }
    for t in ["", ".", "1..2", "e5", "1e", "abc", "1.2.3", "--1"] {
        assert!(!is_float_text(&v(t)), "{}", t);
        assert!(t.parse::<f64>().is_err());
    }
}

#[test]
fn text_helpers() {
    assert_eq!(s(&trim_chars(&v("  a b \n"))), "a b");
    assert_eq!(s(&replace_chars(&v("aXbXc"), &v("X"), &v("--"))), "a--b--c");
    let parts: Vec<String> = split_chars(&v("a;b;;c"), ';').iter().map(s).collect();
    assert_eq!(parts, vec!["a", "b", "", "c"]);
    let parts: Vec<String> = split_chars_on(&v("a b\nc"), ' ', '\n').iter().map(s).collect();
    assert_eq!(parts, vec!["a", "b", "c"]);
    assert_eq!(find_chars(&v("abcabc"), &v("ca")), Some(2));
    assert_eq!(find_chars(&v("abc"), &v("x")), None);
    assert_eq!(char_position(&v("abc"), 'c'), Some(2));
    assert_eq!(char_position(&v("abc"), 'z'), None);
}

#[test]
fn compiler_error_message() {
    let loc = Location::new("a.tds".to_string(), 3, 14);
    let e = CompilerError::new("Invalid Sytanx", &loc);
    assert_eq!(e.get_msg(), "[CompilerError] a.tds:3:14 => Invalid Sytanx");
}

#[test]
fn runtime_error_message() {
    let e = RuntimeError::new("boom");
    assert_eq!(e.get_msg(), "[RuntimeError] boom");
    let e = RuntimeError::from_chars(&v("bad"));
    assert_eq!(e.get_msg(), "[RuntimeError] bad");
}

#[test]
fn assembly_table() {
    let t = get_assembly_sytanx_hashmap();
    assert!(t.contains_key(&v("REP")));
    assert!(t.contains_key(&v("CRDS")));
    assert!(!t.contains_key(&v("NEWLINE")));
    assert_eq!(t.arg_count(&v("RDF")), Some(3));
    assert_eq!(t.arg_count(&v("RD")), Some(-1));
    assert_eq!(t.arg_count(&v("XYZ")), None);
}

#[test]
fn attribute_names() {
    assert_eq!(lookup_attribute(&v("int")), Some(Attribute::Type("int".to_string())));
    assert_eq!(lookup_attribute(&v("=")), Some(Attribute::Type("ANY".to_string())));
    assert_eq!(lookup_attribute(&v("BEGIN")), Some(Attribute::Tag("BEGIN".to_string())));
    assert_eq!(
        lookup_attribute(&v("\\SPACE")),
        Some(Attribute::Except(Box::new(Attribute::StrSet(" ".to_string()))))
    );
    assert_eq!(lookup_attribute(&v("double")), None);
}

#[test]
fn constant_variable() {
    let c = make_const_variable("abc");
    assert!(c.is_constant());
    assert_eq!(c.const_str(), "abc");
}

#[test]
fn random_ints_stay_in_range() {
    let xs = gen_ints((-5, 5), 200);
    assert_eq!(xs.len(), 200);
    assert!(xs.iter().all(|x| -5 <= *x && *x <= 5));
    let wide = gen_ints((1, 1_000_000_000), 50);
    assert!(wide.iter().any(|x| *x != wide[0]));
    assert_eq!(gen_ints((7, 7), 3), vec![7, 7, 7]);
    assert!(gen_ints((0, 1), 0).is_empty());
}

#[test]
fn random_chars_come_from_the_set() {
    let set = v("@#$%^_{}ajeibpxn");
    let cs = gen_chars(&set, 300);
    assert_eq!(cs.len(), 300);
    assert!(cs.iter().all(|c| set.contains(c)));
    assert!(cs.iter().any(|c| *c != cs[0]));
    assert_eq!(gen_chars(&v("z"), 4), v("zzzz"));
}

#[test]
fn signed_decimal_reads_back() {
    for n in [i64::MIN, -100, -1, 0, 1, 42, i64::MAX] {
        assert_eq!(parse_i64(&decimal_i64(n)), Some(n));
    }
}

#[test]
fn fixed_point_decimals() {
    assert_eq!(digits_of_text(&v("0.00010000000000000005")), 4);
    assert_eq!(digits_of_text(&v("0.001")), 3);
    assert_eq!(digits_of_text(&v("1")), 0);
    assert_eq!(scaled_value(&v("24.999"), 4), Some(249990));
    assert_eq!(scaled_value(&v("-1.23456"), 2), Some(-123));
    assert_eq!(scaled_value(&v(".5"), 1), Some(5));
    assert_eq!(scaled_value(&v("1e5"), 1), None);
    assert_eq!(scaled_value(&v("."), 1), None);
    assert_eq!(s(&fixed_text_of(249990, 4)), "24.9990");
    assert_eq!(s(&fixed_text_of(-5, 3)), "-0.005");
    assert_eq!(s(&fixed_text_of(42, 0)), "42");
}

#[test]
fn rand() {
    let quantity: u64 = 30;
    let mut gen = Gener::new(quantity);
    let vi: Vec<(i64, i64)> = vec![(1, 100)];
    // 1.1..5.8 and 10.0..45.8 in steps of 0.0001.
    let vf: Vec<(i64, i64)> = vec![(11000, 58000), (100000, 458000)];
    let ss = v("@#$%^_{}ajeibpxn");
    assert!(gen.gen_i(&vi).is_ok());
    assert!(gen.gen_f(&vf, 4).is_ok());
    assert!(gen.gen_s(&ss).is_ok());
    assert!(gen.res());
    let items = gen.items().unwrap().clone();
    let shown: Vec<String> = items.iter().map(|i| s(i)).collect();
    println!("{}", shown.join(" "));
    assert_eq!(items.len(), 30);
}

#[test]
fn gener_takes_each_material_once() {
    let mut gen = Gener::new(3);
    assert!(gen.gen_i(&vec![(5, 5)]).is_ok());
    assert!(gen.gen_i(&vec![(7, 7)]).is_err());
    assert!(gen.gen_s(&v("a")).is_ok());
    assert!(gen.gen_s(&v("b")).is_err());
    assert!(gen.gen_f(&vec![(1, 1)], 1).is_ok());
    assert!(gen.gen_f(&vec![(2, 2)], 1).is_err());
    assert!(gen.items().is_none());
    assert!(gen.res());
    let items: Vec<String> = gen.items().unwrap().iter().map(|x| s(x)).collect();
    assert_eq!(items.len(), 3);
    assert!(items.iter().all(|x| x == "5" || x == "a" || x == "0.1"));
}

#[test]
fn gener_draws_from_the_only_range() {
    let mut gen = Gener::new(3);
    assert!(gen.gen_i(&vec![(5, 5)]).is_ok());
    assert!(gen.res());
    let items: Vec<String> = gen.items().unwrap().iter().map(|x| s(x)).collect();
    assert_eq!(items, vec!["5", "5", "5"]);
}

#[test]
fn gener_keeps_its_draw() {
    let mut gen = Gener::new(20);
    assert!(gen.gen_i(&vec![(1, 1_000_000)]).is_ok());
    assert!(gen.gen_s(&v("xyz")).is_ok());
    assert!(gen.res());
    let first = gen.items().unwrap().clone();
    assert!(gen.res());
    assert_eq!(gen.items().unwrap(), &first);
    assert_eq!(first.len(), 20);
}

#[test]
fn gener_with_nothing_to_draw() {
    let mut gen = Gener::new(4);
    assert!(gen.gen_s(&Vec::new()).is_ok());
    assert!(gen.res());
    assert!(gen.items().unwrap().is_empty());
    let mut bad = Gener::new(4);
    assert!(bad.gen_i(&vec![(5, 1)]).is_ok());
    assert!(!bad.res());
    assert!(bad.items().is_none());
}
