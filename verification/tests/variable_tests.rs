use test_data_generator::variable::{Attribute, Variable};

fn approx_eq(a: f64, b: f64) -> bool {
    (a - b).abs() < 1e-10
}

#[test]
fn value_equal() {
    let a = Attribute::Any(());
    let b = Attribute::StrSet("abc".to_string());
    let c = Attribute::StrSet("cdef".to_string());

    assert!(a != b);
    assert!(b != c);
}

#[test]
fn type_equal() {
    let a = Attribute::Any(());
    let b = Attribute::StrSet("abc".to_string());
    let c = Attribute::StrSet("cdef".to_string());
    let d = Attribute::Except(Box::from(Attribute::Except(Box::from(Attribute::Any(())))));
    let e = Attribute::Except(Box::from(Attribute::Except(Box::from(Attribute::Any(())))));
    let f = Attribute::Except(Box::from(Attribute::Any(())));
    let g = Attribute::IntRange((0, 1));
    let h = Attribute::FloatRange(("0.0".to_string(), "1.1".to_string()));
    let i = Attribute::Tag("BEGIN".to_string());
    let j = Attribute::Type("int".to_string());
    let k = Attribute::Uncertain("1..10".to_string());

    assert_ne!(a.get_type(), b.get_type());
    assert_eq!(b.get_type(), c.get_type());
    assert_eq!(d.get_type(), e.get_type());
    assert_ne!(e.get_type(), f.get_type());
    assert_ne!(f.get_type(), a.get_type());

    assert_eq!(a.get_type(), "Any");
    assert_eq!(b.get_type(), "StrSet");
    assert_eq!(d.get_type(), "Except[Except[Any]]");
    assert_eq!(g.get_type(), "IntRange");
    assert_eq!(h.get_type(), "FloatRange");
    assert_eq!(i.get_type(), "Tag");
    assert_eq!(j.get_type(), "Type");
    assert_eq!(k.get_type(), "Uncertain");
}

#[test]
fn join_int_range() {
    let mut a = Variable::new();
    let ans: &Vec<(i64, i64)> = &vec![(-2, 11), (15, 30), (100, 100)];

    a.join_int_range((0, 10));
    a.join_int_range((-1, 11));
    a.join_int_range((-2, 5));
    a.join_int_range((15, 20));
    a.join_int_range((20, 30));
    a.join_int_range((100, 100));

    let data: &Vec<(i64, i64)> = a.get_int_ranges();
    assert_eq!(data, ans);
}

#[test]
fn del_int_range() {
    let mut a = Variable::new();
    let ans: &Vec<(i64, i64)> = &vec![(21, 24), (27, 30)];

    a.join_int_range((0, 10));
    a.join_int_range((-1, 11));
    a.join_int_range((-2, 5));
    a.join_int_range((15, 20));
    a.join_int_range((20, 30));
    a.join_int_range((100, 100));

    a.del_int_range((-3, 12));
    a.del_int_range((15, 15));
    a.del_int_range((100, 100));
    a.del_int_range((5, 20));
    a.del_int_range((25, 26));

    let data: &Vec<(i64, i64)> = a.get_int_ranges();
    assert_eq!(data, ans);
}

#[test]
fn join_str_set() {
    let mut a = Variable::new();
    let s: String = String::from("abcdefghijk");

    for i in s.chars() {
        a.join_str_set(i);
    }
    for i in s.chars() {
        assert_eq!(false, a.join_str_set(i));
    }
    assert_eq!(a.join_str_set('z'), true);

    assert_eq!(a.get_str_set(), &String::from("abcdefghijkz"));
}

#[test]
fn del_str_set() {
    let mut a = Variable::new();
    let s: String = String::from("abcdefghijk");

    for i in s.chars() {
        a.join_str_set(i);
    }

    a.del_str_set('a');
    a.del_str_set('g');
    a.del_str_set('k');
    assert_eq!(a.del_str_set('j'), true);
    assert_eq!(a.del_str_set('a'), false);

    assert_eq!(a.get_str_set(), &String::from("bcdefhi"));
}

#[test]
fn set_quantity() {
    let mut a = Variable::new();
    a.set_quantity(15);
    assert_eq!(15, a.get_quanity());
}

#[test]
fn set_end_char() {
    let mut a = Variable::new();
    a.set_end_char(String::from("abc"));
    assert_eq!(a.get_end_char(), &String::from("abc"));
}

#[test]
fn set_to_constant() {
    let mut a = Variable::new();
    a.set_to_constant(String::from("CONSTANT_VALUE"));
    assert_eq!(a.get_const_str(), &String::from("CONSTANT_VALUE"));
    assert_eq!(a.get_constant(), true);
}

#[test]
fn set_to_variable() {
    let mut a = Variable::new();
    a.set_to_variable();
    assert_eq!(a.get_constant(), false);
}

#[test]
fn set_float_precision() {
    let mut a = Variable::new();
    a.set_float_precision(5);
    let digits = a.float_digits().unwrap();
    assert_eq!(digits, 5);
    assert!(approx_eq(0.1_f64.powi(digits as i32), 0.00001_f64));
}

#[test]
fn join_adjacent_ranges_stay_apart() {
    let mut a = Variable::new();
    a.join_int_range((1, 3));
    a.join_int_range((4, 5));
    assert_eq!(a.get_int_ranges(), &vec![(1, 3), (4, 5)]);
    a.join_int_range((3, 4));
    assert_eq!(a.get_int_ranges(), &vec![(1, 5)]);
}

#[test]
fn join_range_covering_several() {
    let mut a = Variable::new();
    a.join_int_range((1, 2));
    a.join_int_range((5, 6));
    a.join_int_range((9, 10));
    a.join_int_range((0, 7));
    assert_eq!(a.get_int_ranges(), &vec![(0, 7), (9, 10)]);
}

#[test]
fn join_range_at_marker_value() {
    let mut a = Variable::new();
    a.join_int_range((-1, 5));
    assert_eq!(a.get_int_ranges(), &vec![(-1, 5)]);
    a.join_int_range((-3, -1));
    assert_eq!(a.get_int_ranges(), &vec![(-3, 5)]);
}

#[test]
fn del_splits_a_range() {
    let mut a = Variable::new();
    a.join_int_range((0, 10));
    a.del_int_range((3, 5));
    assert_eq!(a.get_int_ranges(), &vec![(0, 2), (6, 10)]);
    a.del_int_range((-100, 100));
    assert!(a.get_int_ranges().is_empty());
}

#[test]
fn new_variable_is_empty() {
    let a = Variable::new();
    assert!(a.get_int_ranges().is_empty());
    assert!(a.float_materials().is_empty());
    assert_eq!(a.get_str_set(), "");
    assert_eq!(a.get_constant(), true);
    assert!(!a.is_tag());
}

#[test]
fn except_type_name() {
    let e = Attribute::Except(Box::from(Attribute::IntRange((1, 2))));
    assert_eq!(e.get_type(), "Except[IntRange]");
}

#[test]
fn join_then_del_leaves_the_rest() {
    let mut a = Variable::new();
    a.join_int_range((0, 3));
    a.join_int_range((10, 12));
    a.join_int_range((2, 11));
    assert_eq!(a.get_int_ranges(), &vec![(0, 12)]);
    a.del_int_range((2, 11));
    assert_eq!(a.get_int_ranges(), &vec![(0, 1), (12, 12)]);
}

#[test]
fn join_then_del_char_restores_set() {
    let mut a = Variable::new();
    a.join_str_set('x');
    a.join_str_set('y');
    assert!(a.join_str_set('q'));
    assert!(a.del_str_set('q'));
    assert_eq!(a.get_str_set(), "xy");
}
