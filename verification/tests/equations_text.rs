use ccx::equations::{deduction_pattern, push_unique, split_equation, trim_range};
use ccx::slots::{AppliedId, SlotMap};

#[test]
fn split_equation_at_first_equals() {
    let (l, r) = split_equation("(app g (var $x)) = a").unwrap();
    assert_eq!(l, "(app g (var $x))");
    assert_eq!(r, "a");
    let (l, r) = split_equation(" a = b = c ").unwrap();
    assert_eq!(l, "a");
    assert_eq!(r, "b = c");
    assert!(split_equation("no equation").is_none());
}

#[test]
fn trim_range_strips_white_space() {
    assert_eq!(trim_range("  ab c \t", 0, 8), "ab c");
    assert_eq!(trim_range("xx  yy", 2, 4), "");
}

#[test]
fn deduction_patterns() {
    assert_eq!(deduction_pattern("f", 0), "f");
    assert_eq!(deduction_pattern("f", 2), "(app (app f (var $var_0)) (var $var_1))");
    let p = deduction_pattern("h", 12);
    assert!(p.ends_with("(var $var_11))"));
}

#[test]
fn push_unique_appends_once() {
    let mut v: Vec<AppliedId> = vec![];
    push_unique(&mut v, AppliedId::new(1, SlotMap::new()));
    push_unique(&mut v, AppliedId::new(1, SlotMap::new()));
    push_unique(&mut v, AppliedId::new(2, SlotMap::new()));
    assert_eq!(v.len(), 2);
}
