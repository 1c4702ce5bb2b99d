use stereogram::strings::{rule, run};

#[test]
fn rewriting_reaches_a_normal_form() {
    let rules = vec![rule("ab", "ba")];
    assert_eq!(run(&rules, "aab", 10), Some(String::from("baa")));
}

#[test]
fn earlier_rules_take_precedence() {
    let rules = vec![rule("b", "c"), rule("a", "b")];
    assert_eq!(run(&rules, "ab", 10), Some(String::from("cc")));
    assert_eq!(run(&rules, "ab", 1), None);
}

#[test]
fn only_the_first_occurrence_is_replaced() {
    let rules = vec![rule("xx", "y")];
    assert_eq!(run(&rules, "xxxxx", 1), None);
    assert_eq!(run(&rules, "xxxxx", 2), Some(String::from("yyx")));
}

#[test]
fn no_rules_leave_the_seed() {
    assert_eq!(run(&[], "seed", 0), Some(String::from("seed")));
}

#[test]
fn growing_rules_run_out_of_steps() {
    let rules = vec![rule("a", "aa")];
    assert_eq!(run(&rules, "a", 5), None);
}
