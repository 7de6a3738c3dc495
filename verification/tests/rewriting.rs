use parser::rewr::{RewriteRule, RewritingSystem, Term};
use parser::grammar::Constraint;

fn t(head: &str, comps: &[&str]) -> Term {
    Term::new(head, comps)
}

fn holds(rs: &RewritingSystem, lhs: &Term, rhs: &Term) -> bool {
    rs.rules.iter().any(|r| &r.lhs == lhs && &r.rhs == rhs)
}

#[test]
fn term_new_builds_a_list_of_heads() {
    let a = t("number", &["x0"]);
    assert_eq!(a.size(), 2);
    assert_eq!(a.head(), "number");
    assert_eq!(a.last(), "x0");
    assert_eq!(a.as_vec(), vec!["number".to_string(), "x0".to_string()]);
    let b = t("@sg", &[]);
    assert_eq!(b.size(), 1);
    assert_eq!(b.last(), "@sg");
    assert!(b.arg().is_none());
    assert_eq!(a.arg().unwrap(), t("x0", &[]));
    let c = t("f", &["g", "h", "x"]);
    assert_eq!(c.size(), 4);
    assert_eq!(c.last(), "x");
    assert_eq!(c.arg().unwrap(), t("g", &["h", "x"]));
}

#[test]
fn term_equality_is_structural() {
    assert_eq!(t("f", &["x"]), t("f", &["x"]));
    assert_ne!(t("f", &["x"]), t("f", &["y"]));
    assert_ne!(t("f", &["x"]), t("f", &[]));
    assert_eq!(t("f", &["x"]).clone(), t("f", &["x"]));
}

#[test]
fn term_order_compares_size_then_heads() {
    // a shorter term is smaller, whatever its heads
    assert!(t("z", &[]) < t("a", &["a"]));
    assert!(t("a", &["a"]) > t("z", &[]));
    // one size: the outermost head decides first
    assert!(t("a", &["z"]) < t("b", &["a"]));
    // then the next head
    assert!(t("a", &["b"]) < t("a", &["c"]));
    assert!(!(t("a", &["b"]) < t("a", &["b"])));
    assert!(t("a", &["b"]).less(&t("a", &["c"])));
    assert!(!t("a", &["c"]).less(&t("a", &["b"])));
    // heads are compared as strings
    assert!(t("ab", &[]) < t("b", &[]));
    assert!(t("a", &[]) < t("ab", &[]));
    assert!(t("@sg", &[]) < t("x0", &[]));
    assert!(t("*", &[]) < t("g1", &[]));
    assert_eq!(
        t("a", &["b"]).partial_cmp(&t("a", &["b"])),
        Some(std::cmp::Ordering::Equal)
    );
    assert_eq!(
        t("a", &["b"]).partial_cmp(&t("a", &[])),
        Some(std::cmp::Ordering::Greater)
    );
}

#[test]
fn rule_new_puts_the_larger_term_left() {
    let r = RewriteRule::new(t("@sg", &[]), t("number", &["x0"]));
    assert_eq!(r.lhs, t("number", &["x0"]));
    assert_eq!(r.rhs, t("@sg", &[]));
    let r = RewriteRule::new(t("number", &["x0"]), t("@sg", &[]));
    assert_eq!(r.lhs, t("number", &["x0"]));
    assert_eq!(r.rhs, t("@sg", &[]));
    let r = RewriteRule::new(t("a", &[]), t("b", &[]));
    assert_eq!(r.lhs, t("b", &[]));
    assert_eq!(r.rhs, t("a", &[]));
    // equal terms stay as they are
    let r = RewriteRule::new(t("a", &[]), t("a", &[]));
    assert_eq!(r.lhs, t("a", &[]));
    assert_eq!(r.rhs, t("a", &[]));
}

#[test]
fn rewrite_replaces_the_subterm_and_keeps_the_heads_around_it() {
    let r = RewriteRule::new(t("x0", &[]), t("g1", &[]));
    // lhs is x0, rhs is g1
    assert_eq!(r.lhs, t("x0", &[]));
    assert_eq!(r.rewrite(&t("number", &["x0"])), Some(t("number", &["g1"])));
    assert_eq!(r.rewrite(&t("x0", &[])), Some(t("g1", &[])));
    assert_eq!(r.rewrite(&t("number", &["x1"])), None);
    assert_eq!(r.rewrite(&t("x0", &["number"])), None);
    let r = RewriteRule::new(t("f", &["g", "x"]), t("c", &[]));
    assert_eq!(r.rewrite(&t("h", &["f", "g", "x"])), Some(t("h", &["c"])));
    assert_eq!(r.rewrite(&t("f", &["g", "x"])), Some(t("c", &[])));
    assert_eq!(r.rewrite(&t("g", &["x"])), None);
    assert_eq!(r.rewrite(&t("f", &["g", "x", "y"])), None);
}

#[test]
fn norm_applies_rules_until_none_applies() {
    let mut rs = RewritingSystem::new();
    assert_eq!(rs.norm(&t("f", &["x"])), t("f", &["x"]));
    assert!(rs.add_rule(RewriteRule::new(t("x", &[]), t("c", &[]))));
    assert!(rs.add_rule(RewriteRule::new(t("f", &["c"]), t("b", &[]))));
    assert_eq!(rs.norm(&t("f", &["x"])), t("b", &[]));
    assert_eq!(rs.norm(&t("g", &["f", "x"])), t("g", &["b"]));
    assert_eq!(rs.norm(&t("g", &["y"])), t("g", &["y"]));
}

#[test]
fn norm_is_idempotent() {
    let mut rs = RewritingSystem::new();
    assert!(rs.add_rule(RewriteRule::new(t("x", &[]), t("c", &[]))));
    assert!(rs.add_rule(RewriteRule::new(t("f", &["c"]), t("b", &[]))));
    for term in [t("f", &["x"]), t("g", &["f", "x"]), t("x", &[]), t("q", &[])] {
        let once = rs.norm(&term);
        assert_eq!(rs.norm(&once), once);
    }
}

#[test]
fn add_rule_accepts_a_rule_that_already_holds() {
    let mut rs = RewritingSystem::new();
    assert!(rs.add_rule(RewriteRule::new(t("number", &["x0"]), t("@sg", &[]))));
    assert_eq!(rs.rules.len(), 1);
    assert!(rs.add_rule(RewriteRule::new(t("@sg", &[]), t("number", &["x0"]))));
    assert_eq!(rs.rules.len(), 1);
    assert!(rs.add_rule(RewriteRule::new(t("a", &[]), t("a", &[]))));
    assert_eq!(rs.rules.len(), 1);
}

#[test]
fn add_rule_rejects_two_different_constants() {
    let mut rs = RewritingSystem::new();
    assert!(!rs.add_rule(RewriteRule::new(t("@a", &[]), t("@b", &[]))));
    assert_eq!(rs.rules.len(), 0);
    assert!(rs.add_rule(RewriteRule::new(t("number", &["x0"]), t("@sg", &[]))));
    assert!(!rs.add_rule(RewriteRule::new(t("number", &["x0"]), t("@pl", &[]))));
    assert_eq!(rs.rules.len(), 1);
    // the same constant twice is no clash
    assert!(rs.add_rule(RewriteRule::new(t("@sg", &[]), t("@sg", &[]))));
}

#[test]
fn add_rule_completes_the_system() {
    // f(x) -> a, then x -> y: f(x) can now be rewritten to a and to f(y),
    // so f(y) -> a has to follow
    let mut rs = RewritingSystem::new();
    assert!(rs.add_rule(RewriteRule::new(t("f", &["x"]), t("a", &[]))));
    assert!(rs.add_rule(RewriteRule::new(t("y", &[]), t("x", &[]))));
    // y is the larger atom, so the rule is y -> x and nothing overlaps
    assert_eq!(rs.rules.len(), 2);
    assert_eq!(rs.norm(&t("f", &["y"])), t("a", &[]));
    let mut rs = RewritingSystem::new();
    assert!(rs.add_rule(RewriteRule::new(t("f", &["x"]), t("b", &[]))));
    assert!(rs.add_rule(RewriteRule::new(t("x", &[]), t("c", &[]))));
    // x -> c rewrites the left-hand side f(x): f(c) -> b is added
    assert_eq!(rs.rules.len(), 3);
    assert!(holds(&rs, &t("f", &["x"]), &t("b", &[])));
    assert!(holds(&rs, &t("x", &[]), &t("c", &[])));
    assert!(holds(&rs, &t("f", &["c"]), &t("b", &[])));
    assert_eq!(rs.norm(&t("f", &["x"])), t("b", &[]));
    assert_eq!(rs.norm(&t("f", &["c"])), t("b", &[]));
}

#[test]
fn add_rule_finds_a_clash_deep_in_the_completion() {
    let mut rs = RewritingSystem::new();
    assert!(rs.add_rule(RewriteRule::new(t("f", &["x"]), t("@a", &[]))));
    assert!(rs.add_rule(RewriteRule::new(t("f", &["c"]), t("@b", &[]))));
    // x = c makes f(x) and f(c) equal, and with them @a and @b
    assert!(!rs.add_rule(RewriteRule::new(t("x", &[]), t("c", &[]))));
}

#[test]
fn every_rule_of_a_system_is_oriented() {
    let mut rs = RewritingSystem::new();
    assert!(rs.add_rule(RewriteRule::new(t("@sg", &[]), t("number", &["x0"]))));
    assert!(rs.add_rule(RewriteRule::new(t("x0", &[]), t("x1", &[]))));
    assert!(rs.add_rule(RewriteRule::new(t("g", &["number", "x1"]), t("h", &["x0"]))));
    for r in &rs.rules {
        assert!(r.lhs > r.rhs);
    }
}

#[test]
fn normal_forms_do_not_depend_on_the_order_of_addition() {
    let pairs = [
        (t("f", &["x"]), t("b", &[])),
        (t("x", &[]), t("c", &[])),
        (t("g", &["f", "c"]), t("d", &[])),
    ];
    let mut one = RewritingSystem::new();
    for (a, b) in pairs.iter() {
        assert!(one.add_rule(RewriteRule::new(a.clone(), b.clone())));
    }
    let mut two = RewritingSystem::new();
    for (a, b) in pairs.iter().rev() {
        assert!(two.add_rule(RewriteRule::new(a.clone(), b.clone())));
    }
    for term in [t("g", &["f", "x"]), t("g", &["b"]), t("f", &["c"]), t("h", &["x"])] {
        assert_eq!(one.norm(&term), two.norm(&term));
    }
    assert_eq!(one.norm(&t("g", &["f", "x"])), t("d", &[]));
}

#[test]
fn a_constant_that_a_rule_rewrites_slips_past_the_clash_check() {
    // "1" comes before "@b" in the order of strings, so @b is rewritten
    let mut rs = RewritingSystem::new();
    assert!(rs.add_rule(RewriteRule::new(t("@b", &[]), t("1", &[]))));
    assert!(rs.add_rule(RewriteRule::new(t("@a", &[]), t("@b", &[]))));
}

#[test]
fn clone_with_subst_replaces_the_innermost_head() {
    let c = Constraint::Equal(t("number", &["*"]), t("number", &["."]));
    let s = c.clone_with_subst(vec![
        ("*".to_string(), "g1".to_string()),
        (".".to_string(), "x0".to_string()),
    ]);
    match s {
        Constraint::Equal(a, b) => {
            assert_eq!(a, t("number", &["g1"]));
            assert_eq!(b, t("number", &["x0"]));
        }
    }
    // a marker that is not innermost stays
    let c = Constraint::Equal(t("*", &["x"]), t("@sg", &[]));
    match c.clone_with_subst(vec![("*".to_string(), "g1".to_string())]) {
        Constraint::Equal(a, b) => {
            assert_eq!(a, t("*", &["x"]));
            assert_eq!(b, t("@sg", &[]));
        }
    }
    // pairs are followed one after the other
    let c = Constraint::Equal(t("f", &["a"]), t("b", &[]));
    match c.clone_with_subst(vec![
        ("a".to_string(), "b".to_string()),
        ("b".to_string(), "c".to_string()),
    ]) {
        Constraint::Equal(a, b) => {
            assert_eq!(a, t("f", &["c"]));
            assert_eq!(b, t("c", &[]));
        }
    }
    // pairs in a circle end after as many steps as there are pairs
    let c = Constraint::Equal(t("a", &[]), t("q", &[]));
    match c.clone_with_subst(vec![
        ("a".to_string(), "b".to_string()),
        ("b".to_string(), "a".to_string()),
    ]) {
        Constraint::Equal(a, b) => {
            assert_eq!(a, t("a", &[]));
            assert_eq!(b, t("q", &[]));
        }
    }
}

#[test]
fn constraint_rule_orients_the_equation() {
    let c = Constraint::Equal(t("@sg", &[]), t("number", &["x0"]));
    let r = c.rule();
    assert_eq!(r.lhs, t("number", &["x0"]));
    assert_eq!(r.rhs, t("@sg", &[]));
}
