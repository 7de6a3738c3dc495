use parser::avm::{starts_with, Avm};
use parser::chart::{Chart, Edge};
use parser::grammar::{Constraint, Grammar, Rule, RuleItem};
use parser::render::{int_string, join_strings};
use parser::rewr::{RewriteRule, RewritingSystem, Term};

fn t(head: &str, comps: &[&str]) -> Term {
    Term::new(head, comps)
}

fn s(x: &str) -> String {
    x.to_string()
}

fn path(attrs: &[&str]) -> Vec<String> {
    attrs.iter().map(|a| a.to_string()).collect()
}

#[test]
fn terms_and_rules_as_text() {
    assert_eq!(t("x0", &[]).render(), "x0");
    assert_eq!(t("number", &["x0"]).render(), "number(x0)");
    assert_eq!(t("f", &["g", "h", "x"]).render(), "f(g(h(x)))");
    let r = RewriteRule::new(t("@sg", &[]), t("number", &["x0"]));
    assert_eq!(r.render(), "number(x0) -> @sg");
    let c = Constraint::Equal(t("number", &["*"]), t("number", &["."]));
    assert_eq!(c.render(), "number(*) = number(.)");
    let mut rs = RewritingSystem::new();
    assert_eq!(rs.render(), "");
    assert!(rs.add_rule(RewriteRule::new(t("number", &["x0"]), t("@sg", &[]))));
    assert!(rs.add_rule(RewriteRule::new(t("case", &["x0"]), t("@nom", &[]))));
    assert_eq!(rs.render(), "number(x0) -> @sg\ncase(x0) -> @nom\n");
}

#[test]
fn grammar_rules_as_text() {
    assert_eq!(RuleItem::parse("Det?", vec![]).render(), "Det?");
    assert_eq!(RuleItem::parse("a+", vec![]).render(), "a+");
    assert_eq!(RuleItem::parse("a*", vec![]).render(), "a*");
    assert_eq!(RuleItem::parse("N", vec![]).render(), "N");
    let r = Rule::new("NP", &["Det?", "Adj*", "N"], vec![vec![], vec![], vec![]]);
    assert_eq!(r.render(), "NP -> Det? Adj* N");
    assert_eq!(Rule::new("E", &[], vec![]).render(), "E -> ");
}

#[test]
fn numbers_as_text() {
    assert_eq!(int_string(0), "0");
    assert_eq!(int_string(42), "42");
    assert_eq!(int_string(-7), "-7");
    assert_eq!(int_string(i32::MAX), "2147483647");
    assert_eq!(int_string(i32::MIN), "-2147483648");
    assert_eq!(join_strings(&vec![], ", "), "");
    assert_eq!(join_strings(&vec![s("a")], ", "), "a");
    assert_eq!(join_strings(&vec![s("a"), s("b"), s("c")], ", "), "a, b, c");
}

#[test]
fn avm_set_puts_a_value_at_a_path() {
    let mut avm = Avm::new();
    assert_eq!(avm.render(), "{}");
    avm.set(path(&["number"]), s("sg"));
    avm.set(path(&["agr", "person"]), s("3"));
    assert_eq!(avm.entries, vec![(path(&["number"]), s("sg")), (path(&["agr", "person"]), s("3"))]);
    assert_eq!(avm.render(), "{number: sg, agr.person: 3}");
    // a value is replaced
    avm.set(path(&["number"]), s("pl"));
    assert_eq!(avm.render(), "{agr.person: 3, number: pl}");
    // below a value nothing is set
    avm.set(path(&["number", "kind"]), s("dual"));
    assert_eq!(avm.render(), "{agr.person: 3, number: pl}");
    // a value takes the place of the structure below its path
    avm.set(path(&["agr", "case"]), s("nom"));
    avm.set(path(&["agr"]), s("none"));
    assert_eq!(avm.render(), "{number: pl, agr: none}");
}

#[test]
fn avm_set_gives_the_same_whatever_the_order() {
    let mut one = Avm::new();
    one.set(path(&["f"]), s("a"));
    one.set(path(&["f", "g"]), s("b"));
    let mut two = Avm::new();
    two.set(path(&["f", "g"]), s("b"));
    two.set(path(&["f"]), s("a"));
    assert_eq!(one.entries, two.entries);
    assert_eq!(one.entries, vec![(path(&["f"]), s("a"))]);
}

#[test]
fn starts_with_compares_paths() {
    assert!(starts_with(&path(&["a", "b"]), &path(&["a"])));
    assert!(starts_with(&path(&["a", "b"]), &path(&["a", "b"])));
    assert!(starts_with(&path(&["a", "b"]), &path(&[])));
    assert!(!starts_with(&path(&["a", "b"]), &path(&["b"])));
    assert!(!starts_with(&path(&["a"]), &path(&["a", "b"])));
}

#[test]
fn from_theory_collects_the_features_of_a_variable() {
    let mut rs = RewritingSystem::new();
    assert!(rs.add_rule(RewriteRule::new(t("number", &["x0"]), t("@sg", &[]))));
    assert!(rs.add_rule(RewriteRule::new(t("person", &["agr", "x0"]), t("@3", &[]))));
    assert!(rs.add_rule(RewriteRule::new(t("number", &["x1"]), t("@pl", &[]))));
    assert!(rs.add_rule(RewriteRule::new(t("head", &["x0"]), t("lemma", &["x0"]))));
    let avm = Avm::from_theory(&rs, "x0");
    assert_eq!(
        avm.entries,
        vec![(path(&["number"]), s("sg")), (path(&["agr", "person"]), s("3"))]
    );
    assert_eq!(Avm::from_theory(&rs, "x1").render(), "{number: pl}");
    assert_eq!(Avm::from_theory(&rs, "x2").render(), "{}");
    assert_eq!(Avm::from_theory(&RewritingSystem::new(), "x0").render(), "{}");
}

#[test]
fn from_theory_follows_the_variable_to_its_normal_form() {
    let mut rs = RewritingSystem::new();
    assert!(rs.add_rule(RewriteRule::new(t("number", &["x0"]), t("@sg", &[]))));
    assert!(rs.add_rule(RewriteRule::new(t("x1", &[]), t("x0", &[]))));
    assert_eq!(Avm::from_theory(&rs, "x1").render(), "{number: sg}");
}

#[test]
fn from_theory_passes_over_an_empty_head() {
    let mut rs = RewritingSystem::new();
    assert!(rs.add_rule(RewriteRule::new(t("f", &["x0"]), t("", &[]))));
    assert_eq!(Avm::from_theory(&rs, "x0").render(), "{}");
}

#[test]
fn edges_as_text() {
    let mut g = Grammar::new();
    let none = || vec![vec![]];
    g.add_rule(Rule::new("S", &["NP", "VP"], vec![none(), none()]));
    g.add_rule(Rule::new("NP", &["Det", "N"], vec![none(), none()]));
    g.add_rule(Rule::new(
        "VP",
        &["V"],
        vec![vec![vec![Constraint::Equal(t("tense", &["*"]), t("tense", &["."]))]]],
    ));
    let mut chart = Chart::new();
    chart.add_edge(Edge::new(0, 1, "Det", "x0", vec![vec![]]));
    chart.add_edge(Edge::new(1, 2, "N", "x1", vec![vec![]]));
    chart.add_edge(Edge::new(
        2,
        3,
        "V",
        "x2",
        vec![
            vec![Constraint::Equal(t("tense", &["*"]), t("@past", &[]))],
            vec![Constraint::Equal(t("tense", &["*"]), t("@pres", &[]))],
        ],
    ));
    assert!(g.parse(&mut chart));
    assert_eq!(chart.tree(0), "Det");
    assert_eq!(chart.render_edge(0), "-0- Det -1- / Det / {}");
    assert_eq!(chart.render_edge(2), "-2- V -3- / V / {tense: past} | {tense: pres}");
    let find = |label: &str| chart.edges.iter().position(|e| e.label == label).unwrap();
    assert_eq!(chart.tree(find("NP")), "NP(Det,N)");
    assert_eq!(chart.tree(find("S")), "S(NP(Det,N),VP(V))");
    let vp = find("VP");
    let name = chart.edge(vp).logvar.clone();
    assert_eq!(
        chart.render_edge(vp),
        format!("-2- VP -3- / VP(V) / {{tense: past}} | {{tense: pres}}")
    );
    assert!(name.starts_with('g'));
    let mut chart = Chart::new();
    chart.add_edge(Edge::new(-3, -1, "a", "x0", vec![]));
    assert_eq!(chart.render_edge(0), "--3- a --1- / a / ");
}
