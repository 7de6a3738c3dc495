use parser::chart::{Chart, Edge, Path};
use parser::grammar::{Constraint, Grammar, Rule, RuleItem};
use parser::parse::{cross, extend, ParseContext};
use parser::rewr::{RewriteRule, RewritingSystem, Term};
use parser::text::{decimal_string, fresh_name_string, str_less};

fn t(head: &str, comps: &[&str]) -> Term {
    Term::new(head, comps)
}

fn leaf(start: i32, end: i32, label: &str, logvar: &str) -> Edge {
    Edge::new(start, end, label, logvar, vec![vec![]])
}

fn holds(rs: &RewritingSystem, lhs: &Term, rhs: &Term) -> bool {
    rs.rules.iter().any(|r| &r.lhs == lhs && &r.rhs == rhs)
}

fn spans(chart: &Chart, label: &str) -> Vec<(i32, i32)> {
    let mut v: Vec<(i32, i32)> = chart
        .edges
        .iter()
        .filter(|e| e.label == label)
        .map(|e| (e.start, e.end))
        .collect();
    v.sort();
    v
}

fn agreement() -> Grammar {
    let mut g = Grammar::new();
    let c = || vec![vec![Constraint::Equal(t("number", &["*"]), t("number", &["."]))]];
    g.add_rule(Rule::new("S", &["NP", "VP"], vec![c(), c()]));
    g
}

fn number(value: &str) -> Vec<Vec<Constraint>> {
    vec![vec![Constraint::Equal(t("number", &["*"]), t(value, &[]))]]
}

#[test]
fn atomic_parse() {
    let mut g = Grammar::new();
    g.add_rule(Rule::new("S", &["a"], vec![vec![vec![]]]));
    let mut chart = Chart::new();
    chart.add_edge(leaf(0, 1, "a", "x0"));
    assert!(g.parse(&mut chart));
    let ids = chart.all_edges(false);
    assert_eq!(ids.len(), 2);
    let s = ids.iter().map(|&i| chart.edge(i)).find(|e| e.label == "S").unwrap();
    assert_eq!((s.start, s.end), (0, 1));
    assert_eq!(s.logvar, "g1");
    assert_eq!(s.level, 1);
    assert_eq!(s.theories.len(), 1);
    assert_eq!(s.theories[0].rules.len(), 0);
    assert_eq!(s.children, vec![0]);
    let a = ids.iter().map(|&i| chart.edge(i)).find(|e| e.label == "a").unwrap();
    assert_eq!((a.start, a.end, a.level), (0, 1, 0));
    assert_eq!(a.logvar, "x0");
    assert!(chart.is_used(0));
    assert!(!chart.is_used(1));
    assert_eq!(chart.all_edges(true), vec![1]);
}

#[test]
fn feature_agreement_pass() {
    let g = agreement();
    let mut chart = Chart::new();
    chart.add_edge(Edge::new(0, 1, "NP", "x0", number("@sg")));
    chart.add_edge(Edge::new(1, 2, "VP", "x1", number("@sg")));
    assert!(holds(&chart.edges[0].theories[0], &t("number", &["x0"]), &t("@sg", &[])));
    assert!(g.parse(&mut chart));
    assert_eq!(spans(&chart, "S"), vec![(0, 2)]);
    let s = chart.edges.iter().find(|e| e.label == "S").unwrap();
    assert_eq!(s.theories.len(), 1);
    assert_eq!(s.logvar, "g1");
    assert!(holds(&s.theories[0], &t("number", &["g1"]), &t("@sg", &[])));
    assert!(holds(&s.theories[0], &t("number", &["x0"]), &t("@sg", &[])));
    assert!(holds(&s.theories[0], &t("number", &["x1"]), &t("@sg", &[])));
    assert_eq!(s.theories[0].norm(&t("number", &["g1"])), t("@sg", &[]));
    assert_eq!(s.children, vec![0, 1]);
    assert_eq!(s.level, 1);
}

#[test]
fn feature_agreement_fail() {
    let g = agreement();
    let mut chart = Chart::new();
    chart.add_edge(Edge::new(0, 1, "NP", "x0", number("@sg")));
    chart.add_edge(Edge::new(1, 2, "VP", "x1", number("@pl")));
    assert!(g.parse(&mut chart));
    assert_eq!(spans(&chart, "S"), vec![]);
    assert_eq!(chart.len(), 2);
    assert!(!chart.is_used(0));
    assert!(!chart.is_used(1));
}

#[test]
fn skippable() {
    let mut g = Grammar::new();
    g.add_rule(Rule::new("NP", &["Det?", "N"], vec![vec![vec![]], vec![vec![]]]));
    let mut chart = Chart::new();
    chart.add_edge(leaf(0, 1, "N", "x0"));
    assert!(g.parse(&mut chart));
    assert_eq!(spans(&chart, "NP"), vec![(0, 1)]);
    // with a determiner in front there is the long noun phrase too
    let mut chart = Chart::new();
    chart.add_edge(leaf(0, 1, "Det", "x0"));
    chart.add_edge(leaf(1, 2, "N", "x1"));
    assert!(g.parse(&mut chart));
    assert_eq!(spans(&chart, "NP"), vec![(0, 2), (1, 2)]);
}

#[test]
fn repeatable() {
    let mut g = Grammar::new();
    g.add_rule(Rule::new("X", &["a+"], vec![vec![vec![]]]));
    let mut chart = Chart::new();
    chart.add_edge(leaf(0, 1, "a", "x0"));
    chart.add_edge(leaf(1, 2, "a", "x1"));
    chart.add_edge(leaf(2, 3, "a", "x2"));
    assert!(g.parse(&mut chart));
    assert_eq!(
        spans(&chart, "X"),
        vec![(0, 1), (0, 2), (0, 3), (1, 2), (1, 3), (2, 3)]
    );
    assert_eq!(chart.len(), 9);
}

#[test]
fn disjunctive_theories() {
    let two = || {
        vec![
            vec![Constraint::Equal(t("gender", &["*"]), t("@m", &[]))],
            vec![Constraint::Equal(t("gender", &["*"]), t("@f", &[]))],
        ]
    };
    let pin = |value: &str| {
        let mut g = Grammar::new();
        g.add_rule(Rule::new(
            "S",
            &["a"],
            vec![vec![vec![Constraint::Equal(t("gender", &["."]), t(value, &[]))]]],
        ));
        g
    };
    let mut chart = Chart::new();
    chart.add_edge(Edge::new(0, 1, "a", "x0", two()));
    assert_eq!(chart.edges[0].theories.len(), 2);
    assert!(pin("@m").parse(&mut chart));
    assert_eq!(spans(&chart, "S"), vec![(0, 1)]);
    let s = chart.edges.iter().find(|e| e.label == "S").unwrap();
    assert_eq!(s.theories.len(), 1);
    assert!(holds(&s.theories[0], &t("gender", &["x0"]), &t("@m", &[])));

    let mut chart = Chart::new();
    chart.add_edge(Edge::new(0, 1, "a", "x0", two()));
    assert!(pin("@n").parse(&mut chart));
    assert_eq!(spans(&chart, "S"), vec![]);
}

#[test]
fn parse_goes_up_level_by_level() {
    let mut g = Grammar::new();
    g.add_rule(Rule::new("S", &["NP", "VP"], vec![vec![vec![]], vec![vec![]]]));
    g.add_rule(Rule::new("NP", &["Det", "N"], vec![vec![vec![]], vec![vec![]]]));
    g.add_rule(Rule::new("VP", &["V", "NP"], vec![vec![vec![]], vec![vec![]]]));
    let mut chart = Chart::new();
    chart.add_edge(leaf(0, 1, "Det", "x0"));
    chart.add_edge(leaf(1, 2, "N", "x1"));
    chart.add_edge(leaf(2, 3, "V", "x2"));
    chart.add_edge(leaf(3, 4, "Det", "x3"));
    chart.add_edge(leaf(4, 5, "N", "x4"));
    assert!(g.parse(&mut chart));
    assert_eq!(spans(&chart, "NP"), vec![(0, 2), (3, 5)]);
    assert_eq!(spans(&chart, "VP"), vec![(2, 5)]);
    assert_eq!(spans(&chart, "S"), vec![(0, 5)]);
    let s = chart.edges.iter().find(|e| e.label == "S").unwrap();
    assert_eq!(s.level, 3);
    // the level gate: one daughter one level down, none higher
    for e in chart.edges.iter().filter(|e| e.level > 0) {
        assert!(e.children.iter().any(|&c| chart.edges[c].level == e.level - 1));
        assert!(e.children.iter().all(|&c| chart.edges[c].level <= e.level - 1));
    }
    // the variables are numbered in the order of derivation
    let mut names: Vec<&str> = chart.edges.iter().filter(|e| e.level > 0).map(|e| e.logvar.as_str()).collect();
    names.sort();
    assert_eq!(names, vec!["g1", "g2", "g3", "g4"]);
    // only the sentence is unused
    let unused = chart.all_edges(true);
    assert_eq!(unused.len(), 1);
    assert_eq!(chart.edge(unused[0]).label, "S");
}

#[test]
fn used_flags_stay_set() {
    let mut g = Grammar::new();
    g.add_rule(Rule::new("S", &["a"], vec![vec![vec![]]]));
    let mut chart = Chart::new();
    chart.add_edge(leaf(0, 1, "a", "x0"));
    chart.mark_used(0);
    chart.add_edge(leaf(1, 2, "b", "x1"));
    assert!(chart.is_used(0));
    assert!(!chart.is_used(1));
    assert!(g.parse(&mut chart));
    assert!(chart.is_used(0));
    chart.mark_used(0);
    assert!(chart.is_used(0));
}

#[test]
fn rule_new_reads_the_marks() {
    let r = Rule::new(
        "X",
        &["a", "b?", "c+", "d*", ""],
        vec![vec![], vec![], vec![], vec![], vec![]],
    );
    assert_eq!(r.lhs, "X");
    let got: Vec<(&str, bool, bool)> = r
        .rhs
        .iter()
        .map(|i| (i.symbol.as_str(), i.skippable, i.repeatable))
        .collect();
    assert_eq!(
        got,
        vec![
            ("a", false, false),
            ("b", true, false),
            ("c", false, true),
            ("d", true, true),
            ("", false, false),
        ]
    );
    let item = RuleItem::parse("?", vec![]);
    assert_eq!((item.symbol.as_str(), item.skippable, item.repeatable), ("", true, false));
}

fn found(chart: &Chart, rhs: &[&str]) -> Vec<(Vec<usize>, Vec<usize>)> {
    let rule = Rule::new("X", rhs, rhs.iter().map(|_| vec![]).collect());
    let paths: Vec<Path> = chart.find_paths(&rule.rhs);
    paths.into_iter().map(|p| (p.edges, p.items)).collect()
}

#[test]
fn find_paths_gives_each_match_once() {
    let mut chart = Chart::new();
    chart.add_edge(leaf(0, 1, "a", "x0"));
    chart.add_edge(leaf(1, 2, "a", "x1"));
    chart.add_edge(leaf(1, 2, "b", "x2"));
    chart.add_edge(leaf(0, 2, "a", "x3"));
    assert_eq!(
        found(&chart, &["a", "b"]),
        vec![(vec![0, 2], vec![0, 1])]
    );
    assert_eq!(
        found(&chart, &["a"]),
        vec![(vec![0], vec![0]), (vec![3], vec![0]), (vec![1], vec![0])]
    );
    assert_eq!(
        found(&chart, &["a+"]),
        vec![
            (vec![0], vec![0]),
            (vec![0, 1], vec![0, 0]),
            (vec![3], vec![0]),
            (vec![1], vec![0]),
        ]
    );
    // two items for one symbol: the same edges with other items are
    // other matches
    assert_eq!(
        found(&chart, &["b*", "b*"]),
        vec![(vec![2], vec![1]), (vec![2], vec![0])]
    );
    // nothing is found where no item can be matched, and no empty path
    assert_eq!(found(&chart, &["c"]), vec![]);
    assert_eq!(found(&chart, &["c?"]), vec![]);
    assert_eq!(found(&chart, &[]), vec![]);
}

#[test]
fn all_edges_lists_in_order() {
    let mut chart = Chart::new();
    chart.add_edge(leaf(1, 2, "b", "x0"));
    chart.add_edge(leaf(0, 1, "z", "x1"));
    chart.add_edge(leaf(0, 2, "a", "x2"));
    chart.add_edge(leaf(0, 1, "c", "x3"));
    chart.add_edge(Edge::new_with_children(0, 1, "y", "x4", vec![], 1, vec![1]));
    chart.add_edge(leaf(0, 1, "c", "x5"));
    // by start, the longer first, the higher level first, by label, and
    // what is equal in all of these in the order of addition
    assert_eq!(chart.all_edges(false), vec![2, 4, 3, 5, 1, 0]);
    chart.mark_used(3);
    chart.mark_used(0);
    assert_eq!(chart.all_edges(true), vec![2, 4, 5, 1]);
    assert_eq!(Chart::new().all_edges(false), Vec::<usize>::new());
}

#[test]
fn leaf_edge_keeps_the_rules_of_a_rejected_constraint() {
    let e = Edge::new(
        0,
        1,
        "a",
        "x0",
        vec![vec![
            Constraint::Equal(t("number", &["*"]), t("@sg", &[])),
            Constraint::Equal(t("number", &["*"]), t("@pl", &[])),
            Constraint::Equal(t("case", &["*"]), t("@nom", &[])),
        ]],
    );
    assert_eq!(e.theories.len(), 1);
    assert_eq!(e.theories[0].rules.len(), 2);
    assert!(holds(&e.theories[0], &t("number", &["x0"]), &t("@sg", &[])));
    assert!(holds(&e.theories[0], &t("case", &["x0"]), &t("@nom", &[])));
    assert_eq!(e.level, 0);
    assert!(e.children.is_empty());
}

#[test]
fn numbers_and_names() {
    assert_eq!(decimal_string(0), "0");
    assert_eq!(decimal_string(7), "7");
    assert_eq!(decimal_string(10), "10");
    assert_eq!(decimal_string(4096), "4096");
    assert_eq!(decimal_string(u32::MAX), "4294967295");
    assert_eq!(fresh_name_string(1), "g1");
    assert_eq!(fresh_name_string(120), "g120");
}

#[test]
fn strings_are_ordered_as_in_rust() {
    let words = ["", "a", "ab", "b", "@sg", "x0", "*", ".", "g1", "é", "z", "日本"];
    for a in words {
        for b in words {
            assert_eq!(str_less(a, b), a < b, "{:?} < {:?}", a, b);
        }
    }
}

#[test]
fn unique_id_counts_up() {
    let mut ctx = ParseContext { log_id: 0 };
    assert_eq!(ctx.unique_id(), 1);
    assert_eq!(ctx.unique_id(), 2);
    assert_eq!(ctx.log_id, 2);
}

#[test]
fn extend_and_cross_keep_what_is_accepted() {
    let rule = |a: Term, b: Term| RewriteRule::new(a, b);
    let mut sg = RewritingSystem::new();
    assert!(sg.add_rule(rule(t("number", &["x"]), t("@sg", &[]))));
    let mut pl = RewritingSystem::new();
    assert!(pl.add_rule(rule(t("number", &["x"]), t("@pl", &[]))));
    let same = vec![rule(t("number", &["y"]), t("number", &["x"])), rule(t("number", &["y"]), t("@sg", &[]))];
    let got = extend(&sg, &same).unwrap();
    assert_eq!(got.norm(&t("number", &["y"])), t("@sg", &[]));
    assert!(extend(&pl, &same).is_none());
    assert!(extend(&pl, &vec![]).is_some());
    let crossed = cross(&vec![sg.clone(), pl.clone()], &vec![same.clone(), vec![]]);
    // sg takes both alternatives, pl only the empty one
    assert_eq!(crossed.len(), 3);
    assert_eq!(crossed[0].norm(&t("number", &["y"])), t("@sg", &[]));
    assert_eq!(crossed[1].rules.len(), 1);
    assert_eq!(crossed[2].norm(&t("number", &["x"])), t("@pl", &[]));
    assert_eq!(cross(&vec![], &vec![vec![]]).len(), 0);
    assert_eq!(cross(&vec![sg], &vec![]).len(), 0);
}
