use vstd::prelude::*;
use vstd::string::*;
use crate::text::{fresh_name, fresh_name_string};
use crate::order::{RuleView, orient};
use crate::reduction::{rule_oriented};
use crate::completion::add_rule_spec;
use crate::rewr::{RewriteRule, RewritingSystem, rule_views, lemma_rule_views_push};
use crate::grammar::{Constraint, RuleItem, Rule, Grammar, constraint_views, alternative_views,
    subst_constraint, pair_views, lemma_subst_term_len};
use crate::confluence::consistent;
use crate::chart::{Edge, EdgeView, Chart, Path, PathView, theory_views, theories_wf,
    theories_consistent,
    lemma_theory_views_push, edge_views, lemma_edge_views_push, flags_kept, forward, all_paths,
    path_views, copy_ids};
use crate::matching::{is_match, labels_match, consecutive, all_match, lemma_all_paths_sound};

verus! {

/// The system that is left when the first `k` rules of `rules` have been
/// added to `theory` one after the other, and whether all were accepted.
/// After a rule that is rejected no other is added.
pub open spec fn extend_spec(theory: Seq<RuleView>, rules: Seq<RuleView>, k: int) -> (
    Seq<RuleView>,
    bool,
)
    decreases k,
{
    if k <= 0 {
        (theory, true)
    } else {
        let before = extend_spec(theory, rules, k - 1);
        if before.1 {
            add_rule_spec(before.0, rules[k - 1])
        } else {
            before
        }
    }
}

/// `theory` with each of the first `k` alternatives in turn: the systems
/// that hold `theory` and all rules of one alternative, for the
/// alternatives that `theory` accepts.
pub open spec fn cross_row(theory: Seq<RuleView>, alts: Seq<Seq<RuleView>>, k: int) -> Seq<
    Seq<RuleView>,
>
    decreases k,
{
    if k <= 0 {
        Seq::empty()
    } else {
        let before = cross_row(theory, alts, k - 1);
        let with = extend_spec(theory, alts[k - 1], alts[k - 1].len() as int);
        if with.1 {
            before.push(with.0)
        } else {
            before
        }
    }
}

/// Each of the first `k` theories with each alternative it accepts.
pub open spec fn cross_spec(theories: Seq<Seq<RuleView>>, alts: Seq<Seq<RuleView>>, k: int) -> Seq<
    Seq<RuleView>,
>
    decreases k,
{
    if k <= 0 {
        Seq::empty()
    } else {
        cross_spec(theories, alts, k - 1) + cross_row(theories[k - 1], alts, alts.len() as int)
    }
}

/// Once a rule has been rejected, the extension stays rejected.
pub proof fn lemma_extend_rejected(theory: Seq<RuleView>, rules: Seq<RuleView>, k: int, n: int)
    requires
        0 <= k <= n,
        !extend_spec(theory, rules, k).1,
    ensures
        !extend_spec(theory, rules, n).1,
    decreases n - k,
{
    if k < n {
        lemma_extend_rejected(theory, rules, k + 1, n);
    }
}

/// The views of a list of alternatives, each a list of rules.
pub open spec fn alt_views(v: Seq<Vec<RewriteRule>>) -> Seq<Seq<RuleView>> {
    v.map_values(|a: Vec<RewriteRule>| rule_views(a@))
}

/// The views of a list with one more alternative.
pub proof fn lemma_alt_views_push(v: Seq<Vec<RewriteRule>>, a: Vec<RewriteRule>)
    ensures
        alt_views(v.push(a)) == alt_views(v).push(rule_views(a@)),
{
    assert(alt_views(v.push(a)) =~= alt_views(v).push(rule_views(a@)));
}

/// Every rule of every alternative has a term on both sides.
pub open spec fn alts_wf(v: Seq<Vec<RewriteRule>>) -> bool {
    forall|i: int, j: int| 0 <= i < v.len() && 0 <= j < v[i]@.len() ==> (#[trigger] v[i]@[j]).wf()
}

/// `theory` with all rules of `alt`, if it accepts them all.
pub fn extend(theory: &RewritingSystem, alt: &Vec<RewriteRule>) -> (r: Option<RewritingSystem>)
    requires
        theory.wf(),
        forall|j: int| 0 <= j < alt@.len() ==> (#[trigger] alt@[j]).wf(),
    ensures
        match r {
            Some(t) => t.wf() && extend_spec(theory@, rule_views(alt@), alt@.len() as int) == (
                t@,
                true,
            ),
            None => !extend_spec(theory@, rule_views(alt@), alt@.len() as int).1,
        },
        theory.consistent() && r is Some ==> r->0.consistent(),
{
    let mut rs: RewritingSystem = theory.clone();
    let mut k: usize = 0;
    while k < alt.len()
        invariant
            k <= alt.len(),
            rs.wf(),
            theory.consistent() ==> rs.consistent(),
            forall|j: int| 0 <= j < alt@.len() ==> (#[trigger] alt@[j]).wf(),
            extend_spec(theory@, rule_views(alt@), k as int) == (rs@, true),
        decreases alt.len() - k,
    {
        proof {
            assert(alt@[k as int].wf());
            assert(rule_views(alt@)[k as int] == alt@[k as int]@);
        }
        let accepted: bool = rs.add_rule(alt[k].clone());
        if !accepted {
            proof {
                lemma_extend_rejected(theory@, rule_views(alt@), k + 1, alt@.len() as int);
            }
            return None;
        }
        k += 1;
    }
    Some(rs)
}

/// Each theory with each alternative it accepts.
pub fn cross(theories: &Vec<RewritingSystem>, alts: &Vec<Vec<RewriteRule>>) -> (r: Vec<
    RewritingSystem,
>)
    requires
        theories_wf(theories@),
        alts_wf(alts@),
    ensures
        theories_wf(r@),
        theory_views(r@) == cross_spec(
            theory_views(theories@),
            alt_views(alts@),
            theories@.len() as int,
        ),
        theories_consistent(theory_views(theories@)) ==> theories_consistent(theory_views(r@)),
{
    let ghost sound = theories_consistent(theory_views(theories@));
    let ghost tv = theory_views(theories@);
    let ghost av = alt_views(alts@);
    let mut out: Vec<RewritingSystem> = Vec::new();
    let mut i: usize = 0;
    proof {
        assert(theory_views(out@) =~= cross_spec(tv, av, 0));
    }
    while i < theories.len()
        invariant
            i <= theories.len(),
            theories_wf(theories@),
            alts_wf(alts@),
            tv == theory_views(theories@),
            av == alt_views(alts@),
            theories_wf(out@),
            sound == theories_consistent(tv),
            sound ==> theories_consistent(theory_views(out@)),
            theory_views(out@) == cross_spec(tv, av, i as int),
        decreases theories.len() - i,
    {
        let ghost done = theory_views(out@);
        let mut j: usize = 0;
        proof {
            assert(done + cross_row(tv[i as int], av, 0) =~= done);
        }
        while j < alts.len()
            invariant
                i < theories.len(),
                j <= alts.len(),
                theories_wf(theories@),
                alts_wf(alts@),
                tv == theory_views(theories@),
                av == alt_views(alts@),
                theories_wf(out@),
                sound == theories_consistent(tv),
                sound ==> theories_consistent(theory_views(out@)),
                theory_views(out@) == done + cross_row(tv[i as int], av, j as int),
            decreases alts.len() - j,
        {
            proof {
                assert(theories@[i as int].wf());
                assert forall|x: int| 0 <= x < alts@[j as int]@.len() implies (
                #[trigger] alts@[j as int]@[x]).wf() by {}
                if sound {
                    assert(consistent(tv[i as int]));
                }
            }
            match extend(&theories[i], &alts[j]) {
                Some(t) => {
                    proof {
                        lemma_theory_views_push(out@, t);
                        if sound {
                            let now = theory_views(out@).push(t@);
                            assert forall|x: int| 0 <= x < now.len() implies consistent(
                                #[trigger] now[x],
                            ) by {
                                if x < out@.len() {
                                    assert(now[x] == theory_views(out@)[x]);
                                }
                            }
                        }
                        assert((done + cross_row(tv[i as int], av, j as int)).push(t@) =~= done
                            + cross_row(tv[i as int], av, j + 1));
                    }
                    out.push(t);
                },
                None => {},
            }
            j += 1;
        }
        i += 1;
    }
    out
}

/// The rules of each theory.
pub fn theory_rules(theories: &Vec<RewritingSystem>) -> (r: Vec<Vec<RewriteRule>>)
    requires
        theories_wf(theories@),
    ensures
        alt_views(r@) == theory_views(theories@),
        alts_wf(r@),
{
    let mut out: Vec<Vec<RewriteRule>> = Vec::new();
    let mut i: usize = 0;
    proof {
        assert(alt_views(out@) =~= theory_views(theories@).take(0));
    }
    while i < theories.len()
        invariant
            i <= theories.len(),
            theories_wf(theories@),
            alts_wf(out@),
            alt_views(out@) == theory_views(theories@).take(i as int),
        decreases theories.len() - i,
    {
        let copy: RewritingSystem = theories[i].clone();
        let ghost prev = out@;
        proof {
            lemma_alt_views_push(prev, copy.rules);
            assert(theory_views(theories@).take(i + 1) =~= theory_views(theories@).take(
                i as int,
            ).push(copy@));
            assert(theories@[i as int].wf());
            assert forall|j: int| 0 <= j < copy.rules@.len() implies (
            #[trigger] copy.rules@[j]).wf() by {
                assert(rule_oriented(copy@[j]));
            }
        }
        out.push(copy.rules);
        i += 1;
    }
    proof {
        assert(theory_views(theories@).take(theories@.len() as int) =~= theory_views(theories@));
    }
    out
}

/// The substitution for the constraints of an item: the marker `*` stands
/// for the variable of the new edge, the marker `.` for the variable of the
/// daughter.
pub open spec fn parent_subst(name: Seq<char>, logvar: Seq<char>) -> Seq<(Seq<char>, Seq<char>)> {
    seq![(seq!['*'], name), (seq!['.'], logvar)]
}

/// The rule of each constraint of each alternative under a substitution.
pub open spec fn item_rules(alts: Seq<Seq<RuleView>>, pairs: Seq<(Seq<char>, Seq<char>)>) -> Seq<
    Seq<RuleView>,
> {
    alts.map_values(
        |cs: Seq<RuleView>|
            cs.map_values(
                |c: RuleView|
                    orient(subst_constraint(pairs, c).0, subst_constraint(pairs, c).1),
            ),
    )
}

/// The rules of the alternatives of an item for a new edge with the
/// variable `name` over a daughter with the variable `logvar`.
pub fn item_alternatives(item: &RuleItem, name: &str, logvar: &str) -> (r: Vec<Vec<RewriteRule>>)
    requires
        item.wf(),
    ensures
        alts_wf(r@),
        alt_views(r@) == item_rules(
            alternative_views(item.constraints@),
            parent_subst(name@, logvar@),
        ),
{
    let ghost pairs = parent_subst(name@, logvar@);
    let ghost target = item_rules(alternative_views(item.constraints@), pairs);
    let mut out: Vec<Vec<RewriteRule>> = Vec::new();
    let mut i: usize = 0;
    proof {
        assert(alt_views(out@) =~= target.take(0));
    }
    while i < item.constraints.len()
        invariant
            i <= item.constraints.len(),
            item.wf(),
            pairs == parent_subst(name@, logvar@),
            target == item_rules(alternative_views(item.constraints@), pairs),
            alts_wf(out@),
            alt_views(out@) == target.take(i as int),
        decreases item.constraints.len() - i,
    {
        let ghost cs = constraint_views(item.constraints@[i as int]@);
        let mut rules: Vec<RewriteRule> = Vec::new();
        let mut j: usize = 0;
        proof {
            assert(target[i as int].len() == cs.len());
            assert(rule_views(rules@) =~= target[i as int].take(0));
        }
        while j < item.constraints[i].len()
            invariant
                i < item.constraints.len(),
                j <= item.constraints[i as int].len(),
                item.wf(),
                pairs == parent_subst(name@, logvar@),
                target == item_rules(alternative_views(item.constraints@), pairs),
                cs == constraint_views(item.constraints@[i as int]@),
                forall|x: int| 0 <= x < rules@.len() ==> (#[trigger] rules@[x]).wf(),
                rule_views(rules@) == target[i as int].take(j as int),
            decreases item.constraints[i as int].len() - j,
        {
            let mut substs: Vec<(String, String)> = Vec::new();
            substs.push(("*".to_owned(), name.to_owned()));
            substs.push((".".to_owned(), logvar.to_owned()));
            proof {
                reveal_strlit("*");
                reveal_strlit(".");
                assert("*"@ =~= seq!['*']);
                assert("."@ =~= seq!['.']);
                assert(pair_views(substs@) =~= pairs);
                assert(item.constraints@[i as int]@[j as int].wf());
                assert(cs[j as int] == item.constraints@[i as int]@[j as int]@);
                lemma_subst_term_len(pairs, cs[j as int].0);
                lemma_subst_term_len(pairs, cs[j as int].1);
            }
            let c: Constraint = item.constraints[i][j].clone_with_subst(substs);
            let rule: RewriteRule = c.rule();
            let ghost prev = rules@;
            proof {
                lemma_rule_views_push(prev, rule);
                assert(target[i as int].take(j + 1) =~= target[i as int].take(j as int).push(
                    rule@,
                ));
            }
            rules.push(rule);
            j += 1;
        }
        let ghost prev = out@;
        proof {
            assert(target[i as int].take(cs.len() as int) =~= target[i as int]);
            lemma_alt_views_push(prev, rules);
            assert(target.take(i + 1) =~= target.take(i as int).push(target[i as int]));
        }
        out.push(rules);
        i += 1;
    }
    proof {
        assert(target.take(item.constraints@.len() as int) =~= target);
    }
    out
}

/// The theories of a new edge over the first `k` edges of a path. There is
/// one empty theory to begin with. For each edge of the path in turn, every
/// theory so far is taken with every theory of the edge that it accepts,
/// and then with every alternative of the item of that edge that it
/// accepts. In the constraints of the item the marker `*` stands for
/// `name`, the variable of the new edge, and the marker `.` for the
/// variable of the daughter.
pub open spec fn combine_spec(
    edges: Seq<EdgeView>,
    pattern: Seq<RuleItem>,
    path: PathView,
    name: Seq<char>,
    k: int,
) -> Seq<Seq<RuleView>>
    decreases k,
{
    if k <= 0 {
        seq![Seq::empty()]
    } else {
        let before = combine_spec(edges, pattern, path, name, k - 1);
        let edge = edges[path.0[k - 1] as int];
        let item = pattern[path.1[k - 1] as int];
        let merged = cross_spec(before, edge.theories, before.len() as int);
        cross_spec(
            merged,
            item_rules(alternative_views(item.constraints@), parent_subst(name, edge.logvar)),
            merged.len() as int,
        )
    }
}

/// Every item of the pattern has constraints with terms on both sides.
pub open spec fn pattern_wf(pattern: Seq<RuleItem>) -> bool {
    forall|i: int| 0 <= i < pattern.len() ==> (#[trigger] pattern[i]).wf()
}

/// The theories of a new edge with the variable `name` over a path.
pub fn combine(chart: &Chart, pattern: &Vec<RuleItem>, path: &Path, name: &str) -> (r: Vec<
    RewritingSystem,
>)
    requires
        chart.wf(),
        pattern_wf(pattern@),
        labels_match(chart@, pattern@, path@),
    ensures
        theories_wf(r@),
        theories_consistent(theory_views(r@)),
        theory_views(r@) == combine_spec(chart@, pattern@, path@, name@, path@.0.len() as int),
{
    let mut theories: Vec<RewritingSystem> = Vec::new();
    theories.push(RewritingSystem::new());
    proof {
        assert(theory_views(theories@) =~= seq![Seq::<RuleView>::empty()]);
        assert(theories_consistent(theory_views(theories@)));
    }
    let mut k: usize = 0;
    while k < path.edges.len()
        invariant
            k <= path.edges.len(),
            chart.wf(),
            pattern_wf(pattern@),
            labels_match(chart@, pattern@, path@),
            theories_wf(theories@),
            theories_consistent(theory_views(theories@)),
            theory_views(theories@) == combine_spec(chart@, pattern@, path@, name@, k as int),
        decreases path.edges.len() - k,
    {
        proof {
            assert(path@.0[k as int] < chart@.len());
            assert(path@.1[k as int] < pattern@.len());
        }
        let id: usize = path.edges[k];
        let edge: &Edge = &chart.edges[id];
        let item: &RuleItem = &pattern[path.items[k]];
        proof {
            assert(chart.edges@[id as int].placed(id as int));
            assert(chart@[id as int] == chart.edges@[id as int]@);
            assert(pattern@[path@.1[k as int] as int].wf());
        }
        let daughters: Vec<Vec<RewriteRule>> = theory_rules(&edge.theories);
        let merged: Vec<RewritingSystem> = cross(&theories, &daughters);
        let alts: Vec<Vec<RewriteRule>> = item_alternatives(item, name, edge.logvar.as_str());
        theories = cross(&merged, &alts);
        k += 1;
    }
    theories
}

/// The highest level among the first `k` edges with the numbers `ids`, and
/// 0 where there is none.
pub open spec fn max_level(edges: Seq<EdgeView>, ids: Seq<usize>, k: int) -> int
    decreases k,
{
    if k <= 0 {
        0
    } else {
        let m = max_level(edges, ids, k - 1);
        if edges[ids[k - 1] as int].level > m {
            edges[ids[k - 1] as int].level
        } else {
            m
        }
    }
}

/// The flags with those of the first `k` edges with the numbers `ids` set.
pub open spec fn mark_all(used: Seq<bool>, ids: Seq<usize>, k: int) -> Seq<bool>
    decreases k,
{
    if k <= 0 {
        used
    } else {
        mark_all(used, ids, k - 1).update(ids[k - 1] as int, true)
    }
}

/// The edge that a rule for `lhs` derives over a path at `level`: it spans
/// the path, is one level up, and has the edges of the path as daughters.
pub open spec fn derived_edge(
    edges: Seq<EdgeView>,
    lhs: Seq<char>,
    path: PathView,
    name: Seq<char>,
    theories: Seq<Seq<RuleView>>,
    level: int,
) -> EdgeView {
    EdgeView {
        start: edges[path.0[0] as int].start,
        end: edges[path.0[path.0.len() - 1] as int].end,
        label: lhs,
        logvar: name,
        theories: theories,
        level: level + 1,
        children: path.0,
    }
}

/// Where a level of the parse stands: the flags of the edges, the number
/// of the last variable that was named, the new edges so far, and whether
/// numbers for variables were left whenever one was needed.
pub struct LevelState {
    pub used: Seq<bool>,
    pub counter: int,
    pub batch: Seq<EdgeView>,
    pub ok: bool,
}

/// The state with the given parts.
pub open spec fn level_state(used: Seq<bool>, counter: int, batch: Seq<EdgeView>, ok: bool) -> LevelState {
    LevelState { used: used, counter: counter, batch: batch, ok: ok }
}

/// One path of one rule at one level. A path whose highest edge is not at
/// this level is passed over: it was met at the level of that edge. Any
/// other path takes the next number for its variable. If its theories
/// leave at least one, its edges are flagged as used and the derived edge
/// joins the new edges.
pub open spec fn step_path(
    edges: Seq<EdgeView>,
    rule: Rule,
    level: int,
    st: LevelState,
    path: PathView,
) -> LevelState {
    if !st.ok || max_level(edges, path.0, path.0.len() as int) != level {
        st
    } else if st.counter >= 0x7fff_ffff {
        level_state(st.used, st.counter, st.batch, false)
    } else {
        let name = fresh_name(st.counter + 1);
        let theories = combine_spec(edges, rule.rhs@, path, name, path.0.len() as int);
        if theories.len() == 0 {
            level_state(st.used, st.counter + 1, st.batch, true)
        } else {
            level_state(
                mark_all(st.used, path.0, path.0.len() as int),
                st.counter + 1,
                st.batch.push(derived_edge(edges, rule.lhs@, path, name, theories, level)),
                true,
            )
        }
    }
}

/// The first `k` paths of one rule at one level, in their order.
pub open spec fn step_paths(
    edges: Seq<EdgeView>,
    rule: Rule,
    level: int,
    st: LevelState,
    paths: Seq<PathView>,
    k: int,
) -> LevelState
    decreases k,
{
    if k <= 0 {
        st
    } else {
        step_path(edges, rule, level, step_paths(edges, rule, level, st, paths, k - 1), paths[k - 1])
    }
}

/// The first `k` rules at one level, in their order, each with all paths
/// that match its right-hand side.
pub open spec fn step_rules(
    edges: Seq<EdgeView>,
    rules: Seq<Rule>,
    level: int,
    st: LevelState,
    k: int,
) -> LevelState
    decreases k,
{
    if k <= 0 {
        st
    } else {
        let before = step_rules(edges, rules, level, st, k - 1);
        let paths = all_paths(edges, rules[k - 1].rhs@);
        step_paths(edges, rules[k - 1], level, before, paths, paths.len() as int)
    }
}

/// The parse from `level` on. At each level every rule is tried on every
/// path whose highest edge is at that level. The new edges join the chart
/// when the level is done, unflagged, and the next level follows. The
/// parse is complete when a level gives no new edge. It is given up, with
/// `false`, when no number is left for a variable or for a level.
pub open spec fn saturate(
    edges: Seq<EdgeView>,
    used: Seq<bool>,
    rules: Seq<Rule>,
    level: int,
    counter: int,
) -> (Seq<EdgeView>, Seq<bool>, bool)
    decreases 0x7fff_ffff - level,
{
    if level >= 0x7fff_ffff {
        (edges, used, false)
    } else {
        let st = step_rules(
            edges,
            rules,
            level,
            level_state(used, counter, Seq::empty(), true),
            rules.len() as int,
        );
        let grown = edges + st.batch;
        let flags = st.used + Seq::new(st.batch.len(), |i: int| false);
        if !st.ok {
            (grown, flags, false)
        } else if st.batch.len() == 0 {
            (edges, st.used, true)
        } else {
            saturate(grown, flags, rules, level + 1, st.counter)
        }
    }
}

/// What the level gate asks of an edge: if it is above level 0, one of its
/// daughters is one level below it and none is higher than that.
pub open spec fn gated_edge(edges: Seq<EdgeView>, e: EdgeView) -> bool {
    e.level > 0 ==> {
        &&& forall|k: int|
            0 <= k < e.children.len() ==> (#[trigger] e.children[k]) < edges.len()
                && edges[e.children[k] as int].level <= e.level - 1
        &&& exists|k: int|
            0 <= k < e.children.len() && (#[trigger] e.children[k]) < edges.len()
                && edges[e.children[k] as int].level == e.level - 1
    }
}

/// Every edge of the chart passes the level gate.
pub open spec fn gated(edges: Seq<EdgeView>) -> bool {
    forall|i: int| 0 <= i < edges.len() ==> gated_edge(edges, #[trigger] edges[i])
}

/// An edge has at least one theory, and each of its theories is
/// consistent.
pub open spec fn has_theories(e: EdgeView) -> bool {
    e.theories.len() > 0 && theories_consistent(e.theories)
}

/// No level is negative.
pub open spec fn levels_ok(edges: Seq<EdgeView>) -> bool {
    forall|i: int| 0 <= i < edges.len() ==> (#[trigger] edges[i]).level >= 0
}

/// The highest level of a path is the level of one of its edges, and no
/// edge of the path is higher.
pub proof fn lemma_max_level(edges: Seq<EdgeView>, ids: Seq<usize>, k: int)
    requires
        levels_ok(edges),
        0 < k <= ids.len(),
        forall|i: int| 0 <= i < ids.len() ==> (#[trigger] ids[i]) < edges.len(),
    ensures
        forall|i: int|
            0 <= i < k ==> edges[(#[trigger] ids[i]) as int].level <= max_level(edges, ids, k),
        exists|i: int|
            0 <= i < k && edges[(#[trigger] ids[i]) as int].level == max_level(edges, ids, k),
    decreases k,
{
    if k == 1 {
        assert(max_level(edges, ids, 0) == 0);
        assert(ids[0] < edges.len());
        assert(edges[ids[0] as int].level >= 0);
        assert(edges[ids[0] as int].level == max_level(edges, ids, 1));
    } else {
        lemma_max_level(edges, ids, k - 1);
        let w = choose|i: int|
            0 <= i < k - 1 && edges[(#[trigger] ids[i]) as int].level == max_level(
                edges,
                ids,
                k - 1,
            );
        if edges[ids[k - 1] as int].level > max_level(edges, ids, k - 1) {
            assert(edges[ids[k - 1] as int].level == max_level(edges, ids, k));
        } else {
            assert(edges[ids[w] as int].level == max_level(edges, ids, k));
        }
    }
}

/// A path of edges that each end behind their start ends behind its start.
pub proof fn lemma_span(edges: Seq<EdgeView>, pattern: Seq<RuleItem>, p: PathView, k: int)
    requires
        forward(edges),
        labels_match(edges, pattern, p),
        consecutive(edges, p),
        0 <= k < p.0.len(),
    ensures
        edges[p.0[0] as int].start < edges[p.0[k] as int].end,
    decreases k,
{
    assert(p.0[k] < edges.len());
    if k > 0 {
        lemma_span(edges, pattern, p, k - 1);
        assert(edges[p.0[k - 1] as int].end == edges[p.0[k] as int].start);
    } else {
        assert(p.0[0] < edges.len());
    }
}

/// Flags that are kept twice are kept.
pub proof fn lemma_flags_kept(a: Seq<bool>, b: Seq<bool>, c: Seq<bool>)
    requires
        flags_kept(a, b),
        flags_kept(b, c),
    ensures
        flags_kept(a, c),
{
    assert forall|i: int| 0 <= i < a.len() && a[i] implies c[i] by {
        assert(b[i]);
    }
}

/// After a path that found no number left, nothing changes any more.
pub proof fn lemma_paths_frozen(
    edges: Seq<EdgeView>,
    rule: Rule,
    level: int,
    st: LevelState,
    paths: Seq<PathView>,
    k: int,
)
    requires
        !st.ok,
    ensures
        step_paths(edges, rule, level, st, paths, k) == st,
    decreases k,
{
    if k > 0 {
        lemma_paths_frozen(edges, rule, level, st, paths, k - 1);
    }
}

/// After a rule that found no number left, nothing changes any more.
pub proof fn lemma_rules_frozen(
    edges: Seq<EdgeView>,
    rules: Seq<Rule>,
    level: int,
    st: LevelState,
    k: int,
    n: int,
)
    requires
        0 <= k <= n,
        !step_rules(edges, rules, level, st, k).ok,
    ensures
        step_rules(edges, rules, level, st, n) == step_rules(edges, rules, level, st, k),
    decreases n - k,
{
    if k < n {
        lemma_rules_frozen(edges, rules, level, st, k, n - 1);
        let paths = all_paths(edges, rules[n - 1].rhs@);
        lemma_paths_frozen(
            edges,
            rules[n - 1],
            level,
            step_rules(edges, rules, level, st, k),
            paths,
            paths.len() as int,
        );
    }
}

/// The views of two lists of edges, one behind the other.
pub proof fn lemma_edge_views_concat(a: Seq<Edge>, b: Seq<Edge>)
    ensures
        edge_views(a + b) == edge_views(a) + edge_views(b),
{
    assert(edge_views(a + b) =~= edge_views(a) + edge_views(b));
}

/// An edge that passes the level gate passes it in a longer chart.
pub proof fn lemma_gated_more(edges: Seq<EdgeView>, more: Seq<EdgeView>, e: EdgeView)
    requires
        gated_edge(edges, e),
    ensures
        gated_edge(edges + more, e),
{
    if e.level > 0 {
        let all = edges + more;
        let w = choose|k: int|
            0 <= k < e.children.len() && (#[trigger] e.children[k]) < edges.len()
                && edges[e.children[k] as int].level == e.level - 1;
        assert(all[e.children[w] as int] == edges[e.children[w] as int]);
        assert forall|k: int| 0 <= k < e.children.len() implies (#[trigger] e.children[k])
            < all.len() && all[e.children[k] as int].level <= e.level - 1 by {
            assert(all[e.children[k] as int] == edges[e.children[k] as int]);
        }
    }
}

/// The highest level among the edges of a path.
fn max_level_of(chart: &Chart, ids: &Vec<usize>) -> (m: i32)
    requires
        forall|k: int| 0 <= k < ids@.len() ==> (#[trigger] ids@[k]) < chart@.len(),
    ensures
        m == max_level(chart@, ids@, ids@.len() as int),
{
    let mut m: i32 = 0;
    let mut k: usize = 0;
    while k < ids.len()
        invariant
            k <= ids.len(),
            forall|x: int| 0 <= x < ids@.len() ==> (#[trigger] ids@[x]) < chart@.len(),
            m == max_level(chart@, ids@, k as int),
        decreases ids.len() - k,
    {
        proof {
            assert(ids@[k as int] < chart@.len());
            assert(chart@[ids@[k as int] as int] == chart.edges@[ids@[k as int] as int]@);
        }
        if chart.edges[ids[k]].level > m {
            m = chart.edges[ids[k]].level;
        }
        k += 1;
    }
    m
}

/// The state of a parse: the number of the last variable that was named.
pub struct ParseContext {
    pub log_id: i32,
}

impl ParseContext {
    /// The next number for a variable.
    pub fn unique_id(&mut self) -> (id: i32)
        requires
            old(self).log_id < 0x7fff_ffff,
        ensures
            id == old(self).log_id + 1,
            final(self).log_id == id,
    {
        self.log_id = self.log_id + 1;
        self.log_id
    }
}

/// One path of one rule at one level: see `step_path`.
fn apply_path(
    chart: &mut Chart,
    rule: &Rule,
    level: i32,
    path: &Path,
    ctx: &mut ParseContext,
    batch: &mut Vec<Edge>,
    ok: &mut bool,
)
    requires
        old(chart).wf(),
        rule.wf(),
        is_match(old(chart)@, rule.rhs@, path@),
        0 <= level < 0x7fff_ffff,
        0 <= old(ctx).log_id,
        forall|i: int|
            0 <= i < old(batch)@.len() ==> (#[trigger] old(batch)@[i]).placed(
                old(chart)@.len() as int,
            ),
        forall|i: int|
            0 <= i < old(batch)@.len() ==> gated_edge(old(chart)@, (#[trigger] old(batch)@[i])@),
        forall|i: int| 0 <= i < old(batch)@.len() ==> has_theories((#[trigger] old(batch)@[i])@),
    ensures
        final(chart).wf(),
        final(chart).edges == old(chart).edges,
        flags_kept(old(chart).used@, final(chart).used@),
        0 <= final(ctx).log_id,
        forall|i: int|
            0 <= i < final(batch)@.len() ==> (#[trigger] final(batch)@[i]).placed(
                old(chart)@.len() as int,
            ),
        forall|i: int|
            0 <= i < final(batch)@.len() ==> gated_edge(
                old(chart)@,
                (#[trigger] final(batch)@[i])@,
            ),
        forall|i: int|
            0 <= i < final(batch)@.len() ==> has_theories((#[trigger] final(batch)@[i])@),
        level_state(
            final(chart).used@,
            final(ctx).log_id as int,
            edge_views(final(batch)@),
            *final(ok),
        ) == step_path(
            old(chart)@,
            *rule,
            level as int,
            level_state(
                old(chart).used@,
                old(ctx).log_id as int,
                edge_views(old(batch)@),
                *old(ok),
            ),
            path@,
        ),
{
    let ghost edges = chart@;
    let ghost used0 = chart.used@;
    let ghost batch0 = batch@;
    proof {
        assert forall|k: int| 0 <= k < path.edges@.len() implies (#[trigger] path.edges@[k])
            < chart@.len() by {
            assert(path@.0[k] < chart@.len());
        }
    }
    if !*ok {
        return ;
    }
    let m: i32 = max_level_of(chart, &path.edges);
    if m != level {
        return ;
    }
    if ctx.log_id == 0x7fff_ffff {
        *ok = false;
        return ;
    }
    let number: i32 = ctx.unique_id();
    let name: String = fresh_name_string(number as u32);
    proof {
        assert(pattern_wf(rule.rhs@)) by {
            assert forall|i: int| 0 <= i < rule.rhs@.len() implies (#[trigger] rule.rhs@[i]).wf() by {}
        }
    }
    let theories: Vec<RewritingSystem> = combine(chart, &rule.rhs, path, name.as_str());
    if theories.len() == 0 {
        return ;
    }
    let mut k: usize = 0;
    while k < path.edges.len()
        invariant
            k <= path.edges.len(),
            chart.wf(),
            chart.edges == old(chart).edges,
            chart@ == edges,
            forall|x: int| 0 <= x < path.edges@.len() ==> (#[trigger] path.edges@[x]) < edges.len(),
            chart.used@ == mark_all(used0, path@.0, k as int),
            flags_kept(used0, chart.used@),
        decreases path.edges.len() - k,
    {
        let ghost before = chart.used@;
        proof {
            assert(path.edges@[k as int] < edges.len());
        }
        chart.mark_used(path.edges[k]);
        proof {
            lemma_flags_kept(used0, before, chart.used@);
        }
        k += 1;
    }
    let n: usize = path.edges.len();
    let first: usize = path.edges[0];
    let last: usize = path.edges[n - 1];
    proof {
        assert(path.edges@[0] < edges.len());
        assert(path.edges@[n - 1] < edges.len());
        assert(chart@[first as int] == chart.edges@[first as int]@);
        assert(chart@[last as int] == chart.edges@[last as int]@);
    }
    let edge: Edge = Edge::new_with_children(
        chart.edges[first].start,
        chart.edges[last].end,
        rule.lhs.as_str(),
        name.as_str(),
        theories,
        level + 1,
        copy_ids(&path.edges),
    );
    proof {
        let made = derived_edge(edges, rule.lhs@, path@, name@, theory_views(theories@), level as int);
        assert(edge@ == made);
        chart.lemma_forward();
        lemma_span(edges, rule.rhs@, path@, n - 1);
        assert(edge.placed(edges.len() as int));
        assert(levels_ok(edges)) by {
            assert forall|i: int| 0 <= i < edges.len() implies (#[trigger] edges[i]).level
                >= 0 by {
                assert(chart.edges@[i].placed(i));
                assert(chart@[i] == chart.edges@[i]@);
            }
        }
        lemma_max_level(edges, path@.0, n as int);
        let ids = path@.0;
        let w = choose|i: int|
            0 <= i < n && edges[(#[trigger] ids[i]) as int].level == max_level(
                edges,
                ids,
                n as int,
            );
        assert(edge@.children == ids);
        assert(edge@.children[w] < edges.len() && edges[edge@.children[w] as int].level
            == edge@.level - 1);
        assert forall|k: int| 0 <= k < edge@.children.len() implies (
        #[trigger] edge@.children[k]) < edges.len() && edges[edge@.children[k] as int].level
            <= edge@.level - 1 by {
            assert(ids[k] < edges.len());
        }
        assert(gated_edge(edges, edge@));
        assert(has_theories(edge@));
        lemma_edge_views_push(batch0, edge);
    }
    batch.push(edge);
}

/// The edges of `before` are the first edges of `after`.
pub open spec fn edges_kept(before: Seq<Edge>, after: Seq<Edge>) -> bool {
    before.len() <= after.len() && forall|i: int| 0 <= i < before.len() ==> after[i] == before[i]
}

/// The edges from number `from` on have theories and pass the level gate.
pub open spec fn derived_from(edges: Seq<EdgeView>, from: int) -> bool {
    forall|i: int|
        from <= i < edges.len() ==> has_theories(#[trigger] edges[i]) && gated_edge(
            edges,
            edges[i],
        )
}

/// The views of edges that are kept begin the views of the longer list.
pub proof fn lemma_edges_kept_views(before: Seq<Edge>, after: Seq<Edge>)
    requires
        edges_kept(before, after),
    ensures
        edge_views(after) == edge_views(before) + edge_views(after).skip(before.len() as int),
{
    assert(edge_views(after) =~= edge_views(before) + edge_views(after).skip(
        before.len() as int,
    ));
}

impl Grammar {
    /// Extends the chart by the edges that the rules of the grammar derive,
    /// level by level, until a level gives no new edge. Returns whether the
    /// parse is complete: it is not where the numbers for variables or for
    /// levels ran out, and then the chart holds what was derived until
    /// then. The edges that were there stay as they are, flags that were
    /// set stay set, and every new edge has at least one theory, all of
    /// them consistent, and passes the level gate.
    pub fn parse(&self, chart: &mut Chart) -> (done: bool)
        requires
            self.wf(),
            old(chart).wf(),
        ensures
            final(chart).wf(),
            (final(chart)@, final(chart).used@, done) == saturate(
                old(chart)@,
                old(chart).used@,
                self.rules@,
                0,
                0,
            ),
            edges_kept(old(chart).edges@, final(chart).edges@),
            flags_kept(old(chart).used@, final(chart).used@),
            gated(old(chart)@) ==> gated(final(chart)@),
            derived_from(final(chart)@, old(chart)@.len() as int),
    {
        let mut ctx = ParseContext { log_id: 0 };
        self.parse_level(chart, 0, &mut ctx)
    }

    /// The parse from `level` on: see `saturate`.
    fn parse_level(&self, chart: &mut Chart, level: i32, ctx: &mut ParseContext) -> (done: bool)
        requires
            self.wf(),
            old(chart).wf(),
            0 <= level,
            0 <= old(ctx).log_id,
        ensures
            final(chart).wf(),
            (final(chart)@, final(chart).used@, done) == saturate(
                old(chart)@,
                old(chart).used@,
                self.rules@,
                level as int,
                old(ctx).log_id as int,
            ),
            edges_kept(old(chart).edges@, final(chart).edges@),
            flags_kept(old(chart).used@, final(chart).used@),
            gated(old(chart)@) ==> gated(final(chart)@),
            derived_from(final(chart)@, old(chart)@.len() as int),
        decreases 0x7fff_ffff - level,
    {
        if level == 0x7fff_ffff {
            return false;
        }
        let ghost edges = chart@;
        let ghost edges0 = chart.edges@;
        let ghost used0 = chart.used@;
        let ghost start = level_state(chart.used@, ctx.log_id as int, Seq::empty(), true);
        let ghost rules = self.rules@;
        let mut batch: Vec<Edge> = Vec::new();
        let mut ok: bool = true;
        let mut r: usize = 0;
        proof {
            assert(edge_views(batch@) =~= Seq::<EdgeView>::empty());
        }
        while r < self.rules.len() && ok
            invariant
                r <= self.rules.len(),
                self.wf(),
                rules == self.rules@,
                chart.wf(),
                chart@ == edges,
                chart.edges@ == edges0,
                flags_kept(used0, chart.used@),
                0 <= level < 0x7fff_ffff,
                0 <= ctx.log_id,
                forall|i: int|
                    0 <= i < batch@.len() ==> (#[trigger] batch@[i]).placed(edges.len() as int),
                forall|i: int|
                    0 <= i < batch@.len() ==> gated_edge(edges, (#[trigger] batch@[i])@),
                forall|i: int| 0 <= i < batch@.len() ==> has_theories((#[trigger] batch@[i])@),
                level_state(chart.used@, ctx.log_id as int, edge_views(batch@), ok) == step_rules(
                    edges,
                    rules,
                    level as int,
                    start,
                    r as int,
                ),
            decreases self.rules.len() - r,
        {
            let rule: &Rule = &self.rules[r];
            let paths: Vec<Path> = chart.find_paths(&rule.rhs);
            let ghost before = level_state(
                chart.used@,
                ctx.log_id as int,
                edge_views(batch@),
                ok,
            );
            let ghost pv = path_views(paths@);
            proof {
                chart.lemma_forward();
                assert(rule.rhs.len() <= usize::MAX);
                assert(chart.edges.len() <= usize::MAX);
                lemma_all_paths_sound(edges, rule.rhs@);
                assert(rule.wf());
            }
            let mut j: usize = 0;
            while j < paths.len()
                invariant
                    j <= paths.len(),
                    rule.wf(),
                    chart.wf(),
                    chart@ == edges,
                    chart.edges@ == edges0,
                    pv == path_views(paths@),
                    pv == all_paths(edges, rule.rhs@),
                    all_match(edges, rule.rhs@, pv),
                    flags_kept(used0, chart.used@),
                    0 <= level < 0x7fff_ffff,
                    0 <= ctx.log_id,
                    forall|i: int|
                        0 <= i < batch@.len() ==> (#[trigger] batch@[i]).placed(
                            edges.len() as int,
                        ),
                    forall|i: int|
                        0 <= i < batch@.len() ==> gated_edge(edges, (#[trigger] batch@[i])@),
                    forall|i: int| 0 <= i < batch@.len() ==> has_theories((#[trigger] batch@[i])@),
                    level_state(chart.used@, ctx.log_id as int, edge_views(batch@), ok)
                        == step_paths(edges, *rule, level as int, before, pv, j as int),
                decreases paths.len() - j,
            {
                let ghost flags = chart.used@;
                proof {
                    assert(pv[j as int] == paths@[j as int]@);
                    assert(is_match(edges, rule.rhs@, pv[j as int]));
                }
                apply_path(chart, rule, level, &paths[j], ctx, &mut batch, &mut ok);
                proof {
                    lemma_flags_kept(used0, flags, chart.used@);
                }
                j += 1;
            }
            r += 1;
        }
        proof {
            if r < self.rules.len() {
                lemma_rules_frozen(edges, rules, level as int, start, r as int, rules.len() as int);
            }
        }
        let ghost made = batch@;
        let ghost flags = chart.used@;
        let n: usize = batch.len();
        if ok && n == 0 {
            proof {
                assert(gated(edges) ==> gated(chart@));
            }
            return true;
        }
        chart.edges.append(&mut batch);
        let mut i: usize = 0;
        proof {
            assert(flags + Seq::new(0, |x: int| false) =~= flags);
        }
        while i < n
            invariant
                i <= n,
                chart.edges@ == edges0 + made,
                chart.used@ == flags + Seq::new(i as nat, |x: int| false),
            decreases n - i,
        {
            chart.used.push(false);
            proof {
                assert(chart.used@ =~= flags + Seq::new((i + 1) as nat, |x: int| false));
            }
            i += 1;
        }
        let ghost grown = chart@;
        let ghost grown_edges = chart.edges@;
        let ghost grown_used = chart.used@;
        proof {
            lemma_edge_views_concat(edges0, made);
            assert(grown == edges + edge_views(made));
            assert forall|x: int| 0 <= x < chart.edges@.len() implies (
            #[trigger] chart.edges@[x]).placed(x) by {
                if x >= edges0.len() {
                    assert(chart.edges@[x] == made[x - edges0.len()]);
                    assert(made[x - edges0.len()].placed(edges.len() as int));
                } else {
                    assert(chart.edges@[x] == edges0[x]);
                }
            }
            assert(flags_kept(flags, grown_used));
            lemma_flags_kept(used0, flags, grown_used);
            assert forall|x: int| 0 <= x < grown.len() && (x >= edges.len() || gated(
                edges,
            )) implies gated_edge(grown, #[trigger] grown[x]) by {
                if x >= edges.len() {
                    assert(grown[x] == made[x - edges.len()]@);
                    lemma_gated_more(edges, edge_views(made), made[x - edges.len()]@);
                } else {
                    assert(grown[x] == edges[x]);
                    lemma_gated_more(edges, edge_views(made), edges[x]);
                }
            }
            assert forall|x: int| edges.len() <= x < grown.len() implies has_theories(
                #[trigger] grown[x],
            ) by {
                assert(grown[x] == made[x - edges.len()]@);
            }
        }
        if !ok {
            return false;
        }
        let done: bool = self.parse_level(chart, level + 1, ctx);
        proof {
            lemma_flags_kept(used0, grown_used, chart.used@);
            lemma_edges_kept_views(grown_edges, chart.edges@);
            let rest = chart@.skip(grown.len() as int);
            assert(chart@ == grown + rest);
            assert forall|x: int| edges.len() <= x < chart@.len() implies has_theories(
                #[trigger] chart@[x],
            ) && gated_edge(chart@, chart@[x]) by {
                if x < grown.len() {
                    assert(chart@[x] == grown[x]);
                    lemma_gated_more(grown, rest, grown[x]);
                }
            }
        }
        done
    }
}

} // verus!
