use vstd::prelude::*;
use crate::order::{TermView, RuleView, orient};
use crate::reduction::{rewrite_spec, rules_oriented, rules_wf, all_heads, nf};
use crate::universe::{rules_fit, rule_fits, rule_limit};
use crate::completion::{clash, critical_pair, critical_pairs, complete, add_rule_spec,
    lemma_complete_step, lemma_start_fits, lemma_rewrites_own_lhs};
use crate::confluence::{apply_seq, reaches, consistent, lemma_reaches_refl,
    lemma_reaches_trans, lemma_reaches_step, lemma_apply_context, lemma_nf_reaches,
    lemma_step_keeps_nf, lemma_add_rule_consistent};

verus! {

/// A rule turned round.
pub open spec fn flip(r: RuleView) -> RuleView {
    (r.1, r.0)
}

/// The equations as rules in both directions.
pub open spec fn both_ways(eqs: Seq<RuleView>) -> Seq<RuleView> {
    eqs + eqs.map_values(|r: RuleView| flip(r))
}

/// `a` and `b` are equal in the theory of the equations `eqs`: one becomes
/// the other when subterms are replaced by equal subterms, in any
/// direction.
pub open spec fn equal_in(eqs: Seq<RuleView>, a: TermView, b: TermView) -> bool {
    reaches(both_ways(eqs), a, b)
}

/// Every pair of the list is equal in the theory of `eqs`.
pub open spec fn all_equal_in(eqs: Seq<RuleView>, pairs: Seq<RuleView>) -> bool {
    forall|i: int| 0 <= i < pairs.len() ==> equal_in(eqs, (#[trigger] pairs[i]).0, pairs[i].1)
}

/// The theory of the equations makes two different constants equal.
pub open spec fn contradictory(eqs: Seq<RuleView>) -> bool {
    exists|u: TermView, v: TermView| clash(u, v) && #[trigger] equal_in(eqs, u, v)
}

/// A rewrite can be undone by the rule turned round.
pub proof fn lemma_rewrite_back(rule: RuleView, t: TermView)
    requires
        rewrite_spec(rule, t) is Some,
    ensures
        rewrite_spec(flip(rule), rewrite_spec(rule, t)->0) == Some(t),
{
    let k = t.len() - rule.0.len();
    let u = rewrite_spec(rule, t)->0;
    assert(u.skip(k) =~= rule.1);
    assert(u.take(k) + rule.0 =~= t.take(k) + t.skip(k));
    assert(t.take(k) + t.skip(k) =~= t);
}

/// What is equal is equal the other way round.
pub proof fn lemma_equal_sym(eqs: Seq<RuleView>, a: TermView, b: TermView)
    requires
        equal_in(eqs, a, b),
    ensures
        equal_in(eqs, b, a),
{
    let d = choose|d: Seq<int>| apply_seq(both_ways(eqs), a, d) == Some(b);
    lemma_apply_back(eqs, a, d);
}

/// Replacing equal by equal can be undone.
pub proof fn lemma_apply_back(eqs: Seq<RuleView>, a: TermView, d: Seq<int>)
    requires
        apply_seq(both_ways(eqs), a, d) is Some,
    ensures
        reaches(both_ways(eqs), apply_seq(both_ways(eqs), a, d)->0, a),
    decreases d.len(),
{
    let all = both_ways(eqs);
    let n = eqs.len() as int;
    if d.len() == 0 {
        lemma_reaches_refl(all, a);
    } else {
        let i = d[0];
        let a1 = rewrite_spec(all[i], a)->0;
        let b = apply_seq(all, a, d)->0;
        lemma_apply_back(eqs, a1, d.drop_first());
        let j = if i < n {
            i + n
        } else {
            i - n
        };
        assert(all[j] == flip(all[i]));
        lemma_rewrite_back(all[i], a);
        lemma_reaches_step(all, a1, j);
        lemma_reaches_trans(all, b, a1, a);
    }
}

/// What is equal to a term that is equal to a third is equal to the third.
pub proof fn lemma_equal_trans(eqs: Seq<RuleView>, a: TermView, b: TermView, c: TermView)
    requires
        equal_in(eqs, a, b),
        equal_in(eqs, b, c),
    ensures
        equal_in(eqs, a, c),
{
    lemma_reaches_trans(both_ways(eqs), a, b, c);
}

/// What is equal is equal below more heads.
pub proof fn lemma_equal_context(eqs: Seq<RuleView>, p: TermView, a: TermView, b: TermView)
    requires
        equal_in(eqs, a, b),
    ensures
        equal_in(eqs, p + a, p + b),
{
    let d = choose|d: Seq<int>| apply_seq(both_ways(eqs), a, d) == Some(b);
    lemma_apply_context(both_ways(eqs), p, a, d);
}

/// The two sides of an equation are equal in the theory.
pub proof fn lemma_equal_equation(eqs: Seq<RuleView>, i: int)
    requires
        0 <= i < eqs.len(),
    ensures
        equal_in(eqs, eqs[i].0, eqs[i].1),
{
    let all = both_ways(eqs);
    assert(all[i] == eqs[i]);
    lemma_rewrites_own_lhs(eqs[i]);
    assert(eqs[i].0.take(0) + eqs[i].1 =~= eqs[i].1);
    lemma_reaches_step(all, eqs[i].0, i);
}

/// A rewrite by a rule whose sides are equal in the theory gives an equal
/// term.
pub proof fn lemma_step_equal(eqs: Seq<RuleView>, rule: RuleView, t: TermView)
    requires
        equal_in(eqs, rule.0, rule.1),
        rewrite_spec(rule, t) is Some,
    ensures
        equal_in(eqs, t, rewrite_spec(rule, t)->0),
{
    let k = t.len() - rule.0.len();
    let p = t.take(k);
    assert(t =~= p + t.skip(k));
    lemma_equal_context(eqs, p, rule.0, rule.1);
}

/// Rewriting by rules whose sides are equal in the theory gives an equal
/// term.
pub proof fn lemma_apply_equal(eqs: Seq<RuleView>, rules: Seq<RuleView>, a: TermView, d: Seq<int>)
    requires
        all_equal_in(eqs, rules),
        apply_seq(rules, a, d) is Some,
    ensures
        equal_in(eqs, a, apply_seq(rules, a, d)->0),
    decreases d.len(),
{
    if d.len() == 0 {
        lemma_reaches_refl(both_ways(eqs), a);
    } else {
        let a1 = rewrite_spec(rules[d[0]], a)->0;
        lemma_step_equal(eqs, rules[d[0]], a);
        lemma_apply_equal(eqs, rules, a1, d.drop_first());
        lemma_equal_trans(eqs, a, a1, apply_seq(rules, a, d)->0);
    }
}

/// A term is equal to its normal form under rules whose sides are equal
/// in the theory.
pub proof fn lemma_nf_equal(eqs: Seq<RuleView>, rules: Seq<RuleView>, t: TermView)
    requires
        rules_oriented(rules),
        all_equal_in(eqs, rules),
    ensures
        equal_in(eqs, t, nf(rules, t)),
        equal_in(eqs, nf(rules, t), t),
{
    lemma_nf_reaches(rules, t);
    let d = choose|d: Seq<int>| apply_seq(rules, t, d) == Some(nf(rules, t));
    lemma_apply_equal(eqs, rules, t, d);
    lemma_equal_sym(eqs, t, nf(rules, t));
}

/// The normal forms of two equal terms are equal, and so are the sides of
/// the rule between them.
pub proof fn lemma_orient_equal(eqs: Seq<RuleView>, rules: Seq<RuleView>, a: TermView, b: TermView)
    requires
        rules_oriented(rules),
        all_equal_in(eqs, rules),
        equal_in(eqs, a, b),
    ensures
        equal_in(eqs, nf(rules, a), nf(rules, b)),
        equal_in(eqs, orient(nf(rules, a), nf(rules, b)).0, orient(nf(rules, a), nf(rules, b)).1),
{
    let u = nf(rules, a);
    let v = nf(rules, b);
    lemma_nf_equal(eqs, rules, a);
    lemma_nf_equal(eqs, rules, b);
    lemma_equal_trans(eqs, u, a, b);
    lemma_equal_trans(eqs, u, b, v);
    lemma_equal_sym(eqs, u, v);
}

/// The critical pairs of a rule whose sides are equal in the theory, with
/// rules whose sides are equal in the theory, are pairs of equal terms.
pub proof fn lemma_critical_pairs_equal(
    eqs: Seq<RuleView>,
    rules: Seq<RuleView>,
    r: RuleView,
    k: int,
)
    requires
        rules_oriented(rules),
        all_equal_in(eqs, rules),
        equal_in(eqs, r.0, r.1),
        0 <= k <= rules.len(),
    ensures
        all_equal_in(eqs, critical_pairs(rules, r, k)),
    decreases k,
{
    if k > 0 {
        lemma_critical_pairs_equal(eqs, rules, r, k - 1);
        let i = k - 1;
        let before = critical_pairs(rules, r, k - 1);
        let now = critical_pairs(rules, r, k);
        if critical_pair(rules, r, i) is Some {
            let t = rewrite_spec(r, rules[i].0)->0;
            lemma_step_equal(eqs, r, rules[i].0);
            lemma_equal_sym(eqs, rules[i].0, t);
            assert(equal_in(eqs, rules[i].0, rules[i].1));
            lemma_equal_trans(eqs, t, rules[i].0, rules[i].1);
            lemma_orient_equal(eqs, rules, t, rules[i].1);
        }
        assert forall|x: int| 0 <= x < now.len() implies equal_in(
            eqs,
            (#[trigger] now[x]).0,
            now[x].1,
        ) by {
            if x < before.len() {
                assert(now[x] == before[x]);
            }
        }
    }
}

/// Completion stays within the theory. If the sides of the rules and of
/// the pairs of the work are equal in the theory of `eqs`, so are the sides
/// of the rules that the completion gives. If the completion ends badly,
/// the theory makes two different constants equal.
pub proof fn lemma_complete_sound(
    eqs: Seq<RuleView>,
    alpha: Seq<Seq<char>>,
    rules: Seq<RuleView>,
    work: Seq<RuleView>,
)
    requires
        rules_wf(rules),
        rules_fit(alpha, rules),
        rules_fit(alpha, work),
        all_equal_in(eqs, rules),
        all_equal_in(eqs, work),
    ensures
        all_equal_in(eqs, complete(alpha, rules, work).0),
        !complete(alpha, rules, work).1 ==> contradictory(eqs),
    decreases rule_limit(alpha) - rules.len(), work.len(),
{
    if work.len() > 0 {
        let w = work.last();
        let u = nf(rules, w.0);
        let v = nf(rules, w.1);
        let rest = work.drop_last();
        assert(equal_in(eqs, work[work.len() - 1].0, work[work.len() - 1].1));
        lemma_orient_equal(eqs, rules, w.0, w.1);
        assert forall|k: int| 0 <= k < rest.len() implies equal_in(
            eqs,
            (#[trigger] rest[k]).0,
            rest[k].1,
        ) by {
            assert(rest[k] == work[k]);
        }
        assert forall|k: int| 0 <= k < rest.len() implies rule_fits(alpha, #[trigger] rest[k]) by {
            assert(rest[k] == work[k]);
        }
        if u == v {
            lemma_complete_sound(eqs, alpha, rules, rest);
        } else if clash(u, v) {
            assert(equal_in(eqs, u, v));
        } else {
            let r = orient(u, v);
            let next = rules.push(r);
            let pairs = critical_pairs(rules, r, rules.len() as int);
            let more = rest + pairs;
            lemma_complete_step(alpha, rules, work);
            lemma_critical_pairs_equal(eqs, rules, r, rules.len() as int);
            assert forall|i: int| 0 <= i < next.len() implies equal_in(
                eqs,
                (#[trigger] next[i]).0,
                next[i].1,
            ) by {
                if i < rules.len() {
                    assert(next[i] == rules[i]);
                }
            }
            assert forall|k: int| 0 <= k < more.len() implies equal_in(
                eqs,
                (#[trigger] more[k]).0,
                more[k].1,
            ) by {
                if k < rest.len() {
                    assert(more[k] == rest[k]);
                } else {
                    assert(more[k] == pairs[k - rest.len()]);
                }
            }
            lemma_complete_sound(eqs, alpha, next, more);
        }
    }
}

/// Adding a rule stays within the theory of the rules and the new rule:
/// the two sides of every rule of the result are equal in that theory. If
/// the rule is rejected, that theory makes two different constants equal.
pub proof fn lemma_add_rule_sound(rules: Seq<RuleView>, rule: RuleView)
    requires
        rules_wf(rules),
        rule.0.len() >= 1,
        rule.1.len() >= 1,
    ensures
        all_equal_in(rules.push(rule), add_rule_spec(rules, rule).0),
        !add_rule_spec(rules, rule).1 ==> contradictory(rules.push(rule)),
{
    let eqs = rules.push(rule);
    let work = seq![rule];
    lemma_start_fits(rules, rule);
    assert forall|i: int| 0 <= i < rules.len() implies equal_in(
        eqs,
        (#[trigger] rules[i]).0,
        rules[i].1,
    ) by {
        assert(eqs[i] == rules[i]);
        lemma_equal_equation(eqs, i);
    }
    assert forall|i: int| 0 <= i < work.len() implies equal_in(
        eqs,
        (#[trigger] work[i]).0,
        work[i].1,
    ) by {
        assert(eqs[rules.len() as int] == rule);
        lemma_equal_equation(eqs, rules.len() as int);
    }
    lemma_complete_sound(eqs, all_heads(eqs), rules, work);
}

/// In a consistent system, replacing equal by equal in any direction does
/// not change the normal form.
pub proof fn lemma_equal_keeps_nf(rules: Seq<RuleView>, a: TermView, d: Seq<int>)
    requires
        rules_oriented(rules),
        consistent(rules),
        apply_seq(both_ways(rules), a, d) is Some,
    ensures
        nf(rules, apply_seq(both_ways(rules), a, d)->0) == nf(rules, a),
    decreases d.len(),
{
    let all = both_ways(rules);
    let n = rules.len() as int;
    if d.len() > 0 {
        let i = d[0];
        let a1 = rewrite_spec(all[i], a)->0;
        lemma_equal_keeps_nf(rules, a1, d.drop_first());
        if i < n {
            assert(all[i] == rules[i]);
            lemma_step_keeps_nf(rules, a, i);
        } else {
            assert(all[i] == flip(rules[i - n]));
            lemma_rewrite_back(all[i], a);
            assert(flip(all[i]) == rules[i - n]);
            lemma_step_keeps_nf(rules, a1, i - n);
        }
    }
}

/// Normal forms decide equality. In a consistent system two terms are
/// equal in the theory of the rules if and only if they have the same
/// normal form.
pub proof fn lemma_nf_decides(rules: Seq<RuleView>, a: TermView, b: TermView)
    requires
        rules_oriented(rules),
        consistent(rules),
    ensures
        equal_in(rules, a, b) <==> nf(rules, a) == nf(rules, b),
{
    if equal_in(rules, a, b) {
        let d = choose|d: Seq<int>| apply_seq(both_ways(rules), a, d) == Some(b);
        lemma_equal_keeps_nf(rules, a, d);
    }
    if nf(rules, a) == nf(rules, b) {
        assert forall|i: int| 0 <= i < rules.len() implies equal_in(
            rules,
            (#[trigger] rules[i]).0,
            rules[i].1,
        ) by {
            lemma_equal_equation(rules, i);
        }
        lemma_nf_equal(rules, rules, a);
        lemma_nf_equal(rules, rules, b);
        lemma_equal_trans(rules, a, nf(rules, a), b);
    }
}

/// What is equal in the theory of equations that all hold in a second
/// theory is equal in the second theory.
pub proof fn lemma_theory_included(
    eqs: Seq<RuleView>,
    wider: Seq<RuleView>,
    a: TermView,
    b: TermView,
)
    requires
        all_equal_in(wider, eqs),
        equal_in(eqs, a, b),
    ensures
        equal_in(wider, a, b),
{
    let all = both_ways(eqs);
    let n = eqs.len() as int;
    assert forall|i: int| 0 <= i < all.len() implies equal_in(
        wider,
        (#[trigger] all[i]).0,
        all[i].1,
    ) by {
        if i < n {
            assert(all[i] == eqs[i]);
        } else {
            assert(all[i] == flip(eqs[i - n]));
            lemma_equal_sym(wider, eqs[i - n].0, eqs[i - n].1);
        }
    }
    let d = choose|d: Seq<int>| apply_seq(all, a, d) == Some(b);
    lemma_apply_equal(wider, all, a, d);
}

/// What the system knows after a rule was accepted. A consistent system
/// that accepts a rule decides the theory of its rules and the new rule:
/// two terms have the same normal form afterwards if and only if they are
/// equal in that theory.
pub proof fn lemma_add_rule_theory(rules: Seq<RuleView>, rule: RuleView, a: TermView, b: TermView)
    requires
        rules_wf(rules),
        consistent(rules),
        rule.0.len() >= 1,
        rule.1.len() >= 1,
        add_rule_spec(rules, rule).1,
    ensures
        nf(add_rule_spec(rules, rule).0, a) == nf(add_rule_spec(rules, rule).0, b) <==> equal_in(
            rules.push(rule),
            a,
            b,
        ),
{
    let out = add_rule_spec(rules, rule).0;
    let eqs = rules.push(rule);
    lemma_add_rule_consistent(rules, rule);
    lemma_add_rule_sound(rules, rule);
    lemma_nf_decides(out, a, b);
    lemma_nf_decides(out, rule.0, rule.1);
    if equal_in(out, a, b) {
        lemma_theory_included(out, eqs, a, b);
    }
    if equal_in(eqs, a, b) {
        assert forall|i: int| 0 <= i < eqs.len() implies equal_in(
            out,
            (#[trigger] eqs[i]).0,
            eqs[i].1,
        ) by {
            if i < rules.len() {
                assert(eqs[i] == rules[i]);
                assert(out[i] == rules[i]);
                lemma_equal_equation(out, i);
            }
        }
        lemma_theory_included(eqs, out, a, b);
    }
}

} // verus!
