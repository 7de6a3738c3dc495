use vstd::prelude::*;
use crate::order::{TermView, RuleView, orient, lemma_orient_strict};
use crate::reduction::{rewrite_spec, rule_oriented, rules_oriented, rules_wf, all_heads, nf,
    first_match, irreducible, lemma_first_match, lemma_nf_step_decreases, lemma_nf_irreducible,
    lemma_all_heads_lhs, lemma_all_heads_rhs};
use crate::universe::{term_fits, rule_fits, rules_fit, rule_limit, lemma_count_rules};

verus! {

/// A constant: a term of one head that begins with `@`.
pub open spec fn is_constant(t: TermView) -> bool {
    t.len() == 1 && t[0].len() > 0 && t[0][0] == '@'
}

/// Two different constants. No theory may equate them.
pub open spec fn clash(u: TermView, v: TermView) -> bool {
    is_constant(u) && is_constant(v) && u[0] != v[0]
}

/// What the new rule `r` and the rule at position `i` ask for: where `r`
/// rewrites the left-hand side of that rule, the two results must be made
/// equal, unless their normal forms are the same already.
pub open spec fn critical_pair(rules: Seq<RuleView>, r: RuleView, i: int) -> Option<RuleView> {
    match rewrite_spec(r, rules[i].0) {
        Some(t) => {
            let a = nf(rules, t);
            let b = nf(rules, rules[i].1);
            if a == b {
                None
            } else {
                Some(orient(a, b))
            }
        },
        None => None,
    }
}

/// The critical pairs of `r` with the first `k` rules, in their order.
pub open spec fn critical_pairs(rules: Seq<RuleView>, r: RuleView, k: int) -> Seq<RuleView>
    decreases k,
{
    if k <= 0 {
        Seq::empty()
    } else {
        match critical_pair(rules, r, k - 1) {
            Some(p) => critical_pairs(rules, r, k - 1).push(p),
            None => critical_pairs(rules, r, k - 1),
        }
    }
}

/// Completion. The pairs in `work` are still to be made equal, the last
/// first. A pair whose normal forms are the same is dropped. A pair whose
/// normal forms are two different constants ends the completion: the result
/// holds the rules as they are then, and `false`. Any other pair becomes a
/// rule between its normal forms, and the critical pairs of that rule with
/// the rules before it join the work. When no work is left the result holds
/// the rules and `true`.
///
/// The new rule is never one of the rules before it: its left-hand side is
/// a normal form, theirs are not.
///
/// `alpha` holds every head of `rules` and `work`. It bounds the number of
/// rules that can ever be there, and with it the length of the completion.
pub open spec fn complete(alpha: Seq<Seq<char>>, rules: Seq<RuleView>, work: Seq<RuleView>) -> (
    Seq<RuleView>,
    bool,
)
    decreases rule_limit(alpha) - rules.len(), work.len(),
    when rules_wf(rules) && rules_fit(alpha, rules) && rules_fit(alpha, work)
{
    if work.len() == 0 {
        (rules, true)
    } else {
        let u = nf(rules, work.last().0);
        let v = nf(rules, work.last().1);
        if u == v {
            complete(alpha, rules, work.drop_last())
        } else if clash(u, v) {
            (rules, false)
        } else {
            proof {
                lemma_complete_step(alpha, rules, work);
            }
            complete(
                alpha,
                rules.push(orient(u, v)),
                work.drop_last() + critical_pairs(rules, orient(u, v), rules.len() as int),
            )
        }
    }
}

/// What adding `rule` to `rules` gives: the rules after completion, and
/// whether the rule was accepted.
pub open spec fn add_rule_spec(rules: Seq<RuleView>, rule: RuleView) -> (Seq<RuleView>, bool) {
    complete(all_heads(rules.push(rule)), rules, seq![rule])
}

/// A rewrite by an oriented rule over `alpha` of a term over `alpha` gives a
/// term over `alpha`.
pub proof fn lemma_rewrite_fits(alpha: Seq<Seq<char>>, rule: RuleView, t: TermView)
    requires
        rule_oriented(rule),
        term_fits(alpha, rule.1),
        term_fits(alpha, t),
        rewrite_spec(rule, t) is Some,
    ensures
        term_fits(alpha, rewrite_spec(rule, t).unwrap()),
{
    let u = rewrite_spec(rule, t).unwrap();
    let k = t.len() - rule.0.len();
    assert forall|i: int| 0 <= i < u.len() implies alpha.contains(#[trigger] u[i]) by {
        if i < k {
            assert(u[i] == t[i]);
        } else {
            assert(u[i] == rule.1[i - k]);
        }
    }
}

/// The normal form of a term over `alpha` under rules over `alpha` is a term
/// over `alpha`.
pub proof fn lemma_nf_fits(alpha: Seq<Seq<char>>, rules: Seq<RuleView>, t: TermView)
    requires
        rules_oriented(rules),
        rules_fit(alpha, rules),
        term_fits(alpha, t),
    ensures
        term_fits(alpha, nf(rules, t)),
    decreases t.len(), crate::order::code(all_heads(rules), t),
{
    lemma_first_match(rules, t, 0);
    match first_match(rules, t, 0) {
        Some(i) => {
            lemma_nf_step_decreases(rules, t);
            lemma_rewrite_fits(alpha, rules[i], t);
            lemma_nf_fits(alpha, rules, rewrite_spec(rules[i], t).unwrap());
        },
        None => {},
    }
}

/// The critical pairs of a rule over `alpha` with rules over `alpha` are
/// pairs over `alpha`.
pub proof fn lemma_critical_pairs_fit(
    alpha: Seq<Seq<char>>,
    rules: Seq<RuleView>,
    r: RuleView,
    k: int,
)
    requires
        rules_oriented(rules),
        rules_fit(alpha, rules),
        rule_oriented(r),
        rule_fits(alpha, r),
        0 <= k <= rules.len(),
    ensures
        rules_fit(alpha, critical_pairs(rules, r, k)),
    decreases k,
{
    if k > 0 {
        lemma_critical_pairs_fit(alpha, rules, r, k - 1);
        let i = k - 1;
        assert(rule_fits(alpha, rules[i]));
        if rewrite_spec(r, rules[i].0) is Some {
            let t = rewrite_spec(r, rules[i].0).unwrap();
            lemma_rewrite_fits(alpha, r, rules[i].0);
            lemma_nf_fits(alpha, rules, t);
            lemma_nf_fits(alpha, rules, rules[i].1);
        }
    }
}

/// A rule rewrites its own left-hand side.
pub proof fn lemma_rewrites_own_lhs(rule: RuleView)
    ensures
        rewrite_spec(rule, rule.0) is Some,
{
    assert(rule.0.skip(0) =~= rule.0);
}

/// One step of completion that adds a rule leaves a set of oriented rules
/// over `alpha` and work over `alpha`, and the set is within the bound.
pub proof fn lemma_complete_step(alpha: Seq<Seq<char>>, rules: Seq<RuleView>, work: Seq<RuleView>)
    requires
        rules_wf(rules),
        rules_fit(alpha, rules),
        rules_fit(alpha, work),
        work.len() > 0,
        nf(rules, work.last().0) != nf(rules, work.last().1),
    ensures
        ({
            let r = orient(nf(rules, work.last().0), nf(rules, work.last().1));
            let more = work.drop_last() + critical_pairs(rules, r, rules.len() as int);
            &&& rule_oriented(r)
            &&& rule_fits(alpha, r)
            &&& irreducible(rules, r.0)
            &&& irreducible(rules, r.1)
            &&& rules_wf(rules.push(r))
            &&& rules_fit(alpha, rules.push(r))
            &&& rules_fit(alpha, more)
            &&& rules.len() + 1 <= rule_limit(alpha)
        }),
{
    let u = nf(rules, work.last().0);
    let v = nf(rules, work.last().1);
    let r = orient(u, v);
    let next = rules.push(r);
    let pairs = critical_pairs(rules, r, rules.len() as int);
    let more = work.drop_last() + pairs;
    assert(rule_fits(alpha, work[work.len() - 1]));
    lemma_nf_fits(alpha, rules, work.last().0);
    lemma_nf_fits(alpha, rules, work.last().1);
    lemma_nf_irreducible(rules, work.last().0);
    lemma_nf_irreducible(rules, work.last().1);
    lemma_orient_strict(u, v);
    assert forall|i: int| 0 <= i < next.len() implies rule_oriented(#[trigger] next[i])
        && rule_fits(alpha, next[i]) by {
        if i < rules.len() {
            assert(next[i] == rules[i]);
        }
    }
    assert forall|i: int, j: int| 0 <= i < next.len() && 0 <= j < next.len() && i != j implies next[i]
        != next[j] by {
        if i < rules.len() && j < rules.len() {
            assert(rules[i] != rules[j]);
        } else if i < rules.len() {
            lemma_rewrites_own_lhs(rules[i]);
        } else {
            lemma_rewrites_own_lhs(rules[j]);
        }
    }
    lemma_critical_pairs_fit(alpha, rules, r, rules.len() as int);
    assert forall|i: int| 0 <= i < more.len() implies rule_fits(alpha, #[trigger] more[i]) by {
        if i < work.len() - 1 {
            assert(more[i] == work[i]);
        } else {
            assert(more[i] == pairs[i - (work.len() - 1)]);
        }
    }
    lemma_count_rules(alpha, next);
}

/// The heads of a list of rules with terms of at least one head are an
/// alphabet for these rules.
pub proof fn lemma_all_heads_fit(rules: Seq<RuleView>)
    requires
        forall|i: int|
            0 <= i < rules.len() ==> (#[trigger] rules[i]).0.len() >= 1 && rules[i].1.len() >= 1,
    ensures
        rules_fit(all_heads(rules), rules),
{
    assert forall|i: int| 0 <= i < rules.len() implies rule_fits(
        all_heads(rules),
        #[trigger] rules[i],
    ) by {
        lemma_all_heads_len(rules, i);
        assert forall|k: int| 0 <= k < rules[i].0.len() implies all_heads(rules).contains(
            #[trigger] rules[i].0[k],
        ) by {
            lemma_all_heads_lhs(rules, i, k);
        }
        assert forall|k: int| 0 <= k < rules[i].1.len() implies all_heads(rules).contains(
            #[trigger] rules[i].1[k],
        ) by {
            lemma_all_heads_rhs(rules, i, k);
        }
    }
}

/// The heads of a list of rules are at least as many as the heads of one rule.
pub proof fn lemma_all_heads_len(rules: Seq<RuleView>, i: int)
    requires
        0 <= i < rules.len(),
    ensures
        rules[i].0.len() + rules[i].1.len() <= all_heads(rules).len(),
    decreases rules.len(),
{
    if i < rules.len() - 1 {
        lemma_all_heads_len(rules.drop_last(), i);
    }
}

/// At the start of an addition the rules and the new rule are over the
/// alphabet of their heads.
pub proof fn lemma_start_fits(rules: Seq<RuleView>, rule: RuleView)
    requires
        rules_wf(rules),
        rule.0.len() >= 1,
        rule.1.len() >= 1,
    ensures
        rules_fit(all_heads(rules.push(rule)), rules),
        rules_fit(all_heads(rules.push(rule)), seq![rule]),
{
    let all = rules.push(rule);
    assert forall|i: int| 0 <= i < all.len() implies (#[trigger] all[i]).0.len() >= 1
        && all[i].1.len() >= 1 by {
        if i < rules.len() {
            assert(rule_oriented(rules[i]));
        }
    }
    lemma_all_heads_fit(all);
    assert forall|i: int| 0 <= i < rules.len() implies rule_fits(
        all_heads(all),
        #[trigger] rules[i],
    ) by {
        assert(all[i] == rules[i]);
    }
    assert(all[rules.len() as int] == rule);
}

} // verus!
