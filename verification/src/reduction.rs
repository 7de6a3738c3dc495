use vstd::prelude::*;
use crate::order::{TermView, RuleView, term_lt, code, lemma_code_lex, lemma_heads_lt_prefix};

verus! {

/// Whether `l` is the innermost part of `t`: the subterm of `t` that has as
/// many heads as `l` is `l`.
pub open spec fn is_suffix(l: TermView, t: TermView) -> bool {
    l.len() <= t.len() && t.skip(t.len() - l.len()) == l
}

/// One rewrite of `t` by `rule`: where the left-hand side is a subterm of
/// `t`, that subterm is replaced by the right-hand side and the heads around
/// it stay. A term has one subterm of each size, so there is at most one
/// place.
pub open spec fn rewrite_spec(rule: RuleView, t: TermView) -> Option<TermView> {
    if is_suffix(rule.0, t) {
        Some(t.take(t.len() - rule.0.len()) + rule.1)
    } else {
        None
    }
}

/// A rule whose right-hand side is a term smaller than its left-hand side.
pub open spec fn rule_oriented(r: RuleView) -> bool {
    r.1.len() >= 1 && term_lt(r.1, r.0)
}

/// Every rule is oriented.
pub open spec fn rules_oriented(rules: Seq<RuleView>) -> bool {
    forall|i: int| 0 <= i < rules.len() ==> rule_oriented(#[trigger] rules[i])
}

/// A set of oriented rules, held as a list without repetition.
pub open spec fn rules_wf(rules: Seq<RuleView>) -> bool {
    rules_oriented(rules) && rules.no_duplicates()
}

/// All heads that occur in the rules, with repetition.
pub open spec fn all_heads(rules: Seq<RuleView>) -> Seq<Seq<char>>
    decreases rules.len(),
{
    if rules.len() == 0 {
        Seq::empty()
    } else {
        all_heads(rules.drop_last()) + rules.last().0 + rules.last().1
    }
}

/// Every head of a left-hand side is among the heads of the rules.
pub proof fn lemma_all_heads_lhs(rules: Seq<RuleView>, i: int, k: int)
    requires
        0 <= i < rules.len(),
        0 <= k < rules[i].0.len(),
    ensures
        all_heads(rules).contains(rules[i].0[k]),
    decreases rules.len(),
{
    let init = rules.drop_last();
    let a = all_heads(init);
    if i == rules.len() - 1 {
        assert(all_heads(rules)[a.len() + k] == rules[i].0[k]);
    } else {
        lemma_all_heads_lhs(init, i, k);
        let j = choose|j: int| 0 <= j < a.len() && a[j] == init[i].0[k];
        assert(all_heads(rules)[j] == a[j]);
    }
}

/// Every head of a right-hand side is among the heads of the rules.
pub proof fn lemma_all_heads_rhs(rules: Seq<RuleView>, i: int, k: int)
    requires
        0 <= i < rules.len(),
        0 <= k < rules[i].1.len(),
    ensures
        all_heads(rules).contains(rules[i].1[k]),
    decreases rules.len(),
{
    let init = rules.drop_last();
    let a = all_heads(init);
    if i == rules.len() - 1 {
        assert(all_heads(rules)[a.len() + rules[i].0.len() + k] == rules[i].1[k]);
    } else {
        lemma_all_heads_rhs(init, i, k);
        let j = choose|j: int| 0 <= j < a.len() && a[j] == init[i].1[k];
        assert(all_heads(rules)[j] == a[j]);
    }
}

/// A rewrite by an oriented rule gives a term that is no longer and, where
/// it is as long, has a smaller code over any alphabet that holds the heads
/// of the right-hand side.
pub proof fn lemma_rewrite_decreases(alpha: Seq<Seq<char>>, rule: RuleView, t: TermView)
    requires
        rule_oriented(rule),
        forall|k: int| 0 <= k < rule.1.len() ==> alpha.contains(#[trigger] rule.1[k]),
        rewrite_spec(rule, t) is Some,
    ensures
        ({
            let u = rewrite_spec(rule, t).unwrap();
            1 <= u.len() <= t.len() && (u.len() < t.len() || code(alpha, u) < code(alpha, t))
        }),
{
    let l = rule.0;
    let r = rule.1;
    let p = t.take(t.len() - l.len());
    assert(t =~= p + t.skip(t.len() - l.len()));
    if r.len() == l.len() {
        lemma_code_lex(alpha, p, r, l);
    }
}

/// A rewrite by an oriented rule gives a term that is smaller in the
/// reduction order.
pub proof fn lemma_rewrite_smaller(rule: RuleView, t: TermView)
    requires
        rule_oriented(rule),
        rewrite_spec(rule, t) is Some,
    ensures
        term_lt(rewrite_spec(rule, t).unwrap(), t),
{
    let p = t.take(t.len() - rule.0.len());
    assert(t =~= p + rule.0);
    lemma_heads_lt_prefix(p, rule.1, rule.0);
}

/// The first rule at or after position `from` that rewrites `t`.
pub open spec fn first_match(rules: Seq<RuleView>, t: TermView, from: int) -> Option<int>
    decreases rules.len() - from,
{
    if from < 0 || from >= rules.len() {
        None
    } else if rewrite_spec(rules[from], t) is Some {
        Some(from)
    } else {
        first_match(rules, t, from + 1)
    }
}

/// No rule rewrites `t`.
pub open spec fn irreducible(rules: Seq<RuleView>, t: TermView) -> bool {
    forall|i: int| 0 <= i < rules.len() ==> rewrite_spec(#[trigger] rules[i], t) is None
}

/// The first match is a rule that rewrites the term, and no rule between
/// `from` and it does; where there is no match, no rule from `from` on does.
pub proof fn lemma_first_match(rules: Seq<RuleView>, t: TermView, from: int)
    requires
        0 <= from,
    ensures
        match first_match(rules, t, from) {
            Some(i) => from <= i < rules.len() && rewrite_spec(rules[i], t) is Some
                && forall|j: int| from <= j < i ==> rewrite_spec(#[trigger] rules[j], t) is None,
            None => forall|j: int|
                from <= j < rules.len() ==> rewrite_spec(#[trigger] rules[j], t) is None,
        },
    decreases rules.len() - from,
{
    if from < rules.len() && rewrite_spec(rules[from], t) is None {
        lemma_first_match(rules, t, from + 1);
    }
}

/// Rules that do not rewrite `t` can be passed over in the search.
pub proof fn lemma_first_match_skip(rules: Seq<RuleView>, t: TermView, from: int, to: int)
    requires
        0 <= from <= to <= rules.len(),
        forall|j: int| from <= j < to ==> rewrite_spec(#[trigger] rules[j], t) is None,
    ensures
        first_match(rules, t, from) == first_match(rules, t, to),
    decreases to - from,
{
    if from < to {
        lemma_first_match_skip(rules, t, from + 1, to);
    }
}

/// The normal form of `t`: the term that is left when the first rule that
/// applies has been applied again and again until none applies.
pub open spec fn nf(rules: Seq<RuleView>, t: TermView) -> TermView
    decreases t.len(), code(all_heads(rules), t),
    when rules_oriented(rules)
{
    match first_match(rules, t, 0) {
        Some(i) => {
            proof {
                lemma_nf_step_decreases(rules, t);
            }
            nf(rules, rewrite_spec(rules[i], t).unwrap())
        },
        None => t,
    }
}

/// What is left of `t` when the first rule that applies has been applied
/// again and again, `fuel` times at most. The rules need not be oriented.
pub open spec fn nf_bounded(rules: Seq<RuleView>, t: TermView, fuel: nat) -> TermView
    decreases fuel,
{
    if fuel == 0 {
        t
    } else {
        match first_match(rules, t, 0) {
            Some(i) => nf_bounded(rules, rewrite_spec(rules[i], t).unwrap(), (fuel - 1) as nat),
            None => t,
        }
    }
}

/// The rewrite that `nf` makes first gives a smaller term.
pub proof fn lemma_nf_step_decreases(rules: Seq<RuleView>, t: TermView)
    requires
        rules_oriented(rules),
        first_match(rules, t, 0) is Some,
    ensures
        ({
            let i = first_match(rules, t, 0).unwrap();
            let u = rewrite_spec(rules[i], t).unwrap();
            &&& 0 <= i < rules.len()
            &&& rewrite_spec(rules[i], t) is Some
            &&& 1 <= u.len() <= t.len()
            &&& u.len() < t.len() || code(all_heads(rules), u) < code(all_heads(rules), t)
        }),
{
    lemma_first_match(rules, t, 0);
    let i = first_match(rules, t, 0).unwrap();
    assert forall|k: int| 0 <= k < rules[i].1.len() implies all_heads(rules).contains(
        #[trigger] rules[i].1[k],
    ) by {
        lemma_all_heads_rhs(rules, i, k);
    }
    lemma_rewrite_decreases(all_heads(rules), rules[i], t);
}

/// A term that no rule rewrites is its own normal form.
pub proof fn lemma_nf_of_irreducible(rules: Seq<RuleView>, t: TermView)
    requires
        rules_oriented(rules),
        irreducible(rules, t),
    ensures
        nf(rules, t) == t,
{
    lemma_first_match(rules, t, 0);
}

/// No rule rewrites a normal form, and a normal form is no longer than the
/// term it came from.
pub proof fn lemma_nf_irreducible(rules: Seq<RuleView>, t: TermView)
    requires
        rules_oriented(rules),
    ensures
        irreducible(rules, nf(rules, t)),
        nf(rules, t).len() <= t.len(),
        t.len() >= 1 ==> nf(rules, t).len() >= 1,
    decreases t.len(), code(all_heads(rules), t),
{
    lemma_first_match(rules, t, 0);
    match first_match(rules, t, 0) {
        Some(i) => {
            lemma_nf_step_decreases(rules, t);
            lemma_nf_irreducible(rules, rewrite_spec(rules[i], t).unwrap());
        },
        None => {},
    }
}

/// Normalising twice gives what normalising once gives.
pub proof fn lemma_nf_idempotent(rules: Seq<RuleView>, t: TermView)
    requires
        rules_oriented(rules),
    ensures
        nf(rules, nf(rules, t)) == nf(rules, t),
{
    lemma_nf_irreducible(rules, t);
    lemma_nf_of_irreducible(rules, nf(rules, t));
}

} // verus!
