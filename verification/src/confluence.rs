use vstd::prelude::*;
use crate::order::{TermView, RuleView, orient, code, lemma_orient_strict};
use crate::reduction::{rewrite_spec, rules_oriented, rules_wf, all_heads, nf,
    first_match, irreducible, lemma_first_match, lemma_nf_step_decreases, lemma_nf_irreducible,
    lemma_nf_of_irreducible, lemma_all_heads_rhs, lemma_rewrite_decreases};
use crate::universe::{rules_fit, rule_limit};
use crate::completion::{clash, is_constant, critical_pair, critical_pairs, complete, add_rule_spec,
    lemma_complete_step, lemma_start_fits, lemma_rewrites_own_lhs};

verus! {

/// The term that is left when the rules at the positions `d` have been
/// applied to `t` one after the other, if each of them applies.
pub open spec fn apply_seq(rules: Seq<RuleView>, t: TermView, d: Seq<int>) -> Option<TermView>
    decreases d.len(),
{
    if d.len() == 0 {
        Some(t)
    } else if 0 <= d[0] < rules.len() && rewrite_spec(rules[d[0]], t) is Some {
        apply_seq(rules, rewrite_spec(rules[d[0]], t)->0, d.drop_first())
    } else {
        None
    }
}

/// `a` can be rewritten to `b` in some number of steps, in some order.
pub open spec fn reaches(rules: Seq<RuleView>, a: TermView, b: TermView) -> bool {
    exists|d: Seq<int>| apply_seq(rules, a, d) == Some(b)
}

/// `a` and `b` can be rewritten to one term.
pub open spec fn joinable(rules: Seq<RuleView>, a: TermView, b: TermView) -> bool {
    exists|c: TermView| reaches(rules, a, c) && reaches(rules, b, c)
}

/// The rule at `j` rewrites the left-hand side of the rule at `i`: there
/// are then two ways to rewrite that left-hand side.
pub open spec fn overlaps(rules: Seq<RuleView>, i: int, j: int) -> bool {
    0 <= i < rules.len() && 0 <= j < rules.len() && rewrite_spec(rules[j], rules[i].0) is Some
}

/// Wherever two rules rewrite one left-hand side, the two results can be
/// rewritten to one term. Of such a system every term has one normal form,
/// whatever the order in which rules are tried.
pub open spec fn consistent(rules: Seq<RuleView>) -> bool {
    forall|i: int, j: int| #[trigger]
        overlaps(rules, i, j) ==> joinable(
            rules,
            rules[i].1,
            rewrite_spec(rules[j], rules[i].0)->0,
        )
}

/// `more` holds the rules of `rules` at their positions, and perhaps more
/// behind them.
pub open spec fn extends(rules: Seq<RuleView>, more: Seq<RuleView>) -> bool {
    rules.len() <= more.len() && forall|i: int| 0 <= i < rules.len() ==> more[i] == rules[i]
}

/// A term can be rewritten to itself, in no steps.
pub proof fn lemma_reaches_refl(rules: Seq<RuleView>, a: TermView)
    ensures
        reaches(rules, a, a),
        joinable(rules, a, a),
{
    assert(apply_seq(rules, a, Seq::<int>::empty()) == Some(a));
    assert(reaches(rules, a, a));
}

/// Applying two lists of rules one after the other is applying the two in a row.
pub proof fn lemma_apply_concat(rules: Seq<RuleView>, a: TermView, d1: Seq<int>, d2: Seq<int>)
    requires
        apply_seq(rules, a, d1) is Some,
    ensures
        apply_seq(rules, a, d1 + d2) == apply_seq(rules, apply_seq(rules, a, d1)->0, d2),
    decreases d1.len(),
{
    if d1.len() == 0 {
        assert(d1 + d2 =~= d2);
    } else {
        assert((d1 + d2).drop_first() =~= d1.drop_first() + d2);
        lemma_apply_concat(rules, rewrite_spec(rules[d1[0]], a)->0, d1.drop_first(), d2);
    }
}

/// What can be rewritten to a term that can be rewritten to a third can be
/// rewritten to the third.
pub proof fn lemma_reaches_trans(rules: Seq<RuleView>, a: TermView, b: TermView, c: TermView)
    requires
        reaches(rules, a, b),
        reaches(rules, b, c),
    ensures
        reaches(rules, a, c),
{
    let d1 = choose|d: Seq<int>| apply_seq(rules, a, d) == Some(b);
    let d2 = choose|d: Seq<int>| apply_seq(rules, b, d) == Some(c);
    lemma_apply_concat(rules, a, d1, d2);
}

/// A term can be rewritten to the result of one rewrite.
pub proof fn lemma_reaches_step(rules: Seq<RuleView>, a: TermView, i: int)
    requires
        0 <= i < rules.len(),
        rewrite_spec(rules[i], a) is Some,
    ensures
        reaches(rules, a, rewrite_spec(rules[i], a)->0),
{
    let d = seq![i];
    assert(d.drop_first() =~= Seq::<int>::empty());
    assert(apply_seq(rules, rewrite_spec(rules[i], a)->0, d.drop_first()) == Some(
        rewrite_spec(rules[i], a)->0,
    ));
    assert(apply_seq(rules, a, d) == Some(rewrite_spec(rules[i], a)->0));
}

/// Two terms that can be rewritten to `c` can be rewritten to one term.
pub proof fn lemma_joinable_via(rules: Seq<RuleView>, a: TermView, b: TermView, c: TermView)
    requires
        reaches(rules, a, c),
        reaches(rules, b, c),
    ensures
        joinable(rules, a, b),
        joinable(rules, b, a),
{
}

/// The rules at the same positions of a longer list give the same.
pub proof fn lemma_apply_mono(rules: Seq<RuleView>, more: Seq<RuleView>, a: TermView, d: Seq<int>)
    requires
        extends(rules, more),
        apply_seq(rules, a, d) is Some,
    ensures
        apply_seq(more, a, d) == apply_seq(rules, a, d),
    decreases d.len(),
{
    if d.len() > 0 {
        lemma_apply_mono(rules, more, rewrite_spec(rules[d[0]], a)->0, d.drop_first());
    }
}

/// What can be rewritten with some rules can be rewritten with more rules.
pub proof fn lemma_reaches_mono(rules: Seq<RuleView>, more: Seq<RuleView>, a: TermView, b: TermView)
    requires
        extends(rules, more),
        reaches(rules, a, b),
    ensures
        reaches(more, a, b),
{
    let d = choose|d: Seq<int>| apply_seq(rules, a, d) == Some(b);
    lemma_apply_mono(rules, more, a, d);
}

/// What can be rewritten to one term with some rules can be with more rules.
pub proof fn lemma_joinable_mono(
    rules: Seq<RuleView>,
    more: Seq<RuleView>,
    a: TermView,
    b: TermView,
)
    requires
        extends(rules, more),
        joinable(rules, a, b),
    ensures
        joinable(more, a, b),
{
    let c = choose|c: TermView| reaches(rules, a, c) && reaches(rules, b, c);
    lemma_reaches_mono(rules, more, a, c);
    lemma_reaches_mono(rules, more, b, c);
}

/// A rule that rewrites a term rewrites it in the same way below more heads.
pub proof fn lemma_rewrite_context(rule: RuleView, p: TermView, a: TermView)
    requires
        rewrite_spec(rule, a) is Some,
    ensures
        rewrite_spec(rule, p + a) == Some(p + rewrite_spec(rule, a)->0),
{
    let k = a.len() - rule.0.len();
    assert((p + a).skip(p.len() + k) =~= a.skip(k));
    assert((p + a).take(p.len() + k) + rule.1 =~= p + (a.take(k) + rule.1));
}

/// Rules that rewrite a term rewrite it in the same way below more heads.
pub proof fn lemma_apply_context(rules: Seq<RuleView>, p: TermView, a: TermView, d: Seq<int>)
    requires
        apply_seq(rules, a, d) is Some,
    ensures
        apply_seq(rules, p + a, d) == Some(p + apply_seq(rules, a, d)->0),
    decreases d.len(),
{
    if d.len() > 0 {
        lemma_rewrite_context(rules[d[0]], p, a);
        lemma_apply_context(rules, p, rewrite_spec(rules[d[0]], a)->0, d.drop_first());
    }
}

/// A term can be rewritten to its normal form.
pub proof fn lemma_nf_reaches(rules: Seq<RuleView>, t: TermView)
    requires
        rules_oriented(rules),
    ensures
        reaches(rules, t, nf(rules, t)),
    decreases t.len(), code(all_heads(rules), t),
{
    lemma_first_match(rules, t, 0);
    match first_match(rules, t, 0) {
        Some(i) => {
            lemma_nf_step_decreases(rules, t);
            let u = rewrite_spec(rules[i], t)->0;
            lemma_nf_reaches(rules, u);
            lemma_reaches_step(rules, t, i);
            lemma_reaches_trans(rules, t, u, nf(rules, t));
        },
        None => {
            lemma_reaches_refl(rules, t);
        },
    }
}

/// Any rewrite gives a smaller term.
pub proof fn lemma_step_smaller(rules: Seq<RuleView>, t: TermView, i: int)
    requires
        rules_oriented(rules),
        0 <= i < rules.len(),
        rewrite_spec(rules[i], t) is Some,
    ensures
        ({
            let u = rewrite_spec(rules[i], t)->0;
            1 <= u.len() <= t.len() && (u.len() < t.len() || code(all_heads(rules), u) < code(
                all_heads(rules),
                t,
            ))
        }),
{
    assert forall|k: int| 0 <= k < rules[i].1.len() implies all_heads(rules).contains(
        #[trigger] rules[i].1[k],
    ) by {
        lemma_all_heads_rhs(rules, i, k);
    }
    lemma_rewrite_decreases(all_heads(rules), rules[i], t);
}

/// In a consistent system a rewrite does not change the normal form.
pub proof fn lemma_step_keeps_nf(rules: Seq<RuleView>, t: TermView, i: int)
    requires
        rules_oriented(rules),
        consistent(rules),
        0 <= i < rules.len(),
        rewrite_spec(rules[i], t) is Some,
    ensures
        nf(rules, rewrite_spec(rules[i], t)->0) == nf(rules, t),
    decreases t.len(), code(all_heads(rules), t), 2int, 0int,
{
    lemma_first_match(rules, t, 0);
    let j = first_match(rules, t, 0)->0;
    if i != j {
        if rules[i].0.len() >= rules[j].0.len() {
            lemma_overlap_keeps_nf(rules, t, i, j);
        } else {
            lemma_overlap_keeps_nf(rules, t, j, i);
        }
    }
}

/// In a consistent system two rules that rewrite one term give terms with
/// one normal form.
pub proof fn lemma_overlap_keeps_nf(rules: Seq<RuleView>, t: TermView, i: int, j: int)
    requires
        rules_oriented(rules),
        consistent(rules),
        0 <= i < rules.len(),
        0 <= j < rules.len(),
        rewrite_spec(rules[i], t) is Some,
        rewrite_spec(rules[j], t) is Some,
        rules[i].0.len() >= rules[j].0.len(),
    ensures
        nf(rules, rewrite_spec(rules[i], t)->0) == nf(rules, rewrite_spec(rules[j], t)->0),
    decreases t.len(), code(all_heads(rules), t), 1int, 0int,
{
    let li = rules[i].0;
    let lj = rules[j].0;
    let ti = rewrite_spec(rules[i], t)->0;
    let tj = rewrite_spec(rules[j], t)->0;
    let p = t.take(t.len() - li.len());
    assert(li.skip(li.len() - lj.len()) =~= t.skip(t.len() - lj.len()));
    assert(overlaps(rules, i, j));
    let other = rewrite_spec(rules[j], li)->0;
    let c = choose|c: TermView| reaches(rules, rules[i].1, c) && reaches(rules, other, c);
    let d1 = choose|d: Seq<int>| apply_seq(rules, rules[i].1, d) == Some(c);
    let d2 = choose|d: Seq<int>| apply_seq(rules, other, d) == Some(c);
    lemma_apply_context(rules, p, rules[i].1, d1);
    lemma_apply_context(rules, p, other, d2);
    assert(tj =~= p + other);
    lemma_step_smaller(rules, t, i);
    lemma_step_smaller(rules, t, j);
    lemma_path_keeps_nf(rules, ti, d1);
    lemma_path_keeps_nf(rules, tj, d2);
}

/// In a consistent system rewriting does not change the normal form.
pub proof fn lemma_path_keeps_nf(rules: Seq<RuleView>, x: TermView, d: Seq<int>)
    requires
        rules_oriented(rules),
        consistent(rules),
        apply_seq(rules, x, d) is Some,
    ensures
        nf(rules, apply_seq(rules, x, d)->0) == nf(rules, x),
    decreases x.len(), code(all_heads(rules), x), 3int, d.len(),
{
    if d.len() > 0 {
        lemma_step_keeps_nf(rules, x, d[0]);
        lemma_step_smaller(rules, x, d[0]);
        lemma_path_keeps_nf(rules, rewrite_spec(rules[d[0]], x)->0, d.drop_first());
    }
}

/// Confluence. In a consistent system a term has one normal form: whatever
/// rules are applied to `t` and in whatever order, a term that no rule
/// rewrites any more is `nf(rules, t)`.
pub proof fn lemma_normal_form_unique(rules: Seq<RuleView>, t: TermView, m: TermView)
    requires
        rules_oriented(rules),
        consistent(rules),
        reaches(rules, t, m),
        irreducible(rules, m),
    ensures
        m == nf(rules, t),
{
    let d = choose|d: Seq<int>| apply_seq(rules, t, d) == Some(m);
    lemma_path_keeps_nf(rules, t, d);
    lemma_nf_of_irreducible(rules, m);
}

/// In a consistent system two terms that can be rewritten to one term have
/// one normal form.
pub proof fn lemma_joinable_same_nf(rules: Seq<RuleView>, a: TermView, b: TermView)
    requires
        rules_oriented(rules),
        consistent(rules),
        joinable(rules, a, b),
    ensures
        nf(rules, a) == nf(rules, b),
{
    let c = choose|c: TermView| reaches(rules, a, c) && reaches(rules, b, c);
    let d1 = choose|d: Seq<int>| apply_seq(rules, a, d) == Some(c);
    let d2 = choose|d: Seq<int>| apply_seq(rules, b, d) == Some(c);
    lemma_path_keeps_nf(rules, a, d1);
    lemma_path_keeps_nf(rules, b, d2);
}

/// The pair `w` stands between `x` and `y`: one of them can be rewritten to
/// one side of `w` and the other to the other side.
pub open spec fn linked(rules: Seq<RuleView>, x: TermView, y: TermView, w: RuleView) -> bool {
    (reaches(rules, x, w.0) && reaches(rules, y, w.1)) || (reaches(rules, x, w.1) && reaches(
        rules,
        y,
        w.0,
    ))
}

/// `x` and `y` can be rewritten to one term, or a pair of `work` stands
/// between them.
pub open spec fn resolved(rules: Seq<RuleView>, work: Seq<RuleView>, x: TermView, y: TermView) -> bool {
    joinable(rules, x, y) || exists|k: int|
        0 <= k < work.len() && #[trigger] linked(rules, x, y, work[k])
}

/// Wherever two rules rewrite one left-hand side, the two results are
/// resolved: the system is consistent but for the pairs of `work`.
pub open spec fn pending(rules: Seq<RuleView>, work: Seq<RuleView>) -> bool {
    forall|i: int, j: int| #[trigger]
        overlaps(rules, i, j) ==> resolved(
            rules,
            work,
            rules[i].1,
            rewrite_spec(rules[j], rules[i].0)->0,
        )
}

/// Two terms linked by a pair whose sides have one normal form can be
/// rewritten to one term.
pub proof fn lemma_linked_equal(rules: Seq<RuleView>, x: TermView, y: TermView, w: RuleView)
    requires
        rules_oriented(rules),
        linked(rules, x, y, w),
        nf(rules, w.0) == nf(rules, w.1),
    ensures
        joinable(rules, x, y),
{
    let c = nf(rules, w.0);
    lemma_nf_reaches(rules, w.0);
    lemma_nf_reaches(rules, w.1);
    if reaches(rules, x, w.0) && reaches(rules, y, w.1) {
        lemma_reaches_trans(rules, x, w.0, c);
        lemma_reaches_trans(rules, y, w.1, c);
    } else {
        lemma_reaches_trans(rules, x, w.1, c);
        lemma_reaches_trans(rules, y, w.0, c);
    }
    lemma_joinable_via(rules, x, y, c);
}

/// Two terms linked by a pair can be rewritten to one term once the rule
/// between the normal forms of the pair is there.
pub proof fn lemma_linked_rule(rules: Seq<RuleView>, x: TermView, y: TermView, w: RuleView)
    requires
        rules_oriented(rules),
        linked(rules, x, y, w),
        nf(rules, w.0) != nf(rules, w.1),
    ensures
        joinable(rules.push(orient(nf(rules, w.0), nf(rules, w.1))), x, y),
{
    let u = nf(rules, w.0);
    let v = nf(rules, w.1);
    let r = orient(u, v);
    let next = rules.push(r);
    lemma_orient_strict(u, v);
    lemma_nf_reaches(rules, w.0);
    lemma_nf_reaches(rules, w.1);
    assert(extends(rules, next));
    lemma_rewrites_own_lhs(r);
    assert(r.0.take(0) + r.1 =~= r.1);
    assert(next[rules.len() as int] == r);
    lemma_reaches_step(next, r.0, rules.len() as int);
    lemma_reaches_refl(next, r.1);
    // both normal forms reach r.1 in the larger system
    assert(reaches(next, u, r.1));
    assert(reaches(next, v, r.1));
    lemma_reaches_mono(rules, next, w.0, u);
    lemma_reaches_mono(rules, next, w.1, v);
    lemma_reaches_trans(next, w.0, u, r.1);
    lemma_reaches_trans(next, w.1, v, r.1);
    if reaches(rules, x, w.0) && reaches(rules, y, w.1) {
        lemma_reaches_mono(rules, next, x, w.0);
        lemma_reaches_mono(rules, next, y, w.1);
        lemma_reaches_trans(next, x, w.0, r.1);
        lemma_reaches_trans(next, y, w.1, r.1);
    } else {
        lemma_reaches_mono(rules, next, x, w.1);
        lemma_reaches_mono(rules, next, y, w.0);
        lemma_reaches_trans(next, x, w.1, r.1);
        lemma_reaches_trans(next, y, w.0, r.1);
    }
    lemma_joinable_via(next, x, y, r.1);
}

/// A pair that stands between two terms stands between them with more rules.
pub proof fn lemma_linked_mono(
    rules: Seq<RuleView>,
    more: Seq<RuleView>,
    x: TermView,
    y: TermView,
    w: RuleView,
)
    requires
        extends(rules, more),
        linked(rules, x, y, w),
    ensures
        linked(more, x, y, w),
{
    if reaches(rules, x, w.0) && reaches(rules, y, w.1) {
        lemma_reaches_mono(rules, more, x, w.0);
        lemma_reaches_mono(rules, more, y, w.1);
    } else {
        lemma_reaches_mono(rules, more, x, w.1);
        lemma_reaches_mono(rules, more, y, w.0);
    }
}

/// A pair is linked to itself.
pub proof fn lemma_linked_self(rules: Seq<RuleView>, w: RuleView)
    ensures
        linked(rules, w.0, w.1, w),
{
    lemma_reaches_refl(rules, w.0);
    lemma_reaches_refl(rules, w.1);
}

/// A critical pair of the first `k` rules is among the critical pairs.
pub proof fn lemma_critical_pairs_hold(rules: Seq<RuleView>, r: RuleView, k: int, i: int)
    requires
        0 <= i < k,
        critical_pair(rules, r, i) is Some,
    ensures
        exists|x: int|
            0 <= x < critical_pairs(rules, r, k).len() && #[trigger] critical_pairs(rules, r, k)[x]
                == critical_pair(rules, r, i)->0,
    decreases k,
{
    let all = critical_pairs(rules, r, k);
    let before = critical_pairs(rules, r, k - 1);
    if i == k - 1 {
        assert(all[before.len() as int] == critical_pair(rules, r, i)->0);
    } else {
        lemma_critical_pairs_hold(rules, r, k - 1, i);
        let x = choose|x: int|
            0 <= x < before.len() && #[trigger] before[x] == critical_pair(rules, r, i)->0;
        assert(all[x] == before[x]);
    }
}

/// When the last pair of the work has one normal form on both sides, the
/// system is consistent but for the rest of the work.
pub proof fn lemma_pending_drop(rules: Seq<RuleView>, work: Seq<RuleView>)
    requires
        rules_oriented(rules),
        pending(rules, work),
        work.len() > 0,
        nf(rules, work.last().0) == nf(rules, work.last().1),
    ensures
        pending(rules, work.drop_last()),
{
    let rest = work.drop_last();
    assert forall|i: int, j: int| #[trigger] overlaps(rules, i, j) implies resolved(
        rules,
        rest,
        rules[i].1,
        rewrite_spec(rules[j], rules[i].0)->0,
    ) by {
        let x = rules[i].1;
        let y = rewrite_spec(rules[j], rules[i].0)->0;
        if !joinable(rules, x, y) {
            let k = choose|k: int| 0 <= k < work.len() && #[trigger] linked(rules, x, y, work[k]);
            if k == work.len() - 1 {
                lemma_linked_equal(rules, x, y, work[k]);
            } else {
                assert(rest[k] == work[k]);
                assert(linked(rules, x, y, rest[k]));
            }
        }
    }
}

/// When the last pair of the work has become a rule and the critical pairs
/// of that rule have joined the work, the new system is consistent but for
/// the new work.
pub proof fn lemma_pending_push(rules: Seq<RuleView>, work: Seq<RuleView>)
    requires
        rules_oriented(rules),
        pending(rules, work),
        work.len() > 0,
        nf(rules, work.last().0) != nf(rules, work.last().1),
    ensures
        ({
            let r = orient(nf(rules, work.last().0), nf(rules, work.last().1));
            pending(
                rules.push(r),
                work.drop_last() + critical_pairs(rules, r, rules.len() as int),
            )
        }),
{
    let u = nf(rules, work.last().0);
    let v = nf(rules, work.last().1);
    let r = orient(u, v);
    let n = rules.len() as int;
    let next = rules.push(r);
    let rest = work.drop_last();
    let pairs = critical_pairs(rules, r, n);
    let more = rest + pairs;
    lemma_orient_strict(u, v);
    lemma_nf_irreducible(rules, work.last().0);
    lemma_nf_irreducible(rules, work.last().1);
    assert(extends(rules, next));
    assert forall|i: int, j: int| #[trigger] overlaps(next, i, j) implies resolved(
        next,
        more,
        next[i].1,
        rewrite_spec(next[j], next[i].0)->0,
    ) by {
        let x = next[i].1;
        let y = rewrite_spec(next[j], next[i].0)->0;
        if i < n && j < n {
            assert(overlaps(rules, i, j));
            if joinable(rules, x, y) {
                lemma_joinable_mono(rules, next, x, y);
            } else {
                let k = choose|k: int|
                    0 <= k < work.len() && #[trigger] linked(rules, x, y, work[k]);
                if k == work.len() - 1 {
                    lemma_linked_rule(rules, x, y, work[k]);
                } else {
                    lemma_linked_mono(rules, next, x, y, work[k]);
                    assert(more[k] == work[k]);
                    assert(linked(next, x, y, more[k]));
                }
            }
        } else if i == n && j < n {
            // the left-hand side of the new rule is a normal form
            assert(rewrite_spec(rules[j], r.0) is None);
        } else if i < n {
            // the new rule rewrites the left-hand side of an older rule
            let a = nf(rules, y);
            let b = nf(rules, x);
            lemma_nf_reaches(rules, y);
            lemma_nf_reaches(rules, x);
            if a == b {
                lemma_joinable_via(rules, x, y, a);
                lemma_joinable_mono(rules, next, x, y);
            } else {
                lemma_critical_pairs_hold(rules, r, n, i);
                let z = choose|z: int|
                    0 <= z < pairs.len() && #[trigger] pairs[z] == critical_pair(rules, r, i)->0;
                lemma_orient_strict(a, b);
                lemma_reaches_mono(rules, next, y, a);
                lemma_reaches_mono(rules, next, x, b);
                assert(more[rest.len() + z] == pairs[z]);
                assert(linked(next, x, y, more[rest.len() + z]));
            }
        } else {
            assert(r.0.skip(0) =~= r.0);
            assert(r.0.take(0) + r.1 =~= r.1);
            lemma_reaches_refl(next, r.1);
        }
    }
}

/// Completion brings consistency. From a system that is consistent but for
/// the work, a completion that ends well gives a consistent system in which
/// the two sides of every pair of the work can be rewritten to one term.
/// However it ends, it gives a set of oriented rules that holds the rules
/// it began with.
pub proof fn lemma_complete_consistent(
    alpha: Seq<Seq<char>>,
    rules: Seq<RuleView>,
    work: Seq<RuleView>,
)
    requires
        rules_wf(rules),
        rules_fit(alpha, rules),
        rules_fit(alpha, work),
        pending(rules, work),
    ensures
        ({
            let (out, accepted) = complete(alpha, rules, work);
            &&& rules_wf(out)
            &&& rules_fit(alpha, out)
            &&& extends(rules, out)
            &&& accepted ==> consistent(out)
            &&& accepted ==> forall|k: int|
                0 <= k < work.len() ==> joinable(out, (#[trigger] work[k]).0, work[k].1)
        }),
    decreases rule_limit(alpha) - rules.len(), work.len(),
{
    let (out, accepted) = complete(alpha, rules, work);
    if work.len() == 0 {
        assert forall|i: int, j: int| #[trigger] overlaps(rules, i, j) implies joinable(
            rules,
            rules[i].1,
            rewrite_spec(rules[j], rules[i].0)->0,
        ) by {
            assert(resolved(rules, work, rules[i].1, rewrite_spec(rules[j], rules[i].0)->0));
        }
    } else {
        let w = work.last();
        let u = nf(rules, w.0);
        let v = nf(rules, w.1);
        let rest = work.drop_last();
        lemma_linked_self(rules, w);
        if u == v {
            lemma_pending_drop(rules, work);
            assert forall|k: int| 0 <= k < rest.len() implies crate::universe::rule_fits(
                alpha,
                #[trigger] rest[k],
            ) by {
                assert(rest[k] == work[k]);
            }
            lemma_complete_consistent(alpha, rules, rest);
            if accepted {
                lemma_linked_equal(rules, w.0, w.1, w);
                lemma_joinable_mono(rules, out, w.0, w.1);
                assert forall|k: int| 0 <= k < work.len() implies joinable(
                    out,
                    (#[trigger] work[k]).0,
                    work[k].1,
                ) by {
                    if k < rest.len() {
                        assert(rest[k] == work[k]);
                    }
                }
            }
        } else if clash(u, v) {
        } else {
            let r = orient(u, v);
            let next = rules.push(r);
            let more = rest + critical_pairs(rules, r, rules.len() as int);
            lemma_complete_step(alpha, rules, work);
            lemma_pending_push(rules, work);
            lemma_complete_consistent(alpha, next, more);
            assert(extends(rules, next));
            if accepted {
                lemma_linked_rule(rules, w.0, w.1, w);
                lemma_joinable_mono(next, out, w.0, w.1);
                assert forall|k: int| 0 <= k < work.len() implies joinable(
                    out,
                    (#[trigger] work[k]).0,
                    work[k].1,
                ) by {
                    if k < rest.len() {
                        assert(more[k] == work[k]);
                    }
                }
            }
        }
    }
}

/// Adding a rule keeps a consistent system consistent. However the addition
/// ends, the result is a set of oriented rules that holds the rules from
/// before. If the rule is accepted, the result is consistent again and the
/// two sides of the rule have one normal form.
pub proof fn lemma_add_rule_consistent(rules: Seq<RuleView>, rule: RuleView)
    requires
        rules_wf(rules),
        consistent(rules),
        rule.0.len() >= 1,
        rule.1.len() >= 1,
    ensures
        ({
            let (out, accepted) = add_rule_spec(rules, rule);
            &&& rules_wf(out)
            &&& extends(rules, out)
            &&& accepted ==> consistent(out)
            &&& accepted ==> nf(out, rule.0) == nf(out, rule.1)
        }),
{
    let alpha = all_heads(rules.push(rule));
    let work = seq![rule];
    lemma_start_fits(rules, rule);
    assert forall|i: int, j: int| #[trigger] overlaps(rules, i, j) implies resolved(
        rules,
        work,
        rules[i].1,
        rewrite_spec(rules[j], rules[i].0)->0,
    ) by {}
    lemma_complete_consistent(alpha, rules, work);
    let (out, accepted) = add_rule_spec(rules, rule);
    if accepted {
        assert(work[0] == rule);
        lemma_joinable_same_nf(out, rule.0, rule.1);
    }
}

/// A rule whose sides have two different constants as normal forms is
/// rejected, and the system stays as it is.
pub proof fn lemma_clash_rejected(rules: Seq<RuleView>, rule: RuleView)
    requires
        rules_wf(rules),
        rule.0.len() >= 1,
        rule.1.len() >= 1,
        clash(nf(rules, rule.0), nf(rules, rule.1)),
    ensures
        add_rule_spec(rules, rule) == (rules, false),
{
    lemma_start_fits(rules, rule);
    let work = seq![rule];
    assert(work.last() == rule);
    let u = nf(rules, rule.0);
    let v = nf(rules, rule.1);
    if u == v {
        assert(u[0] == v[0]);
    }
}

/// Constant clash. Two different constants that no rule rewrites cannot be
/// made equal: the rule between them is rejected, and the system stays as
/// it is.
pub proof fn lemma_constant_clash(rules: Seq<RuleView>, a: TermView, b: TermView)
    requires
        rules_wf(rules),
        is_constant(a),
        is_constant(b),
        a != b,
        irreducible(rules, a),
        irreducible(rules, b),
    ensures
        add_rule_spec(rules, (a, b)) == (rules, false),
{
    lemma_nf_of_irreducible(rules, a);
    lemma_nf_of_irreducible(rules, b);
    if a[0] == b[0] {
        assert(a =~= b);
    }
    lemma_clash_rejected(rules, (a, b));
}

} // verus!
