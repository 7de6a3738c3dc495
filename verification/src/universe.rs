use vstd::prelude::*;
use vstd::set_lib::{set_int_range, lemma_int_range, lemma_len_subset};
use crate::text::{lemma_str_lt_total};
use crate::order::{TermView, RuleView, base, code, rank, lemma_rank_bound, lemma_rank_strict};

verus! {

/// A term over the alphabet `alpha`: its heads are entries of `alpha`, and
/// it has at least one head and no more heads than `alpha` has entries.
pub open spec fn term_fits(alpha: Seq<Seq<char>>, t: TermView) -> bool {
    &&& 1 <= t.len() <= alpha.len()
    &&& forall|i: int| 0 <= i < t.len() ==> alpha.contains(#[trigger] t[i])
}

/// A rule whose two sides are terms over `alpha`.
pub open spec fn rule_fits(alpha: Seq<Seq<char>>, r: RuleView) -> bool {
    term_fits(alpha, r.0) && term_fits(alpha, r.1)
}

/// Rules over `alpha`.
pub open spec fn rules_fit(alpha: Seq<Seq<char>>, rules: Seq<RuleView>) -> bool {
    forall|i: int| 0 <= i < rules.len() ==> rule_fits(alpha, #[trigger] rules[i])
}

/// `b` to the power `k`.
pub open spec fn pw(b: nat, k: nat) -> nat
    decreases k,
{
    if k == 0 {
        1
    } else {
        b * pw(b, (k - 1) as nat)
    }
}

/// A bound above the code of every term over `alpha`.
pub open spec fn code_limit(alpha: Seq<Seq<char>>) -> nat {
    pw(base(alpha), alpha.len())
}

/// The number of pairs of codes below `code_limit`: no set of rules over
/// `alpha` has more members.
pub open spec fn rule_limit(alpha: Seq<Seq<char>>) -> nat {
    code_limit(alpha) * code_limit(alpha)
}

/// The two codes of a rule as one number.
pub open spec fn rule_code(alpha: Seq<Seq<char>>, r: RuleView) -> int {
    (code(alpha, r.0) * code_limit(alpha) + code(alpha, r.1)) as int
}

/// A power with base 1 or more is at least 1 and grows with the exponent.
pub proof fn lemma_pw_monotone(b: nat, j: nat, k: nat)
    requires
        b >= 1,
        j <= k,
    ensures
        1 <= pw(b, j) <= pw(b, k),
    decreases k,
{
    if k == 0 {
    } else if j == k {
        lemma_pw_monotone(b, (j - 1) as nat, (k - 1) as nat);
        let x = pw(b, (k - 1) as nat) as int;
        assert(b * x >= x) by (nonlinear_arith)
            requires
                b >= 1,
                x >= 1,
        ;
    } else {
        lemma_pw_monotone(b, j, (k - 1) as nat);
        let x = pw(b, (k - 1) as nat) as int;
        assert(b * x >= x) by (nonlinear_arith)
            requires
                b >= 1,
                x >= 1,
        ;
    }
}

/// The code of a term is below the base to the power of its size.
pub proof fn lemma_code_below_pw(alpha: Seq<Seq<char>>, t: TermView)
    ensures
        code(alpha, t) < pw(base(alpha), t.len()),
    decreases t.len(),
{
    if t.len() > 0 {
        lemma_code_below_pw(alpha, t.drop_last());
        lemma_rank_bound(alpha, t.last());
        let c = code(alpha, t.drop_last()) as int;
        let x = pw(base(alpha), t.drop_last().len()) as int;
        let b = base(alpha) as int;
        assert(c * b + b <= b * x) by (nonlinear_arith)
            requires
                c + 1 <= x,
                b >= 0,
        ;
    }
}

/// The code of a term over `alpha` is below `code_limit`.
pub proof fn lemma_code_below_limit(alpha: Seq<Seq<char>>, t: TermView)
    requires
        t.len() <= alpha.len(),
    ensures
        code(alpha, t) < code_limit(alpha),
{
    lemma_code_below_pw(alpha, t);
    lemma_pw_monotone(base(alpha), t.len(), alpha.len());
}

/// Two terms with heads in `alpha` and one code are one term.
pub proof fn lemma_code_injective(alpha: Seq<Seq<char>>, s: TermView, t: TermView)
    requires
        forall|i: int| 0 <= i < s.len() ==> alpha.contains(#[trigger] s[i]),
        forall|i: int| 0 <= i < t.len() ==> alpha.contains(#[trigger] t[i]),
        code(alpha, s) == code(alpha, t),
    ensures
        s == t,
    decreases s.len(),
{
    let b = base(alpha) as int;
    if s.len() == 0 {
        if t.len() > 0 {
            let ct = code(alpha, t.drop_last()) as int;
            assert(ct * b >= 0) by (nonlinear_arith)
                requires
                    ct >= 0,
                    b >= 0,
            ;
        }
        assert(s =~= t);
    } else if t.len() == 0 {
        let cs = code(alpha, s.drop_last()) as int;
        assert(cs * b >= 0) by (nonlinear_arith)
            requires
                cs >= 0,
                b >= 0,
        ;
    } else {
        let cs = code(alpha, s.drop_last()) as int;
        let ct = code(alpha, t.drop_last()) as int;
        let ds = rank(alpha, s.last()) as int + 1;
        let dt = rank(alpha, t.last()) as int + 1;
        lemma_rank_bound(alpha, s.last());
        lemma_rank_bound(alpha, t.last());
        assert(cs == ct && ds == dt) by (nonlinear_arith)
            requires
                cs * b + ds == ct * b + dt,
                0 <= ds < b,
                0 <= dt < b,
        ;
        assert(alpha.contains(s[s.len() - 1]));
        assert(alpha.contains(t[t.len() - 1]));
        if s.last() != t.last() {
            lemma_str_lt_total(s.last(), t.last());
            if crate::text::str_lt(s.last(), t.last()) {
                lemma_rank_strict(alpha, s.last(), t.last());
            } else {
                lemma_rank_strict(alpha, t.last(), s.last());
            }
        }
        assert forall|i: int| 0 <= i < s.drop_last().len() implies alpha.contains(
            #[trigger] s.drop_last()[i],
        ) by {
            assert(s.drop_last()[i] == s[i]);
        }
        assert forall|i: int| 0 <= i < t.drop_last().len() implies alpha.contains(
            #[trigger] t.drop_last()[i],
        ) by {
            assert(t.drop_last()[i] == t[i]);
        }
        lemma_code_injective(alpha, s.drop_last(), t.drop_last());
        assert(s =~= s.drop_last().push(s.last()));
        assert(t =~= t.drop_last().push(t.last()));
    }
}

/// Two rules over `alpha` with one code are one rule, and the code of a rule
/// over `alpha` is below `rule_limit`.
pub proof fn lemma_rule_code(alpha: Seq<Seq<char>>, r: RuleView, s: RuleView)
    requires
        rule_fits(alpha, r),
        rule_fits(alpha, s),
    ensures
        0 <= rule_code(alpha, r) < rule_limit(alpha),
        rule_code(alpha, r) == rule_code(alpha, s) ==> r == s,
{
    let m = code_limit(alpha) as int;
    lemma_code_below_limit(alpha, r.0);
    lemma_code_below_limit(alpha, r.1);
    lemma_code_below_limit(alpha, s.0);
    lemma_code_below_limit(alpha, s.1);
    let a = code(alpha, r.0) as int;
    let b = code(alpha, r.1) as int;
    let c = code(alpha, s.0) as int;
    let d = code(alpha, s.1) as int;
    assert(0 <= a * m + b < m * m) by (nonlinear_arith)
        requires
            0 <= a < m,
            0 <= b < m,
    ;
    if rule_code(alpha, r) == rule_code(alpha, s) {
        assert(a == c && b == d) by (nonlinear_arith)
            requires
                a * m + b == c * m + d,
                0 <= b < m,
                0 <= d < m,
        ;
        lemma_code_injective(alpha, r.0, s.0);
        lemma_code_injective(alpha, r.1, s.1);
    }
}

/// A list of different rules over `alpha` has at most `rule_limit` entries.
pub proof fn lemma_count_rules(alpha: Seq<Seq<char>>, rules: Seq<RuleView>)
    requires
        rules_fit(alpha, rules),
        rules.no_duplicates(),
    ensures
        rules.len() <= rule_limit(alpha),
{
    let codes = Seq::new(rules.len(), |i: int| rule_code(alpha, rules[i]));
    assert forall|i: int, j: int| 0 <= i < codes.len() && 0 <= j < codes.len() && i != j implies codes[i]
        != codes[j] by {
        lemma_rule_code(alpha, rules[i], rules[j]);
    }
    codes.unique_seq_to_set();
    let limit = rule_limit(alpha) as int;
    lemma_int_range(0, limit);
    assert forall|c: int| codes.to_set().contains(c) implies set_int_range(0, limit).contains(
        c,
    ) by {
        let i = choose|i: int| 0 <= i < codes.len() && codes[i] == c;
        lemma_rule_code(alpha, rules[i], rules[i]);
    }
    lemma_len_subset(codes.to_set(), set_int_range(0, limit));
}

} // verus!
