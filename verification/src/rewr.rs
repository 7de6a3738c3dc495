use vstd::prelude::*;
use vstd::string::*;
use std::cmp::Ordering;
use crate::text::str_less;
use crate::order::{heads_lt, term_lt, orient, RuleView, code};
use crate::universe::{rules_fit, rule_fits, rule_limit};
use crate::confluence::{consistent, extends, lemma_add_rule_consistent};
use crate::theory::{contradictory, lemma_add_rule_sound};
use crate::completion::{clash, critical_pair, critical_pairs, complete, add_rule_spec,
    lemma_complete_step, lemma_start_fits};
use crate::reduction::{rewrite_spec, rules_wf, nf, nf_bounded, first_match, all_heads, irreducible,
    lemma_first_match_skip, lemma_nf_step_decreases, lemma_nf_irreducible, lemma_nf_idempotent};

verus! {

/// The views of a list of strings.
pub open spec fn views(v: Seq<String>) -> Seq<Seq<char>> {
    v.map_values(|s: String| s@)
}

/// The views of a list with one more string are the views of the list with
/// one more view.
pub proof fn lemma_views_push(v: Seq<String>, s: String)
    ensures
        views(v.push(s)) == views(v).push(s@),
{
    assert(views(v.push(s)) =~= views(v).push(s@));
}

/// A copy of a list of strings.
pub fn clone_strings(v: &Vec<String>) -> (r: Vec<String>)
    ensures
        views(r@) == views(v@),
{
    let mut r: Vec<String> = Vec::new();
    let mut i: usize = 0;
    while i < v.len()
        invariant
            i <= v.len(),
            views(r@) == views(v@).take(i as int),
        decreases v.len() - i,
    {
        let ghost prev = r@;
        r.push(v[i].clone());
        proof {
            lemma_views_push(prev, v@[i as int]);
            assert(views(v@).take(i + 1) =~= views(v@).take(i as int).push(v@[i as int]@));
        }
        i += 1;
    }
    proof {
        assert(views(v@).take(v.len() as int) =~= views(v@));
    }
    r
}

/// A unary term: a head applied to at most one argument, itself a term. It
/// is held as the list of its heads from the outermost to the innermost.
#[derive(Debug)]
pub struct Term {
    pub heads: Vec<String>,
}

impl View for Term {
    type V = Seq<Seq<char>>;

    open spec fn view(&self) -> Seq<Seq<char>> {
        views(self.heads@)
    }
}

impl Term {
    /// A term has at least one head.
    pub open spec fn wf(&self) -> bool {
        self@.len() >= 1
    }

    /// The term with head `head` whose argument, if `comps` is not empty, is
    /// the term built from `comps`.
    pub fn new(head: &str, comps: &[&str]) -> (t: Term)
        ensures
            t.wf(),
            t@ == seq![head@] + comps@.map_values(|s: &str| s@),
    {
        let mut heads: Vec<String> = Vec::new();
        heads.push(head.to_owned());
        let mut i: usize = 0;
        while i < comps.len()
            invariant
                i <= comps.len(),
                views(heads@) == seq![head@] + comps@.map_values(|s: &str| s@).take(i as int),
            decreases comps.len() - i,
        {
            let ghost prev = heads@;
            let ghost all = comps@.map_values(|s: &str| s@);
            let owned: String = comps[i].to_owned();
            proof {
                lemma_views_push(prev, owned);
                assert(seq![head@] + all.take(i + 1) =~= (seq![head@] + all.take(i as int)).push(
                    owned@,
                ));
            }
            heads.push(owned);
            i += 1;
        }
        proof {
            let all = comps@.map_values(|s: &str| s@);
            assert(all.take(comps.len() as int) =~= all);
        }
        Term { heads }
    }

    /// The number of heads.
    pub fn size(&self) -> (n: usize)
        ensures
            n == self@.len(),
    {
        self.heads.len()
    }

    /// The outermost head.
    pub fn head(&self) -> (h: &str)
        requires
            self.wf(),
        ensures
            h@ == self@[0],
    {
        self.heads[0].as_str()
    }

    /// The argument of the outermost head, if it has one.
    pub fn arg(&self) -> (a: Option<Term>)
        requires
            self.wf(),
        ensures
            self@.len() == 1 ==> a is None,
            self@.len() > 1 ==> a is Some && a->0@ == self@.drop_first() && a->0.wf(),
    {
        if self.heads.len() == 1 {
            None
        } else {
            let mut heads: Vec<String> = Vec::new();
            let mut i: usize = 1;
            while i < self.heads.len()
                invariant
                    1 <= i <= self.heads.len(),
                    views(heads@) == self@.subrange(1, i as int),
                decreases self.heads.len() - i,
            {
                let ghost prev = heads@;
                heads.push(self.heads[i].clone());
                proof {
                    lemma_views_push(prev, self.heads@[i as int]);
                    assert(self@.subrange(1, i + 1) =~= self@.subrange(1, i as int).push(
                        self@[i as int],
                    ));
                }
                i += 1;
            }
            proof {
                assert(self@.subrange(1, self@.len() as int) =~= self@.drop_first());
            }
            Some(Term { heads })
        }
    }

    /// The innermost head.
    pub fn last(&self) -> (h: &str)
        requires
            self.wf(),
        ensures
            h@ == self@.last(),
    {
        self.heads[self.heads.len() - 1].as_str()
    }

    /// The heads from the outermost to the innermost.
    pub fn as_vec(&self) -> (v: Vec<String>)
        ensures
            views(v@) == self@,
    {
        clone_strings(&self.heads)
    }

    /// Whether the two terms have the same heads.
    pub fn same(&self, other: &Term) -> (r: bool)
        ensures
            r == (self@ == other@),
    {
        if self.heads.len() != other.heads.len() {
            return false;
        }
        let mut i: usize = 0;
        while i < self.heads.len()
            invariant
                i <= self.heads.len(),
                self.heads.len() == other.heads.len(),
                self@.take(i as int) == other@.take(i as int),
            decreases self.heads.len() - i,
        {
            if self.heads[i] != other.heads[i] {
                proof {
                    assert(self@[i as int] != other@[i as int]);
                }
                return false;
            }
            proof {
                assert(self@.take(i + 1) =~= self@.take(i as int).push(self@[i as int]));
                assert(other@.take(i + 1) =~= other@.take(i as int).push(other@[i as int]));
            }
            i += 1;
        }
        proof {
            assert(self@.take(self@.len() as int) =~= self@);
            assert(other@.take(other@.len() as int) =~= other@);
        }
        true
    }

    /// Whether this term is smaller than `other` in the reduction order.
    pub fn less(&self, other: &Term) -> (r: bool)
        ensures
            r == term_lt(self@, other@),
    {
        if self.heads.len() != other.heads.len() {
            return self.heads.len() < other.heads.len();
        }
        let mut i: usize = 0;
        proof {
            assert(self@.skip(0) =~= self@);
            assert(other@.skip(0) =~= other@);
        }
        while i < self.heads.len()
            invariant
                i <= self.heads.len(),
                self.heads.len() == other.heads.len(),
                heads_lt(self@, other@) == heads_lt(self@.skip(i as int), other@.skip(i as int)),
            decreases self.heads.len() - i,
        {
            proof {
                assert(self@.skip(i as int).drop_first() =~= self@.skip(i + 1));
                assert(other@.skip(i as int).drop_first() =~= other@.skip(i + 1));
            }
            if self.heads[i] != other.heads[i] {
                return str_less(self.heads[i].as_str(), other.heads[i].as_str());
            }
            i += 1;
        }
        false
    }
}

impl Clone for Term {
    /// A term with the same heads.
    fn clone(&self) -> (r: Term)
        ensures
            r@ == self@,
    {
        Term { heads: clone_strings(&self.heads) }
    }
}

impl PartialEq for Term {
    /// Two terms are equal if they have the same heads.
    fn eq(&self, other: &Term) -> (r: bool) {
        self.same(other)
    }
}

impl Eq for Term {}

impl vstd::std_specs::cmp::PartialEqSpecImpl for Term {
    open spec fn obeys_eq_spec() -> bool {
        true
    }

    open spec fn eq_spec(&self, other: &Term) -> bool {
        self@ == other@
    }
}

impl PartialOrd for Term {
    /// Terms are compared in the reduction order.
    fn partial_cmp(&self, other: &Term) -> (r: Option<Ordering>) {
        if self.less(other) {
            Some(Ordering::Less)
        } else if other.less(self) {
            Some(Ordering::Greater)
        } else {
            Some(Ordering::Equal)
        }
    }
}

impl vstd::std_specs::cmp::PartialOrdSpecImpl for Term {
    open spec fn obeys_partial_cmp_spec() -> bool {
        true
    }

    open spec fn partial_cmp_spec(&self, other: &Term) -> Option<Ordering> {
        if term_lt(self@, other@) {
            Some(Ordering::Less)
        } else if term_lt(other@, self@) {
            Some(Ordering::Greater)
        } else {
            Some(Ordering::Equal)
        }
    }
}

/// A rewrite rule: a pair of terms of which the first is rewritten to the
/// second.
#[derive(Debug)]
pub struct RewriteRule {
    pub lhs: Term,
    pub rhs: Term,
}

impl View for RewriteRule {
    type V = RuleView;

    open spec fn view(&self) -> RuleView {
        (self.lhs@, self.rhs@)
    }
}

impl Clone for RewriteRule {
    /// A rule with the same sides.
    fn clone(&self) -> (r: RewriteRule)
        ensures
            r@ == self@,
    {
        RewriteRule { lhs: self.lhs.clone(), rhs: self.rhs.clone() }
    }
}

impl PartialEq for RewriteRule {
    /// Two rules are equal if their sides are.
    fn eq(&self, other: &RewriteRule) -> (r: bool) {
        self.lhs.same(&other.lhs) && self.rhs.same(&other.rhs)
    }
}

impl Eq for RewriteRule {}

impl vstd::std_specs::cmp::PartialEqSpecImpl for RewriteRule {
    open spec fn obeys_eq_spec() -> bool {
        true
    }

    open spec fn eq_spec(&self, other: &RewriteRule) -> bool {
        self@ == other@
    }
}

impl RewriteRule {
    /// Both sides are terms.
    pub open spec fn wf(&self) -> bool {
        self.lhs.wf() && self.rhs.wf()
    }

    /// The rule between `t1` and `t2` that rewrites the larger to the
    /// smaller.
    pub fn new(t1: Term, t2: Term) -> (r: RewriteRule)
        ensures
            r@ == orient(t1@, t2@),
            t1.wf() && t2.wf() ==> r.wf(),
    {
        if t2.less(&t1) {
            RewriteRule { lhs: t1, rhs: t2 }
        } else {
            RewriteRule { lhs: t2, rhs: t1 }
        }
    }

    /// Rewrites `t` where the left-hand side is a subterm of it.
    pub fn rewrite(&self, t: &Term) -> (r: Option<Term>)
        ensures
            match r {
                Some(u) => rewrite_spec(self@, t@) == Some(u@),
                None => rewrite_spec(self@, t@) is None,
            },
            self.rhs.wf() && r is Some ==> r->0.wf(),
    {
        let n: usize = t.heads.len();
        let m: usize = self.lhs.heads.len();
        if m > n {
            return None;
        }
        let k: usize = n - m;
        let mut j: usize = 0;
        while j < m
            invariant
                j <= m,
                n == t@.len(),
                m == self.lhs@.len(),
                k + m == n,
                forall|x: int| 0 <= x < j ==> t@[k + x] == self.lhs@[x],
            decreases m - j,
        {
            if t.heads[k + j] != self.lhs.heads[j] {
                proof {
                    assert(t@.skip(k as int)[j as int] == t@[k + j]);
                }
                return None;
            }
            j += 1;
        }
        proof {
            assert(t@.skip(k as int) =~= self.lhs@);
        }
        let mut heads: Vec<String> = Vec::new();
        let mut i: usize = 0;
        while i < k
            invariant
                i <= k,
                k <= t.heads.len(),
                views(heads@) == t@.take(i as int),
            decreases k - i,
        {
            let ghost prev = heads@;
            heads.push(t.heads[i].clone());
            proof {
                lemma_views_push(prev, t.heads@[i as int]);
                assert(t@.take(i + 1) =~= t@.take(i as int).push(t@[i as int]));
            }
            i += 1;
        }
        let mut i: usize = 0;
        proof {
            assert(t@.take(k as int) + self.rhs@.take(0) =~= t@.take(k as int));
        }
        while i < self.rhs.heads.len()
            invariant
                i <= self.rhs.heads.len(),
                views(heads@) == t@.take(k as int) + self.rhs@.take(i as int),
            decreases self.rhs.heads.len() - i,
        {
            let ghost prev = heads@;
            heads.push(self.rhs.heads[i].clone());
            proof {
                lemma_views_push(prev, self.rhs.heads@[i as int]);
                assert(t@.take(k as int) + self.rhs@.take(i + 1) =~= (t@.take(k as int)
                    + self.rhs@.take(i as int)).push(self.rhs@[i as int]));
            }
            i += 1;
        }
        proof {
            assert(self.rhs@.take(self.rhs@.len() as int) =~= self.rhs@);
        }
        Some(Term { heads })
    }
}

/// The views of a list of rules.
pub open spec fn rule_views(v: Seq<RewriteRule>) -> Seq<RuleView> {
    v.map_values(|r: RewriteRule| r@)
}

/// The views of a list with one more rule.
pub proof fn lemma_rule_views_push(v: Seq<RewriteRule>, r: RewriteRule)
    ensures
        rule_views(v.push(r)) == rule_views(v).push(r@),
{
    assert(rule_views(v.push(r)) =~= rule_views(v).push(r@));
}

/// A rewriting system: a set of rules, each of which rewrites a term to a
/// smaller one. The rules are held in the order in which they were added.
#[derive(Debug)]
pub struct RewritingSystem {
    pub rules: Vec<RewriteRule>,
}

impl View for RewritingSystem {
    type V = Seq<RuleView>;

    open spec fn view(&self) -> Seq<RuleView> {
        rule_views(self.rules@)
    }
}

impl Clone for RewritingSystem {
    /// A system with the same rules in the same order.
    fn clone(&self) -> (r: RewritingSystem)
        ensures
            r@ == self@,
    {
        let mut rules: Vec<RewriteRule> = Vec::new();
        let mut i: usize = 0;
        while i < self.rules.len()
            invariant
                i <= self.rules.len(),
                rule_views(rules@) == self@.take(i as int),
            decreases self.rules.len() - i,
        {
            let ghost prev = rules@;
            let rule: RewriteRule = self.rules[i].clone();
            proof {
                lemma_rule_views_push(prev, rule);
                assert(self@.take(i + 1) =~= self@.take(i as int).push(rule@));
            }
            rules.push(rule);
            i += 1;
        }
        proof {
            assert(self@.take(self.rules.len() as int) =~= self@);
        }
        RewritingSystem { rules }
    }
}

impl RewritingSystem {
    /// Every rule rewrites a term to a smaller one, and no rule occurs
    /// twice.
    pub open spec fn wf(&self) -> bool {
        rules_wf(self@)
    }

    /// Every term has one normal form, whatever the order in which rules
    /// are tried: wherever two rules rewrite one left-hand side, the two
    /// results can be rewritten to one term.
    pub open spec fn consistent(&self) -> bool {
        consistent(self@)
    }

    /// The system without rules.
    pub fn new() -> (rs: RewritingSystem)
        ensures
            rs@ == Seq::<RuleView>::empty(),
            rs.wf(),
            rs.consistent(),
    {
        let rs = RewritingSystem { rules: Vec::new() };
        proof {
            assert(rs@ =~= Seq::<RuleView>::empty());
        }
        rs
    }

    /// The normal form of `t`: rules are applied until none applies. No
    /// rule rewrites the result, so that it is its own normal form.
    pub fn norm(&self, t: &Term) -> (r: Term)
        requires
            self.wf(),
            t.wf(),
        ensures
            r@ == nf(self@, t@),
            r.wf(),
            irreducible(self@, r@),
            nf(self@, r@) == r@,
    {
        proof {
            lemma_nf_irreducible(self@, t@);
            lemma_nf_idempotent(self@, t@);
        }
        let mut cur: Term = t.clone();
        loop
            invariant_except_break
                self.wf(),
                cur.wf(),
                nf(self@, cur@) == nf(self@, t@),
            ensures
                cur.wf(),
                cur@ == nf(self@, t@),
            decreases cur@.len(), code(all_heads(self@), cur@),
        {
            match rewrite_first(&self.rules, &cur) {
                Some(u) => {
                    proof {
                        lemma_nf_step_decreases(self@, cur@);
                    }
                    cur = u;
                },
                None => {
                    break;
                },
            }
        }
        cur
    }

    /// Adds a rule and completes the system: the two sides of the rule get
    /// one normal form, and so do the two results wherever two rules rewrite
    /// one term. Returns `false`, with the rules added so far, when the
    /// completion meets two different constants that would become equal.
    /// The rules that were there stay. A consistent system that accepts the
    /// rule is consistent again.
    pub fn add_rule(&mut self, new_rule: RewriteRule) -> (accepted: bool)
        requires
            old(self).wf(),
            new_rule.wf(),
        ensures
            final(self).wf(),
            (final(self)@, accepted) == add_rule_spec(old(self)@, new_rule@),
            extends(old(self)@, final(self)@),
            old(self).consistent() && accepted ==> final(self).consistent() && nf(
                final(self)@,
                new_rule@.0,
            ) == nf(final(self)@, new_rule@.1),
            !accepted ==> contradictory(old(self)@.push(new_rule@)),
    {
        let ghost alpha = all_heads(self@.push(new_rule@));
        let ghost target = add_rule_spec(self@, new_rule@);
        proof {
            if consistent(self@) {
                lemma_add_rule_consistent(self@, new_rule@);
            }
            lemma_add_rule_sound(self@, new_rule@);
        }
        let mut work: Vec<RewriteRule> = Vec::new();
        work.push(new_rule);
        proof {
            lemma_start_fits(self@, new_rule@);
            assert(rule_views(work@) =~= seq![new_rule@]);
        }
        let mut accepted: bool = true;
        while work.len() > 0
            invariant_except_break
                accepted,
                complete(alpha, self@, rule_views(work@)) == target,
            invariant
                self.wf(),
                rules_fit(alpha, self@),
                rules_fit(alpha, rule_views(work@)),
                extends(old(self)@, self@),
            ensures
                (self@, accepted) == target,
            decreases rule_limit(alpha) - self@.len(), work.len(),
        {
            let ghost todo = rule_views(work@);
            let ghost before = self@;
            let rule: RewriteRule = work.pop().unwrap();
            proof {
                assert(rule_views(work@) =~= todo.drop_last());
                assert(rule@ == todo.last());
                assert(rule_fits(alpha, todo[todo.len() - 1]));
            }
            let u: Term = self.norm(&rule.lhs);
            let v: Term = self.norm(&rule.rhs);
            if u.same(&v) {
            } else if clashes(&u, &v) {
                accepted = false;
                break;
            } else {
                let new: RewriteRule = RewriteRule::new(u, v);
                proof {
                    lemma_complete_step(alpha, before, todo);
                }
                let ghost rest = rule_views(work@);
                let mut i: usize = 0;
                proof {
                    assert(rest + critical_pairs(before, new@, 0) =~= rest);
                }
                while i < self.rules.len()
                    invariant
                        i <= self.rules.len(),
                        self.wf(),
                        self@ == before,
                        new.wf(),
                        rule_views(work@) == rest + critical_pairs(before, new@, i as int),
                    decreases self.rules.len() - i,
                {
                    proof {
                        assert(self@[i as int] == self.rules@[i as int]@);
                        assert(crate::reduction::rule_oriented(self@[i as int]));
                    }
                    match new.rewrite(&self.rules[i].lhs) {
                        Some(t) => {
                            let a: Term = self.norm(&t);
                            let b: Term = self.norm(&self.rules[i].rhs);
                            if !a.same(&b) {
                                let ghost prev = work@;
                                let pair: RewriteRule = RewriteRule::new(a, b);
                                proof {
                                    lemma_rule_views_push(prev, pair);
                                    assert(critical_pair(before, new@, i as int) == Some(pair@));
                                    assert((rest + critical_pairs(before, new@, i as int)).push(
                                        pair@,
                                    ) =~= rest + critical_pairs(before, new@, i + 1));
                                }
                                work.push(pair);
                            }
                        },
                        None => {},
                    }
                    i += 1;
                }
                proof {
                    lemma_rule_views_push(self.rules@, new);
                }
                self.rules.push(new);
            }
        }
        accepted
    }
}

/// The result of the first rule that rewrites `t`, if there is one.
pub fn rewrite_first(rules: &Vec<RewriteRule>, t: &Term) -> (r: Option<Term>)
    ensures
        match r {
            Some(u) => first_match(rule_views(rules@), t@, 0) is Some && u@ == rewrite_spec(
                rule_views(rules@)[first_match(rule_views(rules@), t@, 0)->0],
                t@,
            )->0,
            None => first_match(rule_views(rules@), t@, 0) is None,
        },
{
    let ghost views = rule_views(rules@);
    let mut i: usize = 0;
    while i < rules.len()
        invariant
            i <= rules.len(),
            views == rule_views(rules@),
            forall|j: int| 0 <= j < i ==> rewrite_spec(#[trigger] views[j], t@) is None,
        decreases rules.len() - i,
    {
        proof {
            assert(views[i as int] == rules@[i as int]@);
        }
        match rules[i].rewrite(t) {
            Some(u) => {
                proof {
                    lemma_first_match_skip(views, t@, 0, i as int);
                }
                return Some(u);
            },
            None => {},
        }
        i += 1;
    }
    proof {
        lemma_first_match_skip(views, t@, 0, i as int);
    }
    None
}

/// Rewrites `t` by the first rule that applies, again and again, `fuel`
/// times at most.
pub fn norm_bounded(rules: &Vec<RewriteRule>, t: &Term, fuel: usize) -> (r: Term)
    ensures
        r@ == nf_bounded(rule_views(rules@), t@, fuel as nat),
{
    let mut cur: Term = t.clone();
    let mut left: usize = fuel;
    while left > 0
        invariant_except_break
            nf_bounded(rule_views(rules@), cur@, left as nat) == nf_bounded(
                rule_views(rules@),
                t@,
                fuel as nat,
            ),
        ensures
            cur@ == nf_bounded(rule_views(rules@), t@, fuel as nat),
        decreases left,
    {
        match rewrite_first(rules, &cur) {
            Some(u) => {
                cur = u;
                left -= 1;
            },
            None => {
                break;
            },
        }
    }
    cur
}

/// Whether `s` begins with `@`.
pub fn is_marked(s: &str) -> (r: bool)
    ensures
        r == (s@.len() > 0 && s@[0] == '@'),
{
    !s.is_empty() && s.get_char(0) == '@'
}

/// Whether `u` and `v` are two different constants.
pub fn clashes(u: &Term, v: &Term) -> (r: bool)
    ensures
        r == clash(u@, v@),
{
    if u.heads.len() != 1 || v.heads.len() != 1 {
        return false;
    }
    is_marked(u.heads[0].as_str()) && is_marked(v.heads[0].as_str()) && u.heads[0] != v.heads[0]
}

} // verus!
