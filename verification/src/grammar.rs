use vstd::prelude::*;
use vstd::string::*;
use crate::order::{TermView, RuleView, orient};
use crate::reduction::nf_bounded;
use crate::rewr::{Term, RewriteRule, norm_bounded, rule_views};

verus! {

/// A constraint on the features of an edge.
#[derive(Debug)]
pub enum Constraint {
    /// The two terms are equal.
    Equal(Term, Term),
}

impl View for Constraint {
    type V = RuleView;

    open spec fn view(&self) -> RuleView {
        match self {
            Constraint::Equal(a, b) => (a@, b@),
        }
    }
}

impl Clone for Constraint {
    /// A constraint with the same sides.
    fn clone(&self) -> (r: Constraint)
        ensures
            r@ == self@,
    {
        match self {
            Constraint::Equal(a, b) => Constraint::Equal(a.clone(), b.clone()),
        }
    }
}

/// The views of a list of pairs of strings.
pub open spec fn pair_views(v: Seq<(String, String)>) -> Seq<(Seq<char>, Seq<char>)> {
    v.map_values(|p: (String, String)| (p.0@, p.1@))
}

/// A substitution as rules: each pair rewrites the term of one head that is
/// its first string to the term of one head that is its second.
pub open spec fn subst_rules(pairs: Seq<(Seq<char>, Seq<char>)>) -> Seq<RuleView> {
    pairs.map_values(|p: (Seq<char>, Seq<char>)| (seq![p.0], seq![p.1]))
}

/// The term `t` under a substitution. Only the innermost head of a term can
/// be replaced. The first pair that applies is taken, and then again on the
/// result; no more steps are made than there are pairs, which is enough
/// unless the pairs run in a circle.
pub open spec fn subst_term(pairs: Seq<(Seq<char>, Seq<char>)>, t: TermView) -> TermView {
    nf_bounded(subst_rules(pairs), t, pairs.len())
}

/// The constraint `c` under a substitution.
pub open spec fn subst_constraint(pairs: Seq<(Seq<char>, Seq<char>)>, c: RuleView) -> RuleView {
    (subst_term(pairs, c.0), subst_term(pairs, c.1))
}

/// A substitution keeps the number of heads.
pub proof fn lemma_subst_term_len(pairs: Seq<(Seq<char>, Seq<char>)>, t: TermView)
    ensures
        subst_term(pairs, t).len() == t.len(),
{
    lemma_subst_bounded_len(pairs, t, pairs.len());
}

/// No step of a substitution changes the number of heads.
pub proof fn lemma_subst_bounded_len(pairs: Seq<(Seq<char>, Seq<char>)>, t: TermView, fuel: nat)
    ensures
        nf_bounded(subst_rules(pairs), t, fuel).len() == t.len(),
    decreases fuel,
{
    if fuel > 0 {
        crate::reduction::lemma_first_match(subst_rules(pairs), t, 0);
        match crate::reduction::first_match(subst_rules(pairs), t, 0) {
            Some(i) => {
                let u = crate::reduction::rewrite_spec(subst_rules(pairs)[i], t).unwrap();
                lemma_subst_bounded_len(pairs, u, (fuel - 1) as nat);
            },
            None => {},
        }
    }
}

/// The term of one head.
pub fn atom(head: &String) -> (t: Term)
    ensures
        t@ == seq![head@],
        t.wf(),
{
    let mut heads: Vec<String> = Vec::new();
    heads.push(head.clone());
    let t = Term { heads };
    proof {
        assert(t@ =~= seq![head@]);
    }
    t
}

impl Constraint {
    /// Both sides are terms.
    pub open spec fn wf(&self) -> bool {
        self@.0.len() >= 1 && self@.1.len() >= 1
    }

    /// The constraint with both sides under the substitution `substs`.
    pub fn clone_with_subst(&self, substs: Vec<(String, String)>) -> (c: Constraint)
        ensures
            c@ == subst_constraint(pair_views(substs@), self@),
    {
        let ghost pairs = pair_views(substs@);
        let mut rules: Vec<RewriteRule> = Vec::new();
        let mut i: usize = 0;
        while i < substs.len()
            invariant
                i <= substs.len(),
                pairs == pair_views(substs@),
                rule_views(rules@) == subst_rules(pairs).take(i as int),
            decreases substs.len() - i,
        {
            let ghost prev = rules@;
            let rule = RewriteRule { lhs: atom(&substs[i].0), rhs: atom(&substs[i].1) };
            proof {
                crate::rewr::lemma_rule_views_push(prev, rule);
                assert(subst_rules(pairs).take(i + 1) =~= subst_rules(pairs).take(i as int).push(
                    rule@,
                ));
            }
            rules.push(rule);
            i += 1;
        }
        proof {
            assert(subst_rules(pairs).take(substs.len() as int) =~= subst_rules(pairs));
        }
        match self {
            Constraint::Equal(a, b) => Constraint::Equal(
                norm_bounded(&rules, a, substs.len()),
                norm_bounded(&rules, b, substs.len()),
            ),
        }
    }

    /// The rule between the two sides, the larger side on the left.
    pub fn rule(&self) -> (r: RewriteRule)
        ensures
            r@ == orient(self@.0, self@.1),
            self.wf() ==> r.wf(),
    {
        match self {
            Constraint::Equal(a, b) => RewriteRule::new(a.clone(), b.clone()),
        }
    }
}

/// The views of a list of constraints.
pub open spec fn constraint_views(v: Seq<Constraint>) -> Seq<RuleView> {
    v.map_values(|c: Constraint| c@)
}

/// The views of a list of alternatives, each a list of constraints.
pub open spec fn alternative_views(v: Seq<Vec<Constraint>>) -> Seq<Seq<RuleView>> {
    v.map_values(|a: Vec<Constraint>| constraint_views(a@))
}

/// The views of a list with one more constraint.
pub proof fn lemma_constraint_views_push(v: Seq<Constraint>, c: Constraint)
    ensures
        constraint_views(v.push(c)) == constraint_views(v).push(c@),
{
    assert(constraint_views(v.push(c)) =~= constraint_views(v).push(c@));
}

/// The views of a list with one more alternative.
pub proof fn lemma_alternative_views_push(v: Seq<Vec<Constraint>>, a: Vec<Constraint>)
    ensures
        alternative_views(v.push(a)) == alternative_views(v).push(constraint_views(a@)),
{
    assert(alternative_views(v.push(a)) =~= alternative_views(v).push(constraint_views(a@)));
}

/// Every constraint has a term on both sides.
pub open spec fn constraints_wf(v: Seq<Vec<Constraint>>) -> bool {
    forall|i: int, j: int|
        0 <= i < v.len() && 0 <= j < v[i]@.len() ==> (#[trigger] v[i]@[j]).wf()
}

/// Whether constraints have terms on both sides shows in their views.
pub proof fn lemma_constraints_wf_views(a: Seq<Vec<Constraint>>, b: Seq<Vec<Constraint>>)
    requires
        alternative_views(a) == alternative_views(b),
        constraints_wf(b),
    ensures
        constraints_wf(a),
{
    assert forall|i: int, j: int| 0 <= i < a.len() && 0 <= j < a[i]@.len() implies (
    #[trigger] a[i]@[j]).wf() by {
        assert(alternative_views(a).len() == a.len());
        assert(alternative_views(b).len() == b.len());
        assert(alternative_views(a)[i] == constraint_views(a[i]@));
        assert(alternative_views(b)[i] == constraint_views(b[i]@));
        assert(constraint_views(a[i]@).len() == a[i]@.len());
        assert(constraint_views(b[i]@).len() == b[i]@.len());
        assert(constraint_views(a[i]@)[j] == a[i]@[j]@);
        assert(constraint_views(b[i]@)[j] == b[i]@[j]@);
        assert(b[i]@[j].wf());
    }
}

/// A copy of a list of constraints.
pub fn clone_constraints(v: &Vec<Constraint>) -> (r: Vec<Constraint>)
    ensures
        constraint_views(r@) == constraint_views(v@),
{
    let mut r: Vec<Constraint> = Vec::new();
    let mut i: usize = 0;
    while i < v.len()
        invariant
            i <= v.len(),
            constraint_views(r@) == constraint_views(v@).take(i as int),
        decreases v.len() - i,
    {
        let c: Constraint = v[i].clone();
        proof {
            lemma_constraint_views_push(r@, c);
            assert(constraint_views(v@).take(i + 1) =~= constraint_views(v@).take(i as int).push(
                v@[i as int]@,
            ));
        }
        r.push(c);
        i += 1;
    }
    proof {
        assert(constraint_views(v@).take(v.len() as int) =~= constraint_views(v@));
    }
    r
}

/// A copy of a list of alternatives.
pub fn clone_alternatives(v: &Vec<Vec<Constraint>>) -> (r: Vec<Vec<Constraint>>)
    ensures
        alternative_views(r@) == alternative_views(v@),
{
    let mut r: Vec<Vec<Constraint>> = Vec::new();
    let mut i: usize = 0;
    while i < v.len()
        invariant
            i <= v.len(),
            alternative_views(r@) == alternative_views(v@).take(i as int),
        decreases v.len() - i,
    {
        let a: Vec<Constraint> = clone_constraints(&v[i]);
        proof {
            lemma_alternative_views_push(r@, a);
            assert(alternative_views(v@).take(i + 1) =~= alternative_views(v@).take(i as int).push(
                constraint_views(v@[i as int]@),
            ));
        }
        r.push(a);
        i += 1;
    }
    proof {
        assert(alternative_views(v@).take(v.len() as int) =~= alternative_views(v@));
    }
    r
}

/// An item on the right-hand side of a grammar rule: a symbol that an edge
/// must carry, whether the item may be left out, whether it may be matched
/// by several edges in a row, and the alternatives of constraints of which
/// one must hold of an edge that matches it.
#[derive(Debug)]
pub struct RuleItem {
    pub symbol: String,
    pub skippable: bool,
    pub repeatable: bool,
    pub constraints: Vec<Vec<Constraint>>,
}

/// Whether a written item ends in one of the marks `*`, `+` and `?`.
pub open spec fn has_mark(s: Seq<char>) -> bool {
    s.len() > 0 && (s.last() == '*' || s.last() == '+' || s.last() == '?')
}

/// The symbol of a written item: the item without its mark.
pub open spec fn item_symbol(s: Seq<char>) -> Seq<char> {
    if has_mark(s) {
        s.drop_last()
    } else {
        s
    }
}

/// Whether a written item may be left out: its mark is `*` or `?`.
pub open spec fn item_skippable(s: Seq<char>) -> bool {
    s.len() > 0 && (s.last() == '*' || s.last() == '?')
}

/// Whether a written item may be repeated: its mark is `*` or `+`.
pub open spec fn item_repeatable(s: Seq<char>) -> bool {
    s.len() > 0 && (s.last() == '*' || s.last() == '+')
}

impl RuleItem {
    /// Every constraint of the item has a term on both sides.
    pub open spec fn wf(&self) -> bool {
        constraints_wf(self.constraints@)
    }

    /// The item written as `s`, with the alternatives `constraints`.
    pub fn parse(s: &str, constraints: Vec<Vec<Constraint>>) -> (item: RuleItem)
        ensures
            item.symbol@ == item_symbol(s@),
            item.skippable == item_skippable(s@),
            item.repeatable == item_repeatable(s@),
            item.constraints == constraints,
    {
        let n: usize = s.unicode_len();
        if n == 0 {
            return RuleItem {
                symbol: s.to_owned(),
                skippable: false,
                repeatable: false,
                constraints,
            };
        }
        let c: char = s.get_char(n - 1);
        if c == '*' || c == '+' || c == '?' {
            let symbol: String = s.substring_char(0, n - 1).to_owned();
            proof {
                assert(s@.subrange(0, n - 1) =~= s@.drop_last());
            }
            RuleItem {
                symbol,
                skippable: c == '*' || c == '?',
                repeatable: c == '*' || c == '+',
                constraints,
            }
        } else {
            RuleItem { symbol: s.to_owned(), skippable: false, repeatable: false, constraints }
        }
    }
}

/// A context-free grammar rule: a symbol and the items that make it up.
#[derive(Debug)]
pub struct Rule {
    pub lhs: String,
    pub rhs: Vec<RuleItem>,
}

impl Rule {
    /// Every constraint of every item has a term on both sides.
    pub open spec fn wf(&self) -> bool {
        forall|i: int| 0 <= i < self.rhs@.len() ==> (#[trigger] self.rhs@[i]).wf()
    }

    /// The rule for `lhs` with the items written in `rhs_ref`; item `i` has
    /// the alternatives `constraints[i]`.
    pub fn new(lhs: &str, rhs_ref: &[&str], constraints: Vec<Vec<Vec<Constraint>>>) -> (r: Rule)
        requires
            constraints.len() >= rhs_ref.len(),
        ensures
            r.lhs@ == lhs@,
            (forall|i: int| 0 <= i < rhs_ref.len() ==> constraints_wf(#[trigger] constraints[i]@))
                ==> r.wf(),
            r.rhs.len() == rhs_ref.len(),
            forall|i: int|
                0 <= i < rhs_ref.len() ==> {
                    &&& (#[trigger] r.rhs[i]).symbol@ == item_symbol(rhs_ref[i]@)
                    &&& r.rhs[i].skippable == item_skippable(rhs_ref[i]@)
                    &&& r.rhs[i].repeatable == item_repeatable(rhs_ref[i]@)
                    &&& alternative_views(r.rhs[i].constraints@) == alternative_views(
                        constraints[i]@,
                    )
                },
    {
        let mut rhs: Vec<RuleItem> = Vec::new();
        let mut i: usize = 0;
        while i < rhs_ref.len()
            invariant
                i <= rhs_ref.len(),
                constraints.len() >= rhs_ref.len(),
                rhs.len() == i,
                forall|k: int|
                    0 <= k < i ==> {
                        &&& (#[trigger] rhs[k]).symbol@ == item_symbol(rhs_ref[k]@)
                        &&& rhs[k].skippable == item_skippable(rhs_ref[k]@)
                        &&& rhs[k].repeatable == item_repeatable(rhs_ref[k]@)
                        &&& alternative_views(rhs[k].constraints@) == alternative_views(
                            constraints[k]@,
                        )
                    },
                (forall|x: int|
                    0 <= x < rhs_ref.len() ==> constraints_wf(#[trigger] constraints[x]@))
                    ==> forall|k: int| 0 <= k < i ==> (#[trigger] rhs[k]).wf(),
            decreases rhs_ref.len() - i,
        {
            let item: RuleItem = RuleItem::parse(rhs_ref[i], clone_alternatives(&constraints[i]));
            proof {
                if constraints_wf(constraints[i as int]@) {
                    lemma_constraints_wf_views(item.constraints@, constraints[i as int]@);
                }
            }
            rhs.push(item);
            i += 1;
        }
        Rule { lhs: lhs.to_owned(), rhs }
    }
}

/// A context-free grammar whose rules carry constraints.
#[derive(Debug)]
pub struct Grammar {
    pub rules: Vec<Rule>,
}

impl Grammar {
    /// Every constraint of every rule has a term on both sides.
    pub open spec fn wf(&self) -> bool {
        forall|i: int| 0 <= i < self.rules@.len() ==> (#[trigger] self.rules@[i]).wf()
    }

    /// The grammar without rules.
    pub fn new() -> (g: Grammar)
        ensures
            g.rules@.len() == 0,
            g.wf(),
    {
        Grammar { rules: Vec::new() }
    }

    /// Adds a rule behind the rules that are there.
    pub fn add_rule(&mut self, rule: Rule)
        ensures
            final(self).rules@ == old(self).rules@.push(rule),
            old(self).wf() && rule.wf() ==> final(self).wf(),
    {
        self.rules.push(rule);
    }
}

} // verus!
