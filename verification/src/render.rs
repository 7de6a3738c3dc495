use vstd::prelude::*;
use vstd::string::*;
use crate::text::{decimal, decimal_string};
use crate::order::{TermView, RuleView};
use crate::rewr::{Term, RewriteRule, RewritingSystem, views, lemma_views_push};
use crate::grammar::{Constraint, RuleItem, Rule};
use crate::chart::{Edge, EdgeView, Chart};
use crate::avm::{Avm, EntryView};

verus! {

/// The first `k` parts in a row, with `sep` between one and the next.
pub open spec fn join(parts: Seq<Seq<char>>, sep: Seq<char>, k: int) -> Seq<char>
    decreases k,
{
    if k <= 0 {
        Seq::empty()
    } else if k == 1 {
        parts[0]
    } else {
        join(parts, sep, k - 1) + sep + parts[k - 1]
    }
}

/// The strings in a row, with `sep` between one and the next.
pub fn join_strings(parts: &Vec<String>, sep: &str) -> (s: String)
    ensures
        s@ == join(views(parts@), sep@, parts@.len() as int),
{
    let mut s: String = String::new();
    let mut k: usize = 0;
    while k < parts.len()
        invariant
            k <= parts.len(),
            s@ == join(views(parts@), sep@, k as int),
        decreases parts.len() - k,
    {
        if k > 0 {
            s.append(sep);
        }
        s.append(parts[k].as_str());
        proof {
            assert(views(parts@)[k as int] == parts@[k as int]@);
            if k == 0 {
                assert(Seq::<char>::empty() + parts@[0]@ =~= parts@[0]@);
            }
        }
        k += 1;
    }
    s
}

/// A whole number in decimal digits, with `-` in front if it is negative.
pub open spec fn int_text(n: int) -> Seq<char> {
    if n < 0 {
        seq!['-'] + decimal((-n) as nat)
    } else {
        decimal(n as nat)
    }
}

/// Writes a whole number in decimal digits.
pub fn int_string(n: i32) -> (s: String)
    ensures
        s@ == int_text(n as int),
{
    if n < 0 {
        let mut s: String = "-".to_owned();
        proof {
            reveal_strlit("-");
            assert("-"@ =~= seq!['-']);
        }
        let m: u32 = (-(n as i64)) as u32;
        s.append(decimal_string(m).as_str());
        s
    } else {
        decimal_string(n as u32)
    }
}

/// A term as text: its head, and behind it, in brackets, its argument if
/// it has one.
pub open spec fn term_text(t: TermView) -> Seq<char>
    decreases t.len(),
{
    if t.len() == 0 {
        Seq::empty()
    } else if t.len() == 1 {
        t[0]
    } else {
        t[0] + seq!['('] + term_text(t.drop_first()) + seq![')']
    }
}

/// A rule as text: the two sides with an arrow between them.
pub open spec fn rule_text(r: RuleView) -> Seq<char> {
    term_text(r.0) + seq![' ', '-', '>', ' '] + term_text(r.1)
}

/// The first `k` rules as text, each on a line.
pub open spec fn system_text(rules: Seq<RuleView>, k: int) -> Seq<char>
    decreases k,
{
    if k <= 0 {
        Seq::empty()
    } else {
        system_text(rules, k - 1) + rule_text(rules[k - 1]) + seq!['\n']
    }
}

/// A constraint as text: the two sides with `=` between them.
pub open spec fn constraint_text(c: RuleView) -> Seq<char> {
    term_text(c.0) + seq![' ', '=', ' '] + term_text(c.1)
}

/// The mark of an item: `*`, `+`, `?` or nothing.
pub open spec fn mark_text(skippable: bool, repeatable: bool) -> Seq<char> {
    if skippable && repeatable {
        seq!['*']
    } else if skippable {
        seq!['?']
    } else if repeatable {
        seq!['+']
    } else {
        Seq::empty()
    }
}

/// An item as text: its symbol and its mark.
pub open spec fn item_text(item: RuleItem) -> Seq<char> {
    item.symbol@ + mark_text(item.skippable, item.repeatable)
}

/// The texts of the items.
pub open spec fn item_texts(items: Seq<RuleItem>) -> Seq<Seq<char>> {
    items.map_values(|i: RuleItem| item_text(i))
}

/// A grammar rule as text: the symbol, an arrow, and the items with blanks
/// between them.
pub open spec fn grammar_rule_text(rule: Rule) -> Seq<char> {
    rule.lhs@ + seq![' ', '-', '>', ' '] + join(
        item_texts(rule.rhs@),
        seq![' '],
        rule.rhs@.len() as int,
    )
}

/// The syntax tree of the edge `id` as text: its label, and behind it, in
/// brackets and with commas between them, the trees of its daughters if it
/// has any.
pub open spec fn tree_text(edges: Seq<EdgeView>, id: int) -> Seq<char>
    decreases id + 1, 0int,
{
    if id < 0 {
        Seq::empty()
    } else if edges[id].children.len() == 0 {
        edges[id].label
    } else {
        edges[id].label + seq!['('] + join(
            tree_texts(edges, edges[id].children, edges[id].children.len() as int, id),
            seq![','],
            edges[id].children.len() as int,
        ) + seq![')']
    }
}

/// The trees of the first `k` of the edges `ids`, which have numbers below
/// `bound`.
pub open spec fn tree_texts(edges: Seq<EdgeView>, ids: Seq<usize>, k: int, bound: int) -> Seq<
    Seq<char>,
>
    decreases bound, k + 1,
{
    if k <= 0 || bound <= 0 {
        Seq::empty()
    } else {
        tree_texts(edges, ids, k - 1, bound).push(
            if ids[k - 1] < bound {
                tree_text(edges, ids[k - 1] as int)
            } else {
                Seq::empty()
            },
        )
    }
}

/// An entry of a feature structure as text: the attributes of its path
/// with dots between them, a colon, and the value.
pub open spec fn entry_text(e: EntryView) -> Seq<char> {
    join(e.0, seq!['.'], e.0.len() as int) + seq![':', ' '] + e.1
}

/// The texts of the entries.
pub open spec fn entry_texts(entries: Seq<EntryView>) -> Seq<Seq<char>> {
    entries.map_values(|e: EntryView| entry_text(e))
}

/// A feature structure as text: its entries in braces, with commas between
/// them.
pub open spec fn avm_text(entries: Seq<EntryView>) -> Seq<char> {
    seq!['{'] + join(entry_texts(entries), seq![',', ' '], entries.len() as int) + seq!['}']
}

/// An edge as text: its span and label, its syntax tree, and its feature
/// structures, one for each theory.
pub open spec fn edge_text(edges: Seq<EdgeView>, id: int, avms: Seq<Seq<char>>) -> Seq<char> {
    seq!['-'] + int_text(edges[id].start) + seq!['-', ' '] + edges[id].label + seq![' ', '-']
        + int_text(edges[id].end) + seq!['-', ' ', '/', ' '] + tree_text(edges, id) + seq![
        ' ',
        '/',
        ' ',
    ] + join(avms, seq![' ', '|', ' '], avms.len() as int)
}

impl Term {
    /// The term from head `i` on as text.
    fn render_from(&self, i: usize) -> (s: String)
        requires
            i < self.heads.len(),
        ensures
            s@ == term_text(self@.skip(i as int)),
        decreases self.heads.len() - i,
    {
        let ghost rest = self@.skip(i as int);
        proof {
            assert(rest[0] == self.heads@[i as int]@);
        }
        let mut s: String = self.heads[i].clone();
        if i + 1 < self.heads.len() {
            let inner: String = self.render_from(i + 1);
            proof {
                reveal_strlit("(");
                reveal_strlit(")");
                assert("("@ =~= seq!['(']);
                assert(")"@ =~= seq![')']);
                assert(rest.drop_first() =~= self@.skip(i + 1));
            }
            s.append("(");
            s.append(inner.as_str());
            s.append(")");
        }
        s
    }

    /// The term as text: `number(x0)` for the head `number` on the
    /// argument `x0`.
    pub fn render(&self) -> (s: String)
        requires
            self.wf(),
        ensures
            s@ == term_text(self@),
    {
        proof {
            assert(self@.skip(0) =~= self@);
        }
        self.render_from(0)
    }
}

impl RewriteRule {
    /// The rule as text: `number(x0) -> @sg`.
    pub fn render(&self) -> (s: String)
        requires
            self.wf(),
        ensures
            s@ == rule_text(self@),
    {
        let mut s: String = self.lhs.render();
        proof {
            reveal_strlit(" -> ");
            assert(" -> "@ =~= seq![' ', '-', '>', ' ']);
        }
        s.append(" -> ");
        s.append(self.rhs.render().as_str());
        s
    }
}

impl RewritingSystem {
    /// The rules as text, each on a line.
    pub fn render(&self) -> (s: String)
        requires
            self.wf(),
        ensures
            s@ == system_text(self@, self@.len() as int),
    {
        let mut s: String = String::new();
        let mut k: usize = 0;
        while k < self.rules.len()
            invariant
                k <= self.rules.len(),
                self.wf(),
                s@ == system_text(self@, k as int),
            decreases self.rules.len() - k,
        {
            proof {
                assert(self@[k as int] == self.rules@[k as int]@);
                assert(crate::reduction::rule_oriented(self@[k as int]));
                reveal_strlit("\n");
                assert("\n"@ =~= seq!['\n']);
            }
            s.append(self.rules[k].render().as_str());
            s.append("\n");
            k += 1;
        }
        s
    }
}

impl Constraint {
    /// The constraint as text: `number(*) = number(.)`.
    pub fn render(&self) -> (s: String)
        requires
            self.wf(),
        ensures
            s@ == constraint_text(self@),
    {
        match self {
            Constraint::Equal(a, b) => {
                let mut s: String = a.render();
                proof {
                    reveal_strlit(" = ");
                    assert(" = "@ =~= seq![' ', '=', ' ']);
                }
                s.append(" = ");
                s.append(b.render().as_str());
                s
            },
        }
    }
}

impl RuleItem {
    /// The item as text: its symbol and its mark.
    pub fn render(&self) -> (s: String)
        ensures
            s@ == item_text(*self),
    {
        let mut s: String = self.symbol.clone();
        proof {
            reveal_strlit("*");
            reveal_strlit("?");
            reveal_strlit("+");
            assert("*"@ =~= seq!['*']);
            assert("?"@ =~= seq!['?']);
            assert("+"@ =~= seq!['+']);
            assert(self.symbol@ + Seq::<char>::empty() =~= self.symbol@);
        }
        if self.skippable && self.repeatable {
            s.append("*");
        } else if self.skippable {
            s.append("?");
        } else if self.repeatable {
            s.append("+");
        }
        s
    }
}

impl Rule {
    /// The rule as text: `NP -> Det? N`.
    pub fn render(&self) -> (s: String)
        ensures
            s@ == grammar_rule_text(*self),
    {
        let mut parts: Vec<String> = Vec::new();
        let mut k: usize = 0;
        proof {
            assert(views(parts@) =~= item_texts(self.rhs@).take(0));
        }
        while k < self.rhs.len()
            invariant
                k <= self.rhs.len(),
                views(parts@) == item_texts(self.rhs@).take(k as int),
            decreases self.rhs.len() - k,
        {
            let part: String = self.rhs[k].render();
            proof {
                lemma_views_push(parts@, part);
                assert(item_texts(self.rhs@).take(k + 1) =~= item_texts(self.rhs@).take(
                    k as int,
                ).push(part@));
            }
            parts.push(part);
            k += 1;
        }
        proof {
            assert(item_texts(self.rhs@).take(self.rhs@.len() as int) =~= item_texts(self.rhs@));
            reveal_strlit(" -> ");
            reveal_strlit(" ");
            assert(" -> "@ =~= seq![' ', '-', '>', ' ']);
            assert(" "@ =~= seq![' ']);
        }
        let mut s: String = self.lhs.clone();
        s.append(" -> ");
        s.append(join_strings(&parts, " ").as_str());
        s
    }
}

impl Avm {
    /// The feature structure as text: `{number: sg, agr.person: 3}`.
    pub fn render(&self) -> (s: String)
        ensures
            s@ == avm_text(self@),
    {
        let mut parts: Vec<String> = Vec::new();
        let mut k: usize = 0;
        proof {
            assert(views(parts@) =~= entry_texts(self@).take(0));
            reveal_strlit(".");
            reveal_strlit(": ");
            reveal_strlit(", ");
            reveal_strlit("{");
            reveal_strlit("}");
            assert("."@ =~= seq!['.']);
            assert(": "@ =~= seq![':', ' ']);
            assert(", "@ =~= seq![',', ' ']);
            assert("{"@ =~= seq!['{']);
            assert("}"@ =~= seq!['}']);
        }
        while k < self.entries.len()
            invariant
                k <= self.entries.len(),
                "."@ == seq!['.'],
                ": "@ == seq![':', ' '],
                views(parts@) == entry_texts(self@).take(k as int),
            decreases self.entries.len() - k,
        {
            let mut part: String = join_strings(&self.entries[k].0, ".");
            part.append(": ");
            part.append(self.entries[k].1.as_str());
            proof {
                assert(self@[k as int] == (
                    views(self.entries@[k as int].0@),
                    self.entries@[k as int].1@,
                ));
                lemma_views_push(parts@, part);
                assert(entry_texts(self@).take(k + 1) =~= entry_texts(self@).take(k as int).push(
                    part@,
                ));
            }
            parts.push(part);
            k += 1;
        }
        proof {
            assert(entry_texts(self@).take(self@.len() as int) =~= entry_texts(self@));
        }
        let mut s: String = "{".to_owned();
        s.append(join_strings(&parts, ", ").as_str());
        s.append("}");
        s
    }
}

/// The views of the feature structures that the theories give to a
/// variable, as texts.
pub open spec fn avm_texts(theories: Seq<Seq<RuleView>>, logvar: Seq<char>) -> Seq<Seq<char>> {
    theories.map_values(
        |t: Seq<RuleView>|
            avm_text(
                crate::avm::avm_of(t, crate::avm::theory_var(t, logvar), t.len() as int),
            ),
    )
}

impl Chart {
    /// The syntax tree of the edge `id` as text: `S(NP(Det,N),VP)`.
    pub fn tree(&self, id: usize) -> (s: String)
        requires
            self.wf(),
            id < self@.len(),
        ensures
            s@ == tree_text(self@, id as int),
        decreases id,
    {
        let edge: &Edge = &self.edges[id];
        proof {
            assert(self@[id as int] == edge@);
            assert(edge.placed(id as int));
        }
        let mut s: String = edge.label.clone();
        let n: usize = edge.children.len();
        if n > 0 {
            let mut parts: Vec<String> = Vec::new();
            let mut k: usize = 0;
            proof {
                assert(edge.children@[0] < id);
                assert(views(parts@) =~= tree_texts(self@, edge.children@, 0, id as int));
            }
            while k < n
                invariant
                    k <= n,
                    n == edge.children@.len(),
                    0 < id < self@.len(),
                    parts@.len() == k,
                    self.wf(),
                    edge.placed(id as int),
                    views(parts@) == tree_texts(self@, edge.children@, k as int, id as int),
                decreases n - k,
            {
                proof {
                    assert(edge.children@[k as int] < id);
                }
                let part: String = self.tree(edge.children[k]);
                proof {
                    lemma_views_push(parts@, part);
                }
                parts.push(part);
                k += 1;
            }
            proof {
                reveal_strlit("(");
                reveal_strlit(")");
                reveal_strlit(",");
                assert("("@ =~= seq!['(']);
                assert(")"@ =~= seq![')']);
                assert(","@ =~= seq![',']);
            }
            s.append("(");
            s.append(join_strings(&parts, ",").as_str());
            s.append(")");
        }
        s
    }

    /// The edge `id` as text: its span and label, its syntax tree, and the
    /// feature structures that its theories give to its variable.
    pub fn render_edge(&self, id: usize) -> (s: String)
        requires
            self.wf(),
            id < self@.len(),
        ensures
            s@ == edge_text(
                self@,
                id as int,
                avm_texts(self@[id as int].theories, self@[id as int].logvar),
            ),
    {
        let edge: &Edge = &self.edges[id];
        proof {
            assert(self@[id as int] == edge@);
            assert(edge.placed(id as int));
        }
        let ghost target = avm_texts(edge@.theories, edge@.logvar);
        let mut parts: Vec<String> = Vec::new();
        let mut k: usize = 0;
        proof {
            assert(views(parts@) =~= target.take(0));
        }
        while k < edge.theories.len()
            invariant
                k <= edge.theories.len(),
                crate::chart::theories_wf(edge.theories@),
                target == avm_texts(edge@.theories, edge@.logvar),
                views(parts@) == target.take(k as int),
            decreases edge.theories.len() - k,
        {
            proof {
                assert(edge.theories@[k as int].wf());
                assert(edge@.theories[k as int] == edge.theories@[k as int]@);
            }
            let avm: Avm = Avm::from_theory(&edge.theories[k], edge.logvar.as_str());
            let part: String = avm.render();
            proof {
                lemma_views_push(parts@, part);
                assert(target.take(k + 1) =~= target.take(k as int).push(part@));
            }
            parts.push(part);
            k += 1;
        }
        proof {
            assert(target.take(edge.theories@.len() as int) =~= target);
            reveal_strlit("-");
            reveal_strlit("- ");
            reveal_strlit(" -");
            reveal_strlit("- / ");
            reveal_strlit(" / ");
            reveal_strlit(" | ");
            assert("-"@ =~= seq!['-']);
            assert("- "@ =~= seq!['-', ' ']);
            assert(" -"@ =~= seq![' ', '-']);
            assert("- / "@ =~= seq!['-', ' ', '/', ' ']);
            assert(" / "@ =~= seq![' ', '/', ' ']);
            assert(" | "@ =~= seq![' ', '|', ' ']);
        }
        let mut s: String = "-".to_owned();
        s.append(int_string(edge.start).as_str());
        s.append("- ");
        s.append(edge.label.as_str());
        s.append(" -");
        s.append(int_string(edge.end).as_str());
        s.append("- / ");
        s.append(self.tree(id).as_str());
        s.append(" / ");
        s.append(join_strings(&parts, " | ").as_str());
        s
    }
}

} // verus!
