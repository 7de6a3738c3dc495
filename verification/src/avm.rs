use vstd::prelude::*;
use vstd::string::*;
use crate::order::RuleView;
use crate::reduction::{nf, lemma_nf_irreducible};
use crate::rewr::{Term, RewritingSystem, views, lemma_views_push, clone_strings, is_marked};
use crate::grammar::atom;

verus! {

/// The mathematical model of an entry of a feature structure: the path of
/// attributes from the outside in, and the value at its end.
pub type EntryView = (Seq<Seq<char>>, Seq<char>);

/// The views of a list of entries.
pub open spec fn entry_views(v: Seq<(Vec<String>, String)>) -> Seq<EntryView> {
    v.map_values(|e: (Vec<String>, String)| (views(e.0@), e.1@))
}

/// The views of a list with one more entry.
pub proof fn lemma_entry_views_push(v: Seq<(Vec<String>, String)>, e: (Vec<String>, String))
    ensures
        entry_views(v.push(e)) == entry_views(v).push((views(e.0@), e.1@)),
{
    assert(entry_views(v.push(e)) =~= entry_views(v).push((views(e.0@), e.1@)));
}

/// An attribute-value matrix: the feature structure that a theory gives to
/// a variable, as a list of entries. Each entry holds a path of attributes
/// and the value that stands at the end of the path.
#[derive(Debug)]
pub struct Avm {
    pub entries: Vec<(Vec<String>, String)>,
}

impl View for Avm {
    type V = Seq<EntryView>;

    open spec fn view(&self) -> Seq<EntryView> {
        entry_views(self.entries@)
    }
}

/// `a` is the beginning of `b`.
pub open spec fn is_prefix_of(a: Seq<Seq<char>>, b: Seq<Seq<char>>) -> bool {
    a.len() <= b.len() && b.take(a.len() as int) == a
}

/// One of the first `k` entries has a value where `path` only passes
/// through: its path is the beginning of `path` and shorter.
pub open spec fn shadowed(entries: Seq<EntryView>, path: Seq<Seq<char>>, k: int) -> bool {
    exists|i: int|
        0 <= i < k && is_prefix_of((#[trigger] entries[i]).0, path) && entries[i].0.len()
            < path.len()
}

/// The first `k` entries without those at or below `path`.
pub open spec fn without(entries: Seq<EntryView>, path: Seq<Seq<char>>, k: int) -> Seq<EntryView>
    decreases k,
{
    if k <= 0 {
        Seq::empty()
    } else if is_prefix_of(path, entries[k - 1].0) {
        without(entries, path, k - 1)
    } else {
        without(entries, path, k - 1).push(entries[k - 1])
    }
}

/// The entries after `value` has been set at `path`. Where an entry has a
/// value on the way to `path`, nothing changes: below a value there is no
/// structure. Otherwise the new entry takes the place of what was at or
/// below `path`.
pub open spec fn avm_set(entries: Seq<EntryView>, path: Seq<Seq<char>>, value: Seq<char>) -> Seq<
    EntryView,
> {
    if shadowed(entries, path, entries.len() as int) {
        entries
    } else {
        without(entries, path, entries.len() as int).push((path, value))
    }
}

/// The entry that a rule gives to the variable `var`, if it gives one. The
/// left-hand side must be a path of attributes around `var`, and the
/// outermost head of the right-hand side a constant. The path of the entry
/// runs from `var` outwards, and its value is the constant without its
/// mark `@`.
pub open spec fn rule_entry(rule: RuleView, var: Seq<char>) -> Option<EntryView> {
    if rule.0.len() >= 2 && rule.0.last() == var && rule.1.len() >= 1 && rule.1[0].len() > 0
        && rule.1[0][0] == '@' {
        Some((rule.0.drop_last().reverse(), rule.1[0].drop_first()))
    } else {
        None
    }
}

/// The entries that the first `k` rules give to `var`, set one after the
/// other.
pub open spec fn avm_of(rules: Seq<RuleView>, var: Seq<char>, k: int) -> Seq<EntryView>
    decreases k,
{
    if k <= 0 {
        Seq::empty()
    } else {
        match rule_entry(rules[k - 1], var) {
            Some(e) => avm_set(avm_of(rules, var, k - 1), e.0, e.1),
            None => avm_of(rules, var, k - 1),
        }
    }
}

/// The name under which a theory knows the variable `logvar`: the head of
/// its normal form.
pub open spec fn theory_var(rules: Seq<RuleView>, logvar: Seq<char>) -> Seq<char> {
    nf(rules, seq![logvar])[0]
}

/// No path is the beginning of the path of another entry: where there is a
/// value, there is nothing below it.
pub open spec fn prefix_free(entries: Seq<EntryView>) -> bool {
    forall|i: int, j: int|
        0 <= i < entries.len() && 0 <= j < entries.len() && i != j ==> !is_prefix_of(
            (#[trigger] entries[i]).0,
            (#[trigger] entries[j]).0,
        )
}

/// What is left by `without` was there, and is not at or below the path.
pub proof fn lemma_without(entries: Seq<EntryView>, path: Seq<Seq<char>>, k: int)
    requires
        0 <= k <= entries.len(),
    ensures
        forall|a: int|
            0 <= a < without(entries, path, k).len() ==> !is_prefix_of(
                path,
                (#[trigger] without(entries, path, k)[a]).0,
            ) && exists|i: int| 0 <= i < k && #[trigger] entries[i] == without(entries, path, k)[a],
    decreases k,
{
    if k > 0 {
        lemma_without(entries, path, k - 1);
        let before = without(entries, path, k - 1);
        let now = without(entries, path, k);
        assert forall|a: int| 0 <= a < now.len() implies !is_prefix_of(path, (#[trigger] now[a]).0)
            && exists|i: int| 0 <= i < k && #[trigger] entries[i] == now[a] by {
            if a < before.len() {
                assert(now[a] == before[a]);
                let i = choose|i: int| 0 <= i < k - 1 && #[trigger] entries[i] == before[a];
                assert(entries[i] == now[a]);
            } else {
                assert(entries[k - 1] == now[a]);
            }
        }
    }
}

/// What is left by `without` of entries without a path that begins
/// another is without such a path.
pub proof fn lemma_without_prefix_free(entries: Seq<EntryView>, path: Seq<Seq<char>>, k: int)
    requires
        0 <= k <= entries.len(),
        prefix_free(entries),
    ensures
        prefix_free(without(entries, path, k)),
    decreases k,
{
    if k > 0 {
        lemma_without_prefix_free(entries, path, k - 1);
        lemma_without(entries, path, k - 1);
        let before = without(entries, path, k - 1);
        let now = without(entries, path, k);
        assert forall|i: int, j: int|
            0 <= i < now.len() && 0 <= j < now.len() && i != j implies !is_prefix_of(
            (#[trigger] now[i]).0,
            (#[trigger] now[j]).0,
        ) by {
            if i < before.len() && j < before.len() {
                assert(now[i] == before[i]);
                assert(now[j] == before[j]);
            } else if i < before.len() {
                assert(now[i] == before[i]);
                let x = choose|x: int| 0 <= x < k - 1 && #[trigger] entries[x] == before[i];
                assert(now[j] == entries[k - 1]);
                assert(!is_prefix_of(entries[x].0, entries[k - 1].0));
            } else {
                assert(now[j] == before[j]);
                let x = choose|x: int| 0 <= x < k - 1 && #[trigger] entries[x] == before[j];
                assert(now[i] == entries[k - 1]);
                assert(!is_prefix_of(entries[k - 1].0, entries[x].0));
            }
        }
    }
}

/// Setting a value keeps the entries without a path that begins another.
pub proof fn lemma_set_prefix_free(entries: Seq<EntryView>, path: Seq<Seq<char>>, value: Seq<char>)
    requires
        prefix_free(entries),
    ensures
        prefix_free(avm_set(entries, path, value)),
{
    let n = entries.len() as int;
    if !shadowed(entries, path, n) {
        let kept = without(entries, path, n);
        let now = kept.push((path, value));
        lemma_without_prefix_free(entries, path, n);
        lemma_without(entries, path, n);
        assert forall|i: int, j: int|
            0 <= i < now.len() && 0 <= j < now.len() && i != j implies !is_prefix_of(
            (#[trigger] now[i]).0,
            (#[trigger] now[j]).0,
        ) by {
            if i < kept.len() && j < kept.len() {
                assert(now[i] == kept[i]);
                assert(now[j] == kept[j]);
            } else if i < kept.len() {
                assert(now[i] == kept[i]);
                let x = choose|x: int| 0 <= x < n && #[trigger] entries[x] == kept[i];
                if is_prefix_of(kept[i].0, path) {
                    if kept[i].0.len() == path.len() {
                        assert(path.take(path.len() as int) =~= path);
                        assert(kept[i].0.take(path.len() as int) =~= kept[i].0);
                        assert(is_prefix_of(path, kept[i].0));
                    } else {
                        assert(shadowed(entries, path, n));
                    }
                }
            } else {
                assert(now[j] == kept[j]);
            }
        }
    }
}

/// The entries of a theory are without a path that begins another.
pub proof fn lemma_avm_of_prefix_free(rules: Seq<RuleView>, var: Seq<char>, k: int)
    ensures
        prefix_free(avm_of(rules, var, k)),
    decreases k,
{
    if k > 0 {
        lemma_avm_of_prefix_free(rules, var, k - 1);
        match rule_entry(rules[k - 1], var) {
            Some(e) => {
                lemma_set_prefix_free(avm_of(rules, var, k - 1), e.0, e.1);
            },
            None => {},
        }
    }
}

/// Whether `prefix` is the beginning of `path`.
pub fn starts_with(path: &Vec<String>, prefix: &Vec<String>) -> (r: bool)
    ensures
        r == is_prefix_of(views(prefix@), views(path@)),
{
    if prefix.len() > path.len() {
        return false;
    }
    let mut i: usize = 0;
    while i < prefix.len()
        invariant
            i <= prefix.len(),
            prefix.len() <= path.len(),
            forall|x: int| 0 <= x < i ==> views(path@)[x] == views(prefix@)[x],
        decreases prefix.len() - i,
    {
        if path[i] != prefix[i] {
            proof {
                assert(views(path@).take(prefix@.len() as int)[i as int] == views(path@)[i as int]);
            }
            return false;
        }
        i += 1;
    }
    proof {
        assert(views(path@).take(prefix@.len() as int) =~= views(prefix@));
    }
    true
}

impl Avm {
    /// No path is the beginning of the path of another entry.
    pub open spec fn wf(&self) -> bool {
        prefix_free(self@)
    }

    /// The matrix without entries.
    pub fn new() -> (avm: Avm)
        ensures
            avm@ == Seq::<EntryView>::empty(),
            avm.wf(),
    {
        let avm = Avm { entries: Vec::new() };
        proof {
            assert(avm@ =~= Seq::<EntryView>::empty());
        }
        avm
    }

    /// Sets `value` at `path`: see `avm_set`.
    pub fn set(&mut self, path: Vec<String>, value: String)
        ensures
            final(self)@ == avm_set(old(self)@, views(path@), value@),
            old(self).wf() ==> final(self).wf(),
    {
        let ghost before = self@;
        let ghost pv = views(path@);
        proof {
            if prefix_free(before) {
                lemma_set_prefix_free(before, pv, value@);
            }
        }
        let mut i: usize = 0;
        while i < self.entries.len()
            invariant
                i <= self.entries.len(),
                self@ == before,
                pv == views(path@),
                !shadowed(before, pv, i as int),
            decreases self.entries.len() - i,
        {
            proof {
                assert(before[i as int] == (
                    views(self.entries@[i as int].0@),
                    self.entries@[i as int].1@,
                ));
            }
            if self.entries[i].0.len() < path.len() && starts_with(&path, &self.entries[i].0) {
                proof {
                    assert(shadowed(before, pv, before.len() as int));
                }
                return ;
            }
            i += 1;
        }
        let mut kept: Vec<(Vec<String>, String)> = Vec::new();
        let mut k: usize = 0;
        proof {
            assert(entry_views(kept@) =~= without(before, pv, 0));
        }
        while k < self.entries.len()
            invariant
                k <= self.entries.len(),
                self@ == before,
                pv == views(path@),
                entry_views(kept@) == without(before, pv, k as int),
            decreases self.entries.len() - k,
        {
            proof {
                assert(before[k as int] == (
                    views(self.entries@[k as int].0@),
                    self.entries@[k as int].1@,
                ));
            }
            if !starts_with(&self.entries[k].0, &path) {
                let entry: (Vec<String>, String) = (
                    clone_strings(&self.entries[k].0),
                    self.entries[k].1.clone(),
                );
                proof {
                    lemma_entry_views_push(kept@, entry);
                }
                kept.push(entry);
            }
            k += 1;
        }
        proof {
            lemma_entry_views_push(kept@, (path, value));
        }
        kept.push((path, value));
        self.entries = kept;
    }

    /// The feature structure that the theory `rs` gives to the variable
    /// `logvar`: the entries of its rules, set in the order of the rules.
    pub fn from_theory(rs: &RewritingSystem, logvar: &str) -> (avm: Avm)
        requires
            rs.wf(),
        ensures
            avm@ == avm_of(rs@, theory_var(rs@, logvar@), rs@.len() as int),
            avm.wf(),
    {
        let name: String = logvar.to_owned();
        let normal: Term = rs.norm(&atom(&name));
        proof {
            lemma_nf_irreducible(rs@, seq![logvar@]);
        }
        let var: String = normal.head().to_owned();
        let ghost v = theory_var(rs@, logvar@);
        let mut avm: Avm = Avm::new();
        let mut k: usize = 0;
        proof {
            lemma_avm_of_prefix_free(rs@, v, rs@.len() as int);
        }
        while k < rs.rules.len()
            invariant
                k <= rs.rules.len(),
                var@ == v,
                avm@ == avm_of(rs@, v, k as int),
            decreases rs.rules.len() - k,
        {
            let rule = &rs.rules[k];
            proof {
                assert(rs@[k as int] == rule@);
            }
            let n: usize = rule.lhs.heads.len();
            if n >= 2 && rule.lhs.heads[n - 1] == var && rule.rhs.heads.len() >= 1 && is_marked(
                rule.rhs.heads[0].as_str(),
            ) {
                let mut path: Vec<String> = Vec::new();
                let mut i: usize = n - 1;
                proof {
                    assert(views(path@) =~= rule.lhs@.drop_last().reverse().take(0));
                }
                while i > 0
                    invariant
                        i <= n - 1,
                        n == rule.lhs.heads.len(),
                        n == rule.lhs@.len(),
                        views(path@) == rule.lhs@.drop_last().reverse().take(n - 1 - i),
                    decreases i,
                {
                    i -= 1;
                    let ghost prev = path@;
                    proof {
                        lemma_views_push(prev, rule.lhs.heads@[i as int]);
                        let whole = rule.lhs@.drop_last().reverse();
                        assert(whole[n - 2 - i] == rule.lhs@[i as int]);
                        assert(whole.take(n - 1 - i) =~= whole.take(n - 2 - i).push(
                            rule.lhs@[i as int],
                        ));
                    }
                    path.push(rule.lhs.heads[i].clone());
                }
                proof {
                    let whole = rule.lhs@.drop_last().reverse();
                    assert(whole.take(n - 1) =~= whole);
                }
                let head: &str = rule.rhs.heads[0].as_str();
                let len: usize = head.unicode_len();
                let value: String = head.substring_char(1, len).to_owned();
                proof {
                    assert(head@.subrange(1, len as int) =~= head@.drop_first());
                }
                avm.set(path, value);
            }
            k += 1;
        }
        avm
    }
}

} // verus!
