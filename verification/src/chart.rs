use vstd::prelude::*;
use vstd::string::*;
use crate::text::{str_lt, str_less, lemma_str_lt_total, lemma_str_lt_transitive};
use crate::order::{RuleView, orient};
use crate::completion::add_rule_spec;
use crate::rewr::RewritingSystem;
use crate::grammar::{Constraint, RuleItem, constraint_views, alternative_views, subst_constraint,
    pair_views, lemma_subst_term_len, constraints_wf};

verus! {

/// A chart edge: a labelled span between two positions, with the variable
/// that stands for its features, the theories of which one holds of them,
/// its depth in the derivation, and the edges it was made from. The
/// daughters are named by their numbers in the chart.
#[derive(Debug)]
pub struct Edge {
    pub start: i32,
    pub end: i32,
    pub label: String,
    pub logvar: String,
    pub theories: Vec<RewritingSystem>,
    pub level: i32,
    pub children: Vec<usize>,
}

/// The mathematical model of an edge.
pub struct EdgeView {
    pub start: int,
    pub end: int,
    pub label: Seq<char>,
    pub logvar: Seq<char>,
    pub theories: Seq<Seq<RuleView>>,
    pub level: int,
    pub children: Seq<usize>,
}

impl View for Edge {
    type V = EdgeView;

    open spec fn view(&self) -> EdgeView {
        EdgeView {
            start: self.start as int,
            end: self.end as int,
            label: self.label@,
            logvar: self.logvar@,
            theories: theory_views(self.theories@),
            level: self.level as int,
            children: self.children@,
        }
    }
}

/// The views of a list of edges.
pub open spec fn edge_views(v: Seq<Edge>) -> Seq<EdgeView> {
    v.map_values(|e: Edge| e@)
}

/// The views of a list with one more edge.
pub proof fn lemma_edge_views_push(v: Seq<Edge>, e: Edge)
    ensures
        edge_views(v.push(e)) == edge_views(v).push(e@),
{
    assert(edge_views(v.push(e)) =~= edge_views(v).push(e@));
}

/// The views of a list of theories.
pub open spec fn theory_views(v: Seq<RewritingSystem>) -> Seq<Seq<RuleView>> {
    v.map_values(|t: RewritingSystem| t@)
}

/// The views of a list with one more theory.
pub proof fn lemma_theory_views_push(v: Seq<RewritingSystem>, t: RewritingSystem)
    ensures
        theory_views(v.push(t)) == theory_views(v).push(t@),
{
    assert(theory_views(v.push(t)) =~= theory_views(v).push(t@));
}

/// Every theory is a set of oriented rules.
pub open spec fn theories_wf(v: Seq<RewritingSystem>) -> bool {
    forall|i: int| 0 <= i < v.len() ==> (#[trigger] v[i]).wf()
}

/// Every theory is consistent: each term has one normal form in it.
pub open spec fn theories_consistent(v: Seq<Seq<RuleView>>) -> bool {
    forall|i: int| 0 <= i < v.len() ==> crate::confluence::consistent(#[trigger] v[i])
}

/// The substitution that puts the variable of a lexical edge in the place
/// of the marker `*`.
pub open spec fn leaf_subst(logvar: Seq<char>) -> Seq<(Seq<char>, Seq<char>)> {
    seq![(seq!['*'], logvar)]
}

/// The theory of the first `k` constraints of `cs` under the substitution
/// `pairs`: they are added one after the other to the empty system. A
/// constraint that is rejected leaves the rules that its completion had
/// added, and the next one is added to them.
pub open spec fn theory_of(pairs: Seq<(Seq<char>, Seq<char>)>, cs: Seq<RuleView>, k: int) -> Seq<
    RuleView,
>
    decreases k,
{
    if k <= 0 {
        Seq::empty()
    } else {
        let c = subst_constraint(pairs, cs[k - 1]);
        add_rule_spec(theory_of(pairs, cs, k - 1), orient(c.0, c.1)).0
    }
}

/// The theories of a lexical edge with the variable `logvar`: one for each
/// alternative of constraints.
pub open spec fn leaf_theories(logvar: Seq<char>, alts: Seq<Seq<RuleView>>) -> Seq<Seq<RuleView>> {
    alts.map_values(|cs: Seq<RuleView>| theory_of(leaf_subst(logvar), cs, cs.len() as int))
}

/// A copy of a list of numbers.
pub fn copy_ids(v: &Vec<usize>) -> (r: Vec<usize>)
    ensures
        r@ == v@,
{
    let mut r: Vec<usize> = Vec::new();
    let mut i: usize = 0;
    while i < v.len()
        invariant
            i <= v.len(),
            r@ == v@.take(i as int),
        decreases v.len() - i,
    {
        r.push(v[i]);
        proof {
            assert(r@ =~= v@.take(i + 1));
        }
        i += 1;
    }
    proof {
        assert(v@.take(v.len() as int) =~= v@);
    }
    r
}

impl Edge {
    /// A lexical edge: it is at level 0 and has no daughters. Each
    /// alternative of `constraints` gives one theory, in which the marker
    /// `*` stands for `logvar`.
    pub fn new(start: i32, end: i32, label: &str, logvar: &str, constraints: Vec<Vec<Constraint>>) -> (e:
        Edge)
        requires
            constraints_wf(constraints@),
        ensures
            e.start == start,
            e.end == end,
            e.label@ == label@,
            e.logvar@ == logvar@,
            e.level == 0,
            e.children@.len() == 0,
            theories_wf(e.theories@),
            theory_views(e.theories@) == leaf_theories(logvar@, alternative_views(constraints@)),
    {
        let ghost alts = alternative_views(constraints@);
        let ghost pairs = leaf_subst(logvar@);
        let mut theories: Vec<RewritingSystem> = Vec::new();
        let mut i: usize = 0;
        while i < constraints.len()
            invariant
                i <= constraints.len(),
                constraints_wf(constraints@),
                alts == alternative_views(constraints@),
                pairs == leaf_subst(logvar@),
                theories_wf(theories@),
                theory_views(theories@) == leaf_theories(logvar@, alts).take(i as int),
            decreases constraints.len() - i,
        {
            let ghost cs = constraint_views(constraints@[i as int]@);
            let mut rs: RewritingSystem = RewritingSystem::new();
            let mut j: usize = 0;
            while j < constraints[i].len()
                invariant
                    i < constraints.len(),
                    j <= constraints[i as int].len(),
                    constraints_wf(constraints@),
                    cs == constraint_views(constraints@[i as int]@),
                    pairs == leaf_subst(logvar@),
                    rs.wf(),
                    rs@ == theory_of(pairs, cs, j as int),
                decreases constraints[i as int].len() - j,
            {
                let mut substs: Vec<(String, String)> = Vec::new();
                substs.push(("*".to_owned(), logvar.to_owned()));
                proof {
                    reveal_strlit("*");
                    assert("*"@ =~= seq!['*']);
                    assert(pair_views(substs@) =~= pairs);
                    assert(constraints@[i as int]@[j as int].wf());
                    assert(cs[j as int] == constraints@[i as int]@[j as int]@);
                    lemma_subst_term_len(pairs, cs[j as int].0);
                    lemma_subst_term_len(pairs, cs[j as int].1);
                }
                let c: Constraint = constraints[i][j].clone_with_subst(substs);
                let _ = rs.add_rule(c.rule());
                j += 1;
            }
            let ghost prev = theories@;
            proof {
                lemma_theory_views_push(prev, rs);
                assert(leaf_theories(logvar@, alts).take(i + 1) =~= leaf_theories(
                    logvar@,
                    alts,
                ).take(i as int).push(rs@));
            }
            theories.push(rs);
            i += 1;
        }
        proof {
            assert(leaf_theories(logvar@, alts).take(constraints.len() as int) =~= leaf_theories(
                logvar@,
                alts,
            ));
        }
        Edge::new_with_children(start, end, label, logvar, theories, 0, Vec::new())
    }

    /// An edge with the given theories, level and daughters.
    pub fn new_with_children(
        start: i32,
        end: i32,
        label: &str,
        logvar: &str,
        theories: Vec<RewritingSystem>,
        level: i32,
        children: Vec<usize>,
    ) -> (e: Edge)
        ensures
            e.start == start,
            e.end == end,
            e.label@ == label@,
            e.logvar@ == logvar@,
            e.theories == theories,
            e.level == level,
            e.children == children,
    {
        Edge {
            start,
            end,
            label: label.to_owned(),
            logvar: logvar.to_owned(),
            theories,
            level,
            children,
        }
    }

    /// What the chart asks of its edge number `id`: it ends behind its
    /// start, its level is not negative, its daughters have smaller
    /// numbers, and its theories are sets of oriented rules.
    pub open spec fn placed(&self, id: int) -> bool {
        &&& self.start < self.end
        &&& self.level >= 0
        &&& forall|k: int| 0 <= k < self.children@.len() ==> (#[trigger] self.children@[k]) < id
        &&& theories_wf(self.theories@)
    }
}

/// The order in which edges are listed: by start, then the longer first,
/// then the higher level first, then by label.
pub open spec fn edge_key_lt(a: EdgeView, b: EdgeView) -> bool {
    a.start < b.start || (a.start == b.start && (a.end > b.end || (a.end == b.end && (a.level
        > b.level || (a.level == b.level && str_lt(a.label, b.label))))))
}

/// Whether `a` comes before `b` in the order in which edges are listed.
pub fn key_less(a: &Edge, b: &Edge) -> (r: bool)
    ensures
        r == edge_key_lt(a@, b@),
{
    if a.start != b.start {
        a.start < b.start
    } else if a.end != b.end {
        a.end > b.end
    } else if a.level != b.level {
        a.level > b.level
    } else {
        str_less(a.label.as_str(), b.label.as_str())
    }
}

/// An edge that comes before one that comes before a third, or does not
/// come behind it, comes before the third.
pub proof fn lemma_key_order(a: EdgeView, b: EdgeView, c: EdgeView)
    requires
        edge_key_lt(a, b),
        edge_key_lt(b, c) || !edge_key_lt(c, b),
    ensures
        edge_key_lt(a, c),
{
    if a.start == b.start && b.start == c.start && a.end == b.end && b.end == c.end && a.level
        == b.level && b.level == c.level {
        lemma_str_lt_total(b.label, c.label);
        if str_lt(b.label, c.label) {
            lemma_str_lt_transitive(a.label, b.label, c.label);
        }
    }
}

/// Edge `i` is listed before edge `j`: it comes first in the order of
/// edges, or neither comes first and `i` was added earlier.
pub open spec fn listed_before(edges: Seq<EdgeView>, i: usize, j: usize) -> bool {
    edge_key_lt(edges[i as int], edges[j as int]) || (!edge_key_lt(
        edges[j as int],
        edges[i as int],
    ) && i < j)
}

/// A path through the chart that matches a pattern: the numbers of its
/// edges, and for each edge the position in the pattern of the item that it
/// matches.
#[derive(Debug)]
pub struct Path {
    pub edges: Vec<usize>,
    pub items: Vec<usize>,
}

/// The mathematical model of a path: edge numbers and item positions.
pub type PathView = (Seq<usize>, Seq<usize>);

impl View for Path {
    type V = PathView;

    open spec fn view(&self) -> PathView {
        (self.edges@, self.items@)
    }
}

/// The views of a list of paths.
pub open spec fn path_views(v: Seq<Path>) -> Seq<PathView> {
    v.map_values(|p: Path| p@)
}

/// The views of a list with one more path.
pub proof fn lemma_path_views_push(v: Seq<Path>, p: Path)
    ensures
        path_views(v.push(p)) == path_views(v).push(p@),
{
    assert(path_views(v.push(p)) =~= path_views(v).push(p@));
}

/// Every edge ends behind its start, at a position that a machine integer
/// holds.
pub open spec fn forward(edges: Seq<EdgeView>) -> bool {
    forall|i: int|
        0 <= i < edges.len() ==> (#[trigger] edges[i]).start < edges[i].end <= 0x7fff_ffff
}

/// Edge `e` can stand at position `pos` for item `idx` of the pattern.
pub open spec fn edge_fits(edges: Seq<EdgeView>, pattern: Seq<RuleItem>, e: int, pos: int, idx: int) -> bool {
    edges[e].start == pos && edges[e].label == pattern[idx].symbol@
}

/// The paths that continue `stack` from position `pos` and match the
/// pattern from item `idx` on, in the order in which they are found.
/// `can_skip` says whether item `idx` may be left out here: it may not
/// right after an edge that matched it.
///
/// An item that may be left out is first left out. Then each edge at `pos`
/// with the symbol of the item is taken in turn: first with the next item
/// behind it, then, where the item may be repeated, with the same item
/// behind it. Where the pattern is at its end, `stack` is one path if it
/// holds an edge.
pub open spec fn paths_from(
    edges: Seq<EdgeView>,
    pattern: Seq<RuleItem>,
    pos: int,
    idx: int,
    can_skip: bool,
    stack: PathView,
) -> Seq<PathView>
    decreases 0x7fff_ffff - pos, pattern.len() - idx, 1int, 0int,
    when forward(edges) && 0 <= idx
{
    if idx >= pattern.len() {
        if stack.0.len() > 0 {
            seq![stack]
        } else {
            Seq::empty()
        }
    } else {
        (if can_skip && pattern[idx].skippable {
            paths_from(edges, pattern, pos, idx + 1, true, stack)
        } else {
            Seq::empty()
        }) + paths_scan(edges, pattern, pos, idx, stack, 0)
    }
}

/// The paths of `paths_from` that take one of the edges from number `e` on
/// for item `idx`.
pub open spec fn paths_scan(
    edges: Seq<EdgeView>,
    pattern: Seq<RuleItem>,
    pos: int,
    idx: int,
    stack: PathView,
    e: int,
) -> Seq<PathView>
    decreases 0x7fff_ffff - pos, pattern.len() - idx, 0int, edges.len() - e,
    when forward(edges) && 0 <= idx < pattern.len() && 0 <= e
{
    if e >= edges.len() {
        Seq::empty()
    } else {
        (if edge_fits(edges, pattern, e, pos, idx) {
            let next = (stack.0.push(e as usize), stack.1.push(idx as usize));
            paths_from(edges, pattern, edges[e].end, idx + 1, true, next) + (if pattern[idx].repeatable {
                paths_from(edges, pattern, edges[e].end, idx, false, next)
            } else {
                Seq::empty()
            })
        } else {
            Seq::empty()
        }) + paths_scan(edges, pattern, pos, idx, stack, e + 1)
    }
}

/// Edge `id` is the first edge that starts where it starts.
pub open spec fn first_at_start(edges: Seq<EdgeView>, id: int) -> bool {
    forall|j: int| 0 <= j < id ==> (#[trigger] edges[j]).start != edges[id].start
}

/// The paths that match the pattern and start where one of the first `k`
/// edges starts. Each start position is taken once, where the first edge
/// that starts there stands.
pub open spec fn paths_upto(edges: Seq<EdgeView>, pattern: Seq<RuleItem>, k: int) -> Seq<PathView>
    decreases k,
{
    if k <= 0 {
        Seq::empty()
    } else {
        paths_upto(edges, pattern, k - 1) + (if first_at_start(edges, k - 1) {
            paths_from(
                edges,
                pattern,
                edges[k - 1].start,
                0,
                true,
                (Seq::empty(), Seq::empty()),
            )
        } else {
            Seq::empty()
        })
    }
}

/// All paths through the chart that match the pattern.
pub open spec fn all_paths(edges: Seq<EdgeView>, pattern: Seq<RuleItem>) -> Seq<PathView> {
    paths_upto(edges, pattern, edges.len() as int)
}

/// A chart: the edges of a parse, each with a number, in the order in which
/// they were added. The edges that start at one position are its edges with
/// that start, in this order. No edge is ever taken out.
///
/// Beside each edge the chart holds a flag that says whether a derivation
/// has used the edge. A flag that is set stays set.
#[derive(Debug)]
pub struct Chart {
    pub edges: Vec<Edge>,
    pub used: Vec<bool>,
}

impl View for Chart {
    type V = Seq<EdgeView>;

    open spec fn view(&self) -> Seq<EdgeView> {
        edge_views(self.edges@)
    }
}

/// The flags of `before` are there in `after`, and those that were set are
/// set.
pub open spec fn flags_kept(before: Seq<bool>, after: Seq<bool>) -> bool {
    before.len() <= after.len() && forall|i: int| 0 <= i < before.len() && before[i] ==> after[i]
}

impl Chart {
    /// Every edge is placed and has its flag.
    pub open spec fn wf(&self) -> bool {
        &&& self.used@.len() == self.edges@.len()
        &&& forall|i: int| 0 <= i < self.edges@.len() ==> (#[trigger] self.edges@[i]).placed(i)
    }

    /// The chart without edges.
    pub fn new() -> (c: Chart)
        ensures
            c@.len() == 0,
            c.used@.len() == 0,
            c.wf(),
    {
        Chart { edges: Vec::new(), used: Vec::new() }
    }

    /// Adds an edge behind the edges that are there and returns its number.
    /// No derivation has used the new edge.
    pub fn add_edge(&mut self, edge: Edge) -> (id: usize)
        requires
            old(self).wf(),
            edge.placed(old(self).edges@.len() as int),
        ensures
            final(self).wf(),
            final(self).edges@ == old(self).edges@.push(edge),
            final(self)@ == old(self)@.push(edge@),
            final(self).used@ == old(self).used@.push(false),
            flags_kept(old(self).used@, final(self).used@),
            id == old(self).edges@.len(),
    {
        let id: usize = self.edges.len();
        proof {
            lemma_edge_views_push(self.edges@, edge);
        }
        self.edges.push(edge);
        self.used.push(false);
        id
    }

    /// The number of edges.
    pub fn len(&self) -> (n: usize)
        ensures
            n == self@.len(),
    {
        self.edges.len()
    }

    /// The edge with the number `id`.
    pub fn edge(&self, id: usize) -> (e: &Edge)
        requires
            id < self@.len(),
        ensures
            e@ == self@[id as int],
            *e == self.edges@[id as int],
    {
        &self.edges[id]
    }

    /// Whether a derivation has used the edge with the number `id`.
    pub fn is_used(&self, id: usize) -> (u: bool)
        requires
            self.wf(),
            id < self@.len(),
        ensures
            u == self.used@[id as int],
    {
        self.used[id]
    }

    /// Notes that a derivation has used the edge with the number `id`.
    pub fn mark_used(&mut self, id: usize)
        requires
            old(self).wf(),
            id < old(self)@.len(),
        ensures
            final(self).wf(),
            final(self).edges == old(self).edges,
            final(self).used@ == old(self).used@.update(id as int, true),
            flags_kept(old(self).used@, final(self).used@),
    {
        self.used[id] = true;
    }

    /// In a chart every edge ends behind its start.
    pub proof fn lemma_forward(&self)
        requires
            self.wf(),
        ensures
            forward(self@),
    {
        assert forall|i: int| 0 <= i < self@.len() implies (#[trigger] self@[i]).start
            < self@[i].end <= 0x7fff_ffff by {
            assert(self.edges@[i].placed(i));
        }
    }

    /// The paths that continue the path on the two stacks from `pos` and
    /// match the pattern from item `idx` on are added to `out`.
    fn find_paths_from(
        &self,
        pattern: &Vec<RuleItem>,
        pos: i32,
        idx: usize,
        can_skip: bool,
        edges: &mut Vec<usize>,
        items: &mut Vec<usize>,
        out: &mut Vec<Path>,
    )
        requires
            self.wf(),
            idx <= pattern.len(),
        ensures
            final(edges)@ == old(edges)@,
            final(items)@ == old(items)@,
            path_views(final(out)@) == path_views(old(out)@) + paths_from(
                self@,
                pattern@,
                pos as int,
                idx as int,
                can_skip,
                (old(edges)@, old(items)@),
            ),
        decreases 0x7fff_ffff - pos, pattern.len() - idx,
    {
        let ghost stack = (edges@, items@);
        let ghost out0 = path_views(out@);
        let ghost all = paths_from(self@, pattern@, pos as int, idx as int, can_skip, stack);
        proof {
            self.lemma_forward();
        }
        if idx >= pattern.len() {
            if edges.len() > 0 {
                let path = Path { edges: copy_ids(edges), items: copy_ids(items) };
                proof {
                    lemma_path_views_push(out@, path);
                    assert(out0.push(path@) =~= out0 + seq![stack]);
                }
                out.push(path);
            } else {
                proof {
                    assert(out0 + Seq::<PathView>::empty() =~= out0);
                }
            }
            return ;
        }
        if can_skip && pattern[idx].skippable {
            self.find_paths_from(pattern, pos, idx + 1, true, edges, items, out);
        } else {
            proof {
                assert(out0 + Seq::<PathView>::empty() =~= out0);
            }
        }
        let ghost skipped = path_views(out@);
        let mut e: usize = 0;
        proof {
            assert(out0 + all =~= skipped + paths_scan(
                self@,
                pattern@,
                pos as int,
                idx as int,
                stack,
                0,
            ));
        }
        while e < self.edges.len()
            invariant
                e <= self.edges.len(),
                self.wf(),
                forward(self@),
                idx < pattern.len(),
                edges@ == stack.0,
                items@ == stack.1,
                path_views(out@) + paths_scan(
                    self@,
                    pattern@,
                    pos as int,
                    idx as int,
                    stack,
                    e as int,
                ) == out0 + all,
            decreases self.edges.len() - e,
        {
            let ghost before = path_views(out@);
            proof {
                assert(self@[e as int] == self.edges@[e as int]@);
            }
            let ghost rest = paths_scan(
                self@,
                pattern@,
                pos as int,
                idx as int,
                stack,
                e + 1,
            );
            if self.edges[e].start == pos && self.edges[e].label == pattern[idx].symbol {
                let ghost next = (stack.0.push(e), stack.1.push(idx));
                let end: i32 = self.edges[e].end;
                edges.push(e);
                items.push(idx);
                self.find_paths_from(pattern, end, idx + 1, true, edges, items, out);
                let ghost first = paths_from(
                    self@,
                    pattern@,
                    end as int,
                    idx + 1,
                    true,
                    next,
                );
                if pattern[idx].repeatable {
                    self.find_paths_from(pattern, end, idx, false, edges, items, out);
                    proof {
                        let second = paths_from(
                            self@,
                            pattern@,
                            end as int,
                            idx as int,
                            false,
                            next,
                        );
                        assert(before + first + second + rest =~= before + ((first + second)
                            + rest));
                    }
                } else {
                    proof {
                        assert(before + first + rest =~= before + ((first + Seq::<
                            PathView,
                        >::empty()) + rest));
                    }
                }
                edges.pop();
                items.pop();
                proof {
                    assert(edges@ =~= stack.0);
                    assert(items@ =~= stack.1);
                }
            } else {
                proof {
                    assert(before + rest =~= before + (Seq::<PathView>::empty() + rest));
                }
            }
            e += 1;
        }
        proof {
            assert(path_views(out@) + Seq::<PathView>::empty() =~= path_views(out@));
        }
    }

    /// All paths through the chart that match the pattern: at each position
    /// where an edge starts, the sequences of edges, each starting where
    /// the one before it ends, that match the items of the pattern in their
    /// order, where an item that may be left out matches no edge or one and
    /// an item that may be repeated matches one edge or several. A path
    /// holds at least one edge.
    pub fn find_paths(&self, pattern: &Vec<RuleItem>) -> (paths: Vec<Path>)
        requires
            self.wf(),
        ensures
            path_views(paths@) == all_paths(self@, pattern@),
    {
        let mut out: Vec<Path> = Vec::new();
        let mut edges: Vec<usize> = Vec::new();
        let mut items: Vec<usize> = Vec::new();
        let mut k: usize = 0;
        proof {
            assert(path_views(out@) =~= Seq::<PathView>::empty());
        }
        while k < self.edges.len()
            invariant
                k <= self.edges.len(),
                self.wf(),
                edges@ == Seq::<usize>::empty(),
                items@ == Seq::<usize>::empty(),
                path_views(out@) == paths_upto(self@, pattern@, k as int),
            decreases self.edges.len() - k,
        {
            let mut first: bool = true;
            let mut j: usize = 0;
            while j < k
                invariant
                    j <= k,
                    k < self.edges.len(),
                    first == (forall|x: int|
                        0 <= x < j ==> (#[trigger] self@[x]).start != self@[k as int].start),
                decreases k - j,
            {
                proof {
                    assert(self@[j as int] == self.edges@[j as int]@);
                    assert(self@[k as int] == self.edges@[k as int]@);
                }
                if self.edges[j].start == self.edges[k].start {
                    first = false;
                }
                j += 1;
            }
            let ghost before = path_views(out@);
            proof {
                assert(self@[k as int] == self.edges@[k as int]@);
            }
            if first {
                self.find_paths_from(
                    pattern,
                    self.edges[k].start,
                    0,
                    true,
                    &mut edges,
                    &mut items,
                    &mut out,
                );
            } else {
                proof {
                    assert(before + Seq::<PathView>::empty() =~= before);
                }
            }
            k += 1;
        }
        out
    }

    /// The numbers of the edges, or of those that no derivation has used,
    /// in the order in which edges are listed.
    pub fn all_edges(&self, only_unused: bool) -> (ids: Vec<usize>)
        requires
            self.wf(),
        ensures
            forall|a: int, b: int|
                0 <= a < b < ids@.len() ==> listed_before(self@, ids@[a], ids@[b]),
            forall|id: usize|
                ids@.contains(id) <==> id < self@.len() && (only_unused ==> !self.used@[id as int]),
    {
        let mut ids: Vec<usize> = Vec::new();
        let mut id: usize = 0;
        while id < self.edges.len()
            invariant
                id <= self.edges.len(),
                self.wf(),
                forall|a: int, b: int|
                    0 <= a < b < ids@.len() ==> listed_before(self@, ids@[a], ids@[b]),
                forall|x: usize|
                    ids@.contains(x) <==> x < id && (only_unused ==> !self.used@[x as int]),
            decreases self.edges.len() - id,
        {
            if !only_unused || !self.used[id] {
                proof {
                    assert forall|q: int| 0 <= q < ids@.len() implies (#[trigger] ids@[q]) < id by {
                        assert(ids@.contains(ids@[q]));
                    }
                }
                let mut p: usize = 0;
                while p < ids.len() && !key_less(&self.edges[id], &self.edges[ids[p]])
                    invariant
                        p <= ids.len(),
                        id < self.edges.len(),
                        forall|q: int| 0 <= q < ids@.len() ==> (#[trigger] ids@[q]) < id,
                        forall|q: int|
                            0 <= q < p ==> !edge_key_lt(
                                self@[id as int],
                                self@[(#[trigger] ids@[q]) as int],
                            ),
                    decreases ids.len() - p,
                {
                    p += 1;
                }
                let ghost old_ids = ids@;
                proof {
                    assert forall|q: int| p <= q < old_ids.len() implies edge_key_lt(
                        self@[id as int],
                        self@[(#[trigger] old_ids[q]) as int],
                    ) by {
                        if q > p {
                            assert(listed_before(self@, old_ids[p as int], old_ids[q]));
                            lemma_key_order(
                                self@[id as int],
                                self@[old_ids[p as int] as int],
                                self@[old_ids[q] as int],
                            );
                        }
                    }
                }
                ids.insert(p, id);
                proof {
                    assert forall|x: usize| ids@.contains(x) <==> x < id + 1 && (only_unused
                        ==> !self.used@[x as int]) by {
                        if ids@.contains(x) {
                            let k = choose|k: int| 0 <= k < ids@.len() && ids@[k] == x;
                            if k < p {
                                assert(old_ids[k] == x);
                                assert(old_ids.contains(x));
                            } else if k > p {
                                assert(old_ids[k - 1] == x);
                                assert(old_ids.contains(x));
                            }
                        }
                        if x < id + 1 && (only_unused ==> !self.used@[x as int]) {
                            if x == id {
                                assert(ids@[p as int] == x);
                            } else {
                                assert(old_ids.contains(x));
                                let k = choose|k: int| 0 <= k < old_ids.len() && old_ids[k] == x;
                                if k < p {
                                    assert(ids@[k] == x);
                                } else {
                                    assert(ids@[k + 1] == x);
                                }
                            }
                        }
                    }
                }
            }
            id += 1;
        }
        ids
    }
}

} // verus!
