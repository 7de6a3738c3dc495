use vstd::prelude::*;
use crate::grammar::RuleItem;
use crate::chart::{EdgeView, PathView, forward, edge_fits, paths_from, paths_scan, paths_upto,
    all_paths, first_at_start};

verus! {

/// The edges of a path are edges of the chart, its items are items of the
/// pattern, and each edge carries the symbol of its item.
pub open spec fn labels_match(edges: Seq<EdgeView>, pattern: Seq<RuleItem>, p: PathView) -> bool {
    &&& p.0.len() == p.1.len()
    &&& forall|k: int|
        0 <= k < p.0.len() ==> {
            &&& (#[trigger] p.0[k]) < edges.len()
            &&& p.1[k] < pattern.len()
            &&& edges[p.0[k] as int].label == pattern[p.1[k] as int].symbol@
        }
}

/// Each edge of a path starts where the edge before it ends.
pub open spec fn consecutive(edges: Seq<EdgeView>, p: PathView) -> bool {
    forall|k: int|
        0 <= k < p.0.len() - 1 ==> edges[(#[trigger] p.0[k]) as int].end == edges[p.0[k
            + 1] as int].start
}

/// The items of a path follow the pattern: from one edge to the next the
/// item stays, if it may be repeated, or a later item comes.
pub open spec fn items_ascend(pattern: Seq<RuleItem>, p: PathView) -> bool {
    forall|k: int|
        0 <= k < p.1.len() - 1 ==> {
            ||| (#[trigger] p.1[k]) < p.1[k + 1]
            ||| p.1[k] == p.1[k + 1] && pattern[p.1[k] as int].repeatable
        }
}

/// Every item before position `upto` that no edge of the path matches may
/// be left out.
pub open spec fn gaps_skippable(pattern: Seq<RuleItem>, p: PathView, upto: int) -> bool {
    forall|j: int|
        0 <= j < upto && j < pattern.len() && !p.1.contains(j as usize) ==> (
        #[trigger] pattern[j]).skippable
}

/// A path matches a pattern: it has at least one edge; its edges follow one
/// another through the chart and carry the symbols of their items; its
/// items follow the pattern; and every item of the pattern that it passes
/// over may be left out.
pub open spec fn is_match(edges: Seq<EdgeView>, pattern: Seq<RuleItem>, p: PathView) -> bool {
    &&& p.0.len() > 0
    &&& labels_match(edges, pattern, p)
    &&& consecutive(edges, p)
    &&& items_ascend(pattern, p)
    &&& gaps_skippable(pattern, p, pattern.len() as int)
}

/// Every path of the list is a match.
pub open spec fn all_match(edges: Seq<EdgeView>, pattern: Seq<RuleItem>, s: Seq<PathView>) -> bool {
    forall|i: int| 0 <= i < s.len() ==> is_match(edges, pattern, #[trigger] s[i])
}

/// Two lists of matches in a row are a list of matches.
pub proof fn lemma_all_match_concat(
    edges: Seq<EdgeView>,
    pattern: Seq<RuleItem>,
    a: Seq<PathView>,
    b: Seq<PathView>,
)
    requires
        all_match(edges, pattern, a),
        all_match(edges, pattern, b),
    ensures
        all_match(edges, pattern, a + b),
{
    assert forall|i: int| 0 <= i < (a + b).len() implies is_match(
        edges,
        pattern,
        #[trigger] (a + b)[i],
    ) by {
        if i < a.len() {
            assert((a + b)[i] == a[i]);
        } else {
            assert((a + b)[i] == b[i - a.len()]);
        }
    }
}

/// A path in the making: `stack` matches the items before `idx` and ends at
/// `pos`. Where item `idx` may not be left out any more, the last edge of
/// the stack matches it.
pub open spec fn partial_match(
    edges: Seq<EdgeView>,
    pattern: Seq<RuleItem>,
    pos: int,
    idx: int,
    can_skip: bool,
    stack: PathView,
) -> bool {
    &&& labels_match(edges, pattern, stack)
    &&& consecutive(edges, stack)
    &&& items_ascend(pattern, stack)
    &&& gaps_skippable(pattern, stack, idx)
    &&& stack.0.len() > 0 ==> edges[stack.0.last() as int].end == pos
    &&& can_skip ==> forall|k: int| 0 <= k < stack.1.len() ==> (#[trigger] stack.1[k]) < idx
    &&& !can_skip ==> {
        &&& stack.1.len() > 0
        &&& stack.1.last() == idx
        &&& idx < pattern.len()
        &&& pattern[idx].repeatable
    }
}

/// A partial match with one more edge for item `idx` is a partial match
/// behind that edge: with the next item in turn, and, where the item may
/// be repeated, with the same item in turn again.
pub proof fn lemma_partial_push(
    edges: Seq<EdgeView>,
    pattern: Seq<RuleItem>,
    pos: int,
    idx: int,
    can_skip: bool,
    stack: PathView,
    e: int,
)
    requires
        partial_match(edges, pattern, pos, idx, can_skip, stack),
        0 <= idx < pattern.len(),
        0 <= e < edges.len(),
        e <= usize::MAX,
        idx <= usize::MAX,
        edge_fits(edges, pattern, e, pos, idx),
    ensures
        ({
            let next = (stack.0.push(e as usize), stack.1.push(idx as usize));
            &&& partial_match(edges, pattern, edges[e].end, idx + 1, true, next)
            &&& pattern[idx].repeatable ==> partial_match(
                edges,
                pattern,
                edges[e].end,
                idx,
                false,
                next,
            )
        }),
{
    let next = (stack.0.push(e as usize), stack.1.push(idx as usize));
    let n = stack.0.len() as int;
    assert forall|k: int| 0 <= k < next.0.len() implies {
        &&& (#[trigger] next.0[k]) < edges.len()
        &&& next.1[k] < pattern.len()
        &&& edges[next.0[k] as int].label == pattern[next.1[k] as int].symbol@
    } by {
        if k < n {
            assert(next.0[k] == stack.0[k]);
        }
    }
    assert forall|k: int| 0 <= k < next.0.len() - 1 implies edges[(#[trigger] next.0[k]) as int].end
        == edges[next.0[k + 1] as int].start by {
        if k < n - 1 {
            assert(next.0[k] == stack.0[k]);
            assert(next.0[k + 1] == stack.0[k + 1]);
        }
    }
    assert forall|k: int| 0 <= k < next.1.len() - 1 implies {
        ||| (#[trigger] next.1[k]) < next.1[k + 1]
        ||| next.1[k] == next.1[k + 1] && pattern[next.1[k] as int].repeatable
    } by {
        if k < n - 1 {
            assert(next.1[k] == stack.1[k]);
            assert(next.1[k + 1] == stack.1[k + 1]);
        } else {
            assert(next.1[k] == stack.1[k]);
        }
    }
    assert forall|j: int|
        0 <= j < idx + 1 && j < pattern.len() && !next.1.contains(j as usize) implies (
    #[trigger] pattern[j]).skippable by {
        if j == idx {
            assert(next.1[n] == idx as usize);
        } else {
            if stack.1.contains(j as usize) {
                let k = choose|k: int| 0 <= k < stack.1.len() && stack.1[k] == j as usize;
                assert(next.1[k] == j as usize);
            }
        }
    }
    assert forall|k: int| 0 <= k < next.1.len() implies (#[trigger] next.1[k]) < idx + 1 by {
        if k < n {
            assert(next.1[k] == stack.1[k]);
            if !can_skip {
                // the items ascend to the last, which is `idx`
                lemma_ascend_bound(pattern, stack, k);
            }
        }
    }
}

/// In ascending items none is behind the last.
pub proof fn lemma_ascend_bound(pattern: Seq<RuleItem>, p: PathView, k: int)
    requires
        items_ascend(pattern, p),
        0 <= k < p.1.len(),
    ensures
        p.1[k] <= p.1.last(),
    decreases p.1.len() - k,
{
    if k < p.1.len() - 1 {
        lemma_ascend_bound(pattern, p, k + 1);
    }
}

/// Every path that `paths_from` gives for a partial match is a match.
pub proof fn lemma_paths_from_sound(
    edges: Seq<EdgeView>,
    pattern: Seq<RuleItem>,
    pos: int,
    idx: int,
    can_skip: bool,
    stack: PathView,
)
    requires
        forward(edges),
        0 <= idx,
        edges.len() <= usize::MAX,
        pattern.len() <= usize::MAX,
        partial_match(edges, pattern, pos, idx, can_skip, stack),
    ensures
        all_match(edges, pattern, paths_from(edges, pattern, pos, idx, can_skip, stack)),
    decreases 0x7fff_ffff - pos, pattern.len() - idx, 1int, 0int,
{
    if idx >= pattern.len() {
    } else {
        let skipped = if can_skip && pattern[idx].skippable {
            paths_from(edges, pattern, pos, idx + 1, true, stack)
        } else {
            Seq::empty()
        };
        if can_skip && pattern[idx].skippable {
            assert(partial_match(edges, pattern, pos, idx + 1, true, stack)) by {
                assert forall|k: int| 0 <= k < stack.1.len() implies (#[trigger] stack.1[k]) < idx
                    + 1 by {}
            }
            lemma_paths_from_sound(edges, pattern, pos, idx + 1, true, stack);
        }
        lemma_paths_scan_sound(edges, pattern, pos, idx, can_skip, stack, 0);
        lemma_all_match_concat(
            edges,
            pattern,
            skipped,
            paths_scan(edges, pattern, pos, idx, stack, 0),
        );
    }
}

/// Every path that `paths_scan` gives for a partial match is a match.
pub proof fn lemma_paths_scan_sound(
    edges: Seq<EdgeView>,
    pattern: Seq<RuleItem>,
    pos: int,
    idx: int,
    can_skip: bool,
    stack: PathView,
    e: int,
)
    requires
        forward(edges),
        0 <= idx < pattern.len(),
        0 <= e,
        edges.len() <= usize::MAX,
        pattern.len() <= usize::MAX,
        partial_match(edges, pattern, pos, idx, can_skip, stack),
    ensures
        all_match(edges, pattern, paths_scan(edges, pattern, pos, idx, stack, e)),
    decreases 0x7fff_ffff - pos, pattern.len() - idx, 0int, edges.len() - e,
{
    if e < edges.len() {
        let next = (stack.0.push(e as usize), stack.1.push(idx as usize));
        let first = paths_from(edges, pattern, edges[e].end, idx + 1, true, next);
        let second = if pattern[idx].repeatable {
            paths_from(edges, pattern, edges[e].end, idx, false, next)
        } else {
            Seq::empty()
        };
        let here = if edge_fits(edges, pattern, e, pos, idx) {
            first + second
        } else {
            Seq::empty()
        };
        if edge_fits(edges, pattern, e, pos, idx) {
            lemma_partial_push(edges, pattern, pos, idx, can_skip, stack, e);
            lemma_paths_from_sound(edges, pattern, edges[e].end, idx + 1, true, next);
            if pattern[idx].repeatable {
                lemma_paths_from_sound(edges, pattern, edges[e].end, idx, false, next);
            }
            lemma_all_match_concat(edges, pattern, first, second);
        }
        lemma_paths_scan_sound(edges, pattern, pos, idx, can_skip, stack, e + 1);
        lemma_all_match_concat(
            edges,
            pattern,
            here,
            paths_scan(edges, pattern, pos, idx, stack, e + 1),
        );
    }
}

/// Every path that the search gives is a match.
pub proof fn lemma_paths_upto_sound(edges: Seq<EdgeView>, pattern: Seq<RuleItem>, k: int)
    requires
        forward(edges),
        edges.len() <= usize::MAX,
        pattern.len() <= usize::MAX,
        k <= edges.len(),
    ensures
        all_match(edges, pattern, paths_upto(edges, pattern, k)),
    decreases k,
{
    if k > 0 {
        lemma_paths_upto_sound(edges, pattern, k - 1);
        let empty: PathView = (Seq::empty(), Seq::empty());
        let here = if first_at_start(edges, k - 1) {
            paths_from(edges, pattern, edges[k - 1].start, 0, true, empty)
        } else {
            Seq::empty()
        };
        if first_at_start(edges, k - 1) {
            lemma_paths_from_sound(edges, pattern, edges[k - 1].start, 0, true, empty);
        }
        lemma_all_match_concat(edges, pattern, paths_upto(edges, pattern, k - 1), here);
    }
}

/// Every path that the search gives is a match.
pub proof fn lemma_all_paths_sound(edges: Seq<EdgeView>, pattern: Seq<RuleItem>)
    requires
        forward(edges),
        edges.len() <= usize::MAX,
        pattern.len() <= usize::MAX,
    ensures
        all_match(edges, pattern, all_paths(edges, pattern)),
{
    lemma_paths_upto_sound(edges, pattern, edges.len() as int);
}

/// How often `p` stands in the list.
pub open spec fn count(s: Seq<PathView>, p: PathView) -> nat
    decreases s.len(),
{
    if s.len() == 0 {
        0
    } else {
        count(s.drop_last(), p) + if s.last() == p {
            1nat
        } else {
            0nat
        }
    }
}

/// A path stands in two lists in a row as often as in both together.
pub proof fn lemma_count_concat(a: Seq<PathView>, b: Seq<PathView>, p: PathView)
    ensures
        count(a + b, p) == count(a, p) + count(b, p),
    decreases b.len(),
{
    if b.len() == 0 {
        assert(a + b =~= a);
    } else {
        assert((a + b).drop_last() =~= a + b.drop_last());
        lemma_count_concat(a, b.drop_last(), p);
    }
}

/// `p` is a match that begins with `stack` and goes on from position `pos`
/// with items from `idx` on; where item `idx` may not be left out, the
/// next edge of `p` matches it.
pub open spec fn continues(
    edges: Seq<EdgeView>,
    pattern: Seq<RuleItem>,
    pos: int,
    idx: int,
    can_skip: bool,
    stack: PathView,
    p: PathView,
) -> bool {
    let n = stack.0.len() as int;
    &&& is_match(edges, pattern, p)
    &&& p.0.len() >= n
    &&& p.0.take(n) == stack.0
    &&& p.1.take(n) == stack.1
    &&& forall|k: int| n <= k < p.1.len() ==> (#[trigger] p.1[k]) >= idx
    &&& p.0.len() > n ==> edges[p.0[n] as int].start == pos
    &&& !can_skip ==> p.0.len() > n && p.1[n] == idx
}

/// `p` continues `stack` with an edge for item `idx`.
pub open spec fn takes(
    edges: Seq<EdgeView>,
    pattern: Seq<RuleItem>,
    pos: int,
    idx: int,
    can_skip: bool,
    stack: PathView,
    p: PathView,
) -> bool {
    &&& continues(edges, pattern, pos, idx, can_skip, stack, p)
    &&& p.0.len() > stack.0.len()
    &&& p.1[stack.0.len() as int] == idx
}

/// Ascending items ascend over any distance.
pub proof fn lemma_ascend_between(pattern: Seq<RuleItem>, p: PathView, j: int, k: int)
    requires
        items_ascend(pattern, p),
        0 <= j <= k < p.1.len(),
    ensures
        p.1[j] <= p.1[k],
    decreases k - j,
{
    if j < k {
        lemma_ascend_between(pattern, p, j + 1, k);
    }
}

/// A match that continues a stack without an edge for item `idx` is one
/// that leaves the item out, and the other way round.
pub proof fn lemma_continue_skip(
    edges: Seq<EdgeView>,
    pattern: Seq<RuleItem>,
    pos: int,
    idx: int,
    stack: PathView,
    p: PathView,
)
    requires
        partial_match(edges, pattern, pos, idx, true, stack),
        0 <= idx < pattern.len(),
        pattern.len() <= usize::MAX,
    ensures
        (continues(edges, pattern, pos, idx, true, stack, p) && !takes(
            edges,
            pattern,
            pos,
            idx,
            true,
            stack,
            p,
        )) <==> (pattern[idx].skippable && continues(edges, pattern, pos, idx + 1, true, stack, p)),
{
    let n = stack.0.len() as int;
    if continues(edges, pattern, pos, idx, true, stack, p) && !takes(
        edges,
        pattern,
        pos,
        idx,
        true,
        stack,
        p,
    ) {
        assert forall|k: int| n <= k < p.1.len() implies (#[trigger] p.1[k]) >= idx + 1 by {
            lemma_ascend_between(pattern, p, n, k);
            assert(p.1[n] >= idx);
        }
        if p.1.contains(idx as usize) {
            let k = choose|k: int| 0 <= k < p.1.len() && p.1[k] == idx as usize;
            if k < n {
                assert(p.1.take(n)[k] == p.1[k]);
                assert(stack.1[k] < idx);
            } else {
                assert(p.1[k] >= idx + 1);
            }
        }
        assert(pattern[idx].skippable);
    }
    if pattern[idx].skippable && continues(edges, pattern, pos, idx + 1, true, stack, p) {
        assert forall|k: int| n <= k < p.1.len() implies (#[trigger] p.1[k]) >= idx by {
            assert(p.1[k] >= idx + 1);
        }
        if p.0.len() > n {
            assert(p.1[n] >= idx + 1);
        }
    }
}

/// A match that continues a stack with the edge `e` for item `idx` is one
/// that continues the longer stack, with the next item in turn or with the
/// same item again, and not both.
pub proof fn lemma_continue_take(
    edges: Seq<EdgeView>,
    pattern: Seq<RuleItem>,
    pos: int,
    idx: int,
    can_skip: bool,
    stack: PathView,
    e: int,
    p: PathView,
)
    requires
        partial_match(edges, pattern, pos, idx, can_skip, stack),
        0 <= idx < pattern.len(),
        0 <= e < edges.len(),
        e <= usize::MAX,
        idx <= usize::MAX,
        edge_fits(edges, pattern, e, pos, idx),
    ensures
        ({
            let next = (stack.0.push(e as usize), stack.1.push(idx as usize));
            let on = continues(edges, pattern, edges[e].end, idx + 1, true, next, p);
            let again = continues(edges, pattern, edges[e].end, idx, false, next, p);
            &&& !(on && again)
            &&& again ==> pattern[idx].repeatable
            &&& (takes(edges, pattern, pos, idx, can_skip, stack, p) && p.0[stack.0.len() as int]
                == e) <==> (on || again)
        }),
{
    let n = stack.0.len() as int;
    let next = (stack.0.push(e as usize), stack.1.push(idx as usize));
    let on = continues(edges, pattern, edges[e].end, idx + 1, true, next, p);
    let again = continues(edges, pattern, edges[e].end, idx, false, next, p);
    if on || again {
        assert(p.0.take(n + 1)[n] == p.0[n]);
        assert(p.1.take(n + 1)[n] == p.1[n]);
        assert(p.0[n] == e as usize);
        assert(p.1[n] == idx as usize);
        assert(p.0.take(n) =~= p.0.take(n + 1).take(n));
        assert(p.1.take(n) =~= p.1.take(n + 1).take(n));
        assert(next.0.take(n) =~= stack.0);
        assert(next.1.take(n) =~= stack.1);
        assert forall|k: int| n <= k < p.1.len() implies (#[trigger] p.1[k]) >= idx by {
            if k > n {
                assert(p.1[k] >= idx);
            }
        }
        if again {
            assert(p.1[n + 1] == idx);
            assert(p.1[n] == p.1[n + 1]);
            assert(pattern[p.1[n] as int].repeatable);
        }
        if on && again {
            assert(p.1[n + 1] >= idx + 1);
        }
        assert(takes(edges, pattern, pos, idx, can_skip, stack, p));
    }
    if takes(edges, pattern, pos, idx, can_skip, stack, p) && p.0[n] == e {
        assert(p.0.take(n + 1) =~= p.0.take(n).push(p.0[n]));
        assert(p.1.take(n + 1) =~= p.1.take(n).push(p.1[n]));
        if p.0.len() > n + 1 {
            assert(edges[p.0[n] as int].end == edges[p.0[n + 1] as int].start);
        }
        if p.1.len() > n + 1 && p.1[n + 1] == idx {
            assert(p.1[n] == p.1[n + 1]);
            assert(pattern[p.1[n] as int].repeatable);
            assert forall|k: int| n + 1 <= k < p.1.len() implies (#[trigger] p.1[k]) >= idx by {}
            assert(again);
        } else {
            assert forall|k: int| n + 1 <= k < p.1.len() implies (#[trigger] p.1[k]) >= idx
                + 1 by {
                lemma_ascend_between(pattern, p, n + 1, k);
                assert(p.1[n] < p.1[n + 1] || p.1[n] == p.1[n + 1]);
            }
            assert(on);
        }
    }
}

/// Behind the last item the stack is the one match that continues it, if
/// it holds an edge.
pub proof fn lemma_paths_end_count(
    edges: Seq<EdgeView>,
    pattern: Seq<RuleItem>,
    pos: int,
    idx: int,
    can_skip: bool,
    stack: PathView,
    p: PathView,
)
    requires
        forward(edges),
        idx >= pattern.len(),
        partial_match(edges, pattern, pos, idx, can_skip, stack),
    ensures
        count(paths_from(edges, pattern, pos, idx, can_skip, stack), p) == if continues(
            edges,
            pattern,
            pos,
            idx,
            can_skip,
            stack,
            p,
        ) {
            1nat
        } else {
            0nat
        },
{
    let n = stack.0.len() as int;
    let found = paths_from(edges, pattern, pos, idx, can_skip, stack);
    if continues(edges, pattern, pos, idx, can_skip, stack, p) {
        if p.1.len() > n {
            assert(p.1[n] >= idx);
            assert(p.0[n] < edges.len());
        }
        assert(p.0 =~= p.0.take(n));
        assert(p.1 =~= p.1.take(n));
        assert(p == stack);
    }
    if stack.0.len() > 0 {
        assert(found == seq![stack]);
        assert(found.drop_last() =~= Seq::<PathView>::empty());
        assert(found.last() == stack);
        assert(count(found.drop_last(), p) == 0);
        if p == stack {
            assert(is_match(edges, pattern, stack));
            assert(stack.0.take(n) =~= stack.0);
            assert(stack.1.take(n) =~= stack.1);
            assert(continues(edges, pattern, pos, idx, can_skip, stack, p));
        }
    } else {
        assert(found =~= Seq::<PathView>::empty());
    }
}

/// Each match that continues a partial match is given once by
/// `paths_from`, and nothing else is.
pub proof fn lemma_paths_from_count(
    edges: Seq<EdgeView>,
    pattern: Seq<RuleItem>,
    pos: int,
    idx: int,
    can_skip: bool,
    stack: PathView,
    p: PathView,
)
    requires
        forward(edges),
        0 <= idx,
        edges.len() <= usize::MAX,
        pattern.len() <= usize::MAX,
        partial_match(edges, pattern, pos, idx, can_skip, stack),
    ensures
        count(paths_from(edges, pattern, pos, idx, can_skip, stack), p) == if continues(
            edges,
            pattern,
            pos,
            idx,
            can_skip,
            stack,
            p,
        ) {
            1nat
        } else {
            0nat
        },
    decreases 0x7fff_ffff - pos, pattern.len() - idx, 1int, 0int,
{
    let n = stack.0.len() as int;
    if idx >= pattern.len() {
        lemma_paths_end_count(edges, pattern, pos, idx, can_skip, stack, p);
    } else {
        let skipped = if can_skip && pattern[idx].skippable {
            paths_from(edges, pattern, pos, idx + 1, true, stack)
        } else {
            Seq::empty()
        };
        let taken = paths_scan(edges, pattern, pos, idx, stack, 0);
        lemma_count_concat(skipped, taken, p);
        lemma_paths_scan_count(edges, pattern, pos, idx, can_skip, stack, 0, p);
        if takes(edges, pattern, pos, idx, can_skip, stack, p) {
            assert(p.0[n] >= 0);
        }
        if can_skip {
            lemma_continue_skip(edges, pattern, pos, idx, stack, p);
            if pattern[idx].skippable {
                assert(partial_match(edges, pattern, pos, idx + 1, true, stack)) by {
                    assert forall|k: int| 0 <= k < stack.1.len() implies (#[trigger] stack.1[k])
                        < idx + 1 by {}
                }
                lemma_paths_from_count(edges, pattern, pos, idx + 1, true, stack, p);
            }
        }
    }
}

/// Each match that continues a partial match with one of the edges from
/// number `e` on for item `idx` is given once by `paths_scan`, and nothing
/// else is.
pub proof fn lemma_paths_scan_count(
    edges: Seq<EdgeView>,
    pattern: Seq<RuleItem>,
    pos: int,
    idx: int,
    can_skip: bool,
    stack: PathView,
    e: int,
    p: PathView,
)
    requires
        forward(edges),
        0 <= idx < pattern.len(),
        0 <= e,
        edges.len() <= usize::MAX,
        pattern.len() <= usize::MAX,
        partial_match(edges, pattern, pos, idx, can_skip, stack),
    ensures
        count(paths_scan(edges, pattern, pos, idx, stack, e), p) == if takes(
            edges,
            pattern,
            pos,
            idx,
            can_skip,
            stack,
            p,
        ) && p.0[stack.0.len() as int] >= e {
            1nat
        } else {
            0nat
        },
    decreases 0x7fff_ffff - pos, pattern.len() - idx, 0int, edges.len() - e,
{
    let n = stack.0.len() as int;
    if e < edges.len() {
        let next = (stack.0.push(e as usize), stack.1.push(idx as usize));
        let first = paths_from(edges, pattern, edges[e].end, idx + 1, true, next);
        let second = if pattern[idx].repeatable {
            paths_from(edges, pattern, edges[e].end, idx, false, next)
        } else {
            Seq::empty()
        };
        let here = if edge_fits(edges, pattern, e, pos, idx) {
            first + second
        } else {
            Seq::empty()
        };
        let rest = paths_scan(edges, pattern, pos, idx, stack, e + 1);
        lemma_count_concat(here, rest, p);
        lemma_paths_scan_count(edges, pattern, pos, idx, can_skip, stack, e + 1, p);
        if edge_fits(edges, pattern, e, pos, idx) {
            lemma_partial_push(edges, pattern, pos, idx, can_skip, stack, e);
            lemma_continue_take(edges, pattern, pos, idx, can_skip, stack, e, p);
            lemma_count_concat(first, second, p);
            lemma_paths_from_count(edges, pattern, edges[e].end, idx + 1, true, next, p);
            if pattern[idx].repeatable {
                lemma_paths_from_count(edges, pattern, edges[e].end, idx, false, next, p);
            }
        } else {
            if takes(edges, pattern, pos, idx, can_skip, stack, p) {
                assert(p.0[n] < edges.len());
                assert(edge_fits(edges, pattern, p.0[n] as int, pos, idx));
            }
        }
    } else {
        if takes(edges, pattern, pos, idx, can_skip, stack, p) {
            assert(p.0[n] < edges.len());
        }
    }
}

/// One of the first `k` edges starts at `pos`.
pub open spec fn start_seen(edges: Seq<EdgeView>, pos: int, k: int) -> bool {
    exists|j: int| 0 <= j < k && (#[trigger] edges[j]).start == pos
}

/// Each match that starts where one of the first `k` edges starts is given
/// once by `paths_upto`, and nothing else is.
pub proof fn lemma_paths_upto_count(
    edges: Seq<EdgeView>,
    pattern: Seq<RuleItem>,
    k: int,
    p: PathView,
)
    requires
        forward(edges),
        edges.len() <= usize::MAX,
        pattern.len() <= usize::MAX,
        0 <= k <= edges.len(),
    ensures
        count(paths_upto(edges, pattern, k), p) == if is_match(edges, pattern, p) && start_seen(
            edges,
            edges[p.0[0] as int].start,
            k,
        ) {
            1nat
        } else {
            0nat
        },
    decreases k,
{
    if k > 0 {
        let empty: PathView = (Seq::empty(), Seq::empty());
        let start = edges[k - 1].start;
        let before = paths_upto(edges, pattern, k - 1);
        let here = if first_at_start(edges, k - 1) {
            paths_from(edges, pattern, start, 0, true, empty)
        } else {
            Seq::empty()
        };
        lemma_paths_upto_count(edges, pattern, k - 1, p);
        lemma_count_concat(before, here, p);
        if first_at_start(edges, k - 1) {
            lemma_paths_from_count(edges, pattern, start, 0, true, empty, p);
            if continues(edges, pattern, start, 0, true, empty, p) {
                assert(edges[p.0[0] as int].start == start);
            }
            if is_match(edges, pattern, p) && edges[p.0[0] as int].start == start {
                assert(p.0.take(0) =~= empty.0);
                assert(p.1.take(0) =~= empty.1);
                assert(continues(edges, pattern, start, 0, true, empty, p));
            }
        }
        if is_match(edges, pattern, p) {
            let at = edges[p.0[0] as int].start;
            if start_seen(edges, at, k - 1) {
                let j = choose|j: int| 0 <= j < k - 1 && (#[trigger] edges[j]).start == at;
                assert(start_seen(edges, at, k));
                if start == at {
                    assert(!first_at_start(edges, k - 1));
                }
            } else {
                if start == at {
                    assert(first_at_start(edges, k - 1));
                    assert(start_seen(edges, at, k));
                } else {
                    if start_seen(edges, at, k) {
                        let j = choose|j: int| 0 <= j < k && (#[trigger] edges[j]).start == at;
                        assert(j < k - 1);
                    }
                }
            }
        }
    }
}

/// Path completeness. The search gives every match, and each match once:
/// a path stands once in `all_paths` if it is a match, and not at all if
/// it is none.
pub proof fn lemma_all_paths_complete(edges: Seq<EdgeView>, pattern: Seq<RuleItem>, p: PathView)
    requires
        forward(edges),
        edges.len() <= usize::MAX,
        pattern.len() <= usize::MAX,
    ensures
        count(all_paths(edges, pattern), p) == if is_match(edges, pattern, p) {
            1nat
        } else {
            0nat
        },
{
    lemma_paths_upto_count(edges, pattern, edges.len() as int, p);
    if is_match(edges, pattern, p) {
        assert(p.0[0] < edges.len());
        assert(edges[p.0[0] as int].start == edges[p.0[0] as int].start);
        assert(start_seen(edges, edges[p.0[0] as int].start, edges.len() as int));
    }
}

} // verus!
