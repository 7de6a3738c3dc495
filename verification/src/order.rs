use vstd::prelude::*;
use crate::text::{str_lt, lemma_str_lt_irreflexive, lemma_str_lt_total, lemma_str_lt_transitive};

verus! {

/// The mathematical model of a term: its heads, outermost first.
pub type TermView = Seq<Seq<char>>;

/// The mathematical model of a rewrite rule: left-hand side, right-hand side.
pub type RuleView = (Seq<Seq<char>>, Seq<Seq<char>>);

/// Lexicographic order of two lists of heads, head by head.
pub open spec fn heads_lt(a: TermView, b: TermView) -> bool
    decreases a.len(),
{
    if b.len() == 0 {
        false
    } else if a.len() == 0 {
        true
    } else if a[0] == b[0] {
        heads_lt(a.drop_first(), b.drop_first())
    } else {
        str_lt(a[0], b[0])
    }
}

/// The reduction order: a shorter term is smaller; terms of one size are
/// ordered head by head from the outside in.
pub open spec fn term_lt(a: TermView, b: TermView) -> bool {
    a.len() < b.len() || (a.len() == b.len() && heads_lt(a, b))
}

/// The pair `(a, b)` turned so that the larger term comes first.
pub open spec fn orient(a: TermView, b: TermView) -> RuleView {
    if term_lt(b, a) {
        (a, b)
    } else {
        (b, a)
    }
}

/// No list of heads comes before itself.
pub proof fn lemma_heads_lt_irreflexive(a: TermView)
    ensures
        !heads_lt(a, a),
    decreases a.len(),
{
    if a.len() > 0 {
        lemma_heads_lt_irreflexive(a.drop_first());
    }
}

/// Of two different lists of heads one comes before the other.
pub proof fn lemma_heads_lt_total(a: TermView, b: TermView)
    ensures
        a == b || heads_lt(a, b) || heads_lt(b, a),
    decreases a.len(),
{
    if a.len() == 0 || b.len() == 0 {
        if a.len() == 0 && b.len() == 0 {
            assert(a =~= b);
        }
    } else if a[0] == b[0] {
        lemma_heads_lt_total(a.drop_first(), b.drop_first());
        if a.drop_first() == b.drop_first() {
            assert(a =~= seq![a[0]] + a.drop_first());
            assert(b =~= seq![b[0]] + b.drop_first());
        }
    } else {
        lemma_str_lt_total(a[0], b[0]);
    }
}

/// A list of heads that comes before one that comes before a third comes
/// before the third.
pub proof fn lemma_heads_lt_transitive(a: TermView, b: TermView, c: TermView)
    requires
        heads_lt(a, b),
        heads_lt(b, c),
    ensures
        heads_lt(a, c),
    decreases a.len(),
{
    if a.len() > 0 {
        if a[0] == b[0] && b[0] == c[0] {
            lemma_heads_lt_transitive(a.drop_first(), b.drop_first(), c.drop_first());
        } else if a[0] != b[0] && b[0] != c[0] {
            lemma_str_lt_transitive(a[0], b[0], c[0]);
            lemma_str_lt_irreflexive(a[0]);
        }
    }
}

/// Two terms with one prefix are ordered head by head as what follows the
/// prefix.
pub proof fn lemma_heads_lt_prefix(p: TermView, a: TermView, b: TermView)
    ensures
        heads_lt(p + a, p + b) == heads_lt(a, b),
    decreases p.len(),
{
    if p.len() == 0 {
        assert(p + a =~= a);
        assert(p + b =~= b);
    } else {
        assert((p + a).drop_first() =~= p.drop_first() + a);
        assert((p + b).drop_first() =~= p.drop_first() + b);
        lemma_heads_lt_prefix(p.drop_first(), a, b);
    }
}

/// No term is smaller than itself.
pub proof fn lemma_term_lt_irreflexive(a: TermView)
    ensures
        !term_lt(a, a),
{
    lemma_heads_lt_irreflexive(a);
}

/// Of two different terms one is smaller than the other.
pub proof fn lemma_term_lt_total(a: TermView, b: TermView)
    ensures
        a == b || term_lt(a, b) || term_lt(b, a),
{
    lemma_heads_lt_total(a, b);
}

/// A term smaller than one that is smaller than a third is smaller than
/// the third.
pub proof fn lemma_term_lt_transitive(a: TermView, b: TermView, c: TermView)
    requires
        term_lt(a, b),
        term_lt(b, c),
    ensures
        term_lt(a, c),
{
    if a.len() == b.len() && b.len() == c.len() {
        lemma_heads_lt_transitive(a, b, c);
    }
}

/// An oriented pair of different terms has the larger term on the left.
pub proof fn lemma_orient_strict(a: TermView, b: TermView)
    requires
        a != b,
    ensures
        term_lt(orient(a, b).1, orient(a, b).0),
        orient(a, b) == (a, b) || orient(a, b) == (b, a),
{
    lemma_term_lt_total(a, b);
}

/// The number of entries of `alpha` that come before `h` in the order of
/// strings.
pub open spec fn rank(alpha: Seq<Seq<char>>, h: Seq<char>) -> nat
    decreases alpha.len(),
{
    if alpha.len() == 0 {
        0
    } else {
        rank(alpha.drop_last(), h) + if str_lt(alpha.last(), h) {
            1nat
        } else {
            0nat
        }
    }
}

/// The base of the positional code over the alphabet `alpha`.
pub open spec fn base(alpha: Seq<Seq<char>>) -> nat {
    alpha.len() + 2
}

/// A term read as a numeral: each head is the digit `rank + 1`, the
/// outermost head the most significant.
pub open spec fn code(alpha: Seq<Seq<char>>, t: TermView) -> nat
    decreases t.len(),
{
    if t.len() == 0 {
        0
    } else {
        code(alpha, t.drop_last()) * base(alpha) + rank(alpha, t.last()) + 1
    }
}

/// No rank is higher than the number of entries.
pub proof fn lemma_rank_bound(alpha: Seq<Seq<char>>, h: Seq<char>)
    ensures
        rank(alpha, h) <= alpha.len(),
    decreases alpha.len(),
{
    if alpha.len() > 0 {
        lemma_rank_bound(alpha.drop_last(), h);
    }
}

/// A string that comes before another has no higher rank.
pub proof fn lemma_rank_monotone(alpha: Seq<Seq<char>>, a: Seq<char>, b: Seq<char>)
    requires
        str_lt(a, b),
    ensures
        rank(alpha, a) <= rank(alpha, b),
    decreases alpha.len(),
{
    if alpha.len() > 0 {
        lemma_rank_monotone(alpha.drop_last(), a, b);
        if str_lt(alpha.last(), a) {
            lemma_str_lt_transitive(alpha.last(), a, b);
        }
    }
}

/// An entry of the alphabet has a lower rank than any string behind it.
pub proof fn lemma_rank_strict(alpha: Seq<Seq<char>>, a: Seq<char>, b: Seq<char>)
    requires
        str_lt(a, b),
        alpha.contains(a),
    ensures
        rank(alpha, a) < rank(alpha, b),
    decreases alpha.len(),
{
    let init = alpha.drop_last();
    let x = alpha.last();
    if str_lt(x, a) {
        lemma_str_lt_transitive(x, a, b);
    }
    if x == a {
        lemma_str_lt_irreflexive(a);
        lemma_rank_monotone(init, a, b);
    } else {
        let i = choose|i: int| 0 <= i < alpha.len() && alpha[i] == a;
        assert(init[i] == a);
        lemma_rank_strict(init, a, b);
    }
}

/// A smaller code in front stays smaller when as many heads are appended to
/// both sides.
pub proof fn lemma_code_tail(
    alpha: Seq<Seq<char>>,
    p: TermView,
    q: TermView,
    u: TermView,
    v: TermView,
)
    requires
        code(alpha, p) < code(alpha, q),
        u.len() == v.len(),
    ensures
        code(alpha, p + u) < code(alpha, q + v),
    decreases u.len(),
{
    if u.len() == 0 {
        assert(p + u =~= p);
        assert(q + v =~= q);
    } else {
        let u1 = u.drop_last();
        let v1 = v.drop_last();
        lemma_code_tail(alpha, p, q, u1, v1);
        assert((p + u).drop_last() =~= p + u1);
        assert((q + v).drop_last() =~= q + v1);
        lemma_rank_bound(alpha, u.last());
        let c1 = code(alpha, p + u1) as int;
        let c2 = code(alpha, q + v1) as int;
        let b = base(alpha) as int;
        assert(c1 * b + b <= c2 * b) by (nonlinear_arith)
            requires
                c1 + 1 <= c2,
                b >= 0,
        ;
    }
}

/// Of two terms of one size behind a common prefix, the one that is smaller
/// head by head has the smaller code, if its heads are in the alphabet.
pub proof fn lemma_code_lex(alpha: Seq<Seq<char>>, p: TermView, x: TermView, y: TermView)
    requires
        x.len() == y.len(),
        heads_lt(x, y),
        forall|i: int| 0 <= i < x.len() ==> alpha.contains(#[trigger] x[i]),
    ensures
        code(alpha, p + x) < code(alpha, p + y),
    decreases x.len(),
{
    let x1 = x.drop_first();
    let y1 = y.drop_first();
    let px = p.push(x[0]);
    let py = p.push(y[0]);
    assert(p + x =~= px + x1);
    assert(p + y =~= py + y1);
    if x[0] == y[0] {
        assert forall|i: int| 0 <= i < x1.len() implies alpha.contains(#[trigger] x1[i]) by {
            assert(x1[i] == x[i + 1]);
        }
        lemma_code_lex(alpha, px, x1, y1);
    } else {
        lemma_rank_strict(alpha, x[0], y[0]);
        assert(px.drop_last() =~= p);
        assert(py.drop_last() =~= p);
        lemma_code_tail(alpha, px, py, x1, y1);
    }
}

} // verus!
