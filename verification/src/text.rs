use vstd::prelude::*;
use vstd::string::*;

verus! {

/// Order of two characters by code point.
pub open spec fn char_lt(a: char, b: char) -> bool {
    (a as int) < (b as int)
}

/// Lexicographic order of two strings by code point, the order that `str`
/// values have in Rust.
pub open spec fn str_lt(a: Seq<char>, b: Seq<char>) -> bool
    decreases a.len(),
{
    if b.len() == 0 {
        false
    } else if a.len() == 0 {
        true
    } else if a[0] == b[0] {
        str_lt(a.drop_first(), b.drop_first())
    } else {
        char_lt(a[0], b[0])
    }
}

/// No string comes before itself.
pub proof fn lemma_str_lt_irreflexive(a: Seq<char>)
    ensures
        !str_lt(a, a),
    decreases a.len(),
{
    if a.len() > 0 {
        lemma_str_lt_irreflexive(a.drop_first());
    }
}

/// Of two different strings one comes before the other.
pub proof fn lemma_str_lt_total(a: Seq<char>, b: Seq<char>)
    ensures
        a == b || str_lt(a, b) || str_lt(b, a),
    decreases a.len(),
{
    if a.len() == 0 || b.len() == 0 {
        if a.len() == 0 && b.len() == 0 {
            assert(a =~= b);
        }
    } else if a[0] == b[0] {
        lemma_str_lt_total(a.drop_first(), b.drop_first());
        if a.drop_first() == b.drop_first() {
            assert(a =~= seq![a[0]] + a.drop_first());
            assert(b =~= seq![b[0]] + b.drop_first());
        }
    }
}

/// A string that comes before one that comes before a third comes before
/// the third.
pub proof fn lemma_str_lt_transitive(a: Seq<char>, b: Seq<char>, c: Seq<char>)
    requires
        str_lt(a, b),
        str_lt(b, c),
    ensures
        str_lt(a, c),
    decreases a.len(),
{
    if a.len() > 0 && a[0] == b[0] && b[0] == c[0] {
        lemma_str_lt_transitive(a.drop_first(), b.drop_first(), c.drop_first());
    }
}

/// Whether `a` comes before `b` in the order of strings.
pub fn str_less(a: &str, b: &str) -> (r: bool)
    ensures
        r == str_lt(a@, b@),
{
    let n: usize = a.unicode_len();
    let m: usize = b.unicode_len();
    let mut i: usize = 0;
    proof {
        assert(a@.skip(0) =~= a@);
        assert(b@.skip(0) =~= b@);
    }
    while i < n && i < m
        invariant
            i <= n,
            i <= m,
            n == a@.len(),
            m == b@.len(),
            str_lt(a@, b@) == str_lt(a@.skip(i as int), b@.skip(i as int)),
        decreases n - i,
    {
        let ca: char = a.get_char(i);
        let cb: char = b.get_char(i);
        proof {
            assert(a@.skip(i as int).drop_first() =~= a@.skip(i + 1));
            assert(b@.skip(i as int).drop_first() =~= b@.skip(i + 1));
        }
        if ca != cb {
            return (ca as u32) < (cb as u32);
        }
        i += 1;
    }
    n < m
}

/// The character of a decimal digit.
pub open spec fn digit_char(d: nat) -> char {
    if d == 0 {
        '0'
    } else if d == 1 {
        '1'
    } else if d == 2 {
        '2'
    } else if d == 3 {
        '3'
    } else if d == 4 {
        '4'
    } else if d == 5 {
        '5'
    } else if d == 6 {
        '6'
    } else if d == 7 {
        '7'
    } else if d == 8 {
        '8'
    } else {
        '9'
    }
}

/// A number written in decimal digits.
pub open spec fn decimal(n: nat) -> Seq<char>
    decreases n,
{
    if n < 10 {
        seq![digit_char(n)]
    } else {
        decimal(n / 10).push(digit_char(n % 10))
    }
}

/// The string of a decimal digit.
fn digit_str(d: u32) -> (s: &'static str)
    requires
        d < 10,
    ensures
        s@ == seq![digit_char(d as nat)],
{
    proof {
        reveal_strlit("0");
        reveal_strlit("1");
        reveal_strlit("2");
        reveal_strlit("3");
        reveal_strlit("4");
        reveal_strlit("5");
        reveal_strlit("6");
        reveal_strlit("7");
        reveal_strlit("8");
        reveal_strlit("9");
    }
    let s = if d == 0 {
        "0"
    } else if d == 1 {
        "1"
    } else if d == 2 {
        "2"
    } else if d == 3 {
        "3"
    } else if d == 4 {
        "4"
    } else if d == 5 {
        "5"
    } else if d == 6 {
        "6"
    } else if d == 7 {
        "7"
    } else if d == 8 {
        "8"
    } else {
        "9"
    };
    proof {
        assert(s@ =~= seq![digit_char(d as nat)]);
    }
    s
}

/// Writes a number in decimal digits.
pub fn decimal_string(n: u32) -> (s: String)
    ensures
        s@ == decimal(n as nat),
    decreases n,
{
    if n < 10 {
        digit_str(n).to_owned()
    } else {
        let mut s: String = decimal_string(n / 10);
        s.append(digit_str(n % 10));
        proof {
            assert(s@ =~= decimal((n / 10) as nat).push(digit_char((n % 10) as nat)));
        }
        s
    }
}

/// The name of the variable with the number `k`: the letter `g` and the
/// number.
pub open spec fn fresh_name(k: int) -> Seq<char> {
    seq!['g'] + decimal(k as nat)
}

/// A number has at least one digit, and from 10 on at least two.
pub proof fn lemma_decimal_len(n: nat)
    ensures
        decimal(n).len() >= 1,
        n >= 10 ==> decimal(n).len() >= 2,
    decreases n,
{
    if n >= 10 {
        lemma_decimal_len(n / 10);
    }
}

/// Two numbers with the same digits are the same number.
pub proof fn lemma_decimal_injective(a: nat, b: nat)
    requires
        decimal(a) == decimal(b),
    ensures
        a == b,
    decreases a,
{
    lemma_decimal_len(a);
    lemma_decimal_len(b);
    if a < 10 {
        assert(decimal(a)[0] == digit_char(a));
        assert(decimal(b)[0] == digit_char(b));
    } else {
        assert(decimal(a).last() == digit_char(a % 10));
        assert(decimal(b).last() == digit_char(b % 10));
        assert(decimal(a).drop_last() =~= decimal(a / 10));
        assert(decimal(b).drop_last() =~= decimal(b / 10));
        lemma_decimal_injective(a / 10, b / 10);
    }
}

/// Variables with different numbers have different names.
pub proof fn lemma_fresh_names_differ(j: int, k: int)
    requires
        0 <= j,
        0 <= k,
        j != k,
    ensures
        fresh_name(j) != fresh_name(k),
{
    if fresh_name(j) == fresh_name(k) {
        assert(fresh_name(j).drop_first() =~= decimal(j as nat));
        assert(fresh_name(k).drop_first() =~= decimal(k as nat));
        lemma_decimal_injective(j as nat, k as nat);
    }
}

/// Writes the name of the variable with the number `k`.
pub fn fresh_name_string(k: u32) -> (s: String)
    ensures
        s@ == fresh_name(k as int),
{
    let mut s: String = "g".to_owned();
    proof {
        reveal_strlit("g");
        assert("g"@ =~= seq!['g']);
    }
    let digits: String = decimal_string(k);
    s.append(digits.as_str());
    s
}

} // verus!
