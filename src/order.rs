//! Lexical order on strings (by code point, as `String`'s `Ord` orders them).
use core::cmp::Ordering;
use vstd::prelude::*;

verus! {

/// `a <= b` lexically: by code point, a proper prefix first.
pub open spec fn lex_le(a: Seq<char>, b: Seq<char>) -> bool
    decreases a.len(),
{
    if a.len() == 0 {
        true
    } else if b.len() == 0 {
        false
    } else if a[0] != b[0] {
        a[0] < b[0]
    } else {
        lex_le(a.drop_first(), b.drop_first())
    }
}

pub proof fn lemma_lex_total(a: Seq<char>, b: Seq<char>)
    ensures
        lex_le(a, b) || lex_le(b, a),
    decreases a.len(),
{
    if a.len() > 0 && b.len() > 0 && a[0] == b[0] {
        lemma_lex_total(a.drop_first(), b.drop_first());
    }
}

pub proof fn lemma_lex_antisymmetric(a: Seq<char>, b: Seq<char>)
    requires
        lex_le(a, b),
        lex_le(b, a),
    ensures
        a == b,
    decreases a.len(),
{
    if a.len() > 0 && b.len() > 0 && a[0] == b[0] {
        lemma_lex_antisymmetric(a.drop_first(), b.drop_first());
        assert(a =~= seq![a[0]] + a.drop_first());
        assert(b =~= seq![b[0]] + b.drop_first());
    }
    if a.len() == 0 {
        assert(b.len() == 0);
        assert(a =~= b);
    }
}

pub proof fn lemma_lex_transitive(a: Seq<char>, b: Seq<char>, c: Seq<char>)
    requires
        lex_le(a, b),
        lex_le(b, c),
    ensures
        lex_le(a, c),
    decreases a.len(),
{
    if a.len() > 0 && b.len() > 0 && c.len() > 0 && a[0] == b[0] && b[0] == c[0] {
        lemma_lex_transitive(a.drop_first(), b.drop_first(), c.drop_first());
    }
}

pub proof fn lemma_lex_reflexive(a: Seq<char>)
    ensures
        lex_le(a, a),
    decreases a.len(),
{
    if a.len() > 0 {
        lemma_lex_reflexive(a.drop_first());
    }
}

/// Whether `a <= b` lexically.
pub fn string_le(a: &String, b: &String) -> (r: bool)
    ensures
        r == lex_le(a@, b@),
{
    let x = crate::text::chars_of(a.as_str());
    let y = crate::text::chars_of(b.as_str());
    let mut i: usize = 0;
    assert(a@.skip(0) =~= a@);
    assert(b@.skip(0) =~= b@);
    while i < x.len() && i < y.len()
        invariant
            x@ == a@,
            y@ == b@,
            i <= x@.len(),
            i <= y@.len(),
            lex_le(a@, b@) == lex_le(a@.skip(i as int), b@.skip(i as int)),
        decreases x@.len() - i,
    {
        let ghost sa = a@.skip(i as int);
        let ghost sb = b@.skip(i as int);
        assert(sa[0] == x@[i as int]);
        assert(sb[0] == y@[i as int]);
        if x[i] != y[i] {
            return x[i] < y[i];
        }
        assert(sa.drop_first() =~= a@.skip(i as int + 1));
        assert(sb.drop_first() =~= b@.skip(i as int + 1));
        i = i + 1;
    }
    x.len() - i == 0
}

/// The sign of `p * s - r * q`: how the fraction `p / q` compares with `r / s`.
pub open spec fn cross_cmp(p: int, q: int, r: int, s: int) -> int {
    if p * s < r * q {
        -1
    } else if p * s == r * q {
        0
    } else {
        1
    }
}

proof fn lemma_cross_step(a: int, b: int, q: int, s: int, pm: int, rm: int)
    requires
        q > 0,
        s > 0,
        0 <= pm < q,
        0 <= rm < s,
        a >= 0,
        b >= 0,
    ensures
        a < b ==> (a * q + pm) * s < (b * s + rm) * q,
        a > b ==> (a * q + pm) * s > (b * s + rm) * q,
        a == b ==> cross_cmp(a * q + pm, q, b * s + rm, s) == cross_cmp(s, rm, q, pm) || (pm == 0
            || rm == 0),
        a == b && pm == 0 && rm == 0 ==> (a * q + pm) * s == (b * s + rm) * q,
        a == b && pm == 0 && rm > 0 ==> (a * q + pm) * s < (b * s + rm) * q,
        a == b && pm > 0 && rm == 0 ==> (a * q + pm) * s > (b * s + rm) * q,
{
    assert((a * q + pm) * s - (b * s + rm) * q == (a - b) * (q * s) + (pm * s - rm * q))
        by (nonlinear_arith);
    assert(pm * s < q * s) by (nonlinear_arith)
        requires
            pm < q,
            s > 0,
    ;
    assert(rm * q < s * q) by (nonlinear_arith)
        requires
            rm < s,
            q > 0,
    ;
    assert(pm * s >= 0) by (nonlinear_arith)
        requires
            pm >= 0,
            s > 0,
    ;
    assert(rm * q >= 0) by (nonlinear_arith)
        requires
            rm >= 0,
            q > 0,
    ;
    if a < b {
        assert((a - b) * (q * s) <= -(q * s)) by (nonlinear_arith)
            requires
                a < b,
                q * s > 0,
        ;
    }
    if a > b {
        assert((a - b) * (q * s) >= q * s) by (nonlinear_arith)
            requires
                a > b,
                q * s > 0,
        ;
    }
    if a == b {
        assert((a - b) * (q * s) == 0) by (nonlinear_arith)
            requires
                a == b,
        ;
        assert(s * pm == pm * s) by (nonlinear_arith);
        assert(q * rm == rm * q) by (nonlinear_arith);
    }
    if pm > 0 {
        assert(pm * s > 0) by (nonlinear_arith)
            requires
                pm > 0,
                s > 0,
        ;
    }
    if rm > 0 {
        assert(rm * q > 0) by (nonlinear_arith)
            requires
                rm > 0,
                q > 0,
        ;
    }
}

/// Compares the fractions `p / q` and `r / s` exactly, without overflow.
pub fn fraction_cmp(p: u128, q: u128, r: u128, s: u128) -> (o: Ordering)
    requires
        q > 0,
        s > 0,
    ensures
        (o == Ordering::Less) <==> cross_cmp(p as int, q as int, r as int, s as int) == -1,
        (o == Ordering::Equal) <==> cross_cmp(p as int, q as int, r as int, s as int) == 0,
        (o == Ordering::Greater) <==> cross_cmp(p as int, q as int, r as int, s as int) == 1,
    decreases q + s,
{
    let a = p / q;
    let b = r / s;
    let pm = p % q;
    let rm = r % s;
    proof {
        vstd::arithmetic::div_mod::lemma_fundamental_div_mod(p as int, q as int);
        vstd::arithmetic::div_mod::lemma_fundamental_div_mod(r as int, s as int);
        assert(p == q * a + pm);
        assert(r == s * b + rm);
        assert(q * a == a * q) by (nonlinear_arith);
        assert(s * b == b * s) by (nonlinear_arith);
        lemma_cross_step(a as int, b as int, q as int, s as int, pm as int, rm as int);
    }
    if a < b {
        Ordering::Less
    } else if a > b {
        Ordering::Greater
    } else if pm == 0 && rm == 0 {
        Ordering::Equal
    } else if pm == 0 {
        Ordering::Less
    } else if rm == 0 {
        Ordering::Greater
    } else {
        fraction_cmp(s, rm, q, pm)
    }
}

/// Comparing fractions with positive denominators is a total preorder.
pub proof fn lemma_cross_transitive(p1: int, q1: int, pm: int, q2: int, p3: int, q3: int)
    requires
        q1 > 0,
        q2 > 0,
        q3 > 0,
    ensures
        cross_cmp(p1, q1, pm, q2) == -cross_cmp(pm, q2, p1, q1),
        cross_cmp(p1, q1, pm, q2) >= 0 && cross_cmp(pm, q2, p3, q3) >= 0 ==> cross_cmp(p1, q1, p3, q3)
            >= 0,
        cross_cmp(p1, q1, pm, q2) == 0 && cross_cmp(pm, q2, p3, q3) == 0 ==> cross_cmp(p1, q1, p3, q3)
            == 0,
        cross_cmp(p1, q1, pm, q2) > 0 && cross_cmp(pm, q2, p3, q3) >= 0 ==> cross_cmp(p1, q1, p3, q3)
            > 0,
        cross_cmp(p1, q1, pm, q2) >= 0 && cross_cmp(pm, q2, p3, q3) > 0 ==> cross_cmp(p1, q1, p3, q3)
            > 0,
{
    let x = p1 * q2 - pm * q1;
    let y = pm * q3 - p3 * q2;
    let z = p1 * q3 - p3 * q1;
    assert(q2 * z == q3 * x + q1 * y) by (nonlinear_arith)
        requires
            x == p1 * q2 - pm * q1,
            y == pm * q3 - p3 * q2,
            z == p1 * q3 - p3 * q1,
    ;
    assert(x >= 0 ==> q3 * x >= 0) by (nonlinear_arith)
        requires
            q3 > 0,
    ;
    assert(x > 0 ==> q3 * x > 0) by (nonlinear_arith)
        requires
            q3 > 0,
    ;
    assert(y >= 0 ==> q1 * y >= 0) by (nonlinear_arith)
        requires
            q1 > 0,
    ;
    assert(y > 0 ==> q1 * y > 0) by (nonlinear_arith)
        requires
            q1 > 0,
    ;
    assert(x == 0 ==> q3 * x == 0) by (nonlinear_arith);
    assert(y == 0 ==> q1 * y == 0) by (nonlinear_arith);
    assert(q2 * z >= 0 ==> z >= 0) by (nonlinear_arith)
        requires
            q2 > 0,
    ;
    assert(q2 * z > 0 ==> z > 0) by (nonlinear_arith)
        requires
            q2 > 0,
    ;
    assert(q2 * z == 0 ==> z == 0) by (nonlinear_arith)
        requires
            q2 > 0,
    ;
}

} // verus!
