use vstd::prelude::*;

verus! {

/// Number of values of a 64-bit integer.
pub open spec fn word_modulus() -> int {
    0x1_0000_0000_0000_0000
}

/// `x` is a whole multiple of `n`.
pub open spec fn multiple_of(x: int, n: int) -> bool {
    exists|k: int| #[trigger] (k * n) == x
}

/// For positive `n`, being a multiple of `n` is leaving no remainder.
pub proof fn lemma_multiple_of_mod(x: int, n: int)
    requires
        n > 0,
    ensures
        multiple_of(x, n) <==> x % n == 0,
{
    vstd::arithmetic::div_mod::lemma_fundamental_div_mod(x, n);
    if x % n == 0 {
        let k = x / n;
        assert(k * n == x) by (nonlinear_arith)
            requires
                x == n * k + 0,
        ;
    }
    if multiple_of(x, n) {
        let k = choose|k: int| #[trigger] (k * n) == x;
        vstd::arithmetic::div_mod::lemma_fundamental_div_mod_converse(x, n, k, 0);
    }
}

/// `d` divides `x`; zero divides only zero.
pub open spec fn divides(d: nat, x: nat) -> bool {
    if d == 0 {
        x == 0
    } else {
        x % d == 0
    }
}

/// `g` is the greatest common divisor of `a` and `b`: a common divisor that
/// every common divisor divides.
pub open spec fn is_gcd(a: nat, b: nat, g: nat) -> bool {
    &&& divides(g, a)
    &&& divides(g, b)
    &&& forall|d: nat| #[trigger] divides(d, a) && divides(d, b) ==> divides(d, g)
}

/// `m` is the least common multiple of `a` and `b`: a common multiple that
/// divides every common multiple.
pub open spec fn is_lcm(a: nat, b: nat, m: nat) -> bool {
    &&& divides(a, m)
    &&& divides(b, m)
    &&& forall|c: nat| #[trigger] divides(a, c) && divides(b, c) ==> divides(m, c)
}

/// Euclid's recurrence for the greatest common divisor.
pub open spec fn spec_gcd(a: nat, b: nat) -> nat
    decreases b,
{
    if b == 0 {
        a
    } else {
        spec_gcd(b, a % b)
    }
}

/// The least common multiple, as the product over the greatest common
/// divisor; zero when either argument is zero.
pub open spec fn spec_lcm(a: nat, b: nat) -> nat {
    if a == 0 || b == 0 {
        0
    } else {
        (a * b) / spec_gcd(a, b)
    }
}

/// `x` is a multiple of `d`, with its cofactor.
proof fn lemma_divides_witness(d: nat, x: nat)
    requires
        d > 0,
        divides(d, x),
    ensures
        x == d * (x / d),
{
    vstd::arithmetic::div_mod::lemma_fundamental_div_mod(x as int, d as int);
}

/// A multiple of `d` is divided by `d`.
proof fn lemma_multiple_divides(d: nat, k: int, x: nat)
    requires
        d > 0,
        x == d * k,
    ensures
        divides(d, x),
{
    assert(k >= 0) by (nonlinear_arith)
        requires
            d > 0,
            x == d * k,
            x >= 0,
    ;
    assert(x == k * d + 0) by (nonlinear_arith)
        requires
            x == d * k,
    ;
    vstd::arithmetic::div_mod::lemma_fundamental_div_mod_converse(x as int, d as int, k, 0);
}

pub proof fn lemma_gcd_positive(a: nat, b: nat)
    requires
        a > 0 || b > 0,
    ensures
        spec_gcd(a, b) > 0,
    decreases b,
{
    if b > 0 {
        lemma_gcd_positive(b, a % b);
    }
}

/// The recurrence computes a common divisor.
proof fn lemma_gcd_divides_both(a: nat, b: nat)
    ensures
        divides(spec_gcd(a, b), a),
        divides(spec_gcd(a, b), b),
    decreases b,
{
    if b == 0 {
        if a > 0 {
            vstd::arithmetic::div_mod::lemma_mod_self_0(a as int);
        }
    } else {
        let r = a % b;
        let g = spec_gcd(b, r);
        lemma_gcd_divides_both(b, r);
        lemma_gcd_positive(b, r);
        lemma_divides_witness(g, b);
        vstd::arithmetic::div_mod::lemma_fundamental_div_mod(a as int, b as int);
        let q = a / b;
        let kb = b / g;
        if r == 0 {
            assert(a == g * (q * kb)) by (nonlinear_arith)
                requires
                    a == b * q + r,
                    r == 0,
                    b == g * kb,
            ;
            lemma_multiple_divides(g, (q * kb) as int, a);
        } else {
            lemma_divides_witness(g, r);
            let kr = r / g;
            assert(a == g * (q * kb + kr)) by (nonlinear_arith)
                requires
                    a == b * q + r,
                    b == g * kb,
                    r == g * kr,
            ;
            lemma_multiple_divides(g, (q * kb + kr) as int, a);
        }
    }
}

/// Bezout's identity: the greatest common divisor is an integer combination
/// of the two arguments.
proof fn lemma_bezout(a: nat, b: nat) -> (xy: (int, int))
    ensures
        a * xy.0 + b * xy.1 == spec_gcd(a, b),
    decreases b,
{
    if b == 0 {
        (1, 0)
    } else {
        let r = a % b;
        let q = a / b;
        let (x, y) = lemma_bezout(b, r);
        vstd::arithmetic::div_mod::lemma_fundamental_div_mod(a as int, b as int);
        assert(a * y + b * (x - q * y) == b * x + r * y) by (nonlinear_arith)
            requires
                a == b * q + r,
        ;
        (y, x - q * y)
    }
}

/// Every common divisor divides the computed greatest common divisor.
proof fn lemma_common_divisor_divides_gcd(a: nat, b: nat, d: nat)
    requires
        divides(d, a),
        divides(d, b),
    ensures
        divides(d, spec_gcd(a, b)),
{
    if d == 0 {
        assert(spec_gcd(0, 0) == 0);
    } else {
        let (x, y) = lemma_bezout(a, b);
        lemma_divides_witness(d, a);
        lemma_divides_witness(d, b);
        let ka = a / d;
        let kb = b / d;
        let g = spec_gcd(a, b);
        assert(g == d * (ka * x + kb * y)) by (nonlinear_arith)
            requires
                a * x + b * y == g,
                a == d * ka,
                b == d * kb,
        ;
        lemma_multiple_divides(d, ka * x + kb * y, g);
    }
}

/// The recurrence computes the greatest common divisor.
pub proof fn lemma_spec_gcd_is_gcd(a: nat, b: nat)
    ensures
        is_gcd(a, b, spec_gcd(a, b)),
{
    lemma_gcd_divides_both(a, b);
    assert forall|d: nat| #[trigger] divides(d, a) && divides(d, b) implies divides(
        d,
        spec_gcd(a, b),
    ) by {
        lemma_common_divisor_divides_gcd(a, b, d);
    }
}

/// The product over the greatest common divisor is the least common
/// multiple.
pub proof fn lemma_spec_lcm_is_lcm(a: nat, b: nat)
    ensures
        is_lcm(a, b, spec_lcm(a, b)),
        a > 0 && b > 0 ==> spec_lcm(a, b) > 0,
{
    let l = spec_lcm(a, b);
    if a == 0 || b == 0 {
        assert forall|c: nat| #[trigger] divides(a, c) && divides(b, c) implies divides(l, c) by {}
        if a > 0 {
            vstd::arithmetic::div_mod::lemma_mod_self_0(a as int);
            assert(0nat % a == 0) by {
                vstd::arithmetic::div_mod::lemma_small_mod(0, a);
            }
        }
        if b > 0 {
            assert(0nat % b == 0) by {
                vstd::arithmetic::div_mod::lemma_small_mod(0, b);
            }
        }
    } else {
        let g = spec_gcd(a, b);
        lemma_gcd_positive(a, b);
        lemma_gcd_divides_both(a, b);
        lemma_divides_witness(g, a);
        lemma_divides_witness(g, b);
        let ka = a / g;
        let kb = b / g;
        assert(a * b == g * (ka * b)) by (nonlinear_arith)
            requires
                a == g * ka,
        ;
        vstd::arithmetic::div_mod::lemma_div_multiples_vanish((ka * b) as int, g as int);
        assert(l == ka * b);
        assert(l == a * kb) by (nonlinear_arith)
            requires
                l == ka * b,
                a == g * ka,
                b == g * kb,
        ;
        lemma_multiple_divides(a, kb as int, l);
        lemma_multiple_divides(b, ka as int, l);
        assert(l > 0) by (nonlinear_arith)
            requires
                l == ka * b,
                a == g * ka,
                a > 0,
                b > 0,
        ;
        assert forall|c: nat| #[trigger] divides(a, c) && divides(b, c) implies divides(l, c) by {
            let (x, y) = lemma_bezout(a, b);
            lemma_divides_witness(a, c);
            lemma_divides_witness(b, c);
            let u = c / a;
            let s = c / b;
            assert(g * c == g * (ka * b * (s * x + u * y))) by (nonlinear_arith)
                requires
                    a * x + b * y == g,
                    c == a * u,
                    c == b * s,
                    a == g * ka,
            ;
            assert(c == (ka * b) * (s * x + u * y)) by (nonlinear_arith)
                requires
                    g * c == g * (ka * b * (s * x + u * y)),
                    g > 0,
            ;
            assert(l > 0) by (nonlinear_arith)
                requires
                    l == ka * b,
                    a == g * ka,
                    a > 0,
                    b > 0,
            ;
            lemma_multiple_divides(l, s * x + u * y, c);
        }
    }
}

/// Divisibility is transitive.
pub proof fn lemma_divides_transitive(x: nat, y: nat, z: nat)
    requires
        divides(x, y),
        divides(y, z),
    ensures
        divides(x, z),
{
    if x == 0 {
    } else if y == 0 {
        assert(z == 0);
        assert(0nat % x == 0) by {
            vstd::arithmetic::div_mod::lemma_small_mod(0, x);
        }
    } else {
        lemma_divides_witness(x, y);
        lemma_divides_witness(y, z);
        let i = y / x;
        let j = z / y;
        assert(z == x * (i * j)) by (nonlinear_arith)
            requires
                y == x * i,
                z == y * j,
        ;
        lemma_multiple_divides(x, (i * j) as int, z);
    }
}

/// Two naturals that divide each other are equal.
pub proof fn lemma_divides_antisymmetric(x: nat, y: nat)
    requires
        divides(x, y),
        divides(y, x),
    ensures
        x == y,
{
    if x == 0 {
    } else if y == 0 {
    } else {
        lemma_divides_witness(x, y);
        lemma_divides_witness(y, x);
        let i = y / x;
        let j = x / y;
        assert(x == y) by (nonlinear_arith)
            requires
                y == x * i,
                x == y * j,
                x > 0,
                y > 0,
                i >= 0,
                j >= 0,
        ;
    }
}

/// A pair of naturals has at most one greatest common divisor.
pub proof fn lemma_gcd_unique(a: nat, b: nat, g1: nat, g2: nat)
    requires
        is_gcd(a, b, g1),
        is_gcd(a, b, g2),
    ensures
        g1 == g2,
{
    assert(divides(g1, a) && divides(g1, b));
    assert(divides(g2, a) && divides(g2, b));
    lemma_divides_antisymmetric(g1, g2);
}

/// A pair of naturals has at most one least common multiple.
pub proof fn lemma_lcm_unique(a: nat, b: nat, m1: nat, m2: nat)
    requires
        is_lcm(a, b, m1),
        is_lcm(a, b, m2),
    ensures
        m1 == m2,
{
    assert(divides(a, m1) && divides(b, m1));
    assert(divides(a, m2) && divides(b, m2));
    lemma_divides_antisymmetric(m1, m2);
}

/// The least common multiple does not depend on the order of its
/// arguments.
pub proof fn lemma_lcm_commutative(a: nat, b: nat)
    ensures
        spec_lcm(a, b) == spec_lcm(b, a),
{
    lemma_spec_lcm_is_lcm(a, b);
    lemma_spec_lcm_is_lcm(b, a);
    let m = spec_lcm(a, b);
    assert forall|c: nat| #[trigger] divides(b, c) && divides(a, c) implies divides(m, c) by {
        assert(divides(a, c) && divides(b, c));
    }
    lemma_lcm_unique(b, a, spec_lcm(a, b), spec_lcm(b, a));
}

/// The least common multiple of three positive naturals does not depend on
/// how the arguments are grouped.
pub proof fn lemma_lcm_associative(a: nat, b: nat, c: nat)
    requires
        a > 0,
        b > 0,
        c > 0,
    ensures
        spec_lcm(spec_lcm(a, b), c) == spec_lcm(a, spec_lcm(b, c)),
{
    let ab = spec_lcm(a, b);
    let bc = spec_lcm(b, c);
    let l = spec_lcm(ab, c);
    let r = spec_lcm(a, bc);
    lemma_spec_lcm_is_lcm(a, b);
    lemma_spec_lcm_is_lcm(b, c);
    lemma_spec_lcm_is_lcm(ab, c);
    lemma_spec_lcm_is_lcm(a, bc);
    // l is a multiple of a, b and c, hence of a and bc
    assert(divides(ab, l) && divides(c, l));
    lemma_divides_transitive(a, ab, l);
    lemma_divides_transitive(b, ab, l);
    assert(divides(b, l) && divides(c, l));
    assert(divides(bc, l));
    assert(divides(a, l) && divides(bc, l));
    assert(divides(r, l));
    // r is a multiple of a, b and c, hence of ab and c
    assert(divides(a, r) && divides(bc, r));
    lemma_divides_transitive(b, bc, r);
    lemma_divides_transitive(c, bc, r);
    assert(divides(a, r) && divides(b, r));
    assert(divides(ab, r));
    assert(divides(ab, r) && divides(c, r));
    assert(divides(l, r));
    lemma_divides_antisymmetric(l, r);
}

/// How many of the naturals below `n` satisfy `pred`.
pub open spec fn count_below(pred: spec_fn(int) -> bool, n: nat) -> nat
    decreases n,
{
    if n == 0 {
        0
    } else {
        count_below(pred, (n - 1) as nat) + if pred(n - 1) {
            1nat
        } else {
            0nat
        }
    }
}

/// The naturals below `n` that lie in `[lo, hi)` number `min(n, hi) - lo`,
/// or none.
pub proof fn lemma_count_interval(pred: spec_fn(int) -> bool, lo: int, hi: int, n: nat)
    requires
        0 <= lo,
        forall|x: int| #[trigger] pred(x) <==> lo <= x < hi,
    ensures
        count_below(pred, n) == (if n <= lo { 0 } else if n <= hi { n - lo } else if hi <= lo { 0 } else { hi - lo }),
    decreases n,
{
    if n > 0 {
        lemma_count_interval(pred, lo, hi, (n - 1) as nat);
        assert(pred(n - 1) <==> lo <= n - 1 < hi);
    }
}

/// The naturals below `n` outside `[hi, lo)`, for `hi <= lo`, number all
/// but those in the gap.
pub proof fn lemma_count_outside(pred: spec_fn(int) -> bool, hi: int, lo: int, n: nat)
    requires
        0 <= hi <= lo,
        forall|x: int| #[trigger] pred(x) <==> x < hi || x >= lo,
    ensures
        count_below(pred, n) == (if n <= hi { n as int } else if n <= lo { hi } else { hi + n - lo }),
    decreases n,
{
    if n > 0 {
        lemma_count_outside(pred, hi, lo, (n - 1) as nat);
        assert(pred(n - 1) <==> (n - 1 < hi || n - 1 >= lo));
    }
}

/// Greatest common divisor, by Euclid's algorithm.
pub fn gcd(a: u64, b: u64) -> (r: u64)
    ensures
        r == spec_gcd(a as nat, b as nat),
        is_gcd(a as nat, b as nat, r as nat),
{
    let mut x = a;
    let mut y = b;
    while y != 0
        invariant
            spec_gcd(x as nat, y as nat) == spec_gcd(a as nat, b as nat),
        decreases y,
    {
        let t = y;
        y = x % y;
        x = t;
    }
    proof {
        lemma_spec_gcd_is_gcd(a as nat, b as nat);
    }
    x
}

/// Least common multiple. Both arguments zero is refused (the greatest
/// common divisor is then zero), and so is a result past `u64::MAX`.
pub fn lcm(a: u64, b: u64) -> (r: u64)
    requires
        a > 0 || b > 0,
        spec_lcm(a as nat, b as nat) <= u64::MAX,
    ensures
        r == spec_lcm(a as nat, b as nat),
        is_lcm(a as nat, b as nat, r as nat),
{
    let g = gcd(a, b);
    proof {
        lemma_gcd_positive(a as nat, b as nat);
        lemma_gcd_divides_both(a as nat, b as nat);
        lemma_spec_lcm_is_lcm(a as nat, b as nat);
        if a > 0 && b > 0 {
            lemma_divides_witness(g as nat, a as nat);
            let ka = a as nat / g as nat;
            assert(a * b == g * (ka * b)) by (nonlinear_arith)
                requires
                    a == g * ka,
            ;
            vstd::arithmetic::div_mod::lemma_div_multiples_vanish((ka * b) as int, g as int);
        } else if a == 0 {
            assert(0nat / (g as nat) == 0) by {
                vstd::arithmetic::div_mod::lemma_div_basics(g as int);
            }
        }
    }
    a / g * b
}

} // verus!
