//! GCD and overflow-checked LCM over `u64`.
use vstd::prelude::*;
use vstd::arithmetic::div_mod::{lemma_fundamental_div_mod, lemma_mod_bound, lemma_small_mod};
use super::HyperperiodError;

verus! {

/// Euclid's greatest common divisor; `gcd(a, 0) == a`.
pub open spec fn spec_gcd(a: nat, b: nat) -> nat
    decreases b,
{
    if b == 0 {
        a
    } else {
        spec_gcd(b, a % b)
    }
}

/// `d` divides `n`.
pub open spec fn divides(d: int, n: int) -> bool {
    exists|k: int| #[trigger] (d * k) == n
}

/// The least common multiple by the textbook formula `a * b / gcd(a, b)`,
/// and `0` when either operand is `0`.
pub open spec fn spec_lcm(a: u64, b: u64) -> int {
    if a == 0 || b == 0 {
        0
    } else {
        (a * b) / (spec_gcd(a as nat, b as nat) as int)
    }
}

/// What `lcm` returns: the LCM, or `Overflow` when it does not fit in `u64`.
pub open spec fn lcm_result(a: u64, b: u64) -> Result<u64, HyperperiodError> {
    if spec_lcm(a, b) > u64::MAX {
        Err(HyperperiodError::Overflow { a, b })
    } else {
        Ok(spec_lcm(a, b) as u64)
    }
}

/// Left fold of `lcm` over `s`, starting from `seed`; stops at the first
/// overflow.
pub open spec fn lcm_fold(seed: u64, s: Seq<u64>) -> Result<u64, HyperperiodError>
    decreases s.len(),
{
    if s.len() == 0 {
        Ok(seed)
    } else {
        match lcm_fold(seed, s.drop_last()) {
            Ok(acc) => lcm_result(acc, s.last()),
            Err(e) => Err(e),
        }
    }
}

/// What `lcm_of_slice` returns: the fold seeded with the first element, or
/// with `0` for an empty slice.
pub open spec fn lcm_of_seq(s: Seq<u64>) -> Result<u64, HyperperiodError> {
    lcm_fold(if s.len() > 0 { s[0] } else { 0 }, s)
}

proof fn lemma_gcd_bound(a: nat, b: nat)
    ensures
        spec_gcd(a, b) <= if b == 0 { a } else if a == 0 { b } else if a < b { a } else { b },
        (a > 0 || b > 0) ==> spec_gcd(a, b) > 0,
    decreases b,
{
    if b > 0 {
        lemma_mod_bound(a as int, b as int);
        lemma_gcd_bound(b, a % b);
        if a < b {
            lemma_small_mod(a, b);
        } else if a % b > 0 {
            lemma_fundamental_div_mod(a as int, b as int);
        }
    }
}

/// The GCD divides both operands.
pub proof fn lemma_gcd_divides(a: nat, b: nat)
    ensures
        divides(spec_gcd(a, b) as int, a as int),
        divides(spec_gcd(a, b) as int, b as int),
    decreases b,
{
    let g = spec_gcd(a, b) as int;
    if b == 0 {
        assert(a as int == g * 1);
        assert(0 == g * 0);
    } else {
        lemma_gcd_divides(b, a % b);
        let k1 = choose|k: int| #[trigger] (g * k) == b as int;
        let k2 = choose|k: int| #[trigger] (g * k) == (a % b) as int;
        lemma_fundamental_div_mod(a as int, b as int);
        let q = (a as int) / (b as int);
        assert(a as int == g * (q * k1 + k2)) by (nonlinear_arith)
            requires
                a as int == (b as int) * q + (a % b) as int,
                b as int == g * k1,
                (a % b) as int == g * k2,
        ;
    }
}

/// `gcd` is symmetric, and `gcd(a, 0) == a`.
pub proof fn lemma_gcd_commutative(a: u64, b: u64)
    ensures
        spec_gcd(a as nat, b as nat) == spec_gcd(b as nat, a as nat),
        spec_gcd(a as nat, 0) == a,
{
    if a < b {
        lemma_small_mod(a as nat, b as nat);
    } else if b < a {
        lemma_small_mod(b as nat, a as nat);
    }
}

/// Division before multiplication computes the textbook LCM.
proof fn lemma_lcm_reduced(a: u64, b: u64)
    requires
        a > 0,
        b > 0,
    ensures
        spec_gcd(a as nat, b as nat) > 0,
        spec_lcm(a, b) == (a as int / spec_gcd(a as nat, b as nat) as int) * b,
        divides(spec_gcd(a as nat, b as nat) as int, a as int),
        a as int / spec_gcd(a as nat, b as nat) as int <= a,
{
    let g = spec_gcd(a as nat, b as nat) as int;
    lemma_gcd_bound(a as nat, b as nat);
    lemma_gcd_divides(a as nat, b as nat);
    let k = choose|k: int| #[trigger] (g * k) == a as int;
    assert(k >= 1 && k <= a) by (nonlinear_arith)
        requires
            a as int == g * k,
            g > 0,
            a > 0,
    ;
    assert(a as int / g == k) by {
        vstd::arithmetic::div_mod::lemma_div_multiples_vanish(k, g);
        assert(g * k == k * g) by (nonlinear_arith);
    }
    assert((a as int * b as int) / g == k * b) by {
        assert(a as int * b as int == g * (k * b)) by (nonlinear_arith)
            requires
                a as int == g * k,
        ;
        vstd::arithmetic::div_mod::lemma_div_multiples_vanish(k * b, g);
    }
}

/// The LCM, when it fits, is a common multiple of both operands.
pub proof fn lemma_lcm_is_common_multiple(a: u64, b: u64)
    ensures
        lcm_result(a, b) matches Ok(l) ==> (a > 0 ==> l % a == 0) && (b > 0 ==> l % b == 0),
{
    if a > 0 && b > 0 {
        lemma_lcm_reduced(a, b);
        let g = spec_gcd(a as nat, b as nat) as int;
        lemma_gcd_divides(a as nat, b as nat);
        let ka = choose|k: int| #[trigger] (g * k) == a as int;
        let kb = choose|k: int| #[trigger] (g * k) == b as int;
        assert(a as int / g == ka) by {
            vstd::arithmetic::div_mod::lemma_div_multiples_vanish(ka, g);
            assert(g * ka == ka * g) by (nonlinear_arith);
        }
        let l = spec_lcm(a, b);
        assert(l == ka * b);
        assert(l == kb * a) by (nonlinear_arith)
            requires
                l == ka * b,
                a as int == g * ka,
                b as int == g * kb,
        ;
        vstd::arithmetic::div_mod::lemma_mod_multiples_basic(ka, b as int);
        vstd::arithmetic::div_mod::lemma_mod_multiples_basic(kb, a as int);
        if l <= u64::MAX {
            assert((l as u64) % a == (kb * a) % (a as int));
            assert((l as u64) % b == (ka * b) % (b as int));
        }
    } else {
        if a > 0 {
            lemma_small_mod(0, a as nat);
        }
        if b > 0 {
            lemma_small_mod(0, b as nat);
        }
    }
}

/// A common divisor of `a` and `b` divides their GCD.
proof fn lemma_common_divisor_divides_gcd(a: nat, b: nat, d: int)
    requires
        divides(d, a as int),
        divides(d, b as int),
    ensures
        divides(d, spec_gcd(a, b) as int),
    decreases b,
{
    if b > 0 {
        let ka = choose|k: int| #[trigger] (d * k) == a as int;
        let kb = choose|k: int| #[trigger] (d * k) == b as int;
        lemma_fundamental_div_mod(a as int, b as int);
        let q = (a as int) / (b as int);
        assert((a % b) as int == d * (ka - q * kb)) by (nonlinear_arith)
            requires
                a as int == (b as int) * q + (a % b) as int,
                a as int == d * ka,
                b as int == d * kb,
        ;
        lemma_mod_bound(a as int, b as int);
        lemma_common_divisor_divides_gcd(b, a % b, d);
    }
}

/// Scaling both operands scales the GCD.
proof fn lemma_gcd_scale(a: nat, b: nat, k: nat)
    requires
        k > 0,
    ensures
        spec_gcd(k * a, k * b) == k * spec_gcd(a, b),
    decreases b,
{
    if b == 0 {
        assert(k * b == 0) by (nonlinear_arith)
            requires
                b == 0,
        ;
    } else {
        lemma_fundamental_div_mod(a as int, b as int);
        lemma_mod_bound(a as int, b as int);
        let q = (a as int) / (b as int);
        let r = (a % b) as int;
        assert(k * b > 0 && (k * a) as int == q * (k * b) + k * r && 0 <= k * r < k * b) by (nonlinear_arith)
            requires
                k > 0,
                b > 0,
                a as int == (b as int) * q + r,
                0 <= r < b,
        ;
        vstd::arithmetic::div_mod::lemma_fundamental_div_mod_converse((k * a) as int, (k * b) as int, q, k * r);
        assert(((k * a) % (k * b)) as int == k * r);
        lemma_gcd_scale(b, a % b, k);
        assert(k * (a % b) == k * r);
    }
}

/// The LCM is the least positive common multiple: it divides every positive
/// common multiple of `a` and `b`, so none is smaller.
pub proof fn lemma_lcm_is_least(a: u64, b: u64, m: int)
    requires
        a > 0,
        b > 0,
        m > 0,
        m % (a as int) == 0,
        m % (b as int) == 0,
    ensures
        divides(spec_lcm(a, b), m),
        spec_lcm(a, b) <= m,
{
    lemma_lcm_reduced(a, b);
    let g = spec_gcd(a as nat, b as nat) as int;
    lemma_gcd_divides(a as nat, b as nat);
    let a1 = choose|k: int| #[trigger] (g * k) == a as int;
    let b1 = choose|k: int| #[trigger] (g * k) == b as int;
    assert(a1 > 0 && b1 > 0) by (nonlinear_arith)
        requires
            g * a1 == a as int,
            g * b1 == b as int,
            g > 0,
            a > 0,
            b > 0,
    ;
    assert(a as int / g == a1) by {
        vstd::arithmetic::div_mod::lemma_div_multiples_vanish(a1, g);
        assert(g * a1 == a1 * g) by (nonlinear_arith);
    }
    // gcd(a1, b1) == 1
    lemma_gcd_scale(a1 as nat, b1 as nat, g as nat);
    assert((g as nat) * (a1 as nat) == a as nat && (g as nat) * (b1 as nat) == b as nat);
    assert(spec_gcd(a1 as nat, b1 as nat) == 1) by (nonlinear_arith)
        requires
            g == g * spec_gcd(a1 as nat, b1 as nat),
            g > 0,
    ;
    // m = a * x = b * y
    lemma_fundamental_div_mod(m, a as int);
    lemma_fundamental_div_mod(m, b as int);
    let x = m / (a as int);
    let y = m / (b as int);
    assert(y > 0 && a1 * x == b1 * y) by (nonlinear_arith)
        requires
            m == (a as int) * x,
            m == (b as int) * y,
            m > 0,
            b > 0,
            g > 0,
            g * a1 == a as int,
            g * b1 == b as int,
    ;
    // a1 divides a1 * y and b1 * y, hence their GCD, which is y.
    lemma_gcd_scale(a1 as nat, b1 as nat, y as nat);
    assert((y as nat) * (a1 as nat) == (a1 * y) as nat && (y as nat) * (b1 as nat) == (b1 * y) as nat) by (nonlinear_arith)
        requires
            y > 0,
            a1 > 0,
            b1 > 0,
    ;
    assert(divides(a1, a1 * y)) by {
        assert(a1 * y == a1 * y);
    }
    assert(divides(a1, b1 * y)) by {
        assert(a1 * x == b1 * y);
    }
    lemma_common_divisor_divides_gcd((a1 * y) as nat, (b1 * y) as nat, a1);
    assert(spec_gcd((a1 * y) as nat, (b1 * y) as nat) == y);
    let z = choose|k: int| #[trigger] (a1 * k) == y;
    let l = spec_lcm(a, b);
    assert(l == a1 * (b as int));
    assert(l > 0) by (nonlinear_arith)
        requires
            l == a1 * (b as int),
            a1 > 0,
            b > 0,
    ;
    assert(m == l * z && z >= 1 && l <= m) by (nonlinear_arith)
        requires
            m == (b as int) * y,
            y == a1 * z,
            l == a1 * (b as int),
            l > 0,
            m > 0,
            y > 0,
            a1 > 0,
    ;
}

/// `lcm` fails with `Overflow` exactly when the LCM exceeds `u64::MAX`.
pub proof fn lemma_lcm_overflow_iff(a: u64, b: u64)
    ensures
        lcm_result(a, b) is Err <==> spec_lcm(a, b) > u64::MAX,
        lcm_result(a, b) is Err ==> lcm_result(a, b) == Err::<u64, HyperperiodError>(HyperperiodError::Overflow { a, b }),
{
}

/// Iterative Euclidean GCD; `gcd(0, x) == x` and `gcd(0, 0) == 0`.
pub fn gcd(a: u64, b: u64) -> (r: u64)
    ensures
        r == spec_gcd(a as nat, b as nat),
{
    let mut x = a;
    let mut y = b;
    while y != 0
        invariant
            spec_gcd(x as nat, y as nat) == spec_gcd(a as nat, b as nat),
        decreases y,
    {
        let t = y;
        y = x % y;
        x = t;
    }
    x
}

/// Overflow-checked LCM: `Ok(0)` when either operand is `0`, otherwise
/// `(a / gcd(a, b)) * b`, or `Overflow { a, b }` when that exceeds `u64`.
pub fn lcm(a: u64, b: u64) -> (r: Result<u64, HyperperiodError>)
    ensures
        r == lcm_result(a, b),
{
    if a == 0 || b == 0 {
        return Ok(0);
    }
    let g = gcd(a, b);
    proof {
        lemma_lcm_reduced(a, b);
    }
    let reduced = a / g;
    match reduced.checked_mul(b) {
        Some(v) => Ok(v),
        None => Err(HyperperiodError::Overflow { a, b }),
    }
}

/// LCM of all periods: a left fold of `lcm` seeded with the first element
/// (`Ok(0)` for an empty slice), failing on the first overflow.
pub fn lcm_of_slice(periods: &[u64]) -> (r: Result<u64, HyperperiodError>)
    ensures
        r == lcm_of_seq(periods@),
{
    let seed = if periods.len() > 0 { periods[0] } else { 0 };
    let mut acc = seed;
    let mut i: usize = 0;
    while i < periods.len()
        invariant
            i <= periods@.len(),
            seed == (if periods@.len() > 0 { periods@[0] } else { 0 }),
            lcm_fold(seed, periods@.take(i as int)) == Ok::<u64, HyperperiodError>(acc),
        decreases periods@.len() - i,
    {
        proof {
            assert(periods@.take(i + 1).drop_last() =~= periods@.take(i as int));
        }
        match lcm(acc, periods[i]) {
            Ok(v) => {
                acc = v;
            },
            Err(e) => {
                proof {
                    lemma_fold_stays_err(seed, periods@, (i + 1) as int);
                    assert(periods@.take(periods@.len() as int) =~= periods@);
                }
                return Err(e);
            },
        }
        i = i + 1;
    }
    proof {
        assert(periods@.take(i as int) =~= periods@);
    }
    Ok(acc)
}

proof fn lemma_fold_stays_err(seed: u64, s: Seq<u64>, i: int)
    requires
        0 <= i <= s.len(),
        lcm_fold(seed, s.take(i)) is Err,
    ensures
        lcm_fold(seed, s.take(s.len() as int)) == lcm_fold(seed, s.take(i)),
    decreases s.len() - i,
{
    if i < s.len() {
        assert(s.take(i + 1).drop_last() =~= s.take(i));
        lemma_fold_stays_err(seed, s, i + 1);
    }
}

} // verus!
