//! From a vector of rationals to its primitive integer form.

use super::fraction::gcd_u128;
use super::lift::LiftError;
use crate::nt;
use vstd::prelude::*;

verus! {

/// The least common multiple.
pub open spec fn lcm(a: nat, b: nat) -> nat {
    (a / nt::gcd(a, b)) * b
}

/// The least common multiple of the first `i` denominators.
pub open spec fn den_lcm(rat: Seq<(u32, i128, u128)>, i: int) -> nat
    decreases i,
{
    if i <= 0 {
        1
    } else {
        lcm(den_lcm(rat, i - 1), rat[i - 1].2 as nat)
    }
}

/// Coordinate `i` over the common denominator.
pub open spec fn scaled(rat: Seq<(u32, i128, u128)>, i: int) -> int {
    rat[i].1 * (den_lcm(rat, rat.len() as int) as int / rat[i].2 as int)
}

/// The greatest common divisor of the first `i` coordinates over the common
/// denominator.
pub open spec fn content(rat: Seq<(u32, i128, u128)>, i: int) -> nat
    decreases i,
{
    if i <= 0 {
        0
    } else {
        nt::gcd(content(rat, i - 1), nt::abs(scaled(rat, i - 1)) as nat)
    }
}

/// Coordinate `i` is the first that is not zero.
pub open spec fn leads_at(rat: Seq<(u32, i128, u128)>, i: int) -> bool {
    &&& 0 <= i < rat.len()
    &&& scaled(rat, i) != 0
    &&& forall|j: int| 0 <= j < i ==> #[trigger] scaled(rat, j) == 0
}

/// The first nonzero coordinate is negative.
pub open spec fn leads_negative(rat: Seq<(u32, i128, u128)>) -> bool {
    exists|i: int| #[trigger] leads_at(rat, i) && scaled(rat, i) < 0
}

/// Coordinate `i` of the primitive integer form: over the common denominator, divided
/// by the content, with the first nonzero coordinate made positive.
pub open spec fn primitive(rat: Seq<(u32, i128, u128)>, i: int) -> int {
    let g = content(rat, rat.len() as int) as int;
    if g == 0 {
        0
    } else if leads_negative(rat) {
        -(scaled(rat, i) / g)
    } else {
        scaled(rat, i) / g
    }
}

/// The value fits an `i128`.
pub open spec fn fits(v: int) -> bool {
    i128::MIN <= v <= i128::MAX
}

/// The common denominator outgrows a `u128` at coordinate `i`.
pub open spec fn lcm_fails(rat: Seq<(u32, i128, u128)>, i: int) -> bool {
    den_lcm(rat, i + 1) > u128::MAX
}

/// Coordinate `i` over the common denominator, or the factor that takes it there,
/// outgrows an `i128`.
pub open spec fn scale_fails(rat: Seq<(u32, i128, u128)>, i: int) -> bool {
    den_lcm(rat, rat.len() as int) as int / rat[i].2 as int > i128::MAX || !fits(scaled(rat, i))
}

/// Clearing the denominators fails first at coordinate `i`.
pub open spec fn clearing_fails_at(rat: Seq<(u32, i128, u128)>, i: int) -> bool {
    &&& 0 <= i < rat.len()
    &&& {
        ||| lcm_fails(rat, i) && forall|j: int| 0 <= j < i ==> !#[trigger] lcm_fails(rat, j)
        ||| {
            &&& forall|j: int| 0 <= j < rat.len() ==> !#[trigger] lcm_fails(rat, j)
            &&& scale_fails(rat, i)
            &&& forall|j: int| 0 <= j < i ==> !#[trigger] scale_fails(rat, j)
        }
        ||| {
            &&& forall|j: int| 0 <= j < rat.len() ==> !#[trigger] lcm_fails(rat, j)
            &&& forall|j: int| 0 <= j < rat.len() ==> !#[trigger] scale_fails(rat, j)
            &&& !fits(primitive(rat, i))
            &&& forall|j: int| 0 <= j < i ==> fits(#[trigger] primitive(rat, j))
        }
    }
}

/// Clearing the denominators stays within 128 bits.
pub open spec fn clears(rat: Seq<(u32, i128, u128)>) -> bool {
    &&& forall|j: int| 0 <= j < rat.len() ==> !#[trigger] lcm_fails(rat, j)
    &&& forall|j: int| 0 <= j < rat.len() ==> !#[trigger] scale_fails(rat, j)
    &&& forall|j: int| 0 <= j < rat.len() ==> fits(#[trigger] primitive(rat, j))
}

/// `out` is the primitive integer form of `rat`.
pub open spec fn is_primitive(rat: Seq<(u32, i128, u128)>, out: Seq<(u32, i128)>) -> bool {
    &&& clears(rat)
    &&& out.len() == rat.len()
    &&& forall|i: int|
        0 <= i < rat.len() ==> (#[trigger] out[i]).0 == rat[i].0 && out[i].1 == primitive(rat, i)
}

/// Every denominator is positive.
pub open spec fn proper(rat: Seq<(u32, i128, u128)>) -> bool {
    forall|i: int| 0 <= i < rat.len() ==> (#[trigger] rat[i]).2 > 0
}

/// The common denominator is positive, and each denominator divides it.
pub proof fn lemma_den_lcm(rat: Seq<(u32, i128, u128)>, k: int)
    requires
        proper(rat),
        0 <= k <= rat.len(),
    ensures
        den_lcm(rat, k) >= 1,
        forall|i: int|
            0 <= i < k ==> nt::divides((#[trigger] rat[i]).2 as int, den_lcm(rat, k) as int),
    decreases k,
{
    if k > 0 {
        lemma_den_lcm(rat, k - 1);
        let l: nat = den_lcm(rat, k - 1);
        assert(rat[k - 1].2 > 0);
        let d: nat = rat[k - 1].2 as nat;
        let xy: (int, int) = nt::bezout(l, d);
        let g: int = nt::gcd(l, d) as int;
        let e: int = nt::divides_quotient(g, l as int);
        let f: int = nt::divides_quotient(g, d as int);
        assert(l as int / g == e) by {
            assert(e * g == g * e + 0) by (nonlinear_arith);
            vstd::arithmetic::div_mod::lemma_div_multiples_vanish(e, g);
            assert(g * e == e * g) by (nonlinear_arith);
        }
        let n: int = den_lcm(rat, k) as int;
        assert(n == e * d);
        assert(e >= 1) by (nonlinear_arith)
            requires
                l == e * g,
                l >= 1,
                g > 0,
        ;
        assert(n >= 1) by (nonlinear_arith)
            requires
                n == e * d,
                e >= 1,
                d >= 1,
        ;
        assert(e * (f * g) == f * (e * g)) by (nonlinear_arith);
        nt::divides_from_quotient(d as int, n, e);
        nt::divides_from_quotient(l as int, n, f);
        assert forall|i: int| 0 <= i < k implies nt::divides((#[trigger] rat[i]).2 as int, n) by {
            if i < k - 1 {
                nt::divides_trans(rat[i].2 as int, l as int, n);
            }
        }
    }
}

/// The content divides every coordinate, and vanishes only where all do.
pub proof fn lemma_content(rat: Seq<(u32, i128, u128)>, k: int)
    requires
        0 <= k <= rat.len(),
    ensures
        content(rat, k) == 0 ==> forall|i: int| 0 <= i < k ==> #[trigger] scaled(rat, i) == 0,
        content(rat, k) > 0 ==> forall|i: int|
            0 <= i < k ==> nt::divides(content(rat, k) as int, #[trigger] scaled(rat, i)),
    decreases k,
{
    if k > 0 {
        lemma_content(rat, k - 1);
        let c: nat = content(rat, k - 1);
        let v: int = scaled(rat, k - 1);
        let a: nat = nt::abs(v) as nat;
        if c > 0 || a > 0 {
            let xy: (int, int) = nt::bezout(c, a);
            let g: int = content(rat, k) as int;
            assert(nt::divides(g, v)) by {
                let q: int = nt::divides_quotient(g, a as int);
                if v < 0 {
                    assert(v == (-q) * g) by (nonlinear_arith)
                        requires
                            -v == q * g,
                    ;
                    nt::divides_from_quotient(g, v, -q);
                }
            }
            assert forall|i: int| 0 <= i < k implies nt::divides(g, #[trigger] scaled(rat, i)) by {
                if i < k - 1 {
                    if c > 0 {
                        assert(nt::divides(c as int, scaled(rat, i)));
                        nt::divides_trans(g, c as int, scaled(rat, i));
                    } else {
                        assert(scaled(rat, i) == 0);
                        nt::divides_from_quotient(g, 0, 0);
                    }
                }
            }
        }
    }
}

/// The size of a signed number.
fn magnitude(v: i128) -> (a: u128)
    ensures
        a == nt::abs(v as int),
{
    if v < 0 {
        (-(v + 1)) as u128 + 1
    } else {
        v as u128
    }
}

/// Is the first nonzero of the coordinates over the common denominator negative?
fn is_led_negative(out: &Vec<(u32, i128)>, Ghost(rat): Ghost<Seq<(u32, i128, u128)>>) -> (r: bool)
    requires
        out@.len() == rat.len(),
        forall|j: int| 0 <= j < out@.len() ==> (#[trigger] out@[j]).1 == scaled(rat, j),
    ensures
        r == leads_negative(rat),
{
    let mut i: usize = 0;
    while i < out.len() && out[i].1 == 0
        invariant
            i <= out@.len(),
            out@.len() == rat.len(),
            forall|j: int| 0 <= j < out@.len() ==> (#[trigger] out@[j]).1 == scaled(rat, j),
            forall|j: int| 0 <= j < i ==> #[trigger] scaled(rat, j) == 0,
        decreases out@.len() - i,
    {
        assert(out@[i as int].1 == scaled(rat, i as int));
        i += 1;
    }
    proof {
        if i < out@.len() {
            assert(out@[i as int].1 == scaled(rat, i as int));
            lemma_lead(rat, i as int);
        }
    }
    i < out.len() && out[i].1 < 0
}

/// One coordinate is the first that is not zero, and its sign is the one that counts.
pub proof fn lemma_lead(rat: Seq<(u32, i128, u128)>, i: int)
    requires
        leads_at(rat, i),
    ensures
        leads_negative(rat) <==> scaled(rat, i) < 0,
{
    if leads_negative(rat) {
        let k: int = choose|k: int| #[trigger] leads_at(rat, k) && scaled(rat, k) < 0;
        if k < i {
            assert(scaled(rat, k) == 0);
        } else if i < k {
            assert(scaled(rat, i) == 0);
        }
    }
}

/// Clears a vector of rationals to its primitive integer form: multiplies by the
/// denominators' least common multiple, divides by the content, and makes the first
/// nonzero coordinate positive.
pub fn clear_to_primitive(k: usize, rat: &Vec<(u32, i128, u128)>) -> (res: Result<
    Vec<(u32, i128)>,
    LiftError,
>)
    requires
        proper(rat@),
    ensures
        res matches Ok(out) ==> is_primitive(rat@, out@),
        res matches Err(e) ==> exists|i: int|
            #[trigger] clearing_fails_at(rat@, i) && e == (LiftError::Capacity {
                vector: k,
                coord: rat@[i].0,
            }),
{
    let mut l: u128 = 1;
    let mut i: usize = 0;
    while i < rat.len()
        invariant
            i <= rat@.len(),
            proper(rat@),
            l == den_lcm(rat@, i as int),
            l >= 1,
            forall|j: int| 0 <= j < i ==> !#[trigger] lcm_fails(rat@, j),
        decreases rat@.len() - i,
    {
        let d: u128 = rat[i].2;
        assert(rat@[i as int].2 > 0);
        let g: u128 = gcd_u128(l, d);
        proof {
            let xy: (int, int) = nt::bezout(l as nat, d as nat);
            lemma_den_lcm(rat@, i + 1);
        }
        match (l / g).checked_mul(d) {
            None => {
                proof {
                    assert(lcm_fails(rat@, i as int));
                    assert(clearing_fails_at(rat@, i as int));
                }
                return Err(LiftError::Capacity { vector: k, coord: rat[i].0 });
            },
            Some(v) => {
                l = v;
            },
        }
        i += 1;
    }
    let ghost len: int = rat@.len() as int;
    let mut out: Vec<(u32, i128)> = Vec::new();
    i = 0;
    while i < rat.len()
        invariant
            i <= rat@.len(),
            len == rat@.len(),
            proper(rat@),
            l == den_lcm(rat@, len),
            forall|j: int| 0 <= j < len ==> !#[trigger] lcm_fails(rat@, j),
            forall|j: int| 0 <= j < i ==> !#[trigger] scale_fails(rat@, j),
            out@.len() == i,
            forall|j: int|
                0 <= j < i ==> (#[trigger] out@[j]).0 == rat@[j].0 && out@[j].1 == scaled(rat@, j),
        decreases rat@.len() - i,
    {
        let (c, n, d): (u32, i128, u128) = rat[i];
        assert(rat@[i as int].2 > 0);
        let scale: u128 = l / d;
        if scale > i128::MAX as u128 {
            proof {
                assert(scale_fails(rat@, i as int));
                assert(clearing_fails_at(rat@, i as int));
            }
            return Err(LiftError::Capacity { vector: k, coord: c });
        }
        match n.checked_mul(scale as i128) {
            None => {
                proof {
                    assert(scale_fails(rat@, i as int));
                    assert(clearing_fails_at(rat@, i as int));
                }
                return Err(LiftError::Capacity { vector: k, coord: c });
            },
            Some(v) => {
                out.push((c, v));
            },
        }
        i += 1;
    }
    let mut g: u128 = 0;
    i = 0;
    while i < out.len()
        invariant
            i <= out@.len(),
            len == rat@.len(),
            out@.len() == len,
            forall|j: int|
                0 <= j < len ==> (#[trigger] out@[j]).0 == rat@[j].0 && out@[j].1 == scaled(
                    rat@,
                    j,
                ),
            g == content(rat@, i as int),
        decreases out@.len() - i,
    {
        g = gcd_u128(g, magnitude(out[i].1));
        i += 1;
    }
    proof {
        lemma_content(rat@, len);
    }
    let flip: bool = is_led_negative(&out, Ghost(rat@));
    let mut res: Vec<(u32, i128)> = Vec::new();
    i = 0;
    while i < out.len()
        invariant
            i <= out@.len(),
            len == rat@.len(),
            out@.len() == len,
            forall|j: int|
                0 <= j < len ==> (#[trigger] out@[j]).0 == rat@[j].0 && out@[j].1 == scaled(
                    rat@,
                    j,
                ),
            g == content(rat@, len),
            flip == leads_negative(rat@),
            g == 0 ==> forall|j: int| 0 <= j < len ==> #[trigger] scaled(rat@, j) == 0,
            g > 0 ==> forall|j: int|
                0 <= j < len ==> nt::divides(g as int, #[trigger] scaled(rat@, j)),
            forall|j: int| 0 <= j < len ==> !#[trigger] lcm_fails(rat@, j),
            forall|j: int| 0 <= j < len ==> !#[trigger] scale_fails(rat@, j),
            res@.len() == i,
            forall|j: int| 0 <= j < i ==> fits(#[trigger] primitive(rat@, j)),
            forall|j: int|
                0 <= j < i ==> (#[trigger] res@[j]).0 == rat@[j].0 && res@[j].1 == primitive(
                    rat@,
                    j,
                ),
        decreases out@.len() - i,
    {
        let (c, v): (u32, i128) = out[i];
        assert(out@[i as int].1 == scaled(rat@, i as int));
        if g == 0 {
            assert(scaled(rat@, i as int) == 0);
            res.push((c, 0));
        } else {
            let q: u128 = magnitude(v) / g;
            let negative: bool = (v < 0) != flip;
            proof {
                lemma_signed_quotient(v as int, g as int, q as int);
            }
            if negative {
                if q > 0x8000_0000_0000_0000_0000_0000_0000_0000u128 {
                    proof {
                        assert(!fits(primitive(rat@, i as int)));
                        assert(clearing_fails_at(rat@, i as int));
                    }
                    return Err(LiftError::Capacity { vector: k, coord: c });
                }
                let w: i128 = if q == 0 {
                    0
                } else {
                    -((q - 1) as i128) - 1
                };
                res.push((c, w));
            } else {
                if q > i128::MAX as u128 {
                    proof {
                        assert(!fits(primitive(rat@, i as int)));
                        assert(clearing_fails_at(rat@, i as int));
                    }
                    return Err(LiftError::Capacity { vector: k, coord: c });
                }
                res.push((c, q as i128));
            }
        }
        i += 1;
    }
    Ok(res)
}

/// An exact quotient, by size and sign.
proof fn lemma_signed_quotient(v: int, g: int, q: int)
    requires
        g > 0,
        nt::divides(g, v),
        q == nt::abs(v) / g,
    ensures
        v / g == if v < 0 {
            -q
        } else {
            q
        },
{
    let k: int = nt::divides_quotient(g, v);
    vstd::arithmetic::div_mod::lemma_div_multiples_vanish(k, g);
    assert(g * k == k * g) by (nonlinear_arith);
    assert(v / g == k);
    if v < 0 {
        assert(-v == g * (-k)) by (nonlinear_arith)
            requires
                v == k * g,
        ;
        vstd::arithmetic::div_mod::lemma_div_multiples_vanish(-k, g);
    }
}

} // verus!
