//! Number theory on machine integers: greatest common divisor and divisors.

use vstd::arithmetic::div_mod::{
    lemma_div_multiples_vanish, lemma_fundamental_div_mod, lemma_mod_multiples_vanish,
};
use vstd::prelude::*;
use crate::order::{sorted, total_order};
use crate::sort::merge;

verus! {

broadcast use vstd::string::group_string_axioms;

/// `d` divides `n`: some whole multiple of `d` is `n`.
pub open spec fn divides(d: int, n: int) -> bool {
    d != 0 && n % d == 0
}

/// `g` is the greatest common divisor of `a` and `b`: it divides both, and no
/// larger number does.
pub open spec fn is_gcd(a: int, b: int, g: int) -> bool {
    &&& g > 0
    &&& divides(g, a)
    &&& divides(g, b)
    &&& forall|d: int| d > 0 && #[trigger] divides(d, a) && divides(d, b) ==> d <= g
}

/// `d` is a divisor of `n` other than one and `n` itself.
pub open spec fn is_proper_factor(d: int, n: int) -> bool {
    1 < d < n && n % d == 0
}

/// Every element of `s` is smaller than each element after it.
pub open spec fn strictly_increasing(s: Seq<i64>) -> bool {
    forall|i: int, j: int| 0 <= i < j < s.len() ==> s[i] < s[j]
}

/// What the message of the error of [`gcd`] says.
pub open spec fn zero_input_message() -> Seq<char> {
    "0 cannot be used as an input for gcd"@
}

/// Two numbers have at most one greatest common divisor.
pub proof fn lemma_gcd_unique(a: int, b: int, g: int, h: int)
    requires
        is_gcd(a, b, g),
        is_gcd(a, b, h),
    ensures
        g == h,
{
}

/// The greatest common divisor does not depend on the order of the two
/// numbers.
pub proof fn lemma_gcd_symmetric(a: int, b: int, g: int)
    requires
        is_gcd(a, b, g),
    ensures
        is_gcd(b, a, g),
{
}

/// Taking a multiple of `y` away from `x` changes nothing about which
/// divisors of `y` divide it.
proof fn lemma_divides_remainder(d: int, x: int, y: int)
    requires
        d > 0,
        y > 0,
        divides(d, y),
    ensures
        divides(d, x) <==> divides(d, x % y),
{
    let q = x / y;
    let k = y / d;
    lemma_fundamental_div_mod(x, y);
    lemma_fundamental_div_mod(y, d);
    assert(y == d * k);
    assert(y * q == d * (k * q)) by (nonlinear_arith)
        requires
            y == d * k,
    {}
    assert(x == d * (k * q) + x % y);
    lemma_mod_multiples_vanish(k * q, x % y, d);
}

/// A divisor of a positive number is not larger than it.
pub proof fn lemma_divisor_bounded(d: int, n: int)
    requires
        d > 0,
        n > 0,
        divides(d, n),
    ensures
        d <= n,
{
    lemma_fundamental_div_mod(n, d);
    let k = n / d;
    assert(n == d * k);
    assert(k >= 1 ==> d * k >= d) by (nonlinear_arith)
        requires
            d > 0,
    {}
    assert(k <= 0 ==> d * k <= 0) by (nonlinear_arith)
        requires
            d > 0,
    {}
}

fn order_ascending(a: u64, b: u64) -> (r: (u64, u64))
    ensures
        r.0 <= r.1,
        (r.0 == a && r.1 == b) || (r.0 == b && r.1 == a),
{
    if a < b {
        (a, b)
    } else {
        (b, a)
    }
}

/// The greatest common divisor of `a` and `b`, by Euclid's algorithm. Zero has
/// no greatest common divisor with anything here: where either number is zero
/// the result is an error.
pub fn gcd(a: u64, b: u64) -> (r: Result<u64, String>)
    ensures
        r is Err <==> a == 0 || b == 0,
        r matches Ok(g) ==> is_gcd(a as int, b as int, g as int),
        r matches Err(message) ==> message@ == zero_input_message(),
{
    if a == 0 || b == 0 {
        return Err("0 cannot be used as an input for gcd".to_string());
    }
    if a == b {
        proof {
            assert forall|d: int| d > 0 && #[trigger] divides(d, a as int) implies d <= a by {
                lemma_divisor_bounded(d, a as int);
            }
        }
        return Ok(a);
    }
    let (mut smaller, mut larger) = order_ascending(a, b);
    loop
        invariant
            a > 0,
            b > 0,
            larger > 0,
            forall|d: int|
                d > 0 ==> ((#[trigger] divides(d, larger as int) && divides(d, smaller as int))
                    <==> (divides(d, a as int) && divides(d, b as int))),
        ensures
            is_gcd(a as int, b as int, larger as int),
        decreases smaller,
    {
        if smaller == 0 {
            proof {
                assert(divides(larger as int, larger as int) && divides(larger as int, 0));
                assert forall|d: int|
                    d > 0 && #[trigger] divides(d, a as int) && divides(d, b as int) implies d
                    <= larger by {
                    assert(divides(d, larger as int));
                    lemma_divisor_bounded(d, larger as int);
                }
            }
            break;
        }
        let rest = larger % smaller;
        proof {
            assert forall|d: int| d > 0 implies ((#[trigger] divides(d, smaller as int) && divides(
                d,
                rest as int,
            )) <==> (divides(d, a as int) && divides(d, b as int))) by {
                let both_before = divides(d, larger as int) && divides(d, smaller as int);
                assert(both_before <==> (divides(d, a as int) && divides(d, b as int)));
                if divides(d, smaller as int) {
                    lemma_divides_remainder(d, larger as int, smaller as int);
                    assert(divides(d, larger as int) <==> divides(d, rest as int));
                }
            }
        }
        larger = smaller;
        smaller = rest;
    }

    Ok(larger)
}

/// Whether `a` and `b` have no common divisor but one. Where either is zero
/// they have no greatest common divisor, and the answer is no.
pub fn relatively_prime(a: u64, b: u64) -> (r: bool)
    ensures
        r <==> a != 0 && b != 0 && is_gcd(a as int, b as int, 1),
{
    match gcd(a, b) {
        Ok(g) => g == 1,
        Err(_) => false,
    }
}

/// On `i64` the comparison operators compute the usual total order.
proof fn lemma_integers_in_order(s: Seq<i64>)
    ensures
        total_order::<i64>(),
        sorted(s) <==> forall|i: int, j: int| 0 <= i < j < s.len() ==> s[i] <= s[j],
{
    if sorted(s) {
        assert forall|i: int, j: int| 0 <= i < j < s.len() implies s[i] <= s[j] by {
            assert(crate::order::at_most(s[i], s[j]));
        }
    }
}

/// A proper factor `d` of `a` has a partner `a / d`, which is a proper factor
/// too, and whose partner is `d`.
proof fn lemma_cofactor(a: int, d: int)
    requires
        is_proper_factor(d, a),
    ensures
        d * (a / d) == a,
        is_proper_factor(a / d, a),
        a / (a / d) == d,
{
    let e = a / d;
    lemma_fundamental_div_mod(a, d);
    assert(e > 1) by (nonlinear_arith)
        requires
            d * e == a,
            1 < d < a,
    {}
    assert(e < a) by (nonlinear_arith)
        requires
            d * e == a,
            1 < d,
            e > 1,
    {}
    assert(e * d == a) by (nonlinear_arith)
        requires
            d * e == a,
    {}
    lemma_mod_multiples_vanish(d, 0, e);
    lemma_div_multiples_vanish(d, e);
}

/// Once `i` exceeds `a / i`, every proper factor of `a` is below `i` or is
/// the partner of one that is.
proof fn lemma_factor_pairs_cover(a: int, i: int, d: int)
    requires
        a > 0,
        i >= 2,
        i > a / i,
        is_proper_factor(d, a),
        d >= i,
    ensures
        1 < a / d < i,
        a % (a / d) == 0,
        a / (a / d) == d,
{
    let e = a / d;
    lemma_cofactor(a, d);
    lemma_fundamental_div_mod(a, i);
    let q = a / i;
    assert(a < i * i) by (nonlinear_arith)
        requires
            a == i * q + a % i,
            0 <= a % i < i,
            q < i,
            i >= 2,
    {}
    assert(e < i) by (nonlinear_arith)
        requires
            d * e == a,
            a < i * i,
            d >= i,
            i >= 2,
            e > 1,
    {}
}

/// What a sequence holds after one more element is appended.
proof fn lemma_push_contains(s: Seq<i64>, last: i64, x: i64)
    ensures
        s.push(last).contains(x) <==> s.contains(x) || x == last,
{
    let longer = s.push(last);
    if s.contains(x) {
        let k = choose|k: int| 0 <= k < s.len() && s[k] == x;
        assert(longer[k] == x);
    }
    if x == last {
        assert(longer[s.len() as int] == x);
    }
    if longer.contains(x) {
        let k = choose|k: int| 0 <= k < longer.len() && longer[k] == x;
        if k < s.len() {
            assert(s[k] == x);
        }
    }
}

/// The elements of a sorted array, each once.
fn dedup(values: &Vec<i64>) -> (kept: Vec<i64>)
    requires
        forall|i: int, j: int| 0 <= i < j < values.len() ==> values[i] <= values[j],
    ensures
        strictly_increasing(kept@),
        forall|x: i64| kept@.contains(x) <==> values@.contains(x),
{
    let mut kept: Vec<i64> = Vec::new();
    let mut i: usize = 0;
    while i < values.len()
        invariant
            i <= values.len(),
            forall|p: int, q: int| 0 <= p < q < values.len() ==> values[p] <= values[q],
            strictly_increasing(kept@),
            i == 0 ==> kept.len() == 0,
            i > 0 ==> kept.len() > 0 && kept[kept.len() - 1] == values[i - 1],
            forall|x: i64| kept@.contains(x) <==> values@.take(i as int).contains(x),
        decreases values.len() - i,
    {
        let value = values[i];
        let ghost before = kept@;
        let ghost seen = values@.take(i as int);
        proof {
            assert(values@.take(i + 1) =~= seen.push(value));
            assert forall|x: i64| before.contains(x) <==> seen.contains(x) by {}
        }
        if i == 0 || kept[kept.len() - 1] != value {
            kept.push(value);
            proof {
                assert forall|x: i64| kept@.contains(x) <==> seen.push(value).contains(x) by {
                    lemma_push_contains(before, value, x);
                    lemma_push_contains(seen, value, x);
                    assert(before.contains(x) <==> seen.contains(x));
                }
            }
        } else {
            proof {
                assert(before[before.len() - 1] == value);
                assert(before.contains(value));
                assert forall|x: i64| kept@.contains(x) <==> seen.push(value).contains(x) by {
                    lemma_push_contains(seen, value, x);
                    assert(before.contains(x) <==> seen.contains(x));
                }
            }
        }
        i += 1;
    }
    proof {
        assert(values@.take(i as int) =~= values@);
    }
    kept
}

/// The divisors of `a` other than one and `a` itself, in ascending order and
/// each once, or `None` where there is none: for a prime, for one, and for
/// every number below one.
pub fn factors(a: i64) -> (r: Option<Vec<i64>>)
    ensures
        match r {
            None => forall|d: int| !#[trigger] is_proper_factor(d, a as int),
            Some(found) => {
                &&& found@.len() > 0
                &&& strictly_increasing(found@)
                &&& forall|k: int|
                    0 <= k < found@.len() ==> is_proper_factor(
                        #[trigger] found@[k] as int,
                        a as int,
                    )
                &&& forall|d: int| #[trigger]
                    is_proper_factor(d, a as int) ==> found@.contains(d as i64)
            },
        },
{
    let mut factors: Vec<i64> = Vec::new();

    if a <= 0 {
        return None;
    }
    let mut i: i64 = 2;
    while i <= a / i
        invariant
            a > 0,
            2 <= i,
            forall|k: int|
                0 <= k < factors@.len() ==> is_proper_factor(
                    #[trigger] factors@[k] as int,
                    a as int,
                ),
            forall|d: int|
                d < i && #[trigger] is_proper_factor(d, a as int) ==> factors@.contains(d as i64)
                    && factors@.contains((a as int / d) as i64),
        decreases a - i,
    {
        let ghost before = factors@;
        proof {
            assert(a as int / i as int <= a / 2) by (nonlinear_arith)
                requires
                    a > 0,
                    i >= 2,
            {}
        }
        if a % i == 0 {
            factors.push(i);
            factors.push(a / i);
            proof {
                lemma_fundamental_div_mod(a as int, i as int);
                assert(i < a) by (nonlinear_arith)
                    requires
                        a == i * (a as int / i as int),
                        i <= a as int / i as int,
                        i >= 2,
                {}
                lemma_cofactor(a as int, i as int);
                assert(factors@[before.len() as int] == i);
                assert(factors@[before.len() as int + 1] == a / i);
            }
        }
        proof {
            assert forall|d: int| d < i + 1 && #[trigger] is_proper_factor(
                d,
                a as int,
            ) implies factors@.contains(d as i64) && factors@.contains((a as int / d) as i64) by {
                if d < i {
                    assert(before.contains(d as i64) && before.contains((a as int / d) as i64));
                    let k = choose|k: int| 0 <= k < before.len() && before[k] == d as i64;
                    assert(factors@[k] == d as i64);
                    let l = choose|l: int|
                        0 <= l < before.len() && before[l] == (a as int / d) as i64;
                    assert(factors@[l] == (a as int / d) as i64);
                }
            }
        }
        i += 1;
    }

    proof {
        assert forall|d: int| #[trigger] is_proper_factor(d, a as int) implies factors@.contains(
            d as i64,
        ) by {
            if d >= i {
                lemma_factor_pairs_cover(a as int, i as int, d);
                lemma_cofactor(a as int, d);
                assert(is_proper_factor(a as int / d, a as int));
            }
        }
    }
    if factors.is_empty() {
        proof {
            assert forall|d: int| !#[trigger] is_proper_factor(d, a as int) by {
                if is_proper_factor(d, a as int) {
                    assert(factors@.contains(d as i64));
                }
            }
        }
        return None;
    }
    let ghost collected = factors@;
    merge::sort_mut(&mut factors);
    proof {
        lemma_integers_in_order(factors@);
    }
    let found = dedup(&factors);
    proof {
        broadcast use vstd::seq_lib::to_multiset_contains;

        assert forall|x: i64| collected.contains(x) <==> factors@.contains(x) by {
            assert(collected.to_multiset().count(x) == factors@.to_multiset().count(x));
        }
        assert forall|k: int| 0 <= k < found@.len() implies is_proper_factor(
            #[trigger] found@[k] as int,
            a as int,
        ) by {
            assert(found@.contains(found@[k]));
            assert(collected.contains(found@[k]));
        }
        assert(found@.len() > 0) by {
            assert(collected.contains(collected[0]));
            assert(found@.contains(collected[0]));
        }
    }
    Some(found)
}

} // verus!
