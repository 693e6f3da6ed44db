use vstd::arithmetic::div_mod::{lemma_div_is_ordered, lemma_fundamental_div_mod, lemma_mod_pos_bound};
use vstd::prelude::*;

verus! {

/// Two to the power `e`.
pub open spec fn two_to(e: nat) -> nat
    decreases e,
{
    if e == 0 {
        1
    } else {
        2 * two_to((e - 1) as nat)
    }
}

/// The position of the highest bit of `n` that is set; zero for zero.
pub open spec fn top_bit(n: nat) -> nat
    decreases n,
{
    if n <= 1 {
        0
    } else {
        1 + top_bit(n / 2)
    }
}

/// The order key of the double nearest to the whole number `n >= 1`, ties going to the even
/// neighbour: the exponent above the fraction, as in the binary interchange format of 64 bits.
pub open spec fn magnitude_key(n: nat) -> int {
    let p = top_bit(n);
    if p <= 52 {
        (1023 + p) * two_to(52) + (n - two_to(p)) * two_to((52 - p) as nat)
    } else {
        let unit = two_to((p - 52) as nat);
        let kept = n / unit;
        let rest = n % unit;
        let up: int = if 2 * rest > unit || (2 * rest == unit && kept % 2 == 1) {
            1
        } else {
            0
        };
        (1023 + p) * two_to(52) + (kept + up - two_to(52))
    }
}

/// The order key of the double nearest to `i`. The key of a double that is not negative is
/// its bit pattern read as a number; the key of a negative double is the key of its absolute
/// value, negated. So keys are ordered as the doubles are.
pub open spec fn key_of_int(i: int) -> int {
    if i == 0 {
        0
    } else if i > 0 {
        magnitude_key(i as nat)
    } else {
        -magnitude_key((-i) as nat)
    }
}

/// Powers of two multiply as their exponents add.
pub proof fn lemma_two_to_adds(a: nat, b: nat)
    ensures
        two_to(a + b) == two_to(a) * two_to(b),
    decreases a,
{
    if a > 0 {
        lemma_two_to_adds((a - 1) as nat, b);
        assert(two_to(a + b) == 2 * two_to((a - 1 + b) as nat));
        assert(2 * (two_to((a - 1) as nat) * two_to(b)) == (2 * two_to((a - 1) as nat)) * two_to(b))
            by (nonlinear_arith);
    } else {
        assert(two_to(a) * two_to(b) == two_to(b)) by (nonlinear_arith)
            requires
                two_to(a) == 1,
        ;
    }
}

/// A number between two neighbouring powers of two has the exponent of the lower one as its top bit.
pub proof fn lemma_top_bit(n: nat, p: nat)
    requires
        two_to(p) <= n < 2 * two_to(p),
    ensures
        top_bit(n) == p,
    decreases p,
{
    if p > 0 {
        lemma_top_bit(n / 2, (p - 1) as nat);
    }
}

/// Three powers of two, written out.
pub proof fn lemma_two_to_values()
    ensures
        two_to(11) == 2048,
        two_to(52) == 0x10_0000_0000_0000,
        two_to(63) == 0x8000_0000_0000_0000,
{
    reveal_with_fuel(two_to, 12);
    assert(two_to(11) == 2048);
    assert(two_to(8) == 256);
    lemma_two_to_adds(11, 11);
    assert(two_to(22) == 4194304);
    lemma_two_to_adds(22, 22);
    assert(two_to(44) == 17592186044416);
    lemma_two_to_adds(44, 8);
    assert(two_to(52) == 0x10_0000_0000_0000);
    lemma_two_to_adds(52, 11);
}

/// The order key of the double nearest to the whole number `n >= 1`.
fn key_of_magnitude(n: u64) -> (key: i64)
    requires
        1 <= n <= 0x8000_0000_0000_0000,
    ensures
        key == magnitude_key(n as nat),
        0 < key,
{
    proof {
        lemma_two_to_values();
    }
    let mut p: u64 = 0;
    let mut power: u64 = 1;
    while power <= n / 2
        invariant
            p <= 63,
            power == two_to(p as nat),
            1 <= power <= n,
            n <= 0x8000_0000_0000_0000,
            two_to(63) == 0x8000_0000_0000_0000,
        decreases n - power,
    {
        power = power * 2;
        p = p + 1;
        assert(p <= 63) by {
            if p > 63 {
                assert(two_to(64) == 2 * two_to(63));
            }
        }
    }
    proof {
        lemma_top_bit(n as nat, p as nat);
    }
    let base: u64 = 0x10_0000_0000_0000;
    if p <= 52 {
        let scale: u64 = base / power;
        proof {
            lemma_two_to_adds(p as nat, (52 - p) as nat);
            let f = two_to((52 - p) as nat);
            assert(base == power * f);
            assert(scale == f) by (nonlinear_arith)
                requires
                    base == power * f,
                    scale == base / power,
                    power >= 1,
            ;
            assert((n - power) * scale < base) by (nonlinear_arith)
                requires
                    n - power < power,
                    0 <= n - power,
                    base == power * scale,
                    scale >= 0,
                    base > 0,
            ;
            assert((1023 + p) * base <= 1075 * base) by (nonlinear_arith)
                requires
                    p <= 52,
                    base > 0,
            ;
        }
        let high: u64 = (1023 + p) * base;
        let low: u64 = (n - power) * scale;
        (high + low) as i64
    } else {
        let unit: u64 = power / base;
        proof {
            lemma_two_to_adds(52, (p - 52) as nat);
            lemma_two_to_adds((p - 52) as nat, (63 - p) as nat);
            let u = two_to((p - 52) as nat);
            assert(power == base * u);
            assert(unit == u) by (nonlinear_arith)
                requires
                    power == base * u,
                    unit == power / base,
                    base == 0x10_0000_0000_0000,
            ;
            assert(u >= 2) by {
                assert(two_to((p - 52) as nat) == 2 * two_to((p - 53) as nat));
                lemma_two_to_positive((p - 53) as nat);
            }
        }
        let kept: u64 = n / unit;
        let rest: u64 = n % unit;
        proof {
            assert(base <= kept < 2 * base) by (nonlinear_arith)
                requires
                    power == base * unit,
                    power <= n < 2 * power,
                    kept == n / unit,
                    unit >= 2,
                    base == 0x10_0000_0000_0000,
            ;
            assert((1023 + p) * base <= 1086 * base) by (nonlinear_arith)
                requires
                    p <= 63,
                    base > 0,
            ;
        }
        let half: u64 = unit / 2;
        let up: u64 = if rest > half || (rest == half && kept % 2 == 1) {
            1
        } else {
            0
        };
        proof {
            assert(unit % 2 == 0) by {
                assert(two_to((p - 52) as nat) == 2 * two_to((p - 53) as nat));
            }
            assert((rest > half) == (2 * rest > unit));
            assert((rest == half) == (2 * rest == unit));
        }
        let high: u64 = (1023 + p) * base;
        (high + (kept + up - base)) as i64
    }
}

/// A power of two is at least one.
pub proof fn lemma_two_to_positive(e: nat)
    ensures
        two_to(e) >= 1,
    decreases e,
{
    if e > 0 {
        lemma_two_to_positive((e - 1) as nat);
    }
}

/// The order key of the double nearest to `i`: what `i` is widened to where a range of
/// integers meets a range of floating-point numbers.
pub fn key_from_int(i: i64) -> (key: i64)
    ensures
        key == key_of_int(i as int),
{
    if i == 0 {
        0
    } else if i > 0 {
        key_of_magnitude(i as u64)
    } else {
        let n: u64 = (-(i + 1)) as u64 + 1;
        -key_of_magnitude(n)
    }
}

/// A number lies between the power of two of its top bit and the next.
pub proof fn lemma_top_bit_bounds(n: nat)
    requires
        n >= 1,
    ensures
        two_to(top_bit(n)) <= n < 2 * two_to(top_bit(n)),
    decreases n,
{
    if n > 1 {
        lemma_top_bit_bounds(n / 2);
    }
}

/// A higher power of two is at least twice a lower one.
pub proof fn lemma_two_to_ascends(a: nat, b: nat)
    requires
        a < b,
    ensures
        2 * two_to(a) <= two_to(b),
    decreases b,
{
    if a + 1 < b {
        lemma_two_to_ascends(a, (b - 1) as nat);
    }
}

/// The top bit of a number is not below the top bit of a smaller one.
pub proof fn lemma_top_bit_ascends(n: nat, m: nat)
    requires
        1 <= n <= m,
    ensures
        top_bit(n) <= top_bit(m),
{
    lemma_top_bit_bounds(n);
    lemma_top_bit_bounds(m);
    if top_bit(n) > top_bit(m) {
        lemma_two_to_ascends(top_bit(m), top_bit(n));
    }
}

/// The key of a whole number lies in the range of the keys of its binary exponent.
pub proof fn lemma_magnitude_key_bounds(n: nat)
    requires
        n >= 1,
    ensures
        (1023 + top_bit(n)) * two_to(52) <= magnitude_key(n) <= (1024 + top_bit(n)) * two_to(52),
{
    let p = top_bit(n);
    let base = two_to(52);
    lemma_top_bit_bounds(n);
    lemma_two_to_positive(52);
    if p <= 52 {
        let scale = two_to((52 - p) as nat);
        lemma_two_to_adds(p, (52 - p) as nat);
        lemma_two_to_positive((52 - p) as nat);
        assert(0 <= (n - two_to(p)) * scale <= base) by (nonlinear_arith)
            requires
                0 <= n - two_to(p) < two_to(p),
                base == two_to(p) * scale,
                scale >= 1,
        ;
        assert((1024 + p) * base == (1023 + p) * base + base) by (nonlinear_arith);
    } else {
        let unit = two_to((p - 52) as nat);
        lemma_two_to_adds(52, (p - 52) as nat);
        lemma_two_to_positive((p - 52) as nat);
        let kept = n / unit;
        assert(base <= kept < 2 * base) by (nonlinear_arith)
            requires
                two_to(p) == base * unit,
                two_to(p) <= n < 2 * two_to(p),
                kept == n / unit,
                unit >= 1,
                base >= 1,
        ;
        assert((1024 + p) * base == (1023 + p) * base + base) by (nonlinear_arith);
    }
}

/// The keys of whole numbers from one on ascend with the numbers.
pub proof fn lemma_magnitude_key_ascends(n: nat, m: nat)
    requires
        1 <= n <= m,
    ensures
        magnitude_key(n) <= magnitude_key(m),
{
    let p = top_bit(n);
    let q = top_bit(m);
    let base = two_to(52);
    lemma_top_bit_ascends(n, m);
    lemma_magnitude_key_bounds(n);
    lemma_magnitude_key_bounds(m);
    lemma_two_to_positive(52);
    if p < q {
        assert((1024 + p) * base <= (1023 + q) * base) by (nonlinear_arith)
            requires
                p < q,
                base >= 1,
        ;
    } else if p <= 52 {
        let scale = two_to((52 - p) as nat);
        lemma_two_to_positive((52 - p) as nat);
        assert((n - two_to(p)) * scale <= (m - two_to(p)) * scale) by (nonlinear_arith)
            requires
                n <= m,
                scale >= 1,
        ;
    } else {
        let unit = two_to((p - 52) as nat);
        lemma_two_to_positive((p - 52) as nat);
        lemma_div_is_ordered(n as int, m as int, unit as int);
        lemma_fundamental_div_mod(n as int, unit as int);
        lemma_fundamental_div_mod(m as int, unit as int);
        lemma_mod_pos_bound(n as int, unit as int);
        lemma_mod_pos_bound(m as int, unit as int);
        if n / unit == m / unit {
            assert(n % unit <= m % unit);
        }
    }
}

/// The keys of whole numbers ascend with the numbers.
pub proof fn lemma_key_of_int_ascends(i: int, j: int)
    requires
        i <= j,
    ensures
        key_of_int(i) <= key_of_int(j),
{
    lemma_two_to_positive(52);
    if i > 0 {
        lemma_magnitude_key_ascends(i as nat, j as nat);
    } else if j < 0 {
        lemma_magnitude_key_ascends((-j) as nat, (-i) as nat);
    } else {
        if i < 0 {
            lemma_magnitude_key_bounds((-i) as nat);
            assert((1023 + top_bit((-i) as nat)) * two_to(52) >= 0) by (nonlinear_arith)
                requires
                    two_to(52) >= 0,
            ;
        }
        if j > 0 {
            lemma_magnitude_key_bounds(j as nat);
            assert((1023 + top_bit(j as nat)) * two_to(52) >= 0) by (nonlinear_arith)
                requires
                    two_to(52) >= 0,
            ;
        }
    }
}

} // verus!
