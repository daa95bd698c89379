//! Arithmetic of IEEE 754 double precision.
//!
//! Every such number is, but for its sign, a whole multiple of the smallest one,
//! 2^-1074, and is held as that multiple. A result is exact and then rounded to 53 significant
//! bits, to nearest, ties to even. Numbers too large for the format are kept:
//! no use here tells them from infinity.

use vstd::arithmetic::power2::lemma2_to64;
use vstd::arithmetic::power2::lemma_pow2_adds;
use vstd::arithmetic::power2::lemma_pow2_pos;
use vstd::arithmetic::power2::lemma_pow2_unfold;
use vstd::arithmetic::power2::pow2;
use vstd::prelude::*;
use vstd::string::StringExecFns;
use crate::bignat::BigNat;
use crate::bignat::Order;
use crate::decimal::decimal;
use crate::decimal::decimal_reads_back;
use crate::decimal::digits_count_by_place;
use crate::decimal::digits_value;
use crate::decimal::padded_decimal;
use crate::decimal::padded_decimal_of;
use crate::decimal::padded_decimal_reads_back;
use crate::decimal::small_numbers_are_short;
use crate::text::is_digit;

verus! {

/// One, in multiples of 2^-1074.
pub open spec fn one() -> nat {
    pow2(1074)
}

/// `n / d` rounded to the nearest whole number, ties to even.
pub open spec fn nearest(n: nat, d: nat) -> nat {
    let q = n / d;
    let r = n % d;
    if 2 * r < d || (2 * r == d && q % 2 == 0) {
        q
    } else {
        q + 1
    }
}

/// `n / d` rounded to 53 significant bits, and to a whole number.
pub open spec fn rounded(n: nat, d: nat) -> nat
    decreases n - d,
{
    if d == 0 || n < d * 0x20_0000_0000_0000 {
        nearest(n, d)
    } else {
        2 * rounded(n, 2 * d)
    }
}

/// The number nearest to `n`.
pub open spec fn from_integer(n: nat) -> nat {
    rounded(n * one(), 1)
}

pub open spec fn product(a: nat, b: nat) -> nat {
    rounded(a * b, one())
}

pub open spec fn quotient(a: nat, b: nat) -> nat {
    rounded(a * one(), b)
}

/// A number with its sign.
pub ghost struct Signed {
    pub negative: bool,
    pub size: nat,
}

/// The sum of two numbers. A sum of nothing is not negative.
pub open spec fn sum(a: Signed, b: Signed) -> Signed {
    if a.negative == b.negative {
        Signed { negative: a.negative && a.size + b.size > 0, size: rounded(a.size + b.size, 1) }
    } else if a.size > b.size {
        Signed { negative: a.negative, size: rounded((a.size - b.size) as nat, 1) }
    } else {
        Signed {
            negative: b.negative && a.size < b.size,
            size: rounded((b.size - a.size) as nat, 1),
        }
    }
}

/// The number in decimal with four places behind the point, rounded to nearest,
/// ties to even.
pub open spec fn four_places(v: Signed) -> Seq<char> {
    let n = nearest(v.size * 10000, one());
    (if v.negative {
        seq!['-']
    } else {
        Seq::empty()
    }) + decimal(n / 10000) + seq!['.'] + padded_decimal((n % 10000) as int, 4)
}

/// Quotient and remainder of `n / d`, for a quotient below 2^k.
pub fn divide(n: &BigNat, d: &BigNat, k: u32) -> (r: (u64, BigNat))
    requires
        d@ > 0,
        k <= 64,
        n@ < d@ * pow2(k as nat),
    ensures
        r.0 == n@ / d@,
        r.1@ == n@ % d@,
        r.0 < pow2(k as nat),
    decreases k,
{
    proof {
        lemma2_to64();
    }
    if k == 0 {
        proof {
            assert(k as nat == 0);
            assert(d@ * pow2(0) == d@) by (nonlinear_arith)
                requires
                    pow2(0) == 1,
            ;
            vstd::arithmetic::div_mod::lemma_basic_div(n@ as int, d@ as int);
            vstd::arithmetic::div_mod::lemma_small_mod(n@, d@);
        }
        (0, n.copy())
    } else {
        proof {
            lemma_pow2_unfold(k as nat);
            lemma_pow2_strictly_below(k as nat);
            let h = pow2((k - 1) as nat);
            assert((2 * d@) * h == d@ * (2 * h)) by (nonlinear_arith);
        }
        let twice = d.times_plus(2, 0);
        let (q, rest) = divide(n, &twice, k - 1);
        let ghost qn = q as int;
        proof {
            vstd::arithmetic::div_mod::lemma_fundamental_div_mod(n@ as int, twice@ as int);
            vstd::arithmetic::div_mod::lemma_mod_bound(n@ as int, twice@ as int);
        }
        if rest.below(d) {
            proof {
                assert(n@ as int == d@ * (2 * qn) + rest@) by (nonlinear_arith)
                    requires
                        n@ as int == (d@ * 2) * qn + rest@,
                ;
                vstd::arithmetic::div_mod::lemma_fundamental_div_mod_converse(
                    n@ as int,
                    d@ as int,
                    2 * qn,
                    rest@ as int,
                );
            }
            (2 * q, rest)
        } else {
            let less = rest.minus(d);
            proof {
                assert(n@ as int == d@ * (2 * qn + 1) + less@) by (nonlinear_arith)
                    requires
                        n@ as int == (d@ * 2) * qn + rest@,
                        less@ == rest@ - d@,
                ;
                vstd::arithmetic::div_mod::lemma_fundamental_div_mod_converse(
                    n@ as int,
                    d@ as int,
                    2 * qn + 1,
                    less@ as int,
                );
            }
            (2 * q + 1, less)
        }
    }
}

proof fn lemma_pow2_strictly_below(k: nat)
    requires
        0 < k <= 64,
    ensures
        pow2(k) <= 0x1_0000_0000_0000_0000,
        pow2(k) == 2 * pow2((k - 1) as nat),
{
    lemma_pow2_unfold(k);
    lemma2_to64();
    if k < 64 {
        vstd::arithmetic::power2::lemma_pow2_strictly_increases(k, 64);
    }
}

/// `n / d` rounded to 53 significant bits.
pub fn round(n: &BigNat, d: &BigNat) -> (r: BigNat)
    requires
        d@ > 0,
    ensures
        r@ == rounded(n@, d@),
    decreases n@ - d@,
{
    let limit = d.times_plus(0x800_0000, 0).times_plus(0x400_0000, 0);
    proof {
        assert(d@ * 0x800_0000 * 0x400_0000 == d@ * 0x20_0000_0000_0000) by (nonlinear_arith);
        lemma2_to64();
        lemma_pow2_adds(32, 21);
        assert(pow2(53) == 0x20_0000_0000_0000);
    }
    if n.below(&limit) {
        let (q, rest) = divide(n, d, 53);
        let twice = rest.times_plus(2, 0);
        let up = match twice.order(d) {
            Order::Below => false,
            Order::Equal => q % 2 != 0,
            Order::Above => true,
        };
        if up {
            BigNat::of(q + 1)
        } else {
            BigNat::of(q)
        }
    } else {
        assert(n@ >= 2 * d@);
        round(n, &d.times_plus(2, 0)).times_plus(2, 0)
    }
}

/// `a`, in multiples of 2^-1074.
pub fn in_units(a: &BigNat) -> (r: BigNat)
    ensures
        r@ == a@ * one(),
{
    let mut r = a.copy();
    let mut i: u32 = 0;
    proof {
        lemma2_to64();
    }
    while i < 1074
        invariant
            i <= 1074,
            i % 3 == 0,
            r@ == a@ * pow2(i as nat),
        decreases 1074 - i,
    {
        proof {
            lemma2_to64();
            lemma_pow2_adds(i as nat, 3);
            let x = pow2(i as nat);
            assert(a@ * x * 8 == a@ * (x * 8)) by (nonlinear_arith);
        }
        r = r.times_plus(8, 0);
        i += 3;
    }
    r
}

/// One.
pub fn unit() -> (r: BigNat)
    ensures
        r@ == one(),
        r@ > 0,
{
    proof {
        lemma_pow2_pos(1074);
    }
    in_units(&BigNat::of(1))
}

/// The number nearest to `n`.
pub fn integer(n: u64) -> (r: BigNat)
    ensures
        r@ == from_integer(n as nat),
{
    round(&in_units(&BigNat::of(n)), &BigNat::of(1))
}

pub fn multiply(a: &BigNat, b: &BigNat) -> (r: BigNat)
    ensures
        r@ == product(a@, b@),
{
    round(&a.times(b), &unit())
}

pub fn quotient_of(a: &BigNat, b: &BigNat) -> (r: BigNat)
    requires
        b@ > 0,
    ensures
        r@ == quotient(a@, b@),
{
    round(&in_units(a), b)
}

/// A number with its sign.
pub struct Double {
    pub negative: bool,
    pub size: BigNat,
}

impl View for Double {
    type V = Signed;

    open spec fn view(&self) -> Signed {
        Signed { negative: self.negative, size: self.size@ }
    }
}

impl Double {
    /// The sum of two numbers.
    pub fn plus(&self, other: &Double) -> (r: Double)
        ensures
            r@ == sum(self@, other@),
    {
        let one = BigNat::of(1);
        if self.negative == other.negative {
            let size = self.size.plus(&other.size);
            let negative = self.negative && !size.below(&one);
            Double { negative, size: round(&size, &one) }
        } else if other.size.below(&self.size) {
            let size = self.size.minus(&other.size);
            Double { negative: self.negative, size: round(&size, &one) }
        } else {
            let size = other.size.minus(&self.size);
            let negative = other.negative && !size.below(&one);
            Double { negative, size: round(&size, &one) }
        }
    }

    /// The number in decimal with four places behind the point.
    pub fn to_four_places(&self) -> (r: String)
        ensures
            r@ == four_places(self@),
    {
        let n = whole(&self.size.times_plus(10000, 0));
        let (high, low) = n.divided_by(10000);
        let mut out = String::new();
        if self.negative {
            out.push('-');
        }
        let ghost sign = out@;
        out.append(high.to_decimal().as_str());
        out.push('.');
        out.append(padded_decimal_of(low as i64, 4).as_str());
        assert(sign =~= if self.negative {
            seq!['-']
        } else {
            Seq::empty()
        });
        assert(out@ =~= four_places(self@));
        out
    }
}

/// `n` in whole multiples of one, rounded to nearest, ties to even.
fn whole(n: &BigNat) -> (r: BigNat)
    ensures
        r@ == nearest(n@, one()),
{
    let mut q = n.copy();
    let mut i: u32 = 0;
    proof {
        lemma2_to64();
        assert(n@ / pow2(0) == n@);
    }
    while i < 1074
        invariant
            i <= 1074,
            i % 3 == 0,
            q@ == n@ / pow2(i as nat),
        decreases 1074 - i,
    {
        proof {
            lemma2_to64();
            lemma_pow2_adds(i as nat, 3);
            lemma_pow2_pos(i as nat);
            vstd::arithmetic::div_mod::lemma_div_denominator(
                n@ as int,
                pow2(i as nat) as int,
                8,
            );
        }
        q = q.divided_by(8).0;
        i += 3;
    }
    let base = in_units(&q);
    proof {
        lemma_pow2_pos(1074);
        vstd::arithmetic::div_mod::lemma_fundamental_div_mod(n@ as int, one() as int);
        vstd::arithmetic::div_mod::lemma_mod_bound(n@ as int, one() as int);
        let a = q@;
        let b = one();
        assert(a * b == b * a) by (nonlinear_arith);
    }
    let rest = n.minus(&base);
    let odd = q.divided_by(2).1 != 0;
    let up = match rest.times_plus(2, 0).order(&unit()) {
        Order::Below => false,
        Order::Equal => odd,
        Order::Above => true,
    };
    if up {
        q.times_plus(1, 1)
    } else {
        q
    }
}

/// A number that 53 bits can hold is kept exactly.
pub proof fn exact_numbers_are_kept(m: nat, d: nat, j: nat)
    requires
        m < 0x20_0000_0000_0000,
        d > 0,
    ensures
        rounded(m * d * pow2(j), d) == m * pow2(j),
    decreases j,
{
    let n = m * d * pow2(j);
    let p = pow2(j) as int;
    assert(n as int == (m * p) * d) by (nonlinear_arith)
        requires
            n as int == m * d * p,
    ;
    vstd::arithmetic::div_mod::lemma_div_multiples_vanish(m * p, d as int);
    vstd::arithmetic::div_mod::lemma_mod_multiples_basic(m * p, d as int);
    assert(d * (m * p) == (m * p) * d) by (nonlinear_arith);
    assert(n as int / d as int == m * p);
    assert(n as int % d as int == 0);
    assert(0 <= m * p) by (nonlinear_arith)
        requires
            p >= 0,
            m >= 0,
    ;
    if n < d * 0x20_0000_0000_0000 {
        assert(nearest(n, d) == m * pow2(j));
    } else {
        if j == 0 {
            vstd::arithmetic::power2::lemma2_to64();
            assert(m * d * 1 < d * 0x20_0000_0000_0000) by (nonlinear_arith)
                requires
                    m < 0x20_0000_0000_0000,
                    d > 0,
            ;
        } else {
            vstd::arithmetic::power2::lemma_pow2_unfold(j);
            let h = pow2((j - 1) as nat) as int;
            assert(m * d * p == m * (2 * d) * h) by (nonlinear_arith)
                requires
                    p == 2 * h,
            ;
            exact_numbers_are_kept(m, 2 * d, (j - 1) as nat);
            assert(2 * (m * h) == m * p) by (nonlinear_arith)
                requires
                    p == 2 * h,
            ;
        }
    }
}

/// Rounding moves a number by no more than one part in 2^53.
pub proof fn rounding_is_close(n: nat, d: nat)
    requires
        d > 0,
        n >= d * 0x10_0000_0000_0000,
    ensures
        -(n as int) <= (rounded(n, d) * d - n) * 0x20_0000_0000_0000 <= n,
    decreases n - d,
{
    let r = rounded(n, d) as int;
    if n < d * 0x20_0000_0000_0000 {
        let q = n as int / d as int;
        let m = n as int % d as int;
        vstd::arithmetic::div_mod::lemma_fundamental_div_mod(n as int, d as int);
        vstd::arithmetic::div_mod::lemma_mod_bound(n as int, d as int);
        assert(q >= 0) by {
            vstd::arithmetic::div_mod::lemma_div_pos_is_pos(n as int, d as int);
        }
        assert(r == q || r == q + 1);
        assert(r == q ==> 2 * m <= d);
        assert(r == q + 1 ==> 2 * m >= d);
        let e = r * d - n;
        assert(q * d == d * q && (q + 1) * d == d * q + d) by (nonlinear_arith);
        assert(-(d as int) <= 2 * e <= d);
    } else {
        assert(2 * d <= n) by (nonlinear_arith)
            requires
                n >= d * 0x20_0000_0000_0000,
                d > 0,
        ;
        let half = rounded(n, 2 * d) as int;
        rounding_is_close(n, 2 * d);
        assert(r == 2 * half);
        assert((2 * half) * d == half * (2 * d)) by (nonlinear_arith);
    }
}

proof fn lemma_nearest_grows(m: nat, n: nat, d: nat)
    requires
        m <= n,
        d > 0,
    ensures
        nearest(m, d) <= nearest(n, d),
{
    let p = m as int / d as int;
    let q = n as int / d as int;
    vstd::arithmetic::div_mod::lemma_fundamental_div_mod(m as int, d as int);
    vstd::arithmetic::div_mod::lemma_fundamental_div_mod(n as int, d as int);
    vstd::arithmetic::div_mod::lemma_div_is_ordered(m as int, n as int, d as int);
    if p == q {
        assert(m as int % d as int <= n as int % d as int);
    }
}

/// Rounding keeps the order of numbers.
pub proof fn rounding_keeps_order(m: nat, n: nat, d: nat)
    requires
        m <= n,
        d > 0,
    ensures
        rounded(m, d) <= rounded(n, d),
    decreases n - d,
{
    let limit = d * 0x20_0000_0000_0000;
    if n < limit {
        lemma_nearest_grows(m, n, d);
    } else {
        let least = (2 * d) * 0x10_0000_0000_0000;
        assert(least == limit && 2 * d <= n) by (nonlinear_arith)
            requires
                least == (2 * d) * 0x10_0000_0000_0000int,
                limit == d * 0x20_0000_0000_0000int,
                n >= limit,
                d > 0,
        ;
        if m < limit {
            rounding_keeps_order(least, n, 2 * d);
            exact_numbers_are_kept(0x10_0000_0000_0000, 2 * d, 0);
            vstd::arithmetic::power2::lemma2_to64();
            assert(0x10_0000_0000_0000 * (2 * d) * 1 == least) by (nonlinear_arith)
                requires
                    least == (2 * d) * 0x10_0000_0000_0000int,
            ;
            lemma_nearest_grows(m, limit, d);
            vstd::arithmetic::div_mod::lemma_div_multiples_vanish(
                0x20_0000_0000_0000,
                d as int,
            );
            vstd::arithmetic::div_mod::lemma_mod_multiples_basic(0x20_0000_0000_0000, d as int);
            assert(limit as int == 0x20_0000_0000_0000int * d);
            assert(nearest(limit, d) == 0x20_0000_0000_0000);
        } else {
            rounding_keeps_order(m, n, 2 * d);
        }
    }
}

/// The value of a number, as a multiple of the smallest one.
pub open spec fn multiple(v: Signed) -> int {
    if v.negative {
        -(v.size as int)
    } else {
        v.size as int
    }
}

/// What a text such as `-1.2345`, with four places, stands for, in units of the last place.
pub open spec fn units_shown(text: Seq<char>) -> int {
    if text[0] == '-' {
        -(units_shown_unsigned(text.skip(1)) as int)
    } else {
        units_shown_unsigned(text) as int
    }
}

pub open spec fn units_shown_unsigned(text: Seq<char>) -> nat {
    digits_value(text.take(text.len() - 5) + text.skip(text.len() - 4))
}

proof fn lemma_four_places(v: Signed)
    ensures
        four_places(v).len() >= 6,
        four_places(v)[four_places(v).len() - 5] == '.',
        (four_places(v)[0] == '-') == v.negative,
        units_shown(four_places(v)) == (if v.negative {
            -(nearest(v.size * 10000, one()) as int)
        } else {
            nearest(v.size * 10000, one()) as int
        }),
{
    let n = nearest(v.size * 10000, one());
    let whole = decimal(n / 10000);
    let part = padded_decimal((n % 10000) as int, 4);
    decimal_reads_back(n / 10000);
    padded_decimal_reads_back(n % 10000, 4);
    small_numbers_are_short(n % 10000);
    let bare = whole + seq!['.'] + part;
    assert(bare.take(bare.len() - 5) =~= whole);
    assert(bare.skip(bare.len() - 4) =~= part);
    digits_count_by_place(whole, part, 0);
    assert(vstd::arithmetic::power::pow(10, 4) == 10000) by {
        reveal(vstd::arithmetic::power::pow);
        reveal_with_fuel(vstd::arithmetic::power::pow, 5);
    }
    assert(is_digit(whole[0]));
    let text = four_places(v);
    if v.negative {
        assert(text.skip(1) =~= bare);
    } else {
        assert(text =~= bare);
        assert(text[0] == whole[0]);
    }
}

/// The four places that are shown are the nearest to the number, with a point before the
/// last four digits and a sign for a negative number.
pub proof fn four_places_are_nearest(v: Signed)
    ensures
        ({
            let text = four_places(v);
            let off = units_shown(text) * one() - multiple(v) * 10000;
            &&& -(one() as int) <= 2 * off <= one()
            &&& text[text.len() - 5] == '.'
            &&& (text[0] == '-') == v.negative
        }),
{
    lemma_pow2_pos(1074);
    lemma_four_places(v);
    let o = one() as int;
    let n = (v.size * 10000) as int;
    let q = n / o;
    let r = n % o;
    vstd::arithmetic::div_mod::lemma_fundamental_div_mod(n, o);
    vstd::arithmetic::div_mod::lemma_mod_bound(n, o);
    let k = nearest(v.size * 10000, one()) as int;
    assert(k == q || k == q + 1);
    assert(q * o == o * q && (q + 1) * o == o * q + o) by (nonlinear_arith);
    assert(-o <= 2 * (k * o - n) <= o);
    assert((-k) * o == -(k * o)) by (nonlinear_arith);
}

/// The order of numbers is the order of what is shown of them, and a whole number is shown
/// as it is.
pub proof fn four_places_keep_order(a: Signed, b: Signed, k: nat)
    ensures
        multiple(a) <= multiple(b) ==> units_shown(four_places(a)) <= units_shown(four_places(b)),
        a.size == k * one() ==> units_shown(four_places(a)) == (if a.negative {
            -(k * 10000)
        } else {
            k as int * 10000
        }),
{
    lemma_pow2_pos(1074);
    lemma_four_places(a);
    lemma_four_places(b);
    let o = one();
    if a.size <= b.size {
        lemma_nearest_grows(a.size * 10000, b.size * 10000, o);
    } else {
        lemma_nearest_grows(b.size * 10000, a.size * 10000, o);
    }
    if a.size == 0 || b.size == 0 {
        lemma_nearest_grows(0, a.size * 10000, o);
        assert(0nat % o == 0 && 0nat / o == 0) by {
            vstd::arithmetic::div_mod::lemma_div_basics(o as int);
            vstd::arithmetic::div_mod::lemma_small_mod(0, o);
        }
    }
    if a.size == k * o {
        assert((k * o) * 10000 == (k * 10000) * o) by (nonlinear_arith);
        vstd::arithmetic::div_mod::lemma_div_multiples_vanish((k * 10000) as int, o as int);
        vstd::arithmetic::div_mod::lemma_mod_multiples_basic((k * 10000) as int, o as int);
        assert(o * (k * 10000) == (k * 10000) * o) by (nonlinear_arith);
    }
}

} // verus!
