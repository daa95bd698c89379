//! Natural numbers of any size.

use vstd::prelude::*;
use vstd::string::StringExecFns;
use crate::decimal::decimal;
use crate::decimal::decimal_of;
use crate::decimal::digit_char;

verus! {

/// The number whose digits to the base 2^32 are `s`, the highest first.
pub open spec fn limbs_value(s: Seq<u32>) -> nat
    decreases s.len(),
{
    if s.len() == 0 {
        0
    } else {
        limbs_value(s.drop_last()) * 0x1_0000_0000 + s.last() as nat
    }
}

/// A natural number.
pub struct BigNat {
    limbs: Vec<u32>,
}

impl View for BigNat {
    type V = nat;

    closed spec fn view(&self) -> nat {
        limbs_value(self.limbs@)
    }
}

/// The first `n` limbs of `a`, times `m`, plus `carry`.
fn scaled(a: &Vec<u32>, n: usize, m: u32, carry: u32) -> (r: Vec<u32>)
    requires
        n <= a@.len(),
    ensures
        limbs_value(r@) == limbs_value(a@.take(n as int)) * m + carry,
    decreases n,
{
    reveal_with_fuel(limbs_value, 2);
    if n == 0 {
        let mut r: Vec<u32> = Vec::new();
        if carry != 0 {
            r.push(carry);
            assert(r@.drop_last() =~= Seq::empty());
        }
        assert(limbs_value(a@.take(0)) == 0);
        r
    } else {
        let x = a[n - 1];
        assert(x * m <= 0xffff_ffff * 0xffff_ffff) by (nonlinear_arith)
            requires
                x <= 0xffff_ffff,
                m <= 0xffff_ffff,
        ;
        let t: u64 = x as u64 * m as u64 + carry as u64;
        let low: u32 = (t % 0x1_0000_0000) as u32;
        let high: u32 = (t / 0x1_0000_0000) as u32;
        let mut r = scaled(a, n - 1, m, high);
        let ghost rest = r@;
        r.push(low);
        proof {
            assert(r@.drop_last() =~= rest);
            assert(a@.take(n as int).drop_last() =~= a@.take(n - 1));
            assert(a@.take(n as int).last() == x);
            let h = limbs_value(a@.take(n - 1));
            assert((h * m + high) * 0x1_0000_0000 + low == (h * 0x1_0000_0000 + x) * m + carry)
                by (nonlinear_arith)
                requires
                    high * 0x1_0000_0000 + low == x * m + carry,
            ;
        }
        r
    }
}

/// Which of two numbers is the smaller.
pub enum Order {
    Below,
    Equal,
    Above,
}

pub open spec fn order(a: nat, b: nat) -> Order {
    if a < b {
        Order::Below
    } else if a == b {
        Order::Equal
    } else {
        Order::Above
    }
}

/// Compares the first `n` limbs of `a` with the first `m` limbs of `b`.
fn ordered(a: &Vec<u32>, n: usize, b: &Vec<u32>, m: usize) -> (r: Order)
    requires
        n <= a@.len(),
        m <= b@.len(),
    ensures
        r == order(limbs_value(a@.take(n as int)), limbs_value(b@.take(m as int))),
    decreases n + m,
{
    if n == 0 && m == 0 {
        return Order::Equal;
    }
    let x: u32 = if n > 0 {
        a[n - 1]
    } else {
        0
    };
    let y: u32 = if m > 0 {
        b[m - 1]
    } else {
        0
    };
    let n1: usize = if n > 0 {
        n - 1
    } else {
        0
    };
    let m1: usize = if m > 0 {
        m - 1
    } else {
        0
    };
    proof {
        if n > 0 {
            assert(a@.take(n as int).drop_last() =~= a@.take(n1 as int));
        }
        if m > 0 {
            assert(b@.take(m as int).drop_last() =~= b@.take(m1 as int));
        }
    }
    match ordered(a, n1, b, m1) {
        Order::Equal => if x < y {
            Order::Below
        } else if x == y {
            Order::Equal
        } else {
            Order::Above
        },
        o => o,
    }
}

/// The first `n` limbs of `a`, less the first `m` limbs of `b` and `borrow`.
fn reduced(a: &Vec<u32>, n: usize, b: &Vec<u32>, m: usize, borrow: u32) -> (r: Vec<u32>)
    requires
        n <= a@.len(),
        m <= b@.len(),
        borrow <= 1,
        limbs_value(a@.take(n as int)) >= limbs_value(b@.take(m as int)) + borrow,
    ensures
        limbs_value(r@) == limbs_value(a@.take(n as int)) - limbs_value(b@.take(m as int)) - borrow,
    decreases n + m,
{
    if n == 0 {
        return Vec::new();
    }
    let x: u32 = a[n - 1];
    let y: u32 = if m > 0 {
        b[m - 1]
    } else {
        0
    };
    let m1: usize = if m > 0 {
        m - 1
    } else {
        0
    };
    proof {
        assert(a@.take(n as int).drop_last() =~= a@.take(n - 1));
        if m > 0 {
            assert(b@.take(m as int).drop_last() =~= b@.take(m1 as int));
        }
    }
    let take: u64 = y as u64 + borrow as u64;
    let (low, next): (u32, u32) = if x as u64 >= take {
        ((x as u64 - take) as u32, 0)
    } else {
        ((x as u64 + 0x1_0000_0000 - take) as u32, 1)
    };
    let mut r = reduced(a, n - 1, b, m1, next);
    let ghost rest = r@;
    r.push(low);
    assert(r@.drop_last() =~= rest);
    r
}

/// The first `n` limbs of `a`, plus the first `m` limbs of `b` and `carry`.
fn summed(a: &Vec<u32>, n: usize, b: &Vec<u32>, m: usize, carry: u32) -> (r: Vec<u32>)
    requires
        n <= a@.len(),
        m <= b@.len(),
        carry <= 1,
    ensures
        limbs_value(r@) == limbs_value(a@.take(n as int)) + limbs_value(b@.take(m as int)) + carry,
    decreases n + m,
{
    if n == 0 && m == 0 {
        let mut r: Vec<u32> = Vec::new();
        r.push(carry);
        assert(r@.drop_last() =~= Seq::empty());
        assert(limbs_value(r@.drop_last()) == 0);
        return r;
    }
    let x: u32 = if n > 0 {
        a[n - 1]
    } else {
        0
    };
    let y: u32 = if m > 0 {
        b[m - 1]
    } else {
        0
    };
    let n1: usize = if n > 0 {
        n - 1
    } else {
        0
    };
    let m1: usize = if m > 0 {
        m - 1
    } else {
        0
    };
    proof {
        if n > 0 {
            assert(a@.take(n as int).drop_last() =~= a@.take(n1 as int));
        }
        if m > 0 {
            assert(b@.take(m as int).drop_last() =~= b@.take(m1 as int));
        }
    }
    let t: u64 = x as u64 + y as u64 + carry as u64;
    let low: u32 = (t % 0x1_0000_0000) as u32;
    let high: u32 = (t / 0x1_0000_0000) as u32;
    let mut r = summed(a, n1, b, m1, high);
    let ghost rest = r@;
    r.push(low);
    assert(r@.drop_last() =~= rest);
    r
}

/// Quotient and remainder of the first `n` limbs of `a` by `d`.
fn divided(a: &Vec<u32>, n: usize, d: u32) -> (r: (Vec<u32>, u32))
    requires
        n <= a@.len(),
        d > 0,
    ensures
        limbs_value(a@.take(n as int)) == limbs_value(r.0@) * d + r.1,
        r.1 < d,
    decreases n,
{
    if n == 0 {
        let r: Vec<u32> = Vec::new();
        assert(limbs_value(a@.take(0)) == 0);
        assert(limbs_value(r@) * d == 0) by (nonlinear_arith)
            requires
                limbs_value(r@) == 0,
        ;
        return (r, 0);
    }
    let (mut q, high) = divided(a, n - 1, d);
    let ghost rest = q@;
    let t: u64 = high as u64 * 0x1_0000_0000 + a[n - 1] as u64;
    let dd: u64 = d as u64;
    proof {
        vstd::arithmetic::div_mod::lemma_fundamental_div_mod(t as int, dd as int);
        vstd::arithmetic::div_mod::lemma_mod_bound(t as int, dd as int);
        let k: int = t as int / dd as int;
        assert(k < 0x1_0000_0000) by (nonlinear_arith)
            requires
                t as int == dd * k + t as int % dd as int,
                0 <= t as int % dd as int,
                t < dd * 0x1_0000_0000,
                dd > 0,
        ;
    }
    let low: u32 = (t / dd) as u32;
    let left: u32 = (t % dd) as u32;
    q.push(low);
    proof {
        assert(q@.drop_last() =~= rest);
        assert(a@.take(n as int).drop_last() =~= a@.take(n - 1));
        let h = limbs_value(rest);
        assert((h * d + high) * 0x1_0000_0000 + a@[n - 1] == (h * 0x1_0000_0000 + low) * d + left)
            by (nonlinear_arith)
            requires
                high * 0x1_0000_0000 + a@[n - 1] == d * low + left,
        ;
    }
    (q, left)
}

/// `a` times the first `n` limbs of `b`.
fn multiplied(a: &BigNat, b: &Vec<u32>, n: usize) -> (r: BigNat)
    requires
        n <= b@.len(),
    ensures
        r@ == a@ * limbs_value(b@.take(n as int)),
    decreases n,
{
    if n == 0 {
        assert(limbs_value(b@.take(0)) == 0);
        return BigNat::zero();
    }
    let high = multiplied(a, b, n - 1).times_plus(0x1_0000, 0).times_plus(0x1_0000, 0);
    let low = a.times_plus(b[n - 1], 0);
    proof {
        assert(b@.take(n as int).drop_last() =~= b@.take(n - 1));
        let h = limbs_value(b@.take(n - 1));
        let x = b@[n - 1] as nat;
        assert(a@ * h * 0x1_0000 * 0x1_0000 + a@ * x == a@ * (h * 0x1_0000_0000 + x))
            by (nonlinear_arith);
    }
    high.plus(&low)
}

impl BigNat {
    /// Zero.
    pub fn zero() -> (r: BigNat)
        ensures
            r@ == 0,
    {
        BigNat { limbs: Vec::new() }
    }

    /// `n` as a number of any size.
    pub fn of(n: u64) -> (r: BigNat)
        ensures
            r@ == n,
    {
        let mut limbs: Vec<u32> = Vec::new();
        limbs.push((n / 0x1_0000_0000) as u32);
        limbs.push((n % 0x1_0000_0000) as u32);
        proof {
            reveal_with_fuel(limbs_value, 3);
            assert(limbs@.drop_last().drop_last() =~= Seq::empty());
        }
        BigNat { limbs }
    }

    /// `self * m + c`.
    pub fn times_plus(&self, m: u32, c: u32) -> (r: BigNat)
        ensures
            r@ == self@ * m + c,
    {
        assert(self.limbs@.take(self.limbs@.len() as int) =~= self.limbs@);
        BigNat { limbs: scaled(&self.limbs, self.limbs.len(), m, c) }
    }

    /// How `self` compares with `other`.
    pub fn order(&self, other: &BigNat) -> (r: Order)
        ensures
            r == order(self@, other@),
    {
        assert(self.limbs@.take(self.limbs@.len() as int) =~= self.limbs@);
        assert(other.limbs@.take(other.limbs@.len() as int) =~= other.limbs@);
        ordered(&self.limbs, self.limbs.len(), &other.limbs, other.limbs.len())
    }

    /// Whether `self < other`.
    pub fn below(&self, other: &BigNat) -> (r: bool)
        ensures
            r == (self@ < other@),
    {
        match self.order(other) {
            Order::Below => true,
            _ => false,
        }
    }

    /// `self - other`.
    pub fn minus(&self, other: &BigNat) -> (r: BigNat)
        requires
            other@ <= self@,
        ensures
            r@ == self@ - other@,
    {
        assert(self.limbs@.take(self.limbs@.len() as int) =~= self.limbs@);
        assert(other.limbs@.take(other.limbs@.len() as int) =~= other.limbs@);
        BigNat {
            limbs: reduced(&self.limbs, self.limbs.len(), &other.limbs, other.limbs.len(), 0),
        }
    }

    /// `self + other`.
    pub fn plus(&self, other: &BigNat) -> (r: BigNat)
        ensures
            r@ == self@ + other@,
    {
        assert(self.limbs@.take(self.limbs@.len() as int) =~= self.limbs@);
        assert(other.limbs@.take(other.limbs@.len() as int) =~= other.limbs@);
        BigNat {
            limbs: summed(&self.limbs, self.limbs.len(), &other.limbs, other.limbs.len(), 0),
        }
    }

    /// `self * other`.
    pub fn times(&self, other: &BigNat) -> (r: BigNat)
        ensures
            r@ == self@ * other@,
    {
        assert(other.limbs@.take(other.limbs@.len() as int) =~= other.limbs@);
        multiplied(self, &other.limbs, other.limbs.len())
    }

    /// `self / d` and `self % d`.
    pub fn divided_by(&self, d: u32) -> (r: (BigNat, u32))
        requires
            d > 0,
        ensures
            r.0@ == self@ / d as nat,
            r.1 == self@ % d as nat,
    {
        assert(self.limbs@.take(self.limbs@.len() as int) =~= self.limbs@);
        let (q, rest) = divided(&self.limbs, self.limbs.len(), d);
        proof {
            let x = limbs_value(q@) as int;
            assert(self@ as int == d * x + rest) by (nonlinear_arith)
                requires
                    self@ == x * d + rest,
            ;
            vstd::arithmetic::div_mod::lemma_fundamental_div_mod_converse(
                self@ as int,
                d as int,
                x,
                rest as int,
            );
        }
        (BigNat { limbs: q }, rest)
    }

    /// The number in decimal.
    pub fn to_decimal(&self) -> (r: String)
        ensures
            r@ == decimal(self@),
        decreases self@,
    {
        let (q, rest) = self.divided_by(10);
        if q.below(&BigNat::of(1)) {
            decimal_of(rest as u64)
        } else {
            let mut out = q.to_decimal();
            let last = decimal_of(rest as u64);
            out.append(last.as_str());
            assert(out@ =~= decimal(self@ / 10).push(digit_char(self@ % 10)));
            out
        }
    }

    /// A copy.
    pub fn copy(&self) -> (r: BigNat)
        ensures
            r@ == self@,
    {
        self.times_plus(1, 0)
    }
}

} // verus!
