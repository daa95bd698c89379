//! Durations as request tags write them.

use vstd::arithmetic::power2::pow2;
use vstd::prelude::*;
use crate::bignat::BigNat;
use crate::binary64::divide;
use crate::binary64::exact_numbers_are_kept;
use crate::binary64::in_units;
use crate::binary64::one;
use crate::binary64::round;
use crate::binary64::rounded;
use crate::binary64::rounding_is_close;
use crate::binary64::rounding_keeps_order;
use crate::binary64::unit;
use crate::decimal::all_digits;
use crate::decimal::decimal;
use crate::decimal::decimal_reads_back;
use crate::decimal::digits_count_by_place;
use crate::decimal::digits_value;
use crate::text::char_is_digit;
use crate::text::chars_of;
use crate::text::head_of;
use crate::text::is_digit;
use crate::text::is_trimmed;
use crate::text::lemma_until_len;
use crate::text::same;
use crate::text::tail_of;
use crate::text::trim;
use crate::text::trim_of;
use crate::text::trimmed_text_is_kept;
use crate::text::until_len;

verus! {

/// A decimal number: its sign, its digits, and how many of them stand behind
/// the point.
pub ghost struct Decimal {
    pub negative: bool,
    pub digits: Seq<char>,
    pub places: nat,
}

/// 10^k.
pub open spec fn power_of_ten(k: nat) -> nat
    decreases k,
{
    if k == 0 {
        1
    } else {
        10 * power_of_ten((k - 1) as nat)
    }
}

/// A decimal number in digits, with at least one of them, an optional point and
/// an optional minus sign.
pub open spec fn read_decimal(s: Seq<char>) -> Option<Decimal> {
    let negative = s.len() > 0 && s[0] == '-';
    let t = if negative {
        s.drop_first()
    } else {
        s
    };
    let p = until_len(t, '.') as int;
    let whole = t.take(p);
    let part = if p < t.len() {
        t.skip(p + 1)
    } else {
        Seq::empty()
    };
    if all_digits(whole + part) && (whole + part).len() > 0 {
        Some(Decimal { negative, digits: whole + part, places: part.len() })
    } else {
        None
    }
}

/// Whether `c` can be part of a number.
pub open spec fn is_number_char(c: char) -> bool {
    is_digit(c) || c == '.' || c == '-'
}

/// How many leading characters of `s` can be part of a number.
pub open spec fn number_len(s: Seq<char>) -> nat
    decreases s.len(),
{
    if s.len() == 0 || !is_number_char(s[0]) {
        0
    } else {
        1 + number_len(s.drop_first())
    }
}

/// `v` in whole seconds, rounded up.
pub open spec fn whole_seconds(v: nat) -> u64 {
    let n = (v + one() - 1) / one() as int;
    if n > u64::MAX {
        u64::MAX
    } else {
        n as u64
    }
}

/// The milliseconds in `v` units.
pub open spec fn in_millis(v: nat, unit: Seq<char>) -> Option<nat> {
    if unit == "ms"@ {
        Some(v)
    } else if unit == "s"@ || unit == ""@ {
        Some(rounded(v * 1000, 1))
    } else if unit == "m"@ {
        Some(rounded(rounded(v * 60, 1) * 1000, 1))
    } else {
        None
    }
}

/// The whole seconds that a number with an optional unit (`ms`, `s`, `m`)
/// denotes, rounded up; seconds where there is no unit. The arithmetic is that
/// of double precision. A negative duration is none at all, that is zero.
pub open spec fn duration(text: Seq<char>) -> Option<u64> {
    let t = trim(text);
    let n = number_len(t) as int;
    match read_decimal(t.take(n)) {
        Some(d) => {
            let v = rounded(digits_value(d.digits) * one(), power_of_ten(d.places));
            match in_millis(v, trim(t.skip(n))) {
                Some(millis) => Some(
                    if d.negative {
                        0
                    } else {
                        whole_seconds(rounded(millis, 1000))
                    },
                ),
                None => None,
            }
        },
        None => None,
    }
}

fn number_prefix(s: &str) -> (r: usize)
    ensures
        r == number_len(s@),
        r <= s@.len(),
{
    let cs = chars_of(s);
    let mut i: usize = 0;
    assert(s@.skip(0) =~= s@);
    while i < cs.len() && (char_is_digit(cs[i]) || cs[i] == '.' || cs[i] == '-')
        invariant
            cs@ == s@,
            i <= cs@.len(),
            number_len(s@) == i + number_len(s@.skip(i as int)),
        decreases cs@.len() - i,
    {
        assert(s@.skip(i as int).drop_first() =~= s@.skip(i + 1));
        i += 1;
    }
    i
}

/// The number read from `s`, as its sign and its magnitude in double precision.
fn read_double(s: &str) -> (r: Option<(bool, BigNat)>)
    ensures
        r is None == read_decimal(s@) is None,
        r matches Some(p) ==> read_decimal(s@) matches Some(d) && p.0 == d.negative && p.1@
            == rounded(digits_value(d.digits) * one(), power_of_ten(d.places)),
{
    let cs = chars_of(s);
    let negative = cs.len() > 0 && cs[0] == '-';
    let start: usize = if negative {
        1
    } else {
        0
    };
    let ghost t = if negative {
        s@.drop_first()
    } else {
        s@
    };
    assert(t =~= cs@.skip(start as int));
    let ghost p = until_len(t, '.') as int;
    let ghost whole = t.take(p);
    let ghost part = if p < t.len() {
        t.skip(p + 1)
    } else {
        Seq::empty()
    };
    let ghost all = whole + part;
    proof {
        lemma_until_len(t, '.');
    }
    let mut digits = BigNat::zero();
    let mut scale = BigNat::of(1);
    let mut seen_point = false;
    let mut any = false;
    let mut i: usize = start;
    assert(all.take(0) =~= Seq::empty());
    while i < cs.len()
        invariant
            start <= i <= cs@.len(),
            t == cs@.skip(start as int),
            p == until_len(t, '.'),
            p <= t.len(),
            p < t.len() ==> t[p] == '.',
            forall|k: int| 0 <= k < p ==> #[trigger] t[k] != '.',
            whole == t.take(p),
            part == if p < t.len() {
                t.skip(p + 1)
            } else {
                Seq::empty()
            },
            all == whole + part,
            seen_point == (i - start > p),
            ({
                let n = if seen_point {
                    i - start - 1
                } else {
                    i - start
                };
                &&& any == (n > 0)
                &&& all_digits(all.take(n))
                &&& digits@ == digits_value(all.take(n))
                &&& scale@ == power_of_ten(
                    if seen_point {
                        (n - p) as nat
                    } else {
                        0
                    },
                )
            }),
            read_decimal(s@) == (if all_digits(all) && all.len() > 0 {
                Some(Decimal { negative, digits: all, places: part.len() })
            } else {
                None
            }),
        decreases cs@.len() - i,
    {
        let c = cs[i];
        let ghost k = i - start;
        assert(t[k] == c);
        if c == '.' && !seen_point {
            assert(k == p);
            seen_point = true;
        } else {
            let ghost n = if seen_point {
                k - 1
            } else {
                k
            };
            assert(n < all.len() && all[n] == c);
            if !char_is_digit(c) {
                assert(!all_digits(all));
                return None;
            }
            digits = digits.times_plus(10, (c as u32) - 48);
            if seen_point {
                scale = scale.times_plus(10, 0);
            }
            any = true;
            proof {
                assert(all.take(n + 1).drop_last() =~= all.take(n));
                assert(all.take(n + 1).last() == c);
                assert forall|h: int| 0 <= h < n + 1 implies is_digit(
                    #[trigger] all.take(n + 1)[h],
                ) by {
                    if h < n {
                        assert(all.take(n)[h] == all.take(n + 1)[h]);
                    }
                }
            }
        }
        i += 1;
    }
    proof {
        let n = if seen_point {
            i - start - 1
        } else {
            i - start
        };
        assert(n == all.len());
        assert(all.take(n) =~= all);
        lemma_power_of_ten(part.len());
    }
    if !any {
        return None;
    }
    Some((negative, round(&in_units(&digits), &scale)))
}

/// `v` in whole seconds, rounded up.
fn seconds_of(v: &BigNat) -> (r: u64)
    ensures
        r == whole_seconds(v@),
{
    let one_unit = unit();
    let limit = one_unit.times_plus(0x8000_0000, 0).times_plus(0x8000_0000, 0).times_plus(4, 0);
    let ghost u = one() as int;
    let ghost w = v@ as int;
    proof {
        vstd::arithmetic::power2::lemma2_to64();
        assert(u * 0x8000_0000 * 0x8000_0000 * 4 == u * 0x1_0000_0000_0000_0000)
            by (nonlinear_arith);
    }
    if v.below(&limit) {
        let (q, rest) = divide(v, &one_unit, 64);
        let ghost k = q as int;
        let zero = BigNat::zero();
        proof {
            vstd::arithmetic::div_mod::lemma_fundamental_div_mod(w, u);
            vstd::arithmetic::div_mod::lemma_mod_bound(w, u);
        }
        if zero.below(&rest) {
            proof {
                assert(w + u - 1 == u * (k + 1) + (rest@ - 1)) by (nonlinear_arith)
                    requires
                        w == u * k + rest@,
                ;
                vstd::arithmetic::div_mod::lemma_fundamental_div_mod_converse(
                    w + u - 1,
                    u,
                    k + 1,
                    rest@ - 1,
                );
            }
            if q == u64::MAX {
                u64::MAX
            } else {
                q + 1
            }
        } else {
            proof {
                vstd::arithmetic::div_mod::lemma_fundamental_div_mod_converse(
                    w + u - 1,
                    u,
                    k,
                    u - 1,
                );
            }
            q
        }
    } else {
        proof {
            let n = (w + u - 1) / u;
            vstd::arithmetic::div_mod::lemma_fundamental_div_mod(w + u - 1, u);
            vstd::arithmetic::div_mod::lemma_mod_bound(w + u - 1, u);
            assert(n > u64::MAX) by (nonlinear_arith)
                requires
                    w >= u * 0x1_0000_0000_0000_0000,
                    w + u - 1 == u * n + (w + u - 1) % u,
                    0 <= (w + u - 1) % u < u,
            ;
        }
        u64::MAX
    }
}

/// Reads a duration: `600`, `600 ms`, `2 m`. Bare numbers are seconds.
pub fn parse_duration(text: &str) -> (r: Option<u64>)
    ensures
        r == duration(text@),
{
    let t = trim_of(text);
    let n = number_prefix(t);
    let (negative, v) = match read_double(head_of(t, n)) {
        Some(p) => p,
        None => {
            return None;
        },
    };
    let one_whole = BigNat::of(1);
    let unit_name = trim_of(tail_of(t, n));
    let millis = if same(unit_name, "ms") {
        v
    } else if same(unit_name, "s") || same(unit_name, "") {
        round(&v.times_plus(1000, 0), &one_whole)
    } else if same(unit_name, "m") {
        round(&round(&v.times_plus(60, 0), &one_whole).times_plus(1000, 0), &one_whole)
    } else {
        return None;
    };
    if negative {
        return Some(0);
    }
    let thousand = BigNat::of(1000);
    Some(seconds_of(&round(&millis, &thousand)))
}

proof fn lemma_number_part(number: Seq<char>, unit: Seq<char>)
    requires
        forall|i: int| 0 <= i < number.len() ==> is_number_char(#[trigger] number[i]),
        unit.len() > 0 ==> !is_number_char(unit[0]),
    ensures
        number_len(number + unit) == number.len(),
    decreases number.len(),
{
    let s = number + unit;
    if number.len() == 0 {
        assert(s =~= unit);
    } else {
        assert(s[0] == number[0]);
        assert(s.drop_first() =~= number.drop_first() + unit);
        lemma_number_part(number.drop_first(), unit);
    }
}

proof fn lemma_whole_number(n: nat, unit: Seq<char>)
    requires
        n < 0x20_0000_0000_0000,
        is_trimmed(unit),
        unit.len() > 0 ==> !is_number_char(unit[0]),
    ensures
        duration(decimal(n) + unit) == (match in_millis(n * one(), unit) {
            Some(millis) => Some(whole_seconds(rounded(millis, 1000))),
            None => None,
        }),
{
    let digits = decimal(n);
    let text = digits + unit;
    decimal_reads_back(n);
    assert(is_digit(digits[0]));
    assert(is_digit(digits[digits.len() - 1]));
    assert(text.last() == if unit.len() > 0 {
        unit.last()
    } else {
        digits.last()
    });
    trimmed_text_is_kept(text);
    lemma_number_part(digits, unit);
    assert(text.take(digits.len() as int) =~= digits);
    assert(text.skip(digits.len() as int) =~= unit);
    trimmed_text_is_kept(unit);
    lemma_until_len(digits, '.');
    let p = until_len(digits, '.') as int;
    assert(p == digits.len()) by {
        if p < digits.len() {
            assert(is_digit(digits[p]));
        }
    }
    assert(digits.take(p) + Seq::<char>::empty() =~= digits);
    assert(read_decimal(digits) == Some(
        Decimal { negative: false, digits: digits.take(p) + Seq::<char>::empty(), places: 0 },
    ));
    exact_numbers_are_kept(n, 1, 1074);
    assert(n * 1 * pow2(1074) == n * one()) by (nonlinear_arith)
        requires
            one() == pow2(1074),
    ;
}

proof fn lemma_whole_seconds(v: nat, k: nat)
    requires
        k * one() < v <= (k + 1) * one(),
        k < u64::MAX,
    ensures
        whole_seconds(v) == k + 1,
{
    vstd::arithmetic::power2::lemma_pow2_pos(1074);
    let o = one() as int;
    let a = v + o - 1;
    assert((k + 1) * o <= a < (k + 2) * o) by (nonlinear_arith)
        requires
            k * o < v <= (k + 1) * o,
            a == v + o - 1,
            o > 0,
    ;
    let rest = a - (k + 1) * o;
    assert(0 <= rest < o) by (nonlinear_arith)
        requires
            rest == a - (k + 1) * o,
            (k + 1) * o <= a < (k + 2) * o,
    ;
    vstd::arithmetic::div_mod::lemma_fundamental_div_mod_converse(a, o, (k + 1) as int, rest);
}

/// A whole number of seconds, with or without the unit, or of minutes, is that many
/// seconds.
pub proof fn whole_durations_are_exact(n: nat)
    requires
        n < 0x1_0000_0000,
    ensures
        duration(decimal(n)) == Some(n as u64),
        duration(decimal(n) + "s"@) == Some(n as u64),
        duration(decimal(n) + "m"@) == Some((n * 60) as u64),
{
    reveal_strlit("");
    reveal_strlit("s");
    reveal_strlit("m");
    reveal_strlit("ms");
    let none = Seq::<char>::empty();
    assert(""@ =~= none);
    assert(decimal(n) + ""@ =~= decimal(n));
    lemma_whole_number(n, ""@);
    lemma_whole_number(n, "s"@);
    lemma_whole_number(n, "m"@);
    assert("s"@[0] != "m"@[0]);
    assert("ms"@.len() != "s"@.len() && "ms"@.len() != "m"@.len() && "ms"@.len() != ""@.len());
    let o = one();
    lemma_scaled(n, 1000);
    lemma_scaled(n, 60);
    lemma_scaled(n * 60, 1000);
    lemma_unscaled(n);
    lemma_unscaled(n * 60);
    assert((n * 1000) * o == (n * o) * 1000) by (nonlinear_arith);
    assert((n * 60) * o == (n * o) * 60) by (nonlinear_arith);
    assert((n * 60 * 1000) * o == ((n * 60) * o) * 1000) by (nonlinear_arith);
    lemma_even_seconds(n);
    lemma_even_seconds(n * 60);
}

proof fn lemma_scaled(n: nat, k: nat)
    requires
        n * k < 0x20_0000_0000_0000,
    ensures
        rounded((n * one()) * k, 1) == (n * k) * one(),
{
    exact_numbers_are_kept(n * k, 1, 1074);
    let o = pow2(1074);
    assert((n * k) * 1 * o == (n * o) * k) by (nonlinear_arith);
}

proof fn lemma_unscaled(n: nat)
    requires
        n < 0x20_0000_0000_0000,
    ensures
        rounded((n * 1000) * one(), 1000) == n * one(),
{
    exact_numbers_are_kept(n, 1000, 1074);
}

proof fn lemma_even_seconds(n: nat)
    requires
        n <= u64::MAX,
    ensures
        whole_seconds(n * one()) == n,
{
    vstd::arithmetic::power2::lemma_pow2_pos(1074);
    let o = one() as int;
    if n == 0 {
        assert(0 * o == 0);
        assert((0 + o - 1) / o == 0) by {
            vstd::arithmetic::div_mod::lemma_basic_div(o - 1, o);
        }
    } else {
        let k = (n - 1) as nat;
        assert(k * o < n * o && (k + 1) * o == n * o) by (nonlinear_arith)
            requires
                k + 1 == n,
                o > 0,
        ;
        lemma_whole_seconds(n * one(), k);
    }
}

/// Milliseconds are rounded up to whole seconds.
pub proof fn milliseconds_are_rounded_up(n: nat, k: nat)
    requires
        1000 * k < n <= 1000 * (k + 1),
        n < 0x20_0000_0000_0000,
    ensures
        duration(decimal(n) + "ms"@) == Some((k + 1) as u64),
{
    reveal_strlit("ms");
    lemma_whole_number(n, "ms"@);
    let o = one() as int;
    let v = n * one();
    let r = rounded(v, 1000) as int;
    vstd::arithmetic::power2::lemma_pow2_strictly_increases(64, 1074);
    vstd::arithmetic::power2::lemma2_to64();
    assert(o > 1000 * 0x10_0000_0000_0000);
    assert(v >= 1000 * 0x10_0000_0000_0000) by (nonlinear_arith)
        requires
            v == n * o,
            n >= 1,
            o > 1000 * 0x10_0000_0000_0000,
    ;
    rounding_is_close(v, 1000);
    let big: int = 0x20_0000_0000_0000;
    assert(k * o < r) by (nonlinear_arith)
        requires
            v == n * o,
            -(v as int) <= (r * 1000 - v) * big,
            1000 * k < n < big,
            o > 0,
            big == 0x20_0000_0000_0000int,
    ;
    if n == 1000 * (k + 1) {
        exact_numbers_are_kept((k + 1) as nat, 1000, 1074);
        assert((k + 1) * 1000 * o == n * o);
        assert(r == (k + 1) * o);
    } else {
        assert(r <= (k + 1) * o) by (nonlinear_arith)
            requires
                v == n * o,
                (r * 1000 - v) * big <= v,
                n < 1000 * (k + 1),
                n < big,
                o > 0,
                big == 0x20_0000_0000_0000int,
        ;
    }
    lemma_whole_seconds(rounded(v, 1000), k);
}

/// A unit that is not known, or a text without a number, is no duration.
pub proof fn other_units_are_refused(n: nat, unit: Seq<char>)
    requires
        n < 0x20_0000_0000_0000,
        is_trimmed(unit),
        unit.len() > 0,
        !is_number_char(unit[0]),
    ensures
        unit != "ms"@ && unit != "s"@ && unit != "m"@ ==> duration(decimal(n) + unit) is None,
        duration(unit) is None,
{
    reveal_strlit("");
    lemma_whole_number(n, unit);
    trimmed_text_is_kept(unit);
    assert(unit.take(0) =~= Seq::empty());
}

proof fn lemma_power_of_ten(k: nat)
    ensures
        power_of_ten(k) == vstd::arithmetic::power::pow(10, k),
        power_of_ten(k) > 0,
    decreases k,
{
    reveal(vstd::arithmetic::power::pow);
    if k > 0 {
        lemma_power_of_ten((k - 1) as nat);
    }
}

proof fn lemma_digits_are_below(s: Seq<char>)
    requires
        all_digits(s),
    ensures
        digits_value(s) < power_of_ten(s.len()),
    decreases s.len(),
{
    if s.len() > 0 {
        assert(is_digit(s[s.len() - 1]));
        assert(all_digits(s.drop_last())) by {
            assert forall|i: int| 0 <= i < s.len() - 1 implies is_digit(
                #[trigger] s.drop_last()[i],
            ) by {
                assert(is_digit(s[i]));
            }
        }
        lemma_digits_are_below(s.drop_last());
    }
}

/// A number with a point stands for all of its digits, with or without a sign.
proof fn lemma_point_number(k: nat, part: Seq<char>, unit: Seq<char>)
    requires
        all_digits(part),
        is_trimmed(unit),
        unit.len() > 0 ==> !is_number_char(unit[0]),
        unit.len() > 0 || part.len() > 0,
    ensures
        ({
            let n = k * power_of_ten(part.len()) + digits_value(part);
            let millis = in_millis(rounded(n * one(), power_of_ten(part.len())), unit);
            let text = decimal(k) + "."@ + part + unit;
            &&& duration(text) == (match millis {
                Some(millis) => Some(whole_seconds(rounded(millis, 1000))),
                None => None,
            })
            &&& millis is Some ==> duration("-"@ + text) == Some(0u64)
        }),
{
    reveal_strlit(".");
    reveal_strlit("-");
    let whole = decimal(k);
    decimal_reads_back(k);
    assert(is_digit(whole[0]));
    let number = whole + "."@ + part;
    let text = number + unit;
    assert forall|i: int| 0 <= i < number.len() implies is_number_char(#[trigger] number[i]) by {
        if i < whole.len() {
            assert(number[i] == whole[i]);
        } else if i > whole.len() {
            assert(number[i] == part[i - whole.len() - 1]);
        }
    }
    assert(text[0] == whole[0]);
    assert(text.last() == if unit.len() > 0 {
        unit.last()
    } else {
        part.last()
    });
    trimmed_text_is_kept(text);
    trimmed_text_is_kept(unit);
    lemma_number_part(number, unit);
    assert(text.take(number.len() as int) =~= number);
    assert(text.skip(number.len() as int) =~= unit);
    lemma_until_len(number, '.');
    let p = until_len(number, '.') as int;
    assert(p == whole.len()) by {
        assert(number[whole.len() as int] == '.');
        if p < whole.len() {
            assert(is_digit(whole[p]));
        }
    }
    assert(number.take(p) =~= whole);
    assert(number.skip(p + 1) =~= part);
    lemma_joined_digits(whole, part);
    digits_count_by_place(whole, part, 0);
    lemma_power_of_ten(part.len());
    let below = "-"@ + number;
    let all = "-"@ + text;
    assert(all =~= below + unit);
    assert(all[0] == '-' && all.last() == text.last());
    trimmed_text_is_kept(all);
    assert forall|i: int| 0 <= i < below.len() implies is_number_char(#[trigger] below[i]) by {
        if i > 0 {
            assert(below[i] == number[i - 1]);
        }
    }
    lemma_number_part(below, unit);
    assert(all.take(below.len() as int) =~= below);
    assert(all.skip(below.len() as int) =~= unit);
    assert(below.drop_first() =~= number);
}

proof fn lemma_joined_digits(a: Seq<char>, b: Seq<char>)
    requires
        all_digits(a),
        all_digits(b),
    ensures
        all_digits(a + b),
{
    assert forall|i: int| 0 <= i < (a + b).len() implies is_digit(#[trigger] (a + b)[i]) by {
        if i < a.len() {
            assert(is_digit(a[i]));
        } else {
            assert(is_digit(b[i - a.len()]));
        }
    }
}

/// Seconds with up to three places are rounded up to the next whole second, and a negative
/// time is none.
pub proof fn fractions_are_rounded_up(k: nat, part: Seq<char>)
    requires
        k < 0x1_0000_0000,
        all_digits(part),
        1 <= part.len() <= 3,
    ensures
        ({
            let text = decimal(k) + "."@ + part;
            let seconds = if digits_value(part) > 0 {
                (k + 1) as u64
            } else {
                k as u64
            };
            &&& duration(text) == Some(seconds)
            &&& duration(text + "s"@) == Some(seconds)
            &&& duration("-"@ + text) == Some(0u64)
        }),
{
    reveal_strlit("");
    reveal_strlit("s");
    reveal_strlit("ms");
    reveal_strlit("m");
    assert("ms"@.len() != "s"@.len() && "ms"@.len() != ""@.len());
    let text = decimal(k) + "."@ + part;
    assert(text + ""@ =~= text);
    assert("-"@ + (text + ""@) =~= "-"@ + text);
    lemma_point_number(k, part, ""@);
    lemma_point_number(k, part, "s"@);
    let d = power_of_ten(part.len());
    lemma_power_of_ten(part.len());
    lemma_digits_are_below(part);
    reveal_with_fuel(power_of_ten, 4);
    let f = digits_value(part);
    let n = k * d + f;
    let o = one();
    let h = pow2(1064);
    vstd::arithmetic::power2::lemma_pow2_adds(1064, 10);
    vstd::arithmetic::power2::lemma2_to64();
    vstd::arithmetic::power2::lemma_pow2_pos(1064);
    assert(o == h * 1024);
    let v = rounded(n * o, d);
    let low = if f > 0 {
        (k * 1024 + 1) as nat
    } else {
        (k * 1024) as nat
    };
    let high = if f > 0 {
        ((k + 1) * 1024) as nat
    } else {
        (k * 1024) as nat
    };
    assert(low * d * h <= n * o && n * o <= high * d * h) by (nonlinear_arith)
        requires
            o == h * 1024,
            n == k * d + f,
            h > 0,
            d > 0,
            f > 0 ==> low == k * 1024 + 1 && high == (k + 1) * 1024,
            f == 0 ==> low == k * 1024 && high == k * 1024,
            f < d <= 1000,
    ;
    rounding_keeps_order(low * d * h, n * o, d);
    rounding_keeps_order(n * o, high * d * h, d);
    exact_numbers_are_kept(low, d, 1064);
    exact_numbers_are_kept(high, d, 1064);
    lemma_between_steps(low, v, high);
    let w = rounded(rounded(v * 1000, 1), 1000);
    if f > 0 {
        assert(k * o < w && w <= (k + 1) * o) by (nonlinear_arith)
            requires
                low * h <= w <= high * h,
                low == k * 1024 + 1,
                high == (k + 1) * 1024,
                o == h * 1024,
                h > 0,
        ;
        lemma_whole_seconds(w, k);
    } else {
        assert(w == k * o) by (nonlinear_arith)
            requires
                low * h <= w <= high * h,
                low == k * 1024,
                high == k * 1024,
                o == h * 1024,
        ;
        lemma_even_seconds(k);
    }
}

/// Rounding on the way to milliseconds and back stays between two numbers that are exact.
proof fn lemma_between_steps(low: nat, v: nat, high: nat)
    requires
        low * pow2(1064) <= v <= high * pow2(1064),
        low * 1000 < 0x20_0000_0000_0000,
        high * 1000 < 0x20_0000_0000_0000,
    ensures
        low * pow2(1064) <= rounded(rounded(v * 1000, 1), 1000) <= high * pow2(1064),
{
    let h = pow2(1064);
    let millis = rounded(v * 1000, 1);
    assert((low * 1000) * 1 * h <= v * 1000 && v * 1000 <= (high * 1000) * 1 * h)
        by (nonlinear_arith)
        requires
            low * h <= v <= high * h,
    ;
    rounding_keeps_order((low * 1000) * 1 * h, v * 1000, 1);
    rounding_keeps_order(v * 1000, (high * 1000) * 1 * h, 1);
    exact_numbers_are_kept(low * 1000, 1, 1064);
    exact_numbers_are_kept(high * 1000, 1, 1064);
    rounding_keeps_order(low * 1000 * h, millis, 1000);
    rounding_keeps_order(millis, high * 1000 * h, 1000);
    exact_numbers_are_kept(low, 1000, 1064);
    exact_numbers_are_kept(high, 1000, 1064);
}

} // verus!
