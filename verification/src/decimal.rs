//! Whole numbers as decimal text, both ways.

use vstd::prelude::*;
use vstd::string::StringExecFns;
use crate::text::char_is_digit;
use crate::text::chars_of;
use crate::text::is_digit;
use crate::text::repeat;

verus! {

/// The character of one decimal digit.
pub open spec fn digit_char(d: nat) -> char {
    (48 + d) as char
}

/// The value of one decimal digit.
pub open spec fn digit_value(c: char) -> nat {
    (c as int - 48) as nat
}

/// `n` in decimal, without leading zeros.
pub open spec fn decimal(n: nat) -> Seq<char>
    decreases n,
{
    if n < 10 {
        seq![digit_char(n)]
    } else {
        decimal(n / 10).push(digit_char(n % 10))
    }
}

/// `n` in decimal, with a minus sign where it is negative.
pub open spec fn signed_decimal(n: int) -> Seq<char> {
    if n < 0 {
        seq!['-'] + decimal((-n) as nat)
    } else {
        decimal(n as nat)
    }
}

/// `n` in decimal, filled up with zeros to `width`, which counts the sign.
pub open spec fn padded_decimal(n: int, width: nat) -> Seq<char> {
    let digits = decimal(if n < 0 {
        (-n) as nat
    } else {
        n as nat
    });
    let sign = if n < 0 {
        seq!['-']
    } else {
        Seq::empty()
    };
    let room = width - sign.len() - digits.len();
    sign + repeat(
        '0',
        if room > 0 {
            room as nat
        } else {
            0
        },
    ) + digits
}

pub open spec fn all_digits(s: Seq<char>) -> bool {
    forall|i: int| 0 <= i < s.len() ==> is_digit(#[trigger] s[i])
}

/// The number that a row of digits denotes.
pub open spec fn digits_value(s: Seq<char>) -> nat
    decreases s.len(),
{
    if s.len() == 0 {
        0
    } else {
        digits_value(s.drop_last()) * 10 + digit_value(s.last())
    }
}

/// The number of at most `max` that `s` denotes: digits, at least one, after an
/// optional plus sign.
pub open spec fn read_unsigned(s: Seq<char>, max: nat) -> Option<nat> {
    let digits = if s.len() > 0 && s[0] == '+' {
        s.drop_first()
    } else {
        s
    };
    if digits.len() > 0 && all_digits(digits) && digits_value(digits) <= max {
        Some(digits_value(digits))
    } else {
        None
    }
}

/// The 64-bit integer that `s` denotes: digits, at least one, after an optional
/// sign.
pub open spec fn read_signed(s: Seq<char>) -> Option<int> {
    if s.len() > 0 && s[0] == '-' {
        let digits = s.drop_first();
        if digits.len() > 0 && all_digits(digits) && digits_value(digits) <= 0x8000_0000_0000_0000 {
            Some(-(digits_value(digits) as int))
        } else {
            None
        }
    } else {
        match read_unsigned(s, i64::MAX as nat) {
            Some(n) => Some(n as int),
            None => None,
        }
    }
}

/// Decimal text reads back as the number that it was made from.
pub proof fn decimal_reads_back(n: nat)
    ensures
        all_digits(decimal(n)),
        decimal(n).len() > 0,
        digits_value(decimal(n)) == n,
        read_unsigned(decimal(n), n) == Some(n),
    decreases n,
{
    reveal_with_fuel(digits_value, 2);
    if n < 10 {
        assert(decimal(n).drop_last() =~= Seq::empty());
    } else {
        decimal_reads_back(n / 10);
        assert(decimal(n).drop_last() =~= decimal(n / 10));
        assert(decimal(n).last() == digit_char(n % 10));
        assert forall|i: int| 0 <= i < decimal(n).len() implies is_digit(
            #[trigger] decimal(n)[i],
        ) by {
            if i < decimal(n).len() - 1 {
                assert(decimal(n)[i] == decimal(n / 10)[i]);
            }
        }
    }
    assert(is_digit(decimal(n)[0]));
}

/// More digits never make a smaller number.
proof fn lemma_digits_value_grows(s: Seq<char>, k: int)
    requires
        0 <= k <= s.len(),
    ensures
        digits_value(s.take(k)) <= digits_value(s),
    decreases s.len() - k,
{
    if k == s.len() {
        assert(s.take(k) =~= s);
    } else {
        lemma_digits_value_grows(s, k + 1);
        assert(s.take(k + 1).drop_last() =~= s.take(k));
    }
}

fn digit_to_char(d: u8) -> (r: char)
    requires
        d < 10,
    ensures
        r == digit_char(d as nat),
{
    (48 + d) as char
}

/// `n` in decimal.
pub fn decimal_of(n: u64) -> (r: String)
    ensures
        r@ == decimal(n as nat),
    decreases n,
{
    if n < 10 {
        let mut out = String::new();
        out.push(digit_to_char(n as u8));
        assert(out@ =~= seq![digit_char(n as nat)]);
        out
    } else {
        let mut out = decimal_of(n / 10);
        out.push(digit_to_char((n % 10) as u8));
        out
    }
}

/// `n` in decimal, with a minus sign where it is negative.
pub fn signed_decimal_of(n: i64) -> (r: String)
    ensures
        r@ == signed_decimal(n as int),
{
    if n < 0 {
        let mut out = String::new();
        out.push('-');
        let digits = decimal_of(magnitude(n));
        out.append(digits.as_str());
        assert(out@ =~= seq!['-'] + digits@);
        out
    } else {
        decimal_of(n as u64)
    }
}

fn magnitude(n: i64) -> (r: u64)
    ensures
        r == (if n < 0 {
            -n
        } else {
            n as int
        }),
{
    if n < 0 {
        ((-(n + 1)) as u64) + 1
    } else {
        n as u64
    }
}

/// `n` in decimal, filled up with zeros to `width`.
pub fn padded_decimal_of(n: i64, width: usize) -> (r: String)
    ensures
        r@ == padded_decimal(n as int, width as nat),
{
    let digits = decimal_of(magnitude(n));
    let cs = chars_of(digits.as_str());
    let mut out = String::new();
    let mut used: usize = 0;
    if n < 0 {
        out.push('-');
        used = 1;
    }
    let ghost sign = out@;
    let mut fill: usize = 0;
    if width > used && width - used > cs.len() {
        let room: usize = width - used - cs.len();
        while fill < room
            invariant
                fill <= room,
                out@ == sign + repeat('0', fill as nat),
            decreases room - fill,
        {
            out.push('0');
            fill += 1;
            assert(out@ =~= sign + repeat('0', fill as nat));
        }
    }
    assert(out@ =~= sign + repeat('0', fill as nat));
    out.append(digits.as_str());
    proof {
        assert(sign =~= (if n < 0 {
            seq!['-']
        } else {
            Seq::empty()
        }));
    }
    out
}

/// The number of at most `max` that the digits from `from` on denote.
fn read_digits(cs: &Vec<char>, from: usize, max: u64) -> (r: Option<u64>)
    requires
        from <= cs@.len(),
    ensures
        ({
            let digits = cs@.skip(from as int);
            r == (if digits.len() > 0 && all_digits(digits) && digits_value(digits) <= max {
                Some(digits_value(digits) as u64)
            } else {
                None
            })
        }),
{
    let ghost digits = cs@.skip(from as int);
    if from >= cs.len() {
        return None;
    }
    let mut i: usize = from;
    let mut value: u64 = 0;
    while i < cs.len()
        invariant
            from <= i <= cs@.len(),
            digits == cs@.skip(from as int),
            forall|k: int| 0 <= k < i - from ==> is_digit(#[trigger] digits[k]),
            value == digits_value(digits.take(i - from)),
            value <= max,
        decreases cs@.len() - i,
    {
        let c = cs[i];
        assert(c == digits[i - from]);
        if !char_is_digit(c) {
            assert(!all_digits(digits));
            return None;
        }
        let d: u64 = (c as u32 - 48) as u64;
        let next: u128 = (value as u128) * 10 + (d as u128);
        proof {
            assert(digits.take(i - from + 1).drop_last() =~= digits.take(i - from));
            assert(digits.take(i - from + 1).last() == c);
            lemma_digits_value_grows(digits, i - from + 1);
        }
        if next > max as u128 {
            return None;
        }
        value = next as u64;
        i += 1;
    }
    assert(digits.take(i - from) =~= digits);
    Some(value)
}

/// The number of at most `max` that `s` denotes.
pub fn read_unsigned_of(s: &str, max: u64) -> (r: Option<u64>)
    ensures
        r matches Some(n) ==> read_unsigned(s@, max as nat) == Some(n as nat),
        r is None ==> read_unsigned(s@, max as nat) is None,
{
    let cs = chars_of(s);
    if cs.len() > 0 && cs[0] == '+' {
        assert(s@.skip(1) =~= s@.drop_first());
        read_digits(&cs, 1, max)
    } else {
        assert(s@.skip(0) =~= s@);
        read_digits(&cs, 0, max)
    }
}

/// The `usize` that `s` denotes.
pub fn read_usize(s: &str) -> (r: Option<usize>)
    ensures
        r matches Some(n) ==> read_unsigned(s@, usize::MAX as nat) == Some(n as nat),
        r is None ==> read_unsigned(s@, usize::MAX as nat) is None,
{
    match read_unsigned_of(s, usize::MAX as u64) {
        Some(n) => Some(n as usize),
        None => None,
    }
}

/// The `i64` that `s` denotes.
pub fn read_i64(s: &str) -> (r: Option<i64>)
    ensures
        r matches Some(n) ==> read_signed(s@) == Some(n as int),
        r is None ==> read_signed(s@) is None,
{
    let cs = chars_of(s);
    if cs.len() > 0 && cs[0] == '-' {
        assert(s@.skip(1) =~= s@.drop_first());
        match read_digits(&cs, 1, 0x8000_0000_0000_0000) {
            Some(n) => if n == 0x8000_0000_0000_0000 {
                Some(i64::MIN)
            } else {
                Some(-(n as i64))
            },
            None => None,
        }
    } else {
        match read_unsigned_of(s, i64::MAX as u64) {
            Some(n) => Some(n as i64),
            None => None,
        }
    }
}

/// Decimal text with a sign reads back as the number that it was made from.
pub proof fn signed_decimal_reads_back(n: int)
    requires
        i64::MIN <= n <= i64::MAX,
    ensures
        read_signed(signed_decimal(n)) == Some(n),
        signed_decimal(n).len() > 0,
        forall|i: int|
            0 <= i < signed_decimal(n).len() ==> is_digit(#[trigger] signed_decimal(n)[i])
                || signed_decimal(n)[i] == '-',
{
    let s = signed_decimal(n);
    if n < 0 {
        decimal_reads_back((-n) as nat);
        assert(s.drop_first() =~= decimal((-n) as nat));
        assert forall|i: int| 0 <= i < s.len() implies is_digit(#[trigger] s[i]) || s[i] == '-' by {
            if i > 0 {
                assert(s[i] == decimal((-n) as nat)[i - 1]);
            }
        }
    } else {
        decimal_reads_back(n as nat);
        assert(is_digit(s[0]));
    }
}

/// Digits count by their place, ten times as much as those behind them, and each as much
/// as it stands for.
pub proof fn digits_count_by_place(a: Seq<char>, b: Seq<char>, d: nat)
    requires
        d < 10,
    ensures
        digits_value(a + b) == digits_value(a) * vstd::arithmetic::power::pow(10, b.len())
            + digits_value(b),
        digits_value(seq![('0' as int + d) as char]) == d,
        decimal(d) == seq![('0' as int + d) as char],
    decreases b.len(),
{
    reveal_with_fuel(digits_value, 2);
    reveal(vstd::arithmetic::power::pow);
    let one = seq![('0' as int + d) as char];
    assert(one.drop_last() =~= Seq::empty());
    if b.len() == 0 {
        assert(a + b =~= a);
    } else {
        assert((a + b).drop_last() =~= a + b.drop_last());
        digits_count_by_place(a, b.drop_last(), d);
        let p = vstd::arithmetic::power::pow(10, (b.len() - 1) as nat);
        let x = digits_value(a) as int;
        let y = digits_value(b.drop_last()) as int;
        assert((x * p + y) * 10 == x * (10 * p) + y * 10) by (nonlinear_arith);
    }
}

/// Decimal text has no more digits than it needs: it starts with 0 only for 0 itself.
pub proof fn decimal_has_no_leading_zero(n: nat)
    ensures
        n > 0 ==> decimal(n)[0] != '0',
    decreases n,
{
    if n >= 10 {
        decimal_has_no_leading_zero(n / 10);
        decimal_reads_back(n / 10);
    }
}

/// A number that is filled up with zeros is as wide as asked for, or as it needs to be, and
/// reads back.
pub proof fn padded_decimal_reads_back(n: nat, width: nat)
    ensures
        ({
            let text = padded_decimal(n as int, width);
            &&& all_digits(text)
            &&& digits_value(text) == n
            &&& text.len() >= width
            &&& text.len() > width ==> text == decimal(n)
        }),
{
    decimal_reads_back(n);
    let digits = decimal(n);
    let text = padded_decimal(n as int, width);
    let room = if width > digits.len() {
        (width - digits.len()) as nat
    } else {
        0
    };
    let zeros = repeat('0', room);
    assert(text =~= zeros + digits);
    lemma_zeros(room);
    digits_count_by_place(zeros, digits, 0);
    assert(0 * vstd::arithmetic::power::pow(10, digits.len()) == 0);
    assert forall|i: int| 0 <= i < text.len() implies is_digit(#[trigger] text[i]) by {
        if i >= zeros.len() {
            assert(text[i] == digits[i - zeros.len()]);
        }
    }
    if room == 0 {
        assert(text =~= digits);
    }
}

proof fn lemma_zeros(n: nat)
    ensures
        digits_value(repeat('0', n)) == 0,
    decreases n,
{
    if n > 0 {
        lemma_zeros((n - 1) as nat);
        assert(repeat('0', n).drop_last() =~= repeat('0', (n - 1) as nat));
    }
}

/// A number below a power of ten has no more digits than the power has zeros.
pub proof fn small_numbers_are_short(n: nat)
    ensures
        n < 100 ==> decimal(n).len() <= 2,
        n < 10000 ==> decimal(n).len() <= 4,
{
    reveal_with_fuel(decimal, 4);
}

} // verus!
