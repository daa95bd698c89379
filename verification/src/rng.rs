//! A small, dependency-free pseudo-random generator.
//!
//! Seeded from the system clock. Not cryptographically secure, which is fine
//! for the `{{$random.*}}` test-data variables it is used for.

use vstd::prelude::*;
use vstd::string::StringExecFns;
use crate::calendar::iso8601;
use crate::calendar::iso_text;
use crate::text::all_ascii;
use crate::text::ascii_lower;
use crate::text::chars_of;
use crate::text::lowercase;
use crate::text::to_lowercase;

pub use crate::calendar::civil_from_days;

verus! {

// ---------------------------------------------------------------------------
// The generator
// ---------------------------------------------------------------------------

/// The state behind the state `x`.
pub open spec fn next_state(x: u64) -> u64 {
    let a = x ^ (x >> 12);
    let b = a ^ (a << 25);
    b ^ (b >> 27)
}

/// The number that is drawn in the state `x`.
pub open spec fn draw(x: u64) -> u64 {
    vstd::wrapping::u64_specs::wrapping_mul(next_state(x), 0x2545F4914F6CDD1D)
}

/// The state that a clock reading in nanoseconds leads to.
pub open spec fn seeded(nanos: u64) -> u64 {
    let mixed = nanos ^ 0xD1B54A32D192ED03;
    next_state(
        if mixed == 0 {
            0x9E3779B97F4A7C15
        } else {
            mixed
        },
    )
}

/// The character of `alphabet` that is drawn in the state `x`.
pub open spec fn pick(x: u64, alphabet: Seq<char>) -> char {
    alphabet[(draw(x) as usize) as int % alphabet.len() as int]
}

/// `n` characters of `alphabet`, drawn one after the other from the state `x`
/// on: the state behind them, and the text.
pub open spec fn drawn(x: u64, alphabet: Seq<char>, n: nat) -> (u64, Seq<char>)
    decreases n,
{
    if n == 0 {
        (x, Seq::empty())
    } else {
        let (y, text) = drawn(x, alphabet, (n - 1) as nat);
        (next_state(y), text.push(pick(y, alphabet)))
    }
}

pub open spec fn letters() -> Seq<char> {
    "abcdefghijklmnopqrstuvwxyzABCDEFGHIJKLMNOPQRSTUVWXYZ"@
}

pub open spec fn word_characters() -> Seq<char> {
    "abcdefghijklmnopqrstuvwxyzABCDEFGHIJKLMNOPQRSTUVWXYZ0123456789_"@
}

pub open spec fn hex_digits() -> Seq<char> {
    "0123456789abcdef"@
}

/// Byte `i` of `x`, the lowest first.
pub open spec fn byte_of(x: nat, i: nat) -> nat
    decreases i,
{
    if i == 0 {
        x % 256
    } else {
        byte_of(x / 256, (i - 1) as nat)
    }
}

/// Byte `i` of the UUID made of two draws, with the version 4 and the variant of
/// RFC 4122 set.
pub open spec fn uuid_byte(low: u64, high: u64, i: nat) -> nat {
    if i == 6 {
        byte_of(low as nat, 6) % 16 + 0x40
    } else if i == 8 {
        byte_of(high as nat, 0) % 64 + 0x80
    } else if i < 8 {
        byte_of(low as nat, i)
    } else {
        byte_of(high as nat, (i - 8) as nat)
    }
}

/// The first `n` bytes of a UUID in hexadecimal, with hyphens before the bytes
/// 4, 6, 8 and 10.
pub open spec fn uuid_text(low: u64, high: u64, n: nat) -> Seq<char>
    decreases n,
{
    if n == 0 {
        Seq::empty()
    } else {
        let i = (n - 1) as nat;
        let before = uuid_text(low, high, i);
        let b = uuid_byte(low, high, i) as int;
        (if i == 4 || i == 6 || i == 8 || i == 10 {
            before.push('-')
        } else {
            before
        }).push(hex_digits()[b / 16]).push(hex_digits()[b % 16])
    }
}

pub open spec fn domain(x: u64) -> Seq<char> {
    let k = (draw(x) as usize) as int % 4;
    if k == 0 {
        "example.com"@
    } else if k == 1 {
        "example.org"@
    } else if k == 2 {
        "test.dev"@
    } else {
        "example.dev"@
    }
}

/// An address with eight drawn characters, and the state behind it.
pub open spec fn email_of(x: u64) -> (u64, Seq<char>) {
    let (y, user) = drawn(x, word_characters(), 8);
    (next_state(y), lowercase(user) + seq!['@'] + domain(y))
}

/// A pseudo-random generator.
#[derive(Debug)]
pub struct Rng {
    state: u64,
}

impl Clone for Rng {
    fn clone(&self) -> (r: Rng)
        ensures
            r@ == self@,
    {
        Rng { state: self.state }
    }
}

impl View for Rng {
    type V = u64;

    closed spec fn view(&self) -> u64 {
        self.state
    }
}

/// `std::time::SystemTime`, opaque here.
#[verifier::external_type_specification]
#[verifier::external_body]
pub struct ExSystemTime(std::time::SystemTime);

/// `std::time::SystemTimeError`, opaque here.
#[verifier::external_type_specification]
#[verifier::external_body]
pub struct ExSystemTimeError(std::time::SystemTimeError);

/// `SystemTime::now` reads the clock. Nothing is stated of what it shows.
pub assume_specification[ std::time::SystemTime::now ]() -> (r: std::time::SystemTime)
;

/// The nanoseconds from the start of 1970 to a `std::time::SystemTime`, which are
/// negative before that.
pub uninterp spec fn time_nanos(t: std::time::SystemTime) -> int;

/// The nanoseconds in a `std::time::Duration`.
pub uninterp spec fn duration_nanos(d: std::time::Duration) -> nat;

/// `SystemTime::duration_since` the start of 1970: the time from then to `now`, or
/// an error where `now` stands before that.
#[verifier::external_body]
fn since_epoch(now: std::time::SystemTime) -> (r: Result<
    std::time::Duration,
    std::time::SystemTimeError,
>)
    ensures
        r is Ok <==> time_nanos(now) >= 0,
        r matches Ok(d) ==> duration_nanos(d) == time_nanos(now),
{
    now.duration_since(std::time::UNIX_EPOCH)
}

/// `Duration::as_nanos` counts the nanoseconds of a duration, whose whole seconds
/// are a 64-bit number.
pub assume_specification[ std::time::Duration::as_nanos ](d: &std::time::Duration) -> (r: u128)
    ensures
        r == duration_nanos(*d),
        r / 1_000_000_000 <= u64::MAX,
;

/// What a clock at the moment `now` shows in nanoseconds since 1970; nothing before
/// that.
pub open spec fn nanos_shown(now: std::time::SystemTime) -> Option<int> {
    if time_nanos(now) >= 0 {
        Some(time_nanos(now))
    } else {
        None
    }
}

/// What a clock at the moment `now` shows in whole seconds since 1970; zero before
/// that.
pub open spec fn seconds_shown(now: std::time::SystemTime) -> int {
    match nanos_shown(now) {
        Some(n) => n / 1_000_000_000,
        None => 0,
    }
}

/// What a generator is seeded with at the moment `now`: the low 64 bits of the
/// clock, or a constant for a clock that stands before 1970.
pub open spec fn seed_shown(now: std::time::SystemTime) -> u64 {
    match nanos_shown(now) {
        Some(n) => (n % 0x1_0000_0000_0000_0000) as u64,
        None => 0x9E3779B97F4A7C15,
    }
}

pub open spec fn nanos_option(nanos: Option<u128>) -> Option<int> {
    match nanos {
        Some(n) => Some(n as int),
        None => None,
    }
}

/// The clock in nanoseconds since 1970, or nothing where it stands before that.
fn clock_nanos() -> (r: Option<u128>)
    ensures
        exists|now: std::time::SystemTime| nanos_option(r) == #[trigger] nanos_shown(now),
        r matches Some(n) ==> n / 1_000_000_000 <= u64::MAX,
{
    let now = std::time::SystemTime::now();
    let ghost at = now;
    let nanos = match since_epoch(now) {
        Ok(d) => Some(d.as_nanos()),
        Err(_) => None,
    };
    assert(nanos_option(nanos) == nanos_shown(at));
    nanos
}

proof fn lemma_step_is_injective(x: u64)
    ensures
        next_state(x) == 0 ==> x == 0,
{
    assert(({
        let a = x ^ (x >> 12);
        let b = a ^ (a << 25);
        b ^ (b >> 27)
    }) == 0 ==> x == 0) by (bit_vector);
}

/// The generator never gets stuck: no state but zero leads to zero, and no clock
/// reading seeds it with zero.
pub proof fn generator_never_sticks(x: u64)
    ensures
        x != 0 ==> next_state(x) != 0,
        seeded(x) != 0,
{
    lemma_step_is_injective(x);
    let mixed = x ^ 0xD1B54A32D192ED03;
    lemma_step_is_injective(mixed);
    lemma_step_is_injective(0x9E3779B97F4A7C15);
}

impl Rng {
    /// A generator seeded from the system clock.
    pub fn new() -> (r: Rng)
        ensures
            exists|now: std::time::SystemTime| r@ == seeded(#[trigger] seed_shown(now)),
            r@ != 0,
    {
        let reading = clock_nanos();
        let nanos: u64 = match reading {
            Some(n) => (n % 0x1_0000_0000_0000_0000) as u64,
            None => 0x9E3779B97F4A7C15,
        };
        proof {
            generator_never_sticks(nanos);
            let now = choose|now: std::time::SystemTime|
                nanos_option(reading) == #[trigger] nanos_shown(now);
            assert(nanos == seed_shown(now));
        }
        Rng::from_nanos(nanos)
    }

    /// The generator that a clock reading leads to.
    pub fn from_nanos(nanos: u64) -> (r: Rng)
        ensures
            r@ == seeded(nanos),
    {
        let mixed: u64 = nanos ^ 0xD1B54A32D192ED03;
        let mut rng = Rng {
            state: if mixed == 0 {
                0x9E3779B97F4A7C15
            } else {
                mixed
            },
        };
        rng.next_u64();
        rng
    }

    pub fn next_u64(&mut self) -> (r: u64)
        ensures
            r == draw(old(self)@),
            final(self)@ == next_state(old(self)@),
    {
        let x: u64 = self.state;
        let a: u64 = x ^ (x >> 12);
        let b: u64 = a ^ (a << 25);
        let c: u64 = b ^ (b >> 27);
        self.state = c;
        c.wrapping_mul(0x2545F4914F6CDD1D)
    }

    /// Random integer in `[lo, hi)`.
    pub fn int_range(&mut self, lo: i64, hi: i64) -> (r: i64)
        requires
            lo < hi,
        ensures
            r == lo + draw(old(self)@) as int % (hi - lo),
            lo <= r < hi,
            final(self)@ == next_state(old(self)@),
    {
        let span: u64 = (hi as i128 - lo as i128) as u64;
        let x: u64 = self.next_u64();
        proof {
            vstd::arithmetic::div_mod::lemma_mod_bound(x as int, span as int);
        }
        (lo as i128 + (x % span) as i128) as i64
    }

    /// Random version 4 UUID.
    pub fn uuid_v4(&mut self) -> (r: String)
        ensures
            r@ == uuid_text(draw(old(self)@), draw(next_state(old(self)@)), 16),
            final(self)@ == next_state(next_state(old(self)@)),
    {
        let low: u64 = self.next_u64();
        let high: u64 = self.next_u64();
        let hex = chars_of("0123456789abcdef");
        let mut out = String::new();
        for i in 0u64..16u64
            invariant
                hex@ == hex_digits(),
                out@ == uuid_text(low, high, i as nat),
        {
            let b: u64 = if i == 6 {
                nth_byte(low, 6) % 16 + 0x40
            } else if i == 8 {
                nth_byte(high, 0) % 64 + 0x80
            } else if i < 8 {
                nth_byte(low, i)
            } else {
                nth_byte(high, i - 8)
            };
            assert(b == uuid_byte(low, high, i as nat));
            if i == 4 || i == 6 || i == 8 || i == 10 {
                out.push('-');
            }
            proof {
                reveal_strlit("0123456789abcdef");
            }
            out.push(hex[(b / 16) as usize]);
            out.push(hex[(b % 16) as usize]);
        }
        out
    }

    fn text(&mut self, alphabet: &str, length: usize) -> (r: String)
        requires
            alphabet@.len() > 0,
        ensures
            r@ == drawn(old(self)@, alphabet@, length as nat).1,
            final(self)@ == drawn(old(self)@, alphabet@, length as nat).0,
    {
        let cs = chars_of(alphabet);
        let mut out = String::new();
        for i in 0..length
            invariant
                cs@ == alphabet@,
                cs@.len() > 0,
                (self@, out@) == drawn(old(self)@, alphabet@, i as nat),
        {
            let k: usize = (self.next_u64() as usize) % cs.len();
            out.push(cs[k]);
        }
        out
    }

    /// Random letters.
    pub fn alphabetic(&mut self, length: usize) -> (r: String)
        ensures
            r@ == drawn(old(self)@, letters(), length as nat).1,
            final(self)@ == drawn(old(self)@, letters(), length as nat).0,
    {
        proof {
            reveal_strlit("abcdefghijklmnopqrstuvwxyzABCDEFGHIJKLMNOPQRSTUVWXYZ");
        }
        self.text("abcdefghijklmnopqrstuvwxyzABCDEFGHIJKLMNOPQRSTUVWXYZ", length)
    }

    /// Random letters, digits and underscores.
    pub fn alphanumeric(&mut self, length: usize) -> (r: String)
        ensures
            r@ == drawn(old(self)@, word_characters(), length as nat).1,
            final(self)@ == drawn(old(self)@, word_characters(), length as nat).0,
    {
        proof {
            reveal_strlit("abcdefghijklmnopqrstuvwxyzABCDEFGHIJKLMNOPQRSTUVWXYZ0123456789_");
        }
        self.text("abcdefghijklmnopqrstuvwxyzABCDEFGHIJKLMNOPQRSTUVWXYZ0123456789_", length)
    }

    /// Random hexadecimal digits.
    pub fn hexadecimal(&mut self, length: usize) -> (r: String)
        ensures
            r@ == drawn(old(self)@, hex_digits(), length as nat).1,
            final(self)@ == drawn(old(self)@, hex_digits(), length as nat).0,
    {
        proof {
            reveal_strlit("0123456789abcdef");
        }
        self.text("0123456789abcdef", length)
    }

    /// Random e-mail address.
    pub fn email(&mut self) -> (r: String)
        ensures
            r@ == email_of(old(self)@).1,
            final(self)@ == email_of(old(self)@).0,
    {
        let user = self.alphanumeric(8);
        let mut out = to_lowercase(user.as_str());
        out.push('@');
        let k: usize = (self.next_u64() as usize) % 4;
        let domain = if k == 0 {
            "example.com"
        } else if k == 1 {
            "example.org"
        } else if k == 2 {
            "test.dev"
        } else {
            "example.dev"
        };
        out.append(domain);
        assert(out@ =~= email_of(old(self)@).1);
        out
    }
}

fn nth_byte(x: u64, i: u64) -> (r: u64)
    ensures
        r == byte_of(x as nat, i as nat),
        r < 256,
    decreases i,
{
    if i == 0 {
        x % 256
    } else {
        nth_byte(x / 256, i - 1)
    }
}

impl Default for Rng {
    fn default() -> (r: Rng)
        ensures
            exists|now: std::time::SystemTime| r@ == seeded(#[trigger] seed_shown(now)),
            r@ != 0,
    {
        Rng::new()
    }
}

// ---------------------------------------------------------------------------
// The time
// ---------------------------------------------------------------------------

/// The whole seconds of a clock reading in nanoseconds; zero for a clock that
/// stands before 1970.
pub fn whole_seconds(nanos: Option<u128>) -> (r: u64)
    requires
        nanos matches Some(n) ==> n / 1_000_000_000 <= u64::MAX,
    ensures
        nanos matches Some(n) ==> r == n / 1_000_000_000,
        nanos is None ==> r == 0,
{
    match nanos {
        Some(n) => (n / 1_000_000_000) as u64,
        None => 0,
    }
}

/// Current UNIX timestamp in whole seconds: what the clock shows at some moment.
/// Which moment that is is not stated.
pub fn unix_timestamp() -> (r: u64)
    ensures
        exists|now: std::time::SystemTime| r == #[trigger] seconds_shown(now),
{
    let nanos = clock_nanos();
    let r: u64 = whole_seconds(nanos);
    proof {
        let now = choose|now: std::time::SystemTime|
            nanos_option(nanos) == #[trigger] nanos_shown(now);
        assert(r == seconds_shown(now));
    }
    r
}

/// Current UTC timestamp formatted as ISO-8601 (`2026-08-24T12:34:56Z`).
pub fn iso8601_timestamp() -> (r: String)
    ensures
        exists|now: std::time::SystemTime|
            r@ == iso_text((#[trigger] seconds_shown(now) as i64) as int),
{
    iso8601(unix_timestamp() as i64)
}

// ---------------------------------------------------------------------------
// What holds of everything that is drawn
// ---------------------------------------------------------------------------

/// A drawn text has the length that was asked for, and only characters of its
/// alphabet.
pub proof fn drawn_text_is_of_its_alphabet(x: u64, alphabet: Seq<char>, n: nat)
    requires
        alphabet.len() > 0,
    ensures
        drawn(x, alphabet, n).1.len() == n,
        forall|i: int| 0 <= i < n ==> alphabet.contains(#[trigger] drawn(x, alphabet, n).1[i]),
    decreases n,
{
    if n > 0 {
        let (y, text) = drawn(x, alphabet, (n - 1) as nat);
        drawn_text_is_of_its_alphabet(x, alphabet, (n - 1) as nat);
        let k = (draw(y) as usize) as int % alphabet.len() as int;
        vstd::arithmetic::div_mod::lemma_mod_bound(
            (draw(y) as usize) as int,
            alphabet.len() as int,
        );
        assert(alphabet[k] == pick(y, alphabet));
        let all = drawn(x, alphabet, n).1;
        assert forall|i: int| 0 <= i < n implies alphabet.contains(#[trigger] all[i]) by {
            if i < n - 1 {
                assert(all[i] == text[i]);
            }
        }
    }
}

proof fn lemma_byte(x: nat, i: nat)
    ensures
        byte_of(x, i) < 256,
    decreases i,
{
    if i > 0 {
        lemma_byte(x / 256, (i - 1) as nat);
    }
}

/// The position of the first hexadecimal digit of byte `i` in the text of a
/// UUID.
pub open spec fn uuid_position(i: int) -> int {
    2 * i + if i < 4 {
        0int
    } else if i < 6 {
        1
    } else if i < 8 {
        2
    } else if i < 10 {
        3
    } else {
        4
    }
}

proof fn lemma_uuid_text(low: u64, high: u64, n: nat)
    requires
        n <= 16,
    ensures
        uuid_text(low, high, n).len() == if n == 0 {
            0
        } else {
            uuid_position(n - 1) + 2
        },
        forall|i: int|
            0 <= i < n ==> {
                &&& uuid_text(low, high, n)[#[trigger] uuid_position(i)] == hex_digits()[uuid_byte(
                    low,
                    high,
                    i as nat,
                ) as int / 16]
                &&& uuid_text(low, high, n)[uuid_position(i) + 1] == hex_digits()[uuid_byte(
                    low,
                    high,
                    i as nat,
                ) as int % 16]
            },
        n > 4 ==> uuid_text(low, high, n)[8] == '-',
        n > 6 ==> uuid_text(low, high, n)[13] == '-',
        n > 8 ==> uuid_text(low, high, n)[18] == '-',
        n > 10 ==> uuid_text(low, high, n)[23] == '-',
    decreases n,
{
    if n > 0 {
        lemma_uuid_text(low, high, (n - 1) as nat);
    }
}

/// A UUID has 36 characters: hexadecimal digits, with hyphens at the positions
/// 8, 13, 18 and 23, the version 4 at position 14, and one of `8`, `9`, `a` and
/// `b` at position 19.
pub proof fn uuid_has_its_form(low: u64, high: u64)
    ensures
        uuid_text(low, high, 16).len() == 36,
        uuid_text(low, high, 16)[8] == '-',
        uuid_text(low, high, 16)[13] == '-',
        uuid_text(low, high, 16)[14] == '4',
        uuid_text(low, high, 16)[18] == '-',
        seq!['8', '9', 'a', 'b'].contains(uuid_text(low, high, 16)[19]),
        uuid_text(low, high, 16)[23] == '-',
        forall|k: int|
            0 <= k < 36 && k != 8 && k != 13 && k != 18 && k != 23 ==> hex_digits().contains(
                #[trigger] uuid_text(low, high, 16)[k],
            ),
{
    reveal_strlit("0123456789abcdef");
    lemma_uuid_text(low, high, 16);
    let text = uuid_text(low, high, 16);
    let hex = hex_digits();
    assert(uuid_position(6) == 14);
    lemma_byte(low as nat, 6);
    assert(uuid_byte(low, high, 6) as int / 16 == 4);
    assert(uuid_position(8) == 19);
    lemma_byte(high as nat, 0);
    let v = uuid_byte(low, high, 8) as int / 16;
    assert(8 <= v <= 11);
    assert(text[19] == hex[v]);
    let variants = seq!['8', '9', 'a', 'b'];
    assert(variants[v - 8] == hex[v]);
    assert forall|k: int|
        0 <= k < 36 && k != 8 && k != 13 && k != 18 && k != 23 implies hex.contains(
        #[trigger] text[k],
    ) by {
        let shift = if k < 8 {
            0int
        } else if k < 13 {
            1
        } else if k < 18 {
            2
        } else if k < 23 {
            3
        } else {
            4
        };
        let i = (k - shift) / 2;
        assert(0 <= i < 16);
        lemma_byte(low as nat, i as nat);
        if i >= 8 {
            lemma_byte(high as nat, (i - 8) as nat);
        }
        let b = uuid_byte(low, high, i as nat) as int;
        assert(0 <= b < 256);
        assert(uuid_position(i) == k || uuid_position(i) + 1 == k);
        assert(text[uuid_position(i)] == hex[b / 16]);
        assert(text[uuid_position(i) + 1] == hex[b % 16]);
    }
}

proof fn lemma_byte_by_place(x: nat, i: nat)
    ensures
        byte_of(x, i) == x as int / vstd::arithmetic::power::pow(256, i) % 256,
    decreases i,
{
    reveal(vstd::arithmetic::power::pow);
    if i > 0 {
        let p = vstd::arithmetic::power::pow(256, (i - 1) as nat);
        vstd::arithmetic::power::lemma_pow_positive(256, (i - 1) as nat);
        lemma_byte_by_place(x / 256, (i - 1) as nat);
        vstd::arithmetic::div_mod::lemma_div_denominator(x as int, 256, p);
    } else {
        assert(x as int / 1 == x);
    }
}

/// A UUID shows its two draws, byte by byte and the lowest byte first, but for the six
/// bits of the version and the variant.
pub proof fn uuid_shows_its_draws(low: u64, high: u64, i: nat)
    requires
        i < 8,
    ensures
        ({
            let text = uuid_text(low, high, 16);
            let p = vstd::arithmetic::power::pow(256, i);
            let a = low as int / p % 256;
            let b = high as int / p % 256;
            let at = uuid_position(i as int);
            let behind = uuid_position(i as int + 8);
            &&& text[at + 1] == hex_digits()[a % 16]
            &&& i != 6 ==> text[at] == hex_digits()[a / 16]
            &&& text[behind + 1] == hex_digits()[b % 16]
            &&& i != 0 ==> text[behind] == hex_digits()[b / 16]
            &&& i == 0 ==> text[behind] == hex_digits()[8 + b / 16 % 4]
        }),
{
    lemma_uuid_text(low, high, 16);
    lemma_byte_by_place(low as nat, i);
    lemma_byte_by_place(high as nat, i);
    lemma_byte(low as nat, i);
    lemma_byte(high as nat, i);
    let text = uuid_text(low, high, 16);
    assert(text[uuid_position(i as int)] == hex_digits()[uuid_byte(low, high, i) as int / 16]);
    assert(text[uuid_position(i as int + 8)] == hex_digits()[uuid_byte(
        low,
        high,
        i + 8,
    ) as int / 16]);
    if i == 6 {
        let b = byte_of(low as nat, 6) as int;
        assert((b % 16 + 0x40) % 16 == b % 16);
    }
    if i == 0 {
        let b = byte_of(high as nat, 0) as int;
        assert((b % 64 + 0x80) % 16 == b % 16);
        assert((b % 64 + 0x80) / 16 == 8 + b / 16 % 4);
    }
}

/// The state `n` draws behind the state `x`.
pub open spec fn state_behind(x: u64, n: nat) -> u64
    decreases n,
{
    if n == 0 {
        x
    } else {
        next_state(state_behind(x, (n - 1) as nat))
    }
}

/// Each character of a drawn text has a draw of its own.
pub proof fn each_character_is_drawn(x: u64, alphabet: Seq<char>, n: nat, i: nat)
    requires
        alphabet.len() > 0,
        i < n,
    ensures
        drawn(x, alphabet, n).0 == state_behind(x, n),
        drawn(x, alphabet, n).1.len() == n,
        drawn(x, alphabet, n).1[i as int] == alphabet[(draw(
            state_behind(x, i),
        ) as usize) as int % alphabet.len() as int],
    decreases n,
{
    let m = (n - 1) as nat;
    if i < m {
        each_character_is_drawn(x, alphabet, m, i);
    } else if m > 0 {
        each_character_is_drawn(x, alphabet, m, 0);
    } else {
        assert(drawn(x, alphabet, 0) == (x, Seq::<char>::empty()));
        assert(state_behind(x, 0) == x);
    }
}

proof fn lemma_multiplied(a: u64, b: u64)
    requires
        vstd::wrapping::u64_specs::wrapping_mul(a, 0x2545F4914F6CDD1D)
            == vstd::wrapping::u64_specs::wrapping_mul(b, 0x2545F4914F6CDD1D),
    ensures
        a == b,
{
    let m: int = 0x2545F4914F6CDD1D;
    let inverse: int = 0x59071d96d81ecd35;
    let w: int = 0x1_0000_0000_0000_0000;
    assert((a * m) % w == (b * m) % w);
    assert((m * inverse) % w == 1) by (nonlinear_arith)
        requires
            m == 0x2545F4914F6CDD1Dint,
            inverse == 0x59071d96d81ecd35int,
            w == 0x1_0000_0000_0000_0000int,
    ;
    lemma_undone(a as int, m, inverse, w);
    lemma_undone(b as int, m, inverse, w);
}

proof fn lemma_undone(a: int, m: int, inverse: int, w: int)
    requires
        0 <= a < w,
        w > 1,
        (m * inverse) % w == 1,
    ensures
        (((a * m) % w) * inverse) % w == a,
{
    vstd::arithmetic::div_mod::lemma_mul_mod_noop_left(a * m, inverse, w);
    assert((a * m) * inverse == a * (m * inverse)) by (nonlinear_arith);
    vstd::arithmetic::div_mod::lemma_mul_mod_noop_right(a, m * inverse, w);
    assert(a * 1 == a);
    vstd::arithmetic::div_mod::lemma_small_mod(a as nat, w as nat);
}

/// No two states lead to the same state or draw the same number.
pub proof fn different_states_draw_differently(x: u64, y: u64)
    ensures
        next_state(x) == next_state(y) <==> x == y,
        draw(x) == draw(y) <==> x == y,
        seeded(x) == seeded(y) && x != y ==> x == 0xD1B54A32D192ED03 || y == 0xD1B54A32D192ED03,
{
    lemma_steps_apart(x, y);
    if draw(x) == draw(y) {
        lemma_multiplied(next_state(x), next_state(y));
    }
    let key: u64 = 0xD1B54A32D192ED03;
    let other: u64 = 0x9E3779B97F4A7C15;
    assert(x ^ key == y ^ key ==> x == y) by (bit_vector);
    assert(x ^ key == 0 ==> x == key) by (bit_vector);
    assert(y ^ key == 0 ==> y == key) by (bit_vector);
    lemma_steps_apart(x ^ key, y ^ key);
    lemma_steps_apart(other, y ^ key);
    lemma_steps_apart(x ^ key, other);
}

proof fn lemma_steps_apart(x: u64, y: u64)
    ensures
        next_state(x) == next_state(y) ==> x == y,
{
    assert(({
        let a = x ^ (x >> 12);
        let b = a ^ (a << 25);
        b ^ (b >> 27)
    }) ^ ({
        let a = y ^ (y >> 12);
        let b = a ^ (a << 25);
        b ^ (b >> 27)
    }) == ({
        let a = (x ^ y) ^ ((x ^ y) >> 12);
        let b = a ^ (a << 25);
        b ^ (b >> 27)
    })) by (bit_vector);
    let p = next_state(x);
    let q = next_state(y);
    assert(p == q ==> p ^ q == 0) by (bit_vector);
    lemma_step_is_injective(x ^ y);
    assert(x ^ y == 0 ==> x == y) by (bit_vector);
}

/// An address is eight characters in lower case, an at sign and one of four domains, and
/// the draws behind it decide which.
pub proof fn email_has_its_form(x: u64)
    ensures
        ({
            let text = email_of(x).1;
            let k = (draw(state_behind(x, 8)) as usize) as int % 4;
            let domains = seq!["example.com"@, "example.org"@, "test.dev"@, "example.dev"@];
            &&& email_of(x).0 == state_behind(x, 9)
            &&& text.skip(9) == domains[k]
            &&& text[8] == '@'
            &&& forall|i: int|
                0 <= i < 8 ==> #[trigger] text[i] == ascii_lower(
                    word_characters()[(draw(state_behind(x, i as nat)) as usize) as int % 63],
                )
        }),
{
    reveal_strlit("abcdefghijklmnopqrstuvwxyzABCDEFGHIJKLMNOPQRSTUVWXYZ0123456789_");
    let alphabet = word_characters();
    let user = drawn(x, alphabet, 8).1;
    each_character_is_drawn(x, alphabet, 8, 0);
    drawn_text_is_of_its_alphabet(x, alphabet, 8);
    assert forall|i: int| 0 <= i < 8 implies (#[trigger] user[i] as int) < 128 by {
        let j = choose|j: int| 0 <= j < alphabet.len() && alphabet[j] == user[i];
        assert(alphabet.contains(user[i]));
    }
    assert(all_ascii(user));
    let low = lowercase(user);
    assert(low.len() == 8);
    let text = email_of(x).1;
    assert(text.skip(9) =~= domain(state_behind(x, 8)));
    assert forall|i: int| 0 <= i < 8 implies #[trigger] text[i] == ascii_lower(
        alphabet[(draw(state_behind(x, i as nat)) as usize) as int % 63],
    ) by {
        each_character_is_drawn(x, alphabet, 8, i as nat);
        assert(text[i] == low[i]);
    }
    assert(state_behind(x, 9) == next_state(state_behind(x, 8)));
}

} // verus!
