//! Text operations over `&str`, stated over sequences of characters.
//!
//! A position is a count of characters, never of bytes. Every function here
//! is total.

use vstd::prelude::*;
use vstd::string::StrSliceExecFns;
use vstd::string::StringExecFns;
use vstd::utf8::decode_utf8;
use vstd::utf8::valid_utf8;

verus! {

// ---------------------------------------------------------------------------
// Specifications
// ---------------------------------------------------------------------------

/// The Unicode `White_Space` property.
pub open spec fn is_space(c: char) -> bool {
    let n = c as int;
    ||| 0x9 <= n <= 0xd
    ||| n == 0x20
    ||| n == 0x85
    ||| n == 0xa0
    ||| n == 0x1680
    ||| 0x2000 <= n <= 0x200a
    ||| n == 0x2028
    ||| n == 0x2029
    ||| n == 0x202f
    ||| n == 0x205f
    ||| n == 0x3000
}

pub open spec fn is_digit(c: char) -> bool {
    '0' as int <= c as int <= '9' as int
}

pub open spec fn is_upper(c: char) -> bool {
    'A' as int <= c as int <= 'Z' as int
}

pub open spec fn is_lower(c: char) -> bool {
    'a' as int <= c as int <= 'z' as int
}

/// Letters and digits. Outside ASCII this is the Unicode classification.
pub open spec fn is_alphanumeric(c: char) -> bool {
    if (c as int) < 128 {
        is_digit(c) || is_upper(c) || is_lower(c)
    } else {
        unicode_alphanumeric(c)
    }
}

/// Whether `char::is_alphanumeric` holds of a character outside ASCII.
pub uninterp spec fn unicode_alphanumeric(c: char) -> bool;

/// The text that `String::from_utf8_lossy` makes of bytes that are not UTF-8.
pub uninterp spec fn replaced_utf8(bytes: Seq<u8>) -> Seq<char>;

/// The text in `bytes`: what they encode, or, where they are not UTF-8, the text
/// with replacement characters.
pub open spec fn lossy_text(bytes: Seq<u8>) -> Seq<char> {
    if valid_utf8(bytes) {
        decode_utf8(bytes)
    } else {
        replaced_utf8(bytes)
    }
}

/// What `str::to_lowercase` makes of a text.
pub uninterp spec fn unicode_lowercase(s: Seq<char>) -> Seq<char>;

pub open spec fn ascii_lower(c: char) -> char {
    if is_upper(c) {
        (c as int + 32) as char
    } else {
        c
    }
}

pub open spec fn all_ascii(s: Seq<char>) -> bool {
    forall|i: int| 0 <= i < s.len() ==> (#[trigger] s[i] as int) < 128
}

/// The text in lower case. On ASCII text this maps `A`..`Z` and nothing else.
pub open spec fn lowercase(s: Seq<char>) -> Seq<char> {
    if all_ascii(s) {
        s.map_values(|c: char| ascii_lower(c))
    } else {
        unicode_lowercase(s)
    }
}

pub open spec fn same_ignoring_ascii_case(a: Seq<char>, b: Seq<char>) -> bool {
    &&& a.len() == b.len()
    &&& forall|i: int|
        #![trigger a[i]]
        #![trigger b[i]]
        0 <= i < a.len() ==> ascii_lower(a[i]) == ascii_lower(b[i])
}

/// Whether no character of `s` is visible.
pub open spec fn is_blank(s: Seq<char>) -> bool {
    trim(s).len() == 0
}

pub open spec fn trim_start(s: Seq<char>) -> Seq<char>
    decreases s.len(),
{
    if s.len() > 0 && is_space(s[0]) {
        trim_start(s.drop_first())
    } else {
        s
    }
}

pub open spec fn trim_end(s: Seq<char>) -> Seq<char>
    decreases s.len(),
{
    if s.len() > 0 && is_space(s.last()) {
        trim_end(s.drop_last())
    } else {
        s
    }
}

pub open spec fn trim(s: Seq<char>) -> Seq<char> {
    trim_end(trim_start(s))
}

/// `s` without its leading characters out of `set`.
pub open spec fn drop_leading(s: Seq<char>, set: Seq<char>) -> Seq<char>
    decreases s.len(),
{
    if s.len() > 0 && set.contains(s[0]) {
        drop_leading(s.drop_first(), set)
    } else {
        s
    }
}

/// `s` without its trailing characters out of `set`.
pub open spec fn drop_trailing(s: Seq<char>, set: Seq<char>) -> Seq<char>
    decreases s.len(),
{
    if s.len() > 0 && set.contains(s.last()) {
        drop_trailing(s.drop_last(), set)
    } else {
        s
    }
}

/// Whether `pat` stands in `s` at position `i`.
pub open spec fn matches_at(s: Seq<char>, pat: Seq<char>, i: int) -> bool {
    0 <= i && i + pat.len() <= s.len() && s.subrange(i, i + pat.len()) == pat
}

pub open spec fn starts_with(s: Seq<char>, pat: Seq<char>) -> bool {
    matches_at(s, pat, 0)
}

pub open spec fn ends_with(s: Seq<char>, pat: Seq<char>) -> bool {
    matches_at(s, pat, s.len() - pat.len())
}

pub open spec fn strip_prefix(s: Seq<char>, pat: Seq<char>) -> Option<Seq<char>> {
    if starts_with(s, pat) {
        Some(s.skip(pat.len() as int))
    } else {
        None
    }
}

pub open spec fn strip_suffix(s: Seq<char>, pat: Seq<char>) -> Option<Seq<char>> {
    if ends_with(s, pat) {
        Some(s.take(s.len() - pat.len()))
    } else {
        None
    }
}

/// The first position at or after `i` at which `pat` stands in `s`.
pub open spec fn find_from(s: Seq<char>, pat: Seq<char>, i: int) -> Option<int>
    decreases s.len() - i + 1,
{
    if i < 0 || i + pat.len() > s.len() {
        None
    } else if matches_at(s, pat, i) {
        Some(i)
    } else {
        find_from(s, pat, i + 1)
    }
}

/// The first position at which `pat` stands in `s`.
pub open spec fn find(s: Seq<char>, pat: Seq<char>) -> Option<int> {
    find_from(s, pat, 0)
}

/// The last position at or before `i` at which `pat` stands in `s`.
pub open spec fn rfind_from(s: Seq<char>, pat: Seq<char>, i: int) -> Option<int>
    decreases i + 1,
{
    if i < 0 {
        None
    } else if matches_at(s, pat, i) {
        Some(i)
    } else {
        rfind_from(s, pat, i - 1)
    }
}

/// The last position at which `pat` stands in `s`.
pub open spec fn rfind(s: Seq<char>, pat: Seq<char>) -> Option<int> {
    rfind_from(s, pat, s.len() - pat.len())
}

pub open spec fn contains(s: Seq<char>, pat: Seq<char>) -> bool {
    find(s, pat) is Some
}

/// The parts of `s` before and after the first `pat`.
pub open spec fn split_once(s: Seq<char>, pat: Seq<char>) -> Option<(Seq<char>, Seq<char>)> {
    match find(s, pat) {
        Some(i) => Some((s.take(i), s.skip(i + pat.len()))),
        None => None,
    }
}

/// The number of leading characters of `s` up to the first white space.
pub open spec fn word_len(s: Seq<char>) -> nat
    decreases s.len(),
{
    if s.len() == 0 || is_space(s[0]) {
        0
    } else {
        1 + word_len(s.drop_first())
    }
}

/// The number of leading characters of `s` that are `c`.
pub open spec fn run_len(s: Seq<char>, c: char) -> nat
    decreases s.len(),
{
    if s.len() == 0 || s[0] != c {
        0
    } else {
        1 + run_len(s.drop_first(), c)
    }
}

/// The number of leading characters of `s` before the first `c`, or all.
pub open spec fn until_len(s: Seq<char>, c: char) -> nat
    decreases s.len(),
{
    if s.len() == 0 || s[0] == c {
        0
    } else {
        1 + until_len(s.drop_first(), c)
    }
}

/// `s` without one trailing carriage return.
pub open spec fn without_cr(s: Seq<char>) -> Seq<char> {
    if s.len() > 0 && s.last() == '\r' {
        s.drop_last()
    } else {
        s
    }
}

/// The lines of `s`. A line ends in `\n` or `\r\n`, which is not part of it;
/// the last line may lack an end.
pub open spec fn lines(s: Seq<char>) -> Seq<Seq<char>>
    decreases s.len(),
{
    let n = until_len(s, '\n') as int;
    if s.len() == 0 {
        Seq::empty()
    } else if n >= s.len() {
        seq![s]
    } else {
        seq![without_cr(s.take(n))] + lines(s.skip(n + 1))
    }
}

/// The parts of `s` between the occurrences of `c`.
pub open spec fn split(s: Seq<char>, c: char) -> Seq<Seq<char>>
    decreases s.len(),
{
    let n = until_len(s, c) as int;
    if n >= s.len() {
        seq![s]
    } else {
        seq![s.take(n)] + split(s.skip(n + 1), c)
    }
}

/// The parts of `s` between the occurrences of the text `pat`.
pub open spec fn split_text(s: Seq<char>, pat: Seq<char>) -> Seq<Seq<char>>
    decreases s.len(),
{
    match find(s, pat) {
        Some(i) => if 0 <= i && 0 < pat.len() && i + pat.len() <= s.len() {
            seq![s.take(i)] + split_text(s.skip(i + pat.len()), pat)
        } else {
            seq![s]
        },
        None => seq![s],
    }
}

/// `s` filled up with spaces to `width` characters.
pub open spec fn filled(s: Seq<char>, width: nat) -> Seq<char> {
    s + repeat(
        ' ',
        if s.len() < width {
            (width - s.len()) as nat
        } else {
            0
        },
    )
}

/// `s` with every `from` replaced by `to`.
pub open spec fn replaced(s: Seq<char>, from: char, to: char) -> Seq<char> {
    s.map_values(
        |c: char|
            if c == from {
                to
            } else {
                c
            },
    )
}

/// The texts in `parts`, with `sep` between each two.
pub open spec fn join(parts: Seq<Seq<char>>, sep: Seq<char>) -> Seq<char>
    decreases parts.len(),
{
    if parts.len() == 0 {
        Seq::empty()
    } else if parts.len() == 1 {
        parts[0]
    } else {
        join(parts.drop_last(), sep) + sep + parts.last()
    }
}

/// `n` times `c`.
pub open spec fn repeat(c: char, n: nat) -> Seq<char> {
    Seq::new(n, |i: int| c)
}

/// Lexicographic order by code point.
pub open spec fn text_lt(a: Seq<char>, b: Seq<char>) -> bool
    decreases a.len(),
{
    if b.len() == 0 {
        false
    } else if a.len() == 0 {
        true
    } else if a[0] == b[0] {
        text_lt(a.drop_first(), b.drop_first())
    } else {
        (a[0] as int) < (b[0] as int)
    }
}

/// The texts that a list of strings holds.
pub open spec fn texts(v: Seq<String>) -> Seq<Seq<char>> {
    Seq::new(v.len(), |i: int| v[i]@)
}

/// The texts that a list of pairs of strings holds.
pub open spec fn text_pairs(v: Seq<(String, String)>) -> Seq<(Seq<char>, Seq<char>)> {
    Seq::new(v.len(), |i: int| (v[i].0@, v[i].1@))
}

/// The texts that an optional pair of strings holds.
pub open spec fn pair_option(p: Option<(String, String)>) -> Option<(Seq<char>, Seq<char>)> {
    match p {
        Some(p) => Some((p.0@, p.1@)),
        None => None,
    }
}

/// The text that an optional string holds.
pub open spec fn text_option(v: Option<String>) -> Option<Seq<char>> {
    match v {
        Some(s) => Some(s@),
        None => None,
    }
}

// ---------------------------------------------------------------------------
// What the standard library does with text
// ---------------------------------------------------------------------------

/// `String::push` appends one character.
pub assume_specification[ std::string::String::push ](s: &mut std::string::String, c: char)
    ensures
        final(s)@ == old(s)@.push(c),
;

/// `char::is_alphanumeric`. On ASCII it holds of the letters and digits; what
/// it says of other characters is the Unicode tables' matter and only named.
#[verifier::external_body]
fn char_is_alphanumeric(c: char) -> (r: bool)
    ensures
        (c as int) < 128 ==> r == (is_digit(c) || is_upper(c) || is_lower(c)),
        (c as int) >= 128 ==> r == unicode_alphanumeric(c),
{
    c.is_alphanumeric()
}

/// `str::to_lowercase`. On ASCII text it maps `A`..`Z`; what it makes of other
/// text is the Unicode tables' matter and only named.
#[verifier::external_body]
fn str_to_lowercase(s: &str) -> (r: String)
    ensures
        all_ascii(s@) ==> r@ == s@.map_values(|c: char| ascii_lower(c)),
        !all_ascii(s@) ==> r@ == unicode_lowercase(s@),
{
    s.to_lowercase()
}

// ---------------------------------------------------------------------------
// Characters
// ---------------------------------------------------------------------------

/// Whether `c` is white space.
pub fn char_is_space(c: char) -> (r: bool)
    ensures
        r == is_space(c),
{
    let n = c as u32;
    (0x9 <= n && n <= 0xd) || n == 0x20 || n == 0x85 || n == 0xa0 || n == 0x1680 || (0x2000 <= n
        && n <= 0x200a) || n == 0x2028 || n == 0x2029 || n == 0x202f || n == 0x205f || n == 0x3000
}

/// Whether `c` is an ASCII digit.
pub fn char_is_digit(c: char) -> (r: bool)
    ensures
        r == is_digit(c),
{
    '0' <= c && c <= '9'
}

/// Whether `c` is an ASCII capital letter.
pub fn char_is_upper(c: char) -> (r: bool)
    ensures
        r == is_upper(c),
{
    'A' <= c && c <= 'Z'
}

/// Whether `c` is a letter or a digit.
pub fn char_is_word(c: char) -> (r: bool)
    ensures
        r == is_alphanumeric(c),
{
    char_is_alphanumeric(c)
}

/// `c` with an ASCII capital made small.
pub fn char_to_ascii_lower(c: char) -> (r: char)
    ensures
        r == ascii_lower(c),
{
    if char_is_upper(c) {
        ((c as u8) + 32) as char
    } else {
        c
    }
}

// ---------------------------------------------------------------------------
// Text
// ---------------------------------------------------------------------------

/// The characters of `s`, one per element.
pub fn chars_of(s: &str) -> (r: Vec<char>)
    ensures
        r@ == s@,
{
    let mut out: Vec<char> = Vec::new();
    for c in it: s.chars()
        invariant
            out@ == it.seq().take(it.index()),
            it.seq() == s@,
    {
        out.push(c);
    }
    out
}

/// The text made of `cs[from..to]`.
pub fn text_of(cs: &Vec<char>, from: usize, to: usize) -> (r: String)
    requires
        from <= to <= cs@.len(),
    ensures
        r@ == cs@.subrange(from as int, to as int),
{
    let mut out = String::new();
    let mut i: usize = from;
    while i < to
        invariant
            from <= i <= to <= cs@.len(),
            out@ == cs@.subrange(from as int, i as int),
        decreases to - i,
    {
        out.push(cs[i]);
        i += 1;
        assert(out@ =~= cs@.subrange(from as int, i as int));
    }
    out
}

/// Whether two texts are the same.
pub fn same(a: &str, b: &str) -> (r: bool)
    ensures
        r == (a@ == b@),
{
    let x = chars_of(a);
    let y = chars_of(b);
    if x.len() != y.len() {
        return false;
    }
    let mut i: usize = 0;
    while i < x.len()
        invariant
            x@.len() == y@.len(),
            x@ == a@,
            y@ == b@,
            i <= x@.len(),
            x@.take(i as int) == y@.take(i as int),
        decreases x@.len() - i,
    {
        if x[i] != y[i] {
            assert(a@[i as int] != b@[i as int]);
            return false;
        }
        i += 1;
        assert(x@.take(i as int) =~= x@.take(i - 1).push(x@[i - 1]));
        assert(y@.take(i as int) =~= y@.take(i - 1).push(y@[i - 1]));
    }
    assert(x@.take(i as int) =~= x@);
    assert(y@.take(i as int) =~= y@);
    true
}

/// `String::from_utf8_lossy`: the text that the bytes encode. Where they are not
/// UTF-8, the text is only named.
#[verifier::external_body]
fn from_utf8_lossy(bytes: &[u8]) -> (r: String)
    ensures
        valid_utf8(bytes@) ==> r@ == decode_utf8(bytes@),
        !valid_utf8(bytes@) ==> r@ == replaced_utf8(bytes@),
{
    String::from_utf8_lossy(bytes).into_owned()
}

/// The text in `bytes`.
pub fn lossy_text_of(bytes: &[u8]) -> (r: String)
    ensures
        r@ == lossy_text(bytes@),
{
    from_utf8_lossy(bytes)
}

/// `a`, then `b`.
pub fn concat(a: &str, b: &str) -> (r: String)
    ensures
        r@ == a@ + b@,
{
    let mut out = owned(a);
    out.append(b);
    out
}

/// `a`, then `b`, then `c`.
pub fn concat3(a: &str, b: &str, c: &str) -> (r: String)
    ensures
        r@ == a@ + b@ + c@,
{
    let mut out = owned(a);
    out.append(b);
    out.append(c);
    out
}

/// Whether `s` holds nothing.
pub fn is_empty_text(s: &str) -> (r: bool)
    ensures
        r == (s@.len() == 0),
{
    s.is_empty()
}

/// The text in lower case.
pub fn to_lowercase(s: &str) -> (r: String)
    ensures
        r@ == lowercase(s@),
{
    str_to_lowercase(s)
}

/// Whether two texts differ at most in the case of ASCII letters.
pub fn eq_ignore_ascii_case(a: &str, b: &str) -> (r: bool)
    ensures
        r == same_ignoring_ascii_case(a@, b@),
{
    let x = chars_of(a);
    let y = chars_of(b);
    if x.len() != y.len() {
        return false;
    }
    let mut i: usize = 0;
    while i < x.len()
        invariant
            x@.len() == y@.len(),
            x@ == a@,
            y@ == b@,
            i <= x@.len(),
            forall|k: int|
                #![trigger a@[k]]
                #![trigger b@[k]]
                0 <= k < i ==> ascii_lower(a@[k]) == ascii_lower(b@[k]),
        decreases x@.len() - i,
    {
        if char_to_ascii_lower(x[i]) != char_to_ascii_lower(y[i]) {
            assert(ascii_lower(a@[i as int]) != ascii_lower(b@[i as int]));
            return false;
        }
        i += 1;
    }
    true
}

/// `s` without leading white space.
pub fn trim_start_of<'a>(s: &'a str) -> (r: &'a str)
    ensures
        r@ == trim_start(s@),
{
    let cs = chars_of(s);
    let mut i: usize = 0;
    assert(s@.skip(0) =~= s@);
    while i < cs.len() && char_is_space(cs[i])
        invariant
            cs@ == s@,
            i <= cs@.len(),
            trim_start(s@) == trim_start(s@.skip(i as int)),
        decreases cs@.len() - i,
    {
        assert(s@.skip(i as int).drop_first() =~= s@.skip(i + 1));
        i += 1;
    }
    assert(s@.subrange(i as int, s@.len() as int) =~= s@.skip(i as int));
    s.substring_char(i, cs.len())
}

/// `s` without trailing white space.
pub fn trim_end_of<'a>(s: &'a str) -> (r: &'a str)
    ensures
        r@ == trim_end(s@),
{
    let cs = chars_of(s);
    let mut i: usize = cs.len();
    assert(s@.take(i as int) =~= s@);
    while i > 0 && char_is_space(cs[i - 1])
        invariant
            cs@ == s@,
            i <= cs@.len(),
            trim_end(s@) == trim_end(s@.take(i as int)),
        decreases i,
    {
        assert(s@.take(i as int).drop_last() =~= s@.take(i - 1));
        i -= 1;
    }
    assert(s@.subrange(0, i as int) =~= s@.take(i as int));
    s.substring_char(0, i)
}

/// `s` without white space at either end.
pub fn trim_of<'a>(s: &'a str) -> (r: &'a str)
    ensures
        r@ == trim(s@),
{
    trim_end_of(trim_start_of(s))
}

/// Whether `c` is one of `set`.
fn is_one_of(c: char, set: &[char]) -> (r: bool)
    ensures
        r == set@.contains(c),
{
    let mut i: usize = 0;
    while i < set.len()
        invariant
            i <= set@.len(),
            forall|k: int| 0 <= k < i ==> set@[k] != c,
        decreases set@.len() - i,
    {
        if set[i] == c {
            assert(set@[i as int] == c);
            return true;
        }
        i += 1;
    }
    false
}

/// `s` without its leading characters out of `set`.
pub fn drop_leading_of<'a>(s: &'a str, set: &[char]) -> (r: &'a str)
    ensures
        r@ == drop_leading(s@, set@),
{
    let cs = chars_of(s);
    let mut i: usize = 0;
    assert(s@.skip(0) =~= s@);
    while i < cs.len() && is_one_of(cs[i], set)
        invariant
            cs@ == s@,
            i <= cs@.len(),
            drop_leading(s@, set@) == drop_leading(s@.skip(i as int), set@),
        decreases cs@.len() - i,
    {
        assert(s@.skip(i as int).drop_first() =~= s@.skip(i + 1));
        i += 1;
    }
    assert(s@.subrange(i as int, s@.len() as int) =~= s@.skip(i as int));
    s.substring_char(i, cs.len())
}

/// `s` without its trailing characters out of `set`.
pub fn drop_trailing_of<'a>(s: &'a str, set: &[char]) -> (r: &'a str)
    ensures
        r@ == drop_trailing(s@, set@),
{
    let cs = chars_of(s);
    let mut i: usize = cs.len();
    assert(s@.take(i as int) =~= s@);
    while i > 0 && is_one_of(cs[i - 1], set)
        invariant
            cs@ == s@,
            i <= cs@.len(),
            drop_trailing(s@, set@) == drop_trailing(s@.take(i as int), set@),
        decreases i,
    {
        assert(s@.take(i as int).drop_last() =~= s@.take(i - 1));
        i -= 1;
    }
    assert(s@.subrange(0, i as int) =~= s@.take(i as int));
    s.substring_char(0, i)
}

/// Whether `pat` stands in `s` at position `i`.
pub fn stands_at(s: &Vec<char>, pat: &Vec<char>, i: usize) -> (r: bool)
    ensures
        r == matches_at(s@, pat@, i as int),
{
    if pat.len() > s.len() || i > s.len() - pat.len() {
        return false;
    }
    let mut k: usize = 0;
    while k < pat.len()
        invariant
            i + pat.len() <= s.len(),
            k <= pat@.len(),
            forall|j: int| 0 <= j < k ==> s@[i + j] == pat@[j],
        decreases pat@.len() - k,
    {
        if s[i + k] != pat[k] {
            assert(s@.subrange(i as int, i + pat@.len())[k as int] != pat@[k as int]);
            return false;
        }
        k += 1;
    }
    assert(s@.subrange(i as int, i + pat@.len()) =~= pat@);
    true
}

/// Whether `s` starts with `pat`.
pub fn has_prefix(s: &str, pat: &str) -> (r: bool)
    ensures
        r == starts_with(s@, pat@),
{
    stands_at(&chars_of(s), &chars_of(pat), 0)
}

/// Whether `s` ends with `pat`.
pub fn has_suffix(s: &str, pat: &str) -> (r: bool)
    ensures
        r == ends_with(s@, pat@),
{
    let cs = chars_of(s);
    let ps = chars_of(pat);
    if ps.len() > cs.len() {
        return false;
    }
    stands_at(&cs, &ps, cs.len() - ps.len())
}

/// What follows `pat` at the start of `s`.
pub fn after_prefix<'a>(s: &'a str, pat: &str) -> (r: Option<&'a str>)
    ensures
        r matches Some(t) ==> strip_prefix(s@, pat@) == Some(t@),
        r is None ==> strip_prefix(s@, pat@) is None,
{
    if has_prefix(s, pat) {
        let n = s.unicode_len();
        let m = pat.unicode_len();
        assert(s@.subrange(m as int, n as int) =~= s@.skip(m as int));
        Some(s.substring_char(m, n))
    } else {
        None
    }
}

/// What precedes `pat` at the end of `s`.
pub fn before_suffix<'a>(s: &'a str, pat: &str) -> (r: Option<&'a str>)
    ensures
        r matches Some(t) ==> strip_suffix(s@, pat@) == Some(t@),
        r is None ==> strip_suffix(s@, pat@) is None,
{
    if has_suffix(s, pat) {
        let n = s.unicode_len();
        let m = pat.unicode_len();
        assert(s@.subrange(0, n - m) =~= s@.take(n - m));
        Some(s.substring_char(0, n - m))
    } else {
        None
    }
}

pub proof fn lemma_find_range(s: Seq<char>, pat: Seq<char>, i: int)
    requires
        0 <= i,
    ensures
        find_from(s, pat, i) matches Some(k) ==> i <= k && k + pat.len() <= s.len() && matches_at(
            s,
            pat,
            k,
        ),
    decreases s.len() - i + 1,
{
    if i + pat.len() <= s.len() && !matches_at(s, pat, i) {
        lemma_find_range(s, pat, i + 1);
    }
}

pub proof fn lemma_rfind_range(s: Seq<char>, pat: Seq<char>, i: int)
    requires
        i + pat.len() <= s.len(),
    ensures
        rfind_from(s, pat, i) matches Some(k) ==> 0 <= k <= i && matches_at(s, pat, k),
    decreases i + 1,
{
    if i >= 0 && !matches_at(s, pat, i) {
        lemma_rfind_range(s, pat, i - 1);
    }
}

/// The first position at which `pat` stands in `s`.
pub fn position(s: &str, pat: &str) -> (r: Option<usize>)
    ensures
        r matches Some(i) ==> find(s@, pat@) == Some(i as int) && i + pat@.len() <= s@.len(),
        r is None ==> find(s@, pat@) is None,
{
    let cs = chars_of(s);
    let ps = chars_of(pat);
    if ps.len() > cs.len() {
        return None;
    }
    let mut i: usize = 0;
    let last: usize = cs.len() - ps.len();
    while i <= last
        invariant
            cs@ == s@,
            ps@ == pat@,
            ps@.len() <= cs@.len(),
            last == cs@.len() - ps@.len(),
            i <= last + 1,
            find(s@, pat@) == find_from(s@, pat@, i as int),
        decreases last + 1 - i,
    {
        if stands_at(&cs, &ps, i) {
            return Some(i);
        }
        if i == last {
            assert(find_from(s@, pat@, i + 1) is None);
            return None;
        }
        i += 1;
    }
    None
}

/// The last position at which `pat` stands in `s`.
pub fn last_position(s: &str, pat: &str) -> (r: Option<usize>)
    ensures
        r matches Some(i) ==> rfind(s@, pat@) == Some(i as int) && i + pat@.len() <= s@.len(),
        r is None ==> rfind(s@, pat@) is None,
{
    let cs = chars_of(s);
    let ps = chars_of(pat);
    if ps.len() > cs.len() {
        return None;
    }
    let mut i: usize = cs.len() - ps.len();
    loop
        invariant
            cs@ == s@,
            ps@ == pat@,
            i + ps@.len() <= cs@.len(),
            rfind(s@, pat@) == rfind_from(s@, pat@, i as int),
        decreases i,
    {
        if stands_at(&cs, &ps, i) {
            return Some(i);
        }
        if i == 0 {
            assert(rfind_from(s@, pat@, -1) is None);
            return None;
        }
        i -= 1;
    }
}

/// Whether `pat` stands anywhere in `s`.
pub fn includes(s: &str, pat: &str) -> (r: bool)
    ensures
        r == contains(s@, pat@),
{
    position(s, pat).is_some()
}

/// The first `n` characters of `s`.
pub fn head_of<'a>(s: &'a str, n: usize) -> (r: &'a str)
    requires
        n <= s@.len(),
    ensures
        r@ == s@.take(n as int),
{
    assert(s@.subrange(0, n as int) =~= s@.take(n as int));
    s.substring_char(0, n)
}

/// What follows the first `n` characters of `s`.
pub fn tail_of<'a>(s: &'a str, n: usize) -> (r: &'a str)
    requires
        n <= s@.len(),
    ensures
        r@ == s@.skip(n as int),
{
    let len = s.unicode_len();
    assert(s@.subrange(n as int, len as int) =~= s@.skip(n as int));
    s.substring_char(n, len)
}

/// The parts of `s` before and after the first `pat`.
pub fn split_once_at<'a>(s: &'a str, pat: &str) -> (r: Option<(&'a str, &'a str)>)
    ensures
        r matches Some(p) ==> split_once(s@, pat@) == Some((p.0@, p.1@)),
        r is None ==> split_once(s@, pat@) is None,
{
    match position(s, pat) {
        Some(i) => {
            let m = pat.unicode_len();
            let n = s.unicode_len();
            assert(i + m <= n);
            Some((head_of(s, i), tail_of(s, i + m)))
        },
        None => None,
    }
}

/// The number of leading characters of `s` up to the first white space.
pub fn leading_word(s: &str) -> (r: usize)
    ensures
        r == word_len(s@),
        r <= s@.len(),
        r < s@.len() ==> is_space(s@[r as int]),
{
    let cs = chars_of(s);
    let mut i: usize = 0;
    assert(s@.skip(0) =~= s@);
    while i < cs.len() && !char_is_space(cs[i])
        invariant
            cs@ == s@,
            i <= cs@.len(),
            word_len(s@) == i + word_len(s@.skip(i as int)),
        decreases cs@.len() - i,
    {
        assert(s@.skip(i as int).drop_first() =~= s@.skip(i + 1));
        i += 1;
    }
    i
}

/// The number of leading characters of `s` that are `c`.
pub fn leading_run(s: &str, c: char) -> (r: usize)
    ensures
        r == run_len(s@, c),
        r <= s@.len(),
{
    let cs = chars_of(s);
    let mut i: usize = 0;
    assert(s@.skip(0) =~= s@);
    while i < cs.len() && cs[i] == c
        invariant
            cs@ == s@,
            i <= cs@.len(),
            run_len(s@, c) == i + run_len(s@.skip(i as int), c),
        decreases cs@.len() - i,
    {
        assert(s@.skip(i as int).drop_first() =~= s@.skip(i + 1));
        i += 1;
    }
    i
}

pub proof fn lemma_until_len(s: Seq<char>, c: char)
    ensures
        until_len(s, c) <= s.len(),
        until_len(s, c) < s.len() ==> s[until_len(s, c) as int] == c,
        forall|k: int| 0 <= k < until_len(s, c) ==> #[trigger] s[k] != c,
    decreases s.len(),
{
    if s.len() > 0 && s[0] != c {
        lemma_until_len(s.drop_first(), c);
        assert forall|k: int| 0 <= k < until_len(s, c) implies #[trigger] s[k] != c by {
            if k > 0 {
                assert(s.drop_first()[k - 1] == s[k]);
            }
        }
    }
}

/// `until_len` is the only position with these properties.
proof fn lemma_until_len_unique(s: Seq<char>, c: char, n: int)
    requires
        0 <= n <= s.len(),
        n < s.len() ==> s[n] == c,
        forall|k: int| 0 <= k < n ==> s[k] != c,
    ensures
        until_len(s, c) == n,
{
    lemma_until_len(s, c);
    let m = until_len(s, c) as int;
    if m < n {
        assert(s[m] != c);
    } else if n < m {
        assert(s[n] != c);
    }
}

/// The lines of a text that ends in a line break, and of what follows it, do not
/// depend on each other.
pub proof fn lemma_lines_join(a: Seq<char>, b: Seq<char>)
    requires
        a.len() == 0 || a.last() == '\n',
    ensures
        lines(a + b) == lines(a) + lines(b),
    decreases a.len(),
{
    if a.len() == 0 {
        assert(a + b =~= b);
        assert(lines(a) + lines(b) =~= lines(b));
    } else {
        lemma_until_len(a, '\n');
        let n = until_len(a, '\n') as int;
        assert(n < a.len()) by {
            if n == a.len() {
                assert(a[a.len() - 1] != '\n');
            }
        }
        lemma_until_len_unique(a + b, '\n', n);
        let rest = a.skip(n + 1);
        assert((a + b).take(n) =~= a.take(n));
        assert((a + b).skip(n + 1) =~= rest + b);
        lemma_lines_join(rest, b);
        let first = seq![without_cr(a.take(n))];
        assert(first + (lines(rest) + lines(b)) =~= first + lines(rest) + lines(b));
    }
}

/// The lines of `s`.
pub fn lines_of(s: &str) -> (r: Vec<String>)
    ensures
        texts(r@) == lines(s@),
{
    let cs = chars_of(s);
    let mut out: Vec<String> = Vec::new();
    let mut start: usize = 0;
    let mut i: usize = 0;
    assert(s@.skip(0) =~= s@);
    assert(texts(out@) =~= Seq::empty());
    assert(texts(out@) + lines(s@.skip(0)) =~= lines(s@));
    while i < cs.len()
        invariant
            cs@ == s@,
            start <= i <= cs@.len(),
            forall|k: int| start <= k < i ==> cs@[k] != '\n',
            texts(out@) + lines(s@.skip(start as int)) == lines(s@),
        decreases cs@.len() - i,
    {
        if cs[i] == '\n' {
            let end: usize = if i > start && cs[i - 1] == '\r' {
                i - 1
            } else {
                i
            };
            let line = text_of(&cs, start, end);
            let ghost before = out@;
            let ghost rest = s@.skip(start as int);
            proof {
                assert forall|k: int| 0 <= k < i - start implies rest[k] != '\n' by {
                    assert(rest[k] == cs@[start + k]);
                }
                lemma_until_len_unique(rest, '\n', i - start);
                assert(rest.take(i - start) =~= s@.subrange(start as int, i as int));
                assert(without_cr(rest.take(i - start)) =~= line@);
                assert(rest.skip(i - start + 1) =~= s@.skip(i + 1));
            }
            out.push(line);
            proof {
                assert(texts(out@) =~= texts(before).push(line@));
                assert(texts(out@) + lines(s@.skip(i + 1)) =~= texts(before) + (seq![line@]
                    + lines(s@.skip(i + 1))));
            }
            start = i + 1;
        }
        i += 1;
    }
    let ghost rest = s@.skip(start as int);
    if start < cs.len() {
        let line = text_of(&cs, start, cs.len());
        let ghost before = out@;
        proof {
            assert forall|k: int| 0 <= k < rest.len() implies rest[k] != '\n' by {
                assert(rest[k] == cs@[start + k]);
            }
            lemma_until_len_unique(rest, '\n', rest.len() as int);
            assert(line@ =~= rest);
        }
        out.push(line);
        proof {
            assert(texts(out@) =~= texts(before) + seq![line@]);
        }
    } else {
        assert(lines(rest) =~= Seq::empty());
        assert(texts(out@) + lines(rest) =~= texts(out@));
    }
    out
}

/// The parts of `s` between the occurrences of `c`.
pub fn split_of(s: &str, c: char) -> (r: Vec<String>)
    ensures
        texts(r@) == split(s@, c),
        r@.len() > 0,
{
    let cs = chars_of(s);
    let mut out: Vec<String> = Vec::new();
    let mut start: usize = 0;
    let mut i: usize = 0;
    assert(s@.skip(0) =~= s@);
    assert(texts(out@) + split(s@.skip(0), c) =~= split(s@, c));
    while i < cs.len()
        invariant
            cs@ == s@,
            start <= i <= cs@.len(),
            forall|k: int| start <= k < i ==> cs@[k] != c,
            texts(out@) + split(s@.skip(start as int), c) == split(s@, c),
        decreases cs@.len() - i,
    {
        if cs[i] == c {
            let part = text_of(&cs, start, i);
            let ghost before = out@;
            let ghost rest = s@.skip(start as int);
            proof {
                assert forall|k: int| 0 <= k < i - start implies rest[k] != c by {
                    assert(rest[k] == cs@[start + k]);
                }
                lemma_until_len_unique(rest, c, i - start);
                assert(rest.take(i - start) =~= part@);
                assert(rest.skip(i - start + 1) =~= s@.skip(i + 1));
            }
            out.push(part);
            proof {
                assert(texts(out@) =~= texts(before).push(part@));
                assert(texts(out@) + split(s@.skip(i + 1), c) =~= texts(before) + (seq![part@]
                    + split(s@.skip(i + 1), c)));
            }
            start = i + 1;
        }
        i += 1;
    }
    let ghost rest = s@.skip(start as int);
    let part = text_of(&cs, start, cs.len());
    let ghost before = out@;
    proof {
        assert forall|k: int| 0 <= k < rest.len() implies rest[k] != c by {
            assert(rest[k] == cs@[start + k]);
        }
        lemma_until_len_unique(rest, c, rest.len() as int);
        assert(part@ =~= rest);
    }
    out.push(part);
    proof {
        assert(texts(out@) =~= texts(before) + seq![part@]);
    }
    out
}

/// The texts in `parts`, with `sep` between each two.
pub fn join_of(parts: &Vec<String>, sep: &str) -> (r: String)
    ensures
        r@ == join(texts(parts@), sep@),
{
    let mut out = String::new();
    let mut i: usize = 0;
    assert(texts(parts@).take(0) =~= Seq::empty());
    while i < parts.len()
        invariant
            i <= parts@.len(),
            out@ == join(texts(parts@).take(i as int), sep@),
        decreases parts@.len() - i,
    {
        if i > 0 {
            out.append(sep);
        }
        out.append(parts[i].as_str());
        i += 1;
        assert(texts(parts@).take(i as int).drop_last() =~= texts(parts@).take(i - 1));
        assert(texts(parts@).take(i as int).last() == parts@[i - 1]@);
        if i == 1 {
            assert(out@ =~= parts@[0]@);
        }
    }
    assert(texts(parts@).take(i as int) =~= texts(parts@));
    out
}

/// Whether `a` comes before `b`.
pub fn comes_before(a: &str, b: &str) -> (r: bool)
    ensures
        r == text_lt(a@, b@),
{
    let x = chars_of(a);
    let y = chars_of(b);
    let mut i: usize = 0;
    assert(a@.skip(0) =~= a@);
    assert(b@.skip(0) =~= b@);
    while i < x.len() && i < y.len() && x[i] == y[i]
        invariant
            x@ == a@,
            y@ == b@,
            i <= x@.len(),
            i <= y@.len(),
            text_lt(a@, b@) == text_lt(a@.skip(i as int), b@.skip(i as int)),
        decreases x@.len() - i,
    {
        assert(a@.skip(i as int).drop_first() =~= a@.skip(i + 1));
        assert(b@.skip(i as int).drop_first() =~= b@.skip(i + 1));
        i += 1;
    }
    let ghost p = a@.skip(i as int);
    let ghost q = b@.skip(i as int);
    assert(i < a@.len() ==> p[0] == a@[i as int]);
    assert(i < b@.len() ==> q[0] == b@[i as int]);
    if i >= y.len() {
        false
    } else if i >= x.len() {
        true
    } else {
        assert(p[0] != q[0]);
        assert(text_lt(p, q) == ((p[0] as int) < (q[0] as int)));
        x[i] < y[i]
    }
}

/// A copy of `s`.
pub fn owned(s: &str) -> (r: String)
    ensures
        r@ == s@,
{
    s.to_string()
}

/// A copy of a list of texts.
pub fn copy_texts(v: &Vec<String>) -> (r: Vec<String>)
    ensures
        texts(r@) == texts(v@),
{
    let mut out: Vec<String> = Vec::new();
    for i in 0..v.len()
        invariant
            texts(out@) == texts(v@).take(i as int),
    {
        let ghost before = texts(out@);
        out.push(v[i].clone());
        assert(texts(out@) =~= before.push(texts(v@)[i as int]));
    }
    assert(texts(v@).take(v@.len() as int) =~= texts(v@));
    out
}

/// A copy of a list of pairs of texts.
pub fn copy_pairs(v: &Vec<(String, String)>) -> (r: Vec<(String, String)>)
    ensures
        text_pairs(r@) == text_pairs(v@),
{
    let mut out: Vec<(String, String)> = Vec::new();
    for i in 0..v.len()
        invariant
            text_pairs(out@) == text_pairs(v@).take(i as int),
    {
        let ghost before = text_pairs(out@);
        let p = &v[i];
        out.push((p.0.clone(), p.1.clone()));
        assert(text_pairs(out@) =~= before.push((p.0@, p.1@)));
    }
    assert(text_pairs(v@).take(v@.len() as int) =~= text_pairs(v@));
    out
}

/// A copy of an optional text.
pub fn copy_text(s: &Option<String>) -> (r: Option<String>)
    ensures
        text_option(r) == text_option(*s),
{
    match s {
        Some(s) => Some(owned(s.as_str())),
        None => None,
    }
}

/// The parts of `s` between the occurrences of the text `pat`.
pub fn split_text_of(s: &str, pat: &str) -> (r: Vec<String>)
    requires
        pat@.len() > 0,
    ensures
        texts(r@) == split_text(s@, pat@),
{
    let width: usize = pat.unicode_len();
    let mut out: Vec<String> = Vec::new();
    let mut rest = s;
    assert(texts(out@) + split_text(rest@, pat@) =~= split_text(s@, pat@));
    loop
        invariant
            width == pat@.len(),
            pat@.len() > 0,
            texts(out@) + split_text(rest@, pat@) == split_text(s@, pat@),
        decreases rest@.len(),
    {
        let ghost before = texts(out@);
        match position(rest, pat) {
            Some(i) => {
                let total: usize = rest.unicode_len();
                out.push(owned(head_of(rest, i)));
                let behind = tail_of(rest, i + width);
                assert(texts(out@) + split_text(behind@, pat@) =~= before + split_text(
                    rest@,
                    pat@,
                ));
                rest = behind;
            },
            None => {
                out.push(owned(rest));
                assert(texts(out@) =~= before + seq![rest@]);
                return out;
            },
        }
    }
}

/// `s` filled up with spaces to `width` characters.
pub fn fill_to(s: &str, width: usize) -> (r: String)
    ensures
        r@ == filled(s@, width as nat),
{
    let mut count: usize = s.unicode_len();
    let ghost start = count;
    let mut out = owned(s);
    assert(out@ =~= s@ + repeat(' ', 0));
    while count < width
        invariant
            start == s@.len(),
            start <= count,
            count <= width || count == start,
            out@ == s@ + repeat(' ', (count - start) as nat),
        decreases width - count,
    {
        out.push(' ');
        count = count + 1;
        assert(out@ =~= s@ + repeat(' ', (count - start) as nat));
    }
    out
}

/// `s` with every `from` replaced by `to`.
pub fn replace_char(s: &str, from: char, to: char) -> (r: String)
    ensures
        r@ == replaced(s@, from, to),
{
    let cs = chars_of(s);
    let mut out = String::new();
    for i in 0..cs.len()
        invariant
            cs@ == s@,
            out@ == replaced(s@.take(i as int), from, to),
    {
        let c = if cs[i] == from {
            to
        } else {
            cs[i]
        };
        out.push(c);
        assert(out@ =~= replaced(s@.take(i + 1), from, to));
    }
    assert(s@.take(cs@.len() as int) =~= s@);
    out
}

// ---------------------------------------------------------------------------
// What holds of texts
// ---------------------------------------------------------------------------

/// Whether nothing in `s` is visible.
pub open spec fn all_space(s: Seq<char>) -> bool {
    forall|i: int| 0 <= i < s.len() ==> is_space(#[trigger] s[i])
}

/// Whether no white space stands at either end of `s`.
pub open spec fn is_trimmed(s: Seq<char>) -> bool {
    s.len() > 0 ==> !is_space(s[0]) && !is_space(s.last())
}

/// White space before a text is dropped, and nothing else.
pub proof fn trim_start_finds(before: Seq<char>, core: Seq<char>)
    requires
        all_space(before),
        core.len() > 0 ==> !is_space(core[0]),
    ensures
        trim_start(before + core) == core,
    decreases before.len(),
{
    if before.len() == 0 {
        assert(before + core =~= core);
    } else {
        assert((before + core)[0] == before[0]);
        assert((before + core).drop_first() =~= before.drop_first() + core);
        trim_start_finds(before.drop_first(), core);
    }
}

/// White space behind a text is dropped, and nothing else.
pub proof fn trim_end_finds(core: Seq<char>, after: Seq<char>)
    requires
        all_space(after),
        core.len() > 0 ==> !is_space(core.last()),
    ensures
        trim_end(core + after) == core,
    decreases after.len(),
{
    if after.len() == 0 {
        assert(core + after =~= core);
    } else {
        assert((core + after).last() == after.last());
        assert((core + after).drop_last() =~= core + after.drop_last());
        trim_end_finds(core, after.drop_last());
    }
}

/// White space around a text is dropped, and nothing of the text itself.
pub proof fn trim_finds(before: Seq<char>, core: Seq<char>, after: Seq<char>)
    requires
        all_space(before),
        all_space(after),
        is_trimmed(core),
    ensures
        trim(before + core + after) == core,
{
    if core.len() == 0 {
        let all = before + core + after;
        assert(all_space(all)) by {
            assert forall|i: int| 0 <= i < all.len() implies is_space(#[trigger] all[i]) by {
                if i >= before.len() {
                    assert(all[i] == after[i - before.len()]);
                }
            }
        }
        assert(all + core =~= all);
        trim_start_finds(all, core);
    } else {
        assert((core + after)[0] == core[0]);
        assert(before + core + after =~= before + (core + after));
        trim_start_finds(before, core + after);
        trim_end_finds(core, after);
    }
}

/// A text without white space at its ends is its own trimmed form.
pub proof fn trimmed_text_is_kept(s: Seq<char>)
    requires
        is_trimmed(s),
    ensures
        trim(s) == s,
{
    trim_finds(Seq::empty(), s, Seq::empty());
    assert(Seq::<char>::empty() + s + Seq::<char>::empty() =~= s);
}

proof fn lemma_trim_start_core(s: Seq<char>)
    ensures
        trim_start(s).len() <= s.len(),
        trim_start(s) == s.skip(s.len() - trim_start(s).len()),
        all_space(s.take(s.len() - trim_start(s).len())),
        trim_start(s).len() > 0 ==> !is_space(trim_start(s)[0]),
    decreases s.len(),
{
    if s.len() > 0 && is_space(s[0]) {
        let rest = s.drop_first();
        lemma_trim_start_core(rest);
        let k = rest.len() - trim_start(rest).len();
        assert(s.skip(k + 1) =~= rest.skip(k));
        assert forall|i: int| 0 <= i < k + 1 implies is_space(#[trigger] s.take(k + 1)[i]) by {
            if i > 0 {
                assert(rest.take(k)[i - 1] == s[i]);
            }
        }
    } else {
        assert(s.skip(0) =~= s);
    }
}

proof fn lemma_trim_end_core(s: Seq<char>)
    ensures
        trim_end(s).len() <= s.len(),
        trim_end(s) == s.take(trim_end(s).len() as int),
        all_space(s.skip(trim_end(s).len() as int)),
        trim_end(s).len() > 0 ==> !is_space(trim_end(s).last()),
    decreases s.len(),
{
    if s.len() > 0 && is_space(s.last()) {
        let rest = s.drop_last();
        lemma_trim_end_core(rest);
        let k = trim_end(rest).len() as int;
        assert(s.take(k) =~= rest.take(k));
        assert forall|i: int| 0 <= i < s.len() - k implies is_space(#[trigger] s.skip(k)[i]) by {
            if i + k < rest.len() {
                assert(rest.skip(k)[i] == s[i + k]);
            }
        }
    } else {
        assert(s.take(s.len() as int) =~= s);
    }
}

/// Every text is its trimmed form with white space around it.
pub proof fn trim_keeps_the_core(s: Seq<char>)
    ensures
        is_trimmed(trim(s)),
        exists|i: int, j: int|
            0 <= i <= j <= s.len() && trim(s) == #[trigger] s.subrange(i, j) && all_space(s.take(i))
                && all_space(s.skip(j)),
{
    let t = trim_start(s);
    lemma_trim_start_core(s);
    lemma_trim_end_core(t);
    let i = s.len() - t.len();
    let j = i + trim(s).len();
    assert(s.subrange(i, j) =~= trim(s));
    assert(s.skip(j) =~= t.skip(trim(s).len() as int));
    assert(trim(s).len() > 0 ==> trim(s)[0] == t[0]);
}

/// A text is blank exactly if nothing in it is visible.
pub proof fn blank_means_invisible(s: Seq<char>)
    ensures
        is_blank(s) == all_space(s),
{
    trim_keeps_the_core(s);
    let (i, j) = choose|i: int, j: int|
        0 <= i <= j <= s.len() && trim(s) == #[trigger] s.subrange(i, j) && all_space(s.take(i))
            && all_space(s.skip(j));
    if is_blank(s) {
        assert forall|k: int| 0 <= k < s.len() implies is_space(#[trigger] s[k]) by {
            if k < i {
                assert(s.take(i)[k] == s[k]);
            } else {
                assert(s.skip(j)[k - j] == s[k]);
            }
        }
    } else if all_space(s) {
        assert(s.subrange(i, j)[0] == s[i]);
    }
}

proof fn lemma_find_from_first(s: Seq<char>, pat: Seq<char>, i: int)
    requires
        0 <= i,
    ensures
        match find_from(s, pat, i) {
            Some(k) => i <= k && matches_at(s, pat, k) && forall|j: int|
                i <= j < k ==> !matches_at(s, pat, j),
            None => forall|j: int| i <= j ==> !matches_at(s, pat, j),
        },
    decreases s.len() - i + 1,
{
    if i + pat.len() <= s.len() && !matches_at(s, pat, i) {
        lemma_find_from_first(s, pat, i + 1);
    }
}

/// A text is found where it stands first, and nowhere only if it stands nowhere.
pub proof fn find_is_first(s: Seq<char>, pat: Seq<char>)
    ensures
        match find(s, pat) {
            Some(k) => matches_at(s, pat, k) && forall|j: int|
                0 <= j < k ==> !matches_at(s, pat, j),
            None => forall|j: int| !matches_at(s, pat, j),
        },
{
    lemma_find_from_first(s, pat, 0);
}

proof fn lemma_rfind_from_last(s: Seq<char>, pat: Seq<char>, i: int)
    ensures
        match rfind_from(s, pat, i) {
            Some(k) => k <= i && matches_at(s, pat, k) && forall|j: int|
                k < j <= i ==> !matches_at(s, pat, j),
            None => forall|j: int| j <= i ==> !matches_at(s, pat, j),
        },
    decreases i + 1,
{
    if i >= 0 && !matches_at(s, pat, i) {
        lemma_rfind_from_last(s, pat, i - 1);
    }
}

/// Searched from behind, a text is found where it stands last.
pub proof fn rfind_is_last(s: Seq<char>, pat: Seq<char>)
    ensures
        match rfind(s, pat) {
            Some(k) => matches_at(s, pat, k) && forall|j: int|
                k < j ==> !matches_at(s, pat, j),
            None => forall|j: int| !matches_at(s, pat, j),
        },
{
    lemma_rfind_from_last(s, pat, s.len() - pat.len());
}

/// A text that stands nowhere earlier is split where it stands.
pub proof fn split_finds(a: Seq<char>, pat: Seq<char>, b: Seq<char>)
    requires
        forall|j: int| 0 <= j < a.len() ==> !matches_at(a + pat + b, pat, j),
    ensures
        find(a + pat + b, pat) == Some(a.len() as int),
        split_once(a + pat + b, pat) == Some((a, b)),
{
    let s = a + pat + b;
    assert(s.subrange(a.len() as int, (a.len() + pat.len()) as int) =~= pat);
    assert(matches_at(s, pat, a.len() as int));
    find_is_first(s, pat);
    if let Some(k) = find(s, pat) {
        assert(matches_at(s, pat, k));
    }
    assert(find(s, pat) == Some(a.len() as int));
    assert(s.take(a.len() as int) =~= a);
    assert(s.skip((a.len() + pat.len()) as int) =~= b);
}

/// A text is split at the first of a character, whatever stands behind it.
pub proof fn split_finds_character(a: Seq<char>, c: char, b: Seq<char>)
    requires
        !a.contains(c),
    ensures
        split_once(a + seq![c] + b, seq![c]) == Some((a, b)),
        find(a + seq![c] + b, seq![c]) == Some(a.len() as int),
{
    let s = a + seq![c] + b;
    assert forall|j: int| 0 <= j < a.len() implies !matches_at(s, seq![c], j) by {
        assert(s.subrange(j, j + 1)[0] == a[j]);
        assert(a.contains(a[j]));
    }
    split_finds(a, seq![c], b);
}

/// The two parts of a split text, with what they were split at, are the text; and
/// that stands nowhere earlier.
pub proof fn split_parts_rejoin(s: Seq<char>, pat: Seq<char>)
    ensures
        match split_once(s, pat) {
            Some((a, b)) => s == a + pat + b && forall|j: int|
                0 <= j < a.len() ==> !matches_at(s, pat, j),
            None => forall|j: int| !matches_at(s, pat, j),
        },
{
    find_is_first(s, pat);
    if let Some(k) = find(s, pat) {
        assert(s =~= s.take(k) + s.subrange(k, k + pat.len()) + s.skip(k + pat.len()));
    }
}

/// The texts, each with a line break behind it.
pub open spec fn as_lines(parts: Seq<Seq<char>>) -> Seq<char>
    decreases parts.len(),
{
    if parts.len() == 0 {
        Seq::empty()
    } else {
        as_lines(parts.drop_last()) + parts.last().push('\n')
    }
}

/// Whether `s` can be a line: it holds no line break, nor what would be part of one.
pub open spec fn is_line(s: Seq<char>) -> bool {
    !s.contains('\n') && (s.len() > 0 ==> s.last() != '\r')
}

/// A text without a line break is one line, unless it is empty.
pub proof fn text_without_break_is_a_line(s: Seq<char>)
    requires
        !s.contains('\n'),
        s.len() > 0,
    ensures
        lines(s) == seq![s],
{
    lemma_until_len(s, '\n');
    if until_len(s, '\n') < s.len() {
        assert(s.contains(s[until_len(s, '\n') as int]));
    }
}

proof fn lemma_one_line(s: Seq<char>)
    requires
        is_line(s),
    ensures
        lines(s.push('\n')) == seq![s],
        lines(s + seq!['\r', '\n']) == seq![s],
{
    reveal_with_fuel(lines, 2);
    let n = s.len() as int;
    let plain = s.push('\n');
    assert forall|k: int| 0 <= k < s.len() implies s[k] != '\n' by {
        assert(s.contains(s[k]));
    }
    lemma_until_len_unique(plain, '\n', s.len() as int);
    assert(plain.take(s.len() as int) =~= s);
    assert(plain.skip(n + 1) =~= Seq::empty());
    assert(lines(plain) =~= seq![s]);
    let returned = s + seq!['\r', '\n'];
    lemma_until_len_unique(returned, '\n', n + 1);
    assert(returned.take(n + 1) =~= s.push('\r'));
    assert(s.push('\r').drop_last() =~= s);
    assert(returned.skip(n + 2) =~= Seq::empty());
    assert(lines(returned) =~= seq![s]);
}

/// Lines that are written one below the other are read back, all of them and in
/// order; it makes no difference whether a break is `\n` or `\r\n`.
pub proof fn lines_read_back(parts: Seq<Seq<char>>)
    requires
        forall|i: int| 0 <= i < parts.len() ==> is_line(#[trigger] parts[i]),
    ensures
        lines(as_lines(parts)) == parts,
        as_lines(parts).len() == 0 || as_lines(parts).last() == '\n',
        parts.len() > 0 ==> lines(
            as_lines(parts.drop_last()) + parts.last() + seq!['\r', '\n'],
        ) == parts,
        parts.len() > 0 && parts.last().len() > 0 ==> lines(
            as_lines(parts.drop_last()) + parts.last(),
        ) == parts,
    decreases parts.len(),
{
    if parts.len() > 0 {
        let before = parts.drop_last();
        let last = parts.last();
        assert(is_line(parts[parts.len() - 1]));
        lines_read_back(before);
        lemma_one_line(last);
        lemma_lines_join(as_lines(before), last.push('\n'));
        lemma_lines_join(as_lines(before), last + seq!['\r', '\n']);
        assert(as_lines(before) + last + seq!['\r', '\n'] =~= as_lines(before) + (last + seq![
            '\r',
            '\n',
        ]));
        assert(before + seq![last] =~= parts);
        if last.len() > 0 {
            text_without_break_is_a_line(last);
            lemma_lines_join(as_lines(before), last);
        }
    }
}

/// Joined lists, with the separator between them, are the joined list of all.
pub proof fn join_of_all(a: Seq<Seq<char>>, b: Seq<Seq<char>>, sep: Seq<char>)
    requires
        a.len() > 0,
        b.len() > 0,
    ensures
        join(a + b, sep) == join(a, sep) + sep + join(b, sep),
        join(seq![a[0]], sep) == a[0],
    decreases b.len(),
{
    let all = a + b;
    assert(all.last() == b.last());
    if b.len() == 1 {
        assert(all.drop_last() =~= a);
    } else {
        assert(all.drop_last() =~= a + b.drop_last());
        join_of_all(a, b.drop_last(), sep);
        assert(join(a, sep) + sep + join(b.drop_last(), sep) + sep + b.last() =~= join(a, sep)
            + sep + (join(b.drop_last(), sep) + sep + b.last()));
    }
}

/// The parts of a split text hold no separator; joined by it they are the text.
pub proof fn split_reads_back(s: Seq<char>, c: char)
    ensures
        split(s, c).len() > 0,
        join(split(s, c), seq![c]) == s,
        forall|i: int| 0 <= i < split(s, c).len() ==> !(#[trigger] split(s, c)[i]).contains(c),
    decreases s.len(),
{
    lemma_until_len(s, c);
    let n = until_len(s, c) as int;
    if n < s.len() {
        let first = s.take(n);
        let rest = s.skip(n + 1);
        split_reads_back(rest, c);
        join_of_all(seq![first], split(rest, c), seq![c]);
        assert(s =~= first + seq![c] + rest);
        assert(!first.contains(c));
        let all = split(s, c);
        assert forall|i: int| 0 <= i < all.len() implies !(#[trigger] all[i]).contains(c) by {
            if i > 0 {
                assert(all[i] == split(rest, c)[i - 1]);
            }
        }
    } else {
        assert(!s.contains(c));
    }
}

/// The parts of a text that is split at a text, joined by it, are the text; it
/// stands in none of them.
pub proof fn split_text_reads_back(s: Seq<char>, pat: Seq<char>)
    requires
        pat.len() > 0,
    ensures
        split_text(s, pat).len() > 0,
        join(split_text(s, pat), pat) == s,
        forall|i: int|
            0 <= i < split_text(s, pat).len() ==> !contains(#[trigger] split_text(s, pat)[i], pat),
    decreases s.len(),
{
    split_parts_rejoin(s, pat);
    find_is_first(s, pat);
    if let Some(k) = find(s, pat) {
        let first = s.take(k);
        let rest = s.skip(k + pat.len());
        split_text_reads_back(rest, pat);
        join_of_all(seq![first], split_text(rest, pat), pat);
        let all = split_text(s, pat);
        assert(all == seq![first] + split_text(rest, pat));
        assert(!contains(first, pat)) by {
            find_is_first(first, pat);
            if let Some(j) = find(first, pat) {
                assert(matches_at(first, pat, j));
                assert(s.subrange(j, j + pat.len()) =~= first.subrange(j, j + pat.len()));
                assert(matches_at(s, pat, j));
            }
        }
        assert forall|i: int| 0 <= i < all.len() implies !contains(#[trigger] all[i], pat) by {
            if i > 0 {
                assert(all[i] == split_text(rest, pat)[i - 1]);
            }
        }
    }
}

/// Leading characters out of a set are dropped, and nothing else.
pub proof fn drop_leading_finds(before: Seq<char>, core: Seq<char>, set: Seq<char>)
    requires
        forall|i: int| 0 <= i < before.len() ==> set.contains(#[trigger] before[i]),
        core.len() > 0 ==> !set.contains(core[0]),
    ensures
        drop_leading(before + core, set) == core,
    decreases before.len(),
{
    if before.len() == 0 {
        assert(before + core =~= core);
    } else {
        assert((before + core)[0] == before[0]);
        assert((before + core).drop_first() =~= before.drop_first() + core);
        drop_leading_finds(before.drop_first(), core, set);
    }
}

/// Trailing characters out of a set are dropped, and nothing else.
pub proof fn drop_trailing_finds(core: Seq<char>, after: Seq<char>, set: Seq<char>)
    requires
        forall|i: int| 0 <= i < after.len() ==> set.contains(#[trigger] after[i]),
        core.len() > 0 ==> !set.contains(core.last()),
    ensures
        drop_trailing(core + after, set) == core,
    decreases after.len(),
{
    if after.len() == 0 {
        assert(core + after =~= core);
    } else {
        assert((core + after).last() == after.last());
        assert((core + after).drop_last() =~= core + after.drop_last());
        drop_trailing_finds(core, after.drop_last(), set);
    }
}

/// The first word of a text ends at its first white space.
pub proof fn word_ends_at_space(word: Seq<char>, behind: Seq<char>)
    requires
        forall|i: int| 0 <= i < word.len() ==> !is_space(#[trigger] word[i]),
        behind.len() > 0 ==> is_space(behind[0]),
    ensures
        word_len(word + behind) == word.len(),
    decreases word.len(),
{
    if word.len() == 0 {
        assert(word + behind =~= behind);
    } else {
        assert((word + behind)[0] == word[0]);
        assert((word + behind).drop_first() =~= word.drop_first() + behind);
        word_ends_at_space(word.drop_first(), behind);
    }
}

/// The run of a character ends at the first other one.
pub proof fn run_ends_at_another(c: char, n: nat, behind: Seq<char>)
    requires
        behind.len() > 0 ==> behind[0] != c,
    ensures
        run_len(repeat(c, n) + behind, c) == n,
    decreases n,
{
    let s = repeat(c, n) + behind;
    if n == 0 {
        assert(s =~= behind);
    } else {
        assert(s.drop_first() =~= repeat(c, (n - 1) as nat) + behind);
        run_ends_at_another(c, (n - 1) as nat, behind);
    }
}

/// Two texts are the same but for the case of ASCII letters exactly if they are as
/// long, and where they differ one has the capital of the other's letter.
pub proof fn case_is_all_that_differs(a: Seq<char>, b: Seq<char>)
    ensures
        same_ignoring_ascii_case(a, b) == (a.len() == b.len() && forall|i: int|
            0 <= i < a.len() ==> {
                let x = #[trigger] a[i] as int;
                let y = b[i] as int;
                ||| x == y
                ||| 'A' as int <= x <= 'Z' as int && y == x + 32
                ||| 'A' as int <= y <= 'Z' as int && x == y + 32
            }),
        same_ignoring_ascii_case(a, b) == same_ignoring_ascii_case(b, a),
        all_ascii(a) && all_ascii(b) ==> (same_ignoring_ascii_case(a, b) == (lowercase(a)
            == lowercase(b))),
{
    if all_ascii(a) && all_ascii(b) {
        let low_a = lowercase(a);
        let low_b = lowercase(b);
        assert(low_a.len() == a.len() && low_b.len() == b.len());
        assert(forall|i: int| 0 <= i < a.len() ==> #[trigger] low_a[i] == ascii_lower(a[i]));
        assert(forall|i: int| 0 <= i < b.len() ==> #[trigger] low_b[i] == ascii_lower(b[i]));
        if same_ignoring_ascii_case(a, b) {
            assert(low_a =~= low_b);
        } else if low_a == low_b {
            assert forall|i: int| 0 <= i < a.len() implies ascii_lower(#[trigger] a[i])
                == ascii_lower(b[i]) by {
                assert(low_a[i] == low_b[i]);
            }
        }
    }
}

/// Whether the given texts stand in `s` one behind the other, in this order.
#[verifier::opaque]
pub open spec fn shows(s: Seq<char>, parts: Seq<Seq<char>>) -> bool
    decreases parts.len(),
{
    parts.len() == 0 || exists|k: int|
        #[trigger] matches_at(s, parts[0], k) && shows(
            s.skip(k + parts[0].len()),
            parts.drop_first(),
        )
}

/// What stands behind a text is shown behind it.
pub proof fn shows_behind(a: Seq<char>, x: Seq<char>, rest: Seq<char>, parts: Seq<Seq<char>>)
    requires
        shows(rest, parts),
    ensures
        shows(a + x + rest, seq![x] + parts),
{
    reveal_with_fuel(shows, 2);
    let s = a + x + rest;
    let all = seq![x] + parts;
    let k = a.len() as int;
    assert(s.subrange(k, k + x.len()) =~= x);
    assert(matches_at(s, all[0], k));
    assert(s.skip(k + x.len()) =~= rest);
    assert(all.drop_first() =~= parts);
}

/// Parts that hold no separator are read back from the text that they are joined to.
pub proof fn split_finds_all(parts: Seq<Seq<char>>, c: char)
    requires
        parts.len() > 0,
        forall|i: int| 0 <= i < parts.len() ==> !(#[trigger] parts[i]).contains(c),
    ensures
        split(join(parts, seq![c]), c) == parts,
    decreases parts.len(),
{
    let s = join(parts, seq![c]);
    let first = parts[0];
    assert(!first.contains(c));
    assert forall|k: int| 0 <= k < first.len() implies first[k] != c by {
        assert(first.contains(first[k]));
    }
    if parts.len() == 1 {
        lemma_until_len_unique(s, c, first.len() as int);
        assert(split(s, c) =~= parts);
    } else {
        let rest = parts.drop_first();
        join_of_all(seq![first], rest, seq![c]);
        assert(seq![first] + rest =~= parts);
        assert(s =~= first + seq![c] + join(rest, seq![c]));
        assert forall|k: int| 0 <= k < first.len() implies s[k] != c by {
            assert(s[k] == first[k]);
        }
        lemma_until_len_unique(s, c, first.len() as int);
        assert(s.take(first.len() as int) =~= first);
        assert(s.skip(first.len() as int + 1) =~= join(rest, seq![c]));
        assert forall|i: int| 0 <= i < rest.len() implies !(#[trigger] rest[i]).contains(c) by {
            assert(rest[i] == parts[i + 1]);
        }
        split_finds_all(rest, c);
        assert(split(s, c) =~= parts);
    }
}

/// What a prefix is taken off is what stands behind it, and what a suffix is taken off is
/// what stands before it. A text that does not start or end so has none.
pub proof fn ends_are_taken_off(a: Seq<char>, b: Seq<char>, s: Seq<char>, pat: Seq<char>)
    ensures
        strip_prefix(a + b, a) == Some(b),
        strip_suffix(a + b, b) == Some(a),
        starts_with(a + b, a) && ends_with(a + b, b),
        strip_prefix(s, pat) matches Some(rest) ==> s == pat + rest,
        strip_suffix(s, pat) matches Some(rest) ==> s == rest + pat,
        starts_with(s, pat) == strip_prefix(s, pat) is Some,
        ends_with(s, pat) == strip_suffix(s, pat) is Some,
{
    let n = a.len() as int;
    assert((a + b).subrange(0, n) =~= a);
    assert((a + b).subrange(n, n + b.len()) =~= b);
    assert((a + b).skip(n) =~= b);
    assert((a + b).take(n) =~= a);
    if let Some(rest) = strip_prefix(s, pat) {
        assert(s =~= s.subrange(0, pat.len() as int) + rest);
    }
    if let Some(rest) = strip_suffix(s, pat) {
        assert(s =~= rest + s.subrange(s.len() - pat.len(), s.len() as int));
    }
}

/// Filling up a text adds spaces behind it, as many as it is short of the width.
pub proof fn filling_adds_spaces(s: Seq<char>, width: nat)
    ensures
        filled(s, width).len() == if s.len() < width {
            width
        } else {
            s.len()
        },
        filled(s, width).take(s.len() as int) == s,
        forall|i: int| s.len() <= i < filled(s, width).len() ==> #[trigger] filled(s, width)[i]
            == ' ',
{
    assert(filled(s, width).take(s.len() as int) =~= s);
}

/// Replacing a character replaces it everywhere, and nothing else.
pub proof fn one_character_is_replaced(s: Seq<char>, from: char, to: char)
    ensures
        replaced(s, from, to).len() == s.len(),
        forall|i: int|
            0 <= i < s.len() ==> {
                &&& s[i] == from ==> #[trigger] replaced(s, from, to)[i] == to
                &&& s[i] != from ==> replaced(s, from, to)[i] == s[i]
            },
{
}

/// The first character in which two texts differ decides their order. A text comes before
/// what goes on behind it.
pub proof fn first_difference_decides(start: Seq<char>, a: Seq<char>, b: Seq<char>)
    requires
        b.len() > 0,
        a.len() > 0 ==> a[0] != b[0],
    ensures
        text_lt(start + a, start + b) == (a.len() == 0 || (a[0] as int) < (b[0] as int)),
        text_lt(start + b, start + a) == (a.len() > 0 && (b[0] as int) < (a[0] as int)),
    decreases start.len(),
{
    if start.len() == 0 {
        assert(start + a =~= a);
        assert(start + b =~= b);
    } else {
        assert((start + a).drop_first() =~= start.drop_first() + a);
        assert((start + b).drop_first() =~= start.drop_first() + b);
        assert((start + a)[0] == (start + b)[0]);
        first_difference_decides(start.drop_first(), a, b);
    }
}

} // verus!
