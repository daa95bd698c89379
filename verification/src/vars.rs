//! `{{variable}}` substitution with documented compatibility precedence and the
//! built-in dynamic variables.

use vstd::prelude::*;
use vstd::string::StrSliceExecFns;
use vstd::string::StringExecFns;
use crate::binary64::Double;
use crate::binary64::Signed;
use crate::binary64::exact_numbers_are_kept;
use crate::binary64::four_places;
use crate::binary64::four_places_keep_order;
use crate::binary64::from_integer;
use crate::binary64::integer;
use crate::binary64::multiple;
use crate::binary64::multiply;
use crate::binary64::one;
use crate::binary64::product;
use crate::binary64::quotient;
use crate::binary64::quotient_of;
use crate::binary64::rounded;
use crate::binary64::rounding_keeps_order;
use crate::binary64::sum;
use crate::binary64::units_shown;
use crate::calendar::iso8601;
use crate::calendar::iso_text;
use crate::decimal::decimal;
use crate::decimal::decimal_of;
use crate::decimal::decimal_reads_back;
use crate::decimal::read_i64;
use crate::decimal::read_signed;
use crate::decimal::read_unsigned;
use crate::decimal::read_usize;
use crate::decimal::signed_decimal;
use crate::decimal::signed_decimal_of;
use crate::decimal::signed_decimal_reads_back;
use crate::json::Json;
use crate::json::JsonValue;
use crate::json::json_text;
use crate::json::jsons;
use crate::json::lemma_json_of;
use crate::json::print_json;
use crate::map::TextMap;
use crate::map::lookup;
use crate::rng::Rng;
use crate::rng::draw;
use crate::rng::drawn;
use crate::rng::drawn_text_is_of_its_alphabet;
use crate::rng::email_has_its_form;
use crate::rng::email_of;
use crate::rng::hex_digits;
use crate::rng::letters;
use crate::rng::next_state;
use crate::rng::seconds_shown;
use crate::rng::state_behind;
use crate::rng::unix_timestamp;
use crate::rng::uuid_text;
use crate::rng::word_characters;
use crate::text::after_prefix;
use crate::text::chars_of;
use crate::text::concat3;
use crate::text::concat;
use crate::text::contains;
use crate::text::drop_leading;
use crate::text::drop_leading_finds;
use crate::text::drop_leading_of;
use crate::text::drop_trailing;
use crate::text::drop_trailing_finds;
use crate::text::drop_trailing_of;
use crate::text::ends_are_taken_off;
use crate::text::find;
use crate::text::find_is_first;
use crate::text::has_prefix;
use crate::text::head_of;
use crate::text::includes;
use crate::text::is_digit;
use crate::text::is_lower;
use crate::text::is_trimmed;
use crate::text::join;
use crate::text::join_of_all;
use crate::text::lemma_find_range;
use crate::text::lemma_until_len;
use crate::text::matches_at;
use crate::text::owned;
use crate::text::position;
use crate::text::same;
use crate::text::split;
use crate::text::split_finds;
use crate::text::split_of;
use crate::text::split_once;
use crate::text::split_parts_rejoin;
use crate::text::starts_with;
use crate::text::strip_prefix;
use crate::text::tail_of;
use crate::text::text_of;
use crate::text::texts;
use crate::text::trim;
use crate::text::trim_finds;
use crate::text::trim_of;
use crate::text::trimmed_text_is_kept;
use crate::text::until_len;

verus! {

broadcast use lemma_json_of;

// ---------------------------------------------------------------------------
// Scopes and paths
// ---------------------------------------------------------------------------

/// Variable scopes for one substitution. Lookups follow the compatibility order:
/// environment > global > in-place (file) > per-request.
#[derive(Clone, Copy)]
pub struct VarContext<'a> {
    pub env: &'a TextMap<JsonValue>,
    pub global: &'a TextMap<JsonValue>,
    pub file: &'a TextMap<JsonValue>,
    pub request: &'a TextMap<JsonValue>,
    /// The variables of the process environment.
    pub system_env: &'a TextMap<String>,
}

/// The scopes of a substitution.
pub ghost struct Scopes {
    pub env: Seq<(Seq<char>, Json)>,
    pub global: Seq<(Seq<char>, Json)>,
    pub file: Seq<(Seq<char>, Json)>,
    pub request: Seq<(Seq<char>, Json)>,
    pub system_env: Seq<(Seq<char>, Seq<char>)>,
}

impl<'a> View for VarContext<'a> {
    type V = Scopes;

    open spec fn view(&self) -> Scopes {
        Scopes {
            env: self.env@,
            global: self.global@,
            file: self.file@,
            request: self.request@,
            system_env: self.system_env@,
        }
    }
}

/// A step of a path into a value.
pub enum PathSegment {
    Key(String),
    Index(usize),
}

/// A step of a path into a value.
pub ghost enum SegmentModel {
    Key(Seq<char>),
    Index(nat),
}

impl View for PathSegment {
    type V = SegmentModel;

    open spec fn view(&self) -> SegmentModel {
        match self {
            PathSegment::Key(key) => SegmentModel::Key(key@),
            PathSegment::Index(i) => SegmentModel::Index(*i as nat),
        }
    }
}

pub open spec fn segment_models(v: Seq<PathSegment>) -> Seq<SegmentModel> {
    Seq::new(v.len(), |i: int| v[i]@)
}

/// The segment that stands between brackets: an index, or a key that may be
/// quoted.
pub open spec fn bracket_segment(inner: Seq<char>) -> SegmentModel {
    match read_unsigned(inner, usize::MAX as nat) {
        Some(i) => SegmentModel::Index(i),
        None => SegmentModel::Key(
            trim(drop_trailing(drop_leading(inner, seq!['\'', '"']), seq!['\'', '"'])),
        ),
    }
}

/// The segments of a path from position `i` on, behind those already found. The
/// current segment starts at `start`.
pub open spec fn segments_from(
    path: Seq<char>,
    i: int,
    start: int,
    in_bracket: bool,
    found: Seq<SegmentModel>,
) -> Seq<SegmentModel>
    decreases path.len() - i,
{
    if i < 0 || i >= path.len() {
        if start < path.len() {
            found.push(SegmentModel::Key(path.skip(start)))
        } else {
            found
        }
    } else {
        let part = path.subrange(start, i);
        if path[i] == '.' && !in_bracket {
            segments_from(
                path,
                i + 1,
                i + 1,
                in_bracket,
                if i > start {
                    found.push(SegmentModel::Key(part))
                } else {
                    found
                },
            )
        } else if path[i] == '[' {
            segments_from(
                path,
                i + 1,
                i + 1,
                true,
                if i > start && !in_bracket {
                    found.push(SegmentModel::Key(part))
                } else {
                    found
                },
            )
        } else if path[i] == ']' {
            segments_from(path, i + 1, i + 1, false, found.push(bracket_segment(part)))
        } else {
            segments_from(path, i + 1, start, in_bracket, found)
        }
    }
}

/// The segments of a path such as `client.host.url`, `users[0].name` or
/// `client.['host.url']`.
pub open spec fn path_segments(path: Seq<char>) -> Seq<SegmentModel> {
    segments_from(path, 0, 0, false, Seq::empty())
}

/// The member of a value that a segment names.
pub open spec fn step_into(value: Json, segment: SegmentModel) -> Option<Json> {
    match (value, segment) {
        (Json::Object(entries), SegmentModel::Key(key)) => lookup(entries, key),
        (Json::Array(items), SegmentModel::Index(i)) => if i < items.len() {
            Some(items[i as int])
        } else {
            None
        },
        _ => None,
    }
}

/// What the segments from number `i` on lead to.
pub open spec fn follow(value: Json, segments: Seq<SegmentModel>, i: int) -> Option<Json>
    decreases segments.len() - i,
{
    if i < 0 || i >= segments.len() {
        Some(value)
    } else {
        match step_into(value, segments[i]) {
            Some(next) => follow(next, segments, i + 1),
            None => None,
        }
    }
}

/// What a path leads to in a scope. It starts with a key.
pub open spec fn path_value(scope: Seq<(Seq<char>, Json)>, path: Seq<char>) -> Option<Json> {
    let segments = path_segments(path);
    if segments.len() == 0 {
        None
    } else {
        match step_into(Json::Object(scope), segments[0]) {
            Some(value) => follow(value, segments, 1),
            None => None,
        }
    }
}

/// What a name stands for in a scope: the variable of that name, or what the
/// name leads to as a path.
pub open spec fn scope_value(scope: Seq<(Seq<char>, Json)>, name: Seq<char>) -> Option<Json> {
    match lookup(scope, name) {
        Some(value) => Some(value),
        None => if contains(name, "."@) || contains(name, "["@) {
            path_value(scope, name)
        } else {
            None
        },
    }
}

/// The text that a value is substituted as.
pub open spec fn value_text(v: Json) -> Seq<char> {
    match v {
        Json::Text(s) => s,
        Json::Null => "null"@,
        _ => json_text(v),
    }
}

/// What a name stands for: the first scope that knows it decides.
pub open spec fn variable_value(name: Seq<char>, c: Scopes) -> Option<Json> {
    if scope_value(c.env, name) is Some {
        scope_value(c.env, name)
    } else if scope_value(c.global, name) is Some {
        scope_value(c.global, name)
    } else if scope_value(c.file, name) is Some {
        scope_value(c.file, name)
    } else {
        scope_value(c.request, name)
    }
}

// ---------------------------------------------------------------------------
// Dynamic variables
// ---------------------------------------------------------------------------

/// What stands between the brackets of an argument list.
pub open spec fn arguments(args: Seq<char>) -> Seq<char> {
    drop_trailing(drop_leading(trim(args), seq!['(']), seq![')'])
}

pub open spec fn integer_or(text: Seq<char>, default: int) -> int {
    match read_signed(text) {
        Some(n) => n,
        None => default,
    }
}

/// The two ends of a range such as `(10, 20)`. What is missing or no integer is
/// replaced by its default.
pub open spec fn int_args(args: Seq<char>, lo: int, hi: int) -> (int, int) {
    let parts = split(arguments(args), ',');
    (
        integer_or(trim(parts[0]), lo),
        if parts.len() > 1 {
            integer_or(trim(parts[1]), hi)
        } else {
            hi
        },
    )
}

/// A length such as `(8)`.
pub open spec fn len_arg(args: Seq<char>) -> Result<nat, Seq<char>> {
    match read_unsigned(arguments(args), usize::MAX as nat) {
        Some(n) => if n == 0 {
            Err("length must be greater than 0"@)
        } else {
            Ok(n)
        },
        None => Err("invalid length argument: "@ + arguments(args)),
    }
}

/// The integer `n` in double precision.
pub open spec fn double_of(n: int) -> Signed {
    if n < 0 {
        Signed { negative: true, size: from_integer((-n) as nat) }
    } else {
        Signed { negative: false, size: from_integer(n as nat) }
    }
}

/// The number between `lo` and `hi` that the draw `x` stands for, as double
/// precision has it.
pub open spec fn between(lo: int, hi: int, x: u64) -> Signed {
    let part = quotient(from_integer(x as nat), from_integer(u64::MAX as nat));
    let span = double_of(hi - lo);
    sum(
        double_of(lo),
        Signed { negative: span.negative, size: product(part, span.size) },
    )
}

/// The text and the generator's state behind a random text of the length that
/// `args` gives.
pub open spec fn random_text(args: Seq<char>, alphabet: Seq<char>, rng: u64) -> (
    Result<Seq<char>, Seq<char>>,
    u64,
) {
    match len_arg(args) {
        Ok(n) => (Ok(drawn(rng, alphabet, n).1), drawn(rng, alphabet, n).0),
        Err(error) => (Err(error), rng),
    }
}

pub open spec fn random_integer(lo: int, hi: int, rng: u64) -> (
    Result<Seq<char>, Seq<char>>,
    u64,
) {
    if lo < hi {
        (Ok(signed_decimal(lo + draw(rng) as int % (hi - lo))), next_state(rng))
    } else {
        (Err("empty random range"@), rng)
    }
}

pub open spec fn environment_value(name: Seq<char>, c: Scopes) -> Result<Seq<char>, Seq<char>> {
    match lookup(c.system_env, name) {
        Some(value) => Ok(value),
        None => Err("unresolved environment variable: "@ + name),
    }
}

/// What a dynamic variable stands for at the time `now`, and the generator's
/// state behind it.
pub open spec fn dynamic_value(name: Seq<char>, c: Scopes, rng: u64, now: u64) -> (
    Result<Seq<char>, Seq<char>>,
    u64,
) {
    if name == "$uuid"@ || name == "$random.uuid"@ {
        (
            Ok(uuid_text(draw(rng), draw(next_state(rng)), 16)),
            next_state(next_state(rng)),
        )
    } else if name == "$timestamp"@ {
        (Ok(decimal(now as nat)), rng)
    } else if name == "$isoTimestamp"@ {
        (Ok(iso_text((now as i64) as int)), rng)
    } else if name == "$randomInt"@ {
        random_integer(0, 1000, rng)
    } else if name == "$random.email"@ {
        (Ok(email_of(rng).1), email_of(rng).0)
    } else if let Some(var) = strip_prefix(name, "$env."@) {
        (environment_value(var, c), rng)
    } else if let Some(var) = strip_prefix(name, "$processEnv."@) {
        (environment_value(var, c), rng)
    } else if let Some(args) = strip_prefix(name, "$random.integer"@) {
        random_integer(int_args(args, 0, 1000).0, int_args(args, 0, 1000).1, rng)
    } else if let Some(args) = strip_prefix(name, "$random.float"@) {
        let (lo, hi) = int_args(args, 0, 1000);
        (Ok(four_places(between(lo, hi, draw(rng)))), next_state(rng))
    } else if let Some(args) = strip_prefix(name, "$random.alphabetic"@) {
        random_text(args, letters(), rng)
    } else if let Some(args) = strip_prefix(name, "$random.alphanumeric"@) {
        random_text(args, word_characters(), rng)
    } else if let Some(args) = strip_prefix(name, "$random.hexadecimal"@) {
        random_text(args, hex_digits(), rng)
    } else {
        (Err("unknown dynamic variable: {{"@ + name + "}}"@), rng)
    }
}

// ---------------------------------------------------------------------------
// Substitution
// ---------------------------------------------------------------------------

/// What the name in a placeholder stands for, and the generator's state behind
/// it.
pub open spec fn resolved(name: Seq<char>, c: Scopes, rng: u64, now: u64) -> (
    Result<Seq<char>, Seq<char>>,
    u64,
) {
    if starts_with(name, "$"@) {
        dynamic_value(name, c, rng, now)
    } else {
        match variable_value(name, c) {
            Some(value) => (Ok(value_text(value)), rng),
            None => (Err("unresolved variable: {{"@ + name + "}}"@), rng),
        }
    }
}

/// The first placeholder in `s`: the text before it, its name, and the text
/// behind it.
pub open spec fn placeholder(s: Seq<char>) -> Option<(Seq<char>, Seq<char>, Seq<char>)> {
    match find(s, "{{"@) {
        Some(start) => {
            let after = s.skip(start + 2);
            match find(after, "}}"@) {
                Some(end) => Some((s.take(start), trim(after.take(end)), after.skip(end + 2))),
                None => None,
            }
        },
        None => None,
    }
}

/// What is behind a placeholder is shorter than the text.
pub proof fn lemma_placeholder(s: Seq<char>)
    ensures
        placeholder(s) matches Some((_, _, rest)) ==> rest.len() < s.len(),
{
    reveal_strlit("{{");
    reveal_strlit("}}");
    lemma_find_range(s, "{{"@, 0);
    if let Some(start) = find(s, "{{"@) {
        lemma_find_range(s.skip(start + 2), "}}"@, 0);
    }
}

/// `done` followed by `rest` with its placeholders resolved, and the generator's
/// state behind that.
pub open spec fn substituted_from(
    rest: Seq<char>,
    done: Seq<char>,
    c: Scopes,
    rng: u64,
    now: u64,
) -> (Result<Seq<char>, Seq<char>>, u64)
    decreases rest.len(),
{
    match placeholder(rest) {
        Some((before, name, behind)) => {
            proof {
                lemma_placeholder(rest);
            }
            match resolved(name, c, rng, now) {
                (Ok(text), next) => substituted_from(behind, done + before + text, c, next, now),
                (Err(error), next) => (Err(error), next),
            }
        },
        None => (Ok(done + rest), rng),
    }
}

/// `input` with the placeholders in it resolved once.
pub open spec fn substituted_once(input: Seq<char>, c: Scopes, rng: u64, now: u64) -> (
    Result<Seq<char>, Seq<char>>,
    u64,
) {
    substituted_from(input, Seq::empty(), c, rng, now)
}

/// `input` with its placeholders resolved up to `rounds` times, until nothing
/// changes.
pub open spec fn substituted(
    input: Seq<char>,
    c: Scopes,
    rng: u64,
    now: u64,
    rounds: nat,
) -> (Result<Seq<char>, Seq<char>>, u64)
    decreases rounds,
{
    if rounds == 0 {
        (Ok(input), rng)
    } else {
        match substituted_once(input, c, rng, now) {
            (Ok(next), state) => if next == input {
                (Ok(input), state)
            } else {
                substituted(next, c, state, now, (rounds - 1) as nat)
            },
            (Err(error), state) => (Err(error), state),
        }
    }
}

pub open spec fn text_result(r: Result<String, String>) -> Result<Seq<char>, Seq<char>> {
    match r {
        Ok(s) => Ok(s@),
        Err(e) => Err(e@),
    }
}

// ---------------------------------------------------------------------------
// Scopes and paths, read
// ---------------------------------------------------------------------------

/// The text that a value is substituted as.
pub fn value_to_string(value: &JsonValue) -> (r: String)
    ensures
        r@ == value_text(value.json()),
{
    match value {
        JsonValue::String(s) => s.clone(),
        JsonValue::Null => owned("null"),
        _ => print_json(value),
    }
}

fn read_bracket(inner: &str) -> (r: PathSegment)
    ensures
        r@ == bracket_segment(inner@),
{
    match read_usize(inner) {
        Some(i) => PathSegment::Index(i),
        None => {
            assert(['\'', '"']@ =~= seq!['\'', '"']);
            let bare = drop_trailing_of(drop_leading_of(inner, &['\'', '"']), &['\'', '"']);
            PathSegment::Key(owned(trim_of(bare)))
        },
    }
}

/// The segments of a path.
pub fn parse_path_segments(path: &str) -> (r: Vec<PathSegment>)
    ensures
        segment_models(r@) == path_segments(path@),
{
    let cs = chars_of(path);
    let total: usize = cs.len();
    let mut found: Vec<PathSegment> = Vec::new();
    let mut start: usize = 0;
    let mut in_bracket = false;
    let mut i: usize = 0;
    assert(segment_models(found@) =~= Seq::empty());
    while i < total
        invariant
            cs@ == path@,
            total == cs@.len(),
            start <= i <= total,
            segments_from(path@, i as int, start as int, in_bracket, segment_models(found@))
                == path_segments(path@),
        decreases total - i,
    {
        let ghost before = segment_models(found@);
        let ghost part = path@.subrange(start as int, i as int);
        if cs[i] == '.' && !in_bracket {
            if i > start {
                found.push(PathSegment::Key(text_of(&cs, start, i)));
                assert(segment_models(found@) =~= before.push(SegmentModel::Key(part)));
            }
            start = i + 1;
        } else if cs[i] == '[' {
            if i > start && !in_bracket {
                found.push(PathSegment::Key(text_of(&cs, start, i)));
                assert(segment_models(found@) =~= before.push(SegmentModel::Key(part)));
            }
            in_bracket = true;
            start = i + 1;
        } else if cs[i] == ']' {
            let inner = text_of(&cs, start, i);
            found.push(read_bracket(inner.as_str()));
            assert(segment_models(found@) =~= before.push(bracket_segment(part)));
            in_bracket = false;
            start = i + 1;
        }
        i = i + 1;
    }
    if start < total {
        let ghost before = segment_models(found@);
        found.push(PathSegment::Key(owned(tail_of(path, start))));
        assert(segment_models(found@) =~= before.push(SegmentModel::Key(path@.skip(start as int))));
    }
    found
}

fn step_to<'a>(value: &'a JsonValue, segment: &PathSegment) -> (r: Option<&'a JsonValue>)
    ensures
        r matches Some(v) ==> step_into(value.json(), segment@) == Some(v.json()),
        r is None ==> step_into(value.json(), segment@) is None,
{
    match (value, segment) {
        (JsonValue::Object(map), PathSegment::Key(key)) => map.get(key.as_str()),
        (JsonValue::Array(items), PathSegment::Index(i)) => if *i < items.len() {
            assert(jsons(items@)[*i as int] == items@[*i as int].json());
            Some(&items[*i])
        } else {
            None
        },
        _ => None,
    }
}

/// Resolves a dotted (and bracketed) path such as `client.host.url`,
/// `users[0].name` or `client.['host.url']` inside a variable scope.
pub fn resolve_path<'a>(scope: &'a TextMap<JsonValue>, path: &str) -> (r: Option<&'a JsonValue>)
    ensures
        r matches Some(v) ==> path_value(scope@, path@) == Some(v.json()),
        r is None ==> path_value(scope@, path@) is None,
{
    let segments = parse_path_segments(path);
    let ghost all = segment_models(segments@);
    if segments.len() == 0 {
        return None;
    }
    assert(all[0] == segments@[0]@);
    let first = match &segments[0] {
        PathSegment::Key(key) => scope.get(key.as_str()),
        PathSegment::Index(_) => None,
    };
    let mut current: &'a JsonValue = match first {
        Some(value) => value,
        None => {
            return None;
        },
    };
    let mut i: usize = 1;
    while i < segments.len()
        invariant
            all == segment_models(segments@),
            1 <= i <= segments@.len(),
            follow(current.json(), all, i as int) == path_value(scope@, path@),
        decreases segments@.len() - i,
    {
        assert(all[i as int] == segments@[i as int]@);
        match step_to(current, &segments[i]) {
            Some(next) => {
                current = next;
            },
            None => {
                return None;
            },
        }
        i = i + 1;
    }
    Some(current)
}

fn resolve_in<'a>(scope: &'a TextMap<JsonValue>, name: &str) -> (r: Option<&'a JsonValue>)
    ensures
        r matches Some(v) ==> scope_value(scope@, name@) == Some(v.json()),
        r is None ==> scope_value(scope@, name@) is None,
{
    match scope.get(name) {
        Some(value) => Some(value),
        None => if includes(name, ".") || includes(name, "[") {
            resolve_path(scope, name)
        } else {
            None
        },
    }
}

// ---------------------------------------------------------------------------
// Dynamic variables, computed
// ---------------------------------------------------------------------------

fn read_arguments<'a>(args: &'a str) -> (r: &'a str)
    ensures
        r@ == arguments(args@),
{
    assert(['(']@ =~= seq!['(']);
    assert([')']@ =~= seq![')']);
    drop_trailing_of(drop_leading_of(trim_of(args), &['(']), &[')'])
}

fn read_integer_or(text: &str, default: i64) -> (r: i64)
    ensures
        r == integer_or(text@, default as int),
{
    match read_i64(text) {
        Some(n) => n,
        None => default,
    }
}

/// The two ends of a range such as `(10, 20)`.
pub fn parse_int_args(args: &str, default_lo: i64, default_hi: i64) -> (r: (i64, i64))
    ensures
        (r.0 as int, r.1 as int) == int_args(args@, default_lo as int, default_hi as int),
{
    let parts = split_of(read_arguments(args), ',');
    let ghost all = texts(parts@);
    assert(all[0] == parts@[0]@);
    let lo: i64 = read_integer_or(trim_of(parts[0].as_str()), default_lo);
    let hi: i64 = if parts.len() > 1 {
        assert(all[1] == parts@[1]@);
        read_integer_or(trim_of(parts[1].as_str()), default_hi)
    } else {
        default_hi
    };
    (lo, hi)
}

pub open spec fn len_result(r: Result<usize, String>) -> Result<nat, Seq<char>> {
    match r {
        Ok(n) => Ok(n as nat),
        Err(e) => Err(e@),
    }
}

/// A length such as `(8)`.
pub fn parse_len_arg(args: &str) -> (r: Result<usize, String>)
    ensures
        len_result(r) == len_arg(args@),
{
    let args = read_arguments(args);
    match read_usize(args) {
        Some(n) => if n == 0 {
            Err(owned("length must be greater than 0"))
        } else {
            Ok(n)
        },
        None => Err(concat("invalid length argument: ", args)),
    }
}

fn double(n: i128) -> (r: Double)
    requires
        -0xffff_ffff_ffff_ffff <= n <= 0xffff_ffff_ffff_ffff,
    ensures
        r@ == double_of(n as int),
{
    if n < 0 {
        Double { negative: true, size: integer((-n) as u64) }
    } else {
        Double { negative: false, size: integer(n as u64) }
    }
}

proof fn lemma_double_is_positive(n: nat)
    requires
        n > 0,
    ensures
        from_integer(n) > 0,
{
    vstd::arithmetic::power2::lemma_pow2_pos(1074);
    let one = crate::binary64::one();
    assert(n * one >= 1) by (nonlinear_arith)
        requires
            n >= 1,
            one >= 1,
    ;
    lemma_rounded_is_positive(n * one, 1);
}

proof fn lemma_rounded_is_positive(n: nat, d: nat)
    requires
        n >= d > 0,
    ensures
        crate::binary64::rounded(n, d) > 0,
    decreases n - d,
{
    if n < d * 0x20_0000_0000_0000 {
        vstd::arithmetic::div_mod::lemma_div_is_ordered(d as int, n as int, d as int);
        vstd::arithmetic::div_mod::lemma_div_by_self(d as int);
    } else {
        lemma_rounded_is_positive(n, 2 * d);
    }
}

/// The number between `lo` and `hi` that the draw `x` stands for, with four
/// places behind the point.
pub fn random_float(lo: i64, hi: i64, x: u64) -> (r: String)
    ensures
        r@ == four_places(between(lo as int, hi as int, x)),
{
    proof {
        lemma_double_is_positive(u64::MAX as nat);
    }
    let part = quotient_of(&integer(x), &integer(u64::MAX));
    let span = double(hi as i128 - lo as i128);
    let offset = Double { negative: span.negative, size: multiply(&part, &span.size) };
    double(lo as i128).plus(&offset).to_four_places()
}

fn environment(name: &str, ctx: &VarContext) -> (r: Result<String, String>)
    ensures
        text_result(r) == environment_value(name@, ctx@),
{
    match ctx.system_env.get(name) {
        Some(value) => Ok(value.clone()),
        None => Err(concat("unresolved environment variable: ", name)),
    }
}

fn integer_between(lo: i64, hi: i64, rng: &mut Rng) -> (r: Result<String, String>)
    ensures
        (text_result(r), final(rng)@) == random_integer(lo as int, hi as int, old(rng)@),
{
    if lo < hi {
        Ok(signed_decimal_of(rng.int_range(lo, hi)))
    } else {
        Err(owned("empty random range"))
    }
}

/// Resolves a dynamic variable at the time `now`. An empty range is an error.
pub fn resolve_dynamic(name: &str, ctx: &VarContext, rng: &mut Rng, now: u64) -> (r: Result<
    String,
    String,
>)
    ensures
        (text_result(r), final(rng)@) == dynamic_value(name@, ctx@, old(rng)@, now),
{
    if same(name, "$uuid") || same(name, "$random.uuid") {
        Ok(rng.uuid_v4())
    } else if same(name, "$timestamp") {
        Ok(decimal_of(now))
    } else if same(name, "$isoTimestamp") {
        Ok(iso8601(now as i64))
    } else if same(name, "$randomInt") {
        integer_between(0, 1000, rng)
    } else if same(name, "$random.email") {
        Ok(rng.email())
    } else if let Some(var) = after_prefix(name, "$env.") {
        environment(var, ctx)
    } else if let Some(var) = after_prefix(name, "$processEnv.") {
        environment(var, ctx)
    } else if let Some(args) = after_prefix(name, "$random.integer") {
        let (lo, hi) = parse_int_args(args, 0, 1000);
        integer_between(lo, hi, rng)
    } else if let Some(args) = after_prefix(name, "$random.float") {
        let (lo, hi) = parse_int_args(args, 0, 1000);
        let x: u64 = rng.next_u64();
        Ok(random_float(lo, hi, x))
    } else if let Some(args) = after_prefix(name, "$random.alphabetic") {
        match parse_len_arg(args) {
            Ok(n) => Ok(rng.alphabetic(n)),
            Err(error) => Err(error),
        }
    } else if let Some(args) = after_prefix(name, "$random.alphanumeric") {
        match parse_len_arg(args) {
            Ok(n) => Ok(rng.alphanumeric(n)),
            Err(error) => Err(error),
        }
    } else if let Some(args) = after_prefix(name, "$random.hexadecimal") {
        match parse_len_arg(args) {
            Ok(n) => Ok(rng.hexadecimal(n)),
            Err(error) => Err(error),
        }
    } else {
        Err(concat3("unknown dynamic variable: {{", name, "}}"))
    }
}

// ---------------------------------------------------------------------------
// Substitution, performed
// ---------------------------------------------------------------------------

/// Resolves the name in a placeholder at the time `now`.
pub fn resolve(name: &str, ctx: &VarContext, rng: &mut Rng, now: u64) -> (r: Result<
    String,
    String,
>)
    ensures
        (text_result(r), final(rng)@) == resolved(name@, ctx@, old(rng)@, now),
{
    if has_prefix(name, "$") {
        return resolve_dynamic(name, ctx, rng, now);
    }
    if let Some(value) = resolve_in(ctx.env, name) {
        return Ok(value_to_string(value));
    }
    if let Some(value) = resolve_in(ctx.global, name) {
        return Ok(value_to_string(value));
    }
    if let Some(value) = resolve_in(ctx.file, name) {
        return Ok(value_to_string(value));
    }
    if let Some(value) = resolve_in(ctx.request, name) {
        return Ok(value_to_string(value));
    }
    Err(concat3("unresolved variable: {{", name, "}}"))
}

fn next_placeholder<'a>(s: &'a str) -> (r: Option<(&'a str, &'a str, &'a str)>)
    ensures
        r matches Some(p) ==> placeholder(s@) == Some((p.0@, p.1@, p.2@)),
        r is None ==> placeholder(s@) is None,
{
    proof {
        reveal_strlit("{{");
        reveal_strlit("}}");
    }
    match position(s, "{{") {
        None => None,
        Some(start) => {
            let total: usize = s.unicode_len();
            let after = tail_of(s, start + 2);
            match position(after, "}}") {
                None => None,
                Some(end) => {
                    let left: usize = after.unicode_len();
                    Some((head_of(s, start), trim_of(head_of(after, end)), tail_of(after, end + 2)))
                },
            }
        },
    }
}

/// Resolves the placeholders in `input` once, at the time `now`.
pub fn substitute_once(input: &str, ctx: &VarContext, rng: &mut Rng, now: u64) -> (r: Result<
    String,
    String,
>)
    ensures
        (text_result(r), final(rng)@) == substituted_once(input@, ctx@, old(rng)@, now),
{
    let mut done = String::new();
    let mut rest = input;
    loop
        invariant
            substituted_from(rest@, done@, ctx@, rng@, now) == substituted_once(
                input@,
                ctx@,
                old(rng)@,
                now,
            ),
        decreases rest@.len(),
    {
        proof {
            lemma_placeholder(rest@);
        }
        match next_placeholder(rest) {
            None => {
                done.append(rest);
                return Ok(done);
            },
            Some((before, name, behind)) => {
                done.append(before);
                match resolve(name, ctx, rng, now) {
                    Ok(text) => {
                        done.append(text.as_str());
                    },
                    Err(error) => {
                        return Err(error);
                    },
                }
                rest = behind;
            },
        }
    }
}

/// Substitutes all `{{...}}` placeholders at the time `now`, in seconds since
/// 1970.
pub fn substitute_at(input: &str, ctx: &VarContext, rng: &mut Rng, now: u64) -> (r: Result<
    String,
    String,
>)
    ensures
        (text_result(r), final(rng)@) == substituted(input@, ctx@, old(rng)@, now, 10),
{
    let mut current = owned(input);
    let mut rounds: u32 = 10;
    while rounds > 0
        invariant
            substituted(current@, ctx@, rng@, now, rounds as nat) == substituted(
                input@,
                ctx@,
                old(rng)@,
                now,
                10,
            ),
        decreases rounds,
    {
        match substitute_once(current.as_str(), ctx, rng, now) {
            Ok(next) => {
                if same(next.as_str(), current.as_str()) {
                    return Ok(current);
                }
                current = next;
            },
            Err(error) => {
                return Err(error);
            },
        }
        rounds = rounds - 1;
    }
    Ok(current)
}

/// Substitutes all `{{...}}` placeholders. Substituted values may themselves
/// contain placeholders, which are resolved iteratively (bounded depth). The
/// clock is read once.
pub fn substitute(input: &str, ctx: &VarContext, rng: &mut Rng) -> (r: Result<String, String>)
    ensures
        exists|t: std::time::SystemTime|
            (text_result(r), final(rng)@) == substituted(
                input@,
                ctx@,
                old(rng)@,
                #[trigger] seconds_shown(t) as u64,
                10,
            ),
{
    let now: u64 = unix_timestamp();
    substitute_at(input, ctx, rng, now)
}

// ---------------------------------------------------------------------------
// What holds of every substitution
// ---------------------------------------------------------------------------

/// A variable is taken from the first scope that knows it, in the order
/// environment, global, in-place, per-request.
pub proof fn scopes_have_priority(name: Seq<char>, c: Scopes)
    ensures
        scope_value(c.env, name) is Some ==> variable_value(name, c) == scope_value(c.env, name),
        scope_value(c.env, name) is None && scope_value(c.global, name) is Some ==> variable_value(
            name,
            c,
        ) == scope_value(c.global, name),
        scope_value(c.env, name) is None && scope_value(c.global, name) is None && scope_value(
            c.file,
            name,
        ) is Some ==> variable_value(name, c) == scope_value(c.file, name),
        scope_value(c.env, name) is None && scope_value(c.global, name) is None && scope_value(
            c.file,
            name,
        ) is None ==> variable_value(name, c) == scope_value(c.request, name),
        lookup(c.env, name) is Some ==> variable_value(name, c) == lookup(c.env, name),
{
}

/// A text without a complete placeholder stays as it is, and nothing is drawn.
pub proof fn text_without_placeholder_is_kept(
    input: Seq<char>,
    c: Scopes,
    rng: u64,
    now: u64,
    rounds: nat,
)
    requires
        placeholder(input) is None,
    ensures
        substituted(input, c, rng, now, rounds) == (Ok::<Seq<char>, Seq<char>>(input), rng),
{
    assert(Seq::<char>::empty() + input =~= input);
}

/// A text without `{{` has no placeholder.
pub proof fn no_braces_no_placeholder(input: Seq<char>)
    requires
        !contains(input, "{{"@),
    ensures
        placeholder(input) is None,
{
}

/// The placeholder of a variable is replaced by its value, and the text around
/// it is kept.
pub proof fn placeholder_is_replaced(
    input: Seq<char>,
    before: Seq<char>,
    name: Seq<char>,
    behind: Seq<char>,
    c: Scopes,
    rng: u64,
    now: u64,
    rounds: nat,
)
    requires
        rounds >= 2,
        placeholder(input) == Some((before, name, behind)),
        !starts_with(name, "$"@),
        variable_value(name, c) is Some,
        placeholder(behind) is None,
        placeholder(before + value_text(variable_value(name, c)->0) + behind) is None,
    ensures
        substituted(input, c, rng, now, rounds) == (
            Ok::<Seq<char>, Seq<char>>(
                before + value_text(variable_value(name, c)->0) + behind,
            ),
            rng,
        ),
{
    let text = value_text(variable_value(name, c)->0);
    let result = before + text + behind;
    lemma_placeholder(input);
    assert(Seq::<char>::empty() + before + text =~= before + text);
    assert(substituted_from(behind, before + text, c, rng, now) == (
        Ok::<Seq<char>, Seq<char>>(result),
        rng,
    ));
    assert(substituted_once(input, c, rng, now) == (Ok::<Seq<char>, Seq<char>>(result), rng));
    text_without_placeholder_is_kept(result, c, rng, now, (rounds - 1) as nat);
}

/// A placeholder with an unknown name is an error that names it.
pub proof fn unknown_variable_is_an_error(
    input: Seq<char>,
    before: Seq<char>,
    name: Seq<char>,
    behind: Seq<char>,
    c: Scopes,
    rng: u64,
    now: u64,
    rounds: nat,
)
    requires
        rounds >= 1,
        placeholder(input) == Some((before, name, behind)),
        !starts_with(name, "$"@),
        variable_value(name, c) is None,
    ensures
        substituted(input, c, rng, now, rounds) == (
            Err::<Seq<char>, Seq<char>>("unresolved variable: {{"@ + name + "}}"@),
            rng,
        ),
{
}

/// Where two rounds give the same text, further rounds change nothing.
pub proof fn settled_text_is_final(
    input: Seq<char>,
    c: Scopes,
    rng: u64,
    now: u64,
    rounds: nat,
)
    requires
        rounds >= 1,
        substituted_once(input, c, rng, now).0 == Ok::<Seq<char>, Seq<char>>(input),
    ensures
        substituted(input, c, rng, now, rounds).0 == Ok::<Seq<char>, Seq<char>>(input),
{
}

/// A random integer is one of its range.
pub proof fn random_integer_is_in_range(lo: int, hi: int, rng: u64)
    requires
        lo < hi,
    ensures
        exists|k: int|
            lo <= k < hi && random_integer(lo, hi, rng).0 == Ok::<Seq<char>, Seq<char>>(
                #[trigger] signed_decimal(k),
            ),
{
    vstd::arithmetic::div_mod::lemma_mod_bound(draw(rng) as int, hi - lo);
    let k = lo + draw(rng) as int % (hi - lo);
    assert(lo <= k < hi);
    assert(random_integer(lo, hi, rng).0 == Ok::<Seq<char>, Seq<char>>(signed_decimal(k)));
}

/// A value that holds placeholders is resolved in its turn, as often as it takes:
/// where up to ten single passes lead from a text over others to one without
/// placeholders, that is the result. Ten passes are made, and not one more.
pub proof fn values_are_resolved_in_turn(chain: Seq<(Seq<char>, u64)>, c: Scopes, now: u64)
    requires
        1 <= chain.len() <= 11,
        forall|i: int|
            0 <= i < chain.len() - 1 ==> #[trigger] substituted_once(
                chain[i].0,
                c,
                chain[i].1,
                now,
            ) == (Ok::<Seq<char>, Seq<char>>(chain[i + 1].0), chain[i + 1].1),
        forall|i: int|
            0 <= i < chain.len() - 1 ==> chain[i + 1].0 != (#[trigger] chain[i]).0,
        chain.len() == 11 || placeholder(chain.last().0) is None,
    ensures
        substituted(chain[0].0, c, chain[0].1, now, 10) == (
            Ok::<Seq<char>, Seq<char>>(chain.last().0),
            chain.last().1,
        ),
{
    lemma_passes(chain, c, now, 10, 0);
    if chain.len() < 11 {
        text_without_placeholder_is_kept(
            chain.last().0,
            c,
            chain.last().1,
            now,
            (11 - chain.len()) as nat,
        );
    }
}

/// An error on any pass is the result.
pub proof fn error_on_any_pass_is_the_result(
    chain: Seq<(Seq<char>, u64)>,
    c: Scopes,
    now: u64,
    error: Seq<char>,
    state: u64,
)
    requires
        1 <= chain.len() <= 10,
        forall|i: int|
            0 <= i < chain.len() - 1 ==> #[trigger] substituted_once(
                chain[i].0,
                c,
                chain[i].1,
                now,
            ) == (Ok::<Seq<char>, Seq<char>>(chain[i + 1].0), chain[i + 1].1),
        forall|i: int|
            0 <= i < chain.len() - 1 ==> chain[i + 1].0 != (#[trigger] chain[i]).0,
        substituted_once(chain.last().0, c, chain.last().1, now) == (
            Err::<Seq<char>, Seq<char>>(error),
            state,
        ),
    ensures
        substituted(chain[0].0, c, chain[0].1, now, 10) == (
            Err::<Seq<char>, Seq<char>>(error),
            state,
        ),
{
    lemma_passes(chain, c, now, 10, 0);
}

proof fn lemma_passes(
    chain: Seq<(Seq<char>, u64)>,
    c: Scopes,
    now: u64,
    rounds: nat,
    i: int,
)
    requires
        0 <= i < chain.len(),
        chain.len() - 1 - i <= rounds,
        forall|i: int|
            0 <= i < chain.len() - 1 ==> #[trigger] substituted_once(
                chain[i].0,
                c,
                chain[i].1,
                now,
            ) == (Ok::<Seq<char>, Seq<char>>(chain[i + 1].0), chain[i + 1].1),
        forall|i: int|
            0 <= i < chain.len() - 1 ==> chain[i + 1].0 != (#[trigger] chain[i]).0,
    ensures
        substituted(chain[i].0, c, chain[i].1, now, rounds) == substituted(
            chain.last().0,
            c,
            chain.last().1,
            now,
            (rounds - (chain.len() - 1 - i)) as nat,
        ),
    decreases chain.len() - i,
{
    if i < chain.len() - 1 {
        assert(substituted_once(chain[i].0, c, chain[i].1, now) == (
            Ok::<Seq<char>, Seq<char>>(chain[i + 1].0),
            chain[i + 1].1,
        ));
        lemma_passes(chain, c, now, (rounds - 1) as nat, i + 1);
    }
}

proof fn lemma_substituted_behind(
    rest: Seq<char>,
    done: Seq<char>,
    c: Scopes,
    rng: u64,
    now: u64,
)
    ensures
        substituted_from(rest, done, c, rng, now) == (
            match substituted_once(rest, c, rng, now).0 {
                Ok(text) => Ok::<Seq<char>, Seq<char>>(done + text),
                Err(error) => Err(error),
            },
            substituted_once(rest, c, rng, now).1,
        ),
    decreases rest.len(),
{
    let none = Seq::<char>::empty();
    match placeholder(rest) {
        Some((before, name, behind)) => {
            lemma_placeholder(rest);
            if let (Ok(text), next) = resolved(name, c, rng, now) {
                lemma_substituted_behind(behind, done + before + text, c, next, now);
                lemma_substituted_behind(behind, none + before + text, c, next, now);
                if let Ok(tail) = substituted_once(behind, c, next, now).0 {
                    assert(done + before + text + tail =~= done + (none + before + text + tail));
                }
            }
        },
        None => {
            assert(done + rest =~= done + (none + rest));
        },
    }
}

/// A single pass replaces every placeholder by what its name stands for, from left to
/// right, and keeps the text around them: of `a{{name}}b` it makes `a`, the value, and
/// what the pass makes of `b`.
pub proof fn every_placeholder_is_replaced(
    a: Seq<char>,
    name: Seq<char>,
    b: Seq<char>,
    c: Scopes,
    rng: u64,
    now: u64,
)
    requires
        !a.contains('{'),
        !name.contains('}'),
    ensures
        substituted_once(a + "{{"@ + name + "}}"@ + b, c, rng, now) == (match resolved(
            trim(name),
            c,
            rng,
            now,
        ) {
            (Ok(value), next) => (
                match substituted_once(b, c, next, now).0 {
                    Ok(rest) => Ok::<Seq<char>, Seq<char>>(a + value + rest),
                    Err(error) => Err(error),
                },
                substituted_once(b, c, next, now).1,
            ),
            (Err(error), next) => (Err(error), next),
        }),
        substituted_once(a, c, rng, now) == (Ok::<Seq<char>, Seq<char>>(a), rng),
{
    reveal_strlit("{{");
    reveal_strlit("}}");
    let none = Seq::<char>::empty();
    let rest = name + "}}"@ + b;
    let s = a + "{{"@ + rest;
    assert(a + "{{"@ + name + "}}"@ + b =~= s);
    assert forall|j: int| 0 <= j < a.len() implies !matches_at(s, "{{"@, j) by {
        assert(a.contains(a[j]));
        assert(s.subrange(j, j + 2)[0] == a[j]);
    }
    split_finds(a, "{{"@, rest);
    assert forall|j: int| 0 <= j < name.len() implies !matches_at(rest, "}}"@, j) by {
        assert(name.contains(name[j]));
        assert(rest.subrange(j, j + 2)[0] == name[j]);
    }
    split_finds(name, "}}"@, b);
    assert(s.skip(a.len() as int + 2) =~= rest);
    assert(s.take(a.len() as int) =~= a);
    assert(rest.take(name.len() as int) =~= name);
    assert(rest.skip(name.len() as int + 2) =~= b);
    assert(placeholder(s) == Some((a, trim(name), b)));
    if let (Ok(value), next) = resolved(trim(name), c, rng, now) {
        lemma_substituted_behind(b, none + a + value, c, next, now);
        assert(none + a + value =~= a + value);
    }
    split_parts_rejoin(a, "{{"@);
    if let Some((x, y)) = split_once(a, "{{"@) {
        assert(a[x.len() as int] == '{');
        assert(a.contains('{'));
    }
    assert(none + a =~= a);
}

/// Whether `key` can stand in a path without brackets.
pub open spec fn is_plain_key(key: Seq<char>) -> bool {
    key.len() > 0 && !key.contains('.') && !key.contains('[') && !key.contains(']')
}

proof fn lemma_plain_part(
    path: Seq<char>,
    i: int,
    n: int,
    start: int,
    in_bracket: bool,
    found: Seq<SegmentModel>,
)
    requires
        0 <= i <= n <= path.len(),
        forall|k: int|
            i <= k < n ==> #[trigger] path[k] != '.' && path[k] != '[' && path[k] != ']',
    ensures
        segments_from(path, i, start, in_bracket, found) == segments_from(
            path,
            n,
            start,
            in_bracket,
            found,
        ),
    decreases n - i,
{
    if i < n {
        assert(path[i] != '.' && path[i] != '[' && path[i] != ']');
        lemma_plain_part(path, i + 1, n, start, in_bracket, found);
    }
}

spec fn key_segments(keys: Seq<Seq<char>>) -> Seq<SegmentModel> {
    keys.map_values(|key: Seq<char>| SegmentModel::Key(key))
}

proof fn lemma_dotted_part(
    path: Seq<char>,
    i: int,
    keys: Seq<Seq<char>>,
    tail: Seq<char>,
    found: Seq<SegmentModel>,
)
    requires
        0 <= i <= path.len(),
        keys.len() > 0,
        forall|k: int| 0 <= k < keys.len() ==> is_plain_key(#[trigger] keys[k]),
        tail.len() > 0 ==> tail[0] == '[',
        path.skip(i) == join(keys, "."@) + tail,
    ensures
        tail.len() == 0 ==> segments_from(path, i, i, false, found) == found + key_segments(keys),
        tail.len() > 0 ==> segments_from(path, i, i, false, found) == segments_from(
            path,
            path.len() - tail.len() + 1,
            path.len() - tail.len() + 1,
            true,
            found + key_segments(keys),
        ),
    decreases keys.len(),
{
    reveal_strlit(".");
    let key = keys[0];
    let n = i + key.len();
    let text = join(keys, "."@);
    let rest = keys.drop_first();
    assert(is_plain_key(key));
    let behind = if keys.len() == 1 {
        tail
    } else {
        "."@ + join(rest, "."@) + tail
    };
    assert(path.skip(i) =~= key + behind) by {
        if keys.len() > 1 {
            join_of_all(seq![key], rest, "."@);
            assert(seq![key] + rest =~= keys);
        }
    }
    assert(path.len() == n + behind.len());
    assert forall|k: int| i <= k < n implies #[trigger] path[k] != '.' && path[k] != '[' && path[k]
        != ']' by {
        assert(path.skip(i)[k - i] == path[k]);
        assert(key.contains(key[k - i]));
    }
    lemma_plain_part(path, i, n, i, false, found);
    assert(path.subrange(i, n) =~= key) by {
        assert forall|k: int| 0 <= k < key.len() implies path[i + k] == key[k] by {
            assert(path.skip(i)[k] == path[i + k]);
        }
    }
    let more = found.push(SegmentModel::Key(key));
    if keys.len() == 1 {
        assert(found + key_segments(keys) =~= more);
        if tail.len() == 0 {
            assert(path.skip(i) =~= key);
        } else {
            assert(path.skip(i)[key.len() as int] == path[n]);
            assert(path[n] == '[');
        }
    } else {
        assert(path.skip(i)[key.len() as int] == path[n]);
        assert(path[n] == '.');
        assert(path.skip(n + 1) =~= join(rest, "."@) + tail) by {
            assert(path.skip(n + 1) =~= path.skip(i).skip(key.len() as int + 1));
            assert((key + behind).skip(key.len() as int + 1) =~= join(rest, "."@) + tail);
        }
        assert forall|k: int| 0 <= k < rest.len() implies is_plain_key(#[trigger] rest[k]) by {
            assert(rest[k] == keys[k + 1]);
        }
        lemma_dotted_part(path, n + 1, rest, tail, more);
        assert(more + key_segments(rest) =~= found + key_segments(keys));
    }
}

proof fn lemma_path_segments(keys: Seq<Seq<char>>, n: nat)
    requires
        keys.len() > 0,
        forall|k: int| 0 <= k < keys.len() ==> is_plain_key(#[trigger] keys[k]),
        n <= usize::MAX,
    ensures
        path_segments(join(keys, "."@)) == key_segments(keys),
        path_segments(join(keys, "."@) + "["@ + decimal(n) + "]"@) == key_segments(keys).push(
            SegmentModel::Index(n),
        ),
{
    reveal_strlit("[");
    reveal_strlit("]");
    let none = Seq::<char>::empty();
    let dotted = join(keys, "."@);
    let empty = Seq::<SegmentModel>::empty();
    assert(dotted.skip(0) =~= dotted + none);
    lemma_dotted_part(dotted, 0, keys, none, empty);
    assert(empty + key_segments(keys) =~= key_segments(keys));
    let digits = decimal(n);
    let tail = "["@ + digits + "]"@;
    let path = dotted + "["@ + digits + "]"@;
    assert(path.skip(0) =~= dotted + tail);
    lemma_dotted_part(path, 0, keys, tail, empty);
    let start = path.len() - tail.len() + 1;
    let end = path.len() - 1;
    decimal_reads_back(n);
    assert forall|k: int| start <= k < end implies #[trigger] path[k] != '.' && path[k] != '['
        && path[k] != ']' by {
        assert(path[k] == digits[k - start]);
        assert(is_digit(digits[k - start]));
    }
    let found = key_segments(keys);
    lemma_plain_part(path, start, end, start, true, found);
    assert(path[end] == ']');
    assert(path.subrange(start, end) =~= digits);
    assert(segments_from(path, end + 1, end + 1, false, found.push(SegmentModel::Index(n)))
        == found.push(SegmentModel::Index(n)));
}

proof fn lemma_follow_keys(
    value: Json,
    segments: Seq<SegmentModel>,
    i: int,
    keys: Seq<Seq<char>>,
    values: Seq<Json>,
)
    requires
        0 <= i <= keys.len(),
        keys.len() == values.len(),
        segments.len() >= keys.len(),
        forall|k: int|
            0 <= k < keys.len() ==> segments[k] == SegmentModel::Key(#[trigger] keys[k]),
        0 < i,
        value == values[i - 1],
        forall|k: int|
            0 < k < keys.len() ==> step_into(
                values[k - 1],
                SegmentModel::Key(#[trigger] keys[k]),
            ) == Some(values[k]),
    ensures
        follow(value, segments, i) == follow(values.last(), segments, keys.len() as int),
    decreases keys.len() - i,
{
    if i < keys.len() {
        assert(segments[i] == SegmentModel::Key(keys[i]));
        lemma_follow_keys(values[i], segments, i + 1, keys, values);
    }
}

/// A dotted name leads from a variable through the members of objects, key by key; an
/// index in brackets behind it leads on to the item of an array, and to nothing where
/// there is none.
pub proof fn paths_lead_to_members(
    scope: Seq<(Seq<char>, Json)>,
    keys: Seq<Seq<char>>,
    values: Seq<Json>,
    n: nat,
)
    requires
        keys.len() >= 1,
        keys.len() == values.len(),
        n <= usize::MAX,
        forall|k: int| 0 <= k < keys.len() ==> is_plain_key(#[trigger] keys[k]),
        lookup(scope, keys[0]) == Some(values[0]),
        forall|k: int|
            0 < k < keys.len() ==> (values[k - 1] matches Json::Object(entries) && lookup(
                entries,
                #[trigger] keys[k],
            ) == Some(values[k])),
        keys.len() > 1 ==> lookup(scope, join(keys, "."@)) is None,
        lookup(scope, join(keys, "."@) + "["@ + decimal(n) + "]"@) is None,
    ensures
        scope_value(scope, join(keys, "."@)) == Some(values.last()),
        values.last() matches Json::Array(items) ==> scope_value(
            scope,
            join(keys, "."@) + "["@ + decimal(n) + "]"@,
        ) == if n < items.len() {
            Some(items[n as int])
        } else {
            None
        },
{
    reveal_strlit(".");
    reveal_strlit("[");
    let dotted = join(keys, "."@);
    let path = dotted + "["@ + decimal(n) + "]"@;
    lemma_path_segments(keys, n);
    let segments = key_segments(keys);
    let longer = segments.push(SegmentModel::Index(n));
    assert(segments[0] == SegmentModel::Key(keys[0]));
    assert(longer[0] == SegmentModel::Key(keys[0]));
    assert forall|k: int| 0 < k < keys.len() implies step_into(
        values[k - 1],
        SegmentModel::Key(#[trigger] keys[k]),
    ) == Some(values[k]) by {}
    lemma_follow_keys(values[0], segments, 1, keys, values);
    lemma_follow_keys(values[0], longer, 1, keys, values);
    reveal_with_fuel(follow, 3);
    if keys.len() > 1 {
        let rest = keys.drop_first();
        join_of_all(seq![keys[0]], rest, "."@);
        assert(seq![keys[0]] + rest =~= keys);
        assert(dotted.subrange(keys[0].len() as int, keys[0].len() as int + 1) =~= "."@);
        find_is_first(dotted, "."@);
        assert(matches_at(dotted, "."@, keys[0].len() as int));
    }
    let k = dotted.len() as int;
    assert(path.subrange(k, k + 1) =~= "["@);
    find_is_first(path, "["@);
    assert(matches_at(path, "["@, k));
    assert(longer[keys.len() as int] == SegmentModel::Index(n));
}

/// A name that is neither a variable nor leads anywhere is unknown; without a point or a
/// bracket it leads nowhere.
pub proof fn plain_names_are_looked_up(scope: Seq<(Seq<char>, Json)>, name: Seq<char>)
    ensures
        lookup(scope, name) is Some ==> scope_value(scope, name) == lookup(scope, name),
        !name.contains('.') && !name.contains('[') ==> scope_value(scope, name) == lookup(
            scope,
            name,
        ),
{
    reveal_strlit(".");
    reveal_strlit("[");
    find_is_first(name, "."@);
    find_is_first(name, "["@);
    if let Some(k) = find(name, "."@) {
        assert(name.subrange(k, k + 1)[0] == name[k]);
    }
    if let Some(k) = find(name, "["@) {
        assert(name.subrange(k, k + 1)[0] == name[k]);
    }
}

/// A text is substituted as it is, null by its name, and any other value as its JSON.
pub proof fn values_are_substituted_as_text(v: Json)
    ensures
        v matches Json::Text(text) ==> value_text(v) == text,
        v is Null ==> value_text(v) == "null"@,
        !(v is Text) && !(v is Null) ==> value_text(v) == json_text(v),
{
}

proof fn lemma_dynamic_prefix(name: Seq<char>, pat: Seq<char>, n: int)
    requires
        0 <= n < pat.len(),
        n >= name.len() || name[n] != pat[n],
    ensures
        strip_prefix(name, pat) is None,
        name != pat,
{
    if starts_with(name, pat) {
        assert(name.subrange(0, pat.len() as int)[n] == name[n]);
    }
}

/// `$env.NAME` and `$processEnv.NAME` stand for a variable of the process, and are errors
/// where there is none. They draw nothing.
pub proof fn process_variables_are_read(name: Seq<char>, c: Scopes, rng: u64, now: u64)
    ensures
        ({
            let outcome = match lookup(c.system_env, name) {
                Some(value) => Ok::<Seq<char>, Seq<char>>(value),
                None => Err("unresolved environment variable: "@ + name),
            };
            &&& resolved("$env."@ + name, c, rng, now) == (outcome, rng)
            &&& resolved("$processEnv."@ + name, c, rng, now) == (outcome, rng)
        }),
{
    reveal_strlit("$");
    reveal_strlit("$env.");
    reveal_strlit("$processEnv.");
    reveal_strlit("$uuid");
    reveal_strlit("$random.uuid");
    reveal_strlit("$timestamp");
    reveal_strlit("$isoTimestamp");
    reveal_strlit("$randomInt");
    reveal_strlit("$random.email");
    let a = "$env."@ + name;
    let b = "$processEnv."@ + name;
    assert(a.subrange(0, 1) =~= "$"@);
    assert(b.subrange(0, 1) =~= "$"@);
    assert(a[1] == 'e' && b[1] == 'p');
    assert(a.subrange(0, 5) =~= "$env."@);
    assert(a.skip(5) =~= name);
    assert(b.subrange(0, 12) =~= "$processEnv."@);
    assert(b.skip(12) =~= name);
    lemma_dynamic_prefix(b, "$env."@, 1);
    assert("$uuid"@[1] == 'u' && "$random.uuid"@[1] == 'r' && "$timestamp"@[1] == 't'
        && "$isoTimestamp"@[1] == 'i' && "$randomInt"@[1] == 'r' && "$random.email"@[1] == 'r');
}

/// `$timestamp` is the time in seconds, in decimal.
pub proof fn timestamp_is_the_time(c: Scopes, rng: u64, now: u64)
    ensures
        resolved("$timestamp"@, c, rng, now) == (
            Ok::<Seq<char>, Seq<char>>(decimal(now as nat)),
            rng,
        ),
{
    reveal_strlit("$");
    reveal_strlit("$timestamp");
    reveal_strlit("$uuid");
    reveal_strlit("$random.uuid");
    assert("$timestamp"@.subrange(0, 1) =~= "$"@);
    assert("$timestamp"@[1] == 't' && "$uuid"@[1] == 'u' && "$random.uuid"@[1] == 'r');
}

proof fn lemma_random_name(name: Seq<char>)
    requires
        name.len() > 8,
        name[1] == 'r',
        name[7] == '.',
        name[8] != 'u',
        name[8] != 'e',
    ensures
        name != "$uuid"@ && name != "$random.uuid"@ && name != "$timestamp"@ && name
            != "$isoTimestamp"@ && name != "$randomInt"@ && name != "$random.email"@,
        strip_prefix(name, "$env."@) is None,
        strip_prefix(name, "$processEnv."@) is None,
        name[8] != 'i' ==> strip_prefix(name, "$random.integer"@) is None,
        name[8] != 'f' ==> strip_prefix(name, "$random.float"@) is None,
        name[8] != 'a' ==> strip_prefix(name, "$random.alphabetic"@) is None && strip_prefix(
            name,
            "$random.alphanumeric"@,
        ) is None,
{
    reveal_strlit("$env.");
    reveal_strlit("$processEnv.");
    reveal_strlit("$uuid");
    reveal_strlit("$random.uuid");
    reveal_strlit("$timestamp");
    reveal_strlit("$isoTimestamp");
    reveal_strlit("$randomInt");
    reveal_strlit("$random.email");
    reveal_strlit("$random.integer");
    reveal_strlit("$random.float");
    reveal_strlit("$random.alphabetic");
    reveal_strlit("$random.alphanumeric");
    lemma_dynamic_prefix(name, "$uuid"@, 1);
    lemma_dynamic_prefix(name, "$random.uuid"@, 8);
    lemma_dynamic_prefix(name, "$timestamp"@, 1);
    lemma_dynamic_prefix(name, "$isoTimestamp"@, 1);
    lemma_dynamic_prefix(name, "$randomInt"@, 7);
    lemma_dynamic_prefix(name, "$random.email"@, 8);
    lemma_dynamic_prefix(name, "$env."@, 1);
    lemma_dynamic_prefix(name, "$processEnv."@, 1);
    if name[8] != 'i' {
        lemma_dynamic_prefix(name, "$random.integer"@, 8);
    }
    if name[8] != 'f' {
        lemma_dynamic_prefix(name, "$random.float"@, 8);
    }
    if name[8] != 'a' {
        lemma_dynamic_prefix(name, "$random.alphabetic"@, 8);
        lemma_dynamic_prefix(name, "$random.alphanumeric"@, 8);
    }
}

proof fn lemma_bracketed(inner: Seq<char>)
    requires
        inner.len() > 0,
        inner[0] != '(',
        inner.last() != ')',
    ensures
        arguments("("@ + inner + ")"@) == inner,
{
    reveal_strlit("(");
    reveal_strlit(")");
    let s = "("@ + inner + ")"@;
    trimmed_text_is_kept(s);
    assert(seq!['('][0] == '(');
    assert(seq![')'][0] == ')');
    assert(s =~= "("@ + (inner + ")"@));
    assert((inner + ")"@)[0] == inner[0]);
    drop_leading_finds("("@, inner + ")"@, seq!['(']);
    drop_trailing_finds(inner, ")"@, seq![')']);
}

/// `$random.integer(lo, hi)` is an integer from `lo` on and below `hi`.
pub proof fn random_range_is_kept(lo: int, hi: int, c: Scopes, rng: u64, now: u64)
    requires
        i64::MIN <= lo < hi <= i64::MAX,
    ensures
        exists|k: int|
            lo <= k < hi && resolved(
                "$random.integer"@ + ("("@ + (signed_decimal(lo) + ", "@ + signed_decimal(hi))
                    + ")"@),
                c,
                rng,
                now,
            ).0 == Ok::<Seq<char>, Seq<char>>(#[trigger] signed_decimal(k)),
{
    reveal_strlit("$");
    reveal_strlit("$random.integer");
    reveal_strlit(", ");
    let a = signed_decimal(lo);
    let b = signed_decimal(hi);
    let inner = a + ", "@ + b;
    let args = "("@ + inner + ")"@;
    let name = "$random.integer"@ + args;
    signed_decimal_reads_back(lo);
    signed_decimal_reads_back(hi);
    assert(name.subrange(0, 1) =~= "$"@);
    assert(name[1] == 'r' && name[7] == '.' && name[8] == 'i');
    lemma_random_name(name);
    assert(name.subrange(0, 15) =~= "$random.integer"@);
    assert(name.skip(15) =~= args);
    assert(inner[0] == a[0]);
    assert(inner.last() == b.last());
    lemma_bracketed(inner);
    let blank = seq![' '];
    assert(inner =~= a + seq![','] + (blank + b));
    lemma_split_once_char(a, ',', blank + b);
    assert(split(inner, ',') =~= seq![a, blank + b]);
    trimmed_text_is_kept(a);
    trim_finds(blank, b, Seq::empty());
    assert(blank + b + Seq::empty() =~= blank + b);
    random_integer_is_in_range(lo, hi, rng);
}

proof fn lemma_split_once_char(a: Seq<char>, c: char, b: Seq<char>)
    requires
        !a.contains(c),
        !b.contains(c),
    ensures
        split(a + seq![c] + b, c) == seq![a, b],
{
    reveal_with_fuel(split, 3);
    let s = a + seq![c] + b;
    lemma_until_len(s, c);
    let n = until_len(s, c) as int;
    assert(n == a.len()) by {
        assert(s[a.len() as int] == c);
        if n < a.len() {
            assert(a.contains(a[n]));
        }
    }
    assert(s.take(n) =~= a);
    assert(s.skip(n + 1) =~= b);
    lemma_until_len(b, c);
    if until_len(b, c) < b.len() {
        assert(b.contains(b[until_len(b, c) as int]));
    }
    assert(split(s, c) =~= seq![a, b]);
}

proof fn lemma_alphabets()
    ensures
        letters().len() == 52,
        word_characters().len() == 63,
        hex_digits().len() == 16,
{
    reveal_strlit("abcdefghijklmnopqrstuvwxyzABCDEFGHIJKLMNOPQRSTUVWXYZ");
    reveal_strlit("abcdefghijklmnopqrstuvwxyzABCDEFGHIJKLMNOPQRSTUVWXYZ0123456789_");
    reveal_strlit("0123456789abcdef");
}

proof fn lemma_random_texts(args: Seq<char>, c: Scopes, rng: u64, now: u64)
    ensures
        resolved("$random.alphabetic"@ + args, c, rng, now) == random_text(args, letters(), rng),
        resolved("$random.alphanumeric"@ + args, c, rng, now) == random_text(
            args,
            word_characters(),
            rng,
        ),
        resolved("$random.hexadecimal"@ + args, c, rng, now) == random_text(
            args,
            hex_digits(),
            rng,
        ),
{
    reveal_strlit("$");
    reveal_strlit("$random.alphabetic");
    reveal_strlit("$random.alphanumeric");
    reveal_strlit("$random.hexadecimal");
    let x = "$random.alphabetic"@ + args;
    let y = "$random.alphanumeric"@ + args;
    let z = "$random.hexadecimal"@ + args;
    assert(x.subrange(0, 1) =~= "$"@ && y.subrange(0, 1) =~= "$"@ && z.subrange(0, 1) =~= "$"@);
    assert(x[1] == 'r' && x[7] == '.' && x[8] == 'a');
    assert(y[1] == 'r' && y[7] == '.' && y[8] == 'a' && y[13] == 'n');
    assert(z[1] == 'r' && z[7] == '.' && z[8] == 'h');
    lemma_random_name(x);
    lemma_random_name(y);
    lemma_random_name(z);
    assert(x.subrange(0, 18) =~= "$random.alphabetic"@);
    assert(x.skip(18) =~= args);
    assert(y.subrange(0, 20) =~= "$random.alphanumeric"@);
    assert(y.skip(20) =~= args);
    assert(z.subrange(0, 19) =~= "$random.hexadecimal"@);
    assert(z.skip(19) =~= args);
    lemma_dynamic_prefix(y, "$random.alphabetic"@, 13);
}

/// Whether `r` is a text of `n` characters out of `alphabet`.
pub open spec fn is_drawn(
    r: Result<Seq<char>, Seq<char>>,
    alphabet: Seq<char>,
    n: nat,
) -> bool {
    r is Ok && r->Ok_0.len() == n && forall|i: int|
        0 <= i < n ==> alphabet.contains(#[trigger] r->Ok_0[i])
}

proof fn lemma_random_text(n: nat, alphabet: Seq<char>, rng: u64)
    requires
        n <= usize::MAX,
        alphabet.len() > 0,
    ensures
        n == 0 ==> random_text("("@ + decimal(n) + ")"@, alphabet, rng).0 is Err,
        n > 0 ==> is_drawn(random_text("("@ + decimal(n) + ")"@, alphabet, rng).0, alphabet, n),
{
    decimal_reads_back(n);
    let digits = decimal(n);
    assert(is_digit(digits[0]) && is_digit(digits[digits.len() - 1]));
    lemma_bracketed(digits);
    assert(read_unsigned(digits, usize::MAX as nat) == Some(n));
    drawn_text_is_of_its_alphabet(rng, alphabet, n);
}

/// `$random.alphabetic(n)`, `$random.alphanumeric(n)` and `$random.hexadecimal(n)` are
/// texts of `n` characters out of their alphabets; a length of 0 is an error.
pub proof fn random_text_has_its_length(n: nat, c: Scopes, rng: u64, now: u64)
    requires
        n <= usize::MAX,
    ensures
        ({
            let args = "("@ + decimal(n) + ")"@;
            let a = resolved("$random.alphabetic"@ + args, c, rng, now).0;
            let b = resolved("$random.alphanumeric"@ + args, c, rng, now).0;
            let d = resolved("$random.hexadecimal"@ + args, c, rng, now).0;
            &&& n == 0 ==> a is Err && b is Err && d is Err
            &&& n > 0 ==> is_drawn(a, letters(), n) && is_drawn(b, word_characters(), n)
                && is_drawn(d, hex_digits(), n)
        }),
        letters().len() == 52 && word_characters().len() == 63 && hex_digits().len() == 16,
{
    lemma_alphabets();
    lemma_random_texts("("@ + decimal(n) + ")"@, c, rng, now);
    lemma_random_text(n, letters(), rng);
    lemma_random_text(n, word_characters(), rng);
    lemma_random_text(n, hex_digits(), rng);
}

/// What is drawn or told by the clock for the names that take no arguments: a UUID, an
/// address, a number below 1000, and the moment.
pub proof fn plain_dynamic_names_are_read(c: Scopes, rng: u64, now: u64)
    ensures
        ({
            let uuid = uuid_text(draw(rng), draw(next_state(rng)), 16);
            &&& resolved("$uuid"@, c, rng, now) == (
                Ok::<Seq<char>, Seq<char>>(uuid),
                state_behind(rng, 2),
            )
            &&& resolved("$random.uuid"@, c, rng, now) == resolved("$uuid"@, c, rng, now)
            &&& resolved("$random.email"@, c, rng, now) == (
                Ok::<Seq<char>, Seq<char>>(email_of(rng).1),
                state_behind(rng, 9),
            )
            &&& resolved("$randomInt"@, c, rng, now) == (
                Ok::<Seq<char>, Seq<char>>(decimal((draw(rng) as int % 1000) as nat)),
                state_behind(rng, 1),
            )
            &&& now <= i64::MAX ==> resolved("$isoTimestamp"@, c, rng, now) == (
                Ok::<Seq<char>, Seq<char>>(iso_text(now as int)),
                rng,
            )
        }),
{
    reveal_with_fuel(state_behind, 3);
    email_has_its_form(rng);
    reveal_strlit("$");
    reveal_strlit("$uuid");
    reveal_strlit("$random.uuid");
    reveal_strlit("$timestamp");
    reveal_strlit("$isoTimestamp");
    reveal_strlit("$randomInt");
    reveal_strlit("$random.email");
    assert("$uuid"@.subrange(0, 1) =~= "$"@);
    assert("$random.uuid"@.subrange(0, 1) =~= "$"@);
    assert("$random.email"@.subrange(0, 1) =~= "$"@);
    assert("$randomInt"@.subrange(0, 1) =~= "$"@);
    assert("$isoTimestamp"@.subrange(0, 1) =~= "$"@);
    assert("$uuid"@[1] == 'u' && "$random.uuid"@[1] == 'r' && "$timestamp"@[1] == 't'
        && "$isoTimestamp"@[1] == 'i' && "$randomInt"@[1] == 'r' && "$random.email"@[1] == 'r');
    assert("$random.uuid"@[8] == 'u' && "$random.email"@[8] == 'e');
    assert("$random.uuid"@[7] == '.' && "$random.email"@[7] == '.' && "$randomInt"@[7] == 'I');
    vstd::arithmetic::div_mod::lemma_mod_bound(draw(rng) as int, 1000);
}

/// A range without a number in it is an error. An end that is left out, or that is no
/// number, is 0 or 1000.
pub proof fn range_ends_are_read(lo: int, hi: int, other: Seq<char>, c: Scopes, rng: u64, now: u64)
    requires
        i64::MIN <= lo <= i64::MAX,
        i64::MIN <= hi <= i64::MAX,
        other.len() > 0,
        is_lower(other[0]) && is_lower(other.last()),
        !other.contains(','),
    ensures
        int_args("("@ + (signed_decimal(lo) + ","@ + signed_decimal(hi)) + ")"@, 0, 1000) == (
            lo,
            hi,
        ),
        int_args("("@ + signed_decimal(lo) + ")"@, 0, 1000) == (lo, 1000int),
        int_args("("@ + other + ")"@, 0, 1000) == (0int, 1000int),
        int_args("("@ + (other + ","@ + signed_decimal(hi)) + ")"@, 0, 1000) == (0int, hi),
        int_args(""@, 0, 1000) == (0int, 1000int),
        lo >= hi ==> random_integer(lo, hi, rng) == (
            Err::<Seq<char>, Seq<char>>("empty random range"@),
            rng,
        ),
{
    reveal_strlit(",");
    reveal_strlit("");
    let a = signed_decimal(lo);
    let b = signed_decimal(hi);
    signed_decimal_reads_back(lo);
    signed_decimal_reads_back(hi);
    trimmed_text_is_kept(a);
    trimmed_text_is_kept(b);
    trimmed_text_is_kept(other);
    assert(!a.contains(',') && !b.contains(','));
    let inner = a + ","@ + b;
    assert(","@ =~= seq![',']);
    assert(inner[0] == a[0] && inner.last() == b.last());
    lemma_bracketed(inner);
    lemma_split_once_char(a, ',', b);
    lemma_bracketed(a);
    lemma_unsplit(a, ',');
    lemma_bracketed(other);
    lemma_unsplit(other, ',');
    assert(read_signed(other) is None);
    let second = other + ","@ + b;
    assert(second[0] == other[0] && second.last() == b.last());
    lemma_bracketed(second);
    lemma_split_once_char(other, ',', b);
    let none = Seq::<char>::empty();
    assert(""@ =~= none);
    assert(arguments(none) == none) by {
        trim_finds(none, none, none);
        assert(none + none + none =~= none);
        drop_leading_finds(none, none, seq!['(']);
        drop_trailing_finds(none, none, seq![')']);
        assert(none + none =~= none);
    }
    lemma_unsplit(none, ',');
    trim_finds(none, none, none);
    assert(none + none + none =~= none);
}

proof fn lemma_unsplit(s: Seq<char>, c: char)
    requires
        !s.contains(c),
    ensures
        split(s, c) == seq![s],
{
    lemma_until_len(s, c);
    if until_len(s, c) < s.len() {
        assert(s.contains(s[until_len(s, c) as int]));
    }
}

proof fn lemma_whole_double(n: nat)
    requires
        n < 0x20_0000_0000_0000,
    ensures
        from_integer(n) == n * one(),
{
    exact_numbers_are_kept(n, 1, 1074);
    assert(n * 1 * one() == n * one());
}

/// The share that a draw stands for, from 0 to 1.
proof fn lemma_share(x: u64, y: u64)
    requires
        x <= y,
    ensures
        ({
            let all = from_integer(u64::MAX as nat);
            let a = quotient(from_integer(x as nat), all);
            let b = quotient(from_integer(y as nat), all);
            &&& a <= b <= one()
            &&& x == 0 ==> a == 0
            &&& y == u64::MAX ==> b == one()
        }),
{
    lemma_double_is_positive(u64::MAX as nat);
    let o = one();
    let all = from_integer(u64::MAX as nat);
    assert(x * o <= y * o && y * o <= u64::MAX * o) by (nonlinear_arith)
        requires
            x <= y <= u64::MAX,
            o >= 0,
    ;
    rounding_keeps_order((x as nat) * o, (y as nat) * o, 1);
    rounding_keeps_order((y as nat) * o, (u64::MAX as nat) * o, 1);
    let p = from_integer(x as nat);
    let q = from_integer(y as nat);
    assert(p * o <= q * o && q * o <= all * o) by (nonlinear_arith)
        requires
            p <= q <= all,
            o >= 0,
    ;
    rounding_keeps_order(p * o, q * o, all);
    rounding_keeps_order(q * o, all * o, all);
    exact_numbers_are_kept(1, all, 1074);
    assert(1 * all * o == all * o);
    if x == 0 {
        lemma_whole_double(0);
        assert(0 * o == 0);
        exact_numbers_are_kept(0, all, 0);
        assert(0 * all == 0);
        assert(0 * all * vstd::arithmetic::power2::pow2(0) == 0);
    }
}

proof fn lemma_product_grows(a: nat, b: nat, k: nat)
    requires
        a <= b <= one(),
        k < 0x20_0000_0000_0000,
    ensures
        product(a, k * one()) <= product(b, k * one()) <= k * one(),
        a == 0 ==> product(a, k * one()) == 0,
        b == one() ==> product(b, k * one()) == k * one(),
{
    let o = one();
    vstd::arithmetic::power2::lemma_pow2_pos(1074);
    let span = k * o;
    assert(a * span <= b * span && b * span <= o * span) by (nonlinear_arith)
        requires
            a <= b <= o,
            span >= 0,
    ;
    rounding_keeps_order(a * span, b * span, o);
    rounding_keeps_order(b * span, o * span, o);
    exact_numbers_are_kept(k, o, 1074);
    assert(k * o * o == o * span) by (nonlinear_arith)
        requires
            span == k * o,
    ;
    if a == 0 {
        exact_numbers_are_kept(0, o, 0);
        assert(0 * o == 0 && 0 * span == 0);
        assert(0 * o * vstd::arithmetic::power2::pow2(0) == 0);
    }
}

proof fn lemma_sum_grows(lo: int, hi: int, a: nat, b: nat)
    requires
        -0x10_0000_0000_0000 < lo <= hi <= 0x10_0000_0000_0000,
        a <= b <= (hi - lo) * one(),
    ensures
        ({
            let low = sum(double_of(lo), Signed { negative: false, size: a });
            let high = sum(double_of(lo), Signed { negative: false, size: b });
            &&& lo * one() <= multiple(low) <= multiple(high) <= hi * one()
            &&& a == 0 ==> multiple(low) == lo * one()
            &&& b == (hi - lo) * one() ==> multiple(high) == hi * one()
        }),
{
    let o = one() as int;
    vstd::arithmetic::power2::lemma_pow2_pos(1074);
    assert((hi - lo) * o == hi * o - lo * o) by (nonlinear_arith);
    let l = if lo < 0 {
        (-lo) as nat
    } else {
        lo as nat
    };
    let h = if hi < 0 {
        (-hi) as nat
    } else {
        hi as nat
    };
    assert((-lo) * o == -(lo * o) && (-hi) * o == -(hi * o)) by (nonlinear_arith);
    lemma_whole_double(l);
    lemma_whole_double(h);
    assert(rounded(l * one(), 1) == l * one() && rounded(h * one(), 1) == h * one());
    let zero = rounded(0, 1);
    lemma_whole_double(0);
    assert(0 * one() == 0);
    if lo >= 0 {
        rounding_keeps_order(l * one(), l * one() + a, 1);
        rounding_keeps_order(l * one() + a, l * one() + b, 1);
        assert(hi * o >= 0) by (nonlinear_arith)
            requires
                hi >= 0,
                o > 0,
        ;
        rounding_keeps_order(l * one() + b, h * one(), 1);
    } else {
        let s = l * one();
        assert(s > 0) by (nonlinear_arith)
            requires
                s == l * o,
                l > 0,
                o > 0,
        ;
        lemma_part_of_sum(lo, hi, a);
        lemma_part_of_sum(lo, hi, b);
        if s > b {
            rounding_keeps_order((s - b) as nat, (s - a) as nat, 1);
        } else if s <= a {
            rounding_keeps_order((a - s) as nat, (b - s) as nat, 1);
        }
    }
}

proof fn lemma_part_of_sum(lo: int, hi: int, a: nat)
    requires
        -0x10_0000_0000_0000 <= lo < 0,
        lo <= hi <= 0x10_0000_0000_0000,
        a <= hi * one() - lo * one(),
    ensures
        ({
            let v = sum(double_of(lo), Signed { negative: false, size: a });
            &&& lo * one() <= multiple(v) <= hi * one()
            &&& a == 0 ==> multiple(v) == lo * one()
            &&& a == hi * one() - lo * one() ==> multiple(v) == hi * one()
        }),
{
    let o = one() as int;
    vstd::arithmetic::power2::lemma_pow2_pos(1074);
    let l = (-lo) as nat;
    let h = if hi < 0 {
        (-hi) as nat
    } else {
        hi as nat
    };
    assert((-lo) * o == -(lo * o) && (-hi) * o == -(hi * o)) by (nonlinear_arith);
    assert(l * o > 0) by (nonlinear_arith)
        requires
            l > 0,
            o > 0,
    ;
    lemma_whole_double(l);
    lemma_whole_double(h);
    lemma_whole_double(0);
    assert(0 * one() == 0);
    let s = l * one();
    if s > a {
        rounding_keeps_order((s - a) as nat, s, 1);
        if hi < 0 {
            rounding_keeps_order(h * one(), (s - a) as nat, 1);
        } else {
            assert(hi * o >= 0) by (nonlinear_arith)
                requires
                    hi >= 0,
                    o > 0,
            ;
        }
    } else {
        assert(hi >= 0) by {
            assert(hi < 0 ==> hi * o < 0) by (nonlinear_arith)
                requires
                    o > 0,
            ;
        }
        rounding_keeps_order((a - s) as nat, h * one(), 1);
    }
}

/// A random number with four places lies between its two ends, follows its draw, and
/// reaches both ends.
pub proof fn random_number_is_between_its_ends(lo: int, hi: int, x: u64, y: u64)
    requires
        -0x10_0000_0000_0000 < lo <= hi <= 0x10_0000_0000_0000,
        x <= y,
    ensures
        ({
            let a = units_shown(four_places(between(lo, hi, x)));
            let b = units_shown(four_places(between(lo, hi, y)));
            &&& lo * 10000 <= a <= b <= hi * 10000
            &&& x == 0 ==> a == lo * 10000
            &&& y == u64::MAX ==> b == hi * 10000
        }),
{
    let all = from_integer(u64::MAX as nat);
    let p = quotient(from_integer(x as nat), all);
    let q = quotient(from_integer(y as nat), all);
    let k = (hi - lo) as nat;
    lemma_share(x, y);
    lemma_whole_double(k);
    lemma_product_grows(p, q, k);
    lemma_sum_grows(lo, hi, product(p, k * one()), product(q, k * one()));
    let low = between(lo, hi, x);
    let high = between(lo, hi, y);
    lemma_whole_shown(lo, low);
    lemma_whole_shown(lo, high);
    lemma_whole_shown(hi, low);
    lemma_whole_shown(hi, high);
    four_places_keep_order(low, high, 0);
}

proof fn lemma_whole_shown(n: int, v: Signed)
    ensures
        n * one() <= multiple(v) ==> n * 10000 <= units_shown(four_places(v)),
        multiple(v) <= n * one() ==> units_shown(four_places(v)) <= n * 10000,
{
    let o = one() as int;
    let k = if n < 0 {
        (-n) as nat
    } else {
        n as nat
    };
    let whole = Signed { negative: n < 0, size: k * one() };
    assert((-n) * o == -(n * o)) by (nonlinear_arith);
    assert(multiple(whole) == n * o);
    four_places_keep_order(whole, v, k);
    four_places_keep_order(v, whole, k);
}

/// `$random.float(lo, hi)` is the number between its ends that the next draw stands for.
pub proof fn random_number_is_drawn(lo: int, hi: int, c: Scopes, rng: u64, now: u64)
    requires
        i64::MIN <= lo <= i64::MAX,
        i64::MIN <= hi <= i64::MAX,
    ensures
        resolved(
            "$random.float"@ + ("("@ + (signed_decimal(lo) + ","@ + signed_decimal(hi)) + ")"@),
            c,
            rng,
            now,
        ) == (
            Ok::<Seq<char>, Seq<char>>(four_places(between(lo, hi, draw(rng)))),
            state_behind(rng, 1),
        ),
{
    reveal_with_fuel(state_behind, 2);
    reveal_strlit("$");
    reveal_strlit("$random.float");
    reveal_strlit("a");
    let args = "("@ + (signed_decimal(lo) + ","@ + signed_decimal(hi)) + ")"@;
    let name = "$random.float"@ + args;
    range_ends_are_read(lo, hi, "a"@, c, rng, now);
    assert(name.subrange(0, 1) =~= "$"@);
    assert(name[1] == 'r' && name[7] == '.' && name[8] == 'f');
    lemma_random_name(name);
    ends_are_taken_off("$random.float"@, args, name, name);
}

/// A key between brackets, with quotes or without, leads to the member of that name, though
/// the name hold points.
pub proof fn bracketed_keys_lead_to_members(
    scope: Seq<(Seq<char>, Json)>,
    name: Seq<char>,
    key: Seq<char>,
    entries: Seq<(Seq<char>, Json)>,
    quote: Seq<char>,
)
    requires
        is_plain_key(name),
        lookup(scope, name) == Some(Json::Object(entries)),
        quote == "'"@ || quote == "\""@ || quote == ""@,
        key.len() > 0,
        is_trimmed(key),
        !is_digit(key[0]) && key[0] != '+' || quote != ""@,
        !key.contains('[') && !key.contains(']') && !key.contains('\'') && !key.contains('"'),
        lookup(scope, name + "["@ + (quote + key + quote) + "]"@) is None,
        lookup(scope, name + ".["@ + (quote + key + quote) + "]"@) is None,
    ensures
        scope_value(scope, name + "["@ + (quote + key + quote) + "]"@) == lookup(entries, key),
        scope_value(scope, name + ".["@ + (quote + key + quote) + "]"@) == lookup(entries, key),
{
    reveal_strlit("[");
    reveal_strlit(".[");
    lemma_bracketed_path(scope, name, key, entries, quote, "["@);
    lemma_bracketed_path(scope, name, key, entries, quote, ".["@);
}

proof fn lemma_bracketed_path(
    scope: Seq<(Seq<char>, Json)>,
    name: Seq<char>,
    key: Seq<char>,
    entries: Seq<(Seq<char>, Json)>,
    quote: Seq<char>,
    open: Seq<char>,
)
    requires
        is_plain_key(name),
        lookup(scope, name) == Some(Json::Object(entries)),
        quote == "'"@ || quote == "\""@ || quote == ""@,
        key.len() > 0,
        is_trimmed(key),
        !is_digit(key[0]) && key[0] != '+' || quote != ""@,
        !key.contains('[') && !key.contains(']') && !key.contains('\'') && !key.contains('"'),
        open == "["@ || open == ".["@,
        lookup(scope, name + open + (quote + key + quote) + "]"@) is None,
    ensures
        scope_value(scope, name + open + (quote + key + quote) + "]"@) == lookup(entries, key),
{
    reveal_strlit("[");
    reveal_strlit(".[");
    reveal_strlit("]");
    reveal_strlit("'");
    reveal_strlit("\"");
    reveal_strlit("");
    let inner = quote + key + quote;
    let path = name + open + inner + "]"@;
    let none = Seq::<SegmentModel>::empty();
    let n = name.len() as int;
    let start = n + open.len();
    let end = start + inner.len();
    assert(path.len() == end + 1);
    assert forall|k: int| 0 <= k < n implies #[trigger] path[k] != '.' && path[k] != '[' && path[k]
        != ']' by {
        assert(path[k] == name[k]);
        assert(name.contains(name[k]));
    }
    lemma_plain_part(path, 0, n, 0, false, none);
    assert(path.subrange(0, n) =~= name);
    let first = none.push(SegmentModel::Key(name));
    assert(path[n] == open[0]);
    reveal_with_fuel(segments_from, 3);
    if open == ".["@ {
        assert(path[n + 1] == '[');
    }
    assert(path_segments(path) == segments_from(path, start, start, true, first));
    assert forall|k: int| start <= k < end implies #[trigger] path[k] != '[' && path[k] != ']' by {
        assert(path[k] == inner[k - start]);
        let j = k - start - quote.len();
        if 0 <= j < key.len() {
            assert(inner[k - start] == key[j]);
            assert(key.contains(key[j]));
        }
    }
    lemma_inner_part(path, start, end, start, first);
    assert(path[end] == ']');
    assert(path.subrange(start, end) =~= inner);
    lemma_bracket_segment(key, quote);
    let all = first.push(SegmentModel::Key(key));
    assert(path_segments(path) == all);
    assert(all[0] == SegmentModel::Key(name) && all[1] == SegmentModel::Key(key));
    reveal_with_fuel(follow, 3);
    let at = start - 1;
    assert(path.subrange(at, at + 1) =~= "["@);
    find_is_first(path, "["@);
    assert(matches_at(path, "["@, at));
}

proof fn lemma_inner_part(
    path: Seq<char>,
    i: int,
    n: int,
    start: int,
    found: Seq<SegmentModel>,
)
    requires
        0 <= i <= n <= path.len(),
        forall|k: int| i <= k < n ==> #[trigger] path[k] != '[' && path[k] != ']',
    ensures
        segments_from(path, i, start, true, found) == segments_from(path, n, start, true, found),
    decreases n - i,
{
    if i < n {
        assert(path[i] != '[' && path[i] != ']');
        lemma_inner_part(path, i + 1, n, start, found);
    }
}

proof fn lemma_bracket_segment(key: Seq<char>, quote: Seq<char>)
    requires
        quote == "'"@ || quote == "\""@ || quote == ""@,
        key.len() > 0,
        is_trimmed(key),
        !is_digit(key[0]) && key[0] != '+' || quote != ""@,
        !key.contains('\'') && !key.contains('"'),
    ensures
        bracket_segment(quote + key + quote) == SegmentModel::Key(key),
{
    reveal_strlit("'");
    reveal_strlit("\"");
    reveal_strlit("");
    let inner = quote + key + quote;
    let set = seq!['\'', '"'];
    assert(set[0] == '\'' && set[1] == '"');
    assert(inner[0] == if quote.len() > 0 {
        quote[0]
    } else {
        key[0]
    });
    assert(!is_digit(inner[0]) && inner[0] != '+');
    assert(read_unsigned(inner, usize::MAX as nat) is None);
    assert(key.contains(key[0]) && key.contains(key.last()));
    assert(!set.contains(key[0]) && !set.contains(key.last()));
    assert(forall|i: int| 0 <= i < quote.len() ==> set.contains(#[trigger] quote[i]));
    assert(inner =~= quote + (key + quote));
    assert((key + quote)[0] == key[0]);
    drop_leading_finds(quote, key + quote, set);
    drop_trailing_finds(key, quote, set);
    trimmed_text_is_kept(key);
}

} // verus!
