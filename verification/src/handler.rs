//! A pragmatic compatibility subset of the response-handler script API.
//!
//! Supported statements (one per line):
//!
//! * `client.global.set("name", <expr>)`
//! * `client.global.clear("name")`
//! * `client.global.clearAll()`
//! * `client.global.headers.set("Name", <expr>)`
//! * `client.test("name", function() { ... })`
//! * `client.assert(<condition>, "message")`
//! * `client.log(<expr>)`
//! * `client.exit()`
//!
//! A test checks every assertion in its function that stands outside of string
//! literals and comments, each up to the bracket that closes it, and then runs its
//! other statements.
//!
//! Besides the expressions over the response, `client.global.get("name")` and
//! `client.global.isEmpty()` read the globals.
//!
//! Anything else (control flow, ...) is ignored. This is enough for the common
//! chain-login-then-use-token workflows without embedding a full JavaScript
//! engine.

use vstd::prelude::*;
use vstd::string::StrSliceExecFns;
use vstd::string::StringExecFns;
use crate::expression::ResponseModel;
use crate::expression::member;
use crate::expression::response_model;
use crate::expression::value_model;
use crate::expression::value_of;
use crate::json::Json;
use crate::json::JsonValue;
use crate::json::equal_values_are_the_same;
use crate::json::has_no_fraction;
use crate::json::json_eq;
use crate::json::json_eq_is_symmetric;
use crate::json::json_text;
use crate::json::lemma_json_of;
use crate::json::print_json;
use crate::map::TextMap;
use crate::map::lookup;
use crate::map::lookup_after_put;
use crate::map::lookup_after_removal;
use crate::map::put;
use crate::map::sorted;
use crate::map::without;
use crate::text::after_prefix;
use crate::text::as_lines;
use crate::text::before_suffix;
use crate::text::chars_of;
use crate::text::concat3;
use crate::text::concat;
use crate::text::copy_texts;
use crate::text::drop_trailing;
use crate::text::drop_trailing_of;
use crate::text::ends_are_taken_off;
use crate::text::find;
use crate::text::has_prefix;
use crate::text::head_of;
use crate::text::is_empty_text;
use crate::text::is_line;
use crate::text::is_space;
use crate::text::is_trimmed;
use crate::text::join;
use crate::text::join_of;
use crate::text::last_position;
use crate::text::lemma_find_range;
use crate::text::lemma_rfind_range;
use crate::text::lemma_until_len;
use crate::text::lines;
use crate::text::lines_of;
use crate::text::lines_read_back;
use crate::text::matches_at;
use crate::text::owned;
use crate::text::pair_option;
use crate::text::position;
use crate::text::rfind;
use crate::text::rfind_is_last;
use crate::text::same;
use crate::text::split_finds;
use crate::text::split_finds_character;
use crate::text::split_once;
use crate::text::split_once_at;
use crate::text::split_parts_rejoin;
use crate::text::stands_at;
use crate::text::starts_with;
use crate::text::strip_prefix;
use crate::text::strip_suffix;
use crate::text::tail_of;
use crate::text::text_option;
use crate::text::texts;
use crate::text::trim;
use crate::text::trim_end;
use crate::text::trim_of;
use crate::text::trim_start;
use crate::text::trim_start_finds;
use crate::text::trim_start_of;
use crate::text::trimmed_text_is_kept;
use crate::text::until_len;
use crate::text::without_cr;

pub use crate::expression::eval;

verus! {

broadcast use lemma_json_of;

// ---------------------------------------------------------------------------
// What a script asks for
// ---------------------------------------------------------------------------

#[derive(Debug, PartialEq)]
pub enum GlobalChange {
    Assign(String, JsonValue),
    Clear(String),
    ClearAll,
}

#[derive(Debug, PartialEq)]
pub enum HeaderChange {
    Assign(String, String),
    Clear(String),
}

#[derive(Debug)]
pub struct HandlerResult {
    pub globals: Vec<GlobalChange>,
    pub headers: Vec<HeaderChange>,
    pub logs: Vec<String>,
    pub errors: Vec<String>,
    pub exited: bool,
}

/// A change of the globals.
pub ghost enum ChangeModel {
    Assign(Seq<char>, Json),
    Clear(Seq<char>),
    ClearAll,
}

/// A change of the headers that are sent with every request.
pub ghost enum HeaderChangeModel {
    Assign(Seq<char>, Seq<char>),
    Clear(Seq<char>),
}

/// What running a script gives.
#[verifier::ext_equal]
pub ghost struct ResultModel {
    pub globals: Seq<ChangeModel>,
    pub headers: Seq<HeaderChangeModel>,
    pub logs: Seq<Seq<char>>,
    pub errors: Seq<Seq<char>>,
    pub exited: bool,
}

impl View for GlobalChange {
    type V = ChangeModel;

    open spec fn view(&self) -> ChangeModel {
        match self {
            GlobalChange::Assign(name, value) => ChangeModel::Assign(name@, value.json()),
            GlobalChange::Clear(name) => ChangeModel::Clear(name@),
            GlobalChange::ClearAll => ChangeModel::ClearAll,
        }
    }
}

impl View for HeaderChange {
    type V = HeaderChangeModel;

    open spec fn view(&self) -> HeaderChangeModel {
        match self {
            HeaderChange::Assign(name, value) => HeaderChangeModel::Assign(name@, value@),
            HeaderChange::Clear(name) => HeaderChangeModel::Clear(name@),
        }
    }
}

pub open spec fn change_models(v: Seq<GlobalChange>) -> Seq<ChangeModel> {
    Seq::new(v.len(), |i: int| v[i]@)
}

pub open spec fn header_change_models(v: Seq<HeaderChange>) -> Seq<HeaderChangeModel> {
    Seq::new(v.len(), |i: int| v[i]@)
}

impl View for HandlerResult {
    type V = ResultModel;

    open spec fn view(&self) -> ResultModel {
        ResultModel {
            globals: change_models(self.globals@),
            headers: header_change_models(self.headers@),
            logs: texts(self.logs@),
            errors: texts(self.errors@),
            exited: self.exited,
        }
    }
}

impl Clone for GlobalChange {
    fn clone(&self) -> (r: Self)
        ensures
            r@ == self@,
    {
        match self {
            GlobalChange::Assign(name, value) => GlobalChange::Assign(name.clone(), value.copy()),
            GlobalChange::Clear(name) => GlobalChange::Clear(name.clone()),
            GlobalChange::ClearAll => GlobalChange::ClearAll,
        }
    }
}

impl Clone for HeaderChange {
    fn clone(&self) -> (r: Self)
        ensures
            r@ == self@,
    {
        match self {
            HeaderChange::Assign(name, value) => HeaderChange::Assign(name.clone(), value.clone()),
            HeaderChange::Clear(name) => HeaderChange::Clear(name.clone()),
        }
    }
}

impl Clone for HandlerResult {
    fn clone(&self) -> (r: Self)
        ensures
            r@ == self@,
    {
        let mut globals: Vec<GlobalChange> = Vec::new();
        for i in 0..self.globals.len()
            invariant
                change_models(globals@) == change_models(self.globals@).take(i as int),
        {
            let ghost before = change_models(globals@);
            globals.push(self.globals[i].clone());
            assert(change_models(globals@) =~= before.push(self.globals@[i as int]@));
        }
        let mut headers: Vec<HeaderChange> = Vec::new();
        for i in 0..self.headers.len()
            invariant
                header_change_models(headers@) == header_change_models(self.headers@).take(
                    i as int,
                ),
        {
            let ghost before = header_change_models(headers@);
            headers.push(self.headers[i].clone());
            assert(header_change_models(headers@) =~= before.push(self.headers@[i as int]@));
        }
        let r = HandlerResult {
            globals,
            headers,
            logs: copy_texts(&self.logs),
            errors: copy_texts(&self.errors),
            exited: self.exited,
        };
        assert(r@ =~= self@);
        r
    }
}

pub open spec fn empty_result() -> ResultModel {
    ResultModel {
        globals: Seq::empty(),
        headers: Seq::empty(),
        logs: Seq::empty(),
        errors: Seq::empty(),
        exited: false,
    }
}

/// The globals after a change.
pub open spec fn applied(globals: Seq<(Seq<char>, Json)>, change: ChangeModel) -> Seq<
    (Seq<char>, Json),
> {
    match change {
        ChangeModel::Assign(name, value) => put(globals, name, value),
        ChangeModel::Clear(name) => without(globals, name),
        ChangeModel::ClearAll => Seq::empty(),
    }
}

/// The globals after several changes, one after the other.
pub open spec fn applied_all(
    globals: Seq<(Seq<char>, Json)>,
    changes: Seq<ChangeModel>,
) -> Seq<(Seq<char>, Json)>
    decreases changes.len(),
{
    if changes.len() == 0 {
        globals
    } else {
        applied(applied_all(globals, changes.drop_last()), changes.last())
    }
}

// ---------------------------------------------------------------------------
// The parts of a statement
// ---------------------------------------------------------------------------

/// What is open behind some text: brackets, braces, and a string literal.
pub ghost struct Balance {
    pub parens: int,
    pub braces: int,
    pub quote: Option<char>,
    pub escaped: bool,
}

pub open spec fn balance_step(b: Balance, c: char) -> Balance {
    match b.quote {
        Some(q) => if b.escaped {
            Balance { escaped: false, ..b }
        } else if c == '\\' {
            Balance { escaped: true, ..b }
        } else if c == q {
            Balance { quote: None, ..b }
        } else {
            b
        },
        None => if c == '\'' || c == '"' {
            Balance { quote: Some(c), ..b }
        } else if c == '(' {
            Balance { parens: b.parens + 1, ..b }
        } else if c == ')' {
            Balance { parens: b.parens - 1, ..b }
        } else if c == '{' {
            Balance { braces: b.braces + 1, ..b }
        } else if c == '}' {
            Balance { braces: b.braces - 1, ..b }
        } else {
            b
        },
    }
}

pub open spec fn balance(text: Seq<char>) -> Balance
    decreases text.len(),
{
    if text.len() == 0 {
        Balance { parens: 0, braces: 0, quote: None, escaped: false }
    } else {
        balance_step(balance(text.drop_last()), text.last())
    }
}

/// Whether everything that `text` opens is closed in it.
pub open spec fn is_complete(text: Seq<char>) -> bool {
    let b = balance(text);
    b.quote is None && b.parens == 0 && b.braces == 0
}

/// The first comma from position `i` on that stands outside of brackets and
/// string literals.
pub open spec fn comma_at(s: Seq<char>, i: int, depth: int, quote: Option<char>) -> Option<int>
    decreases s.len() - i,
{
    if i < 0 || i >= s.len() {
        None
    } else {
        let c = s[i];
        match quote {
            Some(q) => comma_at(
                s,
                i + 1,
                depth,
                if c == q {
                    None
                } else {
                    quote
                },
            ),
            None => if c == '"' || c == '\'' {
                comma_at(s, i + 1, depth, Some(c))
            } else if c == '(' || c == '[' || c == '{' {
                comma_at(s, i + 1, depth + 1, quote)
            } else if c == ')' || c == ']' || c == '}' {
                comma_at(s, i + 1, depth - 1, quote)
            } else if c == ',' && depth == 0 {
                Some(i)
            } else {
                comma_at(s, i + 1, depth, quote)
            },
        }
    }
}

/// The two arguments of `(arg1, arg2)`. The second is empty where there is none.
pub open spec fn call_args(rest: Seq<char>) -> Option<(Seq<char>, Seq<char>)> {
    match strip_prefix(trim(rest), "("@) {
        Some(opened) => match strip_suffix(opened, ")"@) {
            Some(inner) => match comma_at(inner, 0, 0, None) {
                Some(k) => Some((trim(inner.take(k)), trim(inner.skip(k + 1)))),
                None => Some((trim(inner), Seq::empty())),
            },
            None => None,
        },
        None => None,
    }
}

pub open spec fn between(text: Seq<char>, quote: Seq<char>) -> Option<Seq<char>> {
    match strip_prefix(text, quote) {
        Some(rest) => strip_suffix(rest, quote),
        None => None,
    }
}

/// The text of a string literal in either kind of quotes.
pub open spec fn string_literal(text: Seq<char>) -> Option<Seq<char>> {
    match between(trim(text), "\""@) {
        Some(inner) => Some(inner),
        None => between(trim(text), "'"@),
    }
}

/// The string literal that is the first argument of a call.
pub open spec fn call_literal(rest: Seq<char>) -> Option<Seq<char>> {
    match call_args(rest) {
        Some((name, _)) => string_literal(name),
        None => None,
    }
}

/// What stands between the first `{` and the last `}`.
pub open spec fn function_body(text: Seq<char>) -> Option<Seq<char>> {
    match (find(text, "{"@), rfind(text, "}"@)) {
        (Some(start), Some(end)) => if start < end {
            Some(text.subrange(start + 1, end))
        } else {
            None
        },
        _ => None,
    }
}

/// The bracket from position `i` on that closes what is open there, `depth`
/// brackets deep. What stands in string literals opens and closes nothing.
pub open spec fn closing_at(
    s: Seq<char>,
    i: int,
    depth: int,
    quote: Option<char>,
    escaped: bool,
) -> Option<int>
    decreases s.len() - i,
{
    if i < 0 || i >= s.len() {
        None
    } else {
        let c = s[i];
        match quote {
            Some(q) => closing_at(
                s,
                i + 1,
                depth,
                if c == q && !escaped {
                    None
                } else {
                    quote
                },
                c == '\\' && !escaped,
            ),
            None => if c == '"' || c == '\'' {
                closing_at(s, i + 1, depth, Some(c), false)
            } else if c == '(' || c == '[' || c == '{' {
                closing_at(s, i + 1, depth + 1, quote, false)
            } else if c == ')' || c == ']' || c == '}' {
                if depth <= 1 {
                    Some(i)
                } else {
                    closing_at(s, i + 1, depth - 1, quote, false)
                }
            } else {
                closing_at(s, i + 1, depth, quote, false)
            },
        }
    }
}

/// What a position of a script lies in: code, a string literal in the given quotes
/// (and whether a backslash stands directly before), or a comment.
#[derive(Clone, Copy, Debug)]
pub enum Place {
    Code,
    Literal(char, bool),
    LineComment,
    BlockComment,
}

/// Whether only blanks stand before position `k` on its line.
pub open spec fn starts_line(s: Seq<char>, k: int) -> bool {
    let before = drop_trailing(s.take(k), seq![' ', '\t']);
    before.len() == 0 || before.last() == '\n'
}

/// Whether `c` and then `d` stand in `s` at position `i`.
pub open spec fn pair_at(s: Seq<char>, i: int, c: char, d: char) -> bool {
    s[i] == c && i + 1 < s.len() && s[i + 1] == d
}

/// The position behind `i` at which reading goes on, and what it lies in. A literal
/// ends at its quote, or else with its line; a comment is `// ..`, `/* .. */`, or a
/// line that starts with `#`.
pub open spec fn place_behind(s: Seq<char>, i: int, place: Place) -> (int, Place) {
    let c = s[i];
    match place {
        Place::Code => if c == '"' || c == '\'' {
            (i + 1, Place::Literal(c, false))
        } else if pair_at(s, i, '/', '/') {
            (i + 2, Place::LineComment)
        } else if pair_at(s, i, '/', '*') {
            (i + 2, Place::BlockComment)
        } else if c == '#' && starts_line(s, i) {
            (i + 1, Place::LineComment)
        } else {
            (i + 1, Place::Code)
        },
        Place::Literal(quote, escaped) => if escaped {
            (i + 1, Place::Literal(quote, false))
        } else if c == quote || c == '\n' {
            (i + 1, Place::Code)
        } else {
            (i + 1, Place::Literal(quote, c == '\\'))
        },
        Place::LineComment => if c == '\n' {
            (i + 1, Place::Code)
        } else {
            (i + 1, Place::LineComment)
        },
        Place::BlockComment => if pair_at(s, i, '*', '/') {
            (i + 2, Place::Code)
        } else {
            (i + 1, Place::BlockComment)
        },
    }
}

/// The assertion that starts at position `k`: where it ends, its condition and its
/// message. Its arguments run to the bracket that closes them.
pub open spec fn assertion_at(s: Seq<char>, k: int) -> Option<
    (int, (Seq<char>, Option<Seq<char>>)),
> {
    if matches_at(s, "client.assert"@, k) {
        let rest = trim_start(s.skip(k + "client.assert"@.len()));
        match closing_at(rest, 0, 0, None, false) {
            Some(end) => match call_args(rest.take(end + 1)) {
                Some((condition, message)) => Some(
                    (s.len() - rest.len() + end + 1, (condition, string_literal(message))),
                ),
                None => None,
            },
            None => None,
        }
    } else {
        None
    }
}

/// The first assertion from position `i` on, which lies in `place`. What stands in
/// a string literal or a comment is none.
pub open spec fn next_assertion(s: Seq<char>, i: int, place: Place) -> Option<
    (int, (Seq<char>, Option<Seq<char>>)),
>
    decreases s.len() - i,
{
    if i < 0 || i >= s.len() {
        None
    } else if place is Code && assertion_at(s, i) is Some {
        assertion_at(s, i)
    } else {
        let (next, there) = place_behind(s, i, place);
        next_assertion(s, next, there)
    }
}

/// The conditions and the messages of all assertions from position `i` on, which
/// lies in code, in the order in which they stand there.
pub open spec fn assertions(s: Seq<char>, i: int) -> Seq<(Seq<char>, Option<Seq<char>>)>
    decreases s.len() - i,
{
    match next_assertion(s, i, Place::Code) {
        Some((end, found)) => {
            proof {
                lemma_next_assertion(s, i, Place::Code);
            }
            seq![found] + assertions(s, end)
        },
        None => Seq::empty(),
    }
}

/// The text that a value is logged as.
pub open spec fn log_text(v: Json) -> Seq<char> {
    match v {
        Json::Text(s) => s,
        _ => json_text(v),
    }
}

// ---------------------------------------------------------------------------
// The meaning of expressions and conditions
// ---------------------------------------------------------------------------

/// The value of an expression that may read the globals.
pub open spec fn value_with(
    expr: Seq<char>,
    r: ResponseModel,
    globals: Seq<(Seq<char>, Json)>,
) -> Result<Json, Seq<char>> {
    match strip_prefix(trim(expr), "client.global.get"@) {
        Some(rest) => match call_literal(rest) {
            Some(name) => Ok(member(globals, name)),
            None => Err("client.global.get requires a string literal"@),
        },
        None => if trim(expr) == "client.global.isEmpty()"@ {
            Ok(Json::Bool(globals.len() == 0))
        } else {
            value_of(expr, r)
        },
    }
}

/// The outcome of a comparison by `operator`, where the condition is one.
pub open spec fn comparison(
    condition: Seq<char>,
    operator: Seq<char>,
    negated: bool,
    r: ResponseModel,
    globals: Seq<(Seq<char>, Json)>,
) -> Option<Result<bool, Seq<char>>> {
    match split_once(condition, operator) {
        Some((left, right)) => match value_with(left, r, globals) {
            Ok(a) => match value_with(right, r, globals) {
                Ok(b) => Some(Ok(json_eq(a, b) != negated)),
                Err(error) => Some(Err(error)),
            },
            Err(error) => Some(Err(error)),
        },
        None => None,
    }
}

/// The outcome of a condition: a comparison, or an expression with a boolean
/// value.
pub open spec fn condition_holds(
    condition: Seq<char>,
    r: ResponseModel,
    globals: Seq<(Seq<char>, Json)>,
) -> Result<bool, Seq<char>> {
    if comparison(condition, "==="@, false, r, globals) is Some {
        comparison(condition, "==="@, false, r, globals)->0
    } else if comparison(condition, "!=="@, true, r, globals) is Some {
        comparison(condition, "!=="@, true, r, globals)->0
    } else if comparison(condition, "=="@, false, r, globals) is Some {
        comparison(condition, "=="@, false, r, globals)->0
    } else if comparison(condition, "!="@, true, r, globals) is Some {
        comparison(condition, "!="@, true, r, globals)->0
    } else {
        match value_with(condition, r, globals) {
            Ok(Json::Bool(b)) => Ok(b),
            Ok(_) => Err("assertion condition must evaluate to a boolean"@),
            Err(error) => Err(error),
        }
    }
}

// ---------------------------------------------------------------------------
// The meaning of statements
// ---------------------------------------------------------------------------

/// A script on its way: what it has asked for, and the globals as it sees them.
#[verifier::ext_equal]
pub ghost struct ScriptModel {
    pub result: ResultModel,
    pub globals: Seq<(Seq<char>, Json)>,
}

pub open spec fn script_start(globals: Seq<(Seq<char>, Json)>) -> ScriptModel {
    ScriptModel { result: empty_result(), globals }
}

pub open spec fn failed(st: ScriptModel, error: Seq<char>) -> ScriptModel {
    ScriptModel {
        result: ResultModel { errors: st.result.errors.push(error), ..st.result },
        ..st
    }
}

/// A change of the globals is asked for, and seen by what follows.
pub open spec fn changed(st: ScriptModel, change: ChangeModel) -> ScriptModel {
    ScriptModel {
        result: ResultModel { globals: st.result.globals.push(change), ..st.result },
        globals: applied(st.globals, change),
    }
}

pub open spec fn header_changed(st: ScriptModel, change: HeaderChangeModel) -> ScriptModel {
    ScriptModel {
        result: ResultModel { headers: st.result.headers.push(change), ..st.result },
        ..st
    }
}

pub open spec fn logged(st: ScriptModel, text: Seq<char>) -> ScriptModel {
    ScriptModel {
        result: ResultModel { logs: st.result.logs.push(text), ..st.result },
        ..st
    }
}

pub open spec fn bad_arguments(st: ScriptModel, line: Seq<char>) -> ScriptModel {
    failed(st, "could not parse arguments of: "@ + line)
}

/// `client.global.set("name", <expr>)`
pub open spec fn on_set(
    st: ScriptModel,
    line: Seq<char>,
    rest: Seq<char>,
    r: ResponseModel,
) -> ScriptModel {
    match call_args(rest) {
        Some((name, expr)) => match string_literal(name) {
            Some(name) => match value_with(expr, r, st.globals) {
                Ok(value) => changed(st, ChangeModel::Assign(name, value)),
                Err(error) => failed(st, error + " in: "@ + line),
            },
            None => failed(
                st,
                "first argument of client.global.set must be a string literal: "@ + line,
            ),
        },
        None => bad_arguments(st, line),
    }
}

/// `client.global.clearAll()`
pub open spec fn on_clear_all(st: ScriptModel, line: Seq<char>, rest: Seq<char>) -> ScriptModel {
    if trim(rest) == "()"@ {
        changed(st, ChangeModel::ClearAll)
    } else {
        bad_arguments(st, line)
    }
}

/// `client.global.clear("name")`
pub open spec fn on_clear(st: ScriptModel, line: Seq<char>, rest: Seq<char>) -> ScriptModel {
    match call_literal(rest) {
        Some(name) => changed(st, ChangeModel::Clear(name)),
        None => bad_arguments(st, line),
    }
}

/// `client.global.headers.set("Name", <expr>)`, where null clears the header.
pub open spec fn on_header_set(
    st: ScriptModel,
    line: Seq<char>,
    rest: Seq<char>,
    r: ResponseModel,
) -> ScriptModel {
    match call_args(rest) {
        Some((name, expr)) => match (string_literal(name), value_with(expr, r, st.globals)) {
            (_, Err(error)) => failed(st, error + " in: "@ + line),
            (Some(name), Ok(value)) => header_changed(
                st,
                if value == Json::Null {
                    HeaderChangeModel::Clear(name)
                } else {
                    HeaderChangeModel::Assign(name, log_text(value))
                },
            ),
            (None, Ok(_)) => failed(st, "header name must be a string literal: "@ + line),
        },
        None => bad_arguments(st, line),
    }
}

/// `client.assert(<condition>, "message")`
pub open spec fn on_assert(
    st: ScriptModel,
    line: Seq<char>,
    rest: Seq<char>,
    r: ResponseModel,
) -> ScriptModel {
    match call_args(rest) {
        Some((condition, message)) => match condition_holds(condition, r, st.globals) {
            Ok(true) => st,
            Ok(false) => failed(
                st,
                match string_literal(message) {
                    Some(message) => message,
                    None => "assertion failed"@,
                },
            ),
            Err(error) => failed(st, error),
        },
        None => failed(st, "could not parse assertion: "@ + line),
    }
}

/// `client.log(<expr>)`
pub open spec fn on_log(
    st: ScriptModel,
    line: Seq<char>,
    rest: Seq<char>,
    r: ResponseModel,
) -> ScriptModel {
    match call_args(rest) {
        Some((expr, _)) => match value_with(expr, r, st.globals) {
            Ok(value) => logged(st, log_text(value)),
            Err(error) => failed(st, error + " in: "@ + line),
        },
        None => bad_arguments(st, line),
    }
}

/// An assertion of the test `name`.
pub open spec fn on_test_assertion(
    st: ScriptModel,
    name: Seq<char>,
    assertion: (Seq<char>, Option<Seq<char>>),
    r: ResponseModel,
) -> ScriptModel {
    match condition_holds(assertion.0, r, st.globals) {
        Ok(true) => st,
        Ok(false) => failed(
            st,
            "test `"@ + name + "` failed"@ + match assertion.1 {
                Some(message) => ": "@ + message,
                None => Seq::empty(),
            },
        ),
        Err(error) => failed(st, "test `"@ + name + "` failed: "@ + error),
    }
}

/// All assertions of the test `name`, in order.
pub open spec fn on_test_assertions(
    st: ScriptModel,
    name: Seq<char>,
    all: Seq<(Seq<char>, Option<Seq<char>>)>,
    r: ResponseModel,
) -> ScriptModel
    decreases all.len(),
{
    if all.len() == 0 {
        st
    } else {
        on_test_assertion(on_test_assertions(st, name, all.drop_last(), r), name, all.last(), r)
    }
}

/// The lines that are no assertions.
pub open spec fn without_assertions(lines: Seq<Seq<char>>) -> Seq<Seq<char>>
    decreases lines.len(),
{
    if lines.len() == 0 {
        Seq::empty()
    } else {
        let before = without_assertions(lines.drop_last());
        if starts_with(trim_start(lines.last()), "client.assert"@) {
            before
        } else {
            before.push(lines.last())
        }
    }
}

/// The statements of a test, without its assertions.
pub open spec fn test_script(function: Seq<char>) -> Option<Seq<char>> {
    match function_body(function) {
        Some(body) => Some(join(without_assertions(lines(body)), "\n"@)),
        None => None,
    }
}

/// What the statements of a test ask for is asked for by the script.
pub open spec fn merged(st: ScriptModel, nested: ResultModel) -> ScriptModel {
    ScriptModel {
        result: ResultModel {
            globals: st.result.globals + nested.globals,
            headers: st.result.headers + nested.headers,
            logs: st.result.logs + nested.logs,
            errors: st.result.errors + nested.errors,
            exited: st.result.exited || nested.exited,
        },
        globals: applied_all(st.globals, nested.globals),
    }
}

/// A statement that opens brackets on line `i`, with the lines up to the one
/// that closes them: that line, and the text.
pub open spec fn gathered(lines: Seq<Seq<char>>, i: int, text: Seq<char>) -> (int, Seq<char>)
    decreases lines.len() - i,
{
    if is_complete(text) || i + 1 >= lines.len() {
        (i, text)
    } else {
        gathered(lines, i + 1, text.push('\n') + trim(lines[i + 1]))
    }
}

/// The statement that starts on line `i`: its last line, and its text. Only a
/// test may take several lines.
pub open spec fn statement(lines: Seq<Seq<char>>, i: int) -> (int, Seq<char>) {
    let (last, text) = if starts_with(trim(lines[i]), "client.test"@) {
        gathered(lines, i, trim(lines[i]))
    } else {
        (i, trim(lines[i]))
    };
    (last, trim(drop_trailing(text, seq![';'])))
}

pub open spec fn is_ignored(line: Seq<char>) -> bool {
    line.len() == 0 || starts_with(line, "//"@) || starts_with(line, "#"@)
}

/// How much text stands on the lines from line `i` on.
pub open spec fn weight(lines: Seq<Seq<char>>, i: int) -> nat
    decreases lines.len() - i,
{
    if i < 0 || i >= lines.len() {
        0
    } else {
        lines[i].len() + 1 + weight(lines, i + 1)
    }
}

/// `client.test("name", function() { ... })`
pub open spec fn on_test(
    st: ScriptModel,
    line: Seq<char>,
    rest: Seq<char>,
    r: ResponseModel,
) -> ScriptModel
    decreases rest.len(),
{
    match call_args(rest) {
        Some((name, function)) => match string_literal(name) {
            Some(name) => {
                let checked = on_test_assertions(st, name, assertions(function, 0), r);
                match test_script(function) {
                    Some(script) => {
                        proof {
                            lemma_test_script(rest);
                        }
                        merged(
                            checked,
                            run_lines(lines(script), 0, script_start(checked.globals), r).result,
                        )
                    },
                    None => checked,
                }
            },
            None => failed(
                st,
                "first argument of client.test must be a string literal: "@ + line,
            ),
        },
        None => failed(st, "could not parse test: "@ + line),
    }
}

/// What a statement does.
pub open spec fn executed(st: ScriptModel, line: Seq<char>, r: ResponseModel) -> ScriptModel
    decreases line.len(),
{
    if let Some(rest) = strip_prefix(line, "client.global.set"@) {
        on_set(st, line, rest, r)
    } else if let Some(rest) = strip_prefix(line, "client.global.clearAll"@) {
        on_clear_all(st, line, rest)
    } else if let Some(rest) = strip_prefix(line, "client.global.clear"@) {
        on_clear(st, line, rest)
    } else if let Some(rest) = strip_prefix(line, "client.global.headers.set"@) {
        on_header_set(st, line, rest, r)
    } else if line == "client.exit()"@ {
        ScriptModel { result: ResultModel { exited: true, ..st.result }, ..st }
    } else if let Some(rest) = strip_prefix(line, "client.test"@) {
        proof {
            reveal_strlit("client.test");
        }
        on_test(st, line, rest, r)
    } else if let Some(rest) = strip_prefix(line, "client.assert"@) {
        on_assert(st, line, rest, r)
    } else if let Some(rest) = strip_prefix(line, "client.log"@) {
        on_log(st, line, rest, r)
    } else {
        st
    }
}

/// What the statements from line `i` on do.
pub open spec fn run_lines(
    lines: Seq<Seq<char>>,
    i: int,
    st: ScriptModel,
    r: ResponseModel,
) -> ScriptModel
    decreases weight(lines, i),
{
    if st.result.exited || i < 0 || i >= lines.len() {
        st
    } else {
        let (last, line) = statement(lines, i);
        proof {
            lemma_statement(lines, i);
        }
        run_lines(
            lines,
            last + 1,
            if is_ignored(line) {
                st
            } else {
                executed(st, line, r)
            },
            r,
        )
    }
}

/// What a script asks for, given the response and the globals before it.
pub open spec fn script_result(
    script: Seq<char>,
    r: ResponseModel,
    globals: Seq<(Seq<char>, Json)>,
) -> ResultModel {
    run_lines(lines(script), 0, script_start(globals), r).result
}

// ---------------------------------------------------------------------------
// A script ends
// ---------------------------------------------------------------------------

proof fn lemma_trim_start_len(s: Seq<char>)
    ensures
        trim_start(s).len() <= s.len(),
    decreases s.len(),
{
    reveal_with_fuel(trim_start, 2);
    if s.len() > 0 {
        lemma_trim_start_len(s.drop_first());
    }
}

proof fn lemma_trim_end_len(s: Seq<char>)
    ensures
        trim_end(s).len() <= s.len(),
    decreases s.len(),
{
    if s.len() > 0 {
        lemma_trim_end_len(s.drop_last());
    }
}

proof fn lemma_trim_len(s: Seq<char>)
    ensures
        trim(s).len() <= s.len(),
{
    lemma_trim_start_len(s);
    lemma_trim_end_len(trim_start(s));
}

proof fn lemma_drop_trailing_len(s: Seq<char>, set: Seq<char>)
    ensures
        drop_trailing(s, set).len() <= s.len(),
    decreases s.len(),
{
    if s.len() > 0 {
        lemma_drop_trailing_len(s.drop_last(), set);
    }
}

proof fn lemma_gathered(lines: Seq<Seq<char>>, i: int, text: Seq<char>)
    requires
        0 <= i < lines.len(),
    ensures
        i <= gathered(lines, i, text).0 < lines.len(),
        gathered(lines, i, text).1.len() + weight(lines, gathered(lines, i, text).0 + 1)
            <= text.len() + weight(lines, i + 1),
    decreases lines.len() - i,
{
    if !is_complete(text) && i + 1 < lines.len() {
        lemma_trim_len(lines[i + 1]);
        lemma_gathered(lines, i + 1, text.push('\n') + trim(lines[i + 1]));
    }
}

/// A statement is shorter than what is left of the script, and takes at least
/// one line.
pub proof fn lemma_statement(lines: Seq<Seq<char>>, i: int)
    requires
        0 <= i < lines.len(),
    ensures
        i <= statement(lines, i).0 < lines.len(),
        statement(lines, i).1.len() < weight(lines, i),
        weight(lines, statement(lines, i).0 + 1) < weight(lines, i),
{
    let t = trim(lines[i]);
    lemma_trim_len(lines[i]);
    lemma_gathered(lines, i, t);
    let text = if starts_with(t, "client.test"@) {
        gathered(lines, i, t).1
    } else {
        t
    };
    lemma_drop_trailing_len(text, seq![';']);
    lemma_trim_len(drop_trailing(text, seq![';']));
}

proof fn lemma_weight_first(first: Seq<char>, rest: Seq<Seq<char>>, i: int)
    requires
        0 <= i <= rest.len(),
    ensures
        weight(seq![first] + rest, i + 1) == weight(rest, i),
    decreases rest.len() - i,
{
    if i < rest.len() {
        lemma_weight_first(first, rest, i + 1);
    }
}

proof fn lemma_lines_weight(s: Seq<char>)
    ensures
        weight(lines(s), 0) <= s.len() + 1,
    decreases s.len(),
{
    lemma_until_len(s, '\n');
    let n = until_len(s, '\n') as int;
    if s.len() > 0 {
        if n >= s.len() {
            assert(weight(seq![s], 1) == 0);
        } else {
            let first = without_cr(s.take(n));
            let rest = lines(s.skip(n + 1));
            lemma_lines_weight(s.skip(n + 1));
            lemma_weight_first(first, rest, 0);
            assert((seq![first] + rest)[0] == first);
        }
    }
}

proof fn lemma_weight_split(lines: Seq<Seq<char>>, i: int)
    requires
        lines.len() > 0,
        0 <= i < lines.len(),
    ensures
        weight(lines, i) == weight(lines.drop_last(), i) + lines.last().len() + 1,
    decreases lines.len() - i,
{
    if i + 1 < lines.len() {
        lemma_weight_split(lines, i + 1);
        assert(lines.drop_last()[i] == lines[i]);
    } else {
        assert(weight(lines, i + 1) == 0);
        assert(weight(lines.drop_last(), i) == 0);
    }
}

proof fn lemma_join_len(parts: Seq<Seq<char>>)
    ensures
        parts.len() > 0 ==> join(parts, "\n"@).len() + 1 == weight(parts, 0),
        parts.len() == 0 ==> join(parts, "\n"@).len() == 0,
    decreases parts.len(),
{
    reveal_strlit("\n");
    if parts.len() == 1 {
        assert(weight(parts, 1) == 0);
    } else if parts.len() > 1 {
        lemma_join_len(parts.drop_last());
        lemma_weight_split(parts, 0);
    }
}

proof fn lemma_without_assertions(all: Seq<Seq<char>>)
    ensures
        weight(without_assertions(all), 0) <= weight(all, 0),
    decreases all.len(),
{
    if all.len() > 0 {
        let before = without_assertions(all.drop_last());
        lemma_without_assertions(all.drop_last());
        lemma_weight_split(all, 0);
        if !starts_with(trim_start(all.last()), "client.assert"@) {
            let kept = before.push(all.last());
            lemma_weight_split(kept, 0);
            assert(kept.drop_last() =~= before);
        }
    }
}

proof fn lemma_comma_at(s: Seq<char>, i: int, depth: int, quote: Option<char>)
    requires
        0 <= i,
    ensures
        comma_at(s, i, depth, quote) matches Some(k) ==> i <= k < s.len(),
    decreases s.len() - i,
{
    if i < s.len() {
        let c = s[i];
        match quote {
            Some(q) => {
                lemma_comma_at(s, i + 1, depth, None);
                lemma_comma_at(s, i + 1, depth, quote);
            },
            None => {
                lemma_comma_at(s, i + 1, depth, Some(c));
                lemma_comma_at(s, i + 1, depth + 1, quote);
                lemma_comma_at(s, i + 1, depth - 1, quote);
                lemma_comma_at(s, i + 1, depth, quote);
            },
        }
    }
}

proof fn lemma_call_args(rest: Seq<char>)
    ensures
        call_args(rest) matches Some((_, second)) ==> second.len() < rest.len(),
{
    reveal_strlit("(");
    reveal_strlit(")");
    lemma_trim_len(rest);
    if let Some(opened) = strip_prefix(trim(rest), "("@) {
        if let Some(inner) = strip_suffix(opened, ")"@) {
            lemma_comma_at(inner, 0, 0, None);
            if let Some(k) = comma_at(inner, 0, 0, None) {
                lemma_trim_len(inner.skip(k + 1));
            }
        }
    }
}

proof fn lemma_closing_at(
    s: Seq<char>,
    i: int,
    depth: int,
    quote: Option<char>,
    escaped: bool,
)
    requires
        0 <= i,
    ensures
        closing_at(s, i, depth, quote, escaped) matches Some(k) ==> i <= k < s.len(),
    decreases s.len() - i,
{
    if i < s.len() {
        let c = s[i];
        match quote {
            Some(q) => {
                lemma_closing_at(s, i + 1, depth, None, c == '\\' && !escaped);
                lemma_closing_at(s, i + 1, depth, quote, c == '\\' && !escaped);
            },
            None => {
                lemma_closing_at(s, i + 1, depth, Some(c), false);
                lemma_closing_at(s, i + 1, depth + 1, quote, false);
                lemma_closing_at(s, i + 1, depth - 1, quote, false);
                lemma_closing_at(s, i + 1, depth, quote, false);
            },
        }
    }
}

proof fn lemma_assertion_at(s: Seq<char>, k: int)
    ensures
        assertion_at(s, k) matches Some((end, _)) ==> 0 <= k < end <= s.len(),
{
    if matches_at(s, "client.assert"@, k) {
        let behind = s.skip(k + "client.assert"@.len());
        lemma_trim_start_len(behind);
        lemma_closing_at(trim_start(behind), 0, 0, None, false);
    }
}

/// An assertion that is found from a position on ends behind it.
pub proof fn lemma_next_assertion(s: Seq<char>, i: int, place: Place)
    ensures
        next_assertion(s, i, place) matches Some((end, _)) ==> 0 <= i < end <= s.len(),
    decreases s.len() - i,
{
    if 0 <= i < s.len() {
        lemma_assertion_at(s, i);
        let (next, there) = place_behind(s, i, place);
        lemma_next_assertion(s, next, there);
    }
}

/// The statements of a test are shorter than the test.
pub proof fn lemma_test_script(rest: Seq<char>)
    ensures
        call_args(rest) matches Some((_, function)) ==> (test_script(function) matches Some(script)
            ==> weight(lines(script), 0) < rest.len()),
{
    lemma_call_args(rest);
    if let Some((_, function)) = call_args(rest) {
        if let Some(body) = function_body(function) {
            lemma_find_range(function, "{"@, 0);
            reveal_strlit("}");
            if "}"@.len() <= function.len() {
                lemma_rfind_range(function, "}"@, function.len() - "}"@.len());
            }
            assert(body.len() + 1 <= function.len());
            lemma_lines_weight(body);
            lemma_without_assertions(lines(body));
            lemma_join_len(without_assertions(lines(body)));
            let script = join(without_assertions(lines(body)), "\n"@);
            lemma_lines_weight(script);
        }
    }
}

// ---------------------------------------------------------------------------
// The parts of a statement, read
// ---------------------------------------------------------------------------

/// Whether everything that `text` opens is closed in it.
pub fn is_complete_statement(text: &str) -> (r: bool)
    ensures
        r == is_complete(text@),
{
    let cs = chars_of(text);
    let mut parens: i128 = 0;
    let mut braces: i128 = 0;
    let mut quote: Option<char> = None;
    let mut escaped = false;
    for i in 0..cs.len()
        invariant
            cs@ == text@,
            -(i as int) <= parens <= i,
            -(i as int) <= braces <= i,
            balance(text@.take(i as int)) == (Balance {
                parens: parens as int,
                braces: braces as int,
                quote,
                escaped,
            }),
    {
        let c = cs[i];
        assert(text@.take(i + 1).drop_last() =~= text@.take(i as int));
        assert(text@.take(i + 1).last() == c);
        match quote {
            Some(q) => {
                if escaped {
                    escaped = false;
                } else if c == '\\' {
                    escaped = true;
                } else if c == q {
                    quote = None;
                }
            },
            None => {
                if c == '\'' || c == '"' {
                    quote = Some(c);
                } else if c == '(' {
                    parens = parens + 1;
                } else if c == ')' {
                    parens = parens - 1;
                } else if c == '{' {
                    braces = braces + 1;
                } else if c == '}' {
                    braces = braces - 1;
                }
            },
        }
    }
    assert(text@.take(cs@.len() as int) =~= text@);
    quote.is_none() && parens == 0 && braces == 0
}

fn first_comma(cs: &Vec<char>) -> (r: Option<usize>)
    ensures
        r matches Some(k) ==> comma_at(cs@, 0, 0, None) == Some(k as int) && k < cs@.len(),
        r is None ==> comma_at(cs@, 0, 0, None) is None,
{
    let mut depth: i128 = 0;
    let mut quote: Option<char> = None;
    for i in 0..cs.len()
        invariant
            -(i as int) <= depth <= i,
            comma_at(cs@, i as int, depth as int, quote) == comma_at(cs@, 0, 0, None),
    {
        let c = cs[i];
        match quote {
            Some(q) => {
                if c == q {
                    quote = None;
                }
            },
            None => {
                if c == '"' || c == '\'' {
                    quote = Some(c);
                } else if c == '(' || c == '[' || c == '{' {
                    depth = depth + 1;
                } else if c == ')' || c == ']' || c == '}' {
                    depth = depth - 1;
                } else if c == ',' && depth == 0 {
                    return Some(i);
                }
            },
        }
    }
    None
}

/// Splits `(arg1, arg2)` into its two top-level argument strings.
pub fn parse_call_args(rest: &str) -> (r: Option<(String, String)>)
    ensures
        pair_option(r) == call_args(rest@),
{
    match after_prefix(trim_of(rest), "(") {
        None => None,
        Some(opened) => match before_suffix(opened, ")") {
            None => None,
            Some(inner) => {
                let cs = chars_of(inner);
                let total: usize = cs.len();
                match first_comma(&cs) {
                    Some(k) => Some(
                        (
                            owned(trim_of(head_of(inner, k))),
                            owned(trim_of(tail_of(inner, k + 1))),
                        ),
                    ),
                    None => {
                        let none = String::new();
                        Some((owned(trim_of(inner)), none))
                    },
                }
            },
        },
    }
}

fn text_between<'a>(text: &'a str, quote: &str) -> (r: Option<&'a str>)
    ensures
        r matches Some(t) ==> between(text@, quote@) == Some(t@),
        r is None ==> between(text@, quote@) is None,
{
    match after_prefix(text, quote) {
        Some(rest) => before_suffix(rest, quote),
        None => None,
    }
}

/// The text of a string literal.
pub fn parse_string_literal(text: &str) -> (r: Option<String>)
    ensures
        text_option(r) == string_literal(text@),
{
    let text = trim_of(text);
    match text_between(text, "\"") {
        Some(inner) => Some(owned(inner)),
        None => match text_between(text, "'") {
            Some(inner) => Some(owned(inner)),
            None => None,
        },
    }
}

fn parse_call_literal(rest: &str) -> (r: Option<String>)
    ensures
        text_option(r) == call_literal(rest@),
{
    match parse_call_args(rest) {
        Some((name, _)) => parse_string_literal(name.as_str()),
        None => None,
    }
}

/// What stands between the first `{` and the last `}`.
pub fn extract_function_body<'a>(text: &'a str) -> (r: Option<&'a str>)
    ensures
        r matches Some(t) ==> function_body(text@) == Some(t@),
        r is None ==> function_body(text@) is None,
{
    let start: usize = match position(text, "{") {
        Some(start) => start,
        None => {
            return None;
        },
    };
    let end: usize = match last_position(text, "}") {
        Some(end) => end,
        None => {
            return None;
        },
    };
    if start < end {
        let body = tail_of(head_of(text, end), start + 1);
        assert(body@ =~= text@.subrange(start + 1, end as int));
        Some(body)
    } else {
        None
    }
}

/// The position of the bracket that closes the one at the start.
fn find_closing(cs: &Vec<char>) -> (r: Option<usize>)
    ensures
        r matches Some(k) ==> closing_at(cs@, 0, 0, None, false) == Some(k as int) && k < cs@.len(),
        r is None ==> closing_at(cs@, 0, 0, None, false) is None,
{
    let mut depth: i128 = 0;
    let mut quote: Option<char> = None;
    let mut escaped = false;
    for i in 0..cs.len()
        invariant
            -(i as int) <= depth <= i,
            closing_at(cs@, i as int, depth as int, quote, escaped) == closing_at(
                cs@,
                0,
                0,
                None,
                false,
            ),
    {
        let c = cs[i];
        match quote {
            Some(q) => {
                if c == q && !escaped {
                    quote = None;
                }
                escaped = c == '\\' && !escaped;
            },
            None => {
                escaped = false;
                if c == '"' || c == '\'' {
                    quote = Some(c);
                } else if c == '(' || c == '[' || c == '{' {
                    depth = depth + 1;
                } else if c == ')' || c == ']' || c == '}' {
                    if depth <= 1 {
                        return Some(i);
                    }
                    depth = depth - 1;
                }
            },
        }
    }
    None
}

fn is_line_start(text: &str, k: usize) -> (r: bool)
    requires
        k <= text@.len(),
    ensures
        r == starts_line(text@, k as int),
{
    assert([' ', '\t']@ =~= seq![' ', '\t']);
    let before = chars_of(drop_trailing_of(head_of(text, k), &[' ', '\t']));
    before.len() == 0 || before[before.len() - 1] == '\n'
}

fn stands_pair(cs: &Vec<char>, i: usize, c: char, d: char) -> (r: bool)
    requires
        i < cs@.len(),
    ensures
        r == pair_at(cs@, i as int, c, d),
{
    cs[i] == c && cs.len() - i > 1 && cs[i + 1] == d
}

fn read_place(text: &str, cs: &Vec<char>, i: usize, place: Place) -> (r: (usize, Place))
    requires
        cs@ == text@,
        i < cs@.len(),
    ensures
        (r.0 as int, r.1) == place_behind(text@, i as int, place),
        i < r.0 <= cs@.len(),
{
    let total: usize = cs.len();
    let c = cs[i];
    match place {
        Place::Code => if c == '"' || c == '\'' {
            (i + 1, Place::Literal(c, false))
        } else if stands_pair(cs, i, '/', '/') {
            (i + 2, Place::LineComment)
        } else if stands_pair(cs, i, '/', '*') {
            (i + 2, Place::BlockComment)
        } else if c == '#' && is_line_start(text, i) {
            (i + 1, Place::LineComment)
        } else {
            (i + 1, Place::Code)
        },
        Place::Literal(quote, escaped) => if escaped {
            (i + 1, Place::Literal(quote, false))
        } else if c == quote || c == '\n' {
            (i + 1, Place::Code)
        } else {
            (i + 1, Place::Literal(quote, c == '\\'))
        },
        Place::LineComment => if c == '\n' {
            (i + 1, Place::Code)
        } else {
            (i + 1, Place::LineComment)
        },
        Place::BlockComment => if stands_pair(cs, i, '*', '/') {
            (i + 2, Place::Code)
        } else {
            (i + 1, Place::BlockComment)
        },
    }
}

pub open spec fn assertion_model(a: Option<(usize, String, Option<String>)>) -> Option<
    (int, (Seq<char>, Option<Seq<char>>)),
> {
    match a {
        Some((end, condition, message)) => Some((end as int, (condition@, text_option(message)))),
        None => None,
    }
}

fn read_assertion(body: &str, k: usize) -> (r: Option<(usize, String, Option<String>)>)
    requires
        k <= body@.len(),
        matches_at(body@, "client.assert"@, k as int),
    ensures
        assertion_model(r) == assertion_at(body@, k as int),
{
    let total: usize = body.unicode_len();
    let behind = tail_of(body, k + "client.assert".unicode_len());
    proof {
        lemma_trim_start_len(behind@);
    }
    let rest = trim_start_of(behind);
    let left: usize = rest.unicode_len();
    let end: usize = match find_closing(&chars_of(rest)) {
        Some(end) => end,
        None => {
            return None;
        },
    };
    match parse_call_args(head_of(rest, end + 1)) {
        Some((condition, message)) => Some(
            (total - left + end + 1, condition, parse_string_literal(message.as_str())),
        ),
        None => None,
    }
}

/// The first assertion in the body of a test from position `from` on, which lies in
/// code: where it ends, its condition and its message.
pub fn extract_assertion(body: &str, from: usize) -> (r: Option<(usize, String, Option<String>)>)
    ensures
        assertion_model(r) == next_assertion(body@, from as int, Place::Code),
{
    let cs = chars_of(body);
    let ps = chars_of("client.assert");
    let mut i: usize = from;
    let mut place = Place::Code;
    while i < cs.len()
        invariant
            cs@ == body@,
            ps@ == "client.assert"@,
            next_assertion(body@, from as int, Place::Code) == next_assertion(
                body@,
                i as int,
                place,
            ),
        decreases cs@.len() - i,
    {
        if matches!(place, Place::Code) && stands_at(&cs, &ps, i) {
            let found = read_assertion(body, i);
            if found.is_some() {
                return found;
            }
        }
        let (next, there) = read_place(body, &cs, i, place);
        i = next;
        place = there;
    }
    None
}

/// The text that a value is logged as.
pub fn value_to_log_string(value: &JsonValue) -> (r: String)
    ensures
        r@ == log_text(value.json()),
{
    match value {
        JsonValue::String(text) => text.clone(),
        _ => print_json(value),
    }
}

// ---------------------------------------------------------------------------
// Expressions and conditions, evaluated
// ---------------------------------------------------------------------------

/// Evaluates an expression that may read the globals.
pub fn eval_with_globals(
    expr: &str,
    status: u16,
    headers: &[(String, String)],
    body: &[u8],
    globals: &TextMap<JsonValue>,
) -> (r: Result<JsonValue, String>)
    ensures
        value_model(r) == value_with(
            expr@,
            response_model(status, headers@, body@),
            globals@,
        ),
{
    let trimmed = trim_of(expr);
    if let Some(rest) = after_prefix(trimmed, "client.global.get") {
        return match parse_call_literal(rest) {
            Some(name) => match globals.get(name.as_str()) {
                Some(value) => Ok(value.copy()),
                None => Ok(JsonValue::Null),
            },
            None => Err(owned("client.global.get requires a string literal")),
        };
    }
    if same(trimmed, "client.global.isEmpty()") {
        return Ok(JsonValue::Bool(globals.is_empty()));
    }
    eval(expr, status, headers, body)
}

pub open spec fn outcome_model(r: Result<bool, String>) -> Result<bool, Seq<char>> {
    match r {
        Ok(b) => Ok(b),
        Err(e) => Err(e@),
    }
}

fn compare(
    condition: &str,
    operator: &str,
    negated: bool,
    status: u16,
    headers: &[(String, String)],
    body: &[u8],
    globals: &TextMap<JsonValue>,
) -> (r: Option<Result<bool, String>>)
    ensures
        (match r {
            Some(outcome) => Some(outcome_model(outcome)),
            None => None,
        }) == comparison(
            condition@,
            operator@,
            negated,
            response_model(status, headers@, body@),
            globals@,
        ),
{
    match split_once_at(condition, operator) {
        None => None,
        Some((left, right)) => match eval_with_globals(left, status, headers, body, globals) {
            Ok(a) => match eval_with_globals(right, status, headers, body, globals) {
                Ok(b) => Some(Ok(a.equals(&b) != negated)),
                Err(error) => Some(Err(error)),
            },
            Err(error) => Some(Err(error)),
        },
    }
}

/// Evaluates the condition of an assertion.
pub fn eval_condition(
    condition: &str,
    status: u16,
    headers: &[(String, String)],
    body: &[u8],
    globals: &TextMap<JsonValue>,
) -> (r: Result<bool, String>)
    ensures
        outcome_model(r) == condition_holds(
            condition@,
            response_model(status, headers@, body@),
            globals@,
        ),
{
    if let Some(outcome) = compare(condition, "===", false, status, headers, body, globals) {
        return outcome;
    }
    if let Some(outcome) = compare(condition, "!==", true, status, headers, body, globals) {
        return outcome;
    }
    if let Some(outcome) = compare(condition, "==", false, status, headers, body, globals) {
        return outcome;
    }
    if let Some(outcome) = compare(condition, "!=", true, status, headers, body, globals) {
        return outcome;
    }
    match eval_with_globals(condition, status, headers, body, globals) {
        Ok(JsonValue::Bool(b)) => Ok(b),
        Ok(_) => Err(owned("assertion condition must evaluate to a boolean")),
        Err(error) => Err(error),
    }
}

// ---------------------------------------------------------------------------
// Scripts, run
// ---------------------------------------------------------------------------

/// Applies the changes that a script asked for, one after the other.
pub fn apply_global_changes(changes: &[GlobalChange], globals: &mut TextMap<JsonValue>)
    ensures
        final(globals)@ == applied_all(old(globals)@, change_models(changes@)),
{
    let ghost all = change_models(changes@);
    for i in 0..changes.len()
        invariant
            all == change_models(changes@),
            globals@ == applied_all(old(globals)@, all.take(i as int)),
    {
        assert(all.take(i + 1).drop_last() =~= all.take(i as int));
        assert(all.take(i + 1).last() == changes@[i as int]@);
        match &changes[i] {
            GlobalChange::Assign(name, value) => {
                globals.insert(name.clone(), value.copy());
            },
            GlobalChange::Clear(name) => {
                globals.remove(name.as_str());
            },
            GlobalChange::ClearAll => {
                globals.clear();
            },
        }
    }
    assert(all.take(changes@.len() as int) =~= all);
}

impl HandlerResult {
    /// Nothing asked for yet.
    pub fn empty() -> (r: HandlerResult)
        ensures
            r@ == empty_result(),
    {
        let r = HandlerResult {
            globals: Vec::new(),
            headers: Vec::new(),
            logs: Vec::new(),
            errors: Vec::new(),
            exited: false,
        };
        assert(r@ =~= empty_result());
        r
    }
}

impl Default for HandlerResult {
    fn default() -> (r: Self)
        ensures
            r@ == empty_result(),
    {
        HandlerResult::empty()
    }
}

/// A script on its way.
struct Script<'a> {
    result: HandlerResult,
    globals: TextMap<JsonValue>,
    status: u16,
    headers: &'a [(String, String)],
    body: &'a [u8],
}

impl<'a> Script<'a> {
    spec fn model(&self) -> ScriptModel {
        ScriptModel { result: self.result@, globals: self.globals@ }
    }

    spec fn response(&self) -> ResponseModel {
        response_model(self.status, self.headers@, self.body@)
    }

    /// Whether only the script itself has moved on.
    spec fn follows(&self, before: &Self) -> bool {
        &&& self.status == before.status
        &&& self.headers == before.headers
        &&& self.body == before.body
    }

    fn fail(&mut self, error: String)
        ensures
            final(self).model() == failed(old(self).model(), error@),
            final(self).follows(old(self)),
    {
        self.result.errors.push(error);
        assert(texts(self.result.errors@) =~= texts(old(self).result.errors@).push(error@));
    }

    fn fail_arguments(&mut self, line: &str)
        ensures
            final(self).model() == bad_arguments(old(self).model(), line@),
            final(self).follows(old(self)),
    {
        self.fail(concat("could not parse arguments of: ", line));
    }

    fn change(&mut self, change: GlobalChange)
        ensures
            final(self).model() == changed(old(self).model(), change@),
            final(self).follows(old(self)),
    {
        match &change {
            GlobalChange::Assign(name, value) => {
                self.globals.insert(name.clone(), value.copy());
            },
            GlobalChange::Clear(name) => {
                self.globals.remove(name.as_str());
            },
            GlobalChange::ClearAll => {
                self.globals.clear();
            },
        }
        self.result.globals.push(change);
        assert(change_models(self.result.globals@) =~= change_models(
            old(self).result.globals@,
        ).push(change@));
    }

    fn change_header(&mut self, change: HeaderChange)
        ensures
            final(self).model() == header_changed(old(self).model(), change@),
            final(self).follows(old(self)),
    {
        self.result.headers.push(change);
        assert(header_change_models(self.result.headers@) =~= header_change_models(
            old(self).result.headers@,
        ).push(change@));
    }

    fn log(&mut self, text: String)
        ensures
            final(self).model() == logged(old(self).model(), text@),
            final(self).follows(old(self)),
    {
        self.result.logs.push(text);
        assert(texts(self.result.logs@) =~= texts(old(self).result.logs@).push(text@));
    }

    fn value(&self, expr: &str) -> (r: Result<JsonValue, String>)
        ensures
            value_model(r) == value_with(expr@, self.response(), self.globals@),
    {
        eval_with_globals(expr, self.status, self.headers, self.body, &self.globals)
    }

    fn holds(&self, condition: &str) -> (r: Result<bool, String>)
        ensures
            outcome_model(r) == condition_holds(condition@, self.response(), self.globals@),
    {
        eval_condition(condition, self.status, self.headers, self.body, &self.globals)
    }

    fn set(&mut self, line: &str, rest: &str)
        ensures
            final(self).model() == on_set(old(self).model(), line@, rest@, old(self).response()),
            final(self).follows(old(self)),
    {
        match parse_call_args(rest) {
            Some((name, expr)) => match parse_string_literal(name.as_str()) {
                Some(name) => match self.value(expr.as_str()) {
                    Ok(value) => self.change(GlobalChange::Assign(name, value)),
                    Err(error) => self.fail(concat3(error.as_str(), " in: ", line)),
                },
                None => self.fail(
                    concat("first argument of client.global.set must be a string literal: ", line),
                ),
            },
            None => self.fail_arguments(line),
        }
    }

    fn clear_all(&mut self, line: &str, rest: &str)
        ensures
            final(self).model() == on_clear_all(old(self).model(), line@, rest@),
            final(self).follows(old(self)),
    {
        if same(trim_of(rest), "()") {
            self.change(GlobalChange::ClearAll);
        } else {
            self.fail_arguments(line);
        }
    }

    fn clear(&mut self, line: &str, rest: &str)
        ensures
            final(self).model() == on_clear(old(self).model(), line@, rest@),
            final(self).follows(old(self)),
    {
        match parse_call_literal(rest) {
            Some(name) => self.change(GlobalChange::Clear(name)),
            None => self.fail_arguments(line),
        }
    }

    fn set_header(&mut self, line: &str, rest: &str)
        ensures
            final(self).model() == on_header_set(
                old(self).model(),
                line@,
                rest@,
                old(self).response(),
            ),
            final(self).follows(old(self)),
    {
        match parse_call_args(rest) {
            Some((name, expr)) => match self.value(expr.as_str()) {
                Err(error) => self.fail(concat3(error.as_str(), " in: ", line)),
                Ok(value) => match parse_string_literal(name.as_str()) {
                    Some(name) => match value {
                        JsonValue::Null => self.change_header(HeaderChange::Clear(name)),
                        _ => self.change_header(
                            HeaderChange::Assign(name, value_to_log_string(&value)),
                        ),
                    },
                    None => self.fail(concat("header name must be a string literal: ", line)),
                },
            },
            None => self.fail_arguments(line),
        }
    }

    fn check_assertion(&mut self, line: &str, rest: &str)
        ensures
            final(self).model() == on_assert(old(self).model(), line@, rest@, old(self).response()),
            final(self).follows(old(self)),
    {
        match parse_call_args(rest) {
            Some((condition, message)) => match self.holds(condition.as_str()) {
                Ok(true) => {},
                Ok(false) => match parse_string_literal(message.as_str()) {
                    Some(message) => self.fail(message),
                    None => self.fail(owned("assertion failed")),
                },
                Err(error) => self.fail(error),
            },
            None => self.fail(concat("could not parse assertion: ", line)),
        }
    }

    fn log_value(&mut self, line: &str, rest: &str)
        ensures
            final(self).model() == on_log(old(self).model(), line@, rest@, old(self).response()),
            final(self).follows(old(self)),
    {
        match parse_call_args(rest) {
            Some((expr, _)) => match self.value(expr.as_str()) {
                Ok(value) => self.log(value_to_log_string(&value)),
                Err(error) => self.fail(concat3(error.as_str(), " in: ", line)),
            },
            None => self.fail_arguments(line),
        }
    }

    fn test_assertion(&mut self, name: &str, condition: &str, message: Option<String>)
        ensures
            final(self).model() == on_test_assertion(
                old(self).model(),
                name@,
                (condition@, text_option(message)),
                old(self).response(),
            ),
            final(self).follows(old(self)),
    {
        match self.holds(condition) {
            Ok(true) => {},
            Ok(false) => {
                let mut error = concat3("test `", name, "` failed");
                if let Some(message) = message {
                    error.append(concat(": ", message.as_str()).as_str());
                } else {
                    assert(error@ =~= error@ + Seq::<char>::empty());
                }
                self.fail(error);
            },
            Err(error) => self.fail(
                concat(concat3("test `", name, "` failed: ").as_str(), error.as_str()),
            ),
        }
    }

    fn test_assertions(&mut self, name: &str, function: &str)
        ensures
            final(self).model() == on_test_assertions(
                old(self).model(),
                name@,
                assertions(function@, 0),
                old(self).response(),
            ),
            final(self).follows(old(self)),
    {
        let ghost mut done: Seq<(Seq<char>, Option<Seq<char>>)> = Seq::empty();
        let mut from: usize = 0;
        let ghost total = function@.len();
        assert(done + assertions(function@, 0) =~= assertions(function@, 0));
        loop
            invariant
                from <= total,
                total == function@.len(),
                done + assertions(function@, from as int) == assertions(function@, 0),
                self.model() == on_test_assertions(
                    old(self).model(),
                    name@,
                    done,
                    old(self).response(),
                ),
                self.follows(old(self)),
            decreases total - from,
        {
            proof {
                lemma_next_assertion(function@, from as int, Place::Code);
            }
            match extract_assertion(function, from) {
                Some((end, condition, message)) => {
                    proof {
                        let found = (condition@, text_option(message));
                        let before = done;
                        done = before.push(found);
                        assert(done.drop_last() =~= before);
                        assert(done + assertions(function@, end as int) =~= before + (seq![found]
                            + assertions(function@, end as int)));
                    }
                    self.test_assertion(name, condition.as_str(), message);
                    from = end;
                },
                None => {
                    assert(done =~= assertions(function@, 0));
                    return ;
                },
            }
        }
    }

    fn merge(&mut self, nested: HandlerResult)
        ensures
            final(self).model() == merged(old(self).model(), nested@),
            final(self).follows(old(self)),
    {
        let ghost n = nested@;
        let mut nested = nested;
        apply_global_changes(nested.globals.as_slice(), &mut self.globals);
        self.result.globals.append(&mut nested.globals);
        self.result.headers.append(&mut nested.headers);
        self.result.logs.append(&mut nested.logs);
        self.result.errors.append(&mut nested.errors);
        if nested.exited {
            self.result.exited = true;
        }
        assert(self.model() =~= merged(old(self).model(), n));
    }

    /// Runs a test.
    fn test(&mut self, line: &str, rest: &str)
        ensures
            final(self).model() == on_test(old(self).model(), line@, rest@, old(self).response()),
            final(self).follows(old(self)),
        decreases rest@.len(),
    {
        match parse_call_args(rest) {
            Some((name, function)) => match parse_string_literal(name.as_str()) {
                Some(name) => {
                    self.test_assertions(name.as_str(), function.as_str());
                    if let Some(script) = statements_of_test(function.as_str()) {
                        proof {
                            lemma_test_script(rest@);
                        }
                        let lines = lines_of(script.as_str());
                        let mut nested = Script {
                            result: HandlerResult::empty(),
                            globals: self.globals.clone(),
                            status: self.status,
                            headers: self.headers,
                            body: self.body,
                        };
                        assert(nested.model() =~= script_start(self.globals@));
                        nested.run(&lines);
                        self.merge(nested.result);
                    }
                },
                None => self.fail(
                    concat("first argument of client.test must be a string literal: ", line),
                ),
            },
            None => self.fail(concat("could not parse test: ", line)),
        }
    }

    /// Runs one statement.
    fn execute(&mut self, line: &str)
        ensures
            final(self).model() == executed(old(self).model(), line@, old(self).response()),
            final(self).follows(old(self)),
        decreases line@.len(),
    {
        if let Some(rest) = after_prefix(line, "client.global.set") {
            self.set(line, rest);
        } else if let Some(rest) = after_prefix(line, "client.global.clearAll") {
            self.clear_all(line, rest);
        } else if let Some(rest) = after_prefix(line, "client.global.clear") {
            self.clear(line, rest);
        } else if let Some(rest) = after_prefix(line, "client.global.headers.set") {
            self.set_header(line, rest);
        } else if same(line, "client.exit()") {
            self.result.exited = true;
        } else if let Some(rest) = after_prefix(line, "client.test") {
            proof {
                reveal_strlit("client.test");
            }
            self.test(line, rest);
        } else if let Some(rest) = after_prefix(line, "client.assert") {
            self.check_assertion(line, rest);
        } else if let Some(rest) = after_prefix(line, "client.log") {
            self.log_value(line, rest);
        }
    }

    /// Runs the statements on the given lines.
    fn run(&mut self, lines: &Vec<String>)
        ensures
            final(self).model() == run_lines(
                texts(lines@),
                0,
                old(self).model(),
                old(self).response(),
            ),
            final(self).follows(old(self)),
        decreases weight(texts(lines@), 0),
    {
        let ghost all = texts(lines@);
        let ghost response = self.response();
        let total: usize = lines.len();
        let mut i: usize = 0;
        while i < total && !self.result.exited
            invariant
                all == texts(lines@),
                total == lines@.len(),
                i <= total,
                weight(all, i as int) <= weight(all, 0),
                response == old(self).response(),
                self.follows(old(self)),
                run_lines(all, i as int, self.model(), response) == run_lines(
                    all,
                    0,
                    old(self).model(),
                    response,
                ),
            decreases total - i,
        {
            proof {
                lemma_statement(all, i as int);
            }
            let (last, line) = read_statement(lines, i);
            if !is_ignored_line(line.as_str()) {
                self.execute(line.as_str());
            }
            i = last + 1;
        }
    }
}

fn is_ignored_line(line: &str) -> (r: bool)
    ensures
        r == is_ignored(line@),
{
    is_empty_text(line) || has_prefix(line, "//") || has_prefix(line, "#")
}

fn read_statement(lines: &Vec<String>, i: usize) -> (r: (usize, String))
    requires
        i < lines@.len(),
    ensures
        (r.0 as int, r.1@) == statement(texts(lines@), i as int),
{
    let ghost all = texts(lines@);
    let total: usize = lines.len();
    let first = trim_of(lines[i].as_str());
    assert(first@ == trim(all[i as int]));
    let mut text = owned(first);
    let mut last: usize = i;
    if has_prefix(first, "client.test") {
        while last + 1 < total && !is_complete_statement(text.as_str())
            invariant
                all == texts(lines@),
                total == lines@.len(),
                i <= last < total,
                gathered(all, last as int, text@) == gathered(all, i as int, first@),
            decreases total - last,
        {
            last = last + 1;
            assert(all[last as int] == lines@[last as int]@);
            text.push('\n');
            text.append(trim_of(lines[last].as_str()));
        }
    }
    assert([';']@ =~= seq![';']);
    (last, owned(trim_of(drop_trailing_of(text.as_str(), &[';']))))
}

fn statements_of_test(function: &str) -> (r: Option<String>)
    ensures
        text_option(r) == test_script(function@),
{
    match extract_function_body(function) {
        None => None,
        Some(body) => {
            let lines = lines_of(body);
            let ghost all = texts(lines@);
            let mut kept: Vec<String> = Vec::new();
            assert(texts(kept@) =~= Seq::empty());
            for i in 0..lines.len()
                invariant
                    all == texts(lines@),
                    texts(kept@) == without_assertions(all.take(i as int)),
            {
                let line = lines[i].as_str();
                let ghost before = texts(kept@);
                assert(all.take(i + 1).drop_last() =~= all.take(i as int));
                assert(all.take(i + 1).last() == line@);
                if !has_prefix(trim_start_of(line), "client.assert") {
                    kept.push(owned(line));
                    assert(texts(kept@) =~= before.push(line@));
                }
            }
            assert(all.take(lines@.len() as int) =~= all);
            Some(join_of(&kept, "\n"))
        },
    }
}

/// Runs the response-handler subset against a response.
pub fn run_response_handler(
    script: &str,
    status: u16,
    headers: &[(String, String)],
    body: &[u8],
) -> (r: HandlerResult)
    ensures
        r@ == script_result(script@, response_model(status, headers@, body@), Seq::empty()),
{
    run_response_handler_with_globals(script, status, headers, body, &TextMap::new())
}

/// Runs a handler with the globals that existed before this script began.
pub fn run_response_handler_with_globals(
    script: &str,
    status: u16,
    headers: &[(String, String)],
    body: &[u8],
    globals: &TextMap<JsonValue>,
) -> (r: HandlerResult)
    ensures
        r@ == script_result(script@, response_model(status, headers@, body@), globals@),
{
    let lines = lines_of(script);
    let mut state = Script {
        result: HandlerResult::empty(),
        globals: globals.clone(),
        status,
        headers,
        body,
    };
    assert(state.model() =~= script_start(globals@));
    state.run(&lines);
    state.result
}

// ---------------------------------------------------------------------------
// What holds of every script
// ---------------------------------------------------------------------------

/// What a script sets, `client.global.get` gives back to what follows, and other
/// globals are not touched by it.
pub proof fn set_is_seen_by_get(
    st: ScriptModel,
    name: Seq<char>,
    value: Json,
    expr: Seq<char>,
    rest: Seq<char>,
    r: ResponseModel,
)
    requires
        strip_prefix(trim(expr), "client.global.get"@) == Some(rest),
        call_literal(rest) is Some,
    ensures
        value_with(expr, r, changed(st, ChangeModel::Assign(name, value)).globals) == (
        if call_literal(rest) == Some(name) {
            Ok::<Json, Seq<char>>(value)
        } else {
            value_with(expr, r, st.globals)
        }),
{
    lookup_after_put(st.globals, name, value, call_literal(rest)->0);
}

proof fn lemma_applied_all_splits(
    globals: Seq<(Seq<char>, Json)>,
    a: Seq<ChangeModel>,
    b: Seq<ChangeModel>,
)
    ensures
        applied_all(globals, a + b) == applied_all(applied_all(globals, a), b),
    decreases b.len(),
{
    if b.len() == 0 {
        assert(a + b =~= a);
    } else {
        assert((a + b).drop_last() =~= a + b.drop_last());
        lemma_applied_all_splits(globals, a, b.drop_last());
    }
}

/// The globals as a script sees them are those before it with the changes that
/// it has asked for.
pub open spec fn is_consistent(st: ScriptModel, before: Seq<(Seq<char>, Json)>) -> bool {
    st.globals == applied_all(before, st.result.globals)
}

/// Whether `b` asks for all that `a` asks for, in the same order, and maybe for
/// more.
pub open spec fn extends(a: ResultModel, b: ResultModel) -> bool {
    &&& a.globals.is_prefix_of(b.globals)
    &&& a.headers.is_prefix_of(b.headers)
    &&& a.logs.is_prefix_of(b.logs)
    &&& a.errors.is_prefix_of(b.errors)
    &&& a.exited ==> b.exited
}

/// Whether the step from `st` to `next` keeps the two consistent, and withdraws
/// nothing.
spec fn keeps(st: ScriptModel, next: ScriptModel, before: Seq<(Seq<char>, Json)>) -> bool {
    &&& is_consistent(st, before) ==> is_consistent(next, before)
    &&& extends(st.result, next.result)
}

proof fn lemma_steps_keep(st: ScriptModel, before: Seq<(Seq<char>, Json)>)
    ensures
        forall|error: Seq<char>| keeps(st, #[trigger] failed(st, error), before),
        forall|text: Seq<char>| keeps(st, #[trigger] logged(st, text), before),
        forall|change: HeaderChangeModel| keeps(st, #[trigger] header_changed(st, change), before),
        forall|change: ChangeModel| keeps(st, #[trigger] changed(st, change), before),
        keeps(st, st, before),
{
    assert forall|change: ChangeModel| keeps(st, #[trigger] changed(st, change), before) by {
        let changes = st.result.globals.push(change);
        assert(changes.drop_last() =~= st.result.globals);
    }
}

proof fn lemma_merge_keeps(
    st: ScriptModel,
    nested: ScriptModel,
    before: Seq<(Seq<char>, Json)>,
)
    requires
        is_consistent(nested, st.globals),
    ensures
        keeps(st, merged(st, nested.result), before),
{
    lemma_applied_all_splits(before, st.result.globals, nested.result.globals);
}

proof fn lemma_keeps_chains(
    a: ScriptModel,
    b: ScriptModel,
    c: ScriptModel,
    before: Seq<(Seq<char>, Json)>,
)
    requires
        keeps(a, b, before),
        keeps(b, c, before),
    ensures
        keeps(a, c, before),
{
}

proof fn lemma_assertions_keep(
    st: ScriptModel,
    name: Seq<char>,
    all: Seq<(Seq<char>, Option<Seq<char>>)>,
    r: ResponseModel,
    before: Seq<(Seq<char>, Json)>,
)
    ensures
        keeps(st, on_test_assertions(st, name, all, r), before),
    decreases all.len(),
{
    lemma_steps_keep(st, before);
    if all.len() > 0 {
        let last = on_test_assertions(st, name, all.drop_last(), r);
        lemma_assertions_keep(st, name, all.drop_last(), r, before);
        lemma_steps_keep(last, before);
        lemma_keeps_chains(st, last, on_test_assertions(st, name, all, r), before);
    }
}

proof fn lemma_test_keeps(
    st: ScriptModel,
    line: Seq<char>,
    rest: Seq<char>,
    r: ResponseModel,
    before: Seq<(Seq<char>, Json)>,
)
    ensures
        keeps(st, on_test(st, line, rest, r), before),
    decreases rest.len(),
{
    lemma_steps_keep(st, before);
    if let Some((name, function)) = call_args(rest) {
        if let Some(name) = string_literal(name) {
            let checked = on_test_assertions(st, name, assertions(function, 0), r);
            lemma_assertions_keep(st, name, assertions(function, 0), r, before);
            if let Some(script) = test_script(function) {
                lemma_test_script(rest);
                let start = script_start(checked.globals);
                lemma_run_keeps(lines(script), 0, start, r, checked.globals);
                let nested = run_lines(lines(script), 0, start, r);
                lemma_merge_keeps(checked, nested, before);
                lemma_keeps_chains(st, checked, merged(checked, nested.result), before);
            }
        }
    }
}

proof fn lemma_executed_keeps(
    st: ScriptModel,
    line: Seq<char>,
    r: ResponseModel,
    before: Seq<(Seq<char>, Json)>,
)
    ensures
        keeps(st, executed(st, line, r), before),
    decreases line.len(),
{
    lemma_steps_keep(st, before);
    if let Some(rest) = strip_prefix(line, "client.test"@) {
        reveal_strlit("client.test");
        lemma_test_keeps(st, line, rest, r, before);
    }
}

proof fn lemma_run_keeps(
    lines: Seq<Seq<char>>,
    i: int,
    st: ScriptModel,
    r: ResponseModel,
    before: Seq<(Seq<char>, Json)>,
)
    requires
        0 <= i,
    ensures
        keeps(st, run_lines(lines, i, st, r), before),
    decreases weight(lines, i),
{
    if !st.result.exited && i < lines.len() {
        let (last, line) = statement(lines, i);
        lemma_statement(lines, i);
        if is_ignored(line) {
            lemma_run_keeps(lines, last + 1, st, r, before);
        } else {
            let next = executed(st, line, r);
            lemma_executed_keeps(st, line, r, before);
            lemma_run_keeps(lines, last + 1, next, r, before);
            lemma_keeps_chains(st, next, run_lines(lines, last + 1, next, r), before);
        }
    }
}

/// A script sees the globals that its caller has after applying the changes that
/// the script asks for.
pub proof fn caller_sees_what_the_script_sees(
    script: Seq<char>,
    r: ResponseModel,
    globals: Seq<(Seq<char>, Json)>,
)
    ensures
        run_lines(lines(script), 0, script_start(globals), r).globals == applied_all(
            globals,
            script_result(script, r, globals).globals,
        ),
{
    lemma_run_keeps(lines(script), 0, script_start(globals), r, globals);
}

/// No statement withdraws what statements before it asked for, logged or
/// reported.
pub proof fn nothing_is_withdrawn(
    lines: Seq<Seq<char>>,
    i: int,
    st: ScriptModel,
    r: ResponseModel,
)
    requires
        0 <= i,
    ensures
        extends(st.result, run_lines(lines, i, st, r).result),
{
    lemma_run_keeps(lines, i, st, r, Seq::empty());
}

/// A test reports an error for each of its assertions that does not hold, and none
/// for one that holds. Its assertions change nothing else.
pub proof fn each_failed_assertion_is_reported(
    st: ScriptModel,
    name: Seq<char>,
    all: Seq<(Seq<char>, Option<Seq<char>>)>,
    r: ResponseModel,
)
    ensures
        ({
            let next = on_test_assertions(st, name, all, r);
            let failing = all.filter(
                |a: (Seq<char>, Option<Seq<char>>)|
                    condition_holds(a.0, r, st.globals) != Ok::<bool, Seq<char>>(true),
            );
            &&& next == (ScriptModel {
                result: ResultModel { errors: next.result.errors, ..st.result },
                ..st
            })
            &&& st.result.errors.is_prefix_of(next.result.errors)
            &&& next.result.errors.len() == st.result.errors.len() + failing.len()
            &&& failing.len() == 0 ==> next == st
        }),
    decreases all.len(),
{
    reveal(Seq::filter);
    if all.len() > 0 {
        each_failed_assertion_is_reported(st, name, all.drop_last(), r);
    }
}

/// `client.exit()` ends a script: what follows it does nothing.
pub proof fn exit_ends_a_script(lines: Seq<Seq<char>>, i: int, st: ScriptModel, r: ResponseModel)
    requires
        0 <= i < lines.len(),
        statement(lines, i).1 == "client.exit()"@,
    ensures
        run_lines(lines, i, st, r) == (ScriptModel {
            result: ResultModel { exited: true, ..st.result },
            ..st
        }),
{
    reveal_strlit("client.exit()");
    reveal_strlit("//");
    reveal_strlit("#");
    reveal_strlit("client.global.set");
    reveal_strlit("client.global.clearAll");
    reveal_strlit("client.global.clear");
    reveal_strlit("client.global.headers.set");
    let line = statement(lines, i).1;
    let last = statement(lines, i).0;
    lemma_statement(lines, i);
    if !st.result.exited {
        assert(!is_ignored(line)) by {
            if starts_with(line, "//"@) {
                assert(line.subrange(0, 2)[0] == '/');
            }
            if starts_with(line, "#"@) {
                assert(line.subrange(0, 1)[0] == '#');
            }
        }
        assert(executed(st, line, r).result.exited);
        assert(run_lines(lines, last + 1, executed(st, line, r), r) == executed(st, line, r));
    }
}

proof fn lemma_prefix_of_prefix(s: Seq<char>, p: Seq<char>, q: Seq<char>)
    requires
        starts_with(s, p),
        starts_with(p, q),
    ensures
        starts_with(s, q),
{
    assert(s.subrange(0, q.len() as int) =~= p.subrange(0, q.len() as int));
}

/// A statement that does not start with `client.` does nothing.
pub proof fn other_statements_do_nothing(st: ScriptModel, line: Seq<char>, r: ResponseModel)
    requires
        !starts_with(line, "client."@),
    ensures
        executed(st, line, r) == st,
{
    reveal_strlit("client.");
    reveal_strlit("client.global.set");
    reveal_strlit("client.global.clearAll");
    reveal_strlit("client.global.clear");
    reveal_strlit("client.global.headers.set");
    reveal_strlit("client.exit()");
    reveal_strlit("client.test");
    reveal_strlit("client.assert");
    reveal_strlit("client.log");
    let names = seq![
        "client.global.set"@,
        "client.global.clearAll"@,
        "client.global.clear"@,
        "client.global.headers.set"@,
        "client.exit()"@,
        "client.test"@,
        "client.assert"@,
        "client.log"@,
    ];
    assert forall|k: int| 0 <= k < names.len() implies !starts_with(line, #[trigger] names[k]) by {
        assert(names[k].subrange(0, 7) =~= "client."@);
        if starts_with(line, names[k]) {
            lemma_prefix_of_prefix(line, names[k], "client."@);
        }
    }
    assert(!starts_with(line, names[0]) && !starts_with(line, names[1]));
    assert(!starts_with(line, names[2]) && !starts_with(line, names[3]));
    assert(!starts_with(line, names[5]) && !starts_with(line, names[6]));
    assert(!starts_with(line, names[7]));
    assert(line != names[4]) by {
        if line == names[4] {
            assert(line.subrange(0, line.len() as int) =~= line);
            assert(starts_with(line, names[4]));
        }
    }
}

proof fn lemma_operator_alone(left: Seq<char>, operator: Seq<char>, right: Seq<char>)
    requires
        !left.contains('='),
        !right.contains('='),
        left.len() > 0 ==> left.last() != '!',
        operator == "==="@ || operator == "!=="@ || operator == "=="@ || operator == "!="@,
    ensures
        split_once(left + operator + right, operator) == Some((left, right)),
        operator != "==="@ ==> split_once(left + operator + right, "==="@) is None,
        operator == "=="@ || operator == "!="@ ==> split_once(
            left + operator + right,
            "!=="@,
        ) is None,
        operator == "!="@ ==> split_once(left + operator + right, "=="@) is None,
{
    reveal_strlit("===");
    reveal_strlit("!==");
    reveal_strlit("==");
    reveal_strlit("!=");
    let s = left + operator + right;
    let n = left.len() as int;
    assert forall|j: int| 0 <= j < s.len() && (j < n || j >= n + operator.len()) implies s[j]
        != '=' by {
        if j < n {
            assert(left.contains(left[j]));
        } else {
            assert(right.contains(right[j - n - operator.len()]));
        }
    }
    assert forall|pat: Seq<char>, j: int|
        (pat == "==="@ || pat == "!=="@ || pat == "=="@ || pat == "!="@) && #[trigger] matches_at(
            s,
            pat,
            j,
        ) implies s[j] == pat[0] && s[j + 1] == pat[1] && (pat.len() == 3 ==> s[j + 2]
        == pat[2]) by {
        assert(s.subrange(j, j + pat.len())[0] == s[j]);
        assert(s.subrange(j, j + pat.len())[1] == s[j + 1]);
        if pat.len() == 3 {
            assert(s.subrange(j, j + pat.len())[2] == s[j + 2]);
        }
    }
    assert forall|j: int| 0 <= j < n implies !matches_at(s, operator, j) by {
        if matches_at(s, operator, j) {
            assert(s[j + 1] == '=');
        }
    }
    split_finds(left, operator, right);
    split_parts_rejoin(s, "==="@);
    split_parts_rejoin(s, "!=="@);
    split_parts_rejoin(s, "=="@);
    if let Some((a, b)) = split_once(s, "==="@) {
        assert(s.subrange(a.len() as int, a.len() as int + 3) =~= "==="@);
        assert(matches_at(s, "==="@, a.len() as int));
    }
    if let Some((a, b)) = split_once(s, "!=="@) {
        assert(s.subrange(a.len() as int, a.len() as int + 3) =~= "!=="@);
        assert(matches_at(s, "!=="@, a.len() as int));
    }
    if let Some((a, b)) = split_once(s, "=="@) {
        assert(s.subrange(a.len() as int, a.len() as int + 2) =~= "=="@);
        assert(matches_at(s, "=="@, a.len() as int));
    }
}

/// Whether the two sides of a comparison are the same is what `===` and `==` say,
/// and what `!==` and `!=` deny. Two texts are the same only character by character.
pub proof fn comparison_compares_values(
    left: Seq<char>,
    right: Seq<char>,
    r: ResponseModel,
    globals: Seq<(Seq<char>, Json)>,
    a: Json,
    b: Json,
)
    requires
        !left.contains('='),
        !right.contains('='),
        left.len() > 0 ==> left.last() != '!',
        value_with(left, r, globals) == Ok::<Json, Seq<char>>(a),
        value_with(right, r, globals) == Ok::<Json, Seq<char>>(b),
    ensures
        ({
            let same = condition_holds(left + "==="@ + right, r, globals);
            &&& same is Ok
            &&& has_no_fraction(a) || has_no_fraction(b) ==> same == Ok::<bool, Seq<char>>(a == b)
            &&& a == b ==> same == Ok::<bool, Seq<char>>(true)
            &&& condition_holds(left + "=="@ + right, r, globals) == same
            &&& condition_holds(left + "!=="@ + right, r, globals) == Ok::<bool, Seq<char>>(
                !same->Ok_0,
            )
            &&& condition_holds(left + "!="@ + right, r, globals) == Ok::<bool, Seq<char>>(
                !same->Ok_0,
            )
        }),
{
    reveal_strlit("===");
    reveal_strlit("!==");
    reveal_strlit("==");
    reveal_strlit("!=");
    lemma_operator_alone(left, "==="@, right);
    lemma_operator_alone(left, "!=="@, right);
    lemma_operator_alone(left, "=="@, right);
    lemma_operator_alone(left, "!="@, right);
    assert("==="@ != "!=="@) by {
        assert("==="@[0] != "!=="@[0]);
    }
    assert("=="@.len() != "==="@.len());
    assert("=="@[0] != "!="@[0]);
    equal_values_are_the_same(a, b);
    equal_values_are_the_same(b, a);
    json_eq_is_symmetric(a, b);
}

/// A side that has no value is an error, and so is a condition that is neither a
/// comparison nor true or false.
pub proof fn condition_needs_values(
    left: Seq<char>,
    right: Seq<char>,
    r: ResponseModel,
    globals: Seq<(Seq<char>, Json)>,
)
    requires
        !left.contains('='),
        !right.contains('='),
        left.len() > 0 ==> left.last() != '!',
    ensures
        value_with(left, r, globals) matches Err(error) ==> condition_holds(
            left + "==="@ + right,
            r,
            globals,
        ) == Err::<bool, Seq<char>>(error) && condition_holds(left, r, globals) == Err::<
            bool,
            Seq<char>,
        >(error),
        value_with(left, r, globals) is Ok ==> (value_with(right, r, globals) matches Err(error)
            ==> condition_holds(left + "==="@ + right, r, globals) == Err::<bool, Seq<char>>(
            error,
        )),
        value_with(left, r, globals) matches Ok(Json::Bool(v)) ==> condition_holds(
            left,
            r,
            globals,
        ) == Ok::<bool, Seq<char>>(v),
        value_with(left, r, globals) matches Ok(v) ==> !(v is Bool) ==> condition_holds(
            left,
            r,
            globals,
        ) is Err,
{
    lemma_operator_alone(left, "==="@, right);
    lemma_no_operator(left);
}

proof fn lemma_no_operator(s: Seq<char>)
    requires
        !s.contains('='),
    ensures
        split_once(s, "==="@) is None,
        split_once(s, "!=="@) is None,
        split_once(s, "=="@) is None,
        split_once(s, "!="@) is None,
{
    reveal_strlit("===");
    reveal_strlit("!==");
    reveal_strlit("==");
    reveal_strlit("!=");
    split_parts_rejoin(s, "==="@);
    split_parts_rejoin(s, "!=="@);
    split_parts_rejoin(s, "=="@);
    split_parts_rejoin(s, "!="@);
    if let Some((a, b)) = split_once(s, "==="@) {
        assert(s[a.len() as int] == '=');
    }
    if let Some((a, b)) = split_once(s, "!=="@) {
        assert(s[a.len() as int + 1] == '=');
    }
    if let Some((a, b)) = split_once(s, "=="@) {
        assert(s[a.len() as int] == '=');
    }
    if let Some((a, b)) = split_once(s, "!="@) {
        assert(s[a.len() as int + 1] == '=');
    }
}

// ---------------------------------------------------------------------------
// What is written in a script happens
// ---------------------------------------------------------------------------

/// How many brackets are open behind a text, and the quote of the string literal that
/// is open there.
pub open spec fn open_behind(s: Seq<char>) -> (int, Option<char>)
    decreases s.len(),
{
    if s.len() == 0 {
        (0, None)
    } else {
        let (depth, quote) = open_behind(s.drop_last());
        let c = s.last();
        if quote is Some {
            (
                depth,
                if quote == Some(c) {
                    None
                } else {
                    quote
                },
            )
        } else if c == '"' || c == '\'' {
            (depth, Some(c))
        } else if c == '(' || c == '[' || c == '{' {
            (depth + 1, None)
        } else if c == ')' || c == ']' || c == '}' {
            (depth - 1, None)
        } else {
            (depth, None)
        }
    }
}

/// Whether a comma stands at position `k` outside of brackets and string literals.
pub open spec fn separates(s: Seq<char>, k: int) -> bool {
    0 <= k < s.len() && s[k] == ',' && open_behind(s.take(k)) == (0int, None::<char>)
}

/// Whether `s` can be an argument in front of another: what it opens it closes, and
/// all its commas stand in brackets or string literals.
pub open spec fn is_argument(s: Seq<char>) -> bool {
    open_behind(s) == (0int, None::<char>) && forall|k: int| !separates(s, k)
}

proof fn lemma_comma_from(s: Seq<char>, i: int)
    requires
        0 <= i <= s.len(),
    ensures
        match comma_at(s, i, open_behind(s.take(i)).0, open_behind(s.take(i)).1) {
            Some(k) => i <= k && separates(s, k) && forall|j: int| i <= j < k ==> !separates(s, j),
            None => forall|j: int| i <= j ==> !separates(s, j),
        },
    decreases s.len() - i,
{
    if i < s.len() {
        assert(s.take(i + 1).drop_last() =~= s.take(i));
        assert(s.take(i + 1).last() == s[i]);
        lemma_comma_from(s, i + 1);
    }
}

/// The arguments of a call are separated by the first comma outside of brackets and
/// string literals.
pub proof fn first_comma_separates(s: Seq<char>)
    ensures
        match comma_at(s, 0, 0, None) {
            Some(k) => separates(s, k) && forall|j: int| j < k ==> !separates(s, j),
            None => forall|j: int| !separates(s, j),
        },
{
    assert(s.take(0) =~= Seq::empty());
    lemma_comma_from(s, 0);
}

/// A call is read as its two arguments, without the white space around them; where
/// there is one, the second is empty.
pub proof fn call_is_split(a: Seq<char>, b: Seq<char>)
    requires
        is_argument(a),
    ensures
        call_args("("@ + a + ","@ + b + ")"@) == Some((trim(a), trim(b))),
        call_args("("@ + a + ")"@) == Some((trim(a), Seq::<char>::empty())),
{
    reveal_strlit("(");
    reveal_strlit(")");
    reveal_strlit(",");
    let inner = a + ","@ + b;
    let both = "("@ + a + ","@ + b + ")"@;
    let one = "("@ + a + ")"@;
    assert(both =~= "("@ + inner + ")"@);
    trimmed_text_is_kept(both);
    trimmed_text_is_kept(one);
    assert(both.subrange(0, 1) =~= "("@);
    assert(one.subrange(0, 1) =~= "("@);
    let n = both.skip(1).len() as int;
    let m = one.skip(1).len() as int;
    assert(both.skip(1).subrange(n - 1, n) =~= ")"@);
    assert(one.skip(1).subrange(m - 1, m) =~= ")"@);
    assert(both.skip(1).take(n - 1) =~= inner);
    assert(one.skip(1).take(m - 1) =~= a);
    first_comma_separates(inner);
    first_comma_separates(a);
    let k = a.len() as int;
    assert(inner.take(k) =~= a);
    assert(separates(inner, k));
    assert forall|j: int| 0 <= j < k implies !separates(inner, j) by {
        assert(inner.take(j) =~= a.take(j));
        assert(!separates(a, j));
    }
    if let Some(found) = comma_at(inner, 0, 0, None) {
        assert(separates(inner, found));
    }
    assert(comma_at(inner, 0, 0, None) == Some(k));
    assert(inner.skip(k + 1) =~= b);
}

/// A string literal as it is written.
pub open spec fn written_literal(text: Seq<char>) -> Seq<char> {
    "\""@ + text + "\""@
}

proof fn lemma_literal_open(text: Seq<char>, n: int)
    requires
        !text.contains('"'),
        0 <= n <= text.len(),
    ensures
        open_behind("\""@ + text.take(n)) == (0int, Some('"')),
    decreases n,
{
    reveal_strlit("\"");
    reveal_with_fuel(open_behind, 2);
    let s = "\""@ + text.take(n);
    if n == 0 {
        assert(s.drop_last() =~= Seq::empty());
        assert(s.last() == '"');
    } else {
        lemma_literal_open(text, n - 1);
        assert(s.drop_last() =~= "\""@ + text.take(n - 1));
        assert(s.last() == text[n - 1]);
        assert(text.contains(text[n - 1]));
    }
}

/// A string literal is one argument, whatever stands in it, and is read as its text.
pub proof fn literal_is_an_argument(text: Seq<char>)
    requires
        !text.contains('"'),
    ensures
        is_argument(written_literal(text)),
        trim(written_literal(text)) == written_literal(text),
        string_literal(written_literal(text)) == Some(text),
{
    reveal_strlit("\"");
    let s = written_literal(text);
    let n = text.len() as int;
    assert(text.take(n) =~= text);
    lemma_literal_open(text, n);
    assert(s.drop_last() =~= "\""@ + text);
    assert(s.last() == '"');
    assert forall|k: int| !separates(s, k) by {
        if 0 < k < s.len() {
            if k - 1 <= n {
                lemma_literal_open(text, k - 1);
                assert(s.take(k) =~= "\""@ + text.take(k - 1));
            }
        }
    }
    trimmed_text_is_kept(s);
    assert(s.subrange(0, 1) =~= "\""@);
    let rest = s.skip(1);
    assert(rest.subrange(n, n + 1) =~= "\""@);
    assert(rest.take(n) =~= text);
}

proof fn lemma_prefix_stands(pat: Seq<char>, rest: Seq<char>)
    ensures
        strip_prefix(pat + rest, pat) == Some(rest),
{
    assert((pat + rest).subrange(0, pat.len() as int) =~= pat);
    assert((pat + rest).skip(pat.len() as int) =~= rest);
}

proof fn lemma_differs_at(s: Seq<char>, pat: Seq<char>, n: int)
    requires
        0 <= n < pat.len(),
        n >= s.len() || s[n] != pat[n],
    ensures
        strip_prefix(s, pat) is None,
        s != pat,
{
    if starts_with(s, pat) {
        assert(s.subrange(0, pat.len() as int)[n] == s[n]);
    }
}

/// `client.global.set("name", expr)` asks for the global to have the value of the
/// expression, and what follows sees it. Where there is no value, that is an error.
pub proof fn set_assigns(st: ScriptModel, name: Seq<char>, expr: Seq<char>, r: ResponseModel)
    requires
        !name.contains('"'),
        is_trimmed(expr),
    ensures
        ({
            let line = "client.global.set"@ + ("("@ + written_literal(name) + ","@ + expr + ")"@);
            match value_with(expr, r, st.globals) {
                Ok(value) => executed(st, line, r) == (ScriptModel {
                    result: ResultModel {
                        globals: st.result.globals.push(ChangeModel::Assign(name, value)),
                        ..st.result
                    },
                    globals: put(st.globals, name, value),
                }),
                Err(error) => executed(st, line, r) == (ScriptModel {
                    result: ResultModel {
                        errors: st.result.errors.push(error + " in: "@ + line),
                        ..st.result
                    },
                    ..st
                }),
            }
        }),
{
    let rest = "("@ + written_literal(name) + ","@ + expr + ")"@;
    literal_is_an_argument(name);
    call_is_split(written_literal(name), expr);
    trimmed_text_is_kept(expr);
    lemma_prefix_stands("client.global.set"@, rest);
}

/// `client.global.clear("name")` asks for the global to be gone, and
/// `client.global.clearAll()` for all of them.
pub proof fn clear_removes(st: ScriptModel, name: Seq<char>, r: ResponseModel)
    requires
        !name.contains('"'),
    ensures
        executed(
            st,
            "client.global.clear"@ + ("("@ + written_literal(name) + ")"@),
            r,
        ) == (ScriptModel {
            result: ResultModel {
                globals: st.result.globals.push(ChangeModel::Clear(name)),
                ..st.result
            },
            globals: without(st.globals, name),
        }),
        executed(st, "client.global.clearAll"@ + "()"@, r) == (ScriptModel {
            result: ResultModel {
                globals: st.result.globals.push(ChangeModel::ClearAll),
                ..st.result
            },
            globals: Seq::empty(),
        }),
{
    reveal_strlit("client.global.set");
    reveal_strlit("client.global.clear");
    reveal_strlit("client.global.clearAll");
    reveal_strlit("(");
    reveal_strlit("()");
    let rest = "("@ + written_literal(name) + ")"@;
    let line = "client.global.clear"@ + rest;
    literal_is_an_argument(name);
    call_is_split(written_literal(name), Seq::empty());
    lemma_prefix_stands("client.global.clear"@, rest);
    assert(line[14] == 'c');
    lemma_differs_at(line, "client.global.set"@, 14);
    assert(line[19] == '(');
    lemma_differs_at(line, "client.global.clearAll"@, 19);
    let all = "client.global.clearAll"@ + "()"@;
    lemma_prefix_stands("client.global.clearAll"@, "()"@);
    lemma_differs_at(all, "client.global.set"@, 14);
    trimmed_text_is_kept("()"@);
}

/// `client.global.headers.set("Name", expr)` asks for the header with the text of the
/// value; null asks for it to be gone.
pub proof fn header_set_assigns(
    st: ScriptModel,
    name: Seq<char>,
    expr: Seq<char>,
    r: ResponseModel,
    value: Json,
)
    requires
        !name.contains('"'),
        is_trimmed(expr),
        value_with(expr, r, st.globals) == Ok::<Json, Seq<char>>(value),
    ensures
        executed(
            st,
            "client.global.headers.set"@ + ("("@ + written_literal(name) + ","@ + expr + ")"@),
            r,
        ) == (ScriptModel {
            result: ResultModel {
                headers: st.result.headers.push(
                    if value == Json::Null {
                        HeaderChangeModel::Clear(name)
                    } else {
                        HeaderChangeModel::Assign(
                            name,
                            match value {
                                Json::Text(text) => text,
                                _ => json_text(value),
                            },
                        )
                    },
                ),
                ..st.result
            },
            ..st
        }),
{
    reveal_strlit("client.global.set");
    reveal_strlit("client.global.clear");
    reveal_strlit("client.global.clearAll");
    reveal_strlit("client.global.headers.set");
    let rest = "("@ + written_literal(name) + ","@ + expr + ")"@;
    let line = "client.global.headers.set"@ + rest;
    literal_is_an_argument(name);
    call_is_split(written_literal(name), expr);
    trimmed_text_is_kept(expr);
    lemma_prefix_stands("client.global.headers.set"@, rest);
    assert(line[14] == 'h');
    lemma_differs_at(line, "client.global.set"@, 14);
    lemma_differs_at(line, "client.global.clearAll"@, 14);
    lemma_differs_at(line, "client.global.clear"@, 14);
}

proof fn lemma_no_global_statement(line: Seq<char>)
    requires
        line.len() > 7,
        line[7] != 'g',
        line[7] != 'e',
    ensures
        strip_prefix(line, "client.global.set"@) is None,
        strip_prefix(line, "client.global.clearAll"@) is None,
        strip_prefix(line, "client.global.clear"@) is None,
        strip_prefix(line, "client.global.headers.set"@) is None,
        line != "client.exit()"@,
        line[7] != 't' ==> strip_prefix(line, "client.test"@) is None,
        line[7] != 'a' ==> strip_prefix(line, "client.assert"@) is None,
{
    reveal_strlit("client.global.set");
    reveal_strlit("client.global.clear");
    reveal_strlit("client.global.clearAll");
    reveal_strlit("client.global.headers.set");
    reveal_strlit("client.exit()");
    reveal_strlit("client.test");
    reveal_strlit("client.assert");
    lemma_differs_at(line, "client.global.set"@, 7);
    lemma_differs_at(line, "client.global.clearAll"@, 7);
    lemma_differs_at(line, "client.global.clear"@, 7);
    lemma_differs_at(line, "client.global.headers.set"@, 7);
    lemma_differs_at(line, "client.exit()"@, 7);
    if line[7] != 't' {
        lemma_differs_at(line, "client.test"@, 7);
    }
    if line[7] != 'a' {
        lemma_differs_at(line, "client.assert"@, 7);
    }
}

/// `client.log(expr)` logs the text of the value, or reports that there is none.
pub proof fn log_shows(st: ScriptModel, expr: Seq<char>, r: ResponseModel)
    requires
        is_argument(expr),
        is_trimmed(expr),
    ensures
        ({
            let line = "client.log"@ + ("("@ + expr + ")"@);
            match value_with(expr, r, st.globals) {
                Ok(value) => executed(st, line, r) == (ScriptModel {
                    result: ResultModel {
                        logs: st.result.logs.push(
                            match value {
                                Json::Text(text) => text,
                                _ => json_text(value),
                            },
                        ),
                        ..st.result
                    },
                    ..st
                }),
                Err(error) => executed(st, line, r) == (ScriptModel {
                    result: ResultModel {
                        errors: st.result.errors.push(error + " in: "@ + line),
                        ..st.result
                    },
                    ..st
                }),
            }
        }),
{
    reveal_strlit("client.log");
    let rest = "("@ + expr + ")"@;
    let line = "client.log"@ + rest;
    call_is_split(expr, Seq::empty());
    trimmed_text_is_kept(expr);
    lemma_prefix_stands("client.log"@, rest);
    assert(line[7] == 'l');
    lemma_no_global_statement(line);
}

/// `client.assert(condition, "message")` reports its message where the condition does
/// not hold, and nothing where it holds.
pub proof fn assert_checks(
    st: ScriptModel,
    condition: Seq<char>,
    message: Seq<char>,
    r: ResponseModel,
)
    requires
        is_argument(condition),
        is_trimmed(condition),
        !message.contains('"'),
    ensures
        ({
            let with_message = "client.assert"@ + ("("@ + condition + ","@ + written_literal(
                message,
            ) + ")"@);
            let without_message = "client.assert"@ + ("("@ + condition + ")"@);
            match condition_holds(condition, r, st.globals) {
                Ok(true) => executed(st, with_message, r) == st && executed(st, without_message, r)
                    == st,
                Ok(false) => executed(st, with_message, r) == (ScriptModel {
                    result: ResultModel {
                        errors: st.result.errors.push(message),
                        ..st.result
                    },
                    ..st
                }) && executed(st, without_message, r) == (ScriptModel {
                    result: ResultModel {
                        errors: st.result.errors.push("assertion failed"@),
                        ..st.result
                    },
                    ..st
                }),
                Err(error) => executed(st, with_message, r) == (ScriptModel {
                    result: ResultModel { errors: st.result.errors.push(error), ..st.result },
                    ..st
                }),
            }
        }),
{
    reveal_strlit("client.assert");
    reveal_strlit("\"");
    reveal_strlit("'");
    let rest = "("@ + condition + ","@ + written_literal(message) + ")"@;
    let short = "("@ + condition + ")"@;
    literal_is_an_argument(message);
    call_is_split(condition, written_literal(message));
    trimmed_text_is_kept(condition);
    trimmed_text_is_kept(Seq::empty());
    lemma_prefix_stands("client.assert"@, rest);
    lemma_prefix_stands("client.assert"@, short);
    assert(("client.assert"@ + rest)[7] == 'a');
    assert(("client.assert"@ + short)[7] == 'a');
    lemma_no_global_statement("client.assert"@ + rest);
    lemma_no_global_statement("client.assert"@ + short);
    assert(string_literal(Seq::empty()) is None);
}

/// `client.global.get("name")` is the value of the global, or null where there is none;
/// `client.global.isEmpty()` says whether there is any.
pub proof fn globals_are_read(
    name: Seq<char>,
    r: ResponseModel,
    globals: Seq<(Seq<char>, Json)>,
)
    requires
        !name.contains('"'),
    ensures
        value_with(
            "client.global.get"@ + ("("@ + written_literal(name) + ")"@),
            r,
            globals,
        ) == Ok::<Json, Seq<char>>(
            match lookup(globals, name) {
                Some(value) => value,
                None => Json::Null,
            },
        ),
        value_with("client.global.isEmpty()"@, r, globals) == Ok::<Json, Seq<char>>(
            Json::Bool(globals.len() == 0),
        ),
{
    reveal_strlit("client.global.get");
    reveal_strlit("client.global.isEmpty()");
    reveal_strlit("(");
    reveal_strlit(")");
    let rest = "("@ + written_literal(name) + ")"@;
    let expr = "client.global.get"@ + rest;
    assert(expr[0] == 'c');
    assert(expr.last() == ')');
    trimmed_text_is_kept(expr);
    literal_is_an_argument(name);
    call_is_split(written_literal(name), Seq::empty());
    lemma_prefix_stands("client.global.get"@, rest);
    trimmed_text_is_kept("client.global.isEmpty()"@);
    lemma_differs_at("client.global.isEmpty()"@, "client.global.get"@, 14);
}

/// Statements are run one after the other, each of them, on what those before it have
/// left: to run a further line is to run the lines before it and then that line, unless
/// the script has ended by then.
pub proof fn statements_run_in_turn(
    all: Seq<Seq<char>>,
    i: int,
    line: Seq<char>,
    st: ScriptModel,
    r: ResponseModel,
)
    requires
        0 <= i <= all.len(),
        forall|k: int|
            0 <= k < all.len() ==> !starts_with(trim(#[trigger] all[k]), "client.test"@),
        !starts_with(trim(line), "client.test"@),
    ensures
        ({
            let before = run_lines(all, i, st, r);
            let text = trim(drop_trailing(trim(line), seq![';']));
            run_lines(all.push(line), i, st, r) == if before.result.exited || text.len() == 0
                || starts_with(text, "//"@) || starts_with(text, "#"@) {
                before
            } else {
                executed(before, text, r)
            }
        }),
    decreases all.len() - i,
{
    let more = all.push(line);
    if st.result.exited {
    } else if i < all.len() {
        assert(more[i] == all[i]);
        assert(statement(more, i) == statement(all, i));
        let (last, text) = statement(all, i);
        let next = if is_ignored(text) {
            st
        } else {
            executed(st, text, r)
        };
        lemma_statement(all, i);
        lemma_statement(more, i);
        statements_run_in_turn(all, i + 1, line, next, r);
    } else {
        assert(more[i] == line);
        lemma_statement(more, i);
        let text = statement(more, i).1;
        let next = if is_ignored(text) {
            st
        } else {
            executed(st, text, r)
        };
        assert(run_lines(more, i + 1, next, r) == next);
    }
}

/// A script is the lines that it is written on, run from the start with nothing asked
/// for yet.
pub proof fn script_is_its_lines(
    all: Seq<Seq<char>>,
    r: ResponseModel,
    globals: Seq<(Seq<char>, Json)>,
)
    requires
        forall|k: int| 0 <= k < all.len() ==> is_line(#[trigger] all[k]),
    ensures
        script_result(as_lines(all), r, globals) == run_lines(
            all,
            0,
            (ScriptModel {
                result: ResultModel {
                    globals: Seq::empty(),
                    headers: Seq::empty(),
                    logs: Seq::empty(),
                    errors: Seq::empty(),
                    exited: false,
                },
                globals,
            }),
            r,
        ).result,
        run_lines(
            Seq::empty(),
            0,
            script_start(globals),
            r,
        ).result == empty_result(),
{
    lines_read_back(all);
}

/// How many brackets are open behind a text, the quote of the string literal that is open
/// there, and whether a backslash in it stands last.
pub open spec fn code_behind(s: Seq<char>) -> (int, Option<char>, bool)
    decreases s.len(),
{
    if s.len() == 0 {
        (0, None, false)
    } else {
        let (depth, quote, escaped) = code_behind(s.drop_last());
        let c = s.last();
        if quote is Some {
            (
                depth,
                if quote == Some(c) && !escaped {
                    None
                } else {
                    quote
                },
                c == '\\' && !escaped,
            )
        } else if c == '"' || c == '\'' {
            (depth, Some(c), false)
        } else if c == '(' || c == '[' || c == '{' {
            (depth + 1, None, false)
        } else if c == ')' || c == ']' || c == '}' {
            (depth - 1, None, false)
        } else {
            (depth, None, false)
        }
    }
}

/// Whether the bracket at position `k` closes the first one of `s`.
pub open spec fn closes(s: Seq<char>, k: int) -> bool {
    &&& 0 <= k < s.len()
    &&& s[k] == ')' || s[k] == ']' || s[k] == '}'
    &&& code_behind(s.take(k)).0 <= 1
    &&& code_behind(s.take(k)).1 is None
}

proof fn lemma_closing_from(s: Seq<char>, i: int)
    requires
        0 <= i <= s.len(),
    ensures
        ({
            let (depth, quote, escaped) = code_behind(s.take(i));
            match closing_at(s, i, depth, quote, escaped) {
                Some(k) => i <= k && closes(s, k) && forall|j: int| i <= j < k ==> !closes(s, j),
                None => forall|j: int| i <= j ==> !closes(s, j),
            }
        }),
    decreases s.len() - i,
{
    if i < s.len() {
        assert(s.take(i + 1).drop_last() =~= s.take(i));
        assert(s.take(i + 1).last() == s[i]);
        lemma_closing_from(s, i + 1);
    }
}

/// The arguments of an assertion end at the first bracket that closes the one that opens
/// them; brackets in string literals close nothing.
pub proof fn first_closing_counts(s: Seq<char>)
    ensures
        match closing_at(s, 0, 0, None, false) {
            Some(k) => closes(s, k) && forall|j: int| j < k ==> !closes(s, j),
            None => forall|j: int| !closes(s, j),
        },
{
    assert(s.take(0) =~= Seq::empty());
    lemma_closing_from(s, 0);
}

/// Whether nothing in `s` opens a string literal or a comment.
pub open spec fn is_bare_code(s: Seq<char>) -> bool {
    !s.contains('"') && !s.contains('\'') && !s.contains('/') && !s.contains('#')
}

proof fn lemma_bare_code_passed(s: Seq<char>, i: int, n: int)
    requires
        0 <= i <= n <= s.len(),
        forall|k: int|
            i <= k < n ==> #[trigger] s[k] != '"' && s[k] != '\'' && s[k] != '/' && s[k] != '#',
        forall|k: int| i <= k < n ==> !matches_at(s, "client.assert"@, k),
    ensures
        next_assertion(s, i, Place::Code) == next_assertion(s, n, Place::Code),
    decreases n - i,
{
    if i < n {
        assert(s[i] != '"' && s[i] != '\'' && s[i] != '/' && s[i] != '#');
        assert(!matches_at(s, "client.assert"@, i));
        lemma_bare_code_passed(s, i + 1, n);
    }
}

/// An assertion is found in the code of a test wherever it stands, with its condition and
/// its message, and the search goes on behind its closing bracket.
pub proof fn assertions_are_found(before: Seq<char>, args: Seq<char>, behind: Seq<char>)
    requires
        is_bare_code(before),
        forall|k: int|
            0 <= k < before.len() ==> !matches_at(
                before + "client.assert"@ + ("("@ + args + ")"@) + behind,
                "client.assert"@,
                k,
            ),
        code_behind("("@ + args).0 == 1,
        code_behind("("@ + args).1 is None,
        forall|k: int| !closes("("@ + args, k),
        call_args("("@ + args + ")"@) is Some,
    ensures
        ({
            let s = before + "client.assert"@ + ("("@ + args + ")"@) + behind;
            let (condition, message) = call_args("("@ + args + ")"@)->0;
            assertions(s, 0) == seq![(condition, string_literal(message))] + assertions(
                s,
                s.len() - behind.len(),
            )
        }),
{
    reveal_strlit("client.assert");
    reveal_strlit("(");
    reveal_strlit(")");
    let call = "("@ + args + ")"@;
    let s = before + "client.assert"@ + call + behind;
    let n = before.len() as int;
    assert forall|k: int| 0 <= k < n implies #[trigger] s[k] != '"' && s[k] != '\'' && s[k] != '/'
        && s[k] != '#' by {
        assert(s[k] == before[k]);
        assert(before.contains(before[k]));
    }
    lemma_bare_code_passed(s, 0, n);
    assert(s.subrange(n, n + 13) =~= "client.assert"@);
    assert(s.skip(n + 13) =~= call + behind);
    let rest = call + behind;
    assert(rest[0] == '(');
    assert(Seq::<char>::empty() + rest =~= rest);
    trim_start_finds(Seq::empty(), rest);
    first_closing_counts(rest);
    let end = args.len() as int + 1;
    assert(rest.take(end) =~= "("@ + args);
    assert(rest[end] == ')');
    assert(closes(rest, end));
    assert forall|k: int| 0 <= k < end implies !closes(rest, k) by {
        assert(rest.take(k) =~= ("("@ + args).take(k));
        assert(rest[k] == ("("@ + args)[k]);
        assert(!closes("("@ + args, k));
    }
    if let Some(k) = closing_at(rest, 0, 0, None, false) {
        assert(closes(rest, k));
    }
    assert(closing_at(rest, 0, 0, None, false) == Some(end));
    assert(rest.take(end + 1) =~= call);
}

/// A text in which `client.assert` stands nowhere holds no assertion.
pub proof fn no_assertion_without_its_name(s: Seq<char>, i: int, place: Place)
    requires
        0 <= i,
        forall|k: int| !matches_at(s, "client.assert"@, k),
    ensures
        next_assertion(s, i, place) is None,
        assertions(s, i).len() == 0,
    decreases s.len() - i,
{
    if i < s.len() {
        assert(!matches_at(s, "client.assert"@, i));
        let (next, there) = place_behind(s, i, place);
        no_assertion_without_its_name(s, next, there);
        let (code, inside) = place_behind(s, i, Place::Code);
        no_assertion_without_its_name(s, code, inside);
    }
}

proof fn lemma_inside_passed(s: Seq<char>, i: int, n: int, place: Place)
    requires
        0 <= i <= n <= s.len(),
        place == Place::LineComment && (forall|k: int| i <= k < n ==> #[trigger] s[k] != '\n')
            || place == Place::BlockComment && (forall|k: int|
            i <= k < n ==> #[trigger] s[k] != '*') || place == Place::Literal('"', false) && (
        forall|k: int|
            i <= k < n ==> #[trigger] s[k] != '"' && s[k] != '\\' && s[k] != '\n'),
    ensures
        next_assertion(s, i, place) == next_assertion(s, n, place),
    decreases n - i,
{
    if i < n {
        let c = s[i];
        lemma_inside_passed(s, i + 1, n, place);
    }
}

/// What stands in a string literal or in a comment is no assertion: the search goes on
/// behind it.
pub proof fn literals_and_comments_are_passed(text: Seq<char>, behind: Seq<char>)
    requires
        !text.contains('"'),
        !text.contains('\\'),
        !text.contains('\n'),
        !text.contains('*'),
    ensures
        ({
            let literal = "\""@ + text + "\""@;
            let line = "//"@ + text + "\n"@;
            let block = "/*"@ + text + "*/"@;
            &&& assertions(literal + behind, 0) == assertions(
                literal + behind,
                literal.len() as int,
            )
            &&& assertions(line + behind, 0) == assertions(line + behind, line.len() as int)
            &&& assertions(block + behind, 0) == assertions(block + behind, block.len() as int)
        }),
{
    reveal_strlit("\"");
    reveal_strlit("//");
    reveal_strlit("\n");
    reveal_strlit("/*");
    reveal_strlit("*/");
    reveal_strlit("client.assert");
    let n = text.len() as int;
    assert forall|k: int| 0 <= k < n implies #[trigger] text[k] != '"' && text[k] != '\\'
        && text[k] != '\n' && text[k] != '*' by {
        assert(text.contains(text[k]));
    }
    let literal = "\""@ + text + "\""@ + behind;
    assert forall|k: int| 1 <= k < n + 1 implies #[trigger] literal[k] != '"' && literal[k] != '\\'
        && literal[k] != '\n' by {
        assert(literal[k] == text[k - 1]);
    }
    assert(literal[0] == '"' && literal[n + 1] == '"');
    lemma_not_there(literal, 0);
    lemma_inside_passed(literal, 1, n + 1, Place::Literal('"', false));
    let line = "//"@ + text + "\n"@ + behind;
    assert forall|k: int| 2 <= k < n + 2 implies #[trigger] line[k] != '\n' by {
        assert(line[k] == text[k - 2]);
    }
    assert(line[0] == '/' && line[1] == '/' && line[n + 2] == '\n');
    lemma_not_there(line, 0);
    lemma_inside_passed(line, 2, n + 2, Place::LineComment);
    let block = "/*"@ + text + "*/"@ + behind;
    assert forall|k: int| 2 <= k < n + 2 implies #[trigger] block[k] != '*' by {
        assert(block[k] == text[k - 2]);
    }
    assert(block[0] == '/' && block[1] == '*' && block[n + 2] == '*' && block[n + 3] == '/');
    lemma_not_there(block, 0);
    lemma_inside_passed(block, 2, n + 2, Place::BlockComment);
    reveal_with_fuel(next_assertion, 2);
}

proof fn lemma_not_there(s: Seq<char>, i: int)
    requires
        0 <= i < s.len(),
        s[i] != 'c',
    ensures
        !matches_at(s, "client.assert"@, i),
{
    reveal_strlit("client.assert");
    if matches_at(s, "client.assert"@, i) {
        assert(s.subrange(i, i + 13)[0] == s[i]);
    }
}

/// The lines of a test that do not start with an assertion are its other statements, all
/// of them and in order.
pub proof fn other_lines_are_kept(a: Seq<Seq<char>>, b: Seq<Seq<char>>, line: Seq<char>)
    ensures
        without_assertions(a + b) == without_assertions(a) + without_assertions(b),
        without_assertions(seq![line]) == if starts_with(trim_start(line), "client.assert"@) {
            Seq::empty()
        } else {
            seq![line]
        },
    decreases b.len(),
{
    reveal_with_fuel(without_assertions, 2);
    assert(seq![line].drop_last() =~= Seq::empty());
    assert(Seq::<Seq<char>>::empty().push(line) =~= seq![line]);
    if b.len() == 0 {
        assert(a + b =~= a);
        assert(without_assertions(a) + without_assertions(b) =~= without_assertions(a));
    } else {
        assert((a + b).drop_last() =~= a + b.drop_last());
        other_lines_are_kept(a, b.drop_last(), line);
        assert(without_assertions(a + b) =~= without_assertions(a) + without_assertions(b));
    }
}

/// What stands between the first `{` and the last `}` is the body of a function.
pub proof fn body_is_between_braces(head: Seq<char>, body: Seq<char>, tail: Seq<char>)
    requires
        !head.contains('{'),
        !tail.contains('}'),
    ensures
        function_body(head + "{"@ + body + "}"@ + tail) == Some(body),
{
    reveal_strlit("{");
    reveal_strlit("}");
    assert("{"@ =~= seq!['{']);
    let rest = body + "}"@ + tail;
    let s = head + "{"@ + body + "}"@ + tail;
    assert(s =~= head + seq!['{'] + rest);
    split_finds_character(head, '{', rest);
    let start = head.len() as int;
    let end = start + 1 + body.len();
    rfind_is_last(s, "}"@);
    assert(s.subrange(end, end + 1) =~= "}"@);
    assert(matches_at(s, "}"@, end));
    if let Some(k) = rfind(s, "}"@) {
        if k > end {
            assert(s.subrange(k, k + 1)[0] == tail[k - end - 1]);
            assert(tail.contains(tail[k - end - 1]));
        }
    }
    assert(rfind(s, "}"@) == Some(end));
    assert(s.subrange(start + 1, end) =~= body);
}

/// `client.test("name", function)` checks the assertions of the function, and then runs
/// its other statements as a script that sees the same globals. What that asks for is
/// asked for by the test, behind what was asked for before, all of it and in order.
pub proof fn test_runs_its_statements(
    st: ScriptModel,
    name: Seq<char>,
    head: Seq<char>,
    body: Seq<char>,
    r: ResponseModel,
)
    requires
        !name.contains('"'),
        !head.contains('{'),
        head.len() > 0,
        !is_space(head[0]),
    ensures
        ({
            let function = head + "{"@ + body + "}"@ + Seq::empty();
            let line = "client.test"@ + ("("@ + written_literal(name) + ","@ + function + ")"@);
            let checked = on_test_assertions(st, name, assertions(function, 0), r);
            let nested = script_result(
                join(without_assertions(lines(body)), "\n"@),
                r,
                checked.globals,
            );
            let next = executed(st, line, r);
            &&& next.result.logs == checked.result.logs + nested.logs
            &&& next.result.errors == checked.result.errors + nested.errors
            &&& next.result.headers == checked.result.headers + nested.headers
            &&& next.result.globals == checked.result.globals + nested.globals
            &&& next.result.exited == (checked.result.exited || nested.exited)
            &&& next.globals == applied_all(checked.globals, nested.globals)
        }),
{
    reveal_strlit("client.test");
    reveal_strlit("}");
    let none = Seq::<char>::empty();
    let function = head + "{"@ + body + "}"@ + none;
    let rest = "("@ + written_literal(name) + ","@ + function + ")"@;
    let line = "client.test"@ + rest;
    literal_is_an_argument(name);
    call_is_split(written_literal(name), function);
    assert(function[0] == head[0]);
    assert(function.last() == '}');
    trimmed_text_is_kept(function);
    body_is_between_braces(head, body, none);
    lemma_prefix_stands("client.test"@, rest);
    assert(line[7] == 't');
    lemma_no_global_statement(line);
}

/// The error of a failed assertion names the test, and behind that gives the message of
/// the assertion, or what kept the condition from having a value.
pub proof fn failed_assertion_names_its_test(
    st: ScriptModel,
    name: Seq<char>,
    condition: Seq<char>,
    message: Seq<char>,
    r: ResponseModel,
)
    ensures
        condition_holds(condition, r, st.globals) == Ok::<bool, Seq<char>>(false)
            ==> on_test_assertion(st, name, (condition, Some(message)), r).result.errors
            == st.result.errors.push("test `"@ + name + "` failed: "@ + message)
            && on_test_assertion(st, name, (condition, None), r).result.errors
            == st.result.errors.push("test `"@ + name + "` failed"@),
        condition_holds(condition, r, st.globals) matches Err(error) ==> on_test_assertion(
            st,
            name,
            (condition, Some(message)),
            r,
        ).result.errors == st.result.errors.push("test `"@ + name + "` failed: "@ + error),
{
    reveal_strlit("` failed");
    reveal_strlit("` failed: ");
    reveal_strlit(": ");
    assert("test `"@ + name + "` failed"@ + (": "@ + message) =~= "test `"@ + name + "` failed: "@
        + message);
    assert("test `"@ + name + "` failed"@ + Seq::<char>::empty() =~= "test `"@ + name
        + "` failed"@);
}

/// A test may take several lines: they are gathered, without the white space around
/// them, up to the first with which all that is open is closed. Any other statement
/// takes one line. A semicolon at the end is not part of a statement.
pub proof fn tests_take_several_lines(
    all: Seq<Seq<char>>,
    i: int,
    texts: Seq<Seq<char>>,
)
    requires
        0 <= i,
        texts.len() > 0,
        i + texts.len() <= all.len(),
        texts[0] == trim(all[i]),
        forall|k: int|
            0 < k < texts.len() ==> #[trigger] texts[k] == texts[k - 1].push('\n') + trim(
                all[i + k],
            ),
        forall|k: int| 0 <= k < texts.len() - 1 ==> !is_complete(#[trigger] texts[k]),
        is_complete(texts.last()),
    ensures
        starts_with(trim(all[i]), "client.test"@) ==> statement(all, i) == (
            i + texts.len() - 1,
            trim(drop_trailing(texts.last(), seq![';'])),
        ),
        !starts_with(trim(all[i]), "client.test"@) ==> statement(all, i) == (
            i,
            trim(drop_trailing(trim(all[i]), seq![';'])),
        ),
{
    lemma_gathered_texts(all, i, texts, 0);
}

proof fn lemma_gathered_texts(
    all: Seq<Seq<char>>,
    i: int,
    texts: Seq<Seq<char>>,
    k: int,
)
    requires
        0 <= i,
        0 <= k < texts.len(),
        i + texts.len() <= all.len(),
        forall|k: int|
            0 < k < texts.len() ==> #[trigger] texts[k] == texts[k - 1].push('\n') + trim(
                all[i + k],
            ),
        forall|k: int| 0 <= k < texts.len() - 1 ==> !is_complete(#[trigger] texts[k]),
        is_complete(texts.last()),
    ensures
        gathered(all, i + k, texts[k]) == (i + texts.len() - 1, texts.last()),
    decreases texts.len() - k,
{
    if k < texts.len() - 1 {
        assert(!is_complete(texts[k]));
        assert(texts[k + 1] == texts[k].push('\n') + trim(all[i + k + 1]));
        lemma_gathered_texts(all, i, texts, k + 1);
    }
}

proof fn lemma_balance_shift(a: Seq<char>, b: Seq<char>)
    requires
        balance(a).quote is None,
        !balance(a).escaped,
    ensures
        balance(a + b) == (Balance {
            parens: balance(a).parens + balance(b).parens,
            braces: balance(a).braces + balance(b).braces,
            ..balance(b)
        }),
    decreases b.len(),
{
    if b.len() == 0 {
        assert(a + b =~= a);
    } else {
        assert((a + b).drop_last() =~= a + b.drop_last());
        lemma_balance_shift(a, b.drop_last());
    }
}

proof fn lemma_not_escaped(s: Seq<char>)
    ensures
        balance(s).quote is None ==> !balance(s).escaped,
    decreases s.len(),
{
    if s.len() > 0 {
        lemma_not_escaped(s.drop_last());
    }
}

/// Whether a statement is complete goes by its brackets: complete texts may follow each
/// other and stand in brackets, and an open bracket leaves a text incomplete.
pub proof fn brackets_are_balanced(a: Seq<char>, b: Seq<char>)
    requires
        is_complete(a),
        is_complete(b),
    ensures
        is_complete(a + b),
        is_complete("("@ + a + ")"@),
        is_complete("{"@ + a + "}"@),
        !is_complete("("@ + a),
        !is_complete("{"@ + a),
        !is_complete(a + ")"@),
        !is_complete(a + "}"@),
        is_complete(Seq::empty()),
{
    reveal_strlit("(");
    reveal_strlit(")");
    reveal_strlit("{");
    reveal_strlit("}");
    reveal_with_fuel(balance, 2);
    lemma_not_escaped(a);
    lemma_not_escaped(b);
    assert("("@.drop_last() =~= Seq::empty());
    assert(")"@.drop_last() =~= Seq::empty());
    assert("{"@.drop_last() =~= Seq::empty());
    assert("}"@.drop_last() =~= Seq::empty());
    lemma_balance_shift(a, b);
    lemma_balance_shift("("@, a);
    lemma_balance_shift("{"@, a);
    lemma_balance_shift("("@ + a, ")"@);
    lemma_balance_shift("{"@ + a, "}"@);
    lemma_balance_shift(a, ")"@);
    lemma_balance_shift(a, "}"@);
}

/// Changes of the globals are applied one after the other, each of them.
pub proof fn changes_are_applied_in_turn(
    globals: Seq<(Seq<char>, Json)>,
    changes: Seq<ChangeModel>,
    name: Seq<char>,
    value: Json,
    q: Seq<char>,
)
    requires
        sorted(applied_all(globals, changes)),
    ensures
        applied_all(globals, Seq::empty()) == globals,
        lookup(applied_all(globals, changes.push(ChangeModel::Assign(name, value))), q) == if q
            == name {
            Some(value)
        } else {
            lookup(applied_all(globals, changes), q)
        },
        lookup(applied_all(globals, changes.push(ChangeModel::Clear(name))), q) == if q == name {
            None
        } else {
            lookup(applied_all(globals, changes), q)
        },
        applied_all(globals, changes.push(ChangeModel::ClearAll)).len() == 0,
{
    assert(changes.push(ChangeModel::Assign(name, value)).drop_last() =~= changes);
    assert(changes.push(ChangeModel::Clear(name)).drop_last() =~= changes);
    assert(changes.push(ChangeModel::ClearAll).drop_last() =~= changes);
    lookup_after_put(applied_all(globals, changes), name, value, q);
    lookup_after_removal(applied_all(globals, changes), name, q);
}

/// Quotes of either kind make a literal, and what has none is not one.
pub proof fn either_quotes_make_a_literal(text: Seq<char>, other: Seq<char>)
    requires
        is_trimmed(other),
        other.len() > 0,
        other[0] != '"' && other[0] != '\'',
    ensures
        string_literal("\""@ + text + "\""@) == Some(text),
        string_literal("'"@ + text + "'"@) == Some(text),
        string_literal(other) is None,
{
    reveal_strlit("\"");
    reveal_strlit("'");
    let double = "\""@ + text + "\""@;
    let single = "'"@ + text + "'"@;
    assert(double[0] == '"' && double.last() == '"');
    assert(single[0] == '\'' && single.last() == '\'');
    trimmed_text_is_kept(double);
    trimmed_text_is_kept(single);
    trimmed_text_is_kept(other);
    assert(double =~= "\""@ + (text + "\""@));
    assert(single =~= "'"@ + (text + "'"@));
    ends_are_taken_off("\""@, text + "\""@, other, "\""@);
    ends_are_taken_off(text, "\""@, other, "'"@);
    ends_are_taken_off("'"@, text + "'"@, single, "\""@);
    ends_are_taken_off(text, "'"@, other, "'"@);
    if starts_with(single, "\""@) {
        assert(single.subrange(0, 1)[0] == single[0]);
    }
    if starts_with(other, "\""@) {
        assert(other.subrange(0, 1)[0] == other[0]);
    }
    if starts_with(other, "'"@) {
        assert(other.subrange(0, 1)[0] == other[0]);
    }
}

/// An expression that does not ask for a global is read from the response.
pub proof fn other_expressions_read_the_response(
    expr: Seq<char>,
    r: ResponseModel,
    globals: Seq<(Seq<char>, Json)>,
)
    requires
        trim(expr).len() > 0 ==> trim(expr)[0] != 'c',
    ensures
        value_with(expr, r, globals) == value_of(expr, r),
{
    reveal_strlit("client.global.get");
    reveal_strlit("client.global.isEmpty()");
    let t = trim(expr);
    if starts_with(t, "client.global.get"@) {
        assert(t.subrange(0, 17)[0] == t[0]);
    }
    assert("client.global.isEmpty()"@[0] == 'c');
}

} // verus!
