//! The expressions of response-handler scripts.
//!
//! Supported expressions: `response.status`, `response.body`,
//! `response.body.json()`, `response.headers.valueOf("Name")`,
//! `response.headers.valuesOf("Name")`, string/number/boolean/null literals
//! and property / index access chains (`.prop`, `[0]`, `['key']`).

use vstd::prelude::*;
use crate::decimal::all_digits;
use crate::decimal::decimal;
use crate::decimal::decimal_reads_back;
use crate::decimal::read_unsigned;
use crate::decimal::read_usize;
use crate::json::Json;
use crate::json::JsonValue;
use crate::json::Num;
use crate::json::Number;
use crate::json::json_parse_bytes;
use crate::json::jsons;
use crate::json::lemma_json_of;
use crate::json::number_parse;
use crate::json::parse_json_bytes;
use crate::json::parse_number;
use crate::map::TextMap;
use crate::map::lookup;
use crate::map::lookup_after_put;
use crate::map::put;
use crate::text::char_is_digit;
use crate::text::char_is_word;
use crate::text::chars_of;
use crate::text::concat3;
use crate::text::concat;
use crate::text::is_alphanumeric;
use crate::text::is_digit;
use crate::text::lossy_text;
use crate::text::lossy_text_of;
use crate::text::lowercase;
use crate::text::owned;
use crate::text::same;
use crate::text::text_of;
use crate::text::text_pairs;
use crate::text::to_lowercase;

verus! {

broadcast use lemma_json_of;

// ---------------------------------------------------------------------------
// Tokens
// ---------------------------------------------------------------------------

/// A token of an expression.
#[derive(Debug, PartialEq)]
pub enum Token {
    Ident(String),
    Str(String),
    Num(String),
    Punct(char),
}

/// A token.
pub ghost enum TokenModel {
    Ident(Seq<char>),
    Str(Seq<char>),
    Num(Seq<char>),
    Punct(char),
}

impl View for Token {
    type V = TokenModel;

    open spec fn view(&self) -> TokenModel {
        match self {
            Token::Ident(s) => TokenModel::Ident(s@),
            Token::Str(s) => TokenModel::Str(s@),
            Token::Num(s) => TokenModel::Num(s@),
            Token::Punct(c) => TokenModel::Punct(*c),
        }
    }
}

pub open spec fn token_models(v: Seq<Token>) -> Seq<TokenModel> {
    Seq::new(v.len(), |i: int| v[i]@)
}

pub open spec fn is_punct(c: char) -> bool {
    c == '.' || c == '[' || c == ']' || c == '(' || c == ')'
}

/// The rest of a string literal from position `i` on, up to `quote`: the
/// position behind it, and its text. A backslash stands for the character that
/// follows it.
pub open spec fn string_rest(s: Seq<char>, i: int, quote: char, text: Seq<char>) -> Option<
    (int, Seq<char>),
>
    decreases s.len() - i,
{
    if i < 0 || i >= s.len() {
        None
    } else if s[i] == '\\' {
        if i + 1 < s.len() {
            string_rest(s, i + 2, quote, text.push(s[i + 1]))
        } else {
            None
        }
    } else if s[i] == quote {
        Some((i + 1, text))
    } else {
        string_rest(s, i + 1, quote, text.push(s[i]))
    }
}

/// The position behind the digits and points from position `i` on.
pub open spec fn number_end(s: Seq<char>, i: int) -> int
    decreases s.len() - i,
{
    if 0 <= i < s.len() && (is_digit(s[i]) || s[i] == '.') {
        number_end(s, i + 1)
    } else {
        i
    }
}

/// The position behind the letters, digits and underscores from position `i` on.
pub open spec fn ident_end(s: Seq<char>, i: int) -> int
    decreases s.len() - i,
{
    if 0 <= i < s.len() && (is_alphanumeric(s[i]) || s[i] == '_') {
        ident_end(s, i + 1)
    } else {
        i
    }
}

/// The token at position `i`, with the position behind it.
pub open spec fn token_at(s: Seq<char>, i: int) -> Result<(int, TokenModel), Seq<char>> {
    let c = s[i];
    if is_punct(c) {
        Ok((i + 1, TokenModel::Punct(c)))
    } else if c == '"' || c == '\'' {
        match string_rest(s, i + 1, c, Seq::empty()) {
            Some((end, text)) => Ok((end, TokenModel::Str(text))),
            None => Err("unterminated string"@),
        }
    } else if is_digit(c) || c == '-' {
        let end = number_end(s, i + 1);
        let number = s.subrange(i, end);
        if number_parse(number) is Some {
            Ok((end, TokenModel::Num(number)))
        } else {
            Err("invalid number: "@ + number)
        }
    } else if is_alphanumeric(c) || c == '_' {
        let end = ident_end(s, i);
        Ok((end, TokenModel::Ident(s.subrange(i, end))))
    } else {
        Err("unexpected character: "@ + seq![c])
    }
}

proof fn lemma_string_rest(s: Seq<char>, i: int, quote: char, text: Seq<char>)
    ensures
        string_rest(s, i, quote, text) matches Some((end, _)) ==> i < end <= s.len(),
    decreases s.len() - i,
{
    if 0 <= i < s.len() {
        if s[i] == '\\' {
            if i + 1 < s.len() {
                lemma_string_rest(s, i + 2, quote, text.push(s[i + 1]));
            }
        } else if s[i] != quote {
            lemma_string_rest(s, i + 1, quote, text.push(s[i]));
        }
    }
}

proof fn lemma_number_end(s: Seq<char>, i: int)
    requires
        0 <= i <= s.len(),
    ensures
        i <= number_end(s, i) <= s.len(),
    decreases s.len() - i,
{
    if i < s.len() && (is_digit(s[i]) || s[i] == '.') {
        lemma_number_end(s, i + 1);
    }
}

proof fn lemma_ident_end(s: Seq<char>, i: int)
    requires
        0 <= i <= s.len(),
    ensures
        i <= ident_end(s, i) <= s.len(),
        i < s.len() && (is_alphanumeric(s[i]) || s[i] == '_') ==> i < ident_end(s, i),
    decreases s.len() - i,
{
    if i < s.len() && (is_alphanumeric(s[i]) || s[i] == '_') {
        lemma_ident_end(s, i + 1);
    }
}

/// Every token takes at least one character.
pub proof fn lemma_token_at(s: Seq<char>, i: int)
    requires
        0 <= i < s.len(),
    ensures
        token_at(s, i) matches Ok((end, _)) ==> i < end <= s.len(),
{
    lemma_string_rest(s, i + 1, s[i], Seq::empty());
    lemma_number_end(s, i + 1);
    lemma_ident_end(s, i);
}

/// The tokens from position `i` on, behind those already found.
pub open spec fn tokens_from(s: Seq<char>, i: int, found: Seq<TokenModel>) -> Result<
    Seq<TokenModel>,
    Seq<char>,
>
    decreases s.len() - i,
{
    if i < 0 || i >= s.len() {
        Ok(found)
    } else if s[i] == ' ' || s[i] == '\t' {
        tokens_from(s, i + 1, found)
    } else {
        proof {
            lemma_token_at(s, i);
        }
        match token_at(s, i) {
            Ok((end, token)) => tokens_from(s, end, found.push(token)),
            Err(error) => Err(error),
        }
    }
}

pub open spec fn tokens(s: Seq<char>) -> Result<Seq<TokenModel>, Seq<char>> {
    tokens_from(s, 0, Seq::empty())
}

pub open spec fn tokens_model(r: Result<Vec<Token>, String>) -> Result<
    Seq<TokenModel>,
    Seq<char>,
> {
    match r {
        Ok(v) => Ok(token_models(v@)),
        Err(e) => Err(e@),
    }
}

fn read_string(cs: &Vec<char>, start: usize, quote: char) -> (r: Option<(usize, String)>)
    requires
        start <= cs@.len(),
    ensures
        r matches Some(p) ==> string_rest(cs@, start as int, quote, Seq::empty()) == Some(
            (p.0 as int, p.1@),
        ),
        r is None ==> string_rest(cs@, start as int, quote, Seq::empty()) is None,
{
    let total: usize = cs.len();
    let mut text = String::new();
    let mut i: usize = start;
    while i < total
        invariant
            i <= total,
            total == cs@.len(),
            string_rest(cs@, i as int, quote, text@) == string_rest(
                cs@,
                start as int,
                quote,
                Seq::empty(),
            ),
        decreases total - i,
    {
        let c = cs[i];
        if c == '\\' {
            if i + 1 < total {
                text.push(cs[i + 1]);
                i = i + 2;
            } else {
                return None;
            }
        } else if c == quote {
            return Some((i + 1, text));
        } else {
            text.push(c);
            i = i + 1;
        }
    }
    None
}

fn skip_number(cs: &Vec<char>, start: usize) -> (r: usize)
    requires
        start <= cs@.len(),
    ensures
        r == number_end(cs@, start as int),
        start <= r <= cs@.len(),
{
    let mut i: usize = start;
    while i < cs.len() && (char_is_digit(cs[i]) || cs[i] == '.')
        invariant
            start <= i <= cs@.len(),
            number_end(cs@, i as int) == number_end(cs@, start as int),
        decreases cs@.len() - i,
    {
        i = i + 1;
    }
    i
}

fn skip_ident(cs: &Vec<char>, start: usize) -> (r: usize)
    requires
        start <= cs@.len(),
    ensures
        r == ident_end(cs@, start as int),
        start <= r <= cs@.len(),
{
    let mut i: usize = start;
    while i < cs.len() && (char_is_word(cs[i]) || cs[i] == '_')
        invariant
            start <= i <= cs@.len(),
            ident_end(cs@, i as int) == ident_end(cs@, start as int),
        decreases cs@.len() - i,
    {
        i = i + 1;
    }
    i
}

/// Splits an expression into tokens.
pub fn tokenize(text: &str) -> (r: Result<Vec<Token>, String>)
    ensures
        tokens_model(r) == tokens(text@),
{
    let cs = chars_of(text);
    let total: usize = cs.len();
    let mut found: Vec<Token> = Vec::new();
    assert(token_models(found@) =~= Seq::empty());
    let mut i: usize = 0;
    while i < total
        invariant
            cs@ == text@,
            total == cs@.len(),
            i <= total,
            tokens_from(text@, i as int, token_models(found@)) == tokens(text@),
        decreases total - i,
    {
        let c = cs[i];
        let ghost before = token_models(found@);
        proof {
            lemma_token_at(text@, i as int);
        }
        if c == ' ' || c == '\t' {
            i = i + 1;
        } else if c == '.' || c == '[' || c == ']' || c == '(' || c == ')' {
            found.push(Token::Punct(c));
            assert(token_models(found@) =~= before.push(TokenModel::Punct(c)));
            i = i + 1;
        } else if c == '"' || c == '\'' {
            match read_string(&cs, i + 1, c) {
                Some((end, value)) => {
                    found.push(Token::Str(value));
                    assert(token_models(found@) =~= before.push(TokenModel::Str(value@)));
                    i = end;
                },
                None => {
                    return Err(owned("unterminated string"));
                },
            }
        } else if char_is_digit(c) || c == '-' {
            let end: usize = skip_number(&cs, i + 1);
            let number = text_of(&cs, i, end);
            if parse_number(number.as_str()).is_none() {
                return Err(concat("invalid number: ", number.as_str()));
            }
            found.push(Token::Num(number));
            assert(token_models(found@) =~= before.push(TokenModel::Num(number@)));
            i = end;
        } else if char_is_word(c) || c == '_' {
            let end: usize = skip_ident(&cs, i);
            let ident = text_of(&cs, i, end);
            found.push(Token::Ident(ident));
            assert(token_models(found@) =~= before.push(TokenModel::Ident(ident@)));
            i = end;
        } else {
            let mut error = owned("unexpected character: ");
            error.push(c);
            assert(error@ =~= "unexpected character: "@ + seq![c]);
            return Err(error);
        }
    }
    Ok(found)
}

// ---------------------------------------------------------------------------
// Values
// ---------------------------------------------------------------------------

/// What a script can see of a response.
pub ghost struct ResponseModel {
    pub status: int,
    pub headers: Seq<(Seq<char>, Seq<char>)>,
    pub body: Seq<u8>,
}

pub open spec fn response_model(
    status: u16,
    headers: Seq<(String, String)>,
    body: Seq<u8>,
) -> ResponseModel {
    ResponseModel { status: status as int, headers: text_pairs(headers), body }
}

/// The headers as an object: by their names in lower case, each with its last
/// value.
pub open spec fn header_entries(headers: Seq<(Seq<char>, Seq<char>)>) -> Seq<(Seq<char>, Json)>
    decreases headers.len(),
{
    if headers.len() == 0 {
        Seq::empty()
    } else {
        put(
            header_entries(headers.drop_last()),
            lowercase(headers.last().0),
            Json::Text(headers.last().1),
        )
    }
}

/// The object that `response` stands for.
pub open spec fn response_json(r: ResponseModel) -> Json {
    let status = put(Seq::empty(), "status"@, Json::Number(Num::Int(r.status)));
    let body = put(status, "body"@, Json::Text(lossy_text(r.body)));
    Json::Object(put(body, "headers"@, Json::Object(header_entries(r.headers))))
}

pub open spec fn kind_name(v: Json) -> Seq<char> {
    match v {
        Json::Null => "null"@,
        Json::Bool(_) => "boolean"@,
        Json::Number(_) => "number"@,
        Json::Text(_) => "string"@,
        Json::Array(_) => "array"@,
        Json::Object(_) => "object"@,
    }
}

/// The member of an object at `key`, or null.
pub open spec fn member(entries: Seq<(Seq<char>, Json)>, key: Seq<char>) -> Json {
    match lookup(entries, key) {
        Some(v) => v,
        None => Json::Null,
    }
}

/// `value.name`
pub open spec fn property_of(value: Json, name: Seq<char>) -> Result<Json, Seq<char>> {
    match value {
        Json::Object(entries) => Ok(member(entries, name)),
        _ => Err("cannot access property `"@ + name + "` on "@ + kind_name(value)),
    }
}

/// `value[index]`
pub open spec fn index_of(value: Json, index: TokenModel) -> Result<Json, Seq<char>> {
    match (value, index) {
        (Json::Array(items), TokenModel::Num(text)) => match read_unsigned(
            text,
            usize::MAX as nat,
        ) {
            Some(i) => Ok(
                if i < items.len() {
                    items[i as int]
                } else {
                    Json::Null
                },
            ),
            None => Err("array index must be a non-negative integer"@),
        },
        (Json::Object(entries), TokenModel::Str(key)) => Ok(member(entries, key)),
        _ => Err("unsupported index expression"@),
    }
}

/// The first value of the headers with the given name in lower case.
pub open spec fn header_value(headers: Seq<(Seq<char>, Seq<char>)>, lower: Seq<char>) -> Json
    decreases headers.len(),
{
    if headers.len() == 0 {
        Json::Null
    } else if lowercase(headers[0].0) == lower {
        Json::Text(headers[0].1)
    } else {
        header_value(headers.drop_first(), lower)
    }
}

/// All values of the headers with the given name in lower case.
pub open spec fn header_values(headers: Seq<(Seq<char>, Seq<char>)>, lower: Seq<char>) -> Seq<Json>
    decreases headers.len(),
{
    if headers.len() == 0 {
        Seq::empty()
    } else {
        let before = header_values(headers.drop_last(), lower);
        if lowercase(headers.last().0) == lower {
            before.push(Json::Text(headers.last().1))
        } else {
            before
        }
    }
}

/// `value.name()` or `value.name("argument")`
pub open spec fn method_of(
    value: Json,
    name: Seq<char>,
    argument: Option<Seq<char>>,
    headers: Seq<(Seq<char>, Seq<char>)>,
    body: Seq<u8>,
) -> Result<Json, Seq<char>> {
    if value is Text && name == "json"@ && argument is None {
        match json_parse_bytes(body) {
            Some(v) => Ok(v),
            None => Err("response body is not valid JSON"@),
        }
    } else if value is Object && name == "valueOf"@ && argument is Some {
        Ok(header_value(headers, lowercase(argument->0)))
    } else if value is Object && name == "valuesOf"@ && argument is Some {
        Ok(Json::Array(header_values(headers, lowercase(argument->0))))
    } else {
        Err("unsupported method: ."@ + name + "()"@)
    }
}

/// The value of the first token of an expression.
pub open spec fn primary(tokens: Seq<TokenModel>, r: ResponseModel) -> Result<Json, Seq<char>> {
    if tokens.len() == 0 {
        Err("expected `response` or a literal"@)
    } else {
        match tokens[0] {
            TokenModel::Str(text) => Ok(Json::Text(text)),
            TokenModel::Num(text) => match number_parse(text) {
                Some(n) => Ok(Json::Number(n)),
                None => Err("invalid number: "@ + text),
            },
            TokenModel::Ident(name) => if name == "response"@ {
                Ok(response_json(r))
            } else if name == "true"@ {
                Ok(Json::Bool(true))
            } else if name == "false"@ {
                Ok(Json::Bool(false))
            } else if name == "null"@ {
                Ok(Json::Null)
            } else {
                Err("expected `response` or a literal"@)
            },
            TokenModel::Punct(_) => Err("expected `response` or a literal"@),
        }
    }
}

pub open spec fn is_token(tokens: Seq<TokenModel>, i: int, c: char) -> bool {
    i < tokens.len() && tokens[i] == TokenModel::Punct(c)
}

/// What stands behind `value.name(` from token `i` on: the position behind the
/// closing bracket, and the argument.
pub open spec fn call_argument(tokens: Seq<TokenModel>, i: int, name: Seq<char>) -> Result<
    (int, Option<Seq<char>>),
    Seq<char>,
> {
    if is_token(tokens, i, ')') {
        Ok((i + 1, None))
    } else if i < tokens.len() && tokens[i] is Str {
        if is_token(tokens, i + 1, ')') {
            Ok((i + 2, Some(tokens[i]->Str_0)))
        } else {
            Err("expected `)`"@)
        }
    } else {
        Err("method ."@ + name + "() takes a single string argument"@)
    }
}

/// One step of an access chain, which starts at token `i`: the position behind
/// it, and its value.
pub open spec fn access(tokens: Seq<TokenModel>, i: int, value: Json, r: ResponseModel) -> Result<
    (int, Json),
    Seq<char>,
> {
    if is_token(tokens, i, '.') {
        if i + 1 >= tokens.len() {
            Err("expected property after `.`"@)
        } else {
            match tokens[i + 1] {
                TokenModel::Ident(name) => if is_token(tokens, i + 2, '(') {
                    match call_argument(tokens, i + 3, name) {
                        Ok((end, argument)) => match method_of(
                            value,
                            name,
                            argument,
                            r.headers,
                            r.body,
                        ) {
                            Ok(v) => Ok((end, v)),
                            Err(error) => Err(error),
                        },
                        Err(error) => Err(error),
                    }
                } else {
                    match property_of(value, name) {
                        Ok(v) => Ok((i + 2, v)),
                        Err(error) => Err(error),
                    }
                },
                _ => Err("expected property name after `.`"@),
            }
        }
    } else if is_token(tokens, i, '[') {
        if i + 1 >= tokens.len() {
            Err("expected index"@)
        } else if !is_token(tokens, i + 2, ']') {
            Err("expected `]`"@)
        } else {
            match index_of(value, tokens[i + 1]) {
                Ok(v) => Ok((i + 3, v)),
                Err(error) => Err(error),
            }
        }
    } else {
        Err("unexpected trailing tokens"@)
    }
}

/// The value of an access chain from token `i` on.
pub open spec fn chain(tokens: Seq<TokenModel>, i: int, value: Json, r: ResponseModel) -> Result<
    Json,
    Seq<char>,
>
    decreases tokens.len() - i,
{
    if i >= tokens.len() {
        Ok(value)
    } else {
        match access(tokens, i, value, r) {
            Ok((end, v)) => chain(tokens, end, v, r),
            Err(error) => Err(error),
        }
    }
}

/// The value of an expression.
pub open spec fn value_of(expr: Seq<char>, r: ResponseModel) -> Result<Json, Seq<char>> {
    match tokens(expr) {
        Ok(all) => match primary(all, r) {
            Ok(value) => chain(all, 1, value, r),
            Err(error) => Err(error),
        },
        Err(error) => Err(error),
    }
}

pub open spec fn value_model(r: Result<JsonValue, String>) -> Result<Json, Seq<char>> {
    match r {
        Ok(v) => Ok(v.json()),
        Err(e) => Err(e@),
    }
}

// ---------------------------------------------------------------------------
// Evaluation
// ---------------------------------------------------------------------------

/// The object that `response` stands for.
pub fn response_value(status: u16, headers: &[(String, String)], body: &[u8]) -> (r: JsonValue)
    ensures
        r.json() == response_json(response_model(status, headers@, body@)),
{
    let ghost all = text_pairs(headers@);
    let mut header_map: TextMap<JsonValue> = TextMap::new();
    for i in 0..headers.len()
        invariant
            all == text_pairs(headers@),
            header_map@ == header_entries(all.take(i as int)),
    {
        let h = &headers[i];
        let value = JsonValue::String(h.1.clone());
        header_map.insert(to_lowercase(h.0.as_str()), value);
        assert(all.take(i + 1).drop_last() =~= all.take(i as int));
        assert(all.take(i + 1).last() == (h.0@, h.1@));
    }
    assert(all.take(headers@.len() as int) =~= all);
    let mut out: TextMap<JsonValue> = TextMap::new();
    out.insert(owned("status"), JsonValue::Number(Number::PosInt(status as u64)));
    out.insert(owned("body"), JsonValue::String(lossy_text_of(body)));
    out.insert(owned("headers"), JsonValue::Object(header_map));
    JsonValue::Object(out)
}

pub fn value_kind(value: &JsonValue) -> (r: &'static str)
    ensures
        r@ == kind_name(value.json()),
{
    match value {
        JsonValue::Null => "null",
        JsonValue::Bool(_) => "boolean",
        JsonValue::Number(_) => "number",
        JsonValue::String(_) => "string",
        JsonValue::Array(_) => "array",
        JsonValue::Object(_) => "object",
    }
}

fn member_of(map: &TextMap<JsonValue>, key: &str) -> (r: JsonValue)
    ensures
        r.json() == member(map@, key@),
{
    match map.get(key) {
        Some(v) => v.copy(),
        None => JsonValue::Null,
    }
}

pub fn apply_property(value: &JsonValue, name: &str) -> (r: Result<JsonValue, String>)
    ensures
        value_model(r) == property_of(value.json(), name@),
{
    match value {
        JsonValue::Object(map) => Ok(member_of(map, name)),
        _ => Err(
            concat(
                concat3("cannot access property `", name, "` on ").as_str(),
                value_kind(value),
            ),
        ),
    }
}

pub fn apply_index(value: &JsonValue, index: &Token) -> (r: Result<JsonValue, String>)
    ensures
        value_model(r) == index_of(value.json(), index@),
{
    match (value, index) {
        (JsonValue::Array(items), Token::Num(text)) => match read_usize(text.as_str()) {
            Some(i) => if i < items.len() {
                assert(jsons(items@)[i as int] == items@[i as int].json());
                Ok(items[i].copy())
            } else {
                Ok(JsonValue::Null)
            },
            None => Err(owned("array index must be a non-negative integer")),
        },
        (JsonValue::Object(map), Token::Str(key)) => Ok(member_of(map, key.as_str())),
        _ => Err(owned("unsupported index expression")),
    }
}

fn first_header(headers: &[(String, String)], lower: &str) -> (r: JsonValue)
    ensures
        r.json() == header_value(text_pairs(headers@), lower@),
{
    let ghost all = text_pairs(headers@);
    assert(all.skip(0) =~= all);
    for i in 0..headers.len()
        invariant
            all == text_pairs(headers@),
            header_value(all.skip(i as int), lower@) == header_value(all, lower@),
    {
        let h = &headers[i];
        assert(all.skip(i as int)[0] == (h.0@, h.1@));
        if same(to_lowercase(h.0.as_str()).as_str(), lower) {
            return JsonValue::String(h.1.clone());
        }
        assert(all.skip(i as int).drop_first() =~= all.skip(i + 1));
    }
    JsonValue::Null
}

fn all_headers(headers: &[(String, String)], lower: &str) -> (r: Vec<JsonValue>)
    ensures
        jsons(r@) == header_values(text_pairs(headers@), lower@),
{
    let ghost all = text_pairs(headers@);
    let mut out: Vec<JsonValue> = Vec::new();
    assert(jsons(out@) =~= Seq::empty());
    for i in 0..headers.len()
        invariant
            all == text_pairs(headers@),
            jsons(out@) == header_values(all.take(i as int), lower@),
    {
        let h = &headers[i];
        let ghost before = jsons(out@);
        assert(all.take(i + 1).drop_last() =~= all.take(i as int));
        assert(all.take(i + 1).last() == (h.0@, h.1@));
        if same(to_lowercase(h.0.as_str()).as_str(), lower) {
            out.push(JsonValue::String(h.1.clone()));
            assert(jsons(out@) =~= before.push(Json::Text(h.1@)));
        }
    }
    assert(all.take(headers@.len() as int) =~= all);
    out
}

pub fn apply_method(
    value: &JsonValue,
    name: &str,
    argument: Option<&str>,
    headers: &[(String, String)],
    body: &[u8],
) -> (r: Result<JsonValue, String>)
    ensures
        value_model(r) == method_of(
            value.json(),
            name@,
            (match argument {
                Some(a) => Some(a@),
                None => None,
            }),
            text_pairs(headers@),
            body@,
        ),
{
    match (value, argument) {
        (JsonValue::String(_), None) => if same(name, "json") {
            match parse_json_bytes(body) {
                Some(v) => Ok(v),
                None => Err(owned("response body is not valid JSON")),
            }
        } else {
            Err(concat3("unsupported method: .", name, "()"))
        },
        (JsonValue::Object(_), Some(header_name)) => {
            let lower = to_lowercase(header_name);
            if same(name, "valueOf") {
                Ok(first_header(headers, lower.as_str()))
            } else if same(name, "valuesOf") {
                Ok(JsonValue::Array(all_headers(headers, lower.as_str())))
            } else {
                Err(concat3("unsupported method: .", name, "()"))
            }
        },
        _ => Err(concat3("unsupported method: .", name, "()")),
    }
}

fn stands_at(tokens: &Vec<Token>, i: usize, c: char) -> (r: bool)
    ensures
        r == is_token(token_models(tokens@), i as int, c),
{
    if i < tokens.len() {
        match &tokens[i] {
            Token::Punct(p) => *p == c,
            _ => false,
        }
    } else {
        false
    }
}

/// The value of the first token of an expression.
pub fn parse_primary(
    tokens: &Vec<Token>,
    status: u16,
    headers: &[(String, String)],
    body: &[u8],
) -> (r: Result<JsonValue, String>)
    ensures
        value_model(r) == primary(
            token_models(tokens@),
            response_model(status, headers@, body@),
        ),
{
    if tokens.len() == 0 {
        return Err(owned("expected `response` or a literal"));
    }
    match &tokens[0] {
        Token::Str(text) => Ok(JsonValue::String(text.clone())),
        Token::Num(text) => match parse_number(text.as_str()) {
            Some(n) => Ok(JsonValue::Number(n)),
            None => Err(concat("invalid number: ", text.as_str())),
        },
        Token::Ident(name) => {
            let name = name.as_str();
            if same(name, "response") {
                Ok(response_value(status, headers, body))
            } else if same(name, "true") {
                Ok(JsonValue::Bool(true))
            } else if same(name, "false") {
                Ok(JsonValue::Bool(false))
            } else if same(name, "null") {
                Ok(JsonValue::Null)
            } else {
                Err(owned("expected `response` or a literal"))
            }
        },
        Token::Punct(_) => Err(owned("expected `response` or a literal")),
    }
}

pub open spec fn access_model(r: Result<(usize, JsonValue), String>) -> Result<
    (int, Json),
    Seq<char>,
> {
    match r {
        Ok((i, v)) => Ok((i as int, v.json())),
        Err(e) => Err(e@),
    }
}

fn with_end(r: Result<JsonValue, String>, end: usize) -> (out: Result<(usize, JsonValue), String>)
    ensures
        access_model(out) == match value_model(r) {
            Ok(v) => Ok((end as int, v)),
            Err(e) => Err(e),
        },
{
    match r {
        Ok(v) => Ok((end, v)),
        Err(e) => Err(e),
    }
}

/// One step of an access chain, which starts at token `i`.
fn apply_access(
    tokens: &Vec<Token>,
    i: usize,
    value: &JsonValue,
    status: u16,
    headers: &[(String, String)],
    body: &[u8],
) -> (r: Result<(usize, JsonValue), String>)
    requires
        i < tokens@.len(),
    ensures
        access_model(r) == access(
            token_models(tokens@),
            i as int,
            value.json(),
            response_model(status, headers@, body@),
        ),
        r matches Ok(p) ==> i < p.0 <= tokens@.len(),
{
    let ghost response = response_model(status, headers@, body@);
    let total: usize = tokens.len();
    if stands_at(tokens, i, '.') {
        if total - i < 2 {
            return Err(owned("expected property after `.`"));
        }
        match &tokens[i + 1] {
            Token::Ident(name) => {
                let name = name.as_str();
                if total - i == 2 || !stands_at(tokens, i + 2, '(') {
                    return with_end(apply_property(value, name), i + 2);
                }
                if total - i > 3 {
                    if stands_at(tokens, i + 3, ')') {
                        return with_end(apply_method(value, name, None, headers, body), i + 4);
                    }
                    if let Token::Str(argument) = &tokens[i + 3] {
                        if total - i == 4 || !stands_at(tokens, i + 4, ')') {
                            return Err(owned("expected `)`"));
                        }
                        return with_end(
                            apply_method(value, name, Some(argument.as_str()), headers, body),
                            i + 5,
                        );
                    }
                }
                Err(concat3("method .", name, "() takes a single string argument"))
            },
            _ => Err(owned("expected property name after `.`")),
        }
    } else if stands_at(tokens, i, '[') {
        if total - i < 2 {
            return Err(owned("expected index"));
        }
        if total - i == 2 || !stands_at(tokens, i + 2, ']') {
            return Err(owned("expected `]`"));
        }
        with_end(apply_index(value, &tokens[i + 1]), i + 3)
    } else {
        Err(owned("unexpected trailing tokens"))
    }
}

/// Evaluates a supported response-handler expression.
pub fn eval(expr: &str, status: u16, headers: &[(String, String)], body: &[u8]) -> (r: Result<
    JsonValue,
    String,
>)
    ensures
        value_model(r) == value_of(expr@, response_model(status, headers@, body@)),
{
    let ghost response = response_model(status, headers@, body@);
    let tokens = match tokenize(expr) {
        Ok(tokens) => tokens,
        Err(error) => {
            return Err(error);
        },
    };
    let mut value = match parse_primary(&tokens, status, headers, body) {
        Ok(value) => value,
        Err(error) => {
            return Err(error);
        },
    };
    let mut i: usize = 1;
    while i < tokens.len()
        invariant
            1 <= i,
            i <= tokens@.len(),
            response == response_model(status, headers@, body@),
            chain(token_models(tokens@), i as int, value.json(), response) == value_of(
                expr@,
                response,
            ),
        decreases tokens@.len() - i,
    {
        match apply_access(&tokens, i, &value, status, headers, body) {
            Ok((end, v)) => {
                value = v;
                i = end;
            },
            Err(error) => {
                return Err(error);
            },
        }
    }
    Ok(value)
}

// ---------------------------------------------------------------------------
// What expressions stand for
// ---------------------------------------------------------------------------

/// Whether `c` can stand in a name.
pub open spec fn is_name_char(c: char) -> bool {
    is_alphanumeric(c) || c == '_'
}

/// Whether `s` is a name: it holds letters, digits and underscores, and does not start
/// with a digit.
pub open spec fn is_name(s: Seq<char>) -> bool {
    s.len() > 0 && !is_digit(s[0]) && forall|i: int|
        0 <= i < s.len() ==> is_name_char(#[trigger] s[i])
}

/// Whether an access can follow `s` without changing how `s` is read: a point behind a
/// digit would be part of a number.
pub open spec fn can_be_followed(s: Seq<char>) -> bool {
    s.len() > 0 && !is_digit(s.last()) && s.last() != '.' && s.last() != '-'
}

proof fn lemma_name_ends(s: Seq<char>, i: int, n: int)
    requires
        0 <= i <= n <= s.len(),
        forall|k: int| i <= k < n ==> is_name_char(#[trigger] s[k]),
        n < s.len() ==> !is_name_char(s[n]),
    ensures
        ident_end(s, i) == n,
    decreases n - i,
{
    if i < n {
        assert(is_name_char(s[i]));
        lemma_name_ends(s, i + 1, n);
    }
}

proof fn lemma_ident_end_within(a: Seq<char>, b: Seq<char>, i: int)
    requires
        0 <= i <= a.len(),
        b.len() > 0,
        !is_name_char(b[0]),
    ensures
        ident_end(a + b, i) == ident_end(a, i),
    decreases a.len() - i,
{
    if i < a.len() {
        assert((a + b)[i] == a[i]);
        lemma_ident_end_within(a, b, i + 1);
    } else {
        assert((a + b)[i] == b[0]);
    }
}

proof fn lemma_number_end_within(a: Seq<char>, b: Seq<char>, i: int)
    requires
        0 < i <= a.len(),
        can_be_followed(a),
    ensures
        i < a.len() ==> number_end(a + b, i) == number_end(a, i) && number_end(a, i) < a.len(),
    decreases a.len() - i,
{
    if i < a.len() {
        assert((a + b)[i] == a[i]);
        if is_digit(a[i]) || a[i] == '.' {
            assert(i != a.len() - 1);
            lemma_number_end_within(a, b, i + 1);
        }
    }
}

proof fn lemma_string_rest_within(
    a: Seq<char>,
    b: Seq<char>,
    i: int,
    quote: char,
    text: Seq<char>,
)
    requires
        0 <= i <= a.len(),
        string_rest(a, i, quote, text) is Some,
    ensures
        string_rest(a + b, i, quote, text) == string_rest(a, i, quote, text),
    decreases a.len() - i,
{
    if i < a.len() {
        assert((a + b)[i] == a[i]);
        if a[i] == '\\' {
            if i + 1 < a.len() {
                assert((a + b)[i + 1] == a[i + 1]);
                lemma_string_rest_within(a, b, i + 2, quote, text.push(a[i + 1]));
            }
        } else if a[i] != quote {
            lemma_string_rest_within(a, b, i + 1, quote, text.push(a[i]));
        }
    }
}

proof fn lemma_token_within(a: Seq<char>, b: Seq<char>, i: int)
    requires
        0 <= i < a.len(),
        can_be_followed(a),
        b.len() > 0,
        b[0] == '.' || b[0] == '[' || b[0] == '(',
        token_at(a, i) is Ok,
    ensures
        token_at(a + b, i) == token_at(a, i),
{
    let s = a + b;
    let c = a[i];
    assert(s[i] == c);
    assert(!is_name_char(b[0]));
    if is_punct(c) {
    } else if c == '"' || c == '\'' {
        lemma_string_rest_within(a, b, i + 1, c, Seq::empty());
    } else if is_digit(c) || c == '-' {
        if i + 1 < a.len() {
            lemma_number_end_within(a, b, i + 1);
            lemma_number_end(a, i + 1);
            let end = number_end(a, i + 1);
            assert(s.subrange(i, end) =~= a.subrange(i, end));
        }
    } else if is_alphanumeric(c) || c == '_' {
        lemma_ident_end_within(a, b, i);
        lemma_ident_end(a, i);
        let end = ident_end(a, i);
        assert(s.subrange(i, end) =~= a.subrange(i, end));
    }
}

proof fn lemma_tokens_within(a: Seq<char>, b: Seq<char>, i: int, found: Seq<TokenModel>)
    requires
        0 <= i <= a.len(),
        can_be_followed(a),
        b.len() > 0,
        b[0] == '.' || b[0] == '[' || b[0] == '(',
        tokens_from(a, i, found) is Ok,
    ensures
        tokens_from(a + b, i, found) == tokens_from(
            a + b,
            a.len() as int,
            tokens_from(a, i, found)->Ok_0,
        ),
    decreases a.len() - i,
{
    let s = a + b;
    if i < a.len() {
        assert(s[i] == a[i]);
        if a[i] == ' ' || a[i] == '\t' {
            lemma_tokens_within(a, b, i + 1, found);
        } else {
            lemma_token_at(a, i);
            lemma_token_at(s, i);
            lemma_token_within(a, b, i);
            let (end, token) = token_at(a, i)->Ok_0;
            lemma_tokens_within(a, b, end, found.push(token));
        }
    }
}

proof fn lemma_access_within(
    all: Seq<TokenModel>,
    more: Seq<TokenModel>,
    i: int,
    value: Json,
    r: ResponseModel,
)
    requires
        0 <= i < all.len(),
        more.len() > 0,
        more[0] == TokenModel::Punct('.') || more[0] == TokenModel::Punct('['),
        access(all, i, value, r) is Ok,
    ensures
        access(all + more, i, value, r) == access(all, i, value, r),
        i < access(all, i, value, r)->Ok_0.0 <= all.len(),
{
    let longer = all + more;
    assert(forall|k: int| 0 <= k < all.len() ==> #[trigger] longer[k] == all[k]);
    assert(longer[all.len() as int] == more[0]);
}

proof fn lemma_chain_within(
    all: Seq<TokenModel>,
    more: Seq<TokenModel>,
    i: int,
    value: Json,
    r: ResponseModel,
)
    requires
        0 <= i <= all.len(),
        more.len() > 0,
        more[0] == TokenModel::Punct('.') || more[0] == TokenModel::Punct('['),
        chain(all, i, value, r) is Ok,
    ensures
        chain(all + more, i, value, r) == chain(
            all + more,
            all.len() as int,
            chain(all, i, value, r)->Ok_0,
            r,
        ),
    decreases all.len() - i,
{
    if i < all.len() {
        lemma_access_within(all, more, i, value, r);
        let (end, v) = access(all, i, value, r)->Ok_0;
        lemma_chain_within(all, more, end, v, r);
    }
}

/// An access behind an expression is applied to the value of the expression.
proof fn lemma_access_applies(
    expr: Seq<char>,
    behind: Seq<char>,
    more: Seq<TokenModel>,
    r: ResponseModel,
    value: Json,
)
    requires
        can_be_followed(expr),
        behind.len() > 0,
        behind[0] == '.' || behind[0] == '[',
        more.len() > 0,
        more[0] == TokenModel::Punct('.') || more[0] == TokenModel::Punct('['),
        value_of(expr, r) == Ok::<Json, Seq<char>>(value),
        forall|found: Seq<TokenModel>|
            #[trigger] tokens_from(expr + behind, expr.len() as int, found) == Ok::<
                Seq<TokenModel>,
                Seq<char>,
            >(found + more),
    ensures
        ({
            let all = tokens(expr)->Ok_0;
            value_of(expr + behind, r) == chain(all + more, all.len() as int, value, r)
        }),
        tokens(expr) is Ok,
{
    let all = tokens(expr)->Ok_0;
    lemma_tokens_within(expr, behind, 0, Seq::empty());
    assert(tokens(expr + behind) == Ok::<Seq<TokenModel>, Seq<char>>(all + more));
    assert((all + more)[0] == all[0]);
    lemma_chain_within(all, more, 1, primary(all, r)->Ok_0, r);
}

proof fn lemma_name_behind(expr: Seq<char>, name: Seq<char>, found: Seq<TokenModel>)
    requires
        is_name(name),
    ensures
        tokens_from(expr + ("."@ + name), expr.len() as int, found) == Ok::<
            Seq<TokenModel>,
            Seq<char>,
        >(found + seq![TokenModel::Punct('.'), TokenModel::Ident(name)]),
{
    reveal_strlit(".");
    reveal_with_fuel(tokens_from, 3);
    let s = expr + ("."@ + name);
    let n = expr.len() as int;
    assert(s[n] == '.');
    let c = s[n + 1];
    assert(c == name[0]);
    assert(is_name_char(name[0]));
    assert forall|k: int| n + 1 <= k < s.len() implies is_name_char(#[trigger] s[k]) by {
        assert(s[k] == name[k - n - 1]);
    }
    lemma_name_ends(s, n + 1, s.len() as int);
    assert(s.subrange(n + 1, s.len() as int) =~= name);
    assert(found.push(TokenModel::Punct('.')).push(TokenModel::Ident(name)) =~= found + seq![
        TokenModel::Punct('.'),
        TokenModel::Ident(name),
    ]);
}

/// `expr.name` is the member of the object that `expr` stands for, or null where it has
/// none. Of anything else it is an error.
pub proof fn members_are_read(
    expr: Seq<char>,
    name: Seq<char>,
    r: ResponseModel,
    value: Json,
)
    requires
        can_be_followed(expr),
        is_name(name),
        value_of(expr, r) == Ok::<Json, Seq<char>>(value),
    ensures
        match value {
            Json::Object(entries) => value_of(expr + ("."@ + name), r) == Ok::<Json, Seq<char>>(
                match lookup(entries, name) {
                    Some(v) => v,
                    None => Json::Null,
                },
            ),
            _ => value_of(expr + ("."@ + name), r) is Err,
        },
{
    reveal_strlit(".");
    let more = seq![TokenModel::Punct('.'), TokenModel::Ident(name)];
    assert forall|found: Seq<TokenModel>|
        #[trigger] tokens_from(expr + ("."@ + name), expr.len() as int, found) == Ok::<
            Seq<TokenModel>,
            Seq<char>,
        >(found + more) by {
        lemma_name_behind(expr, name, found);
    }
    lemma_access_applies(expr, "."@ + name, more, r, value);
    let all = tokens(expr)->Ok_0;
    let longer = all + more;
    let n = all.len() as int;
    assert(longer[n] == more[0] && longer[n + 1] == more[1]);
    reveal_with_fuel(chain, 3);
}

/// `expr[n]` is the item of the array that `expr` stands for, counted from 0, or null
/// behind its end.
pub proof fn items_are_read(expr: Seq<char>, n: nat, r: ResponseModel, items: Seq<Json>)
    requires
        can_be_followed(expr),
        n <= usize::MAX,
        number_parse(decimal(n)) is Some,
        value_of(expr, r) == Ok::<Json, Seq<char>>(Json::Array(items)),
    ensures
        value_of(expr + ("["@ + decimal(n) + "]"@), r) == Ok::<Json, Seq<char>>(
            if n < items.len() {
                items[n as int]
            } else {
                Json::Null
            },
        ),
{
    reveal_strlit("[");
    reveal_strlit("]");
    let digits = decimal(n);
    let behind = "["@ + digits + "]"@;
    let more = seq![TokenModel::Punct('['), TokenModel::Num(digits), TokenModel::Punct(']')];
    assert forall|found: Seq<TokenModel>|
        #[trigger] tokens_from(expr + behind, expr.len() as int, found) == Ok::<
            Seq<TokenModel>,
            Seq<char>,
        >(found + more) by {
        lemma_index_behind(expr, n, found);
    }
    lemma_access_applies(expr, behind, more, r, Json::Array(items));
    decimal_reads_back(n);
    let all = tokens(expr)->Ok_0;
    let longer = all + more;
    let k = all.len() as int;
    assert(longer[k] == more[0] && longer[k + 1] == more[1] && longer[k + 2] == more[2]);
    reveal_with_fuel(chain, 3);
}

proof fn lemma_digits_end(s: Seq<char>, i: int, n: int)
    requires
        0 <= i <= n < s.len(),
        forall|k: int| i <= k < n ==> is_digit(#[trigger] s[k]),
        !is_digit(s[n]) && s[n] != '.',
    ensures
        number_end(s, i) == n,
    decreases n - i,
{
    if i < n {
        assert(is_digit(s[i]));
        lemma_digits_end(s, i + 1, n);
    }
}

proof fn lemma_index_behind(expr: Seq<char>, n: nat, found: Seq<TokenModel>)
    requires
        number_parse(decimal(n)) is Some,
    ensures
        tokens_from(expr + ("["@ + decimal(n) + "]"@), expr.len() as int, found) == Ok::<
            Seq<TokenModel>,
            Seq<char>,
        >(
            found + seq![
                TokenModel::Punct('['),
                TokenModel::Num(decimal(n)),
                TokenModel::Punct(']'),
            ],
        ),
{
    reveal_strlit("[");
    reveal_strlit("]");
    reveal_with_fuel(tokens_from, 4);
    decimal_reads_back(n);
    let digits = decimal(n);
    let s = expr + ("["@ + digits + "]"@);
    let k = expr.len() as int;
    let end = k + 1 + digits.len();
    assert(s[k] == '[');
    assert(s[end] == ']');
    assert forall|j: int| k + 1 <= j < end implies is_digit(#[trigger] s[j]) by {
        assert(s[j] == digits[j - k - 1]);
    }
    assert(is_digit(s[k + 1]));
    lemma_digits_end(s, k + 2, end);
    assert(s.subrange(k + 1, end) =~= digits);
    assert(found.push(TokenModel::Punct('[')).push(TokenModel::Num(digits)).push(
        TokenModel::Punct(']'),
    ) =~= found + seq![TokenModel::Punct('['), TokenModel::Num(digits), TokenModel::Punct(']')]);
}

proof fn lemma_literal_rest(s: Seq<char>, i: int, text: Seq<char>, n: int)
    requires
        0 <= n <= text.len(),
        0 <= i,
        i + text.len() < s.len(),
        !text.contains('"'),
        !text.contains('\\'),
        forall|k: int| 0 <= k < text.len() ==> s[i + k] == #[trigger] text[k],
        s[i + text.len()] == '"',
    ensures
        string_rest(s, i + n, '"', text.take(n)) == Some((i + text.len() + 1, text)),
    decreases text.len() - n,
{
    if n < text.len() {
        assert(s[i + n] == text[n]);
        assert(text.contains(text[n]));
        assert(text.take(n).push(text[n]) =~= text.take(n + 1));
        lemma_literal_rest(s, i, text, n + 1);
    } else {
        assert(text.take(n) =~= text);
    }
}

/// `expr["key"]` is the member of the object that `expr` stands for, or null where it
/// has none.
pub proof fn keys_are_read(
    expr: Seq<char>,
    key: Seq<char>,
    r: ResponseModel,
    entries: Seq<(Seq<char>, Json)>,
)
    requires
        can_be_followed(expr),
        !key.contains('"'),
        !key.contains('\\'),
        value_of(expr, r) == Ok::<Json, Seq<char>>(Json::Object(entries)),
    ensures
        value_of(expr + ("[\""@ + key + "\"]"@), r) == Ok::<Json, Seq<char>>(
            match lookup(entries, key) {
                Some(v) => v,
                None => Json::Null,
            },
        ),
{
    reveal_strlit("[\"");
    reveal_strlit("\"]");
    let behind = "[\""@ + key + "\"]"@;
    let more = seq![TokenModel::Punct('['), TokenModel::Str(key), TokenModel::Punct(']')];
    assert forall|found: Seq<TokenModel>|
        #[trigger] tokens_from(expr + behind, expr.len() as int, found) == Ok::<
            Seq<TokenModel>,
            Seq<char>,
        >(found + more) by {
        lemma_key_behind(expr, key, found);
    }
    lemma_access_applies(expr, behind, more, r, Json::Object(entries));
    let all = tokens(expr)->Ok_0;
    let longer = all + more;
    let k = all.len() as int;
    assert(longer[k] == more[0] && longer[k + 1] == more[1] && longer[k + 2] == more[2]);
    reveal_with_fuel(chain, 3);
}

proof fn lemma_key_behind(expr: Seq<char>, key: Seq<char>, found: Seq<TokenModel>)
    requires
        !key.contains('"'),
        !key.contains('\\'),
    ensures
        tokens_from(expr + ("[\""@ + key + "\"]"@), expr.len() as int, found) == Ok::<
            Seq<TokenModel>,
            Seq<char>,
        >(
            found + seq![TokenModel::Punct('['), TokenModel::Str(key), TokenModel::Punct(']')],
        ),
{
    reveal_strlit("[\"");
    reveal_strlit("\"]");
    reveal_with_fuel(tokens_from, 4);
    let s = expr + ("[\""@ + key + "\"]"@);
    let k = expr.len() as int;
    assert(s[k] == '[' && s[k + 1] == '"');
    assert(s[k + 2 + key.len()] == '"');
    assert(s[k + 3 + key.len()] == ']');
    assert(key.take(0) =~= Seq::empty());
    lemma_literal_rest(s, k + 2, key, 0);
    assert(found.push(TokenModel::Punct('[')).push(TokenModel::Str(key)).push(
        TokenModel::Punct(']'),
    ) =~= found + seq![TokenModel::Punct('['), TokenModel::Str(key), TokenModel::Punct(']')]);
}

/// `expr.json()` of a text is the body of the response, read as JSON; `expr.valueOf("x")`
/// and `expr.valuesOf("x")` of an object are the first and all the values of the header.
pub proof fn methods_are_called(
    expr: Seq<char>,
    argument: Seq<char>,
    r: ResponseModel,
    value: Json,
)
    requires
        can_be_followed(expr),
        !argument.contains('"'),
        !argument.contains('\\'),
        value_of(expr, r) == Ok::<Json, Seq<char>>(value),
    ensures
        value is Text ==> (match json_parse_bytes(r.body) {
            Some(v) => value_of(expr + ".json()"@, r) == Ok::<Json, Seq<char>>(v),
            None => value_of(expr + ".json()"@, r) is Err,
        }),
        value is Object ==> value_of(expr + (".valueOf(\""@ + argument + "\")"@), r) == Ok::<
            Json,
            Seq<char>,
        >(header_value(r.headers, lowercase(argument))),
        value is Object ==> value_of(expr + (".valuesOf(\""@ + argument + "\")"@), r) == Ok::<
            Json,
            Seq<char>,
        >(Json::Array(header_values(r.headers, lowercase(argument)))),
        !(value is Text) ==> value_of(expr + ".json()"@, r) is Err,
{
    reveal_strlit(".json()");
    reveal_strlit("json");
    lemma_json_call(expr, r, value);
    lemma_value_call(expr, "valueOf"@, ".valueOf(\""@, argument, r, value);
    lemma_value_call(expr, "valuesOf"@, ".valuesOf(\""@, argument, r, value);
    reveal_strlit("valueOf");
    reveal_strlit("valuesOf");
    assert("valueOf"@.len() != "valuesOf"@.len());
    assert("valueOf"@.len() != "json"@.len());
}

proof fn lemma_json_call(expr: Seq<char>, r: ResponseModel, value: Json)
    requires
        can_be_followed(expr),
        value_of(expr, r) == Ok::<Json, Seq<char>>(value),
    ensures
        value_of(expr + ".json()"@, r) == method_of(value, "json"@, None, r.headers, r.body),
{
    reveal_strlit(".json()");
    reveal_strlit("json");
    let behind = ".json()"@;
    let more = seq![
        TokenModel::Punct('.'),
        TokenModel::Ident("json"@),
        TokenModel::Punct('('),
        TokenModel::Punct(')'),
    ];
    let s = expr + behind;
    let k = expr.len() as int;
    assert forall|found: Seq<TokenModel>|
        #[trigger] tokens_from(s, k, found) == Ok::<Seq<TokenModel>, Seq<char>>(found + more) by {
        reveal_with_fuel(tokens_from, 5);
        assert(s[k] == '.' && s[k + 1] == 'j' && s[k + 2] == 's' && s[k + 3] == 'o' && s[k + 4]
            == 'n' && s[k + 5] == '(' && s[k + 6] == ')');
        lemma_name_ends(s, k + 1, k + 5);
        assert(s.subrange(k + 1, k + 5) =~= "json"@);
        assert(found.push(more[0]).push(more[1]).push(more[2]).push(more[3]) =~= found + more);
    }
    lemma_access_applies(expr, behind, more, r, value);
    let all = tokens(expr)->Ok_0;
    let longer = all + more;
    let n = all.len() as int;
    assert(longer[n] == more[0] && longer[n + 1] == more[1] && longer[n + 2] == more[2] && longer[n
        + 3] == more[3]);
    reveal_with_fuel(chain, 3);
}

proof fn lemma_value_call(
    expr: Seq<char>,
    name: Seq<char>,
    head: Seq<char>,
    argument: Seq<char>,
    r: ResponseModel,
    value: Json,
)
    requires
        can_be_followed(expr),
        name == "valueOf"@ && head == ".valueOf(\""@ || name == "valuesOf"@ && head
            == ".valuesOf(\""@,
        !argument.contains('"'),
        !argument.contains('\\'),
        value_of(expr, r) == Ok::<Json, Seq<char>>(value),
    ensures
        value_of(expr + (head + argument + "\")"@), r) == method_of(
            value,
            name,
            Some(argument),
            r.headers,
            r.body,
        ),
{
    reveal_strlit("valueOf");
    reveal_strlit("valuesOf");
    reveal_strlit(".valueOf(\"");
    reveal_strlit(".valuesOf(\"");
    reveal_strlit("\")");
    let behind = head + argument + "\")"@;
    let more = seq![
        TokenModel::Punct('.'),
        TokenModel::Ident(name),
        TokenModel::Punct('('),
        TokenModel::Str(argument),
        TokenModel::Punct(')'),
    ];
    let s = expr + behind;
    let k = expr.len() as int;
    let n = name.len() as int;
    assert(head =~= seq!['.'] + name + seq!['(', '"']);
    assert forall|j: int| 0 <= j < n implies is_name_char(#[trigger] name[j]) by {}
    assert forall|found: Seq<TokenModel>|
        #[trigger] tokens_from(s, k, found) == Ok::<Seq<TokenModel>, Seq<char>>(found + more) by {
        reveal_with_fuel(tokens_from, 6);
        assert(s[k] == '.' && s[k + 1] == name[0] && s[k + 1 + n] == '(' && s[k + 2 + n] == '"');
        assert(is_name_char(name[0]));
        assert forall|j: int| k + 1 <= j < k + 1 + n implies is_name_char(#[trigger] s[j]) by {
            assert(s[j] == name[j - k - 1]);
        }
        lemma_name_ends(s, k + 1, k + 1 + n);
        assert(s.subrange(k + 1, k + 1 + n) =~= name);
        assert(argument.take(0) =~= Seq::empty());
        lemma_literal_rest(s, k + 3 + n, argument, 0);
        assert(s[k + 4 + n + argument.len()] == ')');
        assert(found.push(more[0]).push(more[1]).push(more[2]).push(more[3]).push(more[4])
            =~= found + more);
    }
    lemma_access_applies(expr, behind, more, r, value);
    let all = tokens(expr)->Ok_0;
    let longer = all + more;
    let m = all.len() as int;
    assert(longer[m] == more[0] && longer[m + 1] == more[1] && longer[m + 2] == more[2] && longer[m
        + 3] == more[3] && longer[m + 4] == more[4]);
    reveal_with_fuel(chain, 3);
}

/// A string literal stands for its text, an integer for its value; a name stands for
/// `response`, for true, false or null, or is an error.
pub proof fn literals_stand_for_themselves(
    text: Seq<char>,
    n: nat,
    name: Seq<char>,
    r: ResponseModel,
)
    requires
        !text.contains('"'),
        !text.contains('\\'),
        is_name(name),
    ensures
        value_of("\""@ + text + "\""@, r) == Ok::<Json, Seq<char>>(Json::Text(text)),
        number_parse(decimal(n)) matches Some(number) ==> value_of(decimal(n), r) == Ok::<
            Json,
            Seq<char>,
        >(Json::Number(number)),
        name == "response"@ ==> value_of(name, r) == Ok::<Json, Seq<char>>(response_json(r)),
        name == "true"@ ==> value_of(name, r) == Ok::<Json, Seq<char>>(Json::Bool(true)),
        name == "false"@ ==> value_of(name, r) == Ok::<Json, Seq<char>>(Json::Bool(false)),
        name == "null"@ ==> value_of(name, r) == Ok::<Json, Seq<char>>(Json::Null),
        name != "response"@ && name != "true"@ && name != "false"@ && name != "null"@ ==> value_of(
            name,
            r,
        ) is Err,
{
    reveal_strlit("\"");
    reveal_with_fuel(tokens_from, 3);
    let empty = Seq::<TokenModel>::empty();
    let s = "\""@ + text + "\""@;
    assert(s[0] == '"');
    assert(text.take(0) =~= Seq::empty());
    lemma_literal_rest(s, 1, text, 0);
    assert(tokens(s) == Ok::<Seq<TokenModel>, Seq<char>>(empty.push(TokenModel::Str(text))));
    let digits = decimal(n);
    decimal_reads_back(n);
    assert(is_digit(digits[0]));
    lemma_all_digits_end(digits, 1);
    assert(digits.subrange(0, digits.len() as int) =~= digits);
    assert(is_name_char(name[0]));
    lemma_name_ends(name, 0, name.len() as int);
    assert(name.subrange(0, name.len() as int) =~= name);
    assert(tokens(name) == Ok::<Seq<TokenModel>, Seq<char>>(empty.push(TokenModel::Ident(name))));
    lemma_literals_differ();
}

proof fn lemma_all_digits_end(s: Seq<char>, i: int)
    requires
        0 <= i <= s.len(),
        forall|k: int| 0 <= k < s.len() ==> is_digit(#[trigger] s[k]),
    ensures
        number_end(s, i) == s.len(),
    decreases s.len() - i,
{
    if i < s.len() {
        assert(is_digit(s[i]));
        lemma_all_digits_end(s, i + 1);
    }
}

proof fn lemma_literals_differ()
    ensures
        "response"@ != "true"@ && "response"@ != "false"@ && "response"@ != "null"@,
        "true"@ != "false"@ && "true"@ != "null"@ && "false"@ != "null"@,
{
    reveal_strlit("response");
    reveal_strlit("true");
    reveal_strlit("false");
    reveal_strlit("null");
    assert("response"@[0] == 'r' && "true"@[0] == 't' && "false"@[0] == 'f' && "null"@[0] == 'n');
}

/// `response` has its status, its body as text, and its headers by their names in lower
/// case; a later header of a name overrides an earlier one.
pub proof fn response_has_its_parts(
    r: ResponseModel,
    headers: Seq<(Seq<char>, Seq<char>)>,
    name: Seq<char>,
    value: Seq<char>,
    q: Seq<char>,
)
    ensures
        response_json(r) matches Json::Object(entries) && lookup(entries, "status"@) == Some(
            Json::Number(Num::Int(r.status)),
        ) && lookup(entries, "body"@) == Some(Json::Text(lossy_text(r.body))) && lookup(
            entries,
            "headers"@,
        ) == Some(Json::Object(header_entries(r.headers))),
        lookup(header_entries(headers.push((name, value))), q) == if q == lowercase(name) {
            Some(Json::Text(value))
        } else {
            lookup(header_entries(headers), q)
        },
        lookup(header_entries(Seq::empty()), q) is None,
{
    reveal_strlit("status");
    reveal_strlit("body");
    reveal_strlit("headers");
    assert("status"@[0] == 's' && "body"@[0] == 'b' && "headers"@[0] == 'h');
    let none = Seq::<(Seq<char>, Json)>::empty();
    let status = put(none, "status"@, Json::Number(Num::Int(r.status)));
    let body = put(status, "body"@, Json::Text(lossy_text(r.body)));
    let all = Json::Object(header_entries(r.headers));
    lookup_after_put(none, "status"@, Json::Number(Num::Int(r.status)), "status"@);
    lookup_after_put(status, "body"@, Json::Text(lossy_text(r.body)), "status"@);
    lookup_after_put(status, "body"@, Json::Text(lossy_text(r.body)), "body"@);
    lookup_after_put(body, "headers"@, all, "status"@);
    lookup_after_put(body, "headers"@, all, "body"@);
    lookup_after_put(body, "headers"@, all, "headers"@);
    let more = headers.push((name, value));
    assert(more.drop_last() =~= headers);
    lookup_after_put(header_entries(headers), lowercase(name), Json::Text(value), q);
}

/// All the values of a header are found, in order, and no others.
pub proof fn all_values_are_found(
    headers: Seq<(Seq<char>, Seq<char>)>,
    name: Seq<char>,
    value: Seq<char>,
    lower: Seq<char>,
)
    ensures
        header_values(headers.push((name, value)), lower) == if lowercase(name) == lower {
            header_values(headers, lower).push(Json::Text(value))
        } else {
            header_values(headers, lower)
        },
        header_values(Seq::empty(), lower).len() == 0,
        header_value(seq![(name, value)] + headers, lower) == if lowercase(name) == lower {
            Json::Text(value)
        } else {
            header_value(headers, lower)
        },
        header_value(Seq::empty(), lower) == Json::Null,
{
    assert(headers.push((name, value)).drop_last() =~= headers);
    assert((seq![(name, value)] + headers).drop_first() =~= headers);
}

/// A member of anything but an object is an error, which names the member and the kind of
/// the value.
pub proof fn members_need_an_object(name: Seq<char>, v: Json)
    ensures
        ({
            let missed = "cannot access property `"@ + name + "` on "@;
            &&& property_of(Json::Null, name) == Err::<Json, Seq<char>>(missed + "null"@)
            &&& v is Bool ==> property_of(v, name) == Err::<Json, Seq<char>>(missed + "boolean"@)
            &&& v is Number ==> property_of(v, name) == Err::<Json, Seq<char>>(missed + "number"@)
            &&& v is Text ==> property_of(v, name) == Err::<Json, Seq<char>>(missed + "string"@)
            &&& v is Array ==> property_of(v, name) == Err::<Json, Seq<char>>(missed + "array"@)
            &&& v is Object ==> property_of(v, name) is Ok
            &&& kind_name(v) == "object"@ <==> v is Object
        }),
{
    reveal_strlit("null");
    reveal_strlit("boolean");
    reveal_strlit("number");
    reveal_strlit("string");
    reveal_strlit("array");
    reveal_strlit("object");
    assert("number"@[0] == 'n' && "string"@[0] == 's' && "object"@[0] == 'o');
}

/// Only an array has items, and only an object has keys. Only a text is read as JSON, and
/// only an object is asked for headers.
pub proof fn other_accesses_are_errors(
    v: Json,
    index: TokenModel,
    name: Seq<char>,
    argument: Option<Seq<char>>,
    headers: Seq<(Seq<char>, Seq<char>)>,
    body: Seq<u8>,
)
    ensures
        index_of(v, index) is Ok ==> (v is Array && index is Num) || (v is Object && index is Str),
        v is Object && index is Str ==> index_of(v, index) is Ok,
        v is Array && (index matches TokenModel::Num(text) && !all_digits(text) && text[0] != '+')
            ==> index_of(v, index) is Err,
        method_of(v, name, argument, headers, body) is Ok ==> {
            ||| v is Text && name == "json"@ && argument is None
            ||| v is Object && (name == "valueOf"@ || name == "valuesOf"@) && argument is Some
        },
{
}

/// A text as it is written between quotes: a backslash stands before each quote and each
/// backslash.
pub open spec fn escaped(text: Seq<char>, quote: char) -> Seq<char>
    decreases text.len(),
{
    if text.len() == 0 {
        Seq::empty()
    } else {
        let c = text.last();
        escaped(text.drop_last(), quote) + (if c == quote || c == '\\' {
            seq!['\\', c]
        } else {
            seq![c]
        })
    }
}

proof fn lemma_escaped_behind(a: Seq<char>, c: char, b: Seq<char>, quote: char)
    ensures
        escaped(a + seq![c] + b, quote) == escaped(a, quote) + escaped(seq![c], quote) + escaped(
            b,
            quote,
        ),
    decreases b.len(),
{
    let s = a + seq![c] + b;
    let none = Seq::<char>::empty();
    assert(seq![c].drop_last() =~= none);
    assert(escaped(none, quote) =~= none);
    reveal_with_fuel(escaped, 2);
    if b.len() == 0 {
        assert(s =~= a.push(c));
        assert(a.push(c).drop_last() =~= a);
        assert(escaped(s, quote) =~= escaped(a, quote) + escaped(seq![c], quote) + none);
    } else {
        let last = if b.last() == quote || b.last() == '\\' {
            seq!['\\', b.last()]
        } else {
            seq![b.last()]
        };
        lemma_escaped_behind(a, c, b.drop_last(), quote);
        assert(s.drop_last() =~= a + seq![c] + b.drop_last());
        assert(s.last() == b.last());
        assert(escaped(s, quote) =~= escaped(s.drop_last(), quote) + last);
        assert(escaped(b, quote) =~= escaped(b.drop_last(), quote) + last);
        assert(escaped(s, quote) =~= escaped(a, quote) + escaped(seq![c], quote) + escaped(
            b,
            quote,
        ));
    }
}

proof fn lemma_escaped_rest(s: Seq<char>, i: int, quote: char, text: Seq<char>, found: Seq<char>)
    requires
        0 <= i,
        quote != '\\',
        s.skip(i) == escaped(text, quote) + seq![quote],
        i <= s.len(),
    ensures
        string_rest(s, i, quote, found) == Some((s.len() as int, found + text)),
    decreases text.len(),
{
    let none = Seq::<char>::empty();
    let rest = s.skip(i);
    if text.len() == 0 {
        assert(rest =~= seq![quote]);
        assert(rest[0] == s[i]);
        assert(found + text =~= found);
    } else {
        let c = text[0];
        let more = text.drop_first();
        assert(none + seq![c] + more =~= text);
        lemma_escaped_behind(none, c, more, quote);
        assert(seq![c].drop_last() =~= none);
        reveal_with_fuel(escaped, 2);
        assert(escaped(none, quote) =~= none);
        let step = if c == quote || c == '\\' {
            seq!['\\', c]
        } else {
            seq![c]
        };
        assert(escaped(seq![c], quote) =~= step);
        assert(rest =~= step + (escaped(more, quote) + seq![quote]));
        assert(rest[0] == s[i]);
        assert(found.push(c) + more =~= found + text);
        if step.len() == 2 {
            assert(rest[1] == s[i + 1]);
            assert(s.skip(i + 2) =~= rest.skip(2));
            assert(rest.skip(2) =~= escaped(more, quote) + seq![quote]);
            lemma_escaped_rest(s, i + 2, quote, more, found.push(c));
        } else {
            assert(s.skip(i + 1) =~= rest.skip(1));
            assert(rest.skip(1) =~= escaped(more, quote) + seq![quote]);
            lemma_escaped_rest(s, i + 1, quote, more, found.push(c));
        }
    }
}

/// Any text can be written as a literal, between quotes of either kind, and is read back.
pub proof fn literals_read_back(text: Seq<char>, quote: char, r: ResponseModel)
    requires
        quote == '"' || quote == '\'',
    ensures
        value_of(seq![quote] + escaped(text, quote) + seq![quote], r) == Ok::<Json, Seq<char>>(
            Json::Text(text),
        ),
{
    reveal_with_fuel(tokens_from, 3);
    let empty = Seq::<TokenModel>::empty();
    let s = seq![quote] + escaped(text, quote) + seq![quote];
    assert(s[0] == quote);
    assert(s.skip(1) =~= escaped(text, quote) + seq![quote]);
    lemma_escaped_rest(s, 1, quote, text, Seq::empty());
    assert(Seq::<char>::empty() + text =~= text);
    assert(tokens(s) == Ok::<Seq<TokenModel>, Seq<char>>(empty.push(TokenModel::Str(text))));
}

} // verus!
