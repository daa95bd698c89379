//! Line-based parser for `.http` request files.

use vstd::prelude::*;
use vstd::string::StrSliceExecFns;
use vstd::string::StringExecFns;
use crate::decimal::decimal;
use crate::decimal::decimal_of;
use crate::duration::duration;
use crate::text::after_prefix;
use crate::text::all_space;
use crate::text::as_lines;
use crate::text::before_suffix;
use crate::text::blank_means_invisible;
use crate::text::char_is_digit;
use crate::text::char_is_space;
use crate::text::char_is_upper;
use crate::text::char_is_word;
use crate::text::chars_of;
use crate::text::contains;
use crate::text::copy_pairs;
use crate::text::copy_text;
use crate::text::drop_leading;
use crate::text::drop_leading_finds;
use crate::text::drop_leading_of;
use crate::text::ends_are_taken_off;
use crate::text::ends_with;
use crate::text::find_is_first;
use crate::text::has_prefix;
use crate::text::has_suffix;
use crate::text::head_of;
use crate::text::is_alphanumeric;
use crate::text::is_blank;
use crate::text::is_digit;
use crate::text::is_empty_text;
use crate::text::is_line;
use crate::text::is_space;
use crate::text::is_trimmed;
use crate::text::is_upper;
use crate::text::join;
use crate::text::join_of;
use crate::text::join_of_all;
use crate::text::last_position;
use crate::text::leading_run;
use crate::text::leading_word;
use crate::text::lemma_lines_join;
use crate::text::lines;
use crate::text::lines_of;
use crate::text::lines_read_back;
use crate::text::matches_at;
use crate::text::owned;
use crate::text::pair_option;
use crate::text::repeat;
use crate::text::rfind;
use crate::text::rfind_is_last;
use crate::text::run_ends_at_another;
use crate::text::run_len;
use crate::text::same;
use crate::text::split_finds_character;
use crate::text::split_once;
use crate::text::split_once_at;
use crate::text::split_parts_rejoin;
use crate::text::starts_with;
use crate::text::strip_prefix;
use crate::text::strip_suffix;
use crate::text::tail_of;
use crate::text::text_option;
use crate::text::text_pairs;
use crate::text::texts;
use crate::text::trim;
use crate::text::trim_end;
use crate::text::trim_end_finds;
use crate::text::trim_end_of;
use crate::text::trim_finds;
use crate::text::trim_of;
use crate::text::trimmed_text_is_kept;
use crate::text::word_ends_at_space;
use crate::text::word_len;

pub use crate::duration::parse_duration;

verus! {

// ---------------------------------------------------------------------------
// Documents
// ---------------------------------------------------------------------------

/// A parsed `.http` document.
#[derive(Debug, PartialEq, Eq)]
pub struct HttpFile {
    /// All requests, in file order.
    pub requests: Vec<Request>,
    /// File-scoped in-place variables (`@name = value`), hoisted so every
    /// request in the file can reference them.
    pub variables: Vec<(String, String)>,
}

/// A single HTTP request block.
#[derive(Debug, PartialEq, Eq)]
pub struct Request {
    /// Zero-based position of the request within the file.
    pub index: usize,
    /// Explicit name (`### name`, `# @name name` or `# @name = name`), if any.
    pub name: Option<String>,
    /// Explicit name or `#N` fallback (1-based position).
    pub display_name: String,
    pub method: String,
    pub url: String,
    pub headers: Vec<Header>,
    pub body: Option<String>,
    /// Zero-based line index of the `METHOD URL` line.
    pub request_line: usize,
    /// Zero-based line index of the first line of the request's section
    /// (the `###` separator or the first leading comment).
    pub start_line: usize,
    /// Zero-based line index of the last line of the request (inclusive).
    pub end_line: usize,
    /// Whether the `@no-redirect` tag was present.
    pub no_redirect: bool,
    /// Timeout in seconds from the `@timeout` tag.
    pub timeout_secs: Option<u64>,
    /// Connection timeout in seconds from the `@connection-timeout` tag.
    pub connection_timeout_secs: Option<u64>,
    /// Response handler (`> {% ... %}` or `> script.js`).
    pub handler: Option<Handler>,
    /// Response redirect (`>>` or `>>! path`).
    pub redirect_to: Option<Redirect>,
    /// Pre-request script (`< {% ... %}` or `< script.js`).
    pub pre_request_script: Option<Handler>,
}

#[derive(Debug, PartialEq, Eq)]
pub struct Header {
    pub name: String,
    pub value: String,
}

#[derive(Debug, PartialEq, Eq)]
pub enum Handler {
    Inline(String),
    File(String),
}

#[derive(Debug, PartialEq, Eq)]
pub struct Redirect {
    /// `>>!` overwrites; `>>` creates a new file with a numeric suffix.
    pub overwrite: bool,
    pub path: String,
}

// ---------------------------------------------------------------------------
// Their models
// ---------------------------------------------------------------------------

/// A document.
#[verifier::ext_equal]
pub ghost struct FileModel {
    pub requests: Seq<RequestModel>,
    pub variables: Seq<(Seq<char>, Seq<char>)>,
}

/// A request block.
#[verifier::ext_equal]
pub ghost struct RequestModel {
    pub index: int,
    pub name: Option<Seq<char>>,
    pub display_name: Seq<char>,
    pub method: Seq<char>,
    pub url: Seq<char>,
    pub headers: Seq<(Seq<char>, Seq<char>)>,
    pub body: Option<Seq<char>>,
    pub request_line: int,
    pub start_line: int,
    pub end_line: int,
    pub no_redirect: bool,
    pub timeout_secs: Option<u64>,
    pub connection_timeout_secs: Option<u64>,
    pub handler: Option<HandlerModel>,
    pub redirect_to: Option<RedirectModel>,
    pub pre_request_script: Option<HandlerModel>,
}

/// A script, given in place or by its file.
#[verifier::ext_equal]
pub ghost enum HandlerModel {
    Inline(Seq<char>),
    File(Seq<char>),
}

/// Where a response goes.
#[verifier::ext_equal]
pub ghost struct RedirectModel {
    pub overwrite: bool,
    pub path: Seq<char>,
}

impl View for Handler {
    type V = HandlerModel;

    open spec fn view(&self) -> HandlerModel {
        match self {
            Handler::Inline(s) => HandlerModel::Inline(s@),
            Handler::File(s) => HandlerModel::File(s@),
        }
    }
}

impl View for Redirect {
    type V = RedirectModel;

    open spec fn view(&self) -> RedirectModel {
        RedirectModel { overwrite: self.overwrite, path: self.path@ }
    }
}

pub open spec fn handler_model(h: Option<Handler>) -> Option<HandlerModel> {
    match h {
        Some(h) => Some(h@),
        None => None,
    }
}

pub open spec fn redirect_model(r: Option<Redirect>) -> Option<RedirectModel> {
    match r {
        Some(r) => Some(r@),
        None => None,
    }
}

/// The names and values of a list of headers.
pub open spec fn header_models(v: Seq<Header>) -> Seq<(Seq<char>, Seq<char>)> {
    Seq::new(v.len(), |i: int| (v[i].name@, v[i].value@))
}

impl View for Request {
    type V = RequestModel;

    open spec fn view(&self) -> RequestModel {
        RequestModel {
            index: self.index as int,
            name: text_option(self.name),
            display_name: self.display_name@,
            method: self.method@,
            url: self.url@,
            headers: header_models(self.headers@),
            body: text_option(self.body),
            request_line: self.request_line as int,
            start_line: self.start_line as int,
            end_line: self.end_line as int,
            no_redirect: self.no_redirect,
            timeout_secs: self.timeout_secs,
            connection_timeout_secs: self.connection_timeout_secs,
            handler: handler_model(self.handler),
            redirect_to: redirect_model(self.redirect_to),
            pre_request_script: handler_model(self.pre_request_script),
        }
    }
}

pub open spec fn request_models(v: Seq<Request>) -> Seq<RequestModel> {
    Seq::new(v.len(), |i: int| v[i]@)
}

impl View for HttpFile {
    type V = FileModel;

    open spec fn view(&self) -> FileModel {
        FileModel {
            requests: request_models(self.requests@),
            variables: text_pairs(self.variables@),
        }
    }
}

impl Clone for Handler {
    fn clone(&self) -> (r: Self)
        ensures
            r@ == self@,
    {
        match self {
            Handler::Inline(s) => Handler::Inline(s.clone()),
            Handler::File(s) => Handler::File(s.clone()),
        }
    }
}

impl Clone for Header {
    fn clone(&self) -> (r: Self)
        ensures
            r.name@ == self.name@,
            r.value@ == self.value@,
    {
        Header { name: self.name.clone(), value: self.value.clone() }
    }
}

impl Clone for Redirect {
    fn clone(&self) -> (r: Self)
        ensures
            r@ == self@,
    {
        Redirect { overwrite: self.overwrite, path: self.path.clone() }
    }
}

impl Clone for Request {
    fn clone(&self) -> (r: Self)
        ensures
            r@ == self@,
    {
        let mut headers: Vec<Header> = Vec::new();
        for i in 0..self.headers.len()
            invariant
                header_models(headers@) == header_models(self.headers@).take(i as int),
        {
            let ghost before = header_models(headers@);
            headers.push(self.headers[i].clone());
            assert(header_models(headers@) =~= before.push(header_models(self.headers@)[i as int]));
        }
        assert(header_models(headers@) =~= header_models(self.headers@));
        Request {
            index: self.index,
            name: copy_text(&self.name),
            display_name: self.display_name.clone(),
            method: self.method.clone(),
            url: self.url.clone(),
            headers,
            body: copy_text(&self.body),
            request_line: self.request_line,
            start_line: self.start_line,
            end_line: self.end_line,
            no_redirect: self.no_redirect,
            timeout_secs: self.timeout_secs,
            connection_timeout_secs: self.connection_timeout_secs,
            handler: copy_handler(&self.handler),
            redirect_to: match &self.redirect_to {
                Some(r) => Some(r.clone()),
                None => None,
            },
            pre_request_script: copy_handler(&self.pre_request_script),
        }
    }
}

impl Clone for HttpFile {
    fn clone(&self) -> (r: Self)
        ensures
            r@ == self@,
    {
        let mut requests: Vec<Request> = Vec::new();
        for i in 0..self.requests.len()
            invariant
                request_models(requests@) == request_models(self.requests@).take(i as int),
        {
            let ghost before = request_models(requests@);
            requests.push(self.requests[i].clone());
            assert(request_models(requests@) =~= before.push(self.requests@[i as int]@));
        }
        let variables = copy_pairs(&self.variables);
        assert(request_models(requests@) =~= request_models(self.requests@));
        HttpFile { requests, variables }
    }
}

impl Default for HttpFile {
    fn default() -> (r: Self)
        ensures
            r@ == (FileModel { requests: Seq::empty(), variables: Seq::empty() }),
    {
        let r = HttpFile { requests: Vec::new(), variables: Vec::new() };
        assert(r@ =~= FileModel { requests: Seq::empty(), variables: Seq::empty() });
        r
    }
}

// ---------------------------------------------------------------------------
// What the lines of a document mean
// ---------------------------------------------------------------------------

/// Whether `token` is `HTTP/` and a version in digits and points.
pub open spec fn is_version_token(token: Seq<char>) -> bool {
    match strip_prefix(token, "HTTP/"@) {
        Some(rest) => rest.len() > 0 && forall|i: int|
            0 <= i < rest.len() ==> is_digit(#[trigger] rest[i]) || rest[i] == '.',
        None => false,
    }
}

/// `line` without a trailing `HTTP/1.1`, `HTTP/2` or `HTTP/2 (Prior Knowledge)`.
pub open spec fn without_version(line: Seq<char>) -> Seq<char> {
    let base = match strip_suffix(line, " (Prior Knowledge)"@) {
        Some(base) => base,
        None => line,
    };
    match rfind(base, " HTTP/"@) {
        Some(p) => if is_version_token(base.skip(p + 1)) {
            trim_end(base.take(p))
        } else {
            base
        },
        None => base,
    }
}

pub open spec fn all_upper(s: Seq<char>) -> bool {
    forall|i: int| 0 <= i < s.len() ==> is_upper(#[trigger] s[i])
}

/// The method and the URL of a request line: `METHOD URL [HTTP-version]`, or
/// the short `URL` form, which is a `GET`.
pub open spec fn request_line(line: Seq<char>) -> (Seq<char>, Seq<char>) {
    let n = word_len(line) as int;
    let first = line.take(n);
    let rest = trim(line.skip(n + 1));
    if n < line.len() && first.len() >= 2 && all_upper(first) && rest.len() > 0 {
        (first, without_version(rest))
    } else {
        ("GET"@, without_version(line))
    }
}

pub open spec fn has_space(s: Seq<char>) -> bool {
    exists|i: int| 0 <= i < s.len() && is_space(#[trigger] s[i])
}

/// The name and the value of a `Name: value` line.
pub open spec fn header_line(line: Seq<char>) -> Option<(Seq<char>, Seq<char>)> {
    match split_once(line, ":"@) {
        Some((name, value)) => if trim(name).len() == 0 || has_space(trim(name)) {
            None
        } else {
            Some((trim(name), trim(value)))
        },
        None => None,
    }
}

/// Whether `s` is made of letters, digits, `_`, `-` and `.`.
pub open spec fn is_variable_name(s: Seq<char>) -> bool {
    s.len() > 0 && forall|i: int|
        0 <= i < s.len() ==> is_alphanumeric(#[trigger] s[i]) || s[i] == '_' || s[i] == '-' || s[i]
            == '.'
}

/// The name and the value of a `@name = value` line.
pub open spec fn variable_line(line: Seq<char>) -> Option<(Seq<char>, Seq<char>)> {
    match strip_prefix(line, "@"@) {
        Some(rest) => match split_once(rest, "="@) {
            Some((name, value)) => if is_variable_name(trim(name)) {
                Some((trim(name), trim(value)))
            } else {
                None
            },
            None => None,
        },
        None => None,
    }
}

/// The redirect that a `>> path` or `>>! path` line asks for.
pub open spec fn redirect_line(line: Seq<char>) -> Option<RedirectModel> {
    match strip_prefix(line, ">>"@) {
        Some(rest) => {
            let (overwrite, rest) = match strip_prefix(rest, "!"@) {
                Some(r) => (true, r),
                None => (false, rest),
            };
            if trim(rest).len() == 0 {
                None
            } else {
                Some(RedirectModel { overwrite, path: trim(rest) })
            }
        },
        None => None,
    }
}

/// `script` with the visible part of `text` as a further line.
pub open spec fn script_plus(script: Seq<char>, text: Seq<char>) -> Seq<char> {
    if is_blank(text) {
        script
    } else if script.len() == 0 {
        trim(text)
    } else {
        script.push('\n') + trim(text)
    }
}

/// The rest of an inline script whose first line is line `start`, from line `i`
/// on, after `script`: the script, and the number of lines that it takes.
pub open spec fn script_rest(
    lines: Seq<Seq<char>>,
    start: int,
    i: int,
    script: Seq<char>,
) -> (Seq<char>, int)
    decreases lines.len() - i,
{
    if i >= lines.len() {
        (script, lines.len() - start)
    } else {
        match strip_suffix(lines[i], "%}"@) {
            Some(before) => (script_plus(script, before), i - start + 1),
            None => script_rest(
                lines,
                start,
                i + 1,
                if script.len() == 0 {
                    lines[i]
                } else {
                    script.push('\n') + lines[i]
                },
            ),
        }
    }
}

/// The first line of an inline script, without its brackets.
pub open spec fn script_first(first: Seq<char>) -> Seq<char> {
    match strip_prefix(first, "{%"@) {
        Some(rest) => match strip_suffix(rest, "%}"@) {
            Some(inner) => inner,
            None => rest,
        },
        None => first,
    }
}

/// An inline `{% ... %}` script that starts on line `start` with `first`: the
/// script, and the number of lines that it takes.
pub open spec fn inline_script(lines: Seq<Seq<char>>, start: int, first: Seq<char>) -> (
    Seq<char>,
    int,
) {
    let script = script_plus(Seq::empty(), script_first(first));
    if ends_with(trim_end(first), "%}"@) {
        (script, 1)
    } else {
        script_rest(lines, start, start + 1, script)
    }
}

pub open spec fn is_indented(line: Seq<char>) -> bool {
    starts_with(line, " "@) || starts_with(line, "\t"@)
}

/// A URL that goes on in the indented lines from line `i` on: the first line
/// behind it, and the URL.
pub open spec fn continued_url(lines: Seq<Seq<char>>, i: int, url: Seq<char>) -> (int, Seq<char>)
    decreases lines.len() - i,
{
    if i >= lines.len() || is_blank(lines[i]) || !is_indented(lines[i]) {
        (i, url)
    } else {
        continued_url(lines, i + 1, url + trim(lines[i]))
    }
}

// ---------------------------------------------------------------------------
// What a document means
// ---------------------------------------------------------------------------

/// What the current section says before its request is complete.
#[verifier::ext_equal]
pub ghost struct SectionModel {
    pub name: Option<Seq<char>>,
    pub start_line: Option<int>,
    pub no_redirect: bool,
    pub timeout_secs: Option<u64>,
    pub connection_timeout_secs: Option<u64>,
    pub pre_request_script: Option<HandlerModel>,
}

/// The request that is being read.
#[verifier::ext_equal]
pub ghost struct DraftModel {
    pub method: Seq<char>,
    pub url: Seq<char>,
    pub headers: Seq<(Seq<char>, Seq<char>)>,
    pub request_line: int,
    pub start_line: int,
    pub handler: Option<HandlerModel>,
    pub redirect_to: Option<RedirectModel>,
}

/// What has been read so far.
#[verifier::ext_equal]
pub ghost struct ParserModel {
    pub section: SectionModel,
    pub current: Option<DraftModel>,
    pub body_lines: Seq<Seq<char>>,
    pub in_body: bool,
    pub has_content: bool,
    pub requests: Seq<RequestModel>,
    pub variables: Seq<(Seq<char>, Seq<char>)>,
}

pub open spec fn empty_section() -> SectionModel {
    SectionModel {
        name: None,
        start_line: None,
        no_redirect: false,
        timeout_secs: None,
        connection_timeout_secs: None,
        pre_request_script: None,
    }
}

pub open spec fn parser_start() -> ParserModel {
    ParserModel {
        section: empty_section(),
        current: None,
        body_lines: Seq::empty(),
        in_body: false,
        has_content: false,
        requests: Seq::empty(),
        variables: Seq::empty(),
    }
}

/// `lines` without blank lines at their end.
pub open spec fn without_blank_end(lines: Seq<Seq<char>>) -> Seq<Seq<char>>
    decreases lines.len(),
{
    if lines.len() > 0 && is_blank(lines.last()) {
        without_blank_end(lines.drop_last())
    } else {
        lines
    }
}

/// `lines` without blank lines at their start.
pub open spec fn without_blank_start(lines: Seq<Seq<char>>) -> Seq<Seq<char>>
    decreases lines.len(),
{
    if lines.len() > 0 && is_blank(lines[0]) {
        without_blank_start(lines.drop_first())
    } else {
        lines
    }
}

/// The body that its lines make up.
pub open spec fn body_of(lines: Seq<Seq<char>>) -> Option<Seq<char>> {
    let kept = without_blank_start(without_blank_end(lines));
    if kept.len() == 0 {
        None
    } else {
        Some(join(kept, "\n"@))
    }
}

/// The requests, with the one that is being read completed on line `end`.
pub open spec fn completed(p: ParserModel, end: int) -> Seq<RequestModel> {
    match p.current {
        None => p.requests,
        Some(d) => p.requests.push(
            RequestModel {
                index: p.requests.len() as int,
                name: p.section.name,
                display_name: match p.section.name {
                    Some(name) => name,
                    None => seq!['#'] + decimal(p.requests.len() + 1),
                },
                method: d.method,
                url: d.url,
                headers: d.headers,
                body: body_of(p.body_lines),
                request_line: d.request_line,
                start_line: d.start_line,
                end_line: end,
                no_redirect: p.section.no_redirect,
                timeout_secs: p.section.timeout_secs,
                connection_timeout_secs: p.section.connection_timeout_secs,
                handler: d.handler,
                redirect_to: d.redirect_to,
                pre_request_script: p.section.pre_request_script,
            },
        ),
    }
}

/// A `###` line ends the request before it and starts a section, whose name may
/// follow.
pub open spec fn on_separator(p: ParserModel, i: int, trimmed: Seq<char>) -> ParserModel {
    let name = trim(trimmed.skip(run_len(trimmed, '#') as int));
    ParserModel {
        section: SectionModel {
            name: if name.len() == 0 {
                None
            } else {
                Some(name)
            },
            start_line: Some(i),
            ..empty_section()
        },
        current: None,
        body_lines: if p.current is Some {
            Seq::empty()
        } else {
            p.body_lines
        },
        in_body: false,
        has_content: true,
        requests: completed(p, i - 1),
        ..p
    }
}

/// A blank line ends the headers, or is part of the body.
pub open spec fn on_blank(p: ParserModel) -> ParserModel {
    if p.current is None {
        p
    } else if p.in_body {
        ParserModel { body_lines: p.body_lines.push(Seq::empty()), ..p }
    } else {
        ParserModel { in_body: true, ..p }
    }
}

/// The section, whose first line with content may be line `i`.
pub open spec fn section_from(p: ParserModel, i: int) -> SectionModel {
    if !p.has_content && p.section.start_line is None {
        SectionModel { start_line: Some(i), ..p.section }
    } else {
        p.section
    }
}

/// What the tag in a comment does to the section.
pub open spec fn tagged(s: SectionModel, content: Seq<char>) -> SectionModel {
    if starts_with(content, "@name"@) {
        let rest = trim(drop_leading(trim(content.skip("@name"@.len() as int)), seq!['=']));
        if rest.len() == 0 {
            s
        } else {
            SectionModel { name: Some(rest), ..s }
        }
    } else if content == "@no-redirect"@ {
        SectionModel { no_redirect: true, ..s }
    } else if starts_with(content, "@timeout"@) {
        SectionModel {
            timeout_secs: duration(trim(content.skip("@timeout"@.len() as int))),
            ..s
        }
    } else if starts_with(content, "@connection-timeout"@) {
        SectionModel {
            connection_timeout_secs: duration(
                trim(content.skip("@connection-timeout"@.len() as int)),
            ),
            ..s
        }
    } else {
        s
    }
}

/// A comment may carry a tag.
pub open spec fn on_comment(p: ParserModel, i: int, trimmed: Seq<char>) -> ParserModel {
    ParserModel {
        section: tagged(section_from(p, i), trim(drop_leading(trimmed, seq!['/', '#']))),
        has_content: true,
        ..p
    }
}

/// A line before the request line: a variable, a pre-request script, or the
/// request line itself with the lines that its URL goes on in.
pub open spec fn before_request(lines: Seq<Seq<char>>, p: ParserModel, i: int) -> (
    int,
    ParserModel,
) {
    let trimmed = trim(lines[i]);
    let rest = trim(trimmed.skip(1));
    if variable_line(trimmed) is Some {
        (
            i + 1,
            ParserModel {
                section: section_from(p, i),
                has_content: true,
                variables: p.variables.push(variable_line(trimmed)->0),
                ..p
            },
        )
    } else if starts_with(trimmed, "<"@) && starts_with(rest, "{%"@) {
        let (script, taken) = inline_script(lines, i, rest);
        (
            i + taken,
            ParserModel {
                section: SectionModel {
                    pre_request_script: Some(HandlerModel::Inline(script)),
                    ..p.section
                },
                has_content: true,
                ..p
            },
        )
    } else if starts_with(trimmed, "<"@) && rest.len() > 0 {
        (
            i + 1,
            ParserModel {
                section: SectionModel {
                    pre_request_script: Some(HandlerModel::File(rest)),
                    ..p.section
                },
                has_content: true,
                ..p
            },
        )
    } else if is_indented(lines[i]) {
        (i + 1, ParserModel { has_content: true, ..p })
    } else {
        let section = section_from(p, i);
        let (next, url) = continued_url(lines, i + 1, request_line(trimmed).1);
        (
            next,
            ParserModel {
                section,
                has_content: true,
                current: Some(
                    DraftModel {
                        method: request_line(trimmed).0,
                        url,
                        headers: Seq::empty(),
                        request_line: i,
                        start_line: match section.start_line {
                            Some(s) => s,
                            None => i,
                        },
                        handler: None,
                        redirect_to: None,
                    },
                ),
                ..p
            },
        )
    }
}

/// A line behind the request line: a redirect, a response handler, a header, or
/// a line of the body.
pub open spec fn within_request(
    lines: Seq<Seq<char>>,
    p: ParserModel,
    d: DraftModel,
    i: int,
) -> (int, ParserModel) {
    let trimmed = trim(lines[i]);
    let rest = trim(trimmed.skip(1));
    let handles = starts_with(trimmed, ">"@) && !starts_with(trimmed, ">>"@);
    if redirect_line(trimmed) is Some {
        (
            i + 1,
            ParserModel {
                current: Some(DraftModel { redirect_to: redirect_line(trimmed), ..d }),
                ..p
            },
        )
    } else if handles && starts_with(rest, "{%"@) {
        let (script, taken) = inline_script(lines, i, rest);
        (
            i + taken,
            ParserModel {
                current: Some(
                    DraftModel { handler: Some(HandlerModel::Inline(script)), ..d },
                ),
                ..p
            },
        )
    } else if handles && rest.len() > 0 {
        (
            i + 1,
            ParserModel {
                current: Some(DraftModel { handler: Some(HandlerModel::File(rest)), ..d }),
                ..p
            },
        )
    } else if !p.in_body && header_line(trimmed) is Some {
        (
            i + 1,
            ParserModel {
                current: Some(
                    DraftModel { headers: d.headers.push(header_line(trimmed)->0), ..d },
                ),
                ..p
            },
        )
    } else {
        (i + 1, ParserModel { in_body: true, body_lines: p.body_lines.push(lines[i]), ..p })
    }
}

/// What line `i` does: the next line to read, and what has been read then.
pub open spec fn parser_step(lines: Seq<Seq<char>>, p: ParserModel, i: int) -> (
    int,
    ParserModel,
) {
    let trimmed = trim(lines[i]);
    if run_len(trimmed, '#') >= 3 {
        (i + 1, on_separator(p, i, trimmed))
    } else if trimmed.len() == 0 {
        (i + 1, on_blank(p))
    } else if starts_with(trimmed, "//"@) || starts_with(trimmed, "#"@) {
        (i + 1, on_comment(p, i, trimmed))
    } else {
        match p.current {
            None => before_request(lines, p, i),
            Some(d) => within_request(lines, p, d, i),
        }
    }
}

/// What has been read after all lines from line `i` on.
pub open spec fn parser_run(lines: Seq<Seq<char>>, p: ParserModel, i: int) -> ParserModel
    decreases lines.len() - i,
{
    if i < 0 || i >= lines.len() {
        p
    } else {
        proof {
            lemma_step_advances(lines, p, i);
        }
        let (next, q) = parser_step(lines, p, i);
        parser_run(lines, q, next)
    }
}

/// The document that a text denotes.
pub open spec fn document(input: Seq<char>) -> FileModel {
    let all = lines(input);
    let p = parser_run(all, parser_start(), 0);
    FileModel {
        requests: completed(
            p,
            if all.len() == 0 {
                0
            } else {
                all.len() - 1
            },
        ),
        variables: p.variables,
    }
}

proof fn lemma_script_rest(lines: Seq<Seq<char>>, start: int, i: int, script: Seq<char>)
    requires
        start < i <= lines.len(),
    ensures
        1 <= script_rest(lines, start, i, script).1 <= lines.len() - start,
    decreases lines.len() - i,
{
    if i < lines.len() && strip_suffix(lines[i], "%}"@) is None {
        lemma_script_rest(
            lines,
            start,
            i + 1,
            if script.len() == 0 {
                lines[i]
            } else {
                script.push('\n') + lines[i]
            },
        );
    }
}

proof fn lemma_inline_script(lines: Seq<Seq<char>>, start: int, first: Seq<char>)
    requires
        0 <= start < lines.len(),
    ensures
        1 <= inline_script(lines, start, first).1 <= lines.len() - start,
{
    lemma_script_rest(
        lines,
        start,
        start + 1,
        script_plus(Seq::empty(), script_first(first)),
    );
}

proof fn lemma_continued_url(lines: Seq<Seq<char>>, i: int, url: Seq<char>)
    requires
        i <= lines.len(),
    ensures
        i <= continued_url(lines, i, url).0 <= lines.len(),
    decreases lines.len() - i,
{
    if i < lines.len() && !is_blank(lines[i]) && is_indented(lines[i]) {
        lemma_continued_url(lines, i + 1, url + trim(lines[i]));
    }
}

/// Every line that is read takes the parser forward.
pub proof fn lemma_step_advances(lines: Seq<Seq<char>>, p: ParserModel, i: int)
    requires
        0 <= i < lines.len(),
    ensures
        i < parser_step(lines, p, i).0 <= lines.len(),
{
    let trimmed = trim(lines[i]);
    lemma_inline_script(lines, i, trim(trimmed.skip(1)));
    lemma_continued_url(lines, i + 1, request_line(trimmed).1);
}

// ---------------------------------------------------------------------------
// Lines
// ---------------------------------------------------------------------------

/// Whether `token` is an HTTP version, such as `HTTP/1.1`.
pub fn is_http_version_token(token: &str) -> (r: bool)
    ensures
        r == is_version_token(token@),
{
    match after_prefix(token, "HTTP/") {
        None => false,
        Some(rest) => {
            let cs = chars_of(rest);
            if cs.len() == 0 {
                return false;
            }
            for i in 0..cs.len()
                invariant
                    cs@ == rest@,
                    forall|k: int|
                        0 <= k < i ==> is_digit(#[trigger] rest@[k]) || rest@[k] == '.',
                    strip_prefix(token@, "HTTP/"@) == Some(rest@),
            {
                if !(char_is_digit(cs[i]) || cs[i] == '.') {
                    assert(rest@[i as int] == cs[i as int]);
                    return false;
                }
            }
            true
        },
    }
}

/// Strips a trailing `HTTP/1.1`, `HTTP/2` or `HTTP/2 (Prior Knowledge)` token.
pub fn strip_http_version<'a>(line: &'a str) -> (r: &'a str)
    ensures
        r@ == without_version(line@),
{
    let base = match before_suffix(line, " (Prior Knowledge)") {
        Some(base) => base,
        None => line,
    };
    match last_position(base, " HTTP/") {
        Some(p) => {
            proof {
                reveal_strlit(" HTTP/");
            }
            let total: usize = base.unicode_len();
            if p < total && is_http_version_token(tail_of(base, p + 1)) {
                trim_end_of(head_of(base, p))
            } else {
                base
            }
        },
        None => base,
    }
}

fn is_all_upper(s: &str) -> (r: bool)
    ensures
        r == all_upper(s@),
{
    let cs = chars_of(s);
    for i in 0..cs.len()
        invariant
            cs@ == s@,
            forall|k: int| 0 <= k < i ==> is_upper(#[trigger] s@[k]),
    {
        if !char_is_upper(cs[i]) {
            assert(!is_upper(s@[i as int]));
            return false;
        }
    }
    true
}

/// Parses `METHOD URL [HTTP-version]` or the short `URL` GET form.
pub fn parse_request_line(line: &str) -> (r: (String, String))
    ensures
        (r.0@, r.1@) == request_line(line@),
{
    let n: usize = leading_word(line);
    if n < chars_of(line).len() {
        let first = head_of(line, n);
        let rest = trim_of(tail_of(line, n + 1));
        if n >= 2 && is_all_upper(first) && !is_empty_text(rest) {
            return (owned(first), owned(strip_http_version(rest)));
        }
    }
    (owned("GET"), owned(strip_http_version(line)))
}

fn holds_space(s: &str) -> (r: bool)
    ensures
        r == has_space(s@),
{
    let cs = chars_of(s);
    for i in 0..cs.len()
        invariant
            cs@ == s@,
            forall|k: int| 0 <= k < i ==> !is_space(#[trigger] s@[k]),
    {
        if char_is_space(cs[i]) {
            assert(is_space(s@[i as int]));
            return true;
        }
    }
    false
}

pub open spec fn header_pair(h: Option<Header>) -> Option<(Seq<char>, Seq<char>)> {
    match h {
        Some(h) => Some((h.name@, h.value@)),
        None => None,
    }
}

/// Parses a `Name: value` header line.
pub fn parse_header(line: &str) -> (r: Option<Header>)
    ensures
        header_pair(r) == header_line(line@),
{
    match split_once_at(line, ":") {
        None => None,
        Some((name, value)) => {
            let name = trim_of(name);
            if is_empty_text(name) || holds_space(name) {
                None
            } else {
                Some(Header { name: owned(name), value: owned(trim_of(value)) })
            }
        },
    }
}

fn names_variable(s: &str) -> (r: bool)
    ensures
        r == is_variable_name(s@),
{
    let cs = chars_of(s);
    if cs.len() == 0 {
        return false;
    }
    for i in 0..cs.len()
        invariant
            cs@ == s@,
            forall|k: int|
                0 <= k < i ==> is_alphanumeric(#[trigger] s@[k]) || s@[k] == '_' || s@[k] == '-'
                    || s@[k] == '.',
    {
        let c = cs[i];
        if !(char_is_word(c) || c == '_' || c == '-' || c == '.') {
            assert(s@[i as int] == c);
            return false;
        }
    }
    true
}

/// Parses `@name = value`.
pub fn parse_variable_declaration(line: &str) -> (r: Option<(String, String)>)
    ensures
        pair_option(r) == variable_line(line@),
{
    match after_prefix(line, "@") {
        None => None,
        Some(rest) => match split_once_at(rest, "=") {
            None => None,
            Some((name, value)) => {
                let name = trim_of(name);
                if names_variable(name) {
                    Some((owned(name), owned(trim_of(value))))
                } else {
                    None
                }
            },
        },
    }
}

/// Parses `>>` or `>>!` response redirects.
pub fn parse_redirect(line: &str) -> (r: Option<Redirect>)
    ensures
        redirect_model(r) == redirect_line(line@),
{
    match after_prefix(line, ">>") {
        None => None,
        Some(rest) => {
            let (overwrite, rest) = match after_prefix(rest, "!") {
                Some(r) => (true, r),
                None => (false, rest),
            };
            let path = trim_of(rest);
            if is_empty_text(path) {
                None
            } else {
                Some(Redirect { overwrite, path: owned(path) })
            }
        },
    }
}

fn add_to_script(script: &mut String, text: &str)
    ensures
        final(script)@ == script_plus(old(script)@, text@),
{
    let text = trim_of(text);
    if !is_empty_text(text) {
        if !is_empty_text(script.as_str()) {
            script.push('\n');
            script.append(text);
        } else {
            script.append(text);
            assert(script@ =~= text@);
        }
    }
}

/// Collects an inline `{% ... %}` script, returning the script and how many
/// lines were consumed.
pub fn collect_inline_script(lines: &Vec<String>, start: usize, first: &str) -> (r: (
    Handler,
    usize,
))
    requires
        start < lines@.len(),
    ensures
        r.0@ == HandlerModel::Inline(inline_script(texts(lines@), start as int, first@).0),
        r.1 == inline_script(texts(lines@), start as int, first@).1,
        1 <= r.1 <= lines@.len() - start,
{
    proof {
        lemma_inline_script(texts(lines@), start as int, first@);
    }
    let mut script = String::new();
    let inner = match after_prefix(first, "{%") {
        Some(rest) => match before_suffix(rest, "%}") {
            Some(inner) => inner,
            None => rest,
        },
        None => first,
    };
    add_to_script(&mut script, inner);
    if has_suffix(trim_end_of(first), "%}") {
        return (Handler::Inline(script), 1);
    }
    let total: usize = lines.len();
    let mut i: usize = start + 1;
    while i < total
        invariant
            start < i <= total,
            total == lines@.len(),
            script_rest(texts(lines@), start as int, i as int, script@) == inline_script(
                texts(lines@),
                start as int,
                first@,
            ),
        decreases lines@.len() - i,
    {
        let line = lines[i].as_str();
        assert(line@ == texts(lines@)[i as int]);
        match before_suffix(line, "%}") {
            Some(before) => {
                add_to_script(&mut script, before);
                return (Handler::Inline(script), i - start + 1);
            },
            None => {
                if is_empty_text(script.as_str()) {
                    script.append(line);
                    assert(script@ =~= line@);
                } else {
                    script.push('\n');
                    script.append(line);
                }
            },
        }
        i = i + 1;
    }
    (Handler::Inline(script), lines.len() - start)
}

// ---------------------------------------------------------------------------
// Documents, line by line
// ---------------------------------------------------------------------------

/// The tags and the script of the current section.
struct SectionState {
    name: Option<String>,
    start_line: Option<usize>,
    no_redirect: bool,
    timeout_secs: Option<u64>,
    connection_timeout_secs: Option<u64>,
    pre_request_script: Option<Handler>,
}

/// The request that is being read.
struct RequestBuilder {
    method: String,
    url: String,
    headers: Vec<Header>,
    request_line: usize,
    start_line: usize,
    handler: Option<Handler>,
    redirect_to: Option<Redirect>,
}

/// What has been read so far.
struct ParserState {
    section: SectionState,
    current: Option<RequestBuilder>,
    body_lines: Vec<String>,
    in_body: bool,
    has_content: bool,
    requests: Vec<Request>,
    variables: Vec<(String, String)>,
}

spec fn line_model(line: Option<usize>) -> Option<int> {
    match line {
        Some(i) => Some(i as int),
        None => None,
    }
}

impl View for SectionState {
    type V = SectionModel;

    closed spec fn view(&self) -> SectionModel {
        SectionModel {
            name: text_option(self.name),
            start_line: line_model(self.start_line),
            no_redirect: self.no_redirect,
            timeout_secs: self.timeout_secs,
            connection_timeout_secs: self.connection_timeout_secs,
            pre_request_script: handler_model(self.pre_request_script),
        }
    }
}

impl View for RequestBuilder {
    type V = DraftModel;

    closed spec fn view(&self) -> DraftModel {
        DraftModel {
            method: self.method@,
            url: self.url@,
            headers: header_models(self.headers@),
            request_line: self.request_line as int,
            start_line: self.start_line as int,
            handler: handler_model(self.handler),
            redirect_to: redirect_model(self.redirect_to),
        }
    }
}

impl View for ParserState {
    type V = ParserModel;

    closed spec fn view(&self) -> ParserModel {
        ParserModel {
            section: self.section@,
            current: match self.current {
                Some(d) => Some(d@),
                None => None,
            },
            body_lines: texts(self.body_lines@),
            in_body: self.in_body,
            has_content: self.has_content,
            requests: request_models(self.requests@),
            variables: text_pairs(self.variables@),
        }
    }
}

impl SectionState {
    fn empty() -> (r: SectionState)
        ensures
            r@ == empty_section(),
    {
        SectionState {
            name: None,
            start_line: None,
            no_redirect: false,
            timeout_secs: None,
            connection_timeout_secs: None,
            pre_request_script: None,
        }
    }

    /// Applies the tag that a comment carries.
    fn tag(&mut self, content: &str)
        ensures
            final(self)@ == tagged(old(self)@, content@),
    {
        if let Some(rest) = after_prefix(content, "@name") {
            let rest = trim_of(drop_leading_of(trim_of(rest), &['=']));
            assert(['=']@ =~= seq!['=']);
            if !is_empty_text(rest) {
                self.name = Some(owned(rest));
            }
        } else if same(content, "@no-redirect") {
            self.no_redirect = true;
        } else if let Some(rest) = after_prefix(content, "@timeout") {
            self.timeout_secs = parse_duration(trim_of(rest));
        } else if let Some(rest) = after_prefix(content, "@connection-timeout") {
            self.connection_timeout_secs = parse_duration(trim_of(rest));
        }
    }
}

fn drop_blank_ends(v: Vec<String>) -> (r: Vec<String>)
    ensures
        texts(r@) == without_blank_start(without_blank_end(texts(v@))),
{
    let mut v = v;
    let ghost all = texts(v@);
    while v.len() > 0 && is_empty_text(trim_of(v[v.len() - 1].as_str()))
        invariant
            without_blank_end(texts(v@)) == without_blank_end(all),
        decreases v@.len(),
    {
        let ghost before = texts(v@);
        assert(before.last() == v@.last()@);
        v.pop();
        assert(texts(v@) =~= before.drop_last());
    }
    assert(texts(v@) == without_blank_end(all)) by {
        if v@.len() > 0 {
            assert(texts(v@).last() == v@.last()@);
        }
    }
    let ghost kept = texts(v@);
    while v.len() > 0 && is_empty_text(trim_of(v[0].as_str()))
        invariant
            without_blank_start(texts(v@)) == without_blank_start(kept),
        decreases v@.len(),
    {
        let ghost before = texts(v@);
        assert(before[0] == v@[0]@);
        v.remove(0);
        assert(texts(v@) =~= before.drop_first());
    }
    assert(texts(v@) == without_blank_start(kept)) by {
        if v@.len() > 0 {
            assert(texts(v@)[0] == v@[0]@);
        }
    }
    v
}

impl ParserState {
    fn start() -> (r: ParserState)
        ensures
            r@ == parser_start(),
    {
        let r = ParserState {
            section: SectionState::empty(),
            current: None,
            body_lines: Vec::new(),
            in_body: false,
            has_content: false,
            requests: Vec::new(),
            variables: Vec::new(),
        };
        assert(r@ =~= parser_start());
        r
    }

    /// Completes the request that is being read.
    fn complete(&mut self, end_line: usize)
        requires
            old(self)@.current is Some ==> old(self)@.requests.len() < usize::MAX,
        ensures
            final(self)@ == (ParserModel {
                current: None,
                body_lines: if old(self)@.current is Some {
                    Seq::empty()
                } else {
                    old(self)@.body_lines
                },
                requests: completed(old(self)@, end_line as int),
                ..old(self)@
            }),
    {
        if let Some(builder) = self.current.take() {
            let mut lines: Vec<String> = Vec::new();
            std::mem::swap(&mut lines, &mut self.body_lines);
            let lines = drop_blank_ends(lines);
            let body = if lines.len() == 0 {
                None
            } else {
                Some(join_of(&lines, "\n"))
            };
            let index: usize = self.requests.len();
            let name = copy_text(&self.section.name);
            let display_name = match &name {
                Some(name) => owned(name.as_str()),
                None => {
                    let mut s = String::new();
                    s.push('#');
                    s.append(decimal_of(index as u64 + 1).as_str());
                    assert(s@ =~= seq!['#'] + decimal((index + 1) as nat));
                    s
                },
            };
            let ghost before = self.requests@;
            self.requests.push(
                Request {
                    index,
                    name,
                    display_name,
                    method: builder.method,
                    url: builder.url,
                    headers: builder.headers,
                    body,
                    request_line: builder.request_line,
                    start_line: builder.start_line,
                    end_line,
                    no_redirect: self.section.no_redirect,
                    timeout_secs: self.section.timeout_secs,
                    connection_timeout_secs: self.section.connection_timeout_secs,
                    handler: builder.handler,
                    redirect_to: builder.redirect_to,
                    pre_request_script: copy_handler(&self.section.pre_request_script),
                },
            );
            assert(request_models(self.requests@) =~= request_models(before).push(
                self.requests@.last()@,
            ));
            assert(request_models(self.requests@) == completed(old(self)@, end_line as int));
            assert(texts(self.body_lines@) =~= Seq::empty());
        }
    }
}

/// A copy of an optional script.
pub fn copy_handler(h: &Option<Handler>) -> (r: Option<Handler>)
    ensures
        handler_model(r) == handler_model(*h),
{
    match h {
        Some(h) => Some(h.clone()),
        None => None,
    }
}

impl ParserState {
    /// Ends the section before a `###` line and starts the next.
    fn separator(&mut self, i: usize, trimmed: &str)
        requires
            old(self)@.current is Some ==> old(self)@.requests.len() < i,
        ensures
            final(self)@ == on_separator(old(self)@, i as int, trimmed@),
    {
        let end_line: usize = if i > 0 {
            i - 1
        } else {
            0
        };
        self.complete(end_line);
        let name = trim_of(tail_of(trimmed, leading_run(trimmed, '#')));
        self.section = SectionState {
            name: if is_empty_text(name) {
                None
            } else {
                Some(owned(name))
            },
            start_line: Some(i),
            ..SectionState::empty()
        };
        self.in_body = false;
        self.has_content = true;
    }

    fn blank(&mut self)
        ensures
            final(self)@ == on_blank(old(self)@),
    {
        if self.current.is_some() {
            if self.in_body {
                self.body_lines.push(String::new());
                assert(texts(self.body_lines@) =~= old(self)@.body_lines.push(Seq::empty()));
            } else {
                self.in_body = true;
            }
        }
    }

    /// Lets the section start on line `i`, where that is its first line with
    /// content.
    fn mark_content(&mut self, i: usize)
        ensures
            final(self)@ == (ParserModel {
                section: section_from(old(self)@, i as int),
                has_content: true,
                ..old(self)@
            }),
    {
        if !self.has_content && self.section.start_line.is_none() {
            self.section.start_line = Some(i);
        }
        self.has_content = true;
    }

    fn comment(&mut self, i: usize, trimmed: &str)
        ensures
            final(self)@ == on_comment(old(self)@, i as int, trimmed@),
    {
        self.mark_content(i);
        let content = trim_of(drop_leading_of(trimmed, &['/', '#']));
        assert(['/', '#']@ =~= seq!['/', '#']);
        self.section.tag(content);
    }

    /// Reads line `i`, which stands before the request line of its section.
    fn before_request(&mut self, lines: &Vec<String>, i: usize) -> (next: usize)
        requires
            i < lines@.len(),
            old(self)@.current is None,
            trim(texts(lines@)[i as int]).len() > 0,
        ensures
            (next as int, final(self)@) == before_request(texts(lines@), old(self)@, i as int),
    {
        let ghost all = texts(lines@);
        let total: usize = lines.len();
        let line = lines[i].as_str();
        assert(line@ == all[i as int]);
        let trimmed = trim_of(line);
        if let Some((name, value)) = parse_variable_declaration(trimmed) {
            self.mark_content(i);
            self.variables.push((name, value));
            assert(text_pairs(self.variables@) =~= old(self)@.variables.push((name@, value@)));
            return i + 1;
        }
        if has_prefix(trimmed, "<") {
            let rest = trim_of(tail_of(trimmed, 1));
            if has_prefix(rest, "{%") {
                let (handler, taken) = collect_inline_script(lines, i, rest);
                self.section.pre_request_script = Some(handler);
                self.has_content = true;
                return i + taken;
            }
            if !is_empty_text(rest) {
                self.section.pre_request_script = Some(Handler::File(owned(rest)));
                self.has_content = true;
                return i + 1;
            }
        }
        if has_prefix(line, " ") || has_prefix(line, "\t") {
            self.has_content = true;
            return i + 1;
        }
        let (method, url) = parse_request_line(trimmed);
        self.mark_content(i);
        let start_line: usize = match self.section.start_line {
            Some(s) => s,
            None => i,
        };
        let mut url = url;
        let ghost first = url@;
        let mut next: usize = i + 1;
        while next < total
            invariant_except_break
                continued_url(all, next as int, url@) == continued_url(all, i + 1, first),
            invariant
                i < next <= total,
                total == lines@.len(),
                all == texts(lines@),
            ensures
                (next as int, url@) == continued_url(all, i + 1, first),
            decreases total - next,
        {
            let more = lines[next].as_str();
            assert(more@ == all[next as int]);
            let text = trim_of(more);
            if is_empty_text(text) || !(has_prefix(more, " ") || has_prefix(more, "\t")) {
                break;
            }
            url.append(text);
            next = next + 1;
        }
        let headers: Vec<Header> = Vec::new();
        assert(header_models(headers@) =~= Seq::empty());
        self.current = Some(
            RequestBuilder {
                method,
                url,
                headers,
                request_line: i,
                start_line,
                handler: None,
                redirect_to: None,
            },
        );
        next
    }

    /// Reads line `i`, which stands behind the request line of its section.
    fn within_request(&mut self, lines: &Vec<String>, i: usize) -> (next: usize)
        requires
            i < lines@.len(),
            old(self)@.current is Some,
            trim(texts(lines@)[i as int]).len() > 0,
        ensures
            (next as int, final(self)@) == within_request(
                texts(lines@),
                old(self)@,
                old(self)@.current->0,
                i as int,
            ),
    {
        let total: usize = lines.len();
        let line = lines[i].as_str();
        assert(line@ == texts(lines@)[i as int]);
        let trimmed = trim_of(line);
        let redirect = parse_redirect(trimmed);
        if redirect.is_some() {
            if let Some(mut draft) = self.current.take() {
                draft.redirect_to = redirect;
                self.current = Some(draft);
            }
            return i + 1;
        }
        if has_prefix(trimmed, ">") && !has_prefix(trimmed, ">>") {
            let rest = trim_of(tail_of(trimmed, 1));
            if has_prefix(rest, "{%") {
                let (handler, taken) = collect_inline_script(lines, i, rest);
                if let Some(mut draft) = self.current.take() {
                    draft.handler = Some(handler);
                    self.current = Some(draft);
                }
                return i + taken;
            }
            if !is_empty_text(rest) {
                if let Some(mut draft) = self.current.take() {
                    draft.handler = Some(Handler::File(owned(rest)));
                    self.current = Some(draft);
                }
                return i + 1;
            }
        }
        if !self.in_body {
            if let Some(header) = parse_header(trimmed) {
                if let Some(mut draft) = self.current.take() {
                    draft.headers.push(header);
                    assert(header_models(draft.headers@) =~= old(self)@.current->0.headers.push(
                        (header.name@, header.value@),
                    ));
                    self.current = Some(draft);
                }
                return i + 1;
            }
            self.in_body = true;
        }
        self.body_lines.push(owned(line));
        assert(texts(self.body_lines@) =~= old(self)@.body_lines.push(line@));
        i + 1
    }

    /// Reads line `i`, and says which line to read next.
    fn step(&mut self, lines: &Vec<String>, i: usize) -> (next: usize)
        requires
            i < lines@.len(),
            old(self)@.current is Some ==> old(self)@.requests.len() < i,
        ensures
            (next as int, final(self)@) == parser_step(texts(lines@), old(self)@, i as int),
    {
        let total: usize = lines.len();
        let trimmed = trim_of(lines[i].as_str());
        assert(trimmed@ == trim(texts(lines@)[i as int]));
        if leading_run(trimmed, '#') >= 3 {
            self.separator(i, trimmed);
            i + 1
        } else if is_empty_text(trimmed) {
            self.blank();
            i + 1
        } else if has_prefix(trimmed, "//") || has_prefix(trimmed, "#") {
            self.comment(i, trimmed);
            i + 1
        } else if self.current.is_none() {
            self.before_request(lines, i)
        } else {
            self.within_request(lines, i)
        }
    }
}

/// The number of requests that have been begun.
pub open spec fn begun(p: ParserModel) -> nat {
    p.requests.len() + if p.current is Some {
        1nat
    } else {
        0nat
    }
}

/// Parses the text of a `.http` file.
pub fn parse(input: &str) -> (r: HttpFile)
    ensures
        r@ == document(input@),
{
    let lines = lines_of(input);
    let total: usize = lines.len();
    let ghost all = texts(lines@);
    let mut state = ParserState::start();
    let mut i: usize = 0;
    while i < total
        invariant
            total == lines@.len(),
            all == texts(lines@),
            i <= total,
            begun(state@) <= i,
            parser_run(all, state@, i as int) == parser_run(all, parser_start(), 0),
        decreases total - i,
    {
        let ghost before = state@;
        let next: usize = state.step(&lines, i);
        proof {
            lemma_step_advances(all, before, i as int);
        }
        i = next;
    }
    let end_line: usize = if total == 0 {
        0
    } else {
        total - 1
    };
    state.complete(end_line);
    HttpFile { requests: state.requests, variables: state.variables }
}

// ---------------------------------------------------------------------------
// What holds of every document
// ---------------------------------------------------------------------------

/// Whether `r` can be request number `k` of a document: it is numbered by its
/// position, shown by its name or else by that number, and lies on the lines
/// from `start_line` to `end_line`, its request line among them.
pub open spec fn is_placed(r: RequestModel, k: int) -> bool {
    &&& r.index == k
    &&& r.display_name == match r.name {
        Some(name) => name,
        None => seq!['#'] + decimal((k + 1) as nat),
    }
    &&& 0 <= r.start_line <= r.request_line <= r.end_line
    &&& r.body is Some ==> r.body->0.len() > 0
}

/// Whether the requests follow each other, no two of them on one line.
pub open spec fn are_placed(requests: Seq<RequestModel>) -> bool {
    &&& forall|k: int| 0 <= k < requests.len() ==> is_placed(#[trigger] requests[k], k)
    &&& forall|j: int, k: int|
        0 <= j < k < requests.len() ==> (#[trigger] requests[j]).end_line < (
        #[trigger] requests[k]).start_line
}

/// Whether what is yet to come can start on line `start`.
spec fn all_end_before(requests: Seq<RequestModel>, start: int) -> bool {
    forall|k: int| 0 <= k < requests.len() ==> (#[trigger] requests[k]).end_line < start
}

spec fn parser_wf(p: ParserModel, i: int) -> bool {
    &&& are_placed(p.requests)
    &&& all_end_before(p.requests, i)
    &&& p.section.start_line matches Some(s) ==> 0 <= s < i && all_end_before(p.requests, s)
    &&& p.current matches Some(d) ==> 0 <= d.start_line <= d.request_line < i && all_end_before(
        p.requests,
        d.start_line,
    )
}

proof fn lemma_blank_end(lines: Seq<Seq<char>>)
    ensures
        without_blank_end(lines).len() > 0 ==> !is_blank(without_blank_end(lines).last()),
    decreases lines.len(),
{
    if lines.len() > 0 && is_blank(lines.last()) {
        lemma_blank_end(lines.drop_last());
    }
}

proof fn lemma_blank_start(lines: Seq<Seq<char>>)
    ensures
        without_blank_start(lines).len() > 0 ==> without_blank_start(lines).last()
            == lines.last() && !is_blank(without_blank_start(lines)[0]),
    decreases lines.len(),
{
    if lines.len() > 0 && is_blank(lines[0]) {
        lemma_blank_start(lines.drop_first());
    }
}

/// A body is never empty: it starts and ends with a line that is not blank.
pub proof fn body_is_never_empty(lines: Seq<Seq<char>>)
    ensures
        body_of(lines) matches Some(body) ==> body.len() > 0,
        body_of(lines) matches Some(body) ==> exists|kept: Seq<Seq<char>>|
            kept.len() > 0 && !is_blank(kept[0]) && !is_blank(kept.last()) && body
                == #[trigger] join(kept, "\n"@),
{
    lemma_blank_end(lines);
    lemma_blank_start(without_blank_end(lines));
    let kept = without_blank_start(without_blank_end(lines));
    if kept.len() > 0 {
        assert(kept.last().len() > 0) by {
            if kept.last().len() == 0 {
                assert(trim(kept.last()) == kept.last());
            }
        }
        assert(join(kept, "\n"@).len() >= kept.last().len());
    }
}

proof fn lemma_completed(p: ParserModel, i: int, end: int)
    requires
        parser_wf(p, i),
        p.current matches Some(d) ==> d.request_line <= end,
    ensures
        are_placed(completed(p, end)),
        end < i ==> all_end_before(completed(p, end), i),
{
    if p.current is Some {
        body_is_never_empty(p.body_lines);
        let all = completed(p, end);
        assert forall|k: int| 0 <= k < all.len() implies is_placed(#[trigger] all[k], k) by {
            if k < p.requests.len() {
                assert(all[k] == p.requests[k]);
            }
        }
        assert forall|j: int, k: int| 0 <= j < k < all.len() implies (#[trigger] all[j]).end_line
            < (#[trigger] all[k]).start_line by {
            assert(all[j] == p.requests[j]);
            if k < p.requests.len() {
                assert(all[k] == p.requests[k]);
            }
        }
        assert forall|k: int| 0 <= k < all.len() && end < i implies (#[trigger] all[k]).end_line
            < i by {
            if k < p.requests.len() {
                assert(all[k] == p.requests[k]);
            }
        }
    }
}

proof fn lemma_step_keeps(lines: Seq<Seq<char>>, p: ParserModel, i: int)
    requires
        0 <= i < lines.len(),
        parser_wf(p, i),
    ensures
        parser_wf(parser_step(lines, p, i).1, parser_step(lines, p, i).0),
{
    lemma_step_advances(lines, p, i);
    let (next, q) = parser_step(lines, p, i);
    let trimmed = trim(lines[i]);
    if run_len(trimmed, '#') >= 3 {
        lemma_completed(p, i, i - 1);
        assert(all_end_before(q.requests, next));
    } else {
        assert(q.requests == p.requests);
        assert(all_end_before(p.requests, next));
    }
}

proof fn lemma_run_keeps(lines: Seq<Seq<char>>, p: ParserModel, i: int)
    requires
        0 <= i <= lines.len(),
        parser_wf(p, i),
    ensures
        parser_wf(parser_run(lines, p, i), lines.len() as int),
    decreases lines.len() - i,
{
    if i < lines.len() {
        lemma_step_advances(lines, p, i);
        lemma_step_keeps(lines, p, i);
        let (next, q) = parser_step(lines, p, i);
        lemma_run_keeps(lines, q, next);
    }
}

/// The requests of a document are numbered in file order, each is shown by its
/// name or its number, and they lie on the lines of the document one behind the
/// other, without overlap.
pub proof fn requests_are_placed(input: Seq<char>)
    ensures
        are_placed(document(input).requests),
        forall|k: int|
            0 <= k < document(input).requests.len() ==> (
            #[trigger] document(input).requests[k]).end_line < lines(input).len(),
{
    let all = lines(input);
    lemma_run_keeps(all, parser_start(), 0);
    let p = parser_run(all, parser_start(), 0);
    lemma_completed(p, all.len() as int, all.len() - 1);
}

spec fn names_are_valid(p: ParserModel) -> bool {
    &&& forall|k: int|
        0 <= k < p.variables.len() ==> is_variable_name((#[trigger] p.variables[k]).0)
    &&& forall|k: int|
        0 <= k < p.requests.len() ==> headers_are_valid((#[trigger] p.requests[k]).headers)
    &&& p.current matches Some(d) ==> headers_are_valid(d.headers)
}

/// Whether every header has a name, without white space.
pub open spec fn headers_are_valid(headers: Seq<(Seq<char>, Seq<char>)>) -> bool {
    forall|k: int|
        0 <= k < headers.len() ==> (#[trigger] headers[k]).0.len() > 0 && !has_space(headers[k].0)
}

proof fn lemma_run_keeps_names(lines: Seq<Seq<char>>, p: ParserModel, i: int)
    requires
        0 <= i <= lines.len(),
        names_are_valid(p),
    ensures
        names_are_valid(parser_run(lines, p, i)),
    decreases lines.len() - i,
{
    if i < lines.len() {
        lemma_step_advances(lines, p, i);
        let (next, q) = parser_step(lines, p, i);
        let trimmed = trim(lines[i]);
        assert(names_are_valid(q)) by {
            if q.current is Some && p.current is Some {
                let h = q.current->0.headers;
                assert(headers_are_valid(h)) by {
                    assert forall|k: int| 0 <= k < h.len() implies (#[trigger] h[k]).0.len() > 0
                        && !has_space(h[k].0) by {
                        if k < p.current->0.headers.len() {
                            assert(h[k] == p.current->0.headers[k]);
                        }
                    }
                }
            }
            assert forall|k: int| 0 <= k < q.variables.len() implies is_variable_name(
                (#[trigger] q.variables[k]).0,
            ) by {
                if k < p.variables.len() {
                    assert(q.variables[k] == p.variables[k]);
                }
            }
            assert forall|k: int| 0 <= k < q.requests.len() implies headers_are_valid(
                (#[trigger] q.requests[k]).headers,
            ) by {
                if k < p.requests.len() {
                    assert(q.requests[k] == p.requests[k]);
                }
            }
        }
        lemma_run_keeps_names(lines, q, next);
    }
}

/// Every variable of a document is named by letters, digits, `_`, `-` and `.`,
/// and every header of its requests has a name without white space.
pub proof fn names_are_well_formed(input: Seq<char>)
    ensures
        forall|k: int|
            0 <= k < document(input).variables.len() ==> is_variable_name(
                (#[trigger] document(input).variables[k]).0,
            ),
        forall|k: int|
            0 <= k < document(input).requests.len() ==> headers_are_valid(
                (#[trigger] document(input).requests[k]).headers,
            ),
{
    let all = lines(input);
    let p = parser_run(all, parser_start(), 0);
    lemma_run_keeps_names(all, parser_start(), 0);
    let requests = document(input).requests;
    assert forall|k: int| 0 <= k < requests.len() implies headers_are_valid(
        (#[trigger] requests[k]).headers,
    ) by {
        if k < p.requests.len() {
            assert(requests[k] == p.requests[k]);
        }
    }
}

/// What has been read is kept: later lines add requests and variables behind
/// those there are.
pub proof fn nothing_read_is_lost(lines: Seq<Seq<char>>, p: ParserModel, i: int)
    requires
        0 <= i <= lines.len(),
    ensures
        p.requests.is_prefix_of(parser_run(lines, p, i).requests),
        p.variables.is_prefix_of(parser_run(lines, p, i).variables),
    decreases lines.len() - i,
{
    if i < lines.len() {
        lemma_step_advances(lines, p, i);
        let (next, q) = parser_step(lines, p, i);
        assert(p.requests.is_prefix_of(q.requests));
        assert(p.variables.is_prefix_of(q.variables));
        nothing_read_is_lost(lines, q, next);
    }
}

/// Behind the first blank line of a request nothing is a header.
pub proof fn headers_end_at_the_body(
    lines: Seq<Seq<char>>,
    p: ParserModel,
    d: DraftModel,
    i: int,
)
    requires
        p.in_body,
        p.current == Some(d),
    ensures
        parser_step(lines, p, i).1.current matches Some(after) ==> after.headers == d.headers
            && parser_step(lines, p, i).1.in_body,
{
}

/// The inline script that line `i` opens, with its opening bracket.
pub open spec fn opened_script(lines: Seq<Seq<char>>, p: ParserModel, i: int) -> Option<Seq<char>> {
    let trimmed = trim(lines[i]);
    let rest = trim(trimmed.skip(1));
    let opens = if p.current is None {
        variable_line(trimmed) is None && starts_with(trimmed, "<"@)
    } else {
        redirect_line(trimmed) is None && starts_with(trimmed, ">"@) && !starts_with(
            trimmed,
            ">>"@,
        )
    };
    if opens && starts_with(rest, "{%"@) {
        Some(rest)
    } else {
        None
    }
}

/// Whether the inline script that opens on line `i` with `first` is closed on that
/// line or on a later one.
pub open spec fn is_closed(lines: Seq<Seq<char>>, i: int, first: Seq<char>) -> bool {
    ends_with(trim_end(first), "%}"@) || exists|j: int|
        i < j < lines.len() && ends_with(#[trigger] lines[j], "%}"@)
}

/// Whether every inline script that is read from line `i` on is closed.
pub open spec fn scripts_are_closed(lines: Seq<Seq<char>>, p: ParserModel, i: int) -> bool
    decreases lines.len() - i,
{
    if i < 0 || i >= lines.len() {
        true
    } else {
        proof {
            lemma_step_advances(lines, p, i);
        }
        let (next, q) = parser_step(lines, p, i);
        &&& opened_script(lines, p, i) matches Some(first) ==> is_closed(lines, i, first)
        &&& scripts_are_closed(lines, q, next)
    }
}

proof fn lemma_script_within(
    lines: Seq<Seq<char>>,
    behind: Seq<Seq<char>>,
    start: int,
    i: int,
    script: Seq<char>,
    end: int,
)
    requires
        0 <= i <= end < lines.len(),
        ends_with(lines[end], "%}"@),
    ensures
        script_rest(lines + behind, start, i, script) == script_rest(lines, start, i, script),
    decreases lines.len() - i,
{
    assert((lines + behind)[i] == lines[i]);
    if strip_suffix(lines[i], "%}"@) is None {
        lemma_script_within(
            lines,
            behind,
            start,
            i + 1,
            if script.len() == 0 {
                lines[i]
            } else {
                script.push('\n') + lines[i]
            },
            end,
        );
    }
}

proof fn lemma_inline_script_within(
    lines: Seq<Seq<char>>,
    behind: Seq<Seq<char>>,
    i: int,
    first: Seq<char>,
)
    requires
        0 <= i < lines.len(),
        is_closed(lines, i, first),
    ensures
        inline_script(lines + behind, i, first) == inline_script(lines, i, first),
{
    if !ends_with(trim_end(first), "%}"@) {
        let end = choose|j: int| i < j < lines.len() && ends_with(#[trigger] lines[j], "%}"@);
        lemma_script_within(
            lines,
            behind,
            i,
            i + 1,
            script_plus(Seq::empty(), script_first(first)),
            end,
        );
    }
}

proof fn lemma_url_within(
    lines: Seq<Seq<char>>,
    behind: Seq<Seq<char>>,
    i: int,
    url: Seq<char>,
)
    requires
        0 <= i <= lines.len(),
        behind.len() > 0,
        !is_indented(behind[0]),
    ensures
        continued_url(lines + behind, i, url) == continued_url(lines, i, url),
    decreases lines.len() - i,
{
    if i < lines.len() {
        assert((lines + behind)[i] == lines[i]);
        if !is_blank(lines[i]) && is_indented(lines[i]) {
            lemma_url_within(lines, behind, i + 1, url + trim(lines[i]));
        }
    } else {
        assert((lines + behind)[i] == behind[0]);
    }
}

/// Lines whose scripts are closed are read in the same way whatever follows them,
/// unless that goes on with a URL.
proof fn lemma_run_within(
    lines: Seq<Seq<char>>,
    behind: Seq<Seq<char>>,
    p: ParserModel,
    i: int,
)
    requires
        0 <= i <= lines.len(),
        behind.len() > 0,
        !is_indented(behind[0]),
        scripts_are_closed(lines, p, i),
    ensures
        parser_run(lines + behind, p, i) == parser_run(
            lines + behind,
            parser_run(lines, p, i),
            lines.len() as int,
        ),
    decreases lines.len() - i,
{
    if i < lines.len() {
        assert((lines + behind)[i] == lines[i]);
        let trimmed = trim(lines[i]);
        if let Some(first) = opened_script(lines, p, i) {
            lemma_inline_script_within(lines, behind, i, first);
        }
        lemma_url_within(lines, behind, i + 1, request_line(trimmed).1);
        assert(parser_step(lines + behind, p, i) == parser_step(lines, p, i));
        lemma_step_advances(lines, p, i);
        let (next, q) = parser_step(lines, p, i);
        lemma_run_within(lines, behind, q, next);
    }
}

/// Outside of requests there is no body.
spec fn body_is_inside(p: ParserModel) -> bool {
    p.current is None ==> p.body_lines.len() == 0 && !p.in_body
}

proof fn lemma_body_stays_inside(lines: Seq<Seq<char>>, p: ParserModel, i: int)
    requires
        0 <= i <= lines.len(),
        body_is_inside(p),
    ensures
        body_is_inside(parser_run(lines, p, i)),
    decreases lines.len() - i,
{
    if i < lines.len() {
        lemma_step_advances(lines, p, i);
        let (next, q) = parser_step(lines, p, i);
        lemma_body_stays_inside(lines, q, next);
    }
}

proof fn lemma_script_moved(
    before: Seq<Seq<char>>,
    lines: Seq<Seq<char>>,
    start: int,
    i: int,
    script: Seq<char>,
)
    requires
        0 <= i <= lines.len(),
    ensures
        script_rest(before + lines, before.len() + start, before.len() + i, script) == script_rest(
            lines,
            start,
            i,
            script,
        ),
    decreases lines.len() - i,
{
    if i < lines.len() {
        assert((before + lines)[before.len() + i] == lines[i]);
        if strip_suffix(lines[i], "%}"@) is None {
            lemma_script_moved(
                before,
                lines,
                start,
                i + 1,
                if script.len() == 0 {
                    lines[i]
                } else {
                    script.push('\n') + lines[i]
                },
            );
        }
    }
}

proof fn lemma_url_moved(
    before: Seq<Seq<char>>,
    lines: Seq<Seq<char>>,
    i: int,
    url: Seq<char>,
)
    requires
        0 <= i <= lines.len(),
    ensures
        continued_url(before + lines, before.len() + i, url) == (
            before.len() + continued_url(lines, i, url).0,
            continued_url(lines, i, url).1,
        ),
    decreases lines.len() - i,
{
    if i < lines.len() {
        assert((before + lines)[before.len() + i] == lines[i]);
        if !is_blank(lines[i]) && is_indented(lines[i]) {
            lemma_url_moved(before, lines, i + 1, url + trim(lines[i]));
        }
    }
}

/// Whether `r` is the request `s`, `n` lines further down: they may differ in their
/// number, which also stands for a name that is not given, and in the line on which
/// their section starts.
pub open spec fn is_moved(r: RequestModel, s: RequestModel, n: int) -> bool {
    &&& r == (RequestModel {
        index: r.index,
        display_name: r.display_name,
        start_line: r.start_line,
        request_line: s.request_line + n,
        end_line: s.end_line + n,
        ..s
    })
    &&& r.name is Some ==> r.display_name == s.display_name
}

/// Whether `requests` are those of `first`, with those of `second` moved by `n`
/// lines behind them.
pub open spec fn are_joined(
    requests: Seq<RequestModel>,
    first: Seq<RequestModel>,
    second: Seq<RequestModel>,
    n: int,
) -> bool {
    &&& requests.len() == first.len() + second.len()
    &&& first.is_prefix_of(requests)
    &&& forall|k: int|
        0 <= k < second.len() ==> is_moved(requests[first.len() + k], #[trigger] second[k], n)
}

/// Whether `p` has read what `q` has read, `n` lines further down and behind the
/// document `x`.
spec fn runs_behind(p: ParserModel, q: ParserModel, x: FileModel, n: int) -> bool {
    &&& p.section == (SectionModel { start_line: p.section.start_line, ..q.section })
    &&& match (p.current, q.current) {
        (Some(d), Some(e)) => d == (DraftModel {
            start_line: d.start_line,
            request_line: e.request_line + n,
            ..e
        }),
        (None, None) => true,
        _ => false,
    }
    &&& p.body_lines == q.body_lines
    &&& p.in_body == q.in_body
    &&& p.variables == x.variables + q.variables
    &&& are_joined(p.requests, x.requests, q.requests, n)
}

proof fn lemma_completed_behind(p: ParserModel, q: ParserModel, x: FileModel, n: int, end: int)
    requires
        runs_behind(p, q, x, n),
    ensures
        are_joined(completed(p, n + end), x.requests, completed(q, end), n),
{
    let all = completed(p, n + end);
    let second = completed(q, end);
    assert forall|k: int| 0 <= k < second.len() implies is_moved(
        all[x.requests.len() + k],
        #[trigger] second[k],
        n,
    ) by {
        if k < q.requests.len() {
            assert(second[k] == q.requests[k]);
            assert(all[x.requests.len() + k] == p.requests[x.requests.len() + k]);
        }
    }
}

proof fn lemma_step_behind(
    before: Seq<Seq<char>>,
    lines: Seq<Seq<char>>,
    p: ParserModel,
    q: ParserModel,
    i: int,
    x: FileModel,
)
    requires
        0 <= i < lines.len(),
        runs_behind(p, q, x, before.len() as int),
    ensures
        parser_step(before + lines, p, before.len() + i).0 == before.len() + parser_step(
            lines,
            q,
            i,
        ).0,
        runs_behind(
            parser_step(before + lines, p, before.len() + i).1,
            parser_step(lines, q, i).1,
            x,
            before.len() as int,
        ),
{
    let n = before.len() as int;
    let all = before + lines;
    let trimmed = trim(lines[i]);
    let rest = trim(trimmed.skip(1));
    assert(all[n + i] == lines[i]);
    if run_len(trimmed, '#') >= 3 {
        lemma_completed_behind(p, q, x, n, i - 1);
    } else {
        lemma_script_moved(
            before,
            lines,
            i,
            i + 1,
            script_plus(Seq::empty(), script_first(rest)),
        );
        lemma_url_moved(before, lines, i + 1, request_line(trimmed).1);
        if q.current is None && variable_line(trimmed) is Some {
            let v = variable_line(trimmed)->0;
            assert(x.variables + q.variables.push(v) =~= (x.variables + q.variables).push(v));
        }
    }
}

proof fn lemma_run_behind(
    before: Seq<Seq<char>>,
    lines: Seq<Seq<char>>,
    p: ParserModel,
    q: ParserModel,
    i: int,
    x: FileModel,
)
    requires
        0 <= i <= lines.len(),
        runs_behind(p, q, x, before.len() as int),
    ensures
        runs_behind(
            parser_run(before + lines, p, before.len() + i),
            parser_run(lines, q, i),
            x,
            before.len() as int,
        ),
    decreases lines.len() - i,
{
    if i < lines.len() {
        lemma_step_advances(lines, q, i);
        lemma_step_behind(before, lines, p, q, i, x);
        let (next, after) = parser_step(lines, q, i);
        let (_, behind) = parser_step(before + lines, p, before.len() + i);
        lemma_run_behind(before, lines, behind, after, next, x);
    }
}

proof fn lemma_bare_separator()
    ensures
        lines("###\n"@) == seq!["###"@],
        trim("###"@) == "###"@,
        run_len("###"@, '#') == 3,
        trim("###"@.skip(3)).len() == 0,
        !is_indented("###"@),
{
    reveal_strlit("###\n");
    reveal_strlit("###");
    reveal_strlit(" ");
    reveal_strlit("\t");
    reveal_with_fuel(crate::text::until_len, 5);
    reveal_with_fuel(run_len, 5);
    reveal_with_fuel(lines, 2);
    assert("###\n"@.take(3) =~= "###"@);
    assert("###\n"@.skip(4).len() == 0);
    assert(lines("###\n"@) =~= seq!["###"@]);
    assert("###"@.subrange(0, 1)[0] == '#');
}

/// The document on the given lines.
spec fn document_on(all: Seq<Seq<char>>) -> FileModel {
    FileModel {
        requests: completed(
            parser_run(all, parser_start(), 0),
            if all.len() == 0 {
                0
            } else {
                all.len() - 1
            },
        ),
        variables: parser_run(all, parser_start(), 0).variables,
    }
}

/// The separator behind some lines completes their document, and nothing is left
/// of them.
proof fn lemma_separator(above: Seq<Seq<char>>, below: Seq<Seq<char>>)
    requires
        scripts_are_closed(above, parser_start(), 0),
    ensures
        ({
            let n = (above.len() + 1) as int;
            let all = above + (seq!["###"@] + below);
            let fresh = on_separator(
                parser_run(above, parser_start(), 0),
                above.len() as int,
                "###"@,
            );
            &&& parser_run(all, parser_start(), 0) == parser_run(all, fresh, n)
            &&& runs_behind(fresh, parser_start(), document_on(above), n)
        }),
{
    let all = above + (seq!["###"@] + below);
    let start = parser_start();
    let p = parser_run(above, start, 0);
    let i = above.len() as int;
    lemma_bare_separator();
    lemma_run_within(above, seq!["###"@] + below, start, 0);
    assert(all[i] == "###"@);
    let fresh = on_separator(p, i, "###"@);
    assert(parser_step(all, p, i) == (i + 1, fresh));
    assert(parser_run(all, p, i) == parser_run(all, fresh, i + 1));

    let x = document_on(above);
    lemma_body_stays_inside(above, start, 0);
    assert(fresh.body_lines =~= Seq::empty());
    assert(x.variables + start.variables =~= x.variables);
    assert(fresh.requests =~= x.requests);
}

proof fn lemma_documents_join(above: Seq<Seq<char>>, below: Seq<Seq<char>>)
    requires
        scripts_are_closed(above, parser_start(), 0),
    ensures
        ({
            let z = document_on(above + seq!["###"@] + below);
            let x = document_on(above);
            let y = document_on(below);
            &&& z.variables == x.variables + y.variables
            &&& are_joined(z.requests, x.requests, y.requests, (above.len() + 1) as int)
        }),
{
    let before = above + seq!["###"@];
    let all = before + below;
    let n = before.len() as int;
    let start = parser_start();
    let fresh = on_separator(parser_run(above, start, 0), above.len() as int, "###"@);
    assert(all =~= above + (seq!["###"@] + below));
    lemma_separator(above, below);
    lemma_run_behind(before, below, fresh, start, 0, document_on(above));
    let p = parser_run(all, fresh, n);
    let q = parser_run(below, start, 0);
    if below.len() > 0 {
        lemma_completed_behind(p, q, document_on(above), n, below.len() - 1);
    } else {
        assert(p == fresh && q == start);
    }
}

proof fn lemma_lines_around_separator(a: Seq<char>, b: Seq<char>)
    requires
        a.len() == 0 || a.last() == '\n',
    ensures
        lines(a + "###\n"@ + b) == lines(a) + seq!["###"@] + lines(b),
{
    reveal_strlit("###\n");
    lemma_bare_separator();
    lemma_lines_join(a + "###\n"@, b);
    lemma_lines_join(a, "###\n"@);
}

/// A `###` line starts afresh. Behind a text whose last line and whose inline
/// scripts are closed, what follows such a line is read as if it stood alone: no
/// name, tag, script, header or body crosses the line in either direction.
pub proof fn separator_starts_afresh(a: Seq<char>, b: Seq<char>)
    requires
        a.len() == 0 || a.last() == '\n',
        scripts_are_closed(lines(a), parser_start(), 0),
    ensures
        document(a + "###\n"@ + b).variables == document(a).variables + document(b).variables,
        are_joined(
            document(a + "###\n"@ + b).requests,
            document(a).requests,
            document(b).requests,
            (lines(a).len() + 1) as int,
        ),
{
    lemma_lines_around_separator(a, b);
    lemma_documents_join(lines(a), lines(b));
}

// ---------------------------------------------------------------------------
// What is written is read
// ---------------------------------------------------------------------------

proof fn lemma_first_differs(s: Seq<char>, pat: Seq<char>)
    requires
        pat.len() > 0,
        s.len() == 0 || s[0] != pat[0],
    ensures
        !starts_with(s, pat),
{
    if starts_with(s, pat) {
        assert(s.subrange(0, pat.len() as int)[0] == s[0]);
    }
}

/// A header line is read as its name and its value. The value is all that stands behind
/// the first colon, further colons among it, without the white space around it.
pub proof fn header_is_read(name: Seq<char>, value: Seq<char>)
    requires
        name.len() > 0,
        !has_space(name),
        !name.contains(':'),
    ensures
        header_line(name + ":"@ + value) == Some((name, trim(value))),
{
    reveal_strlit(":");
    assert(":"@ =~= seq![':']);
    split_finds_character(name, ':', value);
    trimmed_text_is_kept(name);
}

/// Nothing of a header line is left out: it is its name, a colon and its value, but for
/// white space around the two.
pub proof fn header_line_is_name_and_value(line: Seq<char>)
    ensures
        header_line(line) matches Some((name, value)) ==> name.len() > 0 && !has_space(name)
            && exists|k: int|
            0 <= k < line.len() && line[k] == ':' && !line.take(k).contains(':') && trim(
                #[trigger] line.take(k),
            ) == name && trim(line.skip(k + 1)) == value,
{
    reveal_strlit(":");
    split_parts_rejoin(line, ":"@);
    if let Some((left, right)) = split_once(line, ":"@) {
        let k = left.len() as int;
        assert(line[k] == ':');
        assert(line.take(k) =~= left);
        assert(line.skip(k + 1) =~= right);
        if left.contains(':') {
            let j = choose|j: int| 0 <= j < left.len() && left[j] == ':';
            assert(line.subrange(j, j + 1) =~= ":"@);
            assert(matches_at(line, ":"@, j));
        }
    }
}

/// A variable line is read as its name and its value.
pub proof fn variable_is_read(name: Seq<char>, value: Seq<char>)
    requires
        is_variable_name(name),
        !has_space(name),
    ensures
        variable_line("@"@ + name + "="@ + value) == Some((name, trim(value))),
        variable_line("@"@ + name + " = "@ + value) == Some((name, trim(value))),
{
    reveal_strlit("@");
    reveal_strlit("=");
    reveal_strlit(" = ");
    assert("="@ =~= seq!['=']);
    let line = "@"@ + name + "="@ + value;
    let wide = "@"@ + name + " = "@ + value;
    assert(line.subrange(0, 1) =~= "@"@);
    assert(wide.subrange(0, 1) =~= "@"@);
    assert(line.skip(1) =~= name + seq!['='] + value);
    let blank = seq![' '];
    assert(wide.skip(1) =~= (name + blank) + seq!['='] + (blank + value));
    assert forall|i: int| 0 <= i < name.len() implies !is_space(#[trigger] name[i]) && name[i]
        != '=' by {
        assert(is_alphanumeric(name[i]) || name[i] == '_' || name[i] == '-' || name[i] == '.');
    }
    assert(!name.contains('='));
    assert(!(name + blank).contains('=')) by {
        assert forall|i: int| 0 <= i < name.len() + 1 implies (name + blank)[i] != '=' by {
            if i < name.len() {
                assert((name + blank)[i] == name[i]);
            }
        }
    }
    split_finds_character(name, '=', value);
    split_finds_character(name + blank, '=', blank + value);
    trimmed_text_is_kept(name);
    trim_finds(Seq::empty(), name, blank);
    assert(Seq::empty() + name + blank =~= name + blank);
    assert((blank + value).drop_first() =~= value);
}

/// A redirect line is read as its path, and whether it overwrites.
pub proof fn redirect_is_read(path: Seq<char>)
    requires
        is_trimmed(path),
        path.len() > 0,
    ensures
        redirect_line(">> "@ + path) == Some(RedirectModel { overwrite: false, path }),
        redirect_line(">>! "@ + path) == Some(RedirectModel { overwrite: true, path }),
        path[0] != '!' ==> redirect_line(">>"@ + path) == Some(
            RedirectModel { overwrite: false, path },
        ),
{
    reveal_strlit(">> ");
    reveal_strlit(">>! ");
    reveal_strlit(">>");
    reveal_strlit("!");
    let blank = seq![' '];
    let a = ">> "@ + path;
    let b = ">>! "@ + path;
    let c = ">>"@ + path;
    assert(a.subrange(0, 2) =~= ">>"@);
    assert(b.subrange(0, 2) =~= ">>"@);
    assert(c.subrange(0, 2) =~= ">>"@);
    assert(a.skip(2) =~= blank + path);
    assert(b.skip(2) =~= seq!['!', ' '] + path);
    assert(c.skip(2) =~= path);
    lemma_first_differs(a.skip(2), "!"@);
    assert(b.skip(2).subrange(0, 1) =~= "!"@);
    assert(b.skip(2).skip(1) =~= blank + path);
    if path[0] != '!' {
        lemma_first_differs(c.skip(2), "!"@);
    }
    trim_finds(blank, path, Seq::empty());
    assert(blank + path + Seq::empty() =~= blank + path);
    trimmed_text_is_kept(path);
}

proof fn lemma_without_version(url: Seq<char>)
    requires
        !has_space(url),
    ensures
        without_version(url) == url,
{
    reveal_strlit(" (Prior Knowledge)");
    reveal_strlit(" HTTP/");
    let knowledge = " (Prior Knowledge)"@;
    if ends_with(url, knowledge) {
        let k = url.len() - knowledge.len();
        assert(url.subrange(k, k + knowledge.len())[0] == url[k]);
    }
    rfind_is_last(url, " HTTP/"@);
    if let Some(k) = rfind(url, " HTTP/"@) {
        assert(url.subrange(k, k + 6)[0] == url[k]);
    }
}

proof fn lemma_version_dropped(url: Seq<char>, version: Seq<char>)
    requires
        url.len() > 0,
        !has_space(url),
        version.len() > 0,
        forall|i: int|
            0 <= i < version.len() ==> is_digit(#[trigger] version[i]) || version[i] == '.',
    ensures
        without_version(url + " HTTP/"@ + version) == url,
        is_trimmed(url + " HTTP/"@ + version),
{
    let full = url + " HTTP/"@ + version;
    assert(full.last() == version.last());
    assert(full[0] == url[0]);
    lemma_version_found(url, version);
    assert(url + Seq::<char>::empty() =~= url);
    trim_end_finds(url, Seq::empty());
}

proof fn lemma_method_split(method: Seq<char>, rest: Seq<char>)
    requires
        method.len() >= 2,
        all_upper(method),
        rest.len() > 0,
        is_trimmed(rest),
    ensures
        request_line(method + " "@ + rest) == (method, without_version(rest)),
{
    reveal_strlit(" ");
    let line = method + " "@ + rest;
    word_ends_at_space(method, " "@ + rest);
    assert(line =~= method + (" "@ + rest));
    assert(line.take(method.len() as int) =~= method);
    assert(line.skip(method.len() as int + 1) =~= rest);
    trimmed_text_is_kept(rest);
}

/// A request line is read as its method and its URL, with or without a version behind
/// them. A URL alone is a `GET`.
pub proof fn request_line_is_read(method: Seq<char>, url: Seq<char>, version: Seq<char>)
    requires
        method.len() >= 2,
        all_upper(method),
        url.len() > 0,
        !has_space(url),
        version.len() > 0,
        forall|i: int|
            0 <= i < version.len() ==> is_digit(#[trigger] version[i]) || version[i] == '.',
    ensures
        request_line(method + " "@ + url) == (method, url),
        request_line(method + " "@ + (url + " HTTP/"@ + version)) == (method, url),
        request_line(url) == ("GET"@, url),
{
    lemma_without_version(url);
    lemma_method_split(method, url);
    lemma_version_dropped(url, version);
    lemma_method_split(method, url + " HTTP/"@ + version);
    assert(url + Seq::<char>::empty() =~= url);
    word_ends_at_space(url, Seq::empty());
}

proof fn lemma_blank_end_core(lines: Seq<Seq<char>>)
    ensures
        without_blank_end(lines).len() <= lines.len(),
        without_blank_end(lines) == lines.take(without_blank_end(lines).len() as int),
        forall|k: int|
            without_blank_end(lines).len() <= k < lines.len() ==> is_blank(#[trigger] lines[k]),
        without_blank_end(lines).len() > 0 ==> !is_blank(without_blank_end(lines).last()),
    decreases lines.len(),
{
    if lines.len() > 0 && is_blank(lines.last()) {
        let rest = lines.drop_last();
        lemma_blank_end_core(rest);
        let n = without_blank_end(rest).len() as int;
        assert(lines.take(n) =~= rest.take(n));
        assert forall|k: int| n <= k < lines.len() implies is_blank(#[trigger] lines[k]) by {
            if k < rest.len() {
                assert(rest[k] == lines[k]);
            }
        }
    } else {
        assert(lines.take(lines.len() as int) =~= lines);
    }
}

proof fn lemma_blank_start_core(lines: Seq<Seq<char>>)
    ensures
        without_blank_start(lines).len() <= lines.len(),
        without_blank_start(lines) == lines.skip(lines.len() - without_blank_start(lines).len()),
        forall|k: int|
            0 <= k < lines.len() - without_blank_start(lines).len() ==> is_blank(
                #[trigger] lines[k],
            ),
        without_blank_start(lines).len() > 0 ==> !is_blank(without_blank_start(lines)[0]),
    decreases lines.len(),
{
    if lines.len() > 0 && is_blank(lines[0]) {
        let rest = lines.drop_first();
        lemma_blank_start_core(rest);
        let n = rest.len() - without_blank_start(rest).len();
        assert(lines.skip(n + 1) =~= rest.skip(n));
        assert forall|k: int| 0 <= k < n + 1 implies is_blank(#[trigger] lines[k]) by {
            if k > 0 {
                assert(rest[k - 1] == lines[k]);
            }
        }
    } else {
        assert(lines.skip(0) =~= lines);
    }
}

/// A body is its lines, joined by line breaks, but for the blank lines at its start and
/// at its end; lines that are all blank are no body.
pub proof fn body_drops_blank_ends(lines: Seq<Seq<char>>)
    ensures
        match body_of(lines) {
            Some(body) => exists|i: int, j: int|
                {
                    &&& 0 <= i < j <= lines.len()
                    &&& body == join(#[trigger] lines.subrange(i, j), "\n"@)
                    &&& !is_blank(lines[i]) && !is_blank(lines[j - 1])
                    &&& forall|k: int|
                        0 <= k < i || j <= k < lines.len() ==> is_blank(#[trigger] lines[k])
                },
            None => forall|k: int| 0 <= k < lines.len() ==> is_blank(#[trigger] lines[k]),
        },
{
    let head = without_blank_end(lines);
    let kept = without_blank_start(head);
    lemma_blank_end_core(lines);
    lemma_blank_start_core(head);
    let i = head.len() - kept.len();
    let j = head.len() as int;
    assert(forall|k: int| 0 <= k < head.len() ==> #[trigger] head[k] == lines[k]);
    assert forall|k: int| 0 <= k < i implies is_blank(#[trigger] lines[k]) by {
        assert(head[k] == lines[k]);
    }
    assert(lines.subrange(i, j) =~= kept);
    if kept.len() > 0 {
        assert(kept[0] == lines[i]);
        assert(head.last() == lines[j - 1]);
    }
}

/// A header as it is written.
pub open spec fn written_header(header: (Seq<char>, Seq<char>)) -> Seq<char> {
    header.0 + ": "@ + header.1
}

/// A request as it is written: the request line, the headers, an empty line, and the
/// lines of the body.
pub open spec fn written_request(
    method: Seq<char>,
    url: Seq<char>,
    headers: Seq<(Seq<char>, Seq<char>)>,
    body: Seq<Seq<char>>,
) -> Seq<Seq<char>> {
    seq![method + " "@ + url] + headers.map_values(
        |h: (Seq<char>, Seq<char>)| written_header(h),
    ) + seq![Seq::empty()] + body
}

/// Whether the line of a header cannot be taken for anything else.
pub open spec fn is_plain_header(header: (Seq<char>, Seq<char>)) -> bool {
    &&& header.0.len() > 0
    &&& !has_space(header.0)
    &&& !header.0.contains(':')
    &&& header.0[0] != '#' && header.0[0] != '/' && header.0[0] != '>'
    &&& is_trimmed(header.1)
}

/// Whether a line of a body cannot be taken for anything else.
pub open spec fn is_plain_body_line(line: Seq<char>) -> bool {
    if is_blank(line) {
        line.len() == 0
    } else {
        trim(line)[0] != '#' && trim(line)[0] != '>' && !starts_with(trim(line), "//"@)
    }
}

/// Whether a method and a URL make up a request line.
pub open spec fn is_plain_target(method: Seq<char>, url: Seq<char>) -> bool {
    method.len() >= 2 && all_upper(method) && url.len() > 0 && !has_space(url)
}

proof fn lemma_content_line(t: Seq<char>)
    requires
        t.len() > 0,
        t[0] != '#',
    ensures
        run_len(t, '#') == 0,
        !starts_with(t, "#"@),
        t[0] != '/' ==> !starts_with(t, "//"@),
        t[0] != '@' ==> variable_line(t) is None,
        t[0] != '<' ==> !starts_with(t, "<"@),
        t[0] != '>' ==> !starts_with(t, ">"@) && redirect_line(t) is None,
{
    reveal_strlit("#");
    reveal_strlit("//");
    reveal_strlit("@");
    reveal_strlit("<");
    reveal_strlit(">");
    reveal_strlit(">>");
    lemma_first_differs(t, "#"@);
    if t[0] != '/' {
        lemma_first_differs(t, "//"@);
    }
    if t[0] != '@' {
        lemma_first_differs(t, "@"@);
    }
    if t[0] != '<' {
        lemma_first_differs(t, "<"@);
    }
    if t[0] != '>' {
        lemma_first_differs(t, ">"@);
        lemma_first_differs(t, ">>"@);
    }
}

/// The request that a request line opens.
pub open spec fn opened_request(
    p: ParserModel,
    i: int,
    method: Seq<char>,
    url: Seq<char>,
) -> DraftModel {
    DraftModel {
        method,
        url,
        headers: Seq::empty(),
        request_line: i,
        start_line: match section_from(p, i).start_line {
            Some(s) => s,
            None => i,
        },
        handler: None,
        redirect_to: None,
    }
}

proof fn lemma_request_step(
    all: Seq<Seq<char>>,
    p: ParserModel,
    i: int,
    method: Seq<char>,
    url: Seq<char>,
)
    requires
        0 <= i < all.len(),
        all[i] == method + " "@ + url,
        is_plain_target(method, url),
        p.current is None,
        i + 1 >= all.len() || is_blank(all[i + 1]) || !is_indented(all[i + 1]),
    ensures
        parser_step(all, p, i) == (
            i + 1,
            (ParserModel {
                section: section_from(p, i),
                has_content: true,
                current: Some(opened_request(p, i, method, url)),
                ..p
            }),
        ),
{
    reveal_strlit(" ");
    reveal_strlit("\t");
    let line = all[i];
    assert(line[0] == method[0]);
    assert(line.last() == url.last());
    assert(is_upper(method[0]));
    trimmed_text_is_kept(line);
    lemma_content_line(line);
    lemma_first_differs(line, " "@);
    lemma_first_differs(line, "\t"@);
    lemma_without_version(url);
    lemma_method_split(method, url);
}

proof fn lemma_header_step(
    all: Seq<Seq<char>>,
    p: ParserModel,
    d: DraftModel,
    i: int,
    header: (Seq<char>, Seq<char>),
)
    requires
        0 <= i < all.len(),
        all[i] == written_header(header),
        is_plain_header(header),
        p.current == Some(d),
        !p.in_body,
    ensures
        parser_step(all, p, i) == (
            i + 1,
            (ParserModel {
                current: Some(DraftModel { headers: d.headers.push(header), ..d }),
                ..p
            }),
        ),
        !is_indented(all[i]),
{
    reveal_strlit(": ");
    reveal_strlit(":");
    reveal_strlit(" ");
    reveal_strlit("\t");
    let line = all[i];
    let none = Seq::<char>::empty();
    let blank = seq![' '];
    assert(line[0] == header.0[0]);
    lemma_first_differs(line, " "@);
    lemma_first_differs(line, "\t"@);
    if header.1.len() == 0 {
        let core = header.0 + ":"@;
        assert(line =~= none + core + blank);
        assert(core[0] == header.0[0]);
        assert(core.last() == ':');
        trim_finds(none, core, blank);
        assert(core =~= header.0 + ":"@ + none);
        header_is_read(header.0, none);
        trimmed_text_is_kept(none);
        assert(header.1 =~= none);
        lemma_content_line(core);
    } else {
        assert(line.last() == header.1.last());
        trimmed_text_is_kept(line);
        assert(line =~= header.0 + ":"@ + (blank + header.1));
        header_is_read(header.0, blank + header.1);
        trim_finds(blank, header.1, none);
        assert(blank + header.1 + none =~= blank + header.1);
        lemma_content_line(line);
    }
}

proof fn lemma_body_step(all: Seq<Seq<char>>, p: ParserModel, d: DraftModel, i: int)
    requires
        0 <= i < all.len(),
        is_plain_body_line(all[i]),
        p.current == Some(d),
        p.in_body,
    ensures
        parser_step(all, p, i) == (
            i + 1,
            (ParserModel { body_lines: p.body_lines.push(all[i]), ..p }),
        ),
{
    let line = all[i];
    if is_blank(line) {
        assert(line =~= Seq::empty());
        lemma_bare_run(trim(line));
    } else {
        lemma_content_line(trim(line));
    }
}

proof fn lemma_bare_run(t: Seq<char>)
    requires
        t.len() == 0,
    ensures
        run_len(t, '#') == 0,
{
}

proof fn lemma_headers_run(
    all: Seq<Seq<char>>,
    p: ParserModel,
    d: DraftModel,
    i: int,
    headers: Seq<(Seq<char>, Seq<char>)>,
)
    requires
        0 <= i,
        i + headers.len() <= all.len(),
        forall|k: int|
            0 <= k < headers.len() ==> is_plain_header(#[trigger] headers[k]) && all[i + k]
                == written_header(headers[k]),
        p.current == Some(d),
        !p.in_body,
    ensures
        parser_run(all, p, i) == parser_run(
            all,
            (ParserModel {
                current: Some(DraftModel { headers: d.headers + headers, ..d }),
                ..p
            }),
            i + headers.len(),
        ),
    decreases headers.len(),
{
    if headers.len() == 0 {
        assert(d.headers + headers =~= d.headers);
    } else {
        assert(is_plain_header(headers[0]));
        lemma_header_step(all, p, d, i, headers[0]);
        let e = DraftModel { headers: d.headers.push(headers[0]), ..d };
        let q = ParserModel { current: Some(e), ..p };
        let rest = headers.drop_first();
        assert forall|k: int| 0 <= k < rest.len() implies is_plain_header(#[trigger] rest[k])
            && all[i + 1 + k] == written_header(rest[k]) by {
            assert(rest[k] == headers[k + 1]);
        }
        lemma_headers_run(all, q, e, i + 1, rest);
        assert(d.headers.push(headers[0]) + rest =~= d.headers + headers);
    }
}

proof fn lemma_body_run(
    all: Seq<Seq<char>>,
    p: ParserModel,
    d: DraftModel,
    i: int,
    body: Seq<Seq<char>>,
)
    requires
        0 <= i,
        i + body.len() <= all.len(),
        forall|k: int|
            0 <= k < body.len() ==> is_plain_body_line(#[trigger] body[k]) && all[i + k] == body[k],
        p.current == Some(d),
        p.in_body,
    ensures
        parser_run(all, p, i) == parser_run(
            all,
            (ParserModel { body_lines: p.body_lines + body, ..p }),
            i + body.len(),
        ),
    decreases body.len(),
{
    if body.len() == 0 {
        assert(p.body_lines + body =~= p.body_lines);
    } else {
        assert(is_plain_body_line(body[0]));
        lemma_body_step(all, p, d, i);
        let q = ParserModel { body_lines: p.body_lines.push(body[0]), ..p };
        let rest = body.drop_first();
        assert forall|k: int| 0 <= k < rest.len() implies is_plain_body_line(#[trigger] rest[k])
            && all[i + 1 + k] == rest[k] by {
            assert(rest[k] == body[k + 1]);
        }
        lemma_body_run(all, q, d, i + 1, rest);
        assert(p.body_lines.push(body[0]) + rest =~= p.body_lines + body);
    }
}

/// A request is read as it is written: its method, its URL, all its headers in their
/// order, and its body. Its name, its tags and its pre-request script are those of the
/// section that it stands in.
pub proof fn request_is_read(
    all: Seq<Seq<char>>,
    p: ParserModel,
    i: int,
    method: Seq<char>,
    url: Seq<char>,
    headers: Seq<(Seq<char>, Seq<char>)>,
    body: Seq<Seq<char>>,
)
    requires
        0 <= i < all.len(),
        all.skip(i) == written_request(method, url, headers, body),
        is_plain_target(method, url),
        forall|k: int| 0 <= k < headers.len() ==> is_plain_header(#[trigger] headers[k]),
        forall|k: int| 0 <= k < body.len() ==> is_plain_body_line(#[trigger] body[k]),
        p.current is None,
        p.body_lines.len() == 0,
        !p.in_body,
    ensures
        ({
            let q = parser_run(all, p, i);
            let d = opened_request(p, i, method, url);
            &&& q.variables == p.variables
            &&& completed(q, all.len() - 1) == p.requests.push(
                RequestModel {
                    index: p.requests.len() as int,
                    name: p.section.name,
                    display_name: match p.section.name {
                        Some(name) => name,
                        None => seq!['#'] + decimal(p.requests.len() + 1),
                    },
                    method,
                    url,
                    headers,
                    body: body_of(body),
                    request_line: i,
                    start_line: d.start_line,
                    end_line: all.len() - 1,
                    no_redirect: p.section.no_redirect,
                    timeout_secs: p.section.timeout_secs,
                    connection_timeout_secs: p.section.connection_timeout_secs,
                    handler: None,
                    redirect_to: None,
                    pre_request_script: p.section.pre_request_script,
                },
            )
        }),
{
    let written = written_request(method, url, headers, body);
    let texts = headers.map_values(|h: (Seq<char>, Seq<char>)| written_header(h));
    let n = headers.len() as int;
    assert(all.len() == i + written.len());
    assert forall|k: int| 0 <= k < written.len() implies #[trigger] written[k] == all[i + k] by {
        assert(all.skip(i)[k] == all[i + k]);
    }
    assert(written[0] == method + " "@ + url);
    assert(written[n + 1] == Seq::<char>::empty());
    assert forall|k: int| 0 <= k < n implies is_plain_header(#[trigger] headers[k]) && all[i + 1
        + k] == written_header(headers[k]) by {
        assert(written[1 + k] == texts[k]);
    }
    assert forall|k: int| 0 <= k < body.len() implies is_plain_body_line(#[trigger] body[k])
        && all[i + n + 2 + k] == body[k] by {
        assert(written[n + 2 + k] == body[k]);
    }
    assert(is_blank(Seq::<char>::empty())) by {
        trimmed_text_is_kept(Seq::empty());
    }
    let d = opened_request(p, i, method, url);
    let opened = ParserModel {
        section: section_from(p, i),
        has_content: true,
        current: Some(d),
        ..p
    };
    assert(is_blank(all[i + 1]) || !is_indented(all[i + 1])) by {
        if n > 0 {
            assert(is_plain_header(headers[0]));
            lemma_header_step(all, opened, d, i + 1, headers[0]);
        } else {
            assert(written[n + 1] == all[i + 1]);
        }
    }
    lemma_request_step(all, p, i, method, url);
    lemma_headers_run(all, opened, d, i + 1, headers);
    let e = DraftModel { headers: d.headers + headers, ..d };
    assert(d.headers + headers =~= headers);
    let with_headers = ParserModel { current: Some(e), ..opened };
    assert(all[i + n + 1] == Seq::<char>::empty());
    assert(parser_step(all, with_headers, i + n + 1) == (
        i + n + 2,
        (ParserModel { in_body: true, ..with_headers }),
    )) by {
        lemma_bare_run(trim(all[i + n + 1]));
    }
    let at_body = ParserModel { in_body: true, ..with_headers };
    lemma_body_run(all, at_body, e, i + n + 2, body);
    assert(at_body.body_lines + body =~= body);
}

/// A document with one request is read as it is written.
pub proof fn document_reads_back(
    name: Seq<char>,
    method: Seq<char>,
    url: Seq<char>,
    headers: Seq<(Seq<char>, Seq<char>)>,
    body: Seq<Seq<char>>,
)
    requires
        name.len() > 0,
        is_trimmed(name),
        !name.contains('\n'),
        is_plain_target(method, url),
        forall|k: int|
            0 <= k < headers.len() ==> is_plain_header(#[trigger] headers[k])
                && !headers[k].1.contains('\n'),
        forall|k: int|
            0 <= k < body.len() ==> is_plain_body_line(#[trigger] body[k]) && is_line(body[k]),
    ensures
        document(
            as_lines(seq!["### "@ + name] + written_request(method, url, headers, body)),
        ) == (FileModel {
            requests: seq![
                RequestModel {
                    index: 0,
                    name: Some(name),
                    display_name: name,
                    method,
                    url,
                    headers,
                    body: body_of(body),
                    request_line: 1,
                    start_line: 0,
                    end_line: (headers.len() + body.len() + 2) as int,
                    no_redirect: false,
                    timeout_secs: None,
                    connection_timeout_secs: None,
                    handler: None,
                    redirect_to: None,
                    pre_request_script: None,
                },
            ],
            variables: Seq::empty(),
        }),
{
    let written = written_request(method, url, headers, body);
    let all = seq!["### "@ + name] + written;
    lemma_written_lines(name, method, url, headers, body);
    lines_read_back(all);
    let start = parser_start();
    lemma_named_separator(all, start, 0, name);
    let p = on_separator(start, 0, "### "@ + name);
    assert(all.skip(1) =~= written);
    request_is_read(all, p, 1, method, url, headers, body);
    assert(parser_run(all, start, 0) == parser_run(all, p, 1));
    assert(all.len() == headers.len() + body.len() + 3);
    let found = completed(parser_run(all, start, 0), all.len() - 1);
    assert(found.len() == 1);
    assert(document(as_lines(all)).requests =~= seq![found[0]]);
}

proof fn lemma_named_separator(all: Seq<Seq<char>>, p: ParserModel, i: int, name: Seq<char>)
    requires
        0 <= i < all.len(),
        all[i] == "### "@ + name,
        name.len() > 0,
        is_trimmed(name),
    ensures
        parser_step(all, p, i) == (i + 1, on_separator(p, i, "### "@ + name)),
        on_separator(p, i, "### "@ + name).section == (SectionModel {
            name: Some(name),
            start_line: Some(i),
            ..empty_section()
        }),
{
    reveal_strlit("### ");
    let line = "### "@ + name;
    let blank = seq![' '];
    assert(line.last() == name.last());
    trimmed_text_is_kept(line);
    run_ends_at_another('#', 3, blank + name);
    assert(line =~= repeat('#', 3) + (blank + name));
    assert(line.skip(3) =~= blank + name);
    trim_finds(blank, name, Seq::empty());
    assert(blank + name + Seq::empty() =~= blank + name);
}

proof fn lemma_written_lines(
    name: Seq<char>,
    method: Seq<char>,
    url: Seq<char>,
    headers: Seq<(Seq<char>, Seq<char>)>,
    body: Seq<Seq<char>>,
)
    requires
        name.len() > 0,
        is_trimmed(name),
        !name.contains('\n'),
        is_plain_target(method, url),
        forall|k: int|
            0 <= k < headers.len() ==> is_plain_header(#[trigger] headers[k])
                && !headers[k].1.contains('\n'),
        forall|k: int|
            0 <= k < body.len() ==> is_plain_body_line(#[trigger] body[k]) && is_line(body[k]),
    ensures
        ({
            let all = seq!["### "@ + name] + written_request(method, url, headers, body);
            forall|k: int| 0 <= k < all.len() ==> is_line(#[trigger] all[k])
        }),
{
    reveal_strlit("### ");
    reveal_strlit(" ");
    reveal_strlit(": ");
    let written = written_request(method, url, headers, body);
    let all = seq!["### "@ + name] + written;
    let n = headers.len() as int;
    assert forall|k: int| 0 <= k < all.len() implies is_line(#[trigger] all[k]) by {
        if k == 0 {
            lemma_line_of("### "@, name);
        } else if k == 1 {
            assert(all[k] == (method + " "@) + url);
            assert(!(method + " "@).contains('\n')) by {
                assert forall|j: int| 0 <= j < method.len() + 1 implies (method + " "@)[j]
                    != '\n' by {
                    if j < method.len() {
                        assert(is_upper(method[j]));
                    }
                }
            }
            assert(!url.contains('\n'));
            lemma_line_of(method + " "@, url);
        } else if k < n + 2 {
            let h = headers[k - 2];
            assert(is_plain_header(h));
            assert(all[k] == (h.0 + ": "@) + h.1);
            assert(!(h.0 + ": "@).contains('\n')) by {
                assert forall|j: int| 0 <= j < h.0.len() + 2 implies (h.0 + ": "@)[j] != '\n' by {
                    if j < h.0.len() {
                        assert(!is_space(h.0[j]));
                    }
                }
            }
            if h.1.len() == 0 {
                assert(all[k] =~= h.0 + ": "@);
                assert(all[k].last() == ' ');
            } else {
                lemma_line_of(h.0 + ": "@, h.1);
            }
        } else if k == n + 2 {
            assert(all[k] == Seq::<char>::empty());
        } else {
            assert(all[k] == body[k - n - 3]);
        }
    }
}

proof fn lemma_line_of(a: Seq<char>, b: Seq<char>)
    requires
        !a.contains('\n'),
        !b.contains('\n'),
        b.len() > 0,
        is_trimmed(b),
    ensures
        is_line(a + b),
{
    assert((a + b).last() == b.last());
    if (a + b).contains('\n') {
        let j = choose|j: int| 0 <= j < (a + b).len() && (a + b)[j] == '\n';
        if j < a.len() {
            assert(a.contains(a[j]));
        } else {
            assert(b.contains(b[j - a.len()]));
        }
    }
}

/// Whether `header` stands on one of the lines.
pub open spec fn stands_on_a_line(all: Seq<Seq<char>>, header: (Seq<char>, Seq<char>)) -> bool {
    exists|k: int| 0 <= k < all.len() && header_line(trim(#[trigger] all[k])) == Some(header)
}

spec fn headers_stand_on_lines(all: Seq<Seq<char>>, p: ParserModel) -> bool {
    &&& forall|k: int, j: int|
        0 <= k < p.requests.len() && 0 <= j < p.requests[k].headers.len() ==> stands_on_a_line(
            all,
            #[trigger] p.requests[k].headers[j],
        )
    &&& p.current matches Some(d) ==> forall|j: int|
        0 <= j < d.headers.len() ==> stands_on_a_line(all, #[trigger] d.headers[j])
}

proof fn lemma_headers_stay_on_lines(all: Seq<Seq<char>>, p: ParserModel, i: int)
    requires
        0 <= i <= all.len(),
        headers_stand_on_lines(all, p),
    ensures
        headers_stand_on_lines(all, parser_run(all, p, i)),
    decreases all.len() - i,
{
    if i < all.len() {
        lemma_step_advances(all, p, i);
        let (next, q) = parser_step(all, p, i);
        let trimmed = trim(all[i]);
        if header_line(trimmed) is Some {
            assert(stands_on_a_line(all, header_line(trimmed)->0));
        }
        assert forall|k: int, j: int|
            0 <= k < q.requests.len() && 0 <= j
                < q.requests[k].headers.len() implies stands_on_a_line(
            all,
            #[trigger] q.requests[k].headers[j],
        ) by {
            if k < p.requests.len() {
                assert(q.requests[k] == p.requests[k]);
                assert(stands_on_a_line(all, p.requests[k].headers[j]));
            } else {
                assert(stands_on_a_line(all, p.current->0.headers[j]));
            }
        }
        if q.current is Some {
            let d = q.current->0;
            assert forall|j: int| 0 <= j < d.headers.len() implies stands_on_a_line(
                all,
                #[trigger] d.headers[j],
            ) by {
                let e = p.current->0;
                if j < e.headers.len() {
                    assert(d.headers[j] == e.headers[j]);
                }
            }
        }
        lemma_headers_stay_on_lines(all, q, next);
    }
}

/// Every header of a document stands on one of its lines, whole: the line is the name,
/// a colon and the value, but for white space around the two.
pub proof fn headers_come_from_lines(input: Seq<char>, k: int, j: int)
    requires
        0 <= k < document(input).requests.len(),
        0 <= j < document(input).requests[k].headers.len(),
    ensures
        stands_on_a_line(lines(input), document(input).requests[k].headers[j]),
{
    let all = lines(input);
    lemma_headers_stay_on_lines(all, parser_start(), 0);
    let p = parser_run(all, parser_start(), 0);
    if k < p.requests.len() {
        assert(document(input).requests[k] == p.requests[k]);
        assert(stands_on_a_line(all, p.requests[k].headers[j]));
    } else {
        assert(stands_on_a_line(all, p.current->0.headers[j]));
    }
}

proof fn lemma_comment_step(all: Seq<Seq<char>>, p: ParserModel, i: int, content: Seq<char>)
    requires
        0 <= i < all.len(),
        all[i] == "# "@ + content || all[i] == "// "@ + content,
        content.len() > 0,
        is_trimmed(content),
        content[0] != '/' && content[0] != '#',
    ensures
        parser_step(all, p, i) == (
            i + 1,
            (ParserModel { section: tagged(section_from(p, i), content), has_content: true, ..p }),
        ),
{
    reveal_strlit("# ");
    reveal_strlit("// ");
    reveal_strlit("#");
    reveal_strlit("//");
    let line = all[i];
    let blank = seq![' '];
    let set = seq!['/', '#'];
    assert(set[0] == '/' && set[1] == '#');
    assert(line.last() == content.last());
    trimmed_text_is_kept(line);
    let mark = if line[0] == '#' {
        seq!['#']
    } else {
        seq!['/', '/']
    };
    assert(line =~= mark + (blank + content));
    if line[0] == '#' {
        run_ends_at_another('#', 1, blank + content);
        assert(line =~= repeat('#', 1) + (blank + content));
        assert(line.subrange(0, 1) =~= "#"@);
    } else {
        assert(run_len(line, '#') == 0);
        assert(line.subrange(0, 2) =~= "//"@);
    }
    assert forall|k: int| 0 <= k < mark.len() implies set.contains(#[trigger] mark[k]) by {}
    drop_leading_finds(mark, blank + content, set);
    trim_finds(blank, content, Seq::empty());
    assert(blank + content + Seq::empty() =~= blank + content);
}

proof fn lemma_second_differs(s: Seq<char>, pat: Seq<char>)
    requires
        pat.len() > 1,
        s.len() > 1,
        s[1] != pat[1],
    ensures
        !starts_with(s, pat),
        s != pat,
{
    if starts_with(s, pat) {
        assert(s.subrange(0, pat.len() as int)[1] == s[1]);
    }
}

/// A tag in a comment, behind `#` or `//`, holds of the section that the comment stands
/// in: it names the request, keeps it from following redirects, or limits its time. A
/// tag changes nothing else, and a comment without a tag changes nothing.
pub proof fn tags_are_read(
    all: Seq<Seq<char>>,
    p: ParserModel,
    i: int,
    content: Seq<char>,
    text: Seq<char>,
)
    requires
        0 <= i < all.len(),
        all[i] == "# "@ + content || all[i] == "// "@ + content,
        text.len() > 0,
        is_trimmed(text),
        text[0] != '=',
    ensures
        ({
            let (next, q) = parser_step(all, p, i);
            let s = section_from(p, i);
            let rest = ParserModel { has_content: true, ..p };
            &&& content.len() > 0 && is_trimmed(content) && content[0] != '/' && content[0] != '#'
                ==> next == i + 1
            &&& content == "@name "@ + text ==> q == (ParserModel {
                section: SectionModel { name: Some(text), ..s },
                ..rest
            })
            &&& content == "@no-redirect"@ ==> q == (ParserModel {
                section: SectionModel { no_redirect: true, ..s },
                ..rest
            })
            &&& content == "@timeout "@ + text ==> q == (ParserModel {
                section: SectionModel { timeout_secs: duration(text), ..s },
                ..rest
            })
            &&& content == "@connection-timeout "@ + text ==> q == (ParserModel {
                section: SectionModel { connection_timeout_secs: duration(text), ..s },
                ..rest
            })
            &&& content.len() > 0 && is_trimmed(content) && content[0] != '@' && content[0] != '/'
                && content[0] != '#' ==> q == (ParserModel { section: s, ..rest })
        }),
{
    reveal_strlit("@name ");
    reveal_strlit("@name");
    reveal_strlit("@no-redirect");
    reveal_strlit("@timeout ");
    reveal_strlit("@timeout");
    reveal_strlit("@connection-timeout ");
    reveal_strlit("@connection-timeout");
    let blank = seq![' '];
    let none = Seq::<char>::empty();
    trim_finds(blank, text, none);
    assert(blank + text + none =~= blank + text);
    if content.len() > 0 && is_trimmed(content) && content[0] != '/' && content[0] != '#' {
        lemma_comment_step(all, p, i, content);
    }
    if content == "@name "@ + text {
        assert(content.last() == text.last());
        lemma_comment_step(all, p, i, content);
        assert(content.subrange(0, 5) =~= "@name"@);
        assert(content.skip(5) =~= blank + text);
        drop_leading_finds(none, text, seq!['=']);
        assert(none + text =~= text);
        trimmed_text_is_kept(text);
    }
    if content == "@no-redirect"@ {
        lemma_comment_step(all, p, i, content);
        if starts_with(content, "@name"@) {
            assert(content.subrange(0, 5)[2] == content[2]);
        }
    }
    if content == "@timeout "@ + text {
        assert(content.last() == text.last());
        lemma_comment_step(all, p, i, content);
        lemma_second_differs(content, "@name"@);
        lemma_second_differs(content, "@no-redirect"@);
        assert(content.subrange(0, 8) =~= "@timeout"@);
        assert(content.skip(8) =~= blank + text);
    }
    if content == "@connection-timeout "@ + text {
        assert(content.last() == text.last());
        lemma_comment_step(all, p, i, content);
        lemma_second_differs(content, "@name"@);
        lemma_second_differs(content, "@no-redirect"@);
        lemma_second_differs(content, "@timeout"@);
        assert(content.subrange(0, 19) =~= "@connection-timeout"@);
        assert(content.skip(19) =~= blank + text);
    }
    if content.len() > 0 && is_trimmed(content) && content[0] != '@' && content[0] != '/'
        && content[0] != '#' {
        lemma_comment_step(all, p, i, content);
        lemma_first_differs(content, "@name"@);
        lemma_first_differs(content, "@timeout"@);
        lemma_first_differs(content, "@connection-timeout"@);
    }
}

/// A variable line before a request adds the variable behind those there are.
pub proof fn variables_are_kept(
    all: Seq<Seq<char>>,
    p: ParserModel,
    i: int,
    name: Seq<char>,
    value: Seq<char>,
)
    requires
        0 <= i < all.len(),
        all[i] == "@"@ + name + "="@ + value || all[i] == "@"@ + name + " = "@ + value,
        is_variable_name(name),
        !has_space(name),
        value.len() > 0,
        is_trimmed(value),
        p.current is None,
    ensures
        parser_step(all, p, i) == (
            i + 1,
            (ParserModel {
                section: section_from(p, i),
                has_content: true,
                variables: p.variables.push((name, value)),
                ..p
            }),
        ),
{
    reveal_strlit("@");
    reveal_strlit("=");
    reveal_strlit(" = ");
    let line = all[i];
    assert(line[0] == '@');
    assert(line.last() == value.last());
    trimmed_text_is_kept(line);
    lemma_content_line(line);
    variable_is_read(name, value);
    trimmed_text_is_kept(value);
}

/// Behind a request line, `>> path` saves the response, and `> path` names the file of
/// its handler. Before one, `< path` names the file of a pre-request script.
pub proof fn script_files_are_read(
    all: Seq<Seq<char>>,
    p: ParserModel,
    i: int,
    path: Seq<char>,
)
    requires
        0 <= i < all.len(),
        path.len() > 0,
        is_trimmed(path),
        path[0] != '{' && path[0] != '>',
    ensures
        p.current matches Some(d) ==> all[i] == ">> "@ + path ==> parser_step(all, p, i) == (
            i + 1,
            (ParserModel {
                current: Some(
                    DraftModel {
                        redirect_to: Some(RedirectModel { overwrite: false, path }),
                        ..d
                    },
                ),
                ..p
            }),
        ),
        p.current matches Some(d) ==> all[i] == ">>! "@ + path ==> parser_step(all, p, i) == (
            i + 1,
            (ParserModel {
                current: Some(
                    DraftModel {
                        redirect_to: Some(RedirectModel { overwrite: true, path }),
                        ..d
                    },
                ),
                ..p
            }),
        ),
        p.current matches Some(d) ==> all[i] == "> "@ + path ==> parser_step(all, p, i) == (
            i + 1,
            (ParserModel {
                current: Some(DraftModel { handler: Some(HandlerModel::File(path)), ..d }),
                ..p
            }),
        ),
        p.current is None ==> all[i] == "< "@ + path ==> parser_step(all, p, i) == (
            i + 1,
            (ParserModel {
                section: SectionModel {
                    pre_request_script: Some(HandlerModel::File(path)),
                    ..p.section
                },
                has_content: true,
                ..p
            }),
        ),
{
    reveal_strlit(">> ");
    reveal_strlit(">>! ");
    reveal_strlit(">>");
    reveal_strlit("> ");
    reveal_strlit("< ");
    reveal_strlit("<");
    reveal_strlit(">");
    reveal_strlit("{%");
    let line = all[i];
    let blank = seq![' '];
    let none = Seq::<char>::empty();
    trim_finds(blank, path, none);
    assert(blank + path + none =~= blank + path);
    lemma_first_differs(path, "{%"@);
    redirect_is_read(path);
    if line == ">> "@ + path || line == ">>! "@ + path {
        assert(line[0] == '>');
        assert(line.last() == path.last());
        trimmed_text_is_kept(line);
        lemma_content_line(line);
    }
    if line == "> "@ + path {
        assert(line[0] == '>');
        assert(line.last() == path.last());
        trimmed_text_is_kept(line);
        lemma_content_line(line);
        lemma_second_differs(line, ">>"@);
        assert(line.subrange(0, 1) =~= ">"@);
        assert(line.skip(1) =~= blank + path);
    }
    if line == "< "@ + path {
        assert(line[0] == '<');
        assert(line.last() == path.last());
        trimmed_text_is_kept(line);
        lemma_content_line(line);
        assert(line.subrange(0, 1) =~= "<"@);
        assert(line.skip(1) =~= blank + path);
    }
}

proof fn lemma_script_lines(
    all: Seq<Seq<char>>,
    start: int,
    i: int,
    done: Seq<Seq<char>>,
    script: Seq<Seq<char>>,
)
    requires
        0 <= i,
        i + script.len() < all.len(),
        forall|k: int|
            0 <= k < script.len() ==> all[i + k] == #[trigger] script[k] && !ends_with(
                script[k],
                "%}"@,
            ),
        all[i + script.len()] == "%}"@,
        done.len() > 0 ==> done[0].len() > 0,
        done.len() == 0 ==> script.len() > 0 && script[0].len() > 0,
    ensures
        script_rest(all, start, i, join(done, "\n"@)) == (
            join(done + script, "\n"@),
            i + script.len() - start + 1,
        ),
    decreases script.len(),
{
    reveal_strlit("%}");
    reveal_strlit("\n");
    if script.len() == 0 {
        assert(done + script =~= done);
        assert(all[i].subrange(0, 2) =~= "%}"@);
        assert(all[i].take(0) =~= Seq::empty());
        trimmed_text_is_kept(Seq::empty());
    } else {
        let line = script[0];
        assert(all[i + 0] == line);
        let rest = script.drop_first();
        let more = done.push(line);
        assert forall|k: int| 0 <= k < rest.len() implies all[i + 1 + k] == #[trigger] rest[k]
            && !ends_with(rest[k], "%}"@) by {
            assert(rest[k] == script[k + 1]);
        }
        assert(more.drop_last() =~= done);
        assert(more[0] == if done.len() > 0 {
            done[0]
        } else {
            line
        });
        lemma_script_lines(all, start, i + 1, more, rest);
        assert(more + rest =~= done + script);
        if done.len() == 0 {
            assert(join(done, "\n"@).len() == 0);
            assert(join(more, "\n"@) == line);
        } else {
            lemma_join_is_visible(done);
            assert(join(done, "\n"@).push('\n') + line =~= join(done, "\n"@) + "\n"@ + line);
        }
    }
}

proof fn lemma_join_is_visible(parts: Seq<Seq<char>>)
    requires
        parts.len() > 0,
        parts[0].len() > 0,
    ensures
        join(parts, "\n"@).len() > 0,
    decreases parts.len(),
{
    if parts.len() > 1 {
        lemma_join_is_visible(parts.drop_last());
    }
}

/// A script between `{%` and `%}`, each on a line of its own, is read as its lines,
/// joined by line breaks: behind a request line and `>` as the response handler, before
/// one and behind `<` as the pre-request script. Reading goes on behind it.
pub proof fn inline_scripts_are_read(
    all: Seq<Seq<char>>,
    p: ParserModel,
    i: int,
    script: Seq<Seq<char>>,
)
    requires
        0 <= i,
        i + script.len() + 1 < all.len(),
        script.len() > 0,
        script[0].len() > 0,
        forall|k: int|
            0 <= k < script.len() ==> all[i + 1 + k] == #[trigger] script[k] && !ends_with(
                script[k],
                "%}"@,
            ),
        all[i + 1 + script.len()] == "%}"@,
    ensures
        p.current matches Some(d) ==> all[i] == "> {%"@ ==> parser_step(all, p, i) == (
            i + script.len() + 2,
            (ParserModel {
                current: Some(
                    DraftModel {
                        handler: Some(HandlerModel::Inline(join(script, "\n"@))),
                        ..d
                    },
                ),
                ..p
            }),
        ),
        p.current is None ==> all[i] == "< {%"@ ==> parser_step(all, p, i) == (
            i + script.len() + 2,
            (ParserModel {
                section: SectionModel {
                    pre_request_script: Some(HandlerModel::Inline(join(script, "\n"@))),
                    ..p.section
                },
                has_content: true,
                ..p
            }),
        ),
{
    reveal_strlit("> {%");
    reveal_strlit("< {%");
    reveal_strlit("{%");
    reveal_strlit("%}");
    reveal_strlit(">");
    reveal_strlit(">>");
    reveal_strlit("<");
    let line = all[i];
    let none = Seq::<char>::empty();
    let blank = seq![' '];
    let first = "{%"@;
    trim_finds(blank, first, none);
    trimmed_text_is_kept(none);
    assert(first + none =~= first);
    trim_end_finds(first, none);
    assert(!ends_with(first, "%}"@)) by {
        if ends_with(first, "%}"@) {
            assert(first.subrange(0, 2)[0] == first[0]);
        }
    }
    assert(first.subrange(0, 2) =~= "{%"@);
    assert(first.skip(2) =~= none);
    assert(strip_suffix(none, "%}"@) is None);
    assert(script_plus(none, script_first(first)) == none);
    lemma_script_lines(all, i, i + 1, Seq::empty(), script);
    assert(Seq::<Seq<char>>::empty() + script =~= script);
    assert(join(Seq::<Seq<char>>::empty(), "\n"@) =~= none);
    if line == "> {%"@ || line == "< {%"@ {
        trimmed_text_is_kept(line);
        lemma_content_line(line);
        assert(line.skip(1) =~= blank + first + none);
        if line == "> {%"@ {
            lemma_second_differs(line, ">>"@);
            assert(line.subrange(0, 1) =~= ">"@);
            assert(redirect_line(line) is None);
        } else {
            assert(line.subrange(0, 1) =~= "<"@);
        }
    }
}

/// A script on one line is read without its brackets and the white space around it.
pub proof fn short_scripts_are_read(all: Seq<Seq<char>>, i: int, code: Seq<char>)
    requires
        is_trimmed(code),
        code.len() > 0,
    ensures
        inline_script(all, i, "{% "@ + code + " %}"@) == (code, 1int),
{
    reveal_strlit("{% ");
    reveal_strlit(" %}");
    reveal_strlit("{%");
    reveal_strlit("%}");
    let first = "{% "@ + code + " %}"@;
    let none = Seq::<char>::empty();
    let blank = seq![' '];
    assert(first.last() == '}');
    assert(first + none =~= first);
    trim_end_finds(first, none);
    let n = first.len() as int;
    assert(first.subrange(n - 2, n) =~= "%}"@);
    assert(first.subrange(0, 2) =~= "{%"@);
    let rest = first.skip(2);
    assert(rest.subrange(n - 4, n - 2) =~= "%}"@);
    assert(rest.take(n - 4) =~= blank + code + blank);
    trim_finds(blank, code, blank);
}

/// A URL goes on in the indented lines below it, each without the white space around
/// it, up to the first line that is blank or not indented.
pub proof fn url_goes_on(
    all: Seq<Seq<char>>,
    i: int,
    url: Seq<char>,
    parts: Seq<Seq<char>>,
)
    requires
        0 <= i,
        i + parts.len() <= all.len(),
        forall|k: int|
            0 <= k < parts.len() ==> all[i + k] == "  "@ + #[trigger] parts[k] && is_trimmed(
                parts[k],
            ) && parts[k].len() > 0,
        i + parts.len() < all.len() ==> is_blank(all[i + parts.len()]) || !is_indented(
            all[i + parts.len()],
        ),
    ensures
        continued_url(all, i, url) == (i + parts.len(), url + join(parts, Seq::empty())),
    decreases parts.len(),
{
    reveal_strlit("  ");
    reveal_strlit(" ");
    let none = Seq::<char>::empty();
    if parts.len() == 0 {
        assert(url + join(parts, none) =~= url);
    } else {
        let part = parts[0];
        let blanks = seq![' ', ' '];
        assert(all[i + 0] == "  "@ + part);
        assert("  "@ + part =~= blanks + part + none);
        trim_finds(blanks, part, none);
        assert(all[i].subrange(0, 1) =~= " "@);
        let rest = parts.drop_first();
        assert forall|k: int| 0 <= k < rest.len() implies all[i + 1 + k] == "  "@
            + #[trigger] rest[k] && is_trimmed(rest[k]) && rest[k].len() > 0 by {
            assert(rest[k] == parts[k + 1]);
        }
        url_goes_on(all, i + 1, url + part, rest);
        if rest.len() > 0 {
            join_of_all(seq![part], rest, none);
            assert(seq![part] + rest =~= parts);
            assert(url + (part + none + join(rest, none)) =~= url + part + join(rest, none));
        } else {
            assert(url + part + join(rest, none) =~= url + part);
        }
    }
}

/// Whatever stands before a version is kept, but for the space between the two, and a text
/// without a version is kept as it is.
pub proof fn version_is_dropped(text: Seq<char>, version: Seq<char>)
    requires
        version.len() > 0,
        is_version(version),
    ensures
        without_version(text + " HTTP/"@ + version) == trim_end(text),
        without_version((text + " HTTP/"@ + version) + " (Prior Knowledge)"@) == trim_end(text),
        !contains(text, " HTTP/"@) && !ends_with(text, " (Prior Knowledge)"@)
            ==> without_version(text) == text,
        is_version_token("HTTP/"@ + version),
        forall|token: Seq<char>| #[trigger]
            is_version_token(token) ==> token.len() > 5 && token.take(5) == "HTTP/"@ && is_version(
                token.skip(5),
            ),
{
    lemma_version_found(text, version);
    lemma_knowledge_dropped(text, version);
    assert(!contains(text, " HTTP/"@) ==> rfind(text, " HTTP/"@) is None) by {
        rfind_is_last(text, " HTTP/"@);
        find_is_first(text, " HTTP/"@);
    }
    lemma_version_token(version);
}

proof fn lemma_version_token(version: Seq<char>)
    requires
        version.len() > 0,
        is_version(version),
    ensures
        is_version_token("HTTP/"@ + version),
        forall|token: Seq<char>| #[trigger]
            is_version_token(token) ==> token.len() > 5 && token.take(5) == "HTTP/"@ && is_version(
                token.skip(5),
            ),
{
    reveal_strlit("HTTP/");
    let token = "HTTP/"@ + version;
    assert(token.subrange(0, 5) =~= "HTTP/"@);
    assert(token.skip(5) =~= version);
    assert forall|token: Seq<char>| #[trigger] is_version_token(token) implies token.len() > 5
        && token.take(5) == "HTTP/"@ && is_version(token.skip(5)) by {
        assert(token.take(5) =~= token.subrange(0, 5));
    }
}

proof fn lemma_later_version(text: Seq<char>, version: Seq<char>, k: int)
    requires
        is_version(version),
        k > text.len(),
    ensures
        !matches_at(text + " HTTP/"@ + version, " HTTP/"@, k),
{
    reveal_strlit(" HTTP/");
    let mark = " HTTP/"@;
    let full = text + mark + version;
    let p = text.len() as int;
    if matches_at(full, mark, k) {
        assert(full.subrange(k, k + 6)[0] == full[k]);
        assert(full[k] == ' ');
        if k < p + 6 {
            assert(full[k] == mark[k - p]);
        } else {
            assert(full[k] == version[k - p - 6]);
        }
        assert(false);
    }
}

proof fn lemma_version_parts(text: Seq<char>, version: Seq<char>)
    ensures
        ({
            let full = text + " HTTP/"@ + version;
            &&& matches_at(full, " HTTP/"@, text.len() as int)
            &&& full.skip(text.len() as int + 1) == "HTTP/"@ + version
            &&& full.take(text.len() as int) == text
        }),
{
    reveal_strlit(" HTTP/");
    reveal_strlit("HTTP/");
    let full = text + " HTTP/"@ + version;
    let p = text.len() as int;
    assert(full.subrange(p, p + 6) =~= " HTTP/"@);
    assert(full.skip(p + 1) =~= "HTTP/"@ + version);
    assert(full.take(p) =~= text);
}

proof fn lemma_last_version(text: Seq<char>, version: Seq<char>)
    requires
        is_version(version),
    ensures
        ({
            let full = text + " HTTP/"@ + version;
            &&& rfind(full, " HTTP/"@) == Some(text.len() as int)
            &&& full.skip(text.len() as int + 1) == "HTTP/"@ + version
            &&& full.take(text.len() as int) == text
        }),
{
    let full = text + " HTTP/"@ + version;
    let p = text.len() as int;
    lemma_version_parts(text, version);
    rfind_is_last(full, " HTTP/"@);
    if let Some(k) = rfind(full, " HTTP/"@) {
        if k > p {
            lemma_later_version(text, version, k);
        }
    }
}

proof fn lemma_version_found(text: Seq<char>, version: Seq<char>)
    requires
        version.len() > 0,
        is_version(version),
    ensures
        without_version(text + " HTTP/"@ + version) == trim_end(text),
{
    let full = text + " HTTP/"@ + version;
    assert(!ends_with(full, " (Prior Knowledge)"@)) by {
        reveal_strlit(" (Prior Knowledge)");
        let knowledge = " (Prior Knowledge)"@;
        if ends_with(full, knowledge) {
            let k = full.len() - knowledge.len();
            assert(full.subrange(k, k + knowledge.len())[knowledge.len() - 1] == full.last());
            assert(full.last() == version.last());
        }
    }
    lemma_last_version(text, version);
    lemma_version_token(version);
}

proof fn lemma_knowledge_dropped(text: Seq<char>, version: Seq<char>)
    requires
        version.len() > 0,
        is_version(version),
    ensures
        without_version((text + " HTTP/"@ + version) + " (Prior Knowledge)"@) == trim_end(text),
{
    let full = text + " HTTP/"@ + version;
    ends_are_taken_off(full, " (Prior Knowledge)"@, full, full);
    lemma_last_version(text, version);
    lemma_version_token(version);
}

/// Whether `s` is made of digits and points.
pub open spec fn is_version(s: Seq<char>) -> bool {
    forall|i: int| 0 <= i < s.len() ==> is_digit(#[trigger] s[i]) || s[i] == '.'
}

/// A name may stand behind an equals sign, with or without spaces around it.
pub proof fn names_may_be_assigned(
    all: Seq<Seq<char>>,
    p: ParserModel,
    i: int,
    text: Seq<char>,
)
    requires
        0 <= i < all.len(),
        text.len() > 0,
        is_trimmed(text),
        text[0] != '=',
        all[i] == "# "@ + ("@name="@ + text) || all[i] == "# "@ + ("@name = "@ + text),
    ensures
        parser_step(all, p, i) == (
            i + 1,
            (ParserModel {
                section: SectionModel { name: Some(text), ..section_from(p, i) },
                has_content: true,
                ..p
            }),
        ),
{
    reveal_strlit("@name=");
    reveal_strlit("@name = ");
    reveal_strlit("@name");
    let none = Seq::<char>::empty();
    let blank = seq![' '];
    let sign = seq!['='];
    let tight = all[i] == "# "@ + ("@name="@ + text);
    let content = if tight {
        "@name="@ + text
    } else {
        "@name = "@ + text
    };
    assert(content.last() == text.last());
    lemma_comment_step(all, p, i, content);
    assert(content.subrange(0, 5) =~= "@name"@);
    assert(sign[0] == '=');
    if tight {
        let rest = sign + text;
        assert(content.skip(5) =~= rest);
        assert(rest.last() == text.last());
        trimmed_text_is_kept(rest);
        drop_leading_finds(sign, text, sign);
        trimmed_text_is_kept(text);
    } else {
        let rest = sign + (blank + text);
        assert(content.skip(5) =~= blank + rest + none);
        assert(rest.last() == text.last());
        trim_finds(blank, rest, none);
        drop_leading_finds(sign, blank + text, sign);
        trim_finds(blank, text, none);
        assert(blank + text + none =~= blank + text);
    }
}

/// A line that does not start with `>>`, or that has no path, saves nothing.
pub proof fn other_lines_save_nothing(line: Seq<char>, space: Seq<char>)
    requires
        all_space(space),
    ensures
        redirect_line(">>"@ + space) is None,
        redirect_line(">>!"@ + space) is None,
        redirect_line(line) is Some ==> line.len() > 2 && line[0] == '>' && line[1] == '>',
{
    reveal_strlit(">>");
    reveal_strlit(">>!");
    reveal_strlit("!");
    let none = Seq::<char>::empty();
    ends_are_taken_off(">>"@, space, line, ">>"@);
    ends_are_taken_off(">>"@, "!"@ + space, space, "!"@);
    ends_are_taken_off("!"@, space, space, "!"@);
    assert(">>!"@ + space =~= ">>"@ + ("!"@ + space));
    blank_means_invisible(space);
    if starts_with(space, "!"@) {
        assert(space.subrange(0, 1)[0] == space[0]);
    }
    blank_means_invisible(none);
    if let Some(rest) = strip_prefix(line, ">>"@) {
        assert(line[0] == ">>"@[0] && line[1] == ">>"@[1]);
        if line.len() == 2 {
            assert(rest =~= none);
        }
    }
}

} // verus!
