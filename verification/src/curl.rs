//! How a request is handed to curl, and how its answer is read.

use vstd::prelude::*;
use vstd::string::StrSliceExecFns;
use crate::decimal::decimal;
use crate::decimal::decimal_of;
use crate::decimal::decimal_reads_back;
use crate::decimal::read_unsigned;
use crate::decimal::read_unsigned_of;
use crate::execute::Reply;
use crate::execute::ResolvedModel;
use crate::execute::ResolvedRequest;
use crate::execute::ResponseData;
use crate::text::all_space;
use crate::text::blank_means_invisible;
use crate::text::concat3;
use crate::text::concat;
use crate::text::eq_ignore_ascii_case;
use crate::text::find;
use crate::text::find_is_first;
use crate::text::has_prefix;
use crate::text::head_of;
use crate::text::is_blank;
use crate::text::is_digit;
use crate::text::is_empty_text;
use crate::text::is_space;
use crate::text::is_trimmed;
use crate::text::last_position;
use crate::text::leading_word;
use crate::text::lines;
use crate::text::lines_of;
use crate::text::matches_at;
use crate::text::owned;
use crate::text::position;
use crate::text::rfind;
use crate::text::rfind_is_last;
use crate::text::same_ignoring_ascii_case;
use crate::text::split_finds;
use crate::text::split_finds_character;
use crate::text::split_once;
use crate::text::split_once_at;
use crate::text::split_parts_rejoin;
use crate::text::split_text;
use crate::text::split_text_of;
use crate::text::starts_with;
use crate::text::tail_of;
use crate::text::text_option;
use crate::text::text_pairs;
use crate::text::texts;
use crate::text::trim;
use crate::text::trim_finds;
use crate::text::trim_of;
use crate::text::trim_start;
use crate::text::trim_start_finds;
use crate::text::trim_start_of;
use crate::text::trimmed_text_is_kept;
use crate::text::word_ends_at_space;
use crate::text::word_len;

verus! {

// ---------------------------------------------------------------------------
// Arguments
// ---------------------------------------------------------------------------

/// The files that curl reads and writes for one request.
pub struct CurlFiles {
    /// Where the header lines of the response go.
    pub headers: String,
    /// Where the body of the response goes.
    pub body: String,
    /// Where the body of the request stands, if it has one.
    pub request_body: String,
    /// The cookie jar, unless cookies are off.
    pub cookies: Option<String>,
}

/// The files that curl reads and writes for one request.
pub ghost struct CurlPaths {
    pub headers: Seq<char>,
    pub body: Seq<char>,
    pub request_body: Seq<char>,
    pub cookies: Option<Seq<char>>,
}

impl View for CurlFiles {
    type V = CurlPaths;

    open spec fn view(&self) -> CurlPaths {
        CurlPaths {
            headers: self.headers@,
            body: self.body@,
            request_body: self.request_body@,
            cookies: text_option(self.cookies),
        }
    }
}

/// `-H` and the header, for each header.
pub open spec fn header_args(headers: Seq<(Seq<char>, Seq<char>)>) -> Seq<Seq<char>>
    decreases headers.len(),
{
    if headers.len() == 0 {
        Seq::empty()
    } else {
        header_args(headers.drop_last()).push("-H"@).push(
            headers.last().0 + ": "@ + headers.last().1,
        )
    }
}

/// An option with a number of seconds, where there is one.
pub open spec fn seconds_args(option: Seq<char>, seconds: Option<u64>) -> Seq<Seq<char>> {
    match seconds {
        Some(n) => seq![option, decimal(n as nat)],
        None => Seq::empty(),
    }
}

/// Whether a request sets the `Cookie` header itself.
pub open spec fn has_cookie(headers: Seq<(Seq<char>, Seq<char>)>) -> bool {
    exists|i: int|
        0 <= i < headers.len() && same_ignoring_ascii_case((#[trigger] headers[i]).0, "cookie"@)
}

/// The jar that curl reads cookies from and writes them to. A request that sets the
/// `Cookie` header itself goes out with that header alone, and leaves the jar as it
/// is: written without having been read, the jar would lose what it holds.
pub open spec fn cookie_args(
    headers: Seq<(Seq<char>, Seq<char>)>,
    jar: Option<Seq<char>>,
) -> Seq<Seq<char>> {
    match jar {
        Some(jar) => if has_cookie(headers) {
            Seq::empty()
        } else {
            seq!["-b"@, jar, "-c"@, jar]
        },
        None => Seq::empty(),
    }
}

/// The arguments with which curl sends a request, writes the response to the
/// given files, and prints its status and the time that it took.
pub open spec fn curl_args(q: ResolvedModel, files: CurlPaths) -> Seq<Seq<char>> {
    seq!["-sS"@, "-X"@, q.method] + header_args(q.headers) + (if q.body is Some {
        seq!["--data-binary"@, "@"@ + files.request_body]
    } else {
        Seq::empty()
    }) + (if q.follow_redirects {
        seq!["-L"@]
    } else {
        Seq::empty()
    }) + seq!["--compressed"@] + seconds_args("--max-time"@, q.timeout_secs) + seconds_args(
        "--connect-timeout"@,
        q.connection_timeout_secs,
    ) + cookie_args(q.headers, files.cookies) + seq![
        "-D"@,
        files.headers,
        "-o"@,
        files.body,
        "-w"@,
        "%{http_code} %{time_total}"@,
        q.url,
    ]
}

fn add(args: &mut Vec<String>, arg: &str)
    ensures
        texts(final(args)@) == texts(old(args)@).push(arg@),
{
    args.push(owned(arg));
    assert(texts(args@) =~= texts(old(args)@).push(arg@));
}

fn add_seconds(args: &mut Vec<String>, option: &str, seconds: Option<u64>)
    ensures
        texts(final(args)@) == texts(old(args)@) + seconds_args(option@, seconds),
{
    if let Some(n) = seconds {
        self::add(args, option);
        self::add(args, decimal_of(n).as_str());
    }
    assert(texts(args@) =~= texts(old(args)@) + seconds_args(option@, seconds));
}

fn add_headers(args: &mut Vec<String>, headers: &Vec<(String, String)>)
    ensures
        texts(final(args)@) == texts(old(args)@) + header_args(text_pairs(headers@)),
{
    let ghost all = text_pairs(headers@);
    let ghost before = texts(args@);
    assert(before =~= before + header_args(all.take(0)));
    for i in 0..headers.len()
        invariant
            all == text_pairs(headers@),
            texts(args@) == before + header_args(all.take(i as int)),
    {
        let h = &headers[i];
        assert(all.take(i + 1).drop_last() =~= all.take(i as int));
        assert(all.take(i + 1).last() == (h.0@, h.1@));
        self::add(args, "-H");
        self::add(args, concat3(h.0.as_str(), ": ", h.1.as_str()).as_str());
        assert(texts(args@) =~= before + header_args(all.take(i + 1)));
    }
    assert(all.take(headers@.len() as int) =~= all);
}

fn sets_cookie(headers: &Vec<(String, String)>) -> (r: bool)
    ensures
        r == has_cookie(text_pairs(headers@)),
{
    let ghost all = text_pairs(headers@);
    for i in 0..headers.len()
        invariant
            all == text_pairs(headers@),
            forall|k: int|
                0 <= k < i ==> !same_ignoring_ascii_case((#[trigger] all[k]).0, "cookie"@),
    {
        assert(all[i as int].0 == headers@[i as int].0@);
        if eq_ignore_ascii_case(headers[i].0.as_str(), "cookie") {
            return true;
        }
    }
    false
}

fn add_cookies(args: &mut Vec<String>, headers: &Vec<(String, String)>, jar: &Option<String>)
    ensures
        texts(final(args)@) == texts(old(args)@) + cookie_args(
            text_pairs(headers@),
            text_option(*jar),
        ),
{
    if let Some(jar) = jar {
        if !sets_cookie(headers) {
            self::add(args, "-b");
            self::add(args, jar.as_str());
            self::add(args, "-c");
            self::add(args, jar.as_str());
        }
    }
    assert(texts(args@) =~= texts(old(args)@) + cookie_args(
        text_pairs(headers@),
        text_option(*jar),
    ));
}

/// The arguments with which curl sends a request.
pub fn curl_arguments(request: &ResolvedRequest, files: &CurlFiles) -> (r: Vec<String>)
    ensures
        texts(r@) == curl_args(request@, files@),
{
    let mut args: Vec<String> = Vec::new();
    self::add(&mut args, "-sS");
    self::add(&mut args, "-X");
    self::add(&mut args, request.method.as_str());
    assert(texts(args@) =~= seq!["-sS"@, "-X"@, request.method@]);
    add_headers(&mut args, &request.headers);
    let ghost a = texts(args@);
    if request.body.is_some() {
        self::add(&mut args, "--data-binary");
        self::add(&mut args, concat("@", files.request_body.as_str()).as_str());
        assert(texts(args@) =~= a + seq!["--data-binary"@, "@"@ + files.request_body@]);
    } else {
        assert(a =~= a + Seq::<Seq<char>>::empty());
    }
    let ghost b = texts(args@);
    if request.follow_redirects {
        self::add(&mut args, "-L");
        assert(texts(args@) =~= b + seq!["-L"@]);
    } else {
        assert(b =~= b + Seq::<Seq<char>>::empty());
    }
    let ghost c = texts(args@);
    self::add(&mut args, "--compressed");
    assert(texts(args@) =~= c + seq!["--compressed"@]);
    add_seconds(&mut args, "--max-time", request.timeout_secs);
    add_seconds(&mut args, "--connect-timeout", request.connection_timeout_secs);
    add_cookies(&mut args, &request.headers, &files.cookies);
    let ghost e = texts(args@);
    self::add(&mut args, "-D");
    self::add(&mut args, files.headers.as_str());
    self::add(&mut args, "-o");
    self::add(&mut args, files.body.as_str());
    self::add(&mut args, "-w");
    self::add(&mut args, "%{http_code} %{time_total}");
    self::add(&mut args, request.url.as_str());
    assert(texts(args@) =~= e + seq![
        "-D"@,
        files.headers@,
        "-o"@,
        files.body@,
        "-w"@,
        "%{http_code} %{time_total}"@,
        request.url@,
    ]);
    args
}

// ---------------------------------------------------------------------------
// The figures that curl prints
// ---------------------------------------------------------------------------

/// The first word of a text, and what follows it.
pub open spec fn next_word(s: Seq<char>) -> Option<(Seq<char>, Seq<char>)> {
    let t = trim_start(s);
    if t.len() == 0 {
        None
    } else {
        Some((t.take(word_len(t) as int), t.skip(word_len(t) as int)))
    }
}

/// The status that curl printed, or 0; and the time that it printed behind it.
pub open spec fn figures(text: Seq<char>) -> (u16, Option<Seq<char>>) {
    match next_word(text) {
        Some((code, rest)) => (
            match read_unsigned(code, u16::MAX as nat) {
                Some(n) => n as u16,
                None => 0,
            },
            match next_word(rest) {
                Some((time, _)) => Some(time),
                None => None,
            },
        ),
        None => (0, None),
    }
}

fn read_word<'a>(s: &'a str) -> (r: Option<(&'a str, &'a str)>)
    ensures
        r matches Some(p) ==> next_word(s@) == Some((p.0@, p.1@)),
        r is None ==> next_word(s@) is None,
{
    let t = trim_start_of(s);
    if is_empty_text(t) {
        None
    } else {
        let n: usize = leading_word(t);
        Some((head_of(t, n), tail_of(t, n)))
    }
}

/// Reads the status and the time that curl printed.
pub fn parse_write_out(text: &str) -> (r: (u16, Option<String>))
    ensures
        (r.0, text_option(r.1)) == figures(text@),
{
    match read_word(text) {
        Some((code, rest)) => {
            let status: u16 = match read_unsigned_of(code, 65535) {
                Some(n) => n as u16,
                None => 0,
            };
            let time = match read_word(rest) {
                Some((time, _)) => Some(owned(time)),
                None => None,
            };
            (status, time)
        },
        None => (0, None),
    }
}

/// What curl reported when it failed: what it wrote as an error, or else what it
/// printed.
pub fn curl_error(stderr: &str, stdout: &str) -> (r: String)
    ensures
        r@ == error_text(stderr@, stdout@),
{
    let stderr = trim_of(stderr);
    if is_empty_text(stderr) {
        owned(trim_of(stdout))
    } else {
        owned(stderr)
    }
}

// ---------------------------------------------------------------------------
// The header lines that curl wrote
// ---------------------------------------------------------------------------

/// What the header lines of a response say.
#[derive(Debug, PartialEq)]
pub struct HeaderTrace {
    pub protocol: String,
    pub status_text: String,
    pub headers: Vec<(String, String)>,
    pub redirects: Vec<String>,
}

/// What the header lines of a response say.
#[verifier::ext_equal]
pub ghost struct TraceModel {
    pub protocol: Seq<char>,
    pub status_text: Seq<char>,
    pub headers: Seq<(Seq<char>, Seq<char>)>,
    pub redirects: Seq<Seq<char>>,
}

impl View for HeaderTrace {
    type V = TraceModel;

    open spec fn view(&self) -> TraceModel {
        TraceModel {
            protocol: self.protocol@,
            status_text: self.status_text@,
            headers: text_pairs(self.headers@),
            redirects: texts(self.redirects@),
        }
    }
}

/// The protocol and the status text of a status line.
pub open spec fn status_line(line: Seq<char>) -> (Seq<char>, Seq<char>) {
    match split_once(line, " "@) {
        Some((protocol, rest)) => match split_once(rest, " "@) {
            Some((_, text)) => (protocol, trim(text)),
            None => (protocol, Seq::empty()),
        },
        None => (line, Seq::empty()),
    }
}

/// `location` as seen from `base`.
pub open spec fn absolute_url(base: Seq<char>, location: Seq<char>) -> Seq<char> {
    if starts_with(location, "http://"@) || starts_with(location, "https://"@) {
        location
    } else {
        match find(base, "://"@) {
            Some(scheme) => {
                let authority = base.skip(scheme + 3);
                let origin = match find(authority, "/"@) {
                    Some(i) => base.take(scheme + 3 + i),
                    None => base,
                };
                if starts_with(location, "/"@) {
                    origin + location
                } else {
                    (match rfind(base, "/"@) {
                        Some(i) => base.take(i + 1),
                        None => base,
                    }) + location
                }
            },
            None => location,
        }
    }
}

/// The parts that are not blank.
pub open spec fn visible(parts: Seq<Seq<char>>) -> Seq<Seq<char>>
    decreases parts.len(),
{
    if parts.len() == 0 {
        Seq::empty()
    } else if is_blank(parts.last()) {
        visible(parts.drop_last())
    } else {
        visible(parts.drop_last()).push(parts.last())
    }
}

/// The blocks of header lines, one for each response on the way.
pub open spec fn header_blocks(text: Seq<char>) -> Seq<Seq<char>> {
    visible(split_text(text, "\r\n\r\n"@))
}

/// The value of the first `Location` line from line `i` on.
pub open spec fn location_from(lines: Seq<Seq<char>>, i: int) -> Option<Seq<char>>
    decreases lines.len() - i,
{
    if i < 0 || i >= lines.len() {
        None
    } else {
        match split_once(lines[i], ":"@) {
            Some((name, value)) => if same_ignoring_ascii_case(name, "location"@) {
                Some(trim(value))
            } else {
                location_from(lines, i + 1)
            },
            None => location_from(lines, i + 1),
        }
    }
}

/// The URLs that the given blocks redirect to.
pub open spec fn redirects_of(blocks: Seq<Seq<char>>, url: Seq<char>) -> Seq<Seq<char>>
    decreases blocks.len(),
{
    if blocks.len() == 0 {
        Seq::empty()
    } else {
        let before = redirects_of(blocks.drop_last(), url);
        match location_from(lines(blocks.last()), 0) {
            Some(location) => before.push(absolute_url(url, location)),
            None => before,
        }
    }
}

/// The name and the value on each line that has a colon.
pub open spec fn header_pairs(lines: Seq<Seq<char>>) -> Seq<(Seq<char>, Seq<char>)>
    decreases lines.len(),
{
    if lines.len() == 0 {
        Seq::empty()
    } else {
        let before = header_pairs(lines.drop_last());
        match split_once(lines.last(), ":"@) {
            Some((name, value)) => before.push((trim(name), trim(value))),
            None => before,
        }
    }
}

/// What header lines say: the last block is the response, and those before it
/// are redirects.
pub open spec fn trace(text: Seq<char>, url: Seq<char>) -> TraceModel {
    let blocks = header_blocks(text);
    let last = lines(
        if blocks.len() == 0 {
            text
        } else {
            blocks.last()
        },
    );
    let (protocol, status_text) = if last.len() == 0 {
        ("HTTP"@, Seq::empty())
    } else {
        status_line(last[0])
    };
    TraceModel {
        protocol,
        status_text,
        headers: header_pairs(
            if last.len() == 0 {
                Seq::empty()
            } else {
                last.drop_first()
            },
        ),
        redirects: redirects_of(
            if blocks.len() == 0 {
                Seq::empty()
            } else {
                blocks.drop_last()
            },
            url,
        ),
    }
}

/// What is known of a response without header lines.
pub open spec fn no_trace() -> TraceModel {
    TraceModel {
        protocol: "HTTP"@,
        status_text: Seq::empty(),
        headers: Seq::empty(),
        redirects: Seq::empty(),
    }
}

/// The protocol and the status text of a status line.
pub fn parse_status_line(line: &str) -> (r: (String, String))
    ensures
        (r.0@, r.1@) == status_line(line@),
{
    match split_once_at(line, " ") {
        Some((protocol, rest)) => match split_once_at(rest, " ") {
            Some((_, text)) => (owned(protocol), owned(trim_of(text))),
            None => (owned(protocol), String::new()),
        },
        None => (owned(line), String::new()),
    }
}

/// `location` as seen from `base`.
pub fn resolve_url(base: &str, location: &str) -> (r: String)
    ensures
        r@ == absolute_url(base@, location@),
{
    if has_prefix(location, "http://") || has_prefix(location, "https://") {
        return owned(location);
    }
    proof {
        reveal_strlit("://");
        reveal_strlit("/");
    }
    let total: usize = base.unicode_len();
    match position(base, "://") {
        None => owned(location),
        Some(scheme) => {
            let authority = tail_of(base, scheme + 3);
            if has_prefix(location, "/") {
                let origin = match position(authority, "/") {
                    Some(i) => head_of(base, scheme + 3 + i),
                    None => base,
                };
                concat(origin, location)
            } else {
                let directory = match last_position(base, "/") {
                    Some(i) => head_of(base, i + 1),
                    None => base,
                };
                concat(directory, location)
            }
        },
    }
}

fn keep_visible(parts: &Vec<String>) -> (r: Vec<String>)
    ensures
        texts(r@) == visible(texts(parts@)),
{
    let ghost all = texts(parts@);
    let mut out: Vec<String> = Vec::new();
    assert(texts(out@) =~= Seq::empty());
    for i in 0..parts.len()
        invariant
            all == texts(parts@),
            texts(out@) == visible(all.take(i as int)),
    {
        let part = parts[i].as_str();
        assert(all.take(i + 1).drop_last() =~= all.take(i as int));
        assert(all.take(i + 1).last() == part@);
        if !is_empty_text(trim_of(part)) {
            self::add(&mut out, part);
        }
    }
    assert(all.take(parts@.len() as int) =~= all);
    out
}

fn find_location(lines: &Vec<String>) -> (r: Option<String>)
    ensures
        text_option(r) == location_from(texts(lines@), 0),
{
    let ghost all = texts(lines@);
    for i in 0..lines.len()
        invariant
            all == texts(lines@),
            location_from(all, i as int) == location_from(all, 0),
    {
        assert(all[i as int] == lines@[i as int]@);
        if let Some((name, value)) = split_once_at(lines[i].as_str(), ":") {
            if eq_ignore_ascii_case(name, "location") {
                return Some(owned(trim_of(value)));
            }
        }
    }
    None
}

fn read_redirects(blocks: &Vec<String>, count: usize, url: &str) -> (r: Vec<String>)
    requires
        count <= blocks@.len(),
    ensures
        texts(r@) == redirects_of(texts(blocks@).take(count as int), url@),
{
    let ghost all = texts(blocks@);
    let mut out: Vec<String> = Vec::new();
    assert(texts(out@) =~= Seq::empty());
    for i in 0..count
        invariant
            count <= blocks@.len(),
            all == texts(blocks@),
            texts(out@) == redirects_of(all.take(i as int), url@),
    {
        assert(all.take(i + 1).drop_last() =~= all.take(i as int));
        assert(all.take(i + 1).last() == blocks@[i as int]@);
        if let Some(location) = find_location(&lines_of(blocks[i].as_str())) {
            self::add(&mut out, resolve_url(url, location.as_str()).as_str());
        }
    }
    out
}

fn read_headers(lines: &Vec<String>) -> (r: Vec<(String, String)>)
    requires
        lines@.len() > 0,
    ensures
        text_pairs(r@) == header_pairs(texts(lines@).drop_first()),
{
    let ghost all = texts(lines@).drop_first();
    let mut out: Vec<(String, String)> = Vec::new();
    assert(text_pairs(out@) =~= Seq::empty());
    for i in 1..lines.len()
        invariant
            all == texts(lines@).drop_first(),
            text_pairs(out@) == header_pairs(all.take(i - 1)),
    {
        let ghost before = text_pairs(out@);
        assert(all.take(i as int).drop_last() =~= all.take(i - 1));
        assert(all.take(i as int).last() == lines@[i as int]@);
        if let Some((name, value)) = split_once_at(lines[i].as_str(), ":") {
            out.push((owned(trim_of(name)), owned(trim_of(value))));
            assert(text_pairs(out@) =~= before.push((trim(name@), trim(value@))));
        }
    }
    assert(all.take(lines@.len() - 1) =~= all);
    out
}

/// Reads the header lines that curl wrote for a request to `request_url`, where
/// it wrote any.
pub fn parse_header_trace(text: Option<&str>, request_url: &str) -> (r: HeaderTrace)
    ensures
        r@ == trace_option(
            (match text {
                Some(text) => Some(text@),
                None => None,
            }),
            request_url@,
        ),
{
    match text {
        None => {
            let r = HeaderTrace {
                protocol: owned("HTTP"),
                status_text: String::new(),
                headers: Vec::new(),
                redirects: Vec::new(),
            };
            assert(r@ =~= no_trace());
            r
        },
        Some(text) => {
            proof {
                reveal_strlit("\r\n\r\n");
            }
            let blocks = keep_visible(&split_text_of(text, "\r\n\r\n"));
            let count: usize = blocks.len();
            let ghost all = texts(blocks@);
            let redirects = read_redirects(
                &blocks,
                if count == 0 {
                    0
                } else {
                    count - 1
                },
                request_url,
            );
            let last = if count == 0 {
                lines_of(text)
            } else {
                assert(all.last() == blocks@[count - 1]@);
                assert(all.take(count - 1) =~= all.drop_last());
                lines_of(blocks[count - 1].as_str())
            };
            if last.len() == 0 {
                let r = HeaderTrace {
                    protocol: owned("HTTP"),
                    status_text: String::new(),
                    headers: Vec::new(),
                    redirects,
                };
                assert(r@ =~= trace(text@, request_url@));
                r
            } else {
                assert(texts(last@)[0] == last@[0]@);
                let (protocol, status_text) = parse_status_line(last[0].as_str());
                let r = HeaderTrace {
                    protocol,
                    status_text,
                    headers: read_headers(&last),
                    redirects,
                };
                assert(r@ =~= trace(text@, request_url@));
                r
            }
        },
    }
}

// ---------------------------------------------------------------------------
// The response
// ---------------------------------------------------------------------------

/// What a run of curl left behind.
pub struct CurlOutcome {
    /// Whether curl ended without an error.
    pub success: bool,
    /// What it printed.
    pub stdout: String,
    /// What it wrote as an error.
    pub stderr: String,
    /// The header lines that it wrote, if any.
    pub header_text: Option<String>,
    /// The body that it wrote.
    pub body: Vec<u8>,
    /// The milliseconds that the request took.
    pub elapsed_ms: u64,
}

/// What header lines say, where there are any.
pub open spec fn trace_option(text: Option<Seq<char>>, url: Seq<char>) -> TraceModel {
    match text {
        Some(text) => trace(text, url),
        None => no_trace(),
    }
}

/// What curl reported when it failed: what it wrote as an error, or else what it
/// printed.
pub open spec fn error_text(stderr: Seq<char>, stdout: Seq<char>) -> Seq<char> {
    if is_blank(stderr) {
        trim(stdout)
    } else {
        trim(stderr)
    }
}

/// The response that a run of curl brought to a request to `url`. There is none
/// where curl failed, or where it printed no status.
pub open spec fn response_of(o: CurlOutcome, url: Seq<char>) -> Result<Reply, Seq<char>> {
    let status = figures(o.stdout@).0;
    let t = trace_option(text_option(o.header_text), url);
    if !o.success {
        Err(error_text(o.stderr@, o.stdout@))
    } else if status == 0 {
        Err("curl failed (no HTTP status received)"@)
    } else {
        Ok(
            Reply {
                status,
                protocol: t.protocol,
                status_text: t.status_text,
                headers: t.headers,
                redirects: t.redirects,
                body: o.body@,
                elapsed_ms: o.elapsed_ms,
            },
        )
    }
}

pub open spec fn reply_result(r: Result<ResponseData, String>) -> Result<Reply, Seq<char>> {
    match r {
        Ok(response) => Ok(response@),
        Err(e) => Err(e@),
    }
}

/// The response that a run of curl brought to a request to `url`.
pub fn curl_response(outcome: CurlOutcome, url: &str) -> (r: Result<ResponseData, String>)
    ensures
        reply_result(r) == response_of(outcome, url@),
{
    if !outcome.success {
        return Err(curl_error(outcome.stderr.as_str(), outcome.stdout.as_str()));
    }
    let (status, _) = parse_write_out(outcome.stdout.as_str());
    if status == 0 {
        return Err(owned("curl failed (no HTTP status received)"));
    }
    let trace = match &outcome.header_text {
        Some(text) => parse_header_trace(Some(text.as_str()), url),
        None => parse_header_trace(None, url),
    };
    Ok(
        ResponseData {
            status,
            protocol: trace.protocol,
            status_text: trace.status_text,
            headers: trace.headers,
            redirects: trace.redirects,
            body: outcome.body,
            elapsed_ms: outcome.elapsed_ms,
        },
    )
}

// ---------------------------------------------------------------------------
// What holds of every URL
// ---------------------------------------------------------------------------

/// A location with a scheme is kept, and every other one ends the URL.
pub proof fn location_ends_the_url(base: Seq<char>, location: Seq<char>)
    ensures
        starts_with(location, "http://"@) || starts_with(location, "https://"@) ==> absolute_url(
            base,
            location,
        ) == location,
        absolute_url(base, location).len() >= location.len(),
        absolute_url(base, location).skip(
            absolute_url(base, location).len() - location.len(),
        ) == location,
{
    let url = absolute_url(base, location);
    let k = url.len() - location.len();
    assert(location.skip(0) =~= location);
    if url != location {
        let head = url.take(k);
        assert(url.skip(k) =~= location);
    }
}

/// A `Cookie` header of the request takes precedence over the cookie jar: curl is
/// called as if there were no jar, and so neither sends what the jar holds nor
/// writes to it. Any other request sends the cookies of the jar and updates it.
pub proof fn explicit_cookie_takes_precedence(q: ResolvedModel, files: CurlPaths, jar: Seq<char>)
    ensures
        has_cookie(q.headers) ==> curl_args(q, files) == curl_args(
            q,
            (CurlPaths { cookies: None, ..files }),
        ),
        !has_cookie(q.headers) ==> exists|i: int|
            0 <= i && i + 4 <= curl_args(q, (CurlPaths { cookies: Some(jar), ..files })).len()
                && #[trigger] curl_args(q, (CurlPaths { cookies: Some(jar), ..files })).subrange(
                i,
                i + 4,
            ) == seq!["-b"@, jar, "-c"@, jar],
{
    if !has_cookie(q.headers) {
        let with_jar = curl_args(q, CurlPaths { cookies: Some(jar), ..files });
        let i = with_jar.len() - 11;
        assert(with_jar.subrange(i, i + 4) =~= seq!["-b"@, jar, "-c"@, jar]);
    }
}

/// Whether the arguments at position `at` hand over a header.
pub open spec fn tells_header(
    args: Seq<Seq<char>>,
    at: int,
    header: (Seq<char>, Seq<char>),
) -> bool {
    args[at] == "-H"@ && args[at + 1] == header.0 + ": "@ + header.1
}

proof fn lemma_header_args(headers: Seq<(Seq<char>, Seq<char>)>)
    ensures
        header_args(headers).len() == 2 * headers.len(),
        forall|i: int|
            0 <= i < headers.len() ==> tells_header(
                header_args(headers),
                2 * i,
                #[trigger] headers[i],
            ),
    decreases headers.len(),
{
    if headers.len() > 0 {
        let before = headers.drop_last();
        lemma_header_args(before);
        assert forall|i: int| 0 <= i < headers.len() implies tells_header(
            header_args(headers),
            2 * i,
            #[trigger] headers[i],
        ) by {
            if i < before.len() {
                assert(tells_header(header_args(before), 2 * i, before[i]));
            }
        }
    }
}

/// What curl is told, argument by argument: the method, every header in its order, the
/// file with the body, whether to follow redirects, the two time limits in seconds, the
/// cookie jar, the files to write to, and at the end the URL; and nothing else.
#[verifier::rlimit(25)]
pub proof fn curl_is_told_everything(q: ResolvedModel, files: CurlPaths)
    ensures
        ({
            let args = curl_args(q, files);
            let n = q.headers.len() as int;
            let body = 3 + 2 * n;
            let follow = body + (if q.body is Some {
                2int
            } else {
                0
            });
            let packed = follow + (if q.follow_redirects {
                1int
            } else {
                0
            });
            let limit = packed + 1;
            let connect = limit + (if q.timeout_secs is Some {
                2int
            } else {
                0
            });
            let jar = connect + (if q.connection_timeout_secs is Some {
                2int
            } else {
                0
            });
            let written = jar + (if files.cookies is Some && !has_cookie(q.headers) {
                4int
            } else {
                0
            });
            &&& args.len() == written + 7
            &&& args[0] == "-sS"@ && args[1] == "-X"@ && args[2] == q.method
            &&& forall|i: int|
                0 <= i < n ==> tells_header(args, 3 + 2 * i, #[trigger] q.headers[i])
            &&& q.body is Some ==> args[body] == "--data-binary"@ && args[body + 1] == "@"@
                + files.request_body
            &&& q.follow_redirects ==> args[follow] == "-L"@
            &&& args[packed] == "--compressed"@
            &&& q.timeout_secs matches Some(t) ==> args[limit] == "--max-time"@ && args[limit + 1]
                == decimal(t as nat)
            &&& q.connection_timeout_secs matches Some(t) ==> args[connect]
                == "--connect-timeout"@ && args[connect + 1] == decimal(t as nat)
            &&& files.cookies matches Some(file) ==> !has_cookie(q.headers) ==> args[jar] == "-b"@
                && args[jar + 1] == file && args[jar + 2] == "-c"@ && args[jar + 3] == file
            &&& args[written] == "-D"@ && args[written + 1] == files.headers
            &&& args[written + 2] == "-o"@ && args[written + 3] == files.body
            &&& args[written + 4] == "-w"@ && args[written + 5] == "%{http_code} %{time_total}"@
            &&& args[written + 6] == q.url
        }),
{
    lemma_header_args(q.headers);
    let args = curl_args(q, files);
    assert forall|i: int| 0 <= i < q.headers.len() implies tells_header(
        args,
        3 + 2 * i,
        #[trigger] q.headers[i],
    ) by {
        assert(tells_header(header_args(q.headers), 2 * i, q.headers[i]));
        assert(args[3 + 2 * i] == header_args(q.headers)[2 * i]);
        assert(args[4 + 2 * i] == header_args(q.headers)[2 * i + 1]);
    }
}

/// The status and the time that curl prints are read back.
pub proof fn figures_read_back(status: u16, time: Seq<char>)
    requires
        time.len() > 0,
        forall|i: int| 0 <= i < time.len() ==> !is_space(#[trigger] time[i]),
    ensures
        figures(decimal(status as nat) + " "@ + time) == (status, Some(time)),
{
    reveal_strlit(" ");
    let code = decimal(status as nat);
    let none = Seq::<char>::empty();
    let behind = " "@ + time;
    let text = code + " "@ + time;
    decimal_reads_back(status as nat);
    assert forall|i: int| 0 <= i < code.len() implies !is_space(#[trigger] code[i]) by {
        assert(is_digit(code[i]));
    }
    assert(text =~= code + behind);
    assert(text =~= none + text);
    assert(text[0] == code[0]);
    trim_start_finds(none, text);
    word_ends_at_space(code, behind);
    assert(text.take(code.len() as int) =~= code);
    assert(text.skip(code.len() as int) =~= behind);
    assert(is_digit(code[0]));
    trim_start_finds(" "@, time);
    word_ends_at_space(time, none);
    assert(time + none =~= time);
    assert(time.take(time.len() as int) =~= time);
}

/// A status line is read as its protocol and the text of its status.
pub proof fn status_line_is_read(protocol: Seq<char>, code: Seq<char>, text: Seq<char>)
    requires
        !protocol.contains(' '),
        !code.contains(' '),
    ensures
        status_line(protocol + " "@ + code + " "@ + text) == (protocol, trim(text)),
        status_line(protocol + " "@ + code) == (protocol, Seq::<char>::empty()),
{
    reveal_strlit(" ");
    assert(" "@ =~= seq![' ']);
    let rest = code + seq![' '] + text;
    assert(protocol + " "@ + code + " "@ + text =~= protocol + seq![' '] + rest);
    split_finds_character(protocol, ' ', rest);
    split_finds_character(code, ' ', text);
    split_finds_character(protocol, ' ', code);
    split_parts_rejoin(code, " "@);
    if let Some((a, b)) = split_once(code, " "@) {
        assert(code[a.len() as int] == ' ');
    }
}

/// The name and the value on a header line are read; a line without a colon is passed
/// over. Every line counts, and they keep their order.
pub proof fn header_lines_are_read(
    a: Seq<Seq<char>>,
    b: Seq<Seq<char>>,
    name: Seq<char>,
    value: Seq<char>,
)
    requires
        !name.contains(':'),
    ensures
        header_pairs(a + b) == header_pairs(a) + header_pairs(b),
        header_pairs(seq![name + ":"@ + value]) == seq![(trim(name), trim(value))],
        header_pairs(seq![name]) == Seq::<(Seq<char>, Seq<char>)>::empty(),
    decreases b.len(),
{
    reveal_strlit(":");
    reveal_with_fuel(header_pairs, 2);
    assert(":"@ =~= seq![':']);
    split_finds_character(name, ':', value);
    let one = seq![name + ":"@ + value];
    assert(one.drop_last() =~= Seq::empty());
    assert(header_pairs(one) =~= seq![(trim(name), trim(value))]);
    split_parts_rejoin(name, ":"@);
    if let Some((x, y)) = split_once(name, ":"@) {
        assert(name[x.len() as int] == ':');
    }
    assert(seq![name].drop_last() =~= Seq::empty());
    if b.len() == 0 {
        assert(a + b =~= a);
        assert(header_pairs(a) + header_pairs(b) =~= header_pairs(a));
    } else {
        header_lines_are_read(a, b.drop_last(), name, value);
        assert((a + b).drop_last() =~= a + b.drop_last());
        assert(header_pairs(a + b) =~= header_pairs(a) + header_pairs(b));
    }
}

/// The blocks of header lines as curl writes them, each with an empty line behind it.
pub open spec fn as_blocks(blocks: Seq<Seq<char>>) -> Seq<char>
    decreases blocks.len(),
{
    if blocks.len() == 0 {
        Seq::empty()
    } else {
        blocks[0] + "\r\n\r\n"@ + as_blocks(blocks.drop_first())
    }
}

/// Whether `block` holds no empty line and can be told from one.
pub open spec fn is_block(block: Seq<char>) -> bool {
    &&& !is_blank(block)
    &&& block.last() != '\r' && block.last() != '\n'
    &&& forall|j: int| !matches_at(block, "\r\n\r\n"@, j)
}

proof fn lemma_blocks_split(blocks: Seq<Seq<char>>)
    requires
        forall|k: int| 0 <= k < blocks.len() ==> is_block(#[trigger] blocks[k]),
    ensures
        split_text(as_blocks(blocks), "\r\n\r\n"@) == blocks.push(Seq::empty()),
    decreases blocks.len(),
{
    reveal_strlit("\r\n\r\n");
    let sep = "\r\n\r\n"@;
    let text = as_blocks(blocks);
    if blocks.len() == 0 {
        split_parts_rejoin(text, sep);
        assert(split_once(text, sep) is None);
        assert(split_text(text, sep) =~= blocks.push(Seq::empty()));
    } else {
        let first = blocks[0];
        let others = blocks.drop_first();
        let rest = as_blocks(others);
        assert forall|k: int| 0 <= k < others.len() implies is_block(#[trigger] others[k]) by {
            assert(others[k] == blocks[k + 1]);
        }
        lemma_blocks_split(others);
        assert(is_block(first));
        assert(first.len() > 0) by {
            if first.len() == 0 {
                trimmed_text_is_kept(first);
            }
        }
        assert forall|j: int| 0 <= j < first.len() implies !matches_at(text, sep, j) by {
            if matches_at(text, sep, j) {
                let part = text.subrange(j, j + 4);
                if j + 4 <= first.len() {
                    assert(first.subrange(j, j + 4) =~= part);
                    assert(matches_at(first, sep, j));
                } else {
                    assert(part[first.len() - 1 - j] == first.last());
                }
            }
        }
        split_finds(first, sep, rest);
        assert(text.take(first.len() as int) =~= first);
        assert(text.skip(first.len() as int + 4) =~= rest);
        assert(seq![first] + others.push(Seq::empty()) =~= blocks.push(Seq::empty()));
    }
}

/// The blocks that curl writes are told apart, all of them and in order.
pub proof fn blocks_read_back(blocks: Seq<Seq<char>>)
    requires
        forall|k: int| 0 <= k < blocks.len() ==> is_block(#[trigger] blocks[k]),
    ensures
        header_blocks(as_blocks(blocks)) == blocks,
{
    lemma_blocks_split(blocks);
    let parts = blocks.push(Seq::empty());
    trimmed_text_is_kept(Seq::empty());
    assert(parts.drop_last() =~= blocks);
    lemma_visible_blocks(blocks);
}

proof fn lemma_visible_blocks(blocks: Seq<Seq<char>>)
    requires
        forall|k: int| 0 <= k < blocks.len() ==> is_block(#[trigger] blocks[k]),
    ensures
        visible(blocks) == blocks,
    decreases blocks.len(),
{
    if blocks.len() > 0 {
        assert(is_block(blocks[blocks.len() - 1]));
        lemma_visible_blocks(blocks.drop_last());
        assert(blocks.drop_last().push(blocks.last()) =~= blocks);
    }
}

/// The last block that curl writes is that of the response: its protocol, the text of
/// its status, and all its headers in order are read from it.
pub proof fn response_head_reads_back(
    blocks: Seq<Seq<char>>,
    protocol: Seq<char>,
    code: Seq<char>,
    text: Seq<char>,
    headers: Seq<(Seq<char>, Seq<char>)>,
    url: Seq<char>,
)
    requires
        blocks.len() > 0,
        forall|k: int| 0 <= k < blocks.len() ==> is_block(#[trigger] blocks[k]),
        !protocol.contains(' '),
        !code.contains(' '),
        is_trimmed(text),
        forall|k: int|
            0 <= k < headers.len() ==> is_trimmed((#[trigger] headers[k]).0) && is_trimmed(
                headers[k].1,
            ) && !headers[k].0.contains(':'),
        lines(blocks.last()) == seq![protocol + " "@ + code + " "@ + text] + headers.map_values(
            |h: (Seq<char>, Seq<char>)| h.0 + ":"@ + (" "@ + h.1),
        ),
    ensures
        ({
            let t = trace(as_blocks(blocks), url);
            &&& t.protocol == protocol
            &&& t.status_text == text
            &&& t.headers == headers
            &&& t.redirects == redirects_of(blocks.drop_last(), url)
        }),
{
    let written = headers.map_values(|h: (Seq<char>, Seq<char>)| h.0 + ":"@ + (" "@ + h.1));
    let last = lines(blocks.last());
    blocks_read_back(blocks);
    status_line_is_read(protocol, code, text);
    trimmed_text_is_kept(text);
    assert(last.drop_first() =~= written);
    lemma_headers_read_back(headers);
}

proof fn lemma_headers_read_back(headers: Seq<(Seq<char>, Seq<char>)>)
    requires
        forall|k: int|
            0 <= k < headers.len() ==> is_trimmed((#[trigger] headers[k]).0) && is_trimmed(
                headers[k].1,
            ) && !headers[k].0.contains(':'),
    ensures
        header_pairs(
            headers.map_values(|h: (Seq<char>, Seq<char>)| h.0 + ":"@ + (" "@ + h.1)),
        ) == headers,
    decreases headers.len(),
{
    reveal_strlit(" ");
    let form = |h: (Seq<char>, Seq<char>)| h.0 + ":"@ + (" "@ + h.1);
    let written = headers.map_values(form);
    if headers.len() == 0 {
        assert(header_pairs(written) =~= headers);
    } else {
        let before = headers.drop_last();
        let h = headers[headers.len() - 1];
        lemma_headers_read_back(before);
        let none = Seq::<char>::empty();
        assert(written.drop_last() =~= before.map_values(form));
        assert(written =~= before.map_values(form) + seq![h.0 + ":"@ + (" "@ + h.1)]);
        header_lines_are_read(
            before.map_values(form),
            seq![h.0 + ":"@ + (" "@ + h.1)],
            h.0,
            " "@ + h.1,
        );
        trimmed_text_is_kept(h.0);
        trim_finds(" "@, h.1, none);
        assert(" "@ + h.1 + none =~= " "@ + h.1);
        assert(before + seq![h] =~= headers);
    }
}

/// Each block before the last redirects to its `Location`, whatever the case of the
/// name, as seen from the URL of the request; the redirects keep their order.
pub proof fn redirects_are_read(
    blocks: Seq<Seq<char>>,
    block: Seq<char>,
    status: Seq<char>,
    name: Seq<char>,
    location: Seq<char>,
    more: Seq<Seq<char>>,
    url: Seq<char>,
)
    requires
        !status.contains(':'),
        !name.contains(':'),
        same_ignoring_ascii_case(name, "location"@),
        lines(block) == seq![status, name + ":"@ + location] + more,
    ensures
        redirects_of(blocks.push(block), url) == redirects_of(blocks, url).push(
            absolute_url(url, trim(location)),
        ),
        redirects_of(Seq::empty(), url) == Seq::<Seq<char>>::empty(),
{
    reveal_strlit(":");
    reveal_with_fuel(location_from, 3);
    assert(":"@ =~= seq![':']);
    split_finds_character(name, ':', location);
    split_parts_rejoin(status, ":"@);
    if let Some((x, y)) = split_once(status, ":"@) {
        assert(status[x.len() as int] == ':');
    }
    let all = lines(block);
    assert(all[0] == status);
    assert(all[1] == name + ":"@ + location);
    assert(blocks.push(block).drop_last() =~= blocks);
}

/// A location with a scheme is taken as it is. One that starts with `/` replaces
/// everything behind the host, and any other what stands behind the last `/`.
pub proof fn locations_are_resolved(
    scheme: Seq<char>,
    host: Seq<char>,
    dir: Seq<char>,
    file: Seq<char>,
    location: Seq<char>,
)
    requires
        !scheme.contains(':'),
        host.len() > 0,
        !host.contains('/'),
        dir.len() > 0,
        dir[0] == '/',
        dir.last() == '/',
        !file.contains('/'),
        !starts_with(location, "http://"@),
        !starts_with(location, "https://"@),
    ensures
        ({
            let base = scheme + "://"@ + host + dir + file;
            &&& starts_with(location, "/"@) ==> absolute_url(base, location) == scheme + "://"@
                + host + location
            &&& !starts_with(location, "/"@) ==> absolute_url(base, location) == scheme + "://"@
                + host + dir + location
        }),
{
    reveal_strlit("://");
    reveal_strlit("/");
    assert("/"@ =~= seq!['/']);
    let base = scheme + "://"@ + host + dir + file;
    let authority = host + dir + file;
    assert(base =~= scheme + "://"@ + authority);
    assert forall|j: int| 0 <= j < scheme.len() implies !matches_at(base, "://"@, j) by {
        assert(base.subrange(j, j + 3)[0] == scheme[j]);
        assert(scheme.contains(scheme[j]));
    }
    split_finds(scheme, "://"@, authority);
    let n = scheme.len() as int;
    assert(base.skip(n + 3) =~= authority);
    let path = dir.drop_first() + file;
    assert(authority =~= host + seq!['/'] + path);
    split_finds_character(host, '/', path);
    assert(base.take(n + 3 + host.len()) =~= scheme + "://"@ + host);
    let k = n + 3 + host.len() + dir.len() - 1;
    rfind_is_last(base, "/"@);
    assert(base[k] == dir.last());
    assert(base.subrange(k, k + 1) =~= "/"@);
    assert(matches_at(base, "/"@, k));
    if let Some(m) = rfind(base, "/"@) {
        if m > k {
            assert(base.subrange(m, m + 1)[0] == file[m - k - 1]);
            assert(file.contains(file[m - k - 1]));
        }
    }
    assert(rfind(base, "/"@) == Some(k));
    assert(base.take(k + 1) =~= scheme + "://"@ + host + dir);
}

/// A response is what curl wrote: its status, its head, its body and its time. Where
/// curl fails, what it reports is the error; without a status there is no response.
pub proof fn response_is_what_curl_wrote(o: CurlOutcome, url: Seq<char>)
    ensures
        match response_of(o, url) {
            Ok(reply) => {
                &&& o.success
                &&& reply.status == figures(o.stdout@).0 && reply.status != 0
                &&& reply.body == o.body@
                &&& reply.elapsed_ms == o.elapsed_ms
                &&& o.header_text matches Some(text) ==> {
                    let t = trace(text@, url);
                    &&& reply.headers == t.headers && reply.redirects == t.redirects
                    &&& reply.protocol == t.protocol && reply.status_text == t.status_text
                }
                &&& o.header_text is None ==> reply.headers.len() == 0 && reply.redirects.len()
                    == 0 && reply.protocol == "HTTP"@ && reply.status_text.len() == 0
            },
            Err(error) => {
                &&& !o.success || figures(o.stdout@).0 == 0
                &&& !o.success && !all_space(o.stderr@) ==> error == trim(o.stderr@)
                &&& !o.success && all_space(o.stderr@) ==> error == trim(o.stdout@)
            },
        },
{
    blank_means_invisible(o.stderr@);
}

/// Whether a header line tells a location.
pub open spec fn tells_location(line: Seq<char>) -> bool {
    split_once(line, ":"@) matches Some((name, _)) && same_ignoring_ascii_case(
        name,
        "location"@,
    )
}

proof fn lemma_location_behind(all: Seq<Seq<char>>, i: int, k: int)
    requires
        0 <= i <= k <= all.len(),
        forall|j: int| i <= j < k ==> !tells_location(#[trigger] all[j]),
    ensures
        location_from(all, i) == location_from(all, k),
    decreases k - i,
{
    if i < k {
        assert(!tells_location(all[i]));
        lemma_location_behind(all, i + 1, k);
    }
}

/// A block redirects to the first location that it tells, on whatever line it stands; one
/// that tells none does not redirect.
pub proof fn first_location_counts(
    blocks: Seq<Seq<char>>,
    block: Seq<char>,
    k: int,
    name: Seq<char>,
    location: Seq<char>,
    url: Seq<char>,
)
    requires
        0 <= k <= lines(block).len(),
        forall|j: int| 0 <= j < k ==> !tells_location(#[trigger] lines(block)[j]),
        !name.contains(':'),
        same_ignoring_ascii_case(name, "location"@),
    ensures
        k == lines(block).len() ==> redirects_of(blocks.push(block), url) == redirects_of(
            blocks,
            url,
        ),
        k < lines(block).len() && lines(block)[k] == name + ":"@ + location ==> redirects_of(
            blocks.push(block),
            url,
        ) == redirects_of(blocks, url).push(absolute_url(url, trim(location))),
{
    reveal_strlit(":");
    assert(":"@ =~= seq![':']);
    split_finds_character(name, ':', location);
    lemma_location_behind(lines(block), 0, k);
    assert(blocks.push(block).drop_last() =~= blocks);
}

/// A URL that is a host alone is its own origin. From what is no URL a location cannot be
/// resolved, and stands for itself.
pub proof fn locations_of_a_host_are_resolved(
    scheme: Seq<char>,
    host: Seq<char>,
    text: Seq<char>,
    location: Seq<char>,
)
    requires
        !scheme.contains(':'),
        !host.contains('/'),
        find(text, "://"@) is None,
        !starts_with(location, "http://"@),
        !starts_with(location, "https://"@),
    ensures
        starts_with(location, "/"@) ==> absolute_url(scheme + "://"@ + host, location) == scheme
            + "://"@ + host + location,
        absolute_url(text, location) == location,
{
    reveal_strlit("://");
    reveal_strlit("/");
    let base = scheme + "://"@ + host;
    assert forall|j: int| 0 <= j < scheme.len() implies !matches_at(base, "://"@, j) by {
        assert(base.subrange(j, j + 3)[0] == scheme[j]);
        assert(scheme.contains(scheme[j]));
    }
    split_finds(scheme, "://"@, host);
    assert(base.skip(scheme.len() as int + 3) =~= host);
    find_is_first(host, "/"@);
    if let Some(k) = find(host, "/"@) {
        assert(host.subrange(k, k + 1)[0] == host[k]);
        assert(host.contains(host[k]));
    }
}

} // verus!
