//! Response formatting for terminals.

use vstd::prelude::*;
use vstd::string::StringExecFns;
use vstd::utf8::encode_utf8;
use crate::decimal::decimal;
use crate::decimal::decimal_of;
use crate::execute::Reply;
use crate::execute::ResolvedModel;
use crate::execute::ResolvedRequest;
use crate::execute::ResponseData;
use crate::execute::first_value;
use crate::json::json_parse;
use crate::json::json_pretty;
use crate::json::parse_json;
use crate::json::print_json_pretty;
use crate::text::all_space;
use crate::text::chars_of;
use crate::text::contains;
use crate::text::includes;
use crate::text::is_empty_text;
use crate::text::is_space;
use crate::text::lines;
use crate::text::lines_of;
use crate::text::lossy_text;
use crate::text::lowercase;
use crate::text::matches_at;
use crate::text::owned;
use crate::text::repeat;
use crate::text::shows;
use crate::text::shows_behind;
use crate::text::text_of;
use crate::text::text_pairs;
use crate::text::texts;
use crate::text::trim_end;
use crate::text::trim_end_finds;
use crate::text::trim_end_of;

verus! {

pub const MAX_BODY_BYTES: usize = 256 * 1024;

// ---------------------------------------------------------------------------
// Bodies
// ---------------------------------------------------------------------------

/// The value of the `Content-Type` header.
pub open spec fn content_type(r: Reply) -> Option<Seq<char>> {
    first_value(r.headers, lowercase("content-type"@))
}

/// Whether the response has a content type that speaks of `kind`.
pub open spec fn has_type(r: Reply, kind: Seq<char>) -> bool {
    match content_type(r) {
        Some(value) => contains(value, kind),
        None => false,
    }
}

/// `s` without carriage returns.
pub open spec fn without_returns(s: Seq<char>) -> Seq<char>
    decreases s.len(),
{
    if s.len() == 0 {
        Seq::empty()
    } else if s.last() == '\r' {
        without_returns(s.drop_last())
    } else {
        without_returns(s.drop_last()).push(s.last())
    }
}

/// The text of the body, indented where it is JSON.
pub open spec fn indented(r: Reply) -> Seq<char> {
    let text = lossy_text(r.body);
    if has_type(r, "json"@) {
        match json_parse(text) {
            Some(value) => match json_pretty(value) {
                Some(pretty) => pretty,
                None => text,
            },
            None => text,
        }
    } else {
        text
    }
}

/// The start of `text` that is shown of a body too long to be shown whole.
pub open spec fn truncated(text: Seq<char>) -> Seq<char> {
    (if text.len() > MAX_BODY_BYTES {
        text.take(MAX_BODY_BYTES as int)
    } else {
        text
    }) + "\n… (body truncated)"@
}

/// The body as it is shown.
pub open spec fn shown_body(r: Reply) -> Seq<char> {
    if r.body.len() == 0 {
        Seq::empty()
    } else {
        without_returns(
            trim_end(
                if r.body.len() > MAX_BODY_BYTES {
                    truncated(indented(r))
                } else {
                    indented(r)
                },
            ),
        )
    }
}

/// The language of the body in a Markdown code block.
pub open spec fn body_language(r: Reply) -> Seq<char> {
    if has_type(r, "json"@) {
        "json"@
    } else if has_type(r, "html"@) {
        "html"@
    } else if has_type(r, "xml"@) {
        "xml"@
    } else {
        ""@
    }
}

fn has_content_type(response: &ResponseData, kind: &str) -> (r: bool)
    ensures
        r == has_type(response@, kind@),
{
    match response.header("content-type") {
        Some(value) => includes(value, kind),
        None => false,
    }
}

/// Whether the response is JSON by its content type.
pub fn is_json(response: &ResponseData) -> (r: bool)
    ensures
        r == has_type(response@, "json"@),
{
    has_content_type(response, "json")
}

fn drop_returns(s: &str) -> (r: String)
    ensures
        r@ == without_returns(s@),
{
    let cs = chars_of(s);
    let mut out = String::new();
    for i in 0..cs.len()
        invariant
            cs@ == s@,
            out@ == without_returns(s@.take(i as int)),
    {
        assert(s@.take(i + 1).drop_last() =~= s@.take(i as int));
        assert(s@.take(i + 1).last() == cs[i as int]);
        if cs[i] != '\r' {
            out.push(cs[i]);
        }
    }
    assert(s@.take(cs@.len() as int) =~= s@);
    out
}

fn truncate(text: &str) -> (r: String)
    ensures
        r@ == truncated(text@),
{
    let cs = chars_of(text);
    let mut out = if cs.len() > MAX_BODY_BYTES {
        let head = text_of(&cs, 0, MAX_BODY_BYTES);
        assert(head@ =~= text@.take(MAX_BODY_BYTES as int));
        head
    } else {
        owned(text)
    };
    out.append("\n… (body truncated)");
    out
}

/// The body as it is shown.
pub fn display_body(response: &ResponseData) -> (r: String)
    ensures
        r@ == shown_body(response@),
{
    if response.body.len() == 0 {
        return String::new();
    }
    let mut text = response.body_text();
    if is_json(response) {
        if let Some(value) = parse_json(text.as_str()) {
            if let Some(pretty) = print_json_pretty(&value) {
                text = pretty;
            }
        }
    }
    if response.body.len() > MAX_BODY_BYTES {
        text = truncate(text.as_str());
    }
    drop_returns(trim_end_of(text.as_str()))
}

/// The body as it is shown, and its language in a Markdown code block.
pub fn display_body_markdown(response: &ResponseData) -> (r: (String, &'static str))
    ensures
        r.0@ == shown_body(response@),
        r.1@ == body_language(response@),
{
    let body = display_body(response);
    let language = if is_json(response) {
        "json"
    } else if has_content_type(response, "html") {
        "html"
    } else if has_content_type(response, "xml") {
        "xml"
    } else {
        ""
    };
    (body, language)
}

// ---------------------------------------------------------------------------
// Lists
// ---------------------------------------------------------------------------

/// A line `name: value` for each pair, behind `indent`.
pub open spec fn pair_lines(pairs: Seq<(Seq<char>, Seq<char>)>, indent: Seq<char>) -> Seq<char>
    decreases pairs.len(),
{
    if pairs.len() == 0 {
        Seq::empty()
    } else {
        pair_lines(pairs.drop_last(), indent) + indent + pairs.last().0 + ": "@ + pairs.last().1
            + "\n"@
    }
}

/// A line for each item, behind `indent`.
pub open spec fn item_lines(items: Seq<Seq<char>>, indent: Seq<char>) -> Seq<char>
    decreases items.len(),
{
    if items.len() == 0 {
        Seq::empty()
    } else {
        item_lines(items.drop_last(), indent) + indent + items.last() + "\n"@
    }
}

/// A line `name: value` for each pair, behind `indent`.
pub(crate) fn list_pairs(pairs: &Vec<(String, String)>, indent: &str) -> (r: String)
    ensures
        r@ == pair_lines(text_pairs(pairs@), indent@),
{
    let ghost all = text_pairs(pairs@);
    let mut out = String::new();
    for i in 0..pairs.len()
        invariant
            all == text_pairs(pairs@),
            out@ == pair_lines(all.take(i as int), indent@),
    {
        let p = &pairs[i];
        assert(all.take(i + 1).drop_last() =~= all.take(i as int));
        assert(all.take(i + 1).last() == (p.0@, p.1@));
        out.append(indent);
        out.append(p.0.as_str());
        out.append(": ");
        out.append(p.1.as_str());
        out.append("\n");
    }
    assert(all.take(pairs@.len() as int) =~= all);
    out
}

fn list_items(items: &[String], indent: &str) -> (r: String)
    ensures
        r@ == item_lines(texts(items@), indent@),
{
    let ghost all = texts(items@);
    let mut out = String::new();
    for i in 0..items.len()
        invariant
            all == texts(items@),
            out@ == item_lines(all.take(i as int), indent@),
    {
        assert(all.take(i + 1).drop_last() =~= all.take(i as int));
        assert(all.take(i + 1).last() == items@[i as int]@);
        out.append(indent);
        out.append(items[i].as_str());
        out.append("\n");
    }
    assert(all.take(items@.len() as int) =~= all);
    out
}

// ---------------------------------------------------------------------------
// Plain text
// ---------------------------------------------------------------------------

/// What fills the first line up behind a name, by the bytes that the name takes.
pub open spec fn rule(name: Seq<char>) -> Seq<char> {
    repeat(
        '─',
        if encode_utf8(name).len() + 4 < 60 {
            (60 - (encode_utf8(name).len() + 4)) as nat
        } else {
            0
        },
    )
}

/// The headers under a title, and an empty line; nothing where there are none.
pub open spec fn plain_headers(
    title: Seq<char>,
    headers: Seq<(Seq<char>, Seq<char>)>,
) -> Seq<char> {
    if headers.len() == 0 {
        Seq::empty()
    } else {
        title + pair_lines(headers, "  "@) + "\n"@
    }
}

pub open spec fn plain_redirects(redirects: Seq<Seq<char>>) -> Seq<char> {
    if redirects.len() == 0 {
        Seq::empty()
    } else {
        "Redirects:\n"@ + item_lines(redirects, "  -> "@) + "\n"@
    }
}

/// The protocol, the status and its text on one line.
pub open spec fn plain_status(r: Reply) -> Seq<char> {
    if r.status_text.len() == 0 {
        r.protocol + " "@ + decimal(r.status as nat) + "\n"@
    } else {
        r.protocol + " "@ + decimal(r.status as nat) + " "@ + r.status_text + "\n"@
    }
}

pub open spec fn plain_figures(r: Reply) -> Seq<char> {
    "Response code: "@ + decimal(r.status as nat) + "; Time: "@ + decimal(r.elapsed_ms as nat)
        + " ms; Content length: "@ + decimal(r.body.len()) + " bytes\n"@
}

pub open spec fn plain_body(body: Seq<char>) -> Seq<char> {
    if body.len() == 0 {
        "Body: (empty)\n"@
    } else {
        "Body:\n"@ + item_lines(lines(body), "  "@)
    }
}

pub open spec fn plain_logs(logs: Seq<Seq<char>>) -> Seq<char> {
    if logs.len() == 0 {
        Seq::empty()
    } else {
        "\nLogs:\n"@ + item_lines(logs, "  "@)
    }
}

/// A response as plain text.
pub open spec fn plain_text(q: ResolvedModel, r: Reply, logs: Seq<Seq<char>>) -> Seq<char> {
    "── "@ + q.name + " "@ + rule(q.name) + "\n"@ + q.method + " "@ + q.url + "\n\n"@
        + plain_headers("Request headers:\n"@, q.headers) + plain_redirects(r.redirects)
        + plain_status(r) + plain_figures(r) + "\n"@ + plain_headers(
        "Response headers:\n"@,
        r.headers,
    ) + plain_body(shown_body(r)) + plain_logs(logs)
}

fn fill(name: &str) -> (r: String)
    ensures
        r@ == rule(name@),
{
    let bytes: usize = name.as_bytes().len();
    let count: usize = if bytes < 56 {
        56 - bytes
    } else {
        0
    };
    let mut out = String::new();
    for i in 0..count
        invariant
            out@ == repeat('─', i as nat),
    {
        out.push('─');
        assert(out@ =~= repeat('─', (i + 1) as nat));
    }
    out
}

fn format_headers(title: &str, headers: &Vec<(String, String)>) -> (r: String)
    ensures
        r@ == plain_headers(title@, text_pairs(headers@)),
{
    let mut out = String::new();
    if headers.len() > 0 {
        out = owned(title);
        out.append(list_pairs(headers, "  ").as_str());
        out.append("\n");
    }
    out
}

fn format_redirects(redirects: &Vec<String>) -> (r: String)
    ensures
        r@ == plain_redirects(texts(redirects@)),
{
    let mut out = String::new();
    if redirects.len() > 0 {
        out = owned("Redirects:\n");
        out.append(list_items(redirects.as_slice(), "  -> ").as_str());
        out.append("\n");
    }
    out
}

fn format_status(response: &ResponseData) -> (r: String)
    ensures
        r@ == plain_status(response@),
{
    let mut out = response.protocol.clone();
    out.append(" ");
    out.append(decimal_of(response.status as u64).as_str());
    if !is_empty_text(response.status_text.as_str()) {
        out.append(" ");
        out.append(response.status_text.as_str());
    }
    out.append("\n");
    out
}

fn format_figures(response: &ResponseData) -> (r: String)
    ensures
        r@ == plain_figures(response@),
{
    let mut out = owned("Response code: ");
    out.append(decimal_of(response.status as u64).as_str());
    out.append("; Time: ");
    out.append(decimal_of(response.elapsed_ms).as_str());
    out.append(" ms; Content length: ");
    out.append(decimal_of(response.body.len() as u64).as_str());
    out.append(" bytes\n");
    out
}

fn format_body(body: &str) -> (r: String)
    ensures
        r@ == plain_body(body@),
{
    if is_empty_text(body) {
        owned("Body: (empty)\n")
    } else {
        let mut out = owned("Body:\n");
        out.append(list_items(lines_of(body).as_slice(), "  ").as_str());
        out
    }
}

fn format_logs(logs: &[String]) -> (r: String)
    ensures
        r@ == plain_logs(texts(logs@)),
{
    let mut out = String::new();
    if logs.len() > 0 {
        out = owned("\nLogs:\n");
        out.append(list_items(logs, "  ").as_str());
    }
    out
}

/// Formats a response as plain text for the CLI / task terminal.
pub fn format_response_plain(
    request: &ResolvedRequest,
    response: &ResponseData,
    logs: &[String],
) -> (r: String)
    ensures
        r@ == plain_text(request@, response@, texts(logs@)),
{
    let mut out = owned("── ");
    out.append(request.name.as_str());
    out.append(" ");
    out.append(fill(request.name.as_str()).as_str());
    out.append("\n");
    out.append(request.method.as_str());
    out.append(" ");
    out.append(request.url.as_str());
    out.append("\n\n");
    out.append(format_headers("Request headers:\n", &request.headers).as_str());
    out.append(format_redirects(&response.redirects).as_str());
    out.append(format_status(response).as_str());
    out.append(format_figures(response).as_str());
    out.append("\n");
    out.append(format_headers("Response headers:\n", &response.headers).as_str());
    out.append(format_body(display_body(response).as_str()).as_str());
    out.append(format_logs(logs).as_str());
    out
}

// ---------------------------------------------------------------------------
// Markdown
// ---------------------------------------------------------------------------

/// The title of a response. A status of 0 stands for none.
pub open spec fn markdown_title(r: Option<Reply>) -> Seq<char> {
    match r {
        Some(r) => if r.status == 0 {
            "### ⚠️ completed (status unavailable) · "@ + decimal(r.elapsed_ms as nat)
                + " ms\n\n"@
        } else {
            "### "@ + (if 200 <= r.status < 300 {
                "✅"@
            } else {
                "⚠️"@
            }) + " "@ + decimal(r.status as nat) + " · "@ + decimal(r.elapsed_ms as nat)
                + " ms\n\n"@
        },
        None => "### ⚠️ completed (status unavailable)\n\n"@,
    }
}

/// The headers in a code block under a title; nothing where there are none.
pub open spec fn markdown_headers(
    title: Seq<char>,
    headers: Seq<(Seq<char>, Seq<char>)>,
) -> Seq<char> {
    if headers.len() == 0 {
        Seq::empty()
    } else {
        title + "```\n"@ + pair_lines(headers, ""@) + "```\n\n"@
    }
}

pub open spec fn markdown_body(r: Reply) -> Seq<char> {
    if shown_body(r).len() == 0 {
        "**Body**\n\n(empty)\n"@
    } else {
        "**Body**\n\n```"@ + body_language(r) + "\n"@ + shown_body(r) + "\n```\n"@
    }
}

pub open spec fn markdown_reply(r: Option<Reply>) -> Seq<char> {
    match r {
        Some(r) => markdown_headers("**Response Headers**\n\n"@, r.headers) + markdown_body(r),
        None => Seq::empty(),
    }
}

pub open spec fn markdown_logs(logs: Seq<Seq<char>>) -> Seq<char> {
    if logs.len() == 0 {
        Seq::empty()
    } else {
        "\n**Logs**\n\n"@ + item_lines(logs, "- "@)
    }
}

/// A response as Markdown.
pub open spec fn markdown_text(
    q: ResolvedModel,
    r: Option<Reply>,
    logs: Seq<Seq<char>>,
) -> Seq<char> {
    markdown_title(r) + "**"@ + q.method + "** `"@ + q.url + "`\n\n"@ + markdown_headers(
        "**Request Headers**\n\n"@,
        q.headers,
    ) + markdown_reply(r) + markdown_logs(logs)
}

pub open spec fn reply_option(r: Option<&ResponseData>) -> Option<Reply> {
    match r {
        Some(r) => Some(r@),
        None => None,
    }
}

fn format_title(response: Option<&ResponseData>) -> (r: String)
    ensures
        r@ == markdown_title(reply_option(response)),
{
    match response {
        None => owned("### ⚠️ completed (status unavailable)\n\n"),
        Some(response) => {
            if response.status == 0 {
                let mut out = owned("### ⚠️ completed (status unavailable) · ");
                out.append(decimal_of(response.elapsed_ms).as_str());
                out.append(" ms\n\n");
                out
            } else {
                let mut out = owned("### ");
                let icon = if 200 <= response.status && response.status < 300 {
                    "✅"
                } else {
                    "⚠️"
                };
                out.append(icon);
                out.append(" ");
                out.append(decimal_of(response.status as u64).as_str());
                out.append(" · ");
                out.append(decimal_of(response.elapsed_ms).as_str());
                out.append(" ms\n\n");
                out
            }
        },
    }
}

fn format_header_block(title: &str, headers: &Vec<(String, String)>) -> (r: String)
    ensures
        r@ == markdown_headers(title@, text_pairs(headers@)),
{
    let mut out = String::new();
    if headers.len() > 0 {
        out = owned(title);
        out.append("```\n");
        out.append(list_pairs(headers, "").as_str());
        out.append("```\n\n");
    }
    out
}

fn format_body_block(response: &ResponseData) -> (r: String)
    ensures
        r@ == markdown_body(response@),
{
    let (body, language) = display_body_markdown(response);
    if is_empty_text(body.as_str()) {
        owned("**Body**\n\n(empty)\n")
    } else {
        let mut out = owned("**Body**\n\n```");
        out.append(language);
        out.append("\n");
        out.append(body.as_str());
        out.append("\n```\n");
        out
    }
}

/// Formats a response as Markdown.
pub fn format_response_markdown(
    request: &ResolvedRequest,
    response: Option<&ResponseData>,
    logs: &[String],
) -> (r: String)
    ensures
        r@ == markdown_text(request@, reply_option(response), texts(logs@)),
{
    let mut out = format_title(response);
    out.append("**");
    out.append(request.method.as_str());
    out.append("** `");
    out.append(request.url.as_str());
    out.append("`\n\n");
    out.append(format_header_block("**Request Headers**\n\n", &request.headers).as_str());
    let mut reply = String::new();
    if let Some(response) = response {
        reply = format_header_block("**Response Headers**\n\n", &response.headers);
        reply.append(format_body_block(response).as_str());
    }
    out.append(reply.as_str());
    let mut tail = String::new();
    if logs.len() > 0 {
        tail = owned("\n**Logs**\n\n");
        tail.append(list_items(logs, "- ").as_str());
    }
    out.append(tail.as_str());
    out
}

// ---------------------------------------------------------------------------
// What holds of every body that is shown
// ---------------------------------------------------------------------------

/// No carriage return is shown.
pub proof fn no_return_is_shown(s: Seq<char>)
    ensures
        !without_returns(s).contains('\r'),
        without_returns(s).len() <= s.len(),
    decreases s.len(),
{
    if s.len() > 0 {
        no_return_is_shown(s.drop_last());
        let before = without_returns(s.drop_last());
        if s.last() != '\r' {
            let all = before.push(s.last());
            assert forall|i: int| 0 <= i < all.len() implies all[i] != '\r' by {
                if i < before.len() {
                    assert(before.contains(before[i]));
                }
            }
        }
    }
}

/// Nothing is shown of an empty body.
pub proof fn empty_body_shows_nothing(r: Reply)
    requires
        r.body.len() == 0,
    ensures
        shown_body(r) == Seq::<char>::empty(),
        plain_body(shown_body(r)) == "Body: (empty)\n"@,
{
}

/// A list of pairs has a line for each of them, in order: the list of two lists, one
/// behind the other, is the one list behind the other.
pub proof fn every_pair_has_its_line(
    a: Seq<(Seq<char>, Seq<char>)>,
    b: Seq<(Seq<char>, Seq<char>)>,
    name: Seq<char>,
    value: Seq<char>,
    indent: Seq<char>,
)
    ensures
        pair_lines(a + b, indent) == pair_lines(a, indent) + pair_lines(b, indent),
        pair_lines(seq![(name, value)], indent) == indent + name + ": "@ + value + "\n"@,
        pair_lines(Seq::empty(), indent) == Seq::<char>::empty(),
    decreases b.len(),
{
    let one = seq![(name, value)];
    assert(one.drop_last() =~= Seq::empty());
    assert(pair_lines(one.drop_last(), indent) == Seq::<char>::empty());
    assert(pair_lines(one, indent) =~= indent + name + ": "@ + value + "\n"@);
    if b.len() == 0 {
        assert(a + b =~= a);
        assert(pair_lines(a, indent) + pair_lines(b, indent) =~= pair_lines(a, indent));
    } else {
        every_pair_has_its_line(a, b.drop_last(), name, value, indent);
        assert((a + b).drop_last() =~= a + b.drop_last());
        assert(pair_lines(a + b, indent) =~= pair_lines(a, indent) + pair_lines(b, indent));
    }
}

/// A list of items has a line for each of them, in order.
pub proof fn every_item_has_its_line(
    a: Seq<Seq<char>>,
    b: Seq<Seq<char>>,
    item: Seq<char>,
    indent: Seq<char>,
)
    ensures
        item_lines(a + b, indent) == item_lines(a, indent) + item_lines(b, indent),
        item_lines(seq![item], indent) == indent + item + "\n"@,
        item_lines(Seq::empty(), indent) == Seq::<char>::empty(),
    decreases b.len(),
{
    let one = seq![item];
    assert(one.drop_last() =~= Seq::empty());
    assert(item_lines(one.drop_last(), indent) == Seq::<char>::empty());
    assert(item_lines(one, indent) =~= indent + item + "\n"@);
    if b.len() == 0 {
        assert(a + b =~= a);
        assert(item_lines(a, indent) + item_lines(b, indent) =~= item_lines(a, indent));
    } else {
        every_item_has_its_line(a, b.drop_last(), item, indent);
        assert((a + b).drop_last() =~= a + b.drop_last());
        assert(item_lines(a + b, indent) =~= item_lines(a, indent) + item_lines(b, indent));
    }
}

proof fn lemma_shows_more(a: Seq<char>, s: Seq<char>, parts: Seq<Seq<char>>)
    requires
        shows(s, parts),
    ensures
        shows(a + s, parts),
{
    reveal_with_fuel(shows, 2);
    if parts.len() > 0 {
        let k = choose|k: int|
            #[trigger] matches_at(s, parts[0], k) && shows(
                s.skip(k + parts[0].len()),
                parts.drop_first(),
            );
        let rest = s.skip(k + parts[0].len());
        shows_behind(a + s.take(k), parts[0], rest, parts.drop_first());
        assert(a + s =~= a + s.take(k) + parts[0] + rest) by {
            assert(s =~= s.take(k) + s.subrange(k, k + parts[0].len()) + rest);
        }
        assert(seq![parts[0]] + parts.drop_first() =~= parts);
    }
}

/// Where `s` is `a`, `x` and `b`, it shows `x`, and behind it what is shown behind it.
proof fn lemma_shows_part(
    s: Seq<char>,
    a: Seq<char>,
    x: Seq<char>,
    b: Seq<char>,
    rest: Seq<char>,
    parts: Seq<Seq<char>>,
)
    requires
        s == a + x + b,
        shows(rest, parts),
    ensures
        shows(s + rest, seq![x] + parts),
{
    lemma_shows_more(b, rest, parts);
    shows_behind(a, x, b + rest, parts);
    assert(s + rest =~= a + x + (b + rest));
}

proof fn lemma_headers_shown(
    title: Seq<char>,
    headers: Seq<(Seq<char>, Seq<char>)>,
    rest: Seq<char>,
    parts: Seq<Seq<char>>,
)
    requires
        shows(rest, parts),
    ensures
        shows(plain_headers(title, headers) + rest, seq![pair_lines(headers, "  "@)] + parts),
        shows(markdown_headers(title, headers) + rest, seq![pair_lines(headers, ""@)] + parts),
{
    let none = Seq::<char>::empty();
    if headers.len() == 0 {
        assert(none =~= none + pair_lines(headers, "  "@) + none);
        assert(none =~= none + pair_lines(headers, ""@) + none);
        lemma_shows_part(none, none, pair_lines(headers, "  "@), none, rest, parts);
        lemma_shows_part(none, none, pair_lines(headers, ""@), none, rest, parts);
    } else {
        lemma_shows_part(
            plain_headers(title, headers),
            title,
            pair_lines(headers, "  "@),
            "\n"@,
            rest,
            parts,
        );
        lemma_shows_part(
            markdown_headers(title, headers),
            title + "```\n"@,
            pair_lines(headers, ""@),
            "```\n\n"@,
            rest,
            parts,
        );
    }
}

proof fn lemma_redirects_shown(redirects: Seq<Seq<char>>, rest: Seq<char>, parts: Seq<Seq<char>>)
    requires
        shows(rest, parts),
    ensures
        shows(plain_redirects(redirects) + rest, seq![item_lines(redirects, "  -> "@)] + parts),
{
    let none = Seq::<char>::empty();
    if redirects.len() == 0 {
        assert(none =~= none + item_lines(redirects, "  -> "@) + none);
        lemma_shows_part(none, none, item_lines(redirects, "  -> "@), none, rest, parts);
    } else {
        lemma_shows_part(
            plain_redirects(redirects),
            "Redirects:\n"@,
            item_lines(redirects, "  -> "@),
            "\n"@,
            rest,
            parts,
        );
    }
}

proof fn lemma_logs_shown(logs: Seq<Seq<char>>)
    ensures
        shows(plain_logs(logs), seq![item_lines(logs, "  "@)]),
        shows(markdown_logs(logs), seq![item_lines(logs, "- "@)]),
{
    let none = Seq::<char>::empty();
    let end = Seq::<Seq<char>>::empty();
    assert(shows(none, end)) by {
        reveal_with_fuel(shows, 2);
    }
    if logs.len() == 0 {
        shows_behind(none, item_lines(logs, "  "@), none, end);
        shows_behind(none, item_lines(logs, "- "@), none, end);
        assert(none + item_lines(logs, "  "@) + none =~= none);
        assert(none + item_lines(logs, "- "@) + none =~= none);
    } else {
        shows_behind("\nLogs:\n"@, item_lines(logs, "  "@), none, end);
        shows_behind("\n**Logs**\n\n"@, item_lines(logs, "- "@), none, end);
        assert("\nLogs:\n"@ + item_lines(logs, "  "@) + none =~= plain_logs(logs));
        assert("\n**Logs**\n\n"@ + item_lines(logs, "- "@) + none =~= markdown_logs(logs));
    }
    assert(seq![item_lines(logs, "  "@)] + end =~= seq![item_lines(logs, "  "@)]);
    assert(seq![item_lines(logs, "- "@)] + end =~= seq![item_lines(logs, "- "@)]);
}

proof fn lemma_body_shown(body: Seq<char>, rest: Seq<char>, parts: Seq<Seq<char>>)
    requires
        shows(rest, parts),
    ensures
        shows(plain_body(body) + rest, seq![item_lines(lines(body), "  "@)] + parts),
{
    let none = Seq::<char>::empty();
    let shown = item_lines(lines(body), "  "@);
    if body.len() == 0 {
        assert(plain_body(body) =~= "Body: (empty)\n"@ + shown + none);
        lemma_shows_part(plain_body(body), "Body: (empty)\n"@, shown, none, rest, parts);
    } else {
        assert(plain_body(body) =~= "Body:\n"@ + shown + none);
        lemma_shows_part(plain_body(body), "Body:\n"@, shown, none, rest, parts);
    }
}

proof fn lemma_status_shown(r: Reply, rest: Seq<char>, parts: Seq<Seq<char>>)
    requires
        shows(rest, parts),
    ensures
        shows(
            plain_status(r) + rest,
            seq![r.protocol + " "@ + decimal(r.status as nat), r.status_text] + parts,
        ),
{
    let none = Seq::<char>::empty();
    let line = r.protocol + " "@ + decimal(r.status as nat);
    let blank = if r.status_text.len() == 0 {
        none
    } else {
        " "@
    };
    let tail = blank + r.status_text + "\n"@;
    lemma_shows_part(tail, blank, r.status_text, "\n"@, rest, parts);
    lemma_shows_part(line, none, line, none, tail + rest, seq![r.status_text] + parts);
    assert(line =~= none + line + none);
    assert(plain_status(r) =~= line + tail);
    assert(plain_status(r) + rest =~= line + (tail + rest));
    assert(seq![line] + (seq![r.status_text] + parts) =~= seq![line, r.status_text] + parts);
}

proof fn lemma_figures_shown(r: Reply, rest: Seq<char>, parts: Seq<Seq<char>>)
    requires
        shows(rest, parts),
    ensures
        shows(
            plain_figures(r) + rest,
            seq![
                decimal(r.status as nat),
                decimal(r.elapsed_ms as nat),
                decimal(r.body.len()),
            ] + parts,
        ),
{
    let code = decimal(r.status as nat);
    let time = decimal(r.elapsed_ms as nat);
    let size = decimal(r.body.len());
    let none = Seq::<char>::empty();
    let a = "Response code: "@ + code + none;
    let b = "; Time: "@ + time + none;
    let c = " ms; Content length: "@ + size + " bytes\n"@;
    lemma_shows_part(c, " ms; Content length: "@, size, " bytes\n"@, rest, parts);
    lemma_shows_part(b, "; Time: "@, time, none, c + rest, seq![size] + parts);
    lemma_shows_part(
        a,
        "Response code: "@,
        code,
        none,
        b + (c + rest),
        seq![time] + (seq![size] + parts),
    );
    assert(plain_figures(r) =~= a + b + c);
    assert(plain_figures(r) + rest =~= a + (b + (c + rest)));
    assert(seq![code] + (seq![time] + (seq![size] + parts)) =~= seq![code, time, size] + parts);
}

proof fn lemma_regroup(a: Seq<char>, b: Seq<char>, c: Seq<char>)
    ensures
        a + b + c == a + (b + c),
{
    assert(a + b + c =~= a + (b + c));
}

proof fn lemma_plain_text_parts(q: ResolvedModel, r: Reply, logs: Seq<Seq<char>>)
    ensures
        plain_text(q, r, logs) == ("── "@ + q.name + (" "@ + rule(q.name) + "\n"@)) + ((q.method
            + " "@ + q.url + "\n\n"@) + (plain_headers("Request headers:\n"@, q.headers) + (
        plain_redirects(r.redirects) + (plain_status(r) + (plain_figures(r) + ("\n"@ + (
        plain_headers("Response headers:\n"@, r.headers) + (plain_body(shown_body(r)) + plain_logs(
            logs,
        ))))))))),
{
    lemma_regroup_all(
        "── "@,
        q.name,
        " "@,
        rule(q.name),
        "\n"@,
        q.method,
        q.url,
        "\n\n"@,
        plain_headers("Request headers:\n"@, q.headers),
        plain_redirects(r.redirects),
        plain_status(r),
        plain_figures(r),
        plain_headers("Response headers:\n"@, r.headers),
        plain_body(shown_body(r)),
        plain_logs(logs),
    );
}

proof fn lemma_regroup_all(
    a: Seq<char>,
    name: Seq<char>,
    blank: Seq<char>,
    rule: Seq<char>,
    end: Seq<char>,
    method: Seq<char>,
    url: Seq<char>,
    gap: Seq<char>,
    own: Seq<char>,
    redirects: Seq<char>,
    status: Seq<char>,
    figures: Seq<char>,
    headers: Seq<char>,
    body: Seq<char>,
    logs: Seq<char>,
)
    ensures
        a + name + blank + rule + end + method + blank + url + gap + own + redirects + status
            + figures + end + headers + body + logs == (a + name + (blank + rule + end)) + ((method
            + blank + url + gap) + (own + (redirects + (status + (figures + (end + (headers + (body
            + logs)))))))),
{
    let l1 = a + name + blank + rule + end;
    lemma_regroup(a + name, blank, rule);
    lemma_regroup(a + name, blank + rule, end);
    assert(l1 == a + name + (blank + rule + end));
    let l2 = l1 + method + blank + url + gap;
    lemma_regroup(l1, method, blank);
    lemma_regroup(l1, method + blank, url);
    lemma_regroup(l1, method + blank + url, gap);
    assert(l2 == l1 + (method + blank + url + gap));
    let l3 = l2 + own;
    let l4 = l3 + redirects;
    let l5 = l4 + status;
    let l6 = l5 + figures;
    let l7 = l6 + end;
    let l8 = l7 + headers;
    let r1 = body + logs;
    lemma_regroup(l8, body, logs);
    let r2 = headers + r1;
    lemma_regroup(l7, headers, r1);
    let r3 = end + r2;
    lemma_regroup(l6, end, r2);
    let r4 = figures + r3;
    lemma_regroup(l5, figures, r3);
    let r5 = status + r4;
    lemma_regroup(l4, status, r4);
    let r6 = redirects + r5;
    lemma_regroup(l3, redirects, r5);
    let r7 = own + r6;
    lemma_regroup(l2, own, r6);
    lemma_regroup(l1, method + blank + url + gap, r7);
}

/// The plain form of a response shows, in this order, the name, the method and the URL
/// of the request, its headers, the redirects, the protocol, the status and its text,
/// the figures, the headers of the response, its body and the logs.
pub proof fn plain_text_shows_everything(q: ResolvedModel, r: Reply, logs: Seq<Seq<char>>)
    ensures
        shows(
            plain_text(q, r, logs),
            seq![
                q.name,
                q.method + " "@ + q.url,
                pair_lines(q.headers, "  "@),
                item_lines(r.redirects, "  -> "@),
                r.protocol + " "@ + decimal(r.status as nat),
                r.status_text,
                decimal(r.status as nat),
                decimal(r.elapsed_ms as nat),
                decimal(r.body.len()),
                pair_lines(r.headers, "  "@),
                item_lines(lines(shown_body(r)), "  "@),
                item_lines(logs, "  "@),
            ],
        ),
{
    let body = shown_body(r);
    let none = Seq::<char>::empty();
    let p1 = seq![item_lines(logs, "  "@)];
    let p2 = seq![item_lines(lines(body), "  "@)] + p1;
    let p3 = seq![pair_lines(r.headers, "  "@)] + p2;
    let p4 = seq![
        decimal(r.status as nat),
        decimal(r.elapsed_ms as nat),
        decimal(r.body.len()),
    ] + p3;
    let p5 = seq![r.protocol + " "@ + decimal(r.status as nat), r.status_text] + p4;
    let p6 = seq![item_lines(r.redirects, "  -> "@)] + p5;
    let p7 = seq![pair_lines(q.headers, "  "@)] + p6;
    let p8 = seq![q.method + " "@ + q.url] + p7;
    let s1 = plain_logs(logs);
    let s2 = plain_body(body) + s1;
    let s3 = plain_headers("Response headers:\n"@, r.headers) + s2;
    let s4 = plain_figures(r) + ("\n"@ + s3);
    let s5 = plain_status(r) + s4;
    let s6 = plain_redirects(r.redirects) + s5;
    let s7 = plain_headers("Request headers:\n"@, q.headers) + s6;
    let target = q.method + " "@ + q.url;
    let s8 = (target + "\n\n"@) + s7;
    lemma_logs_shown(logs);
    lemma_body_shown(body, s1, p1);
    lemma_headers_shown("Response headers:\n"@, r.headers, s2, p2);
    lemma_shows_more("\n"@, s3, p3);
    lemma_figures_shown(r, "\n"@ + s3, p3);
    lemma_status_shown(r, s4, p4);
    lemma_redirects_shown(r.redirects, s5, p5);
    lemma_headers_shown("Request headers:\n"@, q.headers, s6, p6);
    assert(target + "\n\n"@ =~= none + target + "\n\n"@);
    lemma_shows_part(target + "\n\n"@, none, target, "\n\n"@, s7, p7);
    let head = "── "@ + q.name + (" "@ + rule(q.name) + "\n"@);
    lemma_shows_part(head, "── "@, q.name, " "@ + rule(q.name) + "\n"@, s8, p8);
    lemma_plain_text_parts(q, r, logs);
    assert(seq![q.name] + p8 =~= seq![
        q.name,
        target,
        pair_lines(q.headers, "  "@),
        item_lines(r.redirects, "  -> "@),
        r.protocol + " "@ + decimal(r.status as nat),
        r.status_text,
        decimal(r.status as nat),
        decimal(r.elapsed_ms as nat),
        decimal(r.body.len()),
        pair_lines(r.headers, "  "@),
        item_lines(lines(body), "  "@),
        item_lines(logs, "  "@),
    ]);
}

proof fn lemma_markdown_body_shown(r: Reply, rest: Seq<char>, parts: Seq<Seq<char>>)
    requires
        shows(rest, parts),
    ensures
        shows(markdown_body(r) + rest, seq![shown_body(r)] + parts),
{
    let none = Seq::<char>::empty();
    let body = shown_body(r);
    if body.len() == 0 {
        assert(markdown_body(r) =~= "**Body**\n\n(empty)\n"@ + body + none);
        lemma_shows_part(
            markdown_body(r),
            "**Body**\n\n(empty)\n"@,
            body,
            none,
            rest,
            parts,
        );
    } else {
        lemma_shows_part(
            markdown_body(r),
            "**Body**\n\n```"@ + body_language(r) + "\n"@,
            body,
            "\n```\n"@,
            rest,
            parts,
        );
    }
}

proof fn lemma_title_shown(r: Reply, rest: Seq<char>, parts: Seq<Seq<char>>)
    requires
        r.status != 0,
        shows(rest, parts),
    ensures
        shows(
            markdown_title(Some(r)) + rest,
            seq![decimal(r.status as nat)] + (seq![decimal(r.elapsed_ms as nat)] + parts),
        ),
{
    let none = Seq::<char>::empty();
    let code = decimal(r.status as nat);
    let time = decimal(r.elapsed_ms as nat);
    let mark = "### "@ + (if 200 <= r.status < 300 {
        "✅"@
    } else {
        "⚠️"@
    }) + " "@;
    let taken = " · "@ + time + " ms\n\n"@;
    lemma_shows_part(taken, " · "@, time, " ms\n\n"@, rest, parts);
    shows_behind(mark, code, taken + rest, seq![time] + parts);
    lemma_regroup(mark + code, " · "@, time);
    lemma_regroup(mark + code, " · "@ + time, " ms\n\n"@);
    lemma_regroup(mark + code, taken, rest);
    assert(markdown_title(Some(r)) == mark + code + taken);
}

/// The Markdown form of a response shows, in this order, its status and the time that
/// it took, the method and the URL of the request, its headers, the headers of the
/// response, its body and the logs.
pub proof fn markdown_shows_everything(q: ResolvedModel, r: Reply, logs: Seq<Seq<char>>)
    requires
        r.status != 0,
    ensures
        shows(
            markdown_text(q, Some(r), logs),
            seq![
                decimal(r.status as nat),
                decimal(r.elapsed_ms as nat),
                q.method,
                q.url,
                pair_lines(q.headers, ""@),
                pair_lines(r.headers, ""@),
                shown_body(r),
                item_lines(logs, "- "@),
            ],
        ),
{
    let none = Seq::<char>::empty();
    let p1 = seq![item_lines(logs, "- "@)];
    let p2 = seq![shown_body(r)] + p1;
    let p3 = seq![pair_lines(r.headers, ""@)] + p2;
    let p4 = seq![pair_lines(q.headers, ""@)] + p3;
    let p5 = seq![q.url] + p4;
    let p6 = seq![q.method] + p5;
    let s1 = markdown_logs(logs);
    let s2 = markdown_body(r) + s1;
    let s3 = markdown_headers("**Response Headers**\n\n"@, r.headers) + s2;
    let s4 = markdown_headers("**Request Headers**\n\n"@, q.headers) + s3;
    let url = "** `"@ + q.url + "`\n\n"@;
    let s5 = url + s4;
    let method = "**"@ + q.method + none;
    let s6 = method + s5;
    lemma_logs_shown(logs);
    lemma_markdown_body_shown(r, s1, p1);
    lemma_headers_shown("**Response Headers**\n\n"@, r.headers, s2, p2);
    lemma_headers_shown("**Request Headers**\n\n"@, q.headers, s3, p3);
    lemma_shows_part(url, "** `"@, q.url, "`\n\n"@, s4, p4);
    lemma_shows_part(method, "**"@, q.method, none, s5, p5);
    lemma_title_shown(r, s6, p6);
    lemma_markdown_parts(q, r, logs);
    assert(seq![decimal(r.status as nat)] + (seq![decimal(r.elapsed_ms as nat)] + p6) =~= seq![
        decimal(r.status as nat),
        decimal(r.elapsed_ms as nat),
        q.method,
        q.url,
        pair_lines(q.headers, ""@),
        pair_lines(r.headers, ""@),
        shown_body(r),
        item_lines(logs, "- "@),
    ]);
}

proof fn lemma_markdown_parts(q: ResolvedModel, r: Reply, logs: Seq<Seq<char>>)
    ensures
        markdown_text(q, Some(r), logs) == markdown_title(Some(r)) + (("**"@ + q.method
            + Seq::<char>::empty()) + (("** `"@ + q.url + "`\n\n"@) + (markdown_headers(
            "**Request Headers**\n\n"@,
            q.headers,
        ) + (markdown_headers("**Response Headers**\n\n"@, r.headers) + (markdown_body(r)
            + markdown_logs(logs)))))),
{
    let title = markdown_title(Some(r));
    let headers = markdown_headers("**Request Headers**\n\n"@, q.headers);
    let reply = markdown_headers("**Response Headers**\n\n"@, r.headers);
    let body = markdown_body(r);
    let logged = markdown_logs(logs);
    let none = Seq::<char>::empty();
    let url = "** `"@ + q.url + "`\n\n"@;
    assert("**"@ + q.method + none =~= "**"@ + q.method);
    let l1 = title + ("**"@ + q.method);
    lemma_regroup(title, "**"@, q.method);
    lemma_regroup(l1, "** `"@, q.url);
    lemma_regroup(l1, "** `"@ + q.url, "`\n\n"@);
    let l2 = l1 + url;
    let l3 = l2 + headers;
    lemma_regroup(l3, reply + body, logged);
    lemma_regroup(reply, body, logged);
    lemma_regroup(l2, headers, reply + (body + logged));
    lemma_regroup(l1, url, headers + (reply + (body + logged)));
    lemma_regroup(title, "**"@ + q.method, url + (headers + (reply + (body + logged))));
}

/// Carriage returns are left out, and nothing else.
pub proof fn only_returns_are_left_out(a: Seq<char>, b: Seq<char>)
    ensures
        without_returns(a + b) == without_returns(a) + without_returns(b),
        !b.contains('\r') ==> without_returns(b) == b,
        without_returns(seq!['\r']).len() == 0,
    decreases b.len(),
{
    reveal_with_fuel(without_returns, 2);
    assert(seq!['\r'].drop_last() =~= Seq::empty());
    if b.len() == 0 {
        assert(a + b =~= a);
        assert(without_returns(a) + without_returns(b) =~= without_returns(a));
        assert(without_returns(b) =~= b);
    } else {
        let rest = b.drop_last();
        only_returns_are_left_out(a, rest);
        assert((a + b).drop_last() =~= a + rest);
        assert(without_returns(a + b) =~= without_returns(a) + without_returns(b));
        if !b.contains('\r') {
            assert(b.contains(b.last()));
            assert(!rest.contains('\r')) by {
                if rest.contains('\r') {
                    let k = choose|k: int| 0 <= k < rest.len() && rest[k] == '\r';
                    assert(b[k] == '\r');
                }
            }
            assert(without_returns(b) =~= b);
        }
    }
}

/// A body is shown as its text, whole and unchanged but for white space at its end; JSON
/// is indented where it can be read. Of a body that is too long the start is shown, with
/// a note behind it.
pub proof fn body_is_shown(r: Reply, text: Seq<char>, after: Seq<char>)
    requires
        r.body.len() > 0,
        all_space(after),
        text.len() > 0,
        !is_space(text.last()),
        !text.contains('\r'),
    ensures
        r.body.len() <= 262144 && !has_type(r, "json"@) && lossy_text(r.body) == text + after
            ==> shown_body(r) == text,
        r.body.len() <= 262144 && has_type(r, "json"@) && json_parse(lossy_text(r.body)) is None
            && lossy_text(r.body) == text + after ==> shown_body(r) == text,
        r.body.len() <= 262144 && has_type(r, "json"@) && (json_parse(
            lossy_text(r.body),
        ) matches Some(value) && json_pretty(value) == Some(text + after)) ==> shown_body(r)
            == text,
        r.body.len() > 262144 && !has_type(r, "json"@) && lossy_text(r.body) == text && text.len()
            > 262144 ==> shown_body(r) == text.take(262144) + "\n… (body truncated)"@,
{
    trim_end_finds(text, after);
    only_returns_are_left_out(Seq::empty(), text);
    if r.body.len() > 262144 && lossy_text(r.body) == text && text.len() > 262144 {
        reveal_strlit("\n… (body truncated)");
        let start = text.take(262144);
        let note = "\n… (body truncated)"@;
        let all = start + note;
        assert(all.last() == ')');
        assert(all + Seq::<char>::empty() =~= all);
        trim_end_finds(all, Seq::empty());
        assert(!all.contains('\r')) by {
            if all.contains('\r') {
                let k = choose|k: int| 0 <= k < all.len() && all[k] == '\r';
                if k < start.len() {
                    assert(text.contains(text[k]));
                } else {
                    assert(all[k] == note[k - start.len()]);
                }
            }
        }
        only_returns_are_left_out(Seq::empty(), all);
    }
}

/// The language of a body goes by the content type, whatever the case of the header's
/// name.
pub proof fn language_goes_by_the_type(r: Reply, value: Seq<char>)
    requires
        first_value(r.headers, lowercase("content-type"@)) == Some(value),
    ensures
        contains(value, "json"@) ==> body_language(r) == "json"@,
        !contains(value, "json"@) && contains(value, "html"@) ==> body_language(r) == "html"@,
        !contains(value, "json"@) && !contains(value, "html"@) && contains(value, "xml"@)
            ==> body_language(r) == "xml"@,
        !contains(value, "json"@) && !contains(value, "html"@) && !contains(value, "xml"@)
            ==> body_language(r) == ""@,
{
}

/// Of a body that is too long no more than its start is shown, with a note behind it,
/// whether it is JSON or not.
pub proof fn long_bodies_are_cut(r: Reply, text: Seq<char>)
    requires
        r.body.len() > 262144,
        !text.contains('\r'),
        !has_type(r, "json"@) ==> lossy_text(r.body) == text,
        has_type(r, "json"@) ==> (json_parse(lossy_text(r.body)) matches Some(value)
            && json_pretty(value) == Some(text)),
    ensures
        shown_body(r) == (if text.len() > 262144 {
            text.take(262144)
        } else {
            text
        }) + "\n… (body truncated)"@,
{
    reveal_strlit("\n… (body truncated)");
    let start = if text.len() > 262144 {
        text.take(262144)
    } else {
        text
    };
    let note = "\n… (body truncated)"@;
    let all = start + note;
    assert(all.last() == ')');
    assert(all + Seq::<char>::empty() =~= all);
    trim_end_finds(all, Seq::empty());
    assert(!all.contains('\r')) by {
        if all.contains('\r') {
            let k = choose|k: int| 0 <= k < all.len() && all[k] == '\r';
            if k < start.len() {
                assert(text.contains(text[k]));
            } else {
                assert(all[k] == note[k - start.len()]);
            }
        }
    }
    only_returns_are_left_out(Seq::empty(), all);
}

} // verus!
