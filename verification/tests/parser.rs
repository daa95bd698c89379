use http_client_core::parser::collect_inline_script;
use http_client_core::parser::is_http_version_token;
use http_client_core::parser::parse;
use http_client_core::parser::parse_duration;
use http_client_core::parser::parse_header;
use http_client_core::parser::parse_redirect;
use http_client_core::parser::parse_request_line;
use http_client_core::parser::parse_variable_declaration;
use http_client_core::parser::strip_http_version;
use http_client_core::parser::Handler;
use http_client_core::parser::Header;
use http_client_core::parser::HttpFile;
use http_client_core::parser::Redirect;

#[test]
fn parses_basic_request() {
    let doc = parse("GET https://example.com/api HTTP/1.1\nAccept: application/json\n");
    assert_eq!(doc.requests.len(), 1);
    let req = &doc.requests[0];
    assert_eq!(req.method, "GET");
    assert_eq!(req.url, "https://example.com/api");
    assert_eq!(req.headers.len(), 1);
    assert_eq!(req.headers[0].name, "Accept");
    assert_eq!(req.body, None);
    assert_eq!(req.display_name, "#1");
}

#[test]
fn parses_multiple_requests_with_names_and_bodies() {
    let input = "\
### login
POST {{host}}/login HTTP/1.1
Content-Type: application/json

{
  \"user\": \"admin\"
}

### fetch things
GET {{host}}/things

###
DELETE {{host}}/things/1
";
    let doc = parse(input);
    assert_eq!(doc.requests.len(), 3);
    assert_eq!(doc.requests[0].name.as_deref(), Some("login"));
    assert_eq!(doc.requests[0].method, "POST");
    assert_eq!(
        doc.requests[0].body.as_deref(),
        Some("{\n  \"user\": \"admin\"\n}")
    );
    assert_eq!(doc.requests[1].name.as_deref(), Some("fetch things"));
    assert_eq!(doc.requests[1].display_name, "fetch things");
    assert_eq!(doc.requests[2].name, None);
    assert_eq!(doc.requests[2].display_name, "#3");
}

#[test]
fn parses_short_get_form_and_url_continuation() {
    let input = "\
https://example.com/api
    /things
    ?id=1
    &flag=true
";
    let doc = parse(input);
    assert_eq!(doc.requests.len(), 1);
    assert_eq!(doc.requests[0].method, "GET");
    assert_eq!(
        doc.requests[0].url,
        "https://example.com/api/things?id=1&flag=true"
    );
}

#[test]
fn parses_variables_tags_and_handlers() {
    let input = "\
@host = https://example.com
@token = abc

### named via comment
// @no-redirect
# @timeout 30
GET {{host}}/status/301

> {%
client.global.set(\"token\", response.body.json().token)
%}
>>! out/response.json
";
    let doc = parse(input);
    assert_eq!(
        doc.variables,
        vec![
            ("host".to_string(), "https://example.com".to_string()),
            ("token".to_string(), "abc".to_string())
        ]
    );
    let req = &doc.requests[0];
    assert_eq!(req.name.as_deref(), Some("named via comment"));
    assert!(req.no_redirect);
    assert_eq!(req.timeout_secs, Some(30));
    assert!(matches!(
        req.handler,
        Some(Handler::Inline(ref script)) if script.contains("client.global.set")
    ));
    assert_eq!(
        req.redirect_to,
        Some(Redirect {
            overwrite: true,
            path: "out/response.json".to_string()
        })
    );
}

#[test]
fn parses_duration_units() {
    assert_eq!(parse_duration("600"), Some(600));
    assert_eq!(parse_duration("600ms"), Some(1));
    assert_eq!(parse_duration("100 ms"), Some(1));
    assert_eq!(parse_duration("2 m"), Some(120));
}

#[test]
fn strips_http_versions() {
    assert_eq!(
        strip_http_version("https://example.com HTTP/1.1"),
        "https://example.com"
    );
    assert_eq!(
        strip_http_version("https://example.com HTTP/2"),
        "https://example.com"
    );
    assert_eq!(
        strip_http_version("https://example.com HTTP/2 (Prior Knowledge)"),
        "https://example.com"
    );
}

#[test]
fn keeps_what_is_no_http_version() {
    assert_eq!(strip_http_version("/a HTTP/x"), "/a HTTP/x");
    assert_eq!(strip_http_version("/a HTTP/"), "/a HTTP/");
    assert!(is_http_version_token("HTTP/1.1"));
    assert!(!is_http_version_token("http/1.1"));
}

#[test]
fn durations_follow_double_precision() {
    assert_eq!(parse_duration("0.5"), Some(1));
    assert_eq!(parse_duration("1.001 s"), Some(2));
    assert_eq!(parse_duration("1500 ms"), Some(2));
    assert_eq!(parse_duration("-3"), Some(0));
    assert_eq!(parse_duration("0"), Some(0));
    assert_eq!(parse_duration("5 h"), None);
    assert_eq!(parse_duration(""), None);
    assert_eq!(parse_duration("1.2.3"), None);
    assert_eq!(parse_duration("99999999999999999999999"), Some(u64::MAX));
    for tenths in 0u64..200 {
        let text = format!("{}.{}", tenths / 10, tenths % 10);
        let value: f64 = text.parse().unwrap();
        let seconds = (value * 1000.0 / 1000.0).ceil() as u64;
        let minutes = (value * 60.0 * 1000.0 / 1000.0).ceil() as u64;
        assert_eq!(parse_duration(&text), Some(seconds));
        assert_eq!(parse_duration(&format!("{text} m")), Some(minutes));
    }
}

#[test]
fn reads_request_lines() {
    let get = ("GET".to_string(), "/x".to_string());
    assert_eq!(parse_request_line("/x"), get);
    assert_eq!(parse_request_line("GET /x HTTP/1.1"), get);
    assert_eq!(
        parse_request_line("get /x"),
        ("GET".to_string(), "get /x".to_string())
    );
    assert_eq!(
        parse_request_line("A /x"),
        ("GET".to_string(), "A /x".to_string())
    );
}

#[test]
fn reads_headers_and_variables() {
    assert_eq!(
        parse_header(" Accept : text/html "),
        Some(Header {
            name: "Accept".to_string(),
            value: "text/html".to_string()
        })
    );
    assert_eq!(parse_header("no colon"), None);
    assert_eq!(parse_header(": empty"), None);
    assert_eq!(parse_header("two words: x"), None);
    assert_eq!(
        parse_variable_declaration("@a-b.c_1 = x = y"),
        Some(("a-b.c_1".to_string(), "x = y".to_string()))
    );
    assert_eq!(
        parse_variable_declaration("@größe=1"),
        Some(("größe".to_string(), "1".to_string()))
    );
    assert_eq!(parse_variable_declaration("@a b = c"), None);
    assert_eq!(parse_variable_declaration("@ = c"), None);
    assert_eq!(parse_variable_declaration("a = c"), None);
}

#[test]
fn reads_redirects() {
    assert_eq!(
        parse_redirect(">> a.json"),
        Some(Redirect {
            overwrite: false,
            path: "a.json".to_string()
        })
    );
    assert_eq!(parse_redirect(">>!"), None);
    assert_eq!(parse_redirect("> a"), None);
}

#[test]
fn collects_scripts_of_several_lines() {
    let lines: Vec<String> = ["> {%", "  a", "b %}", "c"]
        .iter()
        .map(|s| s.to_string())
        .collect();
    assert_eq!(
        collect_inline_script(&lines, 0, "{%"),
        (Handler::Inline("  a\nb".to_string()), 3)
    );
    assert_eq!(
        collect_inline_script(&lines, 0, "{% x %}"),
        (Handler::Inline("x".to_string()), 1)
    );
    assert_eq!(
        collect_inline_script(&lines, 3, "{% x"),
        (Handler::Inline("x".to_string()), 1)
    );
}

#[test]
fn requests_lie_on_their_lines() {
    let doc = parse("### a\nGET /a\n\nbody\n\n### b\n\nGET /b\r\nX: 1\r\n");
    let places: Vec<(usize, usize, usize, usize)> = doc
        .requests
        .iter()
        .map(|r| (r.index, r.start_line, r.request_line, r.end_line))
        .collect();
    assert_eq!(places, vec![(0, 0, 1, 4), (1, 5, 7, 8)]);
    assert_eq!(doc.requests[0].body.as_deref(), Some("body"));
    assert_eq!(doc.requests[1].headers[0].value, "1");
}

#[test]
fn reads_names_and_scripts_of_sections() {
    let doc = parse(
        "# @name = first\n< before.js\nGET /a\n> after.js\n>> out.txt\n\n### x\n# @name\n< {% client.log(1) %}\n  indented\nPUT /b\n# @connection-timeout 2 s\n",
    );
    let a = &doc.requests[0];
    assert_eq!(a.name.as_deref(), Some("first"));
    assert_eq!(
        a.pre_request_script,
        Some(Handler::File("before.js".to_string()))
    );
    assert_eq!(a.handler, Some(Handler::File("after.js".to_string())));
    assert_eq!(
        a.redirect_to,
        Some(Redirect {
            overwrite: false,
            path: "out.txt".to_string()
        })
    );
    let b = &doc.requests[1];
    assert_eq!(b.name.as_deref(), Some("x"));
    assert_eq!(
        b.pre_request_script,
        Some(Handler::Inline("client.log(1)".to_string()))
    );
    assert_eq!(b.method, "PUT");
    assert_eq!(b.connection_timeout_secs, Some(2));
}

#[test]
fn keeps_blank_lines_inside_a_body_only() {
    let doc = parse("POST /a\n\n\n\none\n\ntwo\n\n\n");
    assert_eq!(doc.requests[0].body.as_deref(), Some("one\n\ntwo"));
    let empty = parse("POST /a\n\n   \n\n");
    assert_eq!(empty.requests[0].body, None);
}

#[test]
fn an_empty_document_holds_nothing() {
    assert_eq!(parse(""), HttpFile::default());
    assert_eq!(parse("\n\n# only a comment\n"), HttpFile::default());
    let doc = parse("@a = 1\nGET /x\n");
    assert_eq!(doc.clone(), doc);
}

#[test]
fn nothing_is_a_header_behind_a_blank_line() {
    let doc = parse("POST /a\nA: 1\n\nB: 2\n\nC: 3\n");
    assert_eq!(doc.requests[0].headers.len(), 1);
    assert_eq!(doc.requests[0].body.as_deref(), Some("B: 2\n\nC: 3"));
}

#[test]
fn variables_are_hoisted_from_every_section() {
    let doc = parse("@a = 1\nGET /a\n\n###\n@b = 2\n@a = 3\nGET /b\n");
    let names: Vec<&str> = doc.variables.iter().map(|v| v.0.as_str()).collect();
    assert_eq!(names, vec!["a", "b", "a"]);
    assert_eq!(doc.requests.len(), 2);
}

#[test]
fn separator_starts_a_fresh_section() {
    let above = "@a = 1\n# @name one\n# @timeout 5\n< {%\nclient.log(1)\n%}\nPOST http://x\nA: b\n\nbody\n";
    let below = "@b = 2\nGET http://y\n\n### two\nGET http://z\n> h.js\n";
    let first = parse(above);
    let second = parse(below);
    let both = parse(&format!("{above}###\n{below}"));
    let shift = above.lines().count() + 1;

    assert_eq!(both.variables.len(), 2);
    assert_eq!(both.variables[0], first.variables[0]);
    assert_eq!(both.variables[1], second.variables[0]);
    assert_eq!(both.requests.len(), 3);
    assert_eq!(format!("{:?}", both.requests[0]), format!("{:?}", first.requests[0]));
    for k in 0..2 {
        let moved = &both.requests[k + 1];
        let alone = &second.requests[k];
        assert_eq!(moved.index, k + 1);
        assert_eq!(moved.name, alone.name);
        assert_eq!(moved.url, alone.url);
        assert!(moved.headers.is_empty());
        assert_eq!(moved.body, None);
        assert_eq!(moved.timeout_secs, None);
        assert!(moved.pre_request_script.is_none());
        assert_eq!(moved.request_line, alone.request_line + shift);
        assert_eq!(moved.end_line, alone.end_line + shift);
    }
    assert_eq!(both.requests[1].display_name, "#2");
    assert_eq!(both.requests[2].display_name, "two");
}
