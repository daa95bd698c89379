use http_client_core::execute::ResolvedRequest;
use http_client_core::execute::ResponseData;
use http_client_core::output::display_body;
use http_client_core::output::display_body_markdown;
use http_client_core::output::format_response_markdown;
use http_client_core::output::format_response_plain;
use http_client_core::output::is_json;
use http_client_core::output::MAX_BODY_BYTES;

fn request(name: &str, headers: &[(&str, &str)]) -> ResolvedRequest {
    ResolvedRequest {
        name: name.to_string(),
        method: "GET".to_string(),
        url: "/x".to_string(),
        headers: headers
            .iter()
            .map(|(n, v)| (n.to_string(), v.to_string()))
            .collect(),
        body: None,
        follow_redirects: true,
        timeout_secs: None,
        connection_timeout_secs: None,
        pre_request_script: None,
        handler: None,
        redirect_to: None,
    }
}

fn response(status: u16, content_type: &str, body: &[u8]) -> ResponseData {
    ResponseData {
        status,
        protocol: "HTTP/1.1".to_string(),
        status_text: "OK".to_string(),
        headers: vec![("Content-Type".to_string(), content_type.to_string())],
        redirects: Vec::new(),
        body: body.to_vec(),
        elapsed_ms: 12,
    }
}

#[test]
fn formats_plain_text() {
    let mut r = response(200, "application/json", b"{\"a\":1}\r\n");
    r.redirects = vec!["/y".to_string()];
    let text = format_response_plain(&request("n", &[("A", "b")]), &r, &["hello".to_string()]);
    let expected = format!(
        "── n {}\nGET /x\n\nRequest headers:\n  A: b\n\nRedirects:\n  -> /y\n\nHTTP/1.1 200 OK\nResponse code: 200; Time: 12 ms; Content length: 9 bytes\n\nResponse headers:\n  Content-Type: application/json\n\nBody:\n  {{\n    \"a\": 1\n  }}\n\nLogs:\n  hello\n",
        "─".repeat(55)
    );
    assert_eq!(text, expected);
}

#[test]
fn formats_plain_text_without_extras() {
    let mut r = response(204, "", b"");
    r.headers.clear();
    r.status_text.clear();
    let name = "ä".repeat(30);
    assert_eq!(
        format_response_plain(&request(&name, &[]), &r, &[]),
        format!("── {name} \nGET /x\n\nHTTP/1.1 204\nResponse code: 204; Time: 12 ms; Content length: 0 bytes\n\nBody: (empty)\n")
    );
}

#[test]
fn formats_markdown() {
    let r = response(200, "text/html", b"<p>\n");
    assert_eq!(
        format_response_markdown(&request("n", &[("A", "b")]), Some(&r), &["l".to_string()]),
        "### ✅ 200 · 12 ms\n\n**GET** `/x`\n\n**Request Headers**\n\n```\nA: b\n```\n\n**Response Headers**\n\n```\nContent-Type: text/html\n```\n\n**Body**\n\n```html\n<p>\n```\n\n**Logs**\n\n- l\n"
    );
    assert_eq!(
        format_response_markdown(&request("n", &[]), None, &[]),
        "### ⚠️ completed (status unavailable)\n\n**GET** `/x`\n\n"
    );
}

#[test]
fn titles_show_the_status() {
    let q = request("n", &[]);
    let title = |status: u16| {
        let text = format_response_markdown(&q, Some(&response(status, "", b"")), &[]);
        text.lines().next().unwrap_or("").to_string()
    };
    assert_eq!(title(0), "### ⚠️ completed (status unavailable) · 12 ms");
    assert_eq!(title(299), "### ✅ 299 · 12 ms");
    assert_eq!(title(300), "### ⚠️ 300 · 12 ms");
    assert!(format_response_markdown(&q, Some(&response(200, "", b"")), &[])
        .ends_with("**Body**\n\n(empty)\n"));
}

#[test]
fn knows_the_language_of_a_body() {
    let language = |kind: &str| display_body_markdown(&response(200, kind, b"x")).1;
    assert_eq!(language("application/json; charset=utf-8"), "json");
    assert_eq!(language("text/html"), "html");
    assert_eq!(language("application/xml"), "xml");
    assert_eq!(language("text/plain"), "");
    assert!(is_json(&response(200, "application/problem+json", b"")));
    assert!(!is_json(&response(200, "application/JSON", b"")));
}

#[test]
fn shows_bodies_without_returns() {
    let show = |kind: &str, body: &[u8]| display_body(&response(200, kind, body));
    assert_eq!(show("", b""), "");
    assert_eq!(show("", b"a\r\nb\r\n"), "a\nb");
    assert_eq!(show("json", b"not json "), "not json");
    assert_eq!(show("json", b"[1,{\"b\":2,\"a\":[]}]"), "[\n  1,\n  {\n    \"a\": [],\n    \"b\": 2\n  }\n]");
    assert_eq!(show("", b"\xffx"), "\u{fffd}x");
}

#[test]
fn truncates_long_bodies() {
    let body = vec![b'a'; MAX_BODY_BYTES + 1];
    let shown = display_body(&response(200, "", &body));
    assert_eq!(shown, format!("{}\n… (body truncated)", "a".repeat(MAX_BODY_BYTES)));
    let exact = display_body(&response(200, "", &body[1..]));
    assert_eq!(exact.len(), MAX_BODY_BYTES);
    let wide = "ä".repeat(MAX_BODY_BYTES);
    assert_eq!(
        display_body(&response(200, "", wide.as_bytes())),
        format!("{wide}\n… (body truncated)")
    );
}
