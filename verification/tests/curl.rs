use http_client_core::curl::curl_arguments;
use http_client_core::curl::curl_error;
use http_client_core::curl::curl_response;
use http_client_core::curl::parse_header_trace;
use http_client_core::curl::parse_status_line;
use http_client_core::curl::parse_write_out;
use http_client_core::curl::resolve_url;
use http_client_core::curl::CurlFiles;
use http_client_core::curl::CurlOutcome;
use http_client_core::curl::HeaderTrace;
use http_client_core::execute::ResolvedRequest;

fn request() -> ResolvedRequest {
    ResolvedRequest {
        name: "n".to_string(),
        method: "POST".to_string(),
        url: "http://h/x".to_string(),
        headers: vec![("A".to_string(), "b".to_string())],
        body: Some("data".to_string()),
        follow_redirects: true,
        timeout_secs: Some(7),
        connection_timeout_secs: Some(3),
        pre_request_script: None,
        handler: None,
        redirect_to: None,
    }
}

fn files(cookies: Option<&str>) -> CurlFiles {
    CurlFiles {
        headers: "hf".to_string(),
        body: "bf".to_string(),
        request_body: "rf".to_string(),
        cookies: cookies.map(|c| c.to_string()),
    }
}

#[test]
fn builds_all_arguments() {
    assert_eq!(
        curl_arguments(&request(), &files(Some("jar"))),
        vec![
            "-sS", "-X", "POST", "-H", "A: b", "--data-binary", "@rf", "-L", "--compressed",
            "--max-time", "7", "--connect-timeout", "3", "-b", "jar", "-c", "jar", "-D", "hf",
            "-o", "bf", "-w", "%{http_code} %{time_total}", "http://h/x",
        ]
    );
}

#[test]
fn builds_the_fewest_arguments() {
    let mut q = request();
    q.headers.clear();
    q.body = None;
    q.follow_redirects = false;
    q.timeout_secs = None;
    q.connection_timeout_secs = None;
    assert_eq!(
        curl_arguments(&q, &files(None)),
        vec![
            "-sS", "-X", "POST", "--compressed", "-D", "hf", "-o", "bf", "-w",
            "%{http_code} %{time_total}", "http://h/x",
        ]
    );
}

#[test]
fn cookie_header_takes_precedence_over_the_jar() {
    let mut q = request();
    q.headers.push(("COOKIE".to_string(), "a=1".to_string()));
    let args = curl_arguments(&q, &files(Some("jar")));
    assert_eq!(args, curl_arguments(&q, &files(None)));
    assert!(args.contains(&"COOKIE: a=1".to_string()));
    assert!(!args.contains(&"-b".to_string()));
    assert!(!args.contains(&"-c".to_string()));

    q.headers[1].0 = "Set-Cookie".to_string();
    assert!(curl_arguments(&q, &files(Some("jar"))).contains(&"-b".to_string()));
}

#[test]
fn reads_what_curl_printed() {
    assert_eq!(parse_write_out(" 200 0.123 "), (200, Some("0.123".to_string())));
    assert_eq!(parse_write_out("404"), (404, None));
    assert_eq!(parse_write_out(""), (0, None));
    assert_eq!(parse_write_out("x 1"), (0, Some("1".to_string())));
    assert_eq!(parse_write_out("65536"), (0, None));
    assert_eq!(curl_error(" bad \n", "out"), "bad");
    assert_eq!(curl_error(" \n", " out "), "out");
}

#[test]
fn reads_header_lines() {
    let text = "HTTP/1.1 302 Found\r\nLocation: /next\r\n\r\nHTTP/1.1 302 Found\r\nnothing\r\n\r\nHTTP/2 200 All good \r\nContent-Type: text/plain\r\nbroken\r\nX:y:z\r\n\r\n";
    assert_eq!(
        parse_header_trace(Some(text), "http://h/a/b"),
        HeaderTrace {
            protocol: "HTTP/2".to_string(),
            status_text: "All good".to_string(),
            headers: vec![
                ("Content-Type".to_string(), "text/plain".to_string()),
                ("X".to_string(), "y:z".to_string()),
            ],
            redirects: vec!["http://h/next".to_string()],
        }
    );
}

#[test]
fn reads_missing_header_lines() {
    let none = HeaderTrace {
        protocol: "HTTP".to_string(),
        status_text: String::new(),
        headers: Vec::new(),
        redirects: Vec::new(),
    };
    assert_eq!(parse_header_trace(None, "http://h"), none);
    assert_eq!(parse_header_trace(Some(""), "http://h"), none);
}

#[test]
fn reads_status_lines() {
    let pair = |a: &str, b: &str| (a.to_string(), b.to_string());
    assert_eq!(parse_status_line("HTTP/1.1 404 Not Found"), pair("HTTP/1.1", "Not Found"));
    assert_eq!(parse_status_line("HTTP/2 200"), pair("HTTP/2", ""));
    assert_eq!(parse_status_line("HTTP/2"), pair("HTTP/2", ""));
}

#[test]
fn resolves_locations() {
    assert_eq!(resolve_url("http://h/a/b", "https://o/x"), "https://o/x");
    assert_eq!(resolve_url("http://h/a/b", "/x"), "http://h/x");
    assert_eq!(resolve_url("http://h", "/x"), "http://h/x");
    assert_eq!(resolve_url("http://h/a/b", "x"), "http://h/a/x");
    assert_eq!(resolve_url("no-scheme", "x"), "x");
}

#[test]
fn builds_the_response() {
    let outcome = |success: bool, stdout: &str| CurlOutcome {
        success,
        stdout: stdout.to_string(),
        stderr: "no route".to_string(),
        header_text: Some("HTTP/1.1 201 Created\r\nA: b\r\n\r\n".to_string()),
        body: b"x".to_vec(),
        elapsed_ms: 9,
    };
    let response = curl_response(outcome(true, "201 0.009"), "http://h").unwrap();
    assert_eq!(response.status, 201);
    assert_eq!(response.status_text, "Created");
    assert_eq!(response.headers, vec![("A".to_string(), "b".to_string())]);
    assert_eq!(response.body, b"x");
    assert_eq!(response.elapsed_ms, 9);
    assert_eq!(
        curl_response(outcome(false, "000 0.1"), "http://h"),
        Err("no route".to_string())
    );
    assert_eq!(
        curl_response(outcome(true, "000 0.1"), "http://h"),
        Err("curl failed (no HTTP status received)".to_string())
    );
}
