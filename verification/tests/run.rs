use http_client_core::env::Environment;
use http_client_core::execute::ResolvedRequest;
use http_client_core::execute::ResponseData;
use http_client_core::json::JsonValue;
use http_client_core::json::Number;
use http_client_core::map::TextMap;
use http_client_core::parser::parse;
use http_client_core::parser::Handler;
use http_client_core::rng::Rng;
use http_client_core::run::environment_variables;
use http_client_core::run::file_variables;
use http_client_core::run::log_entry;
use http_client_core::run::numbered_name;
use http_client_core::run::read_globals;
use http_client_core::run::response_file;
use http_client_core::run::Run;
use http_client_core::run::Step;

fn start(input: &str, lacks_environment: bool, fail_on_http_error: bool) -> Run {
    let doc = parse(input);
    let selected = (0..doc.requests.len()).collect();
    let file_vars = file_variables(&doc.variables);
    Run::new(
        doc.requests,
        selected,
        file_vars,
        TextMap::new(),
        TextMap::new(),
        lacks_environment,
        fail_on_http_error,
        TextMap::new(),
        Rng::from_nanos(1),
    )
    .unwrap()
}

fn sent(step: Step) -> ResolvedRequest {
    match step {
        Step::Send(request) => request,
        Step::Stop(error) => panic!("{error}"),
        Step::Done => panic!("done"),
    }
}

fn response(status: u16, body: &[u8]) -> ResponseData {
    ResponseData {
        status,
        protocol: "HTTP/1.1".to_string(),
        status_text: "OK".to_string(),
        headers: vec![("A".to_string(), "b".to_string())],
        redirects: vec!["/r".to_string()],
        body: body.to_vec(),
        elapsed_ms: 5,
    }
}

#[test]
fn a_token_reaches_the_next_request() {
    let mut run = start(
        "@h = http://x\n### login\nPOST {{h}}/login\n\n> {% client.global.set(\"t\", response.body.json().t) %}\n\n### use\nGET {{h}}/use\nAuthorization: Bearer {{t}}\n",
        false,
        false,
    );
    let login = sent(run.next(0));
    assert_eq!(login.url, "http://x/login");
    let r = response(200, b"{\"t\": \"abc\"}");
    run.handle(&login, &r);
    let report = run.report(&login, &r, Some("p.json"));
    assert!(report.text.ends_with("\nResponse saved to p.json\n"));
    assert!(report.errors.is_empty());
    let used = sent(run.next(0));
    assert_eq!(used.headers[0].1, "Bearer abc");
    assert!(matches!(run.next(0), Step::Done));
    assert!(!run.has_failed());
    assert_eq!(
        run.globals_text().as_deref(),
        Some("{\n  \"t\": \"abc\"\n}")
    );
}

#[test]
fn logs_and_errors_are_shown_once() {
    let mut run = start(
        "### a\nGET /a\n\n> {%\nclient.log('l')\nclient.assert(1 == 2, 'e')\n%}\n\n### b\nGET /b\n",
        false,
        false,
    );
    let a = sent(run.next(0));
    let r = response(200, b"");
    run.handle(&a, &r);
    let first = run.report(&a, &r, None);
    assert!(first.text.ends_with("\nLogs:\n  l\n"));
    assert_eq!(first.errors, vec!["e"]);
    let b = sent(run.next(0));
    run.handle(&b, &r);
    let second = run.report(&b, &r, None);
    assert!(!second.text.contains("Logs"));
    assert!(second.errors.is_empty());
}

#[test]
fn pre_request_scripts_run_before_resolution() {
    let mut run = start(
        "< {% client.global.set('p', 'v') %}\nGET /{{p}}\n",
        false,
        false,
    );
    assert_eq!(sent(run.next(0)).url, "/v");
}

#[test]
fn an_unresolved_variable_ends_the_run() {
    let input = "### a\nGET /{{x}}\n\n### b\nGET /b\n";
    let mut run = start(input, false, false);
    match run.next(0) {
        Step::Stop(error) => {
            assert_eq!(error, "error resolving `a`: unresolved variable: {{x}}")
        }
        _ => panic!("sent"),
    }
    assert!(run.has_failed());
    assert!(matches!(run.next(0), Step::Done));
    match start(input, true, false).next(0) {
        Step::Stop(error) => assert_eq!(
            error,
            "error resolving `a`: unresolved variable: {{x}}\n  no environment selected; use `http-client env <file> <name>`"
        ),
        _ => panic!("sent"),
    }
}

#[test]
fn failures_are_kept() {
    let input = "### a\nGET /a\n\n### b\nGET /b\n";
    let mut strict = start(input, false, true);
    let a = sent(strict.next(0));
    strict.report(&a, &response(399, b""), None);
    assert!(!strict.has_failed());
    strict.report(&a, &response(400, b""), None);
    assert!(strict.has_failed());
    assert!(matches!(strict.next(0), Step::Send(_)));
    assert!(strict.has_failed());
    let mut lax = start(input, false, false);
    let a = sent(lax.next(0));
    lax.report(&a, &response(500, b""), None);
    assert!(!lax.has_failed());
    lax.abort();
    assert!(lax.has_failed());
    assert!(matches!(lax.next(0), Step::Done));
}

#[test]
fn a_selection_must_exist() {
    let doc = parse("GET /a\n");
    assert!(Run::new(
        doc.requests,
        vec![0, 1],
        TextMap::new(),
        TextMap::new(),
        TextMap::new(),
        false,
        false,
        TextMap::new(),
        Rng::from_nanos(1),
    )
    .is_none());
}

#[test]
fn records_a_response() {
    let mut run = start("### n\nPOST /a\nX: 1\n\nbody\n", false, false);
    let q = sent(run.next(0));
    assert_eq!(
        response_file(&q, &response(201, b"\"b\"")).as_deref(),
        Some("{\n  \"request\": {\n    \"headers\": [\n      [\n        \"X\",\n        \"1\"\n      ]\n    ],\n    \"method\": \"POST\",\n    \"url\": \"/a\"\n  },\n  \"response\": {\n    \"body\": \"\\\"b\\\"\",\n    \"elapsedMs\": 5,\n    \"headers\": [\n      [\n        \"A\",\n        \"b\"\n      ]\n    ],\n    \"protocol\": \"HTTP/1.1\",\n    \"redirects\": [\n      \"/r\"\n    ],\n    \"status\": 201,\n    \"statusText\": \"OK\"\n  }\n}")
    );
    assert_eq!(log_entry(&q), "### n\nPOST /a\nX: 1\n\nbody\n\n");
    let logged = parse(&log_entry(&q));
    assert_eq!(logged.requests[0].body.as_deref(), Some("body"));
}

#[test]
fn reads_kept_globals() {
    let globals = read_globals("{\"a\": 1}").unwrap();
    assert_eq!(globals.len(), 1);
    let mut kept = start("GET /a\n", false, false);
    let r = response(200, b"");
    let q = sent(kept.next(0));
    let mut scripted = q.clone();
    scripted.handler = Some(Handler::Inline(
        "client.global.set('s', 'a\\\"b')\nclient.global.set('n', -7)\nclient.global.set('h', response.headers)".to_string(),
    ));
    kept.handle(&scripted, &r);
    let text = kept.globals_text().unwrap();
    let back = read_globals(&text).unwrap();
    assert_eq!(back.get("s"), Some(&JsonValue::String("a\"b".to_string())));
    assert_eq!(back.get("n"), Some(&JsonValue::Number(Number::NegInt(-7))));
    assert_eq!(back.len(), 3);
    assert!(read_globals("[]").is_none());
    assert!(read_globals("").is_none());
}

#[test]
fn numbers_redirect_files() {
    assert_eq!(numbered_name(Some("a"), Some("json"), 1), "a-1.json");
    assert_eq!(numbered_name(None, None, 12), "response-12.txt");
}

#[test]
fn collects_variables() {
    let vars = file_variables(&vec![
        ("a".to_string(), "1".to_string()),
        ("a".to_string(), "2".to_string()),
    ]);
    assert_eq!(vars.get("a"), Some(&JsonValue::String("2".to_string())));
    let mut dev = TextMap::new();
    dev.insert("k".to_string(), JsonValue::Bool(true));
    let environments = vec![Environment {
        name: "dev".to_string(),
        vars: dev,
    }];
    let named = environment_variables(&environments, &Some("dev".to_string()));
    assert_eq!(named.get("k"), Some(&JsonValue::Bool(true)));
    assert!(environment_variables(&environments, &None).is_empty());
    assert!(environment_variables(&environments, &Some("x".to_string())).is_empty());
}
