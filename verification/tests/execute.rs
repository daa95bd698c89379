use http_client_core::execute::process_handler;
use http_client_core::execute::process_pre_request;
use http_client_core::execute::process_response;
use http_client_core::execute::resolve_request;
use http_client_core::execute::resolve_request_at;
use http_client_core::execute::ResolvedRequest;
use http_client_core::execute::ResponseData;
use http_client_core::execute::RunState;
use http_client_core::handler::eval;
use http_client_core::json::JsonValue;
use http_client_core::map::TextMap;
use http_client_core::parser::parse;
use http_client_core::rng::Rng;

fn text(s: &str) -> JsonValue {
    JsonValue::String(s.to_string())
}

fn map(entries: &[(&str, &str)]) -> TextMap<JsonValue> {
    let mut out = TextMap::new();
    for (key, value) in entries {
        out.insert(key.to_string(), text(value));
    }
    out
}

fn resolve(input: &str, global_headers: &TextMap<String>) -> Result<ResolvedRequest, String> {
    resolve_request_at(
        &parse(input).requests[0],
        &TextMap::new(),
        &TextMap::new(),
        &TextMap::new(),
        global_headers,
        &TextMap::new(),
        &mut Rng::from_nanos(1),
        0,
    )
}

fn response(headers: &[(&str, &str)], body: &[u8]) -> ResponseData {
    ResponseData {
        status: 200,
        protocol: "HTTP/1.1".to_string(),
        status_text: "OK".to_string(),
        headers: headers
            .iter()
            .map(|(name, value)| (name.to_string(), value.to_string()))
            .collect(),
        redirects: Vec::new(),
        body: body.to_vec(),
        elapsed_ms: 5,
    }
}

#[test]
fn resolves_urls_headers_and_bodies() {
    let doc = parse(
        "### login\nPOST https://{{host}}/login\nAuthorization: Bearer {{token}}\n\n{\"user\": \"{{user}}\"}\n",
    );
    let file_vars = map(&[("host", "example.com"), ("user", "admin")]);
    let globals = map(&[("token", "t0")]);
    let mut rng = Rng::new();
    let resolved = resolve_request(
        &doc.requests[0],
        &file_vars,
        &TextMap::new(),
        &globals,
        &TextMap::new(),
        &TextMap::new(),
        &mut rng,
    )
    .unwrap();
    assert_eq!(resolved.url, "https://example.com/login");
    assert_eq!(resolved.headers[0].1, "Bearer t0");
    assert_eq!(resolved.body.as_deref(), Some("{\"user\": \"admin\"}"));
    assert!(resolved.follow_redirects);
}

#[test]
fn process_response_updates_globals_from_handler() {
    let doc = parse(
        "### login\nPOST https://example.com/login\n\n{\"token\": \"abc\"}\n\n> {%\nclient.global.set(\"token\", response.body.json().token)\n%}\n",
    );
    let mut rng = Rng::new();
    let resolved = resolve_request(
        &doc.requests[0],
        &TextMap::new(),
        &TextMap::new(),
        &TextMap::new(),
        &TextMap::new(),
        &TextMap::new(),
        &mut rng,
    )
    .unwrap();
    let response = ResponseData {
        status: 200,
        protocol: "HTTP/1.1".to_string(),
        status_text: "OK".to_string(),
        headers: vec![("Content-Type".to_string(), "application/json".to_string())],
        redirects: Vec::new(),
        body: b"{\"token\": \"abc\"}".to_vec(),
        elapsed_ms: 5,
    };
    let mut state = RunState::default();
    process_response(&resolved, &response, &mut state);
    assert_eq!(state.globals.get("token"), Some(&text("abc")));
}

#[test]
fn pre_request_scripts_apply_globals_and_headers() {
    let doc = parse(
        "< {%\nclient.global.set(\"token\", \"abc\")\nclient.global.headers.set(\"Authorization\", client.global.get(\"token\"))\n%}\nGET https://example.com\n",
    );
    let mut state = RunState::default();
    process_pre_request(&doc.requests[0], &mut state);
    let mut rng = Rng::new();
    let resolved = resolve_request(
        &doc.requests[0],
        &TextMap::new(),
        &TextMap::new(),
        &state.globals,
        &state.global_headers,
        &TextMap::new(),
        &mut rng,
    )
    .unwrap();
    assert_eq!(state.globals.get("token"), Some(&text("abc")));
    assert_eq!(
        resolved.headers,
        vec![("Authorization".to_string(), "abc".to_string())]
    );
}

#[test]
fn request_headers_replace_global_headers() {
    let mut global_headers = TextMap::new();
    global_headers.insert("Accept".to_string(), "a".to_string());
    global_headers.insert("X-Token".to_string(), "t".to_string());
    let resolved = resolve("GET /x\nx-token: own\nOther: o\n", &global_headers).unwrap();
    assert_eq!(
        resolved.headers,
        vec![
            ("Accept".to_string(), "a".to_string()),
            ("x-token".to_string(), "own".to_string()),
            ("Other".to_string(), "o".to_string()),
        ]
    );
}

#[test]
fn resolution_reports_the_first_error() {
    let none = TextMap::new();
    assert_eq!(
        resolve("GET /{{a}}\nX: {{b}}\n", &none).unwrap_err(),
        "unresolved variable: {{a}}"
    );
    assert_eq!(
        resolve("GET /\nX: {{b}}\n\n{{c}}\n", &none).unwrap_err(),
        "unresolved variable: {{b}}"
    );
    assert_eq!(
        resolve("GET /\n\n{{c}}\n", &none).unwrap_err(),
        "unresolved variable: {{c}}"
    );
}

#[test]
fn resolution_carries_the_tags_over() {
    let resolved = resolve(
        "### n\n# @no-redirect\n# @timeout 3\n# @connection-timeout 4\nPUT /x\n> h.js\n>> o\n",
        &TextMap::new(),
    )
    .unwrap();
    assert_eq!(resolved.name, "n");
    assert_eq!(resolved.method, "PUT");
    assert!(!resolved.follow_redirects);
    assert_eq!(resolved.timeout_secs, Some(3));
    assert_eq!(resolved.connection_timeout_secs, Some(4));
    assert!(resolved.handler.is_some());
    assert!(resolved.redirect_to.is_some());
    assert_eq!(resolved.clone(), resolved);
}

#[test]
fn finds_headers_whatever_their_case() {
    let r = response(&[("X-A", "1"), ("x-a", "2"), ("ÄÖ", "3")], b"caf\xc3\xa9");
    assert_eq!(r.header("x-A"), Some("1"));
    assert_eq!(r.header("äö"), Some("3"));
    assert_eq!(r.header("none"), None);
    assert_eq!(r.body_text(), "café");
    assert_eq!(r.clone(), r);
}

#[test]
fn scripts_in_files_are_not_run() {
    let resolved = resolve("GET /x\n> handler.js\n", &TextMap::new()).unwrap();
    let mut state = RunState::default();
    process_response(&resolved, &response(&[], b""), &mut state);
    assert!(state.globals.is_empty());
    assert!(state.logs.is_empty());
    assert!(state.handler_errors.is_empty());
}

#[test]
fn scripts_add_to_the_state() {
    let mut state = RunState::default();
    process_handler(
        "client.log('a')\nclient.assert(1 == 2, 'e')\nclient.global.headers.set('X-A', 1)\nclient.global.headers.set('x-a', 2)",
        0,
        &[],
        &[],
        &mut state,
    );
    assert_eq!(state.global_headers.len(), 2);
    process_handler(
        "client.log('b')\nclient.global.headers.set('X-a', null)\nclient.global.set('g', 1)",
        0,
        &[],
        &[],
        &mut state,
    );
    assert_eq!(state.logs, vec!["a", "b"]);
    assert_eq!(state.handler_errors, vec!["e"]);
    assert!(state.global_headers.is_empty());
    assert!(state.globals.contains_key("g"));
    assert_eq!(state.clone().logs, state.logs);
}

#[test]
fn scripts_see_the_headers_of_the_response() {
    let r = response(&[("X-A", "1"), ("x-a", "2")], b"");
    for name in ["x-a", "X-A", "none"] {
        let seen = eval(
            &format!("response.headers.valueOf('{name}')"),
            r.status,
            &r.headers,
            &r.body,
        );
        let value = match r.header(name) {
            Some(value) => text(value),
            None => JsonValue::Null,
        };
        assert_eq!(seen, Ok(value));
    }
}
