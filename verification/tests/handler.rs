use http_client_core::handler::apply_global_changes;
use http_client_core::handler::eval;
use http_client_core::handler::extract_assertion;
use http_client_core::handler::extract_function_body;
use http_client_core::handler::is_complete_statement;
use http_client_core::handler::parse_call_args;
use http_client_core::handler::parse_string_literal;
use http_client_core::handler::run_response_handler;
use http_client_core::handler::run_response_handler_with_globals;
use http_client_core::handler::GlobalChange;
use http_client_core::handler::HeaderChange;
use http_client_core::json::parse_json;
use http_client_core::json::print_json;
use http_client_core::json::JsonValue;
use http_client_core::json::Number;
use http_client_core::map::TextMap;

fn headers(pairs: &[(&str, &str)]) -> Vec<(String, String)> {
    pairs
        .iter()
        .map(|(name, value)| (name.to_string(), value.to_string()))
        .collect()
}

fn text(s: &str) -> JsonValue {
    JsonValue::String(s.to_string())
}

fn number(n: u64) -> JsonValue {
    JsonValue::Number(Number::PosInt(n))
}

fn value(expr: &str, body: &[u8]) -> Result<JsonValue, String> {
    eval(
        expr,
        200,
        &headers(&[("X-A", "1"), ("x-a", "2"), ("Content-Type", "t")]),
        body,
    )
}

fn error(expr: &str) -> String {
    value(expr, b"{}").unwrap_err()
}

#[test]
fn sets_global_from_json_body() {
    let script = r#"client.global.set("token", response.body.json().token)"#;
    let body = br#"{"token": "abc123"}"#;
    let result = run_response_handler(
        script,
        200,
        &headers(&[("Content-Type", "application/json")]),
        body,
    );
    assert_eq!(
        result.globals,
        vec![GlobalChange::Assign("token".to_string(), text("abc123"))]
    );
    assert!(result.errors.is_empty());
}

#[test]
fn preserves_integer_literals_as_json_integers() {
    let result = run_response_handler(r#"client.global.set("test", 1);"#, 200, &[], b"");
    assert_eq!(
        result.globals,
        vec![GlobalChange::Assign("test".to_string(), number(1))]
    );
    assert!(result.errors.is_empty());
}

#[test]
fn logs_status_and_headers() {
    let script =
        "client.log(response.status)\nclient.log(response.headers.valueOf(\"Set-Cookie\"))";
    let result = run_response_handler(script, 201, &headers(&[("Set-Cookie", "a=1")]), b"");
    assert_eq!(result.logs, vec!["201".to_string(), "a=1".to_string()]);
}

#[test]
fn supports_index_and_nested_access() {
    let body = br#"{"users": [{"name": "Ada"}, {"name": "Lin"}]}"#;
    let script = r#"client.global.set("second", response.body.json().users[1].name)"#;
    let result = run_response_handler(script, 200, &[], body);
    assert_eq!(
        result.globals,
        vec![GlobalChange::Assign("second".to_string(), text("Lin"))]
    );
}

#[test]
fn ignores_unsupported_statements() {
    let script = "client.test(\"ok\", function() { client.assert(response.status === 200) })";
    let result = run_response_handler(script, 200, &[], b"");
    assert!(result.globals.is_empty());
    assert!(result.errors.is_empty());
}

#[test]
fn manages_globals_headers_and_tests() {
    let mut globals = TextMap::new();
    globals.insert("old".to_string(), number(1));
    let script = r#"
client.global.set("token", "abc")
client.global.set("copied", client.global.get("token"))
client.global.clear("old")
client.global.headers.set("Authorization", client.global.get("copied"))
client.test("created", function() { client.assert(response.status === 201, "expected created") })
"#;
    let result = run_response_handler_with_globals(script, 201, &[], b"", &globals);
    assert_eq!(
        result.globals,
        vec![
            GlobalChange::Assign("token".to_string(), text("abc")),
            GlobalChange::Assign("copied".to_string(), text("abc")),
            GlobalChange::Clear("old".to_string()),
        ]
    );
    assert_eq!(
        result.headers,
        vec![HeaderChange::Assign(
            "Authorization".to_string(),
            "abc".to_string()
        )]
    );
    assert!(result.errors.is_empty());
}

#[test]
fn supports_multiline_tests() {
    let script = r#"
client.test("created", function() {
    client.assert(response.status === 201, "expected created")
})
"#;
    let result = run_response_handler(script, 201, &[], b"");
    assert!(result.errors.is_empty());
}

#[test]
fn completes_a_multiline_test_with_an_unsupported_statement() {
    let script = r#"
client.global.set("createdUrl", response.body.json().url);
client.log(response.status);

client.test("测试",function(){
  client.assets(1===2,"test");
  client.global.set("test",response.body.json().origin);
  client.global.set("status",response.status);
  client.global.set("bool",true);
});
"#;
    let result = run_response_handler(
        script,
        200,
        &[],
        br#"{"url":"https://example.com","origin":"127.0.0.1"}"#,
    );
    assert!(result.errors.is_empty());
    assert_eq!(
        result.globals,
        vec![
            GlobalChange::Assign("createdUrl".to_string(), text("https://example.com")),
            GlobalChange::Assign("test".to_string(), text("127.0.0.1")),
            GlobalChange::Assign("status".to_string(), number(200)),
            GlobalChange::Assign("bool".to_string(), JsonValue::Bool(true)),
        ]
    );
}

#[test]
fn skips_blank_and_comment_lines_without_looping() {
    let result = run_response_handler(
        "client.log(response.status)\n\n// separator\n# another separator\nclient.log(response.status)",
        200,
        &[],
        b"",
    );
    assert_eq!(result.logs, vec!["200".to_string(), "200".to_string()]);
}

#[test]
fn reports_a_failed_test_once() {
    let result = run_response_handler(
        "client.test(\"status\", function() {\nclient.assert(response.status === 201, \"expected created\")\n})",
        200,
        &[],
        b"",
    );
    assert_eq!(
        result.errors,
        vec!["test `status` failed: expected created"]
    );
}

#[test]
fn evaluates_literals_and_members() {
    assert_eq!(value("'a\\'b'", b""), Ok(text("a'b")));
    assert_eq!(value("-1.50", b"").map(|v| print_json(&v)), Ok("-1.5".to_string()));
    assert_eq!(value("-7", b""), Ok(JsonValue::Number(Number::NegInt(-7))));
    assert_eq!(value("true", b""), Ok(JsonValue::Bool(true)));
    assert_eq!(value("false", b""), Ok(JsonValue::Bool(false)));
    assert_eq!(value("null", b""), Ok(JsonValue::Null));
    assert_eq!(value("response.status", b""), Ok(number(200)));
    assert_eq!(value("response.body", "ä\u{0}".as_bytes()), Ok(text("ä\u{0}")));
    assert_eq!(value("response.body", b"\xff"), Ok(text("\u{fffd}")));
    assert_eq!(value("response.nothing", b""), Ok(JsonValue::Null));
    assert_eq!(value("response['status']", b""), Ok(number(200)));
    assert_eq!(value("response.headers['x-a']", b""), Ok(text("2")));
    assert_eq!(value("response.headers.valueOf('X-A')", b""), Ok(text("1")));
    assert_eq!(value("response.headers.valueOf('none')", b""), Ok(JsonValue::Null));
    assert_eq!(
        value("response.headers.valuesOf('X-A')", b""),
        Ok(JsonValue::Array(vec![text("1"), text("2")]))
    );
    assert_eq!(value("response.body.json()[5]", b"[1]"), Ok(JsonValue::Null));
    assert_eq!(value("response.body.json()[0]", b"[1]"), Ok(number(1)));
}

#[test]
fn reports_errors_of_expressions() {
    assert_eq!(error("'a"), "unterminated string");
    assert_eq!(error("1.2.3"), "invalid number: 1.2.3");
    assert_eq!(error("a + b"), "unexpected character: +");
    assert_eq!(error(""), "expected `response` or a literal");
    assert_eq!(error("other"), "expected `response` or a literal");
    assert_eq!(error("response."), "expected property after `.`");
    assert_eq!(error("response.1"), "expected property name after `.`");
    assert_eq!(
        error("response.body.json(1)"),
        "method .json() takes a single string argument"
    );
    assert_eq!(error("response.headers.valueOf('a'"), "expected `)`");
    assert_eq!(error("response["), "expected index");
    assert_eq!(error("response['a'"), "expected `]`");
    assert_eq!(error("response.status 1"), "unexpected trailing tokens");
    assert_eq!(
        error("response.status.x"),
        "cannot access property `x` on number"
    );
    assert_eq!(error("null.x"), "cannot access property `x` on null");
    assert_eq!(error("true.x"), "cannot access property `x` on boolean");
    assert_eq!(error("'s'.x"), "cannot access property `x` on string");
    assert_eq!(
        value("response.body.json().x", b"[]").unwrap_err(),
        "cannot access property `x` on array"
    );
    assert_eq!(
        value("response.body.json()[-1]", b"[]").unwrap_err(),
        "array index must be a non-negative integer"
    );
    assert_eq!(error("response[0]"), "unsupported index expression");
    assert_eq!(error("response.json()"), "unsupported method: .json()");
    assert_eq!(
        value("response.body.json()", b"no").unwrap_err(),
        "response body is not valid JSON"
    );
}

#[test]
fn reports_errors_of_statements() {
    let errors = run_response_handler(
        "client.global.set(x, 1)\nclient.global.set\nclient.global.set(\"a\", ?)\nclient.global.clearAll(1)\nclient.global.clear(a)\nclient.global.headers.set\nclient.global.headers.set(a, 1)\nclient.global.headers.set(\"a\", ?)\nclient.test\nclient.test(a, 1)\nclient.assert\nclient.assert(1 == 2, \"no\")\nclient.assert(1 != 1)\nclient.assert(1)\nclient.assert(?)\nclient.log\nclient.log(?)\nclient.log(client.global.get(a))",
        200,
        &[],
        b"",
    )
    .errors;
    assert_eq!(
        errors,
        vec![
            "first argument of client.global.set must be a string literal: client.global.set(x, 1)",
            "could not parse arguments of: client.global.set",
            "unexpected character: ? in: client.global.set(\"a\", ?)",
            "could not parse arguments of: client.global.clearAll(1)",
            "could not parse arguments of: client.global.clear(a)",
            "could not parse arguments of: client.global.headers.set",
            "header name must be a string literal: client.global.headers.set(a, 1)",
            "unexpected character: ? in: client.global.headers.set(\"a\", ?)",
            "could not parse test: client.test",
            "first argument of client.test must be a string literal: client.test(a, 1)",
            "could not parse assertion: client.assert",
            "no",
            "assertion failed",
            "assertion condition must evaluate to a boolean",
            "unexpected character: ?",
            "could not parse arguments of: client.log",
            "unexpected character: ? in: client.log(?)",
            "client.global.get requires a string literal in: client.log(client.global.get(a))",
        ]
    );
}

#[test]
fn exit_ends_the_script() {
    let result = run_response_handler(
        "client.log(1)\nclient.exit();\nclient.log(2)",
        200,
        &[],
        b"",
    );
    assert!(result.exited);
    assert_eq!(result.logs, vec!["1"]);
    let nested = run_response_handler(
        "client.test(\"t\", function() {\nclient.exit()\n})\nclient.log(2)",
        200,
        &[],
        b"",
    );
    assert!(nested.exited);
    assert!(nested.logs.is_empty());
}

#[test]
fn later_statements_see_earlier_changes() {
    let result = run_response_handler(
        "client.log(client.global.isEmpty())\nclient.global.set('a', [)\nclient.global.set('a', 'x')\nclient.log(client.global.isEmpty())\nclient.log(client.global.get('a'))\nclient.global.clearAll()\nclient.log(client.global.get('a'))",
        200,
        &[],
        b"",
    );
    assert_eq!(result.logs, vec!["true", "false", "x", "null"]);
    assert_eq!(
        result.globals,
        vec![
            GlobalChange::Assign("a".to_string(), text("x")),
            GlobalChange::ClearAll
        ]
    );
    assert_eq!(result.clone().globals, result.globals);
}

#[test]
fn null_clears_a_header() {
    let result = run_response_handler(
        "client.global.headers.set('A', 1)\nclient.global.headers.set('A', null)",
        200,
        &[],
        b"",
    );
    assert_eq!(
        result.headers,
        vec![
            HeaderChange::Assign("A".to_string(), "1".to_string()),
            HeaderChange::Clear("A".to_string())
        ]
    );
}

#[test]
fn changes_of_a_script_are_applied_in_order() {
    let mut globals = TextMap::new();
    globals.insert("a".to_string(), number(1));
    globals.insert("b".to_string(), number(2));
    let script = "client.global.clear('a')\nclient.global.set('c', 3)";
    let result = run_response_handler_with_globals(script, 200, &[], b"", &globals);
    apply_global_changes(&result.globals, &mut globals);
    assert!(globals.get("a").is_none());
    assert_eq!(globals.get("b"), Some(&number(2)));
    assert_eq!(globals.get("c"), Some(&number(3)));
    assert_eq!(globals.len(), 2);
    apply_global_changes(&[GlobalChange::ClearAll], &mut globals);
    assert!(globals.is_empty());
}

#[test]
fn other_statements_are_ignored() {
    let result = run_response_handler(
        "let x = 1;\nif (x) {\n}\nconsole.log(x)\nclient.other()",
        200,
        &[],
        b"",
    );
    assert!(result.globals.is_empty());
    assert!(result.headers.is_empty());
    assert!(result.logs.is_empty());
    assert!(result.errors.is_empty());
    assert!(!result.exited);
}

#[test]
fn equality_is_that_of_json() {
    let check = |condition: &str| {
        run_response_handler(
            &format!("client.assert({condition})"),
            200,
            &[],
            b"{\"a\": [1, {\"b\": null}], \"c\": [1, {\"b\": null}]}",
        )
        .errors
        .is_empty()
    };
    assert!(check("response.body.json().a == response.body.json().c"));
    assert!(check("1 !== 1.0"));
    assert!(check("0.0 === -0.0"));
    assert!(check("'1' != 1"));
    assert!(!check("response.status !== 200"));
}

#[test]
fn splits_statements_into_parts() {
    assert_eq!(
        parse_call_args("(\"a,b\", f(1, 2))"),
        Some(("\"a,b\"".to_string(), "f(1, 2)".to_string()))
    );
    assert_eq!(
        parse_call_args("( a )"),
        Some(("a".to_string(), String::new()))
    );
    assert_eq!(parse_call_args("a"), None);
    assert_eq!(parse_string_literal(" 'x' "), Some("x".to_string()));
    assert_eq!(parse_string_literal("\""), None);
    assert_eq!(parse_string_literal("x"), None);
    assert_eq!(extract_function_body("f() { a { b } }"), Some(" a { b } "));
    assert_eq!(extract_function_body("} {"), None);
    assert_eq!(
        extract_assertion("client.assert(a, 'm')", 0),
        Some((21, "a".to_string(), Some("m".to_string())))
    );
    assert_eq!(extract_assertion("nothing", 0), None);
    assert_eq!(extract_assertion("client.assert(a)", 17), None);
    assert!(is_complete_statement("f('(')"));
    assert!(!is_complete_statement("f({"));
    assert!(!is_complete_statement("'a\\'"));
}

#[test]
fn objects_log_as_compact_json() {
    let result = run_response_handler(
        "client.log(response.body.json())",
        200,
        &[],
        b"{\"b\": [1, 2.50, \"x\"], \"a\": {}}",
    );
    assert_eq!(result.logs, vec!["{\"a\":{},\"b\":[1,2.5,\"x\"]}"]);
    let v = parse_json("{\"b\": [1, 2.50, \"x\"], \"a\": {}}").unwrap();
    assert_eq!(v.clone(), v);
}

#[test]
fn checks_every_assertion_of_a_test() {
    let errors = |script: &str, status: u16| run_response_handler(script, status, &[], b"").errors;
    let both = "client.test(\"t\", function() {\nclient.assert(response.status === 200)\nclient.assert(response.status !== 404)\n})";
    assert!(errors(both, 200).is_empty());
    assert_eq!(errors(both, 201), vec!["test `t` failed"]);
    assert_eq!(errors(both, 404), vec!["test `t` failed", "test `t` failed"]);

    let inline = "client.test('t', () => { client.assert(response.status === 200, 'a); b'); client.assert(1 === 2, \"c\") })";
    assert_eq!(errors(inline, 200), vec!["test `t` failed: c"]);
    assert_eq!(errors(inline, 500), vec!["test `t` failed: a); b", "test `t` failed: c"]);

    let long = "client.test('t', function() {\n  client.assert(\n    response.status === 200,\n    'no (\\') ok'\n  );\n  client.assert(?)\n});";
    assert_eq!(errors(long, 200), vec!["test `t` failed: unexpected character: ?"]);
    assert_eq!(
        errors(long, 500),
        vec!["test `t` failed: no (\\') ok", "test `t` failed: unexpected character: ?"]
    );
}

#[test]
fn statements_may_follow_an_assertion() {
    let result = run_response_handler(
        "client.test('t', function() {\nclient.assert(response.status === 200)\nclient.global.set(\"a\", 1)\nclient.log('done')\n})",
        200,
        &[],
        b"",
    );
    assert!(result.errors.is_empty());
    assert_eq!(result.logs, vec!["done"]);
    assert_eq!(result.globals.len(), 1);
}

#[test]
fn passes_over_what_is_no_assertion() {
    let result = run_response_handler(
        "client.test('t', function() {\n// client.assert(1 === 2)\n// a; client.assert(1 === 2)\n# client.assert(1 === 2)\n/* client.assert(1 === 2)\n; client.assert(1 === 2) */\nclient.log('client.assert(1 === 2)')\nclient.log(\"\\\"; client.assert(1 === 2)\")\nclient.assertion(1 === 2)\n})",
        200,
        &[],
        b"",
    );
    assert!(result.errors.is_empty());
    assert_eq!(result.logs, vec!["client.assert(1 === 2)", "\"; client.assert(1 === 2)"]);
}

#[test]
fn takes_an_assertion_wherever_it_stands() {
    for before in [
        "return",
        "/* why */",
        "/*/ why */",
        "let x =",
        "x && ",
        "if (x)",
        "a / b;",
        "'a\\'b';",
        "x # y;",
        "/* a */ // b\n",
        "'open\n",
    ] {
        let function = format!("{{ {before} client.assert(1 === 2, \"m\") }}");
        let found = extract_assertion(&function, 0).map(|(_, condition, message)| (condition, message));
        assert_eq!(found, Some(("1 === 2".to_string(), Some("m".to_string()))), "{before}");
    }
    assert_eq!(
        run_response_handler(
            "client.test(\"t\", function() { return client.assert(1 === 2, \"m\") })",
            200,
            &[],
            b"",
        )
        .errors,
        vec!["test `t` failed: m"]
    );
}
