use http_client_core::json::parse_json;
use http_client_core::json::JsonValue;
use http_client_core::map::TextMap;
use http_client_core::rng::Rng;
use http_client_core::vars::parse_int_args;
use http_client_core::vars::parse_len_arg;
use http_client_core::vars::random_float;
use http_client_core::vars::resolve_path;
use http_client_core::vars::substitute;
use http_client_core::vars::substitute_at;
use http_client_core::vars::VarContext;

fn leak(map: TextMap<JsonValue>) -> &'static TextMap<JsonValue> {
    Box::leak(Box::new(map))
}

fn no_env() -> &'static TextMap<String> {
    Box::leak(Box::new(TextMap::new()))
}

fn text(s: &str) -> JsonValue {
    JsonValue::String(s.to_string())
}

fn map(entries: &[(&str, JsonValue)]) -> TextMap<JsonValue> {
    let mut out = TextMap::new();
    for (key, value) in entries {
        out.insert(key.to_string(), value.clone());
    }
    out
}

fn test_context() -> VarContext<'static> {
    let env = map(&[
        ("host", text("env-host")),
        (
            "client",
            parse_json("{\"host\": {\"url\": \"https://env.example.com\"}}").unwrap(),
        ),
    ]);
    let global = map(&[("token", text("global-token"))]);
    let file = map(&[("host", text("file-host"))]);
    let request = map(&[("user", text("req-user"))]);
    VarContext {
        env: leak(env),
        global: leak(global),
        file: leak(file),
        request: leak(request),
        system_env: no_env(),
    }
}

fn fixed(input: &str) -> Result<String, String> {
    substitute_at(input, &test_context(), &mut Rng::from_nanos(1), 951782400)
}

#[test]
fn resolves_in_documented_priority_order() {
    let ctx = test_context();
    let mut rng = Rng::new();
    assert_eq!(
        substitute("https://{{host}}/api", &ctx, &mut rng).unwrap(),
        "https://env-host/api"
    );
    assert_eq!(
        substitute("Bearer {{token}}", &ctx, &mut rng).unwrap(),
        "Bearer global-token"
    );
    assert_eq!(substitute("{{user}}", &ctx, &mut rng).unwrap(), "req-user");
}

#[test]
fn resolves_dotted_paths() {
    let ctx = test_context();
    let mut rng = Rng::new();
    assert_eq!(
        substitute("{{client.host.url}}/api", &ctx, &mut rng).unwrap(),
        "https://env.example.com/api"
    );
}

#[test]
fn resolves_dynamic_variables() {
    let ctx = test_context();
    let mut rng = Rng::new();
    let uuid = substitute("{{$uuid}}", &ctx, &mut rng).unwrap();
    assert_eq!(uuid.len(), 36);
    let timestamp: u64 = substitute("{{$timestamp}}", &ctx, &mut rng)
        .unwrap()
        .parse()
        .unwrap();
    assert!(timestamp > 1_500_000_000);
    let int: i64 = substitute("{{$random.integer(10, 20)}}", &ctx, &mut rng)
        .unwrap()
        .parse()
        .unwrap();
    assert!((10..20).contains(&int));
}

#[test]
fn resolves_system_env() {
    let empty = TextMap::new();
    let mut system_env = TextMap::new();
    system_env.insert("USER".to_string(), "admin".to_string());
    let ctx = VarContext {
        env: &empty,
        global: &empty,
        file: &empty,
        request: &empty,
        system_env: &system_env,
    };
    let mut rng = Rng::new();
    assert_eq!(
        substitute("{{$env.USER}}", &ctx, &mut rng).unwrap(),
        "admin"
    );
    assert_eq!(
        substitute("{{$processEnv.USER}}", &ctx, &mut rng).unwrap(),
        "admin"
    );
    assert_eq!(
        substitute("{{$env.HOME}}", &ctx, &mut rng).unwrap_err(),
        "unresolved environment variable: HOME"
    );
}

#[test]
fn reports_unresolved_variables() {
    let ctx = test_context();
    let mut rng = Rng::new();
    assert!(substitute("{{missing}}", &ctx, &mut rng).is_err());
}

#[test]
fn substitutes_recursively() {
    let empty = TextMap::new();
    let file = map(&[("a", text("{{b}}")), ("b", text("done"))]);
    let ctx = VarContext {
        env: &empty,
        global: &empty,
        file: leak(file),
        request: &empty,
        system_env: no_env(),
    };
    let mut rng = Rng::new();
    assert_eq!(substitute("{{a}}", &ctx, &mut rng).unwrap(), "done");
}

#[test]
fn names_the_unresolved_variable() {
    assert_eq!(
        fixed("a {{ missing }} b").unwrap_err(),
        "unresolved variable: {{missing}}"
    );
    assert_eq!(
        fixed("{{$nothing}}").unwrap_err(),
        "unknown dynamic variable: {{$nothing}}"
    );
}

#[test]
fn keeps_text_without_placeholders() {
    assert_eq!(fixed("plain } text {").unwrap(), "plain } text {");
    assert_eq!(fixed("open {{host").unwrap(), "open {{host");
    assert_eq!(fixed("").unwrap(), "");
}

#[test]
fn draws_dynamic_values_from_the_generator() {
    assert_eq!(
        fixed("{{$uuid}}").unwrap(),
        "6442061a-1320-4f07-8cd6-bef40fa6795c"
    );
    assert_eq!(fixed("{{$random.uuid}}"), fixed("{{$uuid}}"));
    assert_eq!(fixed("{{$timestamp}}").unwrap(), "951782400");
    assert_eq!(fixed("{{$isoTimestamp}}").unwrap(), "2000-02-29T00:00:00Z");
    assert_eq!(fixed("{{$randomInt}}").unwrap(), "668");
    assert_eq!(fixed("{{$random.integer(10, 20)}}").unwrap(), "18");
    assert_eq!(fixed("{{$random.integer}}").unwrap(), "668");
    assert_eq!(fixed("{{$random.float}}").unwrap(), "28.0628");
    assert_eq!(fixed("{{$random.float(-5, 7)}}").unwrap(), "-4.6632");
    assert_eq!(fixed("{{$random.float(5, -3)}}").unwrap(), "4.7755");
    assert_eq!(fixed("{{$random.alphabetic(8)}}").unwrap(), "KqMTsjnF");
    assert_eq!(fixed("{{$random.alphanumeric(8)}}").unwrap(), "pZ7OKbQQ");
    assert_eq!(fixed("{{$random.hexadecimal(8)}}").unwrap(), "4c2da957");
    assert_eq!(fixed("{{$random.email}}").unwrap(), "pz7okbqq@example.org");
}

#[test]
fn reports_bad_arguments_of_dynamic_variables() {
    assert_eq!(
        fixed("{{$random.integer(5, 5)}}").unwrap_err(),
        "empty random range"
    );
    assert_eq!(
        fixed("{{$random.alphabetic(0)}}").unwrap_err(),
        "length must be greater than 0"
    );
    assert_eq!(
        fixed("{{$random.hexadecimal(x)}}").unwrap_err(),
        "invalid length argument: x"
    );
    assert_eq!(parse_int_args("(1, x)", 0, 1000), (1, 1000));
    assert_eq!(parse_int_args("( -3 )", 0, 1000), (-3, 1000));
    assert_eq!(parse_int_args("", 0, 1000), (0, 1000));
    assert_eq!(parse_int_args("(,7)", 0, 1000), (0, 7));
    assert_eq!(parse_len_arg("((12))"), Ok(12));
}

#[test]
fn floats_are_those_of_double_precision() {
    let cases: [(i64, i64); 9] = [
        (0, 1000),
        (-1000, 1000),
        (7, 7),
        (3, -9),
        (0, 1),
        (i64::MAX - 1, i64::MAX),
        (i64::MIN, -1),
        (-1, 0),
        (1234567890123456789, 1234567890123999999),
    ];
    let draws: [u64; 7] = [
        0,
        1,
        u64::MAX,
        u64::MAX / 2,
        0x8000_0000_0000_0000,
        517667748583981668,
        12345678901234567890,
    ];
    for (lo, hi) in cases {
        for x in draws {
            let value = lo as f64 + x as f64 / u64::MAX as f64 * (hi - lo) as f64;
            assert_eq!(random_float(lo, hi, x), format!("{value:.4}"));
        }
    }
}

#[test]
fn follows_paths_into_values() {
    let scope = map(&[(
        "users",
        parse_json("[{\"name\": \"Ada\", \"a.b\": 1}, {\"name\": \"Lin\"}]").unwrap(),
    )]);
    assert_eq!(resolve_path(&scope, "users[1].name"), Some(&text("Lin")));
    assert!(resolve_path(&scope, "users[0].['a.b']").is_some());
    assert!(resolve_path(&scope, "users[0][\"a.b\"]").is_some());
    assert!(resolve_path(&scope, "users[2].name").is_none());
    assert!(resolve_path(&scope, "users.name").is_none());
    assert!(resolve_path(&scope, "[0]").is_none());
    assert!(resolve_path(&scope, "...").is_none());
    assert!(resolve_path(&scope, "").is_none());
}

#[test]
fn values_are_substituted_as_text() {
    let empty = TextMap::new();
    let file = map(&[
        ("n", parse_json("1.50").unwrap()),
        ("z", JsonValue::Null),
        ("o", parse_json("{\"k\": [true]}").unwrap()),
        ("a.b", text("exact")),
    ]);
    let ctx = VarContext {
        env: &empty,
        global: &empty,
        file: &file,
        request: &empty,
        system_env: no_env(),
    };
    let mut rng = Rng::from_nanos(1);
    assert_eq!(
        substitute_at("{{n}} {{z}} {{o}} {{a.b}}", &ctx, &mut rng, 0).unwrap(),
        "1.5 null {\"k\":[true]} exact"
    );
}

#[test]
fn a_cycle_ends_after_ten_rounds() {
    let empty = TextMap::new();
    let file = map(&[("a", text("{{b}}")), ("b", text("{{a}}")), ("s", text("{{s}}"))]);
    let ctx = VarContext {
        env: &empty,
        global: &empty,
        file: &file,
        request: &empty,
        system_env: no_env(),
    };
    let mut rng = Rng::from_nanos(1);
    assert_eq!(substitute_at("{{a}}", &ctx, &mut rng, 0).unwrap(), "{{a}}");
    assert_eq!(substitute_at("{{s}}", &ctx, &mut rng, 0).unwrap(), "{{s}}");
}
