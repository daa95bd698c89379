use http_client_core::env::directory_chain;
use http_client_core::env::environment_files;
use http_client_core::env::join_path;
use http_client_core::env::load_environments;
use http_client_core::env::PRIVATE_ENV_FILE;
use http_client_core::env::COOKIE_FILE;
use http_client_core::env::GLOBALS_FILE;
use http_client_core::env::LOG_FILE;
use http_client_core::env::PUBLIC_ENV_FILE;
use http_client_core::env::RUNTIME_DIR;
use http_client_core::env::SELECTED_ENV_FILE;
use http_client_core::json::JsonValue;
use http_client_core::json::Number;
use http_client_core::map::TextMap;

fn files(entries: &[(&str, &str)]) -> TextMap<String> {
    let mut out = TextMap::new();
    for (path, text) in entries {
        out.insert(path.to_string(), text.to_string());
    }
    out
}

fn text(s: &str) -> JsonValue {
    JsonValue::String(s.to_string())
}

#[test]
fn merges_public_and_private_with_private_winning() {
    let files = files(&[
        (
            "http-client.env.json",
            r#"{"dev": {"host": "example.com", "token": "public"}, "prod": {"host": "prod.example.com"}}"#,
        ),
        (
            "http-client.private.env.json",
            r#"{"dev": {"token": "secret"}}"#,
        ),
    ]);
    let (envs, warnings) = load_environments(&files, "", "");
    assert!(warnings.is_empty());
    assert_eq!(envs.len(), 2);
    let dev = envs.iter().find(|e| e.name == "dev").unwrap();
    assert_eq!(dev.vars.get("host"), Some(&text("example.com")));
    assert_eq!(dev.vars.get("token"), Some(&text("secret")));
}

#[test]
fn nearer_files_override_farther_ones() {
    let files = files(&[
        (
            "http-client.env.json",
            r#"{"dev": {"host": "root", "port": 80}}"#,
        ),
        ("api/http-client.env.json", r#"{"dev": {"host": "near"}}"#),
    ]);
    let (envs, _) = load_environments(&files, "api", "");
    let dev = envs.iter().find(|e| e.name == "dev").unwrap();
    assert_eq!(dev.vars.get("host"), Some(&text("near")));
    assert_eq!(
        dev.vars.get("port"),
        Some(&JsonValue::Number(Number::PosInt(80)))
    );
}

#[test]
fn warns_about_invalid_files() {
    let files = files(&[("http-client.env.json", "not json")]);
    let (_, warnings) = load_environments(&files, "", "");
    assert_eq!(warnings.len(), 1);
}

#[test]
fn says_what_is_wrong_with_a_file() {
    let files = files(&[
        ("http-client.env.json", r#"{"a": 1, "b": {"x": 2}}"#),
        ("http-client.private.env.json", "[]"),
    ]);
    let (envs, warnings) = load_environments(&files, "", "");
    assert_eq!(
        warnings,
        vec![
            "http-client.env.json: environment `a` must be a JSON object",
            "http-client.private.env.json: not a valid environment file",
        ]
    );
    assert_eq!(envs.len(), 1);
    assert_eq!(envs[0].name, "b");
    assert_eq!(envs[0].clone(), envs[0]);
}

#[test]
fn lists_environments_by_name() {
    let files = files(&[
        ("http-client.env.json", r#"{"m": {}, "a": {}}"#),
        ("http-client.private.env.json", r#"{"z": {"k": "v"}, "b": {}}"#),
    ]);
    let (envs, _) = load_environments(&files, "", "");
    let names: Vec<&str> = envs.iter().map(|e| e.name.as_str()).collect();
    assert_eq!(names, vec!["a", "b", "m", "z"]);
    assert_eq!(envs[3].vars.get("k"), Some(&text("v")));
}

#[test]
fn private_values_win_over_nearer_public_ones() {
    let files = files(&[
        ("http-client.private.env.json", r#"{"dev": {"k": "private"}}"#),
        ("api/http-client.env.json", r#"{"dev": {"k": "public"}}"#),
    ]);
    let (envs, _) = load_environments(&files, "api", "");
    assert_eq!(envs[0].vars.get("k"), Some(&text("private")));
}

#[test]
fn walks_from_the_root_down() {
    assert_eq!(directory_chain("", ""), vec![""]);
    assert_eq!(directory_chain("", "a//b"), vec!["", "a", "a/b"]);
    assert_eq!(directory_chain("r", "r/a/b"), vec!["r", "r/a", "r/a/b"]);
    assert_eq!(directory_chain("r", "r"), vec!["r"]);
    assert_eq!(directory_chain("r", "x"), vec!["r", "r/x"]);
    assert_eq!(join_path("", "f"), "f");
    assert_eq!(join_path("d", "f"), "d/f");
    assert_eq!(
        environment_files("a", ""),
        vec![
            PUBLIC_ENV_FILE.to_string(),
            PRIVATE_ENV_FILE.to_string(),
            format!("a/{PUBLIC_ENV_FILE}"),
            format!("a/{PRIVATE_ENV_FILE}"),
        ]
    );
}

#[test]
fn names_the_runtime_artifacts() {
    assert_eq!(RUNTIME_DIR, ".http-client");
    assert_eq!(SELECTED_ENV_FILE, "http-client-env");
    assert_eq!(COOKIE_FILE, "http-client.cookies");
    assert_eq!(GLOBALS_FILE, "http-client-globals.json");
    assert_eq!(LOG_FILE, "http-requests-log.http");
}
