use http_client_core::cli::available_line;
use http_client_core::cli::env_action;
use http_client_core::cli::environment_choice;
use http_client_core::cli::environment_line;
use http_client_core::cli::lacks_environment;
use http_client_core::cli::list_line;
use http_client_core::cli::parse_env_args;
use http_client_core::cli::parse_run_args;
use http_client_core::cli::project_root;
use http_client_core::cli::relative_dir;
use http_client_core::cli::select_environment;
use http_client_core::cli::select_requests;
use http_client_core::cli::EnvAction;
use http_client_core::cli::RunOptions;
use http_client_core::env::Environment;
use http_client_core::json::JsonValue;
use http_client_core::map::TextMap;
use http_client_core::parser::parse;

fn strings(items: &[&str]) -> Vec<String> {
    items.iter().map(|s| s.to_string()).collect()
}

fn options(args: &[&str]) -> Result<RunOptions, String> {
    parse_run_args(&strings(args), None)
}

fn environments(names: &[&str]) -> Vec<Environment> {
    names
        .iter()
        .map(|name| Environment {
            name: name.to_string(),
            vars: TextMap::new(),
        })
        .collect()
}

fn select(args: &[&str]) -> Result<Vec<usize>, String> {
    let doc = parse("### a\nGET /a\n\n### b\nX: 1\nGET /b\n\n###\nGET /c\n");
    select_requests(&doc.requests, &options(args).unwrap())
}

#[test]
fn reads_all_options() {
    assert_eq!(
        options(&[
            "--name", "n", "--index", "2", "--line", "7", "--env", "dev", "--root", "r", "--curl",
            "c", "--all", "--no-env", "--fail-on-http-error", "--no-cookies", "f.http",
        ]),
        Ok(RunOptions {
            file: "f.http".to_string(),
            name: Some("n".to_string()),
            index: Some(2),
            line: Some(7),
            all: true,
            env_name: Some("dev".to_string()),
            no_env: true,
            root: Some("r".to_string()),
            curl: "c".to_string(),
            fail_on_http_error: true,
            no_cookies: true,
        })
    );
    assert_eq!(options(&["f"]).unwrap().curl, "curl");
    let with_env = parse_run_args(&strings(&["f"]), Some("my-curl".to_string()));
    assert_eq!(with_env.unwrap().curl, "my-curl");
}

#[test]
fn refuses_bad_options() {
    let error = |args: &[&str]| options(args).unwrap_err();
    assert_eq!(error(&[]), "missing file argument");
    assert_eq!(error(&["f", "--name"]), "--name requires a value");
    assert_eq!(error(&["--index", "x"]), "--index expects a number");
    assert_eq!(error(&["--line", "x"]), "--line expects a number");
    assert_eq!(error(&["--line", "0"]), "--line expects a one-based line number");
    assert_eq!(error(&["--other"]), "unknown option: --other");
    assert_eq!(error(&["a", "b"]), "unexpected argument: b");
}

#[test]
fn selects_requests() {
    assert_eq!(select(&["f", "--all"]), Ok(vec![0, 1, 2]));
    assert_eq!(select(&["f", "--name", "b"]), Ok(vec![1]));
    assert_eq!(select(&["f", "--name", "#3"]), Ok(vec![2]));
    assert_eq!(select(&["f", "--name", "#1"]), Ok(vec![0]));
    assert_eq!(select(&["f", "--index", "2"]), Ok(vec![2]));
    assert_eq!(select(&["f", "--line", "1"]), Ok(vec![0]));
    assert_eq!(select(&["f", "--line", "5"]), Ok(vec![1]));
    assert_eq!(select(&["f", "--line", "9"]), Ok(vec![2]));
}

#[test]
fn reports_what_cannot_be_selected() {
    assert_eq!(select(&["f", "--name", "z"]), Err("no request named `z`".to_string()));
    assert_eq!(select(&["f", "--name", "#4"]), Err("no request named `#4`".to_string()));
    assert_eq!(select(&["f", "--name", "#0"]), Err("no request named `#0`".to_string()));
    assert_eq!(select(&["f", "--index", "3"]), Err("no request at index 3".to_string()));
    assert_eq!(select(&["f", "--line", "99"]), Err("no request at line 98".to_string()));
    assert_eq!(
        select(&["f"]),
        Err("specify --name, --index, --line or --all".to_string())
    );
    let mut zero = options(&["f"]).unwrap();
    zero.line = Some(0);
    assert_eq!(
        select_requests(&parse("GET /a\n").requests, &zero),
        Err("line numbers start at 1".to_string())
    );
}

#[test]
fn a_single_request_needs_no_selection() {
    let doc = parse("GET /a\n");
    assert_eq!(
        select_requests(&doc.requests, &options(&["f"]).unwrap()),
        Ok(vec![0])
    );
}

#[test]
fn selects_environments_in_order() {
    let known = environments(&["dev", "prod", "test"]);
    let text = |s: &str| Some(s.to_string());
    let select = |args: &[&str], variable: Option<String>, persisted: Option<String>| {
        select_environment(&options(args).unwrap(), variable, persisted, &known)
    };
    assert_eq!(
        select(&["f", "--env", "dev"], text("prod"), text("test")),
        Ok(text("dev"))
    );
    assert_eq!(select(&["f"], text("prod"), text("test")), Ok(text("prod")));
    assert_eq!(select(&["f"], None, text(" test\n")), Ok(text("test")));
    assert_eq!(select(&["f"], None, text(" \n")), Ok(None));
    assert_eq!(select(&["f"], None, None), Ok(None));
    assert_eq!(select(&["f", "--no-env"], None, text("test")), Ok(None));
    assert_eq!(
        select(&["f", "--no-env", "--env", "dev"], None, text("test")),
        Ok(text("dev"))
    );
    assert_eq!(
        select(&["f", "--no-env"], text("prod"), text("test")),
        Ok(text("prod"))
    );
    assert!(lacks_environment(&None, &known));
    assert!(!lacks_environment(&text("dev"), &known));
    assert!(!lacks_environment(&None, &[]));
    assert_eq!(
        select(&["f", "--env", "x"], None, None),
        Err("environment `x` not found (available: dev, prod, test)".to_string())
    );
}

#[test]
fn env_decides_what_to_do() {
    let known = environments(&["dev", "prod"]);
    let text = |s: &str| Some(s.to_string());
    assert_eq!(env_action(None, &known), EnvAction::List);
    assert_eq!(env_action(text("dev"), &known), EnvAction::Persist("dev".to_string()));
    assert_eq!(env_action(text("x"), &known), EnvAction::Unknown("x".to_string()));
    assert_eq!(env_action(text(""), &known), EnvAction::Nothing);
    assert_eq!(environment_choice(" 2\n", &known), "prod");
    assert_eq!(environment_choice("0", &known), "dev");
    assert_eq!(environment_choice("3", &known), "3");
    assert_eq!(environment_choice("dev", &known), "dev");
    let args = parse_env_args(&strings(&["--select", "dev", "prod"]));
    assert!(args.interactive);
    assert_eq!(args.name, text("dev"));
    let none = parse_env_args(&[]);
    assert!(!none.interactive);
    assert_eq!(none.name, None);
}

#[test]
fn shows_requests_and_environments() {
    let doc = parse("### größe\nGET /a\n");
    assert_eq!(
        list_line(&doc.requests[0]),
        format!("#{:<3} {:<24} {:<8} {}", 0, "größe", "GET", "/a")
    );
    assert_eq!(available_line(&doc.requests[0]), "  #0  größe  GET /a");
    let mut vars = TextMap::new();
    vars.insert("b".to_string(), JsonValue::Null);
    vars.insert("a".to_string(), JsonValue::Null);
    let env = Environment {
        name: "dev".to_string(),
        vars,
    };
    assert_eq!(environment_line(&env), "dev: a, b");
}

#[test]
fn finds_the_project_root() {
    let dirs = |flags: &[bool]| -> Vec<(String, bool)> {
        flags
            .iter()
            .enumerate()
            .map(|(i, f)| (format!("d{i}"), *f))
            .collect()
    };
    assert_eq!(project_root(None, &dirs(&[false, true, true])), Ok("d1".to_string()));
    assert_eq!(project_root(None, &dirs(&[false, false])), Ok("d0".to_string()));
    assert_eq!(
        project_root(None, &[]),
        Err("file has no parent directory".to_string())
    );
    assert_eq!(
        project_root(Some("r".to_string()), &dirs(&[true])),
        Ok("r".to_string())
    );
    assert_eq!(relative_dir(Some("a\\b/c")), "a/b/c");
    assert_eq!(relative_dir(None), "");
}
