# HTTP Client CLI

Run `.http` and `.rest` HTTP request files from the terminal, CI, or editor task integrations.

```
http-client run examples/demo.http --line 5
http-client run examples/demo.http --name "Create resource"
http-client run examples/demo.http --all
http-client list examples/demo.http
http-client env examples/demo.http dev
```

Use `http-client.env.json` for public values and `http-client.private.env.json` for secrets. Select an environment with `http-client env <file> <name>` or set `HTTP_CLIENT_ENV`. `--no-env` ignores the persisted selection.

Runtime artifacts (the selected environment, cookies, globals, saved responses, the request log) are kept under `.http-client/` in the project root. Cookies are kept in curl's cookie-jar format: matching ones are sent on later requests, and the jar is updated from `Set-Cookie` responses. An explicit `Cookie` header in a request takes precedence for that request: the jar is then neither sent nor changed. `--no-cookies` disables cookie loading and persistence.

Inline response handlers (`> {% ... %}`) and pre-request scripts (`< {% ... %}`) support `client.global.set/get/clear/clearAll/isEmpty`, `client.global.headers.set`, `client.log`, `client.exit`, `client.test`, and `client.assert`. Arbitrary JavaScript control flow and external script files are not executed.

## Layout

- `src/` is the library, verified with Verus: the parser of `.http` files, variable substitution, environments, the script subset, request resolution, response formatting, and the decisions of the command line. Each function states what it returns; what holds across functions stands as public proof functions at the end of each module.
- `app/` is the program around it: arguments, files, curl.
- `tests/` runs the library from outside.

What the library takes from elsewhere without proof is `serde_json` (reading and printing JSON, in `src/json.rs`), the Unicode tables and UTF-8 decoding of the standard library (in `src/text.rs`), and the clock (in `src/rng.rs`).
