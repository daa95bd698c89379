//! A run of requests: what is sent next, and what a response does to the run.
//!
//! [`Run`] decides; whoever drives it sends the requests and hands the responses
//! back.

use vstd::prelude::*;
use vstd::string::StringExecFns;
use crate::cli::numbers;
use crate::decimal::decimal;
use crate::decimal::decimal_of;
use crate::decimal::decimal_reads_back;
use crate::env::Environment;
use crate::env::environment_models;
use crate::execute::Reply;
use crate::execute::ResolvedModel;
use crate::execute::ResolvedRequest;
use crate::execute::ResponseData;
use crate::execute::RunModel;
use crate::execute::RunState;
use crate::execute::after_script;
use crate::execute::process_pre_request;
use crate::execute::process_response;
use crate::execute::resolution;
use crate::execute::resolve_request_at;
use crate::expression::ResponseModel;
use crate::handler::ChangeModel;
use crate::handler::applied_all;
use crate::handler::script_result;
use crate::json::Json;
use crate::json::JsonValue;
use crate::json::Num;
use crate::json::Number;
use crate::json::is_plain;
use crate::json::json_parse;
use crate::json::json_pretty;
use crate::json::jsons;
use crate::json::lemma_json_of;
use crate::json::parse_json;
use crate::json::print_json_pretty;
use crate::map::TextMap;
use crate::map::lookup;
use crate::map::lookup_after_put;
use crate::map::put;
use crate::output::format_response_plain;
use crate::output::pair_lines;
use crate::output::plain_text;
use crate::parser::HandlerModel;
use crate::parser::Request;
use crate::parser::RequestModel;
use crate::parser::document;
use crate::parser::document_reads_back;
use crate::parser::is_plain_body_line;
use crate::parser::is_plain_header;
use crate::parser::is_plain_target;
use crate::parser::request_models;
use crate::parser::written_request;
use crate::rng::Rng;
use crate::text::as_lines;
use crate::text::concat3;
use crate::text::has_prefix;
use crate::text::is_line;
use crate::text::is_trimmed;
use crate::text::join;
use crate::text::lossy_text;
use crate::text::owned;
use crate::text::same;
use crate::text::shows;
use crate::text::shows_behind;
use crate::text::starts_with;
use crate::text::text_option;
use crate::text::text_pairs;
use crate::text::texts;
use crate::text::trimmed_text_is_kept;
use crate::vars::Scopes;
use crate::vars::scope_value;
use crate::vars::variable_value;

verus! {

broadcast use lemma_json_of;

// ---------------------------------------------------------------------------
// The variables of a run
// ---------------------------------------------------------------------------

/// The in-place variables of a file. A later one overrides an earlier one of the
/// same name.
pub open spec fn file_scope(variables: Seq<(Seq<char>, Seq<char>)>) -> Seq<(Seq<char>, Json)>
    decreases variables.len(),
{
    if variables.len() == 0 {
        Seq::empty()
    } else {
        put(
            file_scope(variables.drop_last()),
            variables.last().0,
            Json::Text(variables.last().1),
        )
    }
}

/// The in-place variables of a file.
pub fn file_variables(variables: &Vec<(String, String)>) -> (r: TextMap<JsonValue>)
    ensures
        r@ == file_scope(text_pairs(variables@)),
{
    let ghost all = text_pairs(variables@);
    let mut out: TextMap<JsonValue> = TextMap::new();
    for i in 0..variables.len()
        invariant
            all == text_pairs(variables@),
            out@ == file_scope(all.take(i as int)),
    {
        let v = &variables[i];
        assert(all.take(i + 1).drop_last() =~= all.take(i as int));
        assert(all.take(i + 1).last() == (v.0@, v.1@));
        out.insert(v.0.clone(), JsonValue::String(v.1.clone()));
    }
    assert(all.take(variables@.len() as int) =~= all);
    out
}

/// The variables of the first environment, from number `i` on, called `name`.
pub open spec fn environment_scope(
    environments: Seq<(Seq<char>, Seq<(Seq<char>, Json)>)>,
    name: Option<Seq<char>>,
    i: int,
) -> Seq<(Seq<char>, Json)>
    decreases environments.len() - i,
{
    if i < 0 || i >= environments.len() || name is None {
        Seq::empty()
    } else if environments[i].0 == name->0 {
        environments[i].1
    } else {
        environment_scope(environments, name, i + 1)
    }
}

/// The variables of the environment `name`; none where there is no such.
pub fn environment_variables(environments: &Vec<Environment>, name: &Option<String>) -> (r: TextMap<
    JsonValue,
>)
    ensures
        r@ == environment_scope(environment_models(environments@), text_option(*name), 0),
{
    let ghost all = environment_models(environments@);
    if let Some(wanted) = name {
        for i in 0..environments.len()
            invariant
                all == environment_models(environments@),
                text_option(*name) == Some(wanted@),
                environment_scope(all, Some(wanted@), i as int) == environment_scope(
                    all,
                    Some(wanted@),
                    0,
                ),
        {
            assert(all[i as int] == environments@[i as int]@);
            if same(environments[i].name.as_str(), wanted.as_str()) {
                return environments[i].vars.clone();
            }
        }
    }
    TextMap::new()
}

// ---------------------------------------------------------------------------
// The run
// ---------------------------------------------------------------------------

/// A run of the selected requests of a file.
pub struct Run {
    requests: Vec<Request>,
    selected: Vec<usize>,
    position: usize,
    file_vars: TextMap<JsonValue>,
    env_vars: TextMap<JsonValue>,
    system_env: TextMap<String>,
    /// Whether environments are there, but none is selected.
    lacks_environment: bool,
    fail_on_http_error: bool,
    state: RunState,
    rng: Rng,
    failed: bool,
}

/// A run.
#[verifier::ext_equal]
pub ghost struct RunnerModel {
    pub requests: Seq<RequestModel>,
    pub selected: Seq<int>,
    pub position: int,
    pub file_vars: Seq<(Seq<char>, Json)>,
    pub env_vars: Seq<(Seq<char>, Json)>,
    pub system_env: Seq<(Seq<char>, Seq<char>)>,
    pub lacks_environment: bool,
    pub fail_on_http_error: bool,
    pub state: RunModel,
    pub rng: u64,
    pub failed: bool,
}

impl View for Run {
    type V = RunnerModel;

    closed spec fn view(&self) -> RunnerModel {
        RunnerModel {
            requests: request_models(self.requests@),
            selected: numbers(self.selected@),
            position: self.position as int,
            file_vars: self.file_vars@,
            env_vars: self.env_vars@,
            system_env: self.system_env@,
            lacks_environment: self.lacks_environment,
            fail_on_http_error: self.fail_on_http_error,
            state: self.state@,
            rng: self.rng@,
            failed: self.failed,
        }
    }
}

/// What to do next.
pub enum Step {
    /// Send this request.
    Send(ResolvedRequest),
    /// Report this error and end the run.
    Stop(String),
    /// The run is over.
    Done,
}

/// What to do next.
pub ghost enum StepModel {
    Send(ResolvedModel),
    Stop(Seq<char>),
    Done,
}

impl View for Step {
    type V = StepModel;

    open spec fn view(&self) -> StepModel {
        match self {
            Step::Send(q) => StepModel::Send(q@),
            Step::Stop(e) => StepModel::Stop(e@),
            Step::Done => StepModel::Done,
        }
    }
}

/// Whether the selection names requests of the file.
pub open spec fn is_in_range(m: RunnerModel) -> bool {
    forall|k: int|
        0 <= k < m.selected.len() ==> 0 <= #[trigger] m.selected[k] < m.requests.len()
}

/// The scopes in which a request is resolved while the run is in the given state.
pub open spec fn scopes_of(m: RunnerModel, state: RunModel) -> Scopes {
    Scopes {
        env: m.env_vars,
        global: state.globals,
        file: m.file_vars,
        request: Seq::empty(),
        system_env: m.system_env,
    }
}

/// What a pre-request script sees of a response.
pub open spec fn no_response() -> ResponseModel {
    ResponseModel { status: 0, headers: Seq::empty(), body: Seq::empty() }
}

/// The report of a request that could not be resolved.
pub open spec fn resolution_report(
    name: Seq<char>,
    error: Seq<char>,
    lacks_environment: bool,
) -> Seq<char> {
    let report = "error resolving `"@ + name + "`: "@ + error;
    if starts_with(error, "unresolved variable"@) && lacks_environment {
        report + "\n  no environment selected; use `http-client env <file> <name>`"@
    } else {
        report
    }
}

/// What is done next, and the run then: the pre-request script of the next
/// request is run, and the request is resolved with what it left. An error ends
/// the run.
pub open spec fn next_step(m: RunnerModel, now: u64) -> (StepModel, RunnerModel) {
    if m.position >= m.selected.len() {
        (StepModel::Done, m)
    } else {
        let request = m.requests[m.selected[m.position]];
        let state = after_script(m.state, request.pre_request_script, no_response());
        match resolution(request, scopes_of(m, state), state.global_headers, m.rng, now) {
            (Ok(q), rng) => (
                StepModel::Send(q),
                RunnerModel { position: m.position + 1, state, rng, ..m },
            ),
            (Err(error), rng) => (
                StepModel::Stop(
                    resolution_report(request.display_name, error, m.lacks_environment),
                ),
                RunnerModel {
                    position: m.selected.len() as int,
                    state,
                    rng,
                    failed: true,
                    ..m
                },
            ),
        }
    }
}

/// What a script sees of a response.
pub open spec fn script_response(r: Reply) -> ResponseModel {
    ResponseModel { status: r.status as int, headers: r.headers, body: r.body }
}

/// The state after the response handler of a request.
pub open spec fn handled(m: RunnerModel, q: ResolvedModel, r: Reply) -> RunModel {
    after_script(m.state, q.handler, script_response(r))
}

/// What is shown of a response, with the path at which it was saved, if it was.
pub open spec fn report_text(
    state: RunModel,
    q: ResolvedModel,
    r: Reply,
    saved: Option<Seq<char>>,
) -> Seq<char> {
    plain_text(q, r, state.logs) + match saved {
        Some(path) => "\nResponse saved to "@ + path + "\n"@,
        None => Seq::empty(),
    }
}

/// The run after what was logged and reported has been shown.
pub open spec fn after_report(m: RunnerModel, r: Reply) -> RunnerModel {
    RunnerModel {
        state: RunModel { logs: Seq::empty(), handler_errors: Seq::empty(), ..m.state },
        failed: m.failed || (m.fail_on_http_error && r.status >= 400),
        ..m
    }
}

/// The run after the response to a request: its handler has been run, and what
/// was logged and reported has been shown.
pub open spec fn after_response(m: RunnerModel, q: ResolvedModel, r: Reply) -> RunnerModel {
    after_report(RunnerModel { state: handled(m, q, r), ..m }, r)
}

/// The run after a request could not be sent.
pub open spec fn after_failure(m: RunnerModel) -> RunnerModel {
    RunnerModel { position: m.selected.len() as int, failed: true, ..m }
}

/// What is shown of a response: its text, and the errors of the scripts.
pub struct Report {
    pub text: String,
    pub errors: Vec<String>,
}

impl Run {
    /// A run of the requests `selected` by their numbers; none where there is no
    /// request of such a number.
    pub fn new(
        requests: Vec<Request>,
        selected: Vec<usize>,
        file_vars: TextMap<JsonValue>,
        env_vars: TextMap<JsonValue>,
        system_env: TextMap<String>,
        lacks_environment: bool,
        fail_on_http_error: bool,
        globals: TextMap<JsonValue>,
        rng: Rng,
    ) -> (r: Option<Run>)
        ensures
            r is Some <==> forall|k: int|
                0 <= k < selected@.len() ==> (#[trigger] selected@[k]) < requests@.len(),
            r matches Some(run) ==> is_in_range(run@) && run@ == (RunnerModel {
                requests: request_models(requests@),
                selected: numbers(selected@),
                position: 0,
                file_vars: file_vars@,
                env_vars: env_vars@,
                system_env: system_env@,
                lacks_environment,
                fail_on_http_error,
                state: (RunModel { globals: globals@, ..crate::execute::empty_run() }),
                rng: rng@,
                failed: false,
            }),
    {
        for i in 0..selected.len()
            invariant
                forall|k: int| 0 <= k < i ==> (#[trigger] selected@[k]) < requests@.len(),
        {
            if selected[i] >= requests.len() {
                return None;
            }
        }
        let mut state = RunState::default();
        state.globals = globals;
        Some(
            Run {
                requests,
                selected,
                position: 0,
                file_vars,
                env_vars,
                system_env,
                lacks_environment,
                fail_on_http_error,
                state,
                rng,
                failed: false,
            },
        )
    }

    /// Decides what to do next, at the time `now` in seconds since 1970.
    pub fn next(&mut self, now: u64) -> (r: Step)
        requires
            is_in_range(old(self)@),
        ensures
            (r@, final(self)@) == next_step(old(self)@, now),
            is_in_range(final(self)@),
    {
        if self.position >= self.selected.len() {
            return Step::Done;
        }
        let index: usize = self.selected[self.position];
        assert(self@.selected[self.position as int] == index as int);
        let request = &self.requests[index];
        assert(request@ == self@.requests[index as int]);
        process_pre_request(request, &mut self.state);
        let resolved = resolve_request_at(
            request,
            &self.file_vars,
            &self.env_vars,
            &self.state.globals,
            &self.state.global_headers,
            &self.system_env,
            &mut self.rng,
            now,
        );
        match resolved {
            Ok(q) => {
                self.position = self.position + 1;
                Step::Send(q)
            },
            Err(error) => {
                let mut report = concat3(
                    "error resolving `",
                    request.display_name.as_str(),
                    "`: ",
                );
                report.append(error.as_str());
                if has_prefix(error.as_str(), "unresolved variable") && self.lacks_environment {
                    report.append(
                        "\n  no environment selected; use `http-client env <file> <name>`",
                    );
                }
                self.position = self.selected.len();
                self.failed = true;
                Step::Stop(report)
            },
        }
    }

    /// Runs the response handler of a request.
    pub fn handle(&mut self, request: &ResolvedRequest, response: &ResponseData)
        ensures
            final(self)@ == (RunnerModel {
                state: handled(old(self)@, request@, response@),
                ..old(self)@
            }),
            is_in_range(old(self)@) ==> is_in_range(final(self)@),
    {
        process_response(request, response, &mut self.state);
        assert(self@.selected == old(self)@.selected);
        assert(self@.requests == old(self)@.requests);
    }

    /// Shows a response whose handler has been run, with the path at which it was
    /// saved, if it was.
    pub fn report(
        &mut self,
        request: &ResolvedRequest,
        response: &ResponseData,
        saved: Option<&str>,
    ) -> (r: Report)
        ensures
            r.text@ == report_text(
                old(self)@.state,
                request@,
                response@,
                (match saved {
                    Some(path) => Some(path@),
                    None => None,
                }),
            ),
            texts(r.errors@) == old(self)@.state.handler_errors,
            final(self)@ == after_report(old(self)@, response@),
            is_in_range(old(self)@) ==> is_in_range(final(self)@),
    {
        let mut text = format_response_plain(request, response, self.state.logs.as_slice());
        let mut tail = String::new();
        if let Some(path) = saved {
            tail = concat3("\nResponse saved to ", path, "\n");
        }
        text.append(tail.as_str());
        let errors = self.take_errors();
        self.state.logs = Vec::new();
        if self.fail_on_http_error && response.status >= 400 {
            self.failed = true;
        }
        assert(texts(self.state.logs@) =~= Seq::empty());
        Report { text, errors }
    }

    /// Takes the errors of the scripts that have not been shown yet.
    pub fn take_errors(&mut self) -> (r: Vec<String>)
        ensures
            texts(r@) == old(self)@.state.handler_errors,
            final(self)@ == (RunnerModel {
                state: (RunModel { handler_errors: Seq::empty(), ..old(self)@.state }),
                ..old(self)@
            }),
            is_in_range(old(self)@) ==> is_in_range(final(self)@),
    {
        let mut errors: Vec<String> = Vec::new();
        std::mem::swap(&mut errors, &mut self.state.handler_errors);
        assert(texts(self.state.handler_errors@) =~= Seq::empty());
        assert(self@.selected == old(self)@.selected);
        assert(self@.requests == old(self)@.requests);
        errors
    }

    /// Ends the run: a request could not be sent.
    pub fn abort(&mut self)
        ensures
            final(self)@ == after_failure(old(self)@),
            is_in_range(old(self)@) ==> is_in_range(final(self)@),
    {
        self.position = self.selected.len();
        self.failed = true;
        assert(self@.selected == old(self)@.selected);
        assert(self@.requests == old(self)@.requests);
    }

    /// Whether something went wrong.
    pub fn has_failed(&self) -> (r: bool)
        ensures
            r == self@.failed,
    {
        self.failed
    }

    /// The text in which the globals are kept for later runs. [`read_globals`]
    /// gives them back where they hold no fraction and are not nested too deep.
    pub fn globals_text(&self) -> (r: Option<String>)
        ensures
            text_option(r) == json_pretty(Json::Object(self@.state.globals)),
            is_plain(Json::Object(self@.state.globals), 127) ==> r is Some && json_parse(r->0@)
                == Some(Json::Object(self@.state.globals)),
    {
        print_json_pretty(&JsonValue::Object(self.state.globals.clone()))
    }
}

/// Reads the globals that an earlier run kept. Whatever is no JSON object is
/// refused.
pub fn read_globals(text: &str) -> (r: Option<TextMap<JsonValue>>)
    ensures
        r matches Some(globals) ==> json_parse(text@) == Some(Json::Object(globals@)),
        r is None <==> !(json_parse(text@) matches Some(Json::Object(_))),
{
    match parse_json(text) {
        Some(JsonValue::Object(globals)) => Some(globals),
        _ => None,
    }
}

// ---------------------------------------------------------------------------
// What is written to files
// ---------------------------------------------------------------------------

/// A list of pairs as an array of arrays.
pub open spec fn pairs_json(pairs: Seq<(Seq<char>, Seq<char>)>) -> Json {
    Json::Array(
        Seq::new(
            pairs.len(),
            |i: int| Json::Array(seq![Json::Text(pairs[i].0), Json::Text(pairs[i].1)]),
        ),
    )
}

pub open spec fn texts_json(items: Seq<Seq<char>>) -> Json {
    Json::Array(Seq::new(items.len(), |i: int| Json::Text(items[i])))
}

/// The request in the record of a response.
pub open spec fn request_record(q: ResolvedModel) -> Json {
    let method = put(Seq::empty(), "method"@, Json::Text(q.method));
    let url = put(method, "url"@, Json::Text(q.url));
    Json::Object(put(url, "headers"@, pairs_json(q.headers)))
}

/// The response in the record of a response.
pub open spec fn response_record(r: Reply) -> Json {
    let protocol = put(Seq::empty(), "protocol"@, Json::Text(r.protocol));
    let status = put(protocol, "status"@, Json::Number(Num::Int(r.status as int)));
    let text = put(status, "statusText"@, Json::Text(r.status_text));
    let headers = put(text, "headers"@, pairs_json(r.headers));
    let redirects = put(headers, "redirects"@, texts_json(r.redirects));
    let body = put(redirects, "body"@, Json::Text(lossy_text(r.body)));
    Json::Object(put(body, "elapsedMs"@, Json::Number(Num::Int(r.elapsed_ms as int))))
}

/// The record of a response.
pub open spec fn record(q: ResolvedModel, r: Reply) -> Json {
    let request = put(Seq::empty(), "request"@, request_record(q));
    Json::Object(put(request, "response"@, response_record(r)))
}

fn text_value(s: &str) -> (r: JsonValue)
    ensures
        r.json() == Json::Text(s@),
{
    JsonValue::String(owned(s))
}

fn pairs_value(pairs: &Vec<(String, String)>) -> (r: JsonValue)
    ensures
        r.json() == pairs_json(text_pairs(pairs@)),
{
    let ghost all = pairs_json(text_pairs(pairs@))->Array_0;
    let mut out: Vec<JsonValue> = Vec::new();
    for i in 0..pairs.len()
        invariant
            all == pairs_json(text_pairs(pairs@))->Array_0,
            all.len() == pairs@.len(),
            jsons(out@) == all.take(i as int),
    {
        let p = &pairs[i];
        let ghost before = jsons(out@);
        let mut pair: Vec<JsonValue> = Vec::new();
        pair.push(text_value(p.0.as_str()));
        pair.push(text_value(p.1.as_str()));
        assert(jsons(pair@) =~= seq![Json::Text(p.0@), Json::Text(p.1@)]);
        out.push(JsonValue::Array(pair));
        assert(jsons(out@) =~= before.push(all[i as int]));
    }
    assert(all.take(pairs@.len() as int) =~= all);
    JsonValue::Array(out)
}

fn texts_value(items: &Vec<String>) -> (r: JsonValue)
    ensures
        r.json() == texts_json(texts(items@)),
{
    let ghost all = texts_json(texts(items@))->Array_0;
    let mut out: Vec<JsonValue> = Vec::new();
    for i in 0..items.len()
        invariant
            all == texts_json(texts(items@))->Array_0,
            all.len() == items@.len(),
            jsons(out@) == all.take(i as int),
    {
        let ghost before = jsons(out@);
        out.push(text_value(items[i].as_str()));
        assert(jsons(out@) =~= before.push(all[i as int]));
    }
    assert(all.take(items@.len() as int) =~= all);
    JsonValue::Array(out)
}

/// The record of a response, as it is saved.
pub fn response_file(request: &ResolvedRequest, response: &ResponseData) -> (r: Option<String>)
    ensures
        text_option(r) == json_pretty(record(request@, response@)),
{
    let mut q: TextMap<JsonValue> = TextMap::new();
    q.insert(owned("method"), text_value(request.method.as_str()));
    q.insert(owned("url"), text_value(request.url.as_str()));
    q.insert(owned("headers"), pairs_value(&request.headers));
    let mut p: TextMap<JsonValue> = TextMap::new();
    p.insert(owned("protocol"), text_value(response.protocol.as_str()));
    p.insert(owned("status"), JsonValue::Number(Number::PosInt(response.status as u64)));
    p.insert(owned("statusText"), text_value(response.status_text.as_str()));
    p.insert(owned("headers"), pairs_value(&response.headers));
    p.insert(owned("redirects"), texts_value(&response.redirects));
    p.insert(owned("body"), JsonValue::String(response.body_text()));
    p.insert(owned("elapsedMs"), JsonValue::Number(Number::PosInt(response.elapsed_ms)));
    let mut all: TextMap<JsonValue> = TextMap::new();
    all.insert(owned("request"), JsonValue::Object(q));
    all.insert(owned("response"), JsonValue::Object(p));
    print_json_pretty(&JsonValue::Object(all))
}

/// A request as it is logged: a block of a `.http` file.
pub open spec fn log_text(q: ResolvedModel) -> Seq<char> {
    "### "@ + q.name + "\n"@ + q.method + " "@ + q.url + "\n"@ + pair_lines(q.headers, ""@) + (
    match q.body {
        Some(body) => "\n"@ + body + "\n"@,
        None => Seq::empty(),
    }) + "\n"@
}

/// A request as it is logged.
pub fn log_entry(request: &ResolvedRequest) -> (r: String)
    ensures
        r@ == log_text(request@),
{
    let mut out = concat3("### ", request.name.as_str(), "\n");
    out.append(request.method.as_str());
    out.append(" ");
    out.append(request.url.as_str());
    out.append("\n");
    out.append(crate::output::list_pairs(&request.headers, "").as_str());
    let mut body = String::new();
    if let Some(text) = &request.body {
        body = concat3("\n", text.as_str(), "\n");
    }
    out.append(body.as_str());
    out.append("\n");
    out
}

/// The name of the file that a redirected response goes to instead of one that is
/// there already, by the stem and the extension of that one.
pub open spec fn numbered(stem: Option<Seq<char>>, extension: Option<Seq<char>>, n: nat) -> Seq<
    char,
> {
    (match stem {
        Some(stem) => stem,
        None => "response"@,
    }) + "-"@ + decimal(n) + "."@ + match extension {
        Some(extension) => extension,
        None => "txt"@,
    }
}

/// The name of the file that a redirected response goes to instead of one that is
/// there already.
pub fn numbered_name(stem: Option<&str>, extension: Option<&str>, n: u64) -> (r: String)
    ensures
        r@ == numbered(
            (match stem {
                Some(s) => Some(s@),
                None => None,
            }),
            (match extension {
                Some(s) => Some(s@),
                None => None,
            }),
            n as nat,
        ),
{
    let mut out = match stem {
        Some(stem) => owned(stem),
        None => owned("response"),
    };
    out.append("-");
    out.append(decimal_of(n).as_str());
    out.append(".");
    match extension {
        Some(extension) => {
            out.append(extension);
        },
        None => {
            out.append("txt");
        },
    }
    out
}

// ---------------------------------------------------------------------------
// What holds of every run
// ---------------------------------------------------------------------------

/// What a response handler sets is seen by the requests that follow: the next
/// request is resolved with the globals that the handler left, and on top of the
/// global headers that it left.
pub proof fn handlers_reach_later_requests(m: RunnerModel, q: ResolvedModel, r: Reply, now: u64)
    requires
        0 <= m.position < m.selected.len(),
        m.requests[m.selected[m.position]].pre_request_script is None,
    ensures
        ({
            let request = m.requests[m.selected[m.position]];
            let left = handled(m, q, r);
            let scopes = Scopes {
                env: m.env_vars,
                global: left.globals,
                file: m.file_vars,
                request: Seq::empty(),
                system_env: m.system_env,
            };
            let resolved = resolution(request, scopes, left.global_headers, m.rng, now).0;
            &&& resolved matches Ok(sent) ==> next_step(after_response(m, q, r), now).0
                == StepModel::Send(sent)
            &&& resolved is Err ==> next_step(after_response(m, q, r), now).0 is Stop
        }),
{
}

/// What a response handler sets last of a global is what `{{name}}` stands for in
/// the requests that follow, unless the environment has a variable of that name.
pub proof fn tokens_reach_later_requests(
    m: RunnerModel,
    q: ResolvedModel,
    r: Reply,
    script: Seq<char>,
    name: Seq<char>,
    value: Json,
)
    requires
        q.handler == Some(HandlerModel::Inline(script)),
        script_result(script, script_response(r), m.state.globals).globals.len() > 0,
        script_result(script, script_response(r), m.state.globals).globals.last()
            == ChangeModel::Assign(name, value),
        scope_value(m.env_vars, name) is None,
    ensures
        variable_value(
            name,
            scopes_of(after_response(m, q, r), after_response(m, q, r).state),
        ) == Some(value),
{
    let changes = script_result(script, script_response(r), m.state.globals).globals;
    lookup_after_put(applied_all(m.state.globals, changes.drop_last()), name, value, name);
}

/// A request that cannot be resolved or sent ends the run, which has then failed.
pub proof fn errors_end_the_run(m: RunnerModel, now: u64, later: u64)
    ensures
        next_step(m, now).0 is Stop ==> next_step(m, now).1.failed && next_step(
            next_step(m, now).1,
            later,
        ).0 is Done,
        after_failure(m).failed && next_step(after_failure(m), later).0 is Done,
{
}

/// A run that has failed stays failed.
pub proof fn failure_is_kept(m: RunnerModel, now: u64, q: ResolvedModel, r: Reply)
    requires
        m.failed,
    ensures
        next_step(m, now).1.failed,
        after_response(m, q, r).failed,
        after_failure(m).failed,
{
}

/// Every step takes up one request, in the order of the selection.
pub proof fn requests_are_sent_in_order(m: RunnerModel, now: u64)
    requires
        0 <= m.position <= m.selected.len(),
    ensures
        next_step(m, now).0 is Send ==> next_step(m, now).1.position == m.position + 1
            && next_step(m, now).0->Send_0.name == m.requests[m.selected[m.position]].display_name,
        next_step(m, now).0 is Done <==> m.position == m.selected.len(),
        next_step(m, now).1.selected == m.selected,
        next_step(m, now).1.requests == m.requests,
{
}

/// An in-place variable has the value of the last line that declares it.
pub proof fn last_declaration_counts(
    variables: Seq<(Seq<char>, Seq<char>)>,
    name: Seq<char>,
    value: Seq<char>,
    q: Seq<char>,
)
    ensures
        lookup(file_scope(variables.push((name, value))), q) == if q == name {
            Some(Json::Text(value))
        } else {
            lookup(file_scope(variables), q)
        },
        lookup(file_scope(Seq::empty()), q) is None,
{
    let more = variables.push((name, value));
    assert(more.drop_last() =~= variables);
    lookup_after_put(file_scope(variables), name, Json::Text(value), q);
}

/// The variables of an environment are those of the first one of its name; where there
/// is none, or none is asked for, there are no variables.
pub proof fn named_environment_counts(
    environments: Seq<(Seq<char>, Seq<(Seq<char>, Json)>)>,
    name: Seq<char>,
    k: int,
    i: int,
)
    requires
        0 <= i <= environments.len(),
    ensures
        i <= k < environments.len() && environments[k].0 == name && (forall|j: int|
            i <= j < k ==> (#[trigger] environments[j]).0 != name) ==> environment_scope(
            environments,
            Some(name),
            i,
        ) == environments[k].1,
        (forall|j: int| i <= j < environments.len() ==> (#[trigger] environments[j]).0 != name)
            ==> environment_scope(environments, Some(name), i).len() == 0,
        environment_scope(environments, None, i).len() == 0,
    decreases environments.len() - i,
{
    if i < environments.len() && environments[i].0 != name {
        named_environment_counts(environments, name, k, i + 1);
    }
}

/// The pre-request script of a request is run first, on an empty response with the
/// status 0; the request is then resolved with the globals and on top of the global
/// headers that it left, and with the variables of the environment and of the file.
pub proof fn script_runs_before_its_request(m: RunnerModel, now: u64)
    requires
        0 <= m.position < m.selected.len(),
    ensures
        ({
            let request = m.requests[m.selected[m.position]];
            let left = after_script(
                m.state,
                request.pre_request_script,
                (ResponseModel { status: 0, headers: Seq::empty(), body: Seq::empty() }),
            );
            let scopes = Scopes {
                env: m.env_vars,
                global: left.globals,
                file: m.file_vars,
                request: Seq::empty(),
                system_env: m.system_env,
            };
            let (resolved, rng) = resolution(request, scopes, left.global_headers, m.rng, now);
            let (step, next) = next_step(m, now);
            &&& next.state == left
            &&& next.rng == rng
            &&& resolved matches Ok(q) ==> step == StepModel::Send(q) && next.failed == m.failed
            &&& resolved matches Err(error) ==> next.failed && (step matches StepModel::Stop(
                report,
            ) ==> shows(report, seq![request.display_name, error])) && step is Stop
        }),
{
    let request = m.requests[m.selected[m.position]];
    let (step, next) = next_step(m, now);
    if let StepModel::Stop(report) = step {
        let left = after_script(m.state, request.pre_request_script, no_response());
        let error = resolution(
            request,
            scopes_of(m, left),
            left.global_headers,
            m.rng,
            now,
        ).0->Err_0;
        let none = Seq::<char>::empty();
        let end = Seq::<Seq<char>>::empty();
        let tail = if starts_with(error, "unresolved variable"@) && m.lacks_environment {
            "\n  no environment selected; use `http-client env <file> <name>`"@
        } else {
            none
        };
        assert(shows(tail, end)) by {
            reveal_with_fuel(shows, 2);
        }
        shows_behind("`: "@, error, tail, end);
        let behind = "`: "@ + error + tail;
        shows_behind("error resolving `"@, request.display_name, behind, seq![error] + end);
        assert(report =~= "error resolving `"@ + request.display_name + behind);
        assert(seq![request.display_name] + (seq![error] + end) =~= seq![
            request.display_name,
            error,
        ]);
    }
}

/// After a response the globals and the global headers are those that its handler left;
/// what was logged and reported has been shown and is gone. The run has failed if it had
/// before, or if a status from 400 on counts as a failure and this is one.
pub proof fn response_is_accounted_for(m: RunnerModel, q: ResolvedModel, r: Reply)
    ensures
        ({
            let left = after_script(
                m.state,
                q.handler,
                (ResponseModel { status: r.status as int, headers: r.headers, body: r.body }),
            );
            let next = after_response(m, q, r);
            &&& next.state.globals == left.globals
            &&& next.state.global_headers == left.global_headers
            &&& next.state.logs.len() == 0 && next.state.handler_errors.len() == 0
            &&& next.failed == (m.failed || (m.fail_on_http_error && r.status >= 400))
            &&& next.position == m.position && next.selected == m.selected
            &&& next.requests == m.requests && next.rng == m.rng
            &&& next.env_vars == m.env_vars && next.file_vars == m.file_vars
        }),
{
}

/// What is shown of a response is its plain form, with the logs of the run in it, and
/// behind it the path at which it was saved, if it was.
pub proof fn report_shows_the_response(
    state: RunModel,
    q: ResolvedModel,
    r: Reply,
    path: Seq<char>,
)
    ensures
        report_text(state, q, r, None) == plain_text(q, r, state.logs),
        plain_text(q, r, state.logs).is_prefix_of(report_text(state, q, r, Some(path))),
        shows(report_text(state, q, r, Some(path)), seq![plain_text(q, r, state.logs), path]),
{
    let none = Seq::<char>::empty();
    let end = Seq::<Seq<char>>::empty();
    let text = plain_text(q, r, state.logs);
    assert(text + none =~= text);
    assert(shows("\n"@, end)) by {
        reveal_with_fuel(shows, 2);
    }
    let behind = "\nResponse saved to "@ + path + "\n"@;
    shows_behind("\nResponse saved to "@, path, "\n"@, end);
    shows_behind(none, text, behind, seq![path] + end);
    assert(none + text + behind =~= report_text(state, q, r, Some(path)));
    assert(seq![text] + (seq![path] + end) =~= seq![text, path]);
}

/// The member of an object.
pub open spec fn field(v: Json, name: Seq<char>) -> Option<Json> {
    match v {
        Json::Object(entries) => lookup(entries, name),
        _ => None,
    }
}

/// The record of a response holds the request and the response, field by field, with
/// every header and every redirect in order.
pub proof fn record_holds_everything(q: ResolvedModel, r: Reply)
    ensures
        ({
            let request = field(record(q, r), "request"@)->0;
            let response = field(record(q, r), "response"@)->0;
            &&& field(record(q, r), "request"@) is Some && field(record(q, r), "response"@) is Some
            &&& field(request, "method"@) == Some(Json::Text(q.method))
            &&& field(request, "url"@) == Some(Json::Text(q.url))
            &&& field(request, "headers"@) == Some(pairs_json(q.headers))
            &&& field(response, "protocol"@) == Some(Json::Text(r.protocol))
            &&& field(response, "status"@) == Some(Json::Number(Num::Int(r.status as int)))
            &&& field(response, "statusText"@) == Some(Json::Text(r.status_text))
            &&& field(response, "headers"@) == Some(pairs_json(r.headers))
            &&& field(response, "redirects"@) == Some(texts_json(r.redirects))
            &&& field(response, "body"@) == Some(Json::Text(lossy_text(r.body)))
            &&& field(response, "elapsedMs"@) == Some(Json::Number(Num::Int(r.elapsed_ms as int)))
        }),
{
    lemma_names_differ();
    let a = put(Seq::empty(), "method"@, Json::Text(q.method));
    let b = put(a, "url"@, Json::Text(q.url));
    let c = put(b, "headers"@, pairs_json(q.headers));
    lookup_after_put(Seq::empty(), "method"@, Json::Text(q.method), "method"@);
    lookup_after_put(a, "url"@, Json::Text(q.url), "method"@);
    lookup_after_put(a, "url"@, Json::Text(q.url), "url"@);
    lookup_after_put(b, "headers"@, pairs_json(q.headers), "method"@);
    lookup_after_put(b, "headers"@, pairs_json(q.headers), "url"@);
    lookup_after_put(b, "headers"@, pairs_json(q.headers), "headers"@);
    lemma_response_fields(r);
    let x = put(Seq::empty(), "request"@, request_record(q));
    lookup_after_put(Seq::empty(), "request"@, request_record(q), "request"@);
    lookup_after_put(x, "response"@, response_record(r), "request"@);
    lookup_after_put(x, "response"@, response_record(r), "response"@);
}

proof fn lemma_names_differ()
    ensures
        "method"@ != "url"@ && "method"@ != "headers"@ && "url"@ != "headers"@,
        "request"@ != "response"@,
{
    reveal_strlit("method");
    reveal_strlit("url");
    reveal_strlit("headers");
    reveal_strlit("request");
    reveal_strlit("response");
    assert("method"@.len() != "url"@.len());
    assert("method"@[0] != "headers"@[0]);
    assert("url"@[0] != "headers"@[0]);
    assert("request"@.len() != "response"@.len());
}

proof fn lemma_response_fields(r: Reply)
    ensures
        ({
            let response = response_record(r);
            &&& field(response, "protocol"@) == Some(Json::Text(r.protocol))
            &&& field(response, "status"@) == Some(Json::Number(Num::Int(r.status as int)))
            &&& field(response, "statusText"@) == Some(Json::Text(r.status_text))
            &&& field(response, "headers"@) == Some(pairs_json(r.headers))
            &&& field(response, "redirects"@) == Some(texts_json(r.redirects))
            &&& field(response, "body"@) == Some(Json::Text(lossy_text(r.body)))
            &&& field(response, "elapsedMs"@) == Some(Json::Number(Num::Int(r.elapsed_ms as int)))
        }),
{
    reveal_strlit("protocol");
    reveal_strlit("status");
    reveal_strlit("statusText");
    reveal_strlit("headers");
    reveal_strlit("redirects");
    reveal_strlit("body");
    reveal_strlit("elapsedMs");
    let none = Seq::<(Seq<char>, Json)>::empty();
    let names = seq![
        "protocol"@,
        "status"@,
        "statusText"@,
        "headers"@,
        "redirects"@,
        "body"@,
        "elapsedMs"@,
    ];
    let values = seq![
        Json::Text(r.protocol),
        Json::Number(Num::Int(r.status as int)),
        Json::Text(r.status_text),
        pairs_json(r.headers),
        texts_json(r.redirects),
        Json::Text(lossy_text(r.body)),
        Json::Number(Num::Int(r.elapsed_ms as int)),
    ];
    let m1 = put(none, names[0], values[0]);
    let m2 = put(m1, names[1], values[1]);
    let m3 = put(m2, names[2], values[2]);
    let m4 = put(m3, names[3], values[3]);
    let m5 = put(m4, names[4], values[4]);
    let m6 = put(m5, names[5], values[5]);
    let m7 = put(m6, names[6], values[6]);
    assert(response_record(r) == Json::Object(m7));
    assert forall|i: int, j: int| 0 <= i < 7 && 0 <= j < 7 && i != j implies #[trigger] names[i]
        != #[trigger] names[j] by {
        assert("protocol"@[0] == 'p' && "status"@[0] == 's' && "statusText"@[0] == 's'
            && "headers"@[0] == 'h' && "redirects"@[0] == 'r' && "body"@[0] == 'b'
            && "elapsedMs"@[0] == 'e');
        assert("status"@.len() == 6 && "statusText"@.len() == 10);
        assert(names[i][0] != names[j][0] || names[i].len() != names[j].len());
    }
    assert forall|i: int| 0 <= i < 7 implies lookup(m7, #[trigger] names[i]) == Some(values[i]) by {
        lookup_after_put(none, names[0], values[0], names[i]);
        lookup_after_put(m1, names[1], values[1], names[i]);
        lookup_after_put(m2, names[2], values[2], names[i]);
        lookup_after_put(m3, names[3], values[3], names[i]);
        lookup_after_put(m4, names[4], values[4], names[i]);
        lookup_after_put(m5, names[5], values[5], names[i]);
        lookup_after_put(m6, names[6], values[6], names[i]);
    }
    assert(lookup(m7, names[0]) == Some(values[0]));
    assert(lookup(m7, names[1]) == Some(values[1]));
    assert(lookup(m7, names[2]) == Some(values[2]));
    assert(lookup(m7, names[3]) == Some(values[3]));
    assert(lookup(m7, names[4]) == Some(values[4]));
    assert(lookup(m7, names[5]) == Some(values[5]));
    assert(lookup(m7, names[6]) == Some(values[6]));
}

/// A list of pairs in a record has an array of two texts for each of them, in order; a
/// list of texts each of them.
pub proof fn lists_are_recorded(
    pairs: Seq<(Seq<char>, Seq<char>)>,
    items: Seq<Seq<char>>,
    i: int,
)
    ensures
        pairs_json(pairs) matches Json::Array(all) && all.len() == pairs.len() && (0 <= i
            < pairs.len() ==> all[i] == Json::Array(
            seq![Json::Text(pairs[i].0), Json::Text(pairs[i].1)],
        )),
        texts_json(items) matches Json::Array(all) && all.len() == items.len() && (0 <= i
            < items.len() ==> all[i] == Json::Text(items[i])),
{
}

/// A request without a body is logged as a document that reads back as the request; so
/// is one with a body, given by its lines.
pub proof fn log_reads_back(q: ResolvedModel, body: Seq<Seq<char>>)
    requires
        q.name.len() > 0,
        is_trimmed(q.name),
        !q.name.contains('\n'),
        is_plain_target(q.method, q.url),
        forall|k: int|
            0 <= k < q.headers.len() ==> is_plain_header(#[trigger] q.headers[k])
                && !q.headers[k].1.contains('\n'),
        forall|k: int|
            0 <= k < body.len() ==> is_plain_body_line(#[trigger] body[k]) && is_line(body[k]),
        q.body is None ==> body.len() == 0,
        q.body matches Some(text) ==> body.len() > 0 && text == join(body, "\n"@),
    ensures
        ({
            let read = document(log_text(q)).requests;
            &&& read.len() == 1
            &&& read[0].name == Some(q.name)
            &&& read[0].method == q.method && read[0].url == q.url
            &&& read[0].headers == q.headers
            &&& q.body is None ==> read[0].body is None
            &&& q.body is Some ==> read[0].body == crate::parser::body_of(
                body.push(Seq::empty()),
            )
        }),
{
    reveal_strlit("\n");
    let none = Seq::<char>::empty();
    let lines = if q.body is None {
        body
    } else {
        body.push(none)
    };
    assert forall|k: int| 0 <= k < lines.len() implies is_plain_body_line(#[trigger] lines[k])
        && is_line(lines[k]) by {
        if k < body.len() {
            assert(lines[k] == body[k]);
        } else {
            trimmed_text_is_kept(none);
        }
    }
    document_reads_back(q.name, q.method, q.url, q.headers, lines);
    let head = seq!["### "@ + q.name, q.method + " "@ + q.url];
    let own = q.headers.map_values(
        |h: (Seq<char>, Seq<char>)| crate::parser::written_header(h),
    );
    let all = seq!["### "@ + q.name] + written_request(q.method, q.url, q.headers, lines);
    assert(all =~= head + own + seq![none] + lines);
    lemma_as_lines_join(head + own + seq![none], lines);
    lemma_as_lines_join(head + own, seq![none]);
    lemma_as_lines_join(head, own);
    lemma_headers_as_lines(q.headers);
    reveal_with_fuel(as_lines, 3);
    assert(head.drop_last() =~= seq!["### "@ + q.name]);
    assert(head.drop_last().drop_last() =~= Seq::empty());
    assert(as_lines(head) =~= "### "@ + q.name + "\n"@ + q.method + " "@ + q.url + "\n"@);
    assert(seq![none].drop_last() =~= Seq::empty());
    assert(as_lines(seq![none]) =~= "\n"@);
    if q.body is None {
        assert(as_lines(lines) =~= none);
        assert(log_text(q) =~= as_lines(all));
        assert(crate::parser::body_of(lines) is None);
    } else {
        lemma_join_as_lines(body);
        assert(lines.drop_last() =~= body);
        assert(as_lines(lines) =~= q.body->0 + "\n"@ + "\n"@);
        assert(log_text(q) =~= as_lines(all));
    }
}

proof fn lemma_as_lines_join(a: Seq<Seq<char>>, b: Seq<Seq<char>>)
    ensures
        as_lines(a + b) == as_lines(a) + as_lines(b),
    decreases b.len(),
{
    if b.len() == 0 {
        assert(a + b =~= a);
        assert(as_lines(a) + as_lines(b) =~= as_lines(a));
    } else {
        assert((a + b).drop_last() =~= a + b.drop_last());
        lemma_as_lines_join(a, b.drop_last());
        assert(as_lines(a + b) =~= as_lines(a) + as_lines(b));
    }
}

proof fn lemma_join_as_lines(parts: Seq<Seq<char>>)
    requires
        parts.len() > 0,
    ensures
        as_lines(parts) == join(parts, "\n"@) + "\n"@,
    decreases parts.len(),
{
    reveal_strlit("\n");
    if parts.len() == 1 {
        assert(as_lines(parts.drop_last()) =~= Seq::empty());
        assert(as_lines(parts) =~= parts[0] + "\n"@);
    } else {
        lemma_join_as_lines(parts.drop_last());
        assert(as_lines(parts) =~= join(parts, "\n"@) + "\n"@);
    }
}

proof fn lemma_headers_as_lines(headers: Seq<(Seq<char>, Seq<char>)>)
    ensures
        as_lines(
            headers.map_values(|h: (Seq<char>, Seq<char>)| crate::parser::written_header(h)),
        ) == pair_lines(headers, ""@),
    decreases headers.len(),
{
    reveal_strlit("");
    reveal_strlit("\n");
    let form = |h: (Seq<char>, Seq<char>)| crate::parser::written_header(h);
    let own = headers.map_values(form);
    if headers.len() == 0 {
        assert(as_lines(own) =~= pair_lines(headers, ""@));
    } else {
        assert(own.drop_last() =~= headers.drop_last().map_values(form));
        lemma_headers_as_lines(headers.drop_last());
        assert(as_lines(own) =~= pair_lines(headers, ""@));
    }
}

/// The name for a further file keeps the stem and the extension of the one that is there,
/// and no two numbers give the same name.
pub proof fn numbered_names_differ(
    stem: Option<Seq<char>>,
    extension: Option<Seq<char>>,
    n: nat,
    m: nat,
)
    ensures
        n != m ==> numbered(stem, extension, n) != numbered(stem, extension, m),
        stem matches Some(s) ==> extension matches Some(e) ==> numbered(stem, extension, n) == s
            + "-"@ + decimal(n) + "."@ + e,
{
    let s = match stem {
        Some(stem) => stem,
        None => "response"@,
    };
    let e = match extension {
        Some(extension) => extension,
        None => "txt"@,
    };
    let a = numbered(stem, extension, n);
    let b = numbered(stem, extension, m);
    if a == b {
        decimal_reads_back(n);
        decimal_reads_back(m);
        let k = s.len() + "-"@.len();
        let end = a.len() - e.len() - "."@.len();
        assert(a.subrange(k as int, end) =~= decimal(n));
        assert(b.subrange(k as int, end) =~= decimal(m));
    }
}

/// Where a variable is unknown and no environment is selected, the report says so. Any
/// other error is reported as it is.
pub proof fn missing_environment_is_named(name: Seq<char>, variable: Seq<char>, error: Seq<char>)
    ensures
        ({
            let unknown = "unresolved variable: {{"@ + variable + "}}"@;
            let plain = "error resolving `"@ + name + "`: "@;
            &&& resolution_report(name, unknown, true) == plain + unknown
                + "\n  no environment selected; use `http-client env <file> <name>`"@
            &&& resolution_report(name, unknown, false) == plain + unknown
            &&& resolution_report(name, error, false) == plain + error
            &&& error.len() < 12 || error[11] != 'v' ==> resolution_report(name, error, true)
                == plain + error
        }),
{
    reveal_strlit("unresolved variable: {{");
    reveal_strlit("unresolved variable");
    let unknown = "unresolved variable: {{"@ + variable + "}}"@;
    assert(unknown.subrange(0, 19) =~= "unresolved variable"@);
    if starts_with(error, "unresolved variable"@) {
        assert(error.subrange(0, 19)[11] == error[11]);
    }
}

} // verus!
