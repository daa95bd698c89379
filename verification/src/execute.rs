//! Request resolution and the response data model shared by all executors.

use vstd::prelude::*;
use crate::expression::ResponseModel;
use crate::expression::header_value;
use crate::expression::response_model;
use crate::handler::HeaderChange;
use crate::handler::HeaderChangeModel;
use crate::handler::ResultModel;
use crate::handler::applied_all;
use crate::handler::apply_global_changes;
use crate::handler::header_change_models;
use crate::handler::run_response_handler_with_globals;
use crate::handler::script_result;
use crate::json::Json;
use crate::json::JsonValue;
use crate::map::TextMap;
use crate::map::lookup;
use crate::map::lookup_after_put;
use crate::map::map_is_sorted;
use crate::map::put;
use crate::map::sorted;
use crate::parser::Handler;
use crate::parser::HandlerModel;
use crate::parser::Redirect;
use crate::parser::RedirectModel;
use crate::parser::Request;
use crate::parser::RequestModel;
use crate::parser::copy_handler;
use crate::parser::handler_model;
use crate::parser::header_models;
use crate::parser::redirect_model;
use crate::rng::Rng;
use crate::rng::seconds_shown;
use crate::rng::unix_timestamp;
use crate::text::copy_pairs;
use crate::text::copy_text;
use crate::text::copy_texts;
use crate::text::eq_ignore_ascii_case;
use crate::text::lossy_text;
use crate::text::lossy_text_of;
use crate::text::lowercase;
use crate::text::owned;
use crate::text::same;
use crate::text::same_ignoring_ascii_case;
use crate::text::text_lt;
use crate::text::text_option;
use crate::text::text_pairs;
use crate::text::texts;
use crate::text::to_lowercase;
use crate::vars::Scopes;
use crate::vars::VarContext;
use crate::vars::placeholder;
use crate::vars::substitute_at;
use crate::vars::substituted;
use crate::vars::text_without_placeholder_is_kept;

verus! {

// ---------------------------------------------------------------------------
// Requests and responses
// ---------------------------------------------------------------------------

/// A request with all `{{variables}}` substituted and ready to send.
#[derive(Debug, PartialEq)]
pub struct ResolvedRequest {
    pub name: String,
    pub method: String,
    pub url: String,
    pub headers: Vec<(String, String)>,
    pub body: Option<String>,
    pub follow_redirects: bool,
    pub timeout_secs: Option<u64>,
    pub connection_timeout_secs: Option<u64>,
    pub pre_request_script: Option<Handler>,
    pub handler: Option<Handler>,
    pub redirect_to: Option<Redirect>,
}

/// An HTTP response.
#[derive(Debug, PartialEq)]
pub struct ResponseData {
    pub status: u16,
    pub protocol: String,
    pub status_text: String,
    pub headers: Vec<(String, String)>,
    pub redirects: Vec<String>,
    pub body: Vec<u8>,
    pub elapsed_ms: u64,
}

/// Per-run mutable state: global variables set by response handlers.
#[derive(Debug)]
pub struct RunState {
    pub globals: TextMap<JsonValue>,
    pub logs: Vec<String>,
    pub handler_errors: Vec<String>,
    pub global_headers: TextMap<String>,
}

/// A request that is ready to send.
#[verifier::ext_equal]
pub ghost struct ResolvedModel {
    pub name: Seq<char>,
    pub method: Seq<char>,
    pub url: Seq<char>,
    pub headers: Seq<(Seq<char>, Seq<char>)>,
    pub body: Option<Seq<char>>,
    pub follow_redirects: bool,
    pub timeout_secs: Option<u64>,
    pub connection_timeout_secs: Option<u64>,
    pub pre_request_script: Option<HandlerModel>,
    pub handler: Option<HandlerModel>,
    pub redirect_to: Option<RedirectModel>,
}

/// A response.
#[verifier::ext_equal]
pub ghost struct Reply {
    pub status: u16,
    pub protocol: Seq<char>,
    pub status_text: Seq<char>,
    pub headers: Seq<(Seq<char>, Seq<char>)>,
    pub redirects: Seq<Seq<char>>,
    pub body: Seq<u8>,
    pub elapsed_ms: u64,
}

/// The state of a run.
#[verifier::ext_equal]
pub ghost struct RunModel {
    pub globals: Seq<(Seq<char>, Json)>,
    pub logs: Seq<Seq<char>>,
    pub handler_errors: Seq<Seq<char>>,
    pub global_headers: Seq<(Seq<char>, Seq<char>)>,
}

impl View for ResolvedRequest {
    type V = ResolvedModel;

    open spec fn view(&self) -> ResolvedModel {
        ResolvedModel {
            name: self.name@,
            method: self.method@,
            url: self.url@,
            headers: text_pairs(self.headers@),
            body: text_option(self.body),
            follow_redirects: self.follow_redirects,
            timeout_secs: self.timeout_secs,
            connection_timeout_secs: self.connection_timeout_secs,
            pre_request_script: handler_model(self.pre_request_script),
            handler: handler_model(self.handler),
            redirect_to: redirect_model(self.redirect_to),
        }
    }
}

impl View for ResponseData {
    type V = Reply;

    open spec fn view(&self) -> Reply {
        Reply {
            status: self.status,
            protocol: self.protocol@,
            status_text: self.status_text@,
            headers: text_pairs(self.headers@),
            redirects: texts(self.redirects@),
            body: self.body@,
            elapsed_ms: self.elapsed_ms,
        }
    }
}

impl View for RunState {
    type V = RunModel;

    open spec fn view(&self) -> RunModel {
        RunModel {
            globals: self.globals@,
            logs: texts(self.logs@),
            handler_errors: texts(self.handler_errors@),
            global_headers: self.global_headers@,
        }
    }
}

impl Clone for ResolvedRequest {
    fn clone(&self) -> (r: Self)
        ensures
            r@ == self@,
    {
        ResolvedRequest {
            name: self.name.clone(),
            method: self.method.clone(),
            url: self.url.clone(),
            headers: copy_pairs(&self.headers),
            body: copy_text(&self.body),
            follow_redirects: self.follow_redirects,
            timeout_secs: self.timeout_secs,
            connection_timeout_secs: self.connection_timeout_secs,
            pre_request_script: copy_handler(&self.pre_request_script),
            handler: copy_handler(&self.handler),
            redirect_to: match &self.redirect_to {
                Some(redirect) => Some(redirect.clone()),
                None => None,
            },
        }
    }
}

impl Clone for ResponseData {
    fn clone(&self) -> (r: Self)
        ensures
            r@ == self@,
    {
        let r = ResponseData {
            status: self.status,
            protocol: self.protocol.clone(),
            status_text: self.status_text.clone(),
            headers: copy_pairs(&self.headers),
            redirects: copy_texts(&self.redirects),
            body: self.body.clone(),
            elapsed_ms: self.elapsed_ms,
        };
        assert(r@ =~= self@);
        r
    }
}

impl Clone for RunState {
    fn clone(&self) -> (r: Self)
        ensures
            r@ == self@,
    {
        RunState {
            globals: self.globals.clone(),
            logs: copy_texts(&self.logs),
            handler_errors: copy_texts(&self.handler_errors),
            global_headers: self.global_headers.clone(),
        }
    }
}

pub open spec fn empty_run() -> RunModel {
    RunModel {
        globals: Seq::empty(),
        logs: Seq::empty(),
        handler_errors: Seq::empty(),
        global_headers: Seq::empty(),
    }
}

impl Default for RunState {
    fn default() -> (r: RunState)
        ensures
            r@ == empty_run(),
    {
        let r = RunState {
            globals: TextMap::new(),
            logs: Vec::new(),
            handler_errors: Vec::new(),
            global_headers: TextMap::new(),
        };
        assert(r@ =~= empty_run());
        r
    }
}

/// The value of the first header whose name in lower case is `lower`.
pub open spec fn first_value(headers: Seq<(Seq<char>, Seq<char>)>, lower: Seq<char>) -> Option<
    Seq<char>,
>
    decreases headers.len(),
{
    if headers.len() == 0 {
        None
    } else if lowercase(headers[0].0) == lower {
        Some(headers[0].1)
    } else {
        first_value(headers.drop_first(), lower)
    }
}

impl ResponseData {
    /// The value of a header, whatever the case of its name.
    pub fn header(&self, name: &str) -> (r: Option<&str>)
        ensures
            r matches Some(v) ==> first_value(text_pairs(self.headers@), lowercase(name@)) == Some(
                v@,
            ),
            r is None ==> first_value(text_pairs(self.headers@), lowercase(name@)) is None,
    {
        let lower = to_lowercase(name);
        let ghost all = text_pairs(self.headers@);
        assert(all.skip(0) =~= all);
        for i in 0..self.headers.len()
            invariant
                all == text_pairs(self.headers@),
                lower@ == lowercase(name@),
                first_value(all.skip(i as int), lower@) == first_value(all, lower@),
        {
            let h = &self.headers[i];
            assert(all.skip(i as int)[0] == (h.0@, h.1@));
            if same(to_lowercase(h.0.as_str()).as_str(), lower.as_str()) {
                return Some(h.1.as_str());
            }
            assert(all.skip(i as int).drop_first() =~= all.skip(i + 1));
        }
        None
    }

    /// The body as text.
    pub fn body_text(&self) -> (r: String)
        ensures
            r@ == lossy_text(self.body@),
    {
        lossy_text_of(self.body.as_slice())
    }
}

// ---------------------------------------------------------------------------
// Resolution
// ---------------------------------------------------------------------------

/// The position of the first header with the given name, whatever its case.
pub open spec fn header_index(headers: Seq<(Seq<char>, Seq<char>)>, name: Seq<char>) -> Option<int>
    decreases headers.len(),
{
    if headers.len() == 0 {
        None
    } else {
        match header_index(headers.drop_last(), name) {
            Some(i) => Some(i),
            None => if same_ignoring_ascii_case(headers.last().0, name) {
                Some(headers.len() - 1)
            } else {
                None
            },
        }
    }
}

/// The headers with `name` set to `value`: in the place of the header that has
/// this name already, or at the end.
pub open spec fn with_header(
    headers: Seq<(Seq<char>, Seq<char>)>,
    name: Seq<char>,
    value: Seq<char>,
) -> Seq<(Seq<char>, Seq<char>)> {
    match header_index(headers, name) {
        Some(i) => headers.update(i, (name, value)),
        None => headers.push((name, value)),
    }
}

/// The headers of a request from number `i` on, substituted and set in
/// `headers`; and the generator's state behind that.
pub open spec fn headers_from(
    own: Seq<(Seq<char>, Seq<char>)>,
    i: int,
    headers: Seq<(Seq<char>, Seq<char>)>,
    c: Scopes,
    rng: u64,
    now: u64,
) -> (Result<Seq<(Seq<char>, Seq<char>)>, Seq<char>>, u64)
    decreases own.len() - i,
{
    if i < 0 || i >= own.len() {
        (Ok(headers), rng)
    } else {
        match substituted(own[i].1, c, rng, now, 10) {
            (Ok(value), next) => headers_from(
                own,
                i + 1,
                with_header(headers, own[i].0, value),
                c,
                next,
                now,
            ),
            (Err(error), next) => (Err(error), next),
        }
    }
}

/// A body, substituted; and the generator's state behind that.
pub open spec fn body_of(body: Option<Seq<char>>, c: Scopes, rng: u64, now: u64) -> (
    Result<Option<Seq<char>>, Seq<char>>,
    u64,
) {
    match body {
        Some(text) => match substituted(text, c, rng, now, 10) {
            (Ok(text), next) => (Ok(Some(text)), next),
            (Err(error), next) => (Err(error), next),
        },
        None => (Ok(None), rng),
    }
}

/// The request that `request` makes: its URL, its headers on top of the global
/// ones, and its body, substituted in this order; and the generator's state
/// behind that.
pub open spec fn resolution(
    request: RequestModel,
    c: Scopes,
    global_headers: Seq<(Seq<char>, Seq<char>)>,
    rng: u64,
    now: u64,
) -> (Result<ResolvedModel, Seq<char>>, u64) {
    match substituted(request.url, c, rng, now, 10) {
        (Err(error), a) => (Err(error), a),
        (Ok(url), a) => match headers_from(request.headers, 0, global_headers, c, a, now) {
            (Err(error), b) => (Err(error), b),
            (Ok(headers), b) => match body_of(request.body, c, b, now) {
                (Err(error), d) => (Err(error), d),
                (Ok(body), d) => (
                    Ok(
                        ResolvedModel {
                            name: request.display_name,
                            method: request.method,
                            url,
                            headers,
                            body,
                            follow_redirects: !request.no_redirect,
                            timeout_secs: request.timeout_secs,
                            connection_timeout_secs: request.connection_timeout_secs,
                            pre_request_script: request.pre_request_script,
                            handler: request.handler,
                            redirect_to: request.redirect_to,
                        },
                    ),
                    d,
                ),
            },
        },
    }
}

/// The scopes of a request. It has none of its own.
pub open spec fn request_scopes(
    file_vars: TextMap<JsonValue>,
    env_vars: TextMap<JsonValue>,
    globals: TextMap<JsonValue>,
    system_env: TextMap<String>,
) -> Scopes {
    Scopes {
        env: env_vars@,
        global: globals@,
        file: file_vars@,
        request: Seq::empty(),
        system_env: system_env@,
    }
}

pub open spec fn resolved_result(r: Result<ResolvedRequest, String>) -> Result<
    ResolvedModel,
    Seq<char>,
> {
    match r {
        Ok(q) => Ok(q@),
        Err(e) => Err(e@),
    }
}

fn set_header(headers: &mut Vec<(String, String)>, name: String, value: String)
    ensures
        text_pairs(final(headers)@) == with_header(text_pairs(old(headers)@), name@, value@),
{
    let ghost all = text_pairs(headers@);
    let mut i: usize = 0;
    while i < headers.len()
        invariant
            all == text_pairs(headers@),
            all == text_pairs(old(headers)@),
            i <= headers@.len(),
            header_index(all.take(i as int), name@) is None,
        decreases headers@.len() - i,
    {
        assert(all.take(i + 1).drop_last() =~= all.take(i as int));
        assert(all.take(i + 1).last() == (headers@[i as int].0@, headers@[i as int].1@));
        if eq_ignore_ascii_case(headers[i].0.as_str(), name.as_str()) {
            proof {
                lemma_index_stays(all, name@, i + 1);
            }
            headers.set(i, (name, value));
            assert(text_pairs(headers@) =~= all.update(i as int, (name@, value@)));
            return;
        }
        i = i + 1;
    }
    assert(all.take(i as int) =~= all);
    headers.push((name, value));
    assert(text_pairs(headers@) =~= all.push((name@, value@)));
}

proof fn lemma_index_stays(headers: Seq<(Seq<char>, Seq<char>)>, name: Seq<char>, n: int)
    requires
        0 <= n <= headers.len(),
        header_index(headers.take(n), name) is Some,
    ensures
        header_index(headers, name) == header_index(headers.take(n), name),
    decreases headers.len() - n,
{
    if n < headers.len() {
        assert(headers.take(n + 1).drop_last() =~= headers.take(n));
        lemma_index_stays(headers, name, n + 1);
    } else {
        assert(headers.take(n) =~= headers);
    }
}

/// Substitutes all variables in a parsed request at the time `now`, in seconds
/// since 1970, and returns the sendable form.
pub fn resolve_request_at(
    request: &Request,
    file_vars: &TextMap<JsonValue>,
    env_vars: &TextMap<JsonValue>,
    globals: &TextMap<JsonValue>,
    global_headers: &TextMap<String>,
    system_env: &TextMap<String>,
    rng: &mut Rng,
    now: u64,
) -> (r: Result<ResolvedRequest, String>)
    ensures
        (resolved_result(r), final(rng)@) == resolution(
            request@,
            request_scopes(*file_vars, *env_vars, *globals, *system_env),
            global_headers@,
            old(rng)@,
            now,
        ),
{
    let ghost start = rng@;
    let request_vars: TextMap<JsonValue> = TextMap::new();
    let ctx = VarContext {
        env: env_vars,
        global: globals,
        file: file_vars,
        request: &request_vars,
        system_env,
    };
    let ghost c = request_scopes(*file_vars, *env_vars, *globals, *system_env);
    assert(ctx@ == c);
    let url = match substitute_at(request.url.as_str(), &ctx, rng, now) {
        Ok(url) => url,
        Err(error) => {
            return Err(error);
        },
    };
    let ghost behind_url = rng@;
    let mut headers: Vec<(String, String)> = Vec::new();
    let count: usize = global_headers.len();
    for i in 0..count
        invariant
            count == global_headers@.len(),
            text_pairs(headers@) == global_headers@.take(i as int),
    {
        let ghost before = text_pairs(headers@);
        headers.push((owned(global_headers.key_at(i)), global_headers.value_at(i).clone()));
        assert(text_pairs(headers@) =~= before.push(global_headers@[i as int]));
        assert(global_headers@.take(i + 1) =~= before.push(global_headers@[i as int]));
    }
    assert(global_headers@.take(global_headers@.len() as int) =~= global_headers@);
    let ghost own = header_models(request.headers@);
    let mut i: usize = 0;
    while i < request.headers.len()
        invariant
            own == header_models(request.headers@),
            i <= request.headers@.len(),
            ctx@ == c,
            headers_from(own, i as int, text_pairs(headers@), c, rng@, now) == headers_from(
                own,
                0,
                global_headers@,
                c,
                behind_url,
                now,
            ),
            substituted(request.url@, c, start, now, 10) == (
                Ok::<Seq<char>, Seq<char>>(url@),
                behind_url,
            ),
            start == old(rng)@,
            c == request_scopes(*file_vars, *env_vars, *globals, *system_env),
        decreases request.headers@.len() - i,
    {
        let header = &request.headers[i];
        assert(own[i as int] == (header.name@, header.value@));
        match substitute_at(header.value.as_str(), &ctx, rng, now) {
            Ok(value) => {
                set_header(&mut headers, header.name.clone(), value);
            },
            Err(error) => {
                return Err(error);
            },
        }
        i = i + 1;
    }
    let body = match &request.body {
        Some(body) => match substitute_at(body.as_str(), &ctx, rng, now) {
            Ok(body) => Some(body),
            Err(error) => {
                return Err(error);
            },
        },
        None => None,
    };
    Ok(
        ResolvedRequest {
            name: request.display_name.clone(),
            method: request.method.clone(),
            url,
            headers,
            body,
            follow_redirects: !request.no_redirect,
            timeout_secs: request.timeout_secs,
            connection_timeout_secs: request.connection_timeout_secs,
            pre_request_script: copy_handler(&request.pre_request_script),
            handler: copy_handler(&request.handler),
            redirect_to: match &request.redirect_to {
                Some(redirect) => Some(redirect.clone()),
                None => None,
            },
        },
    )
}

/// Substitutes all variables in a parsed request and returns the sendable form.
/// The clock is read once.
pub fn resolve_request(
    request: &Request,
    file_vars: &TextMap<JsonValue>,
    env_vars: &TextMap<JsonValue>,
    globals: &TextMap<JsonValue>,
    global_headers: &TextMap<String>,
    system_env: &TextMap<String>,
    rng: &mut Rng,
) -> (r: Result<ResolvedRequest, String>)
    ensures
        exists|t: std::time::SystemTime|
            (resolved_result(r), final(rng)@) == resolution(
                request@,
                request_scopes(*file_vars, *env_vars, *globals, *system_env),
                global_headers@,
                old(rng)@,
                #[trigger] seconds_shown(t) as u64,
            ),
{
    let now: u64 = unix_timestamp();
    resolve_request_at(
        request,
        file_vars,
        env_vars,
        globals,
        global_headers,
        system_env,
        rng,
        now,
    )
}

// ---------------------------------------------------------------------------
// Scripts
// ---------------------------------------------------------------------------

/// The headers without those of the given name, whatever its case.
pub open spec fn without_header(headers: Seq<(Seq<char>, Seq<char>)>, name: Seq<char>) -> Seq<
    (Seq<char>, Seq<char>),
>
    decreases headers.len(),
{
    if headers.len() == 0 {
        Seq::empty()
    } else {
        let before = without_header(headers.drop_last(), name);
        if same_ignoring_ascii_case(headers.last().0, name) {
            before
        } else {
            before.push(headers.last())
        }
    }
}

pub open spec fn header_applied(
    headers: Seq<(Seq<char>, Seq<char>)>,
    change: HeaderChangeModel,
) -> Seq<(Seq<char>, Seq<char>)> {
    match change {
        HeaderChangeModel::Assign(name, value) => put(headers, name, value),
        HeaderChangeModel::Clear(name) => without_header(headers, name),
    }
}

/// The global headers after several changes, one after the other.
pub open spec fn headers_applied(
    headers: Seq<(Seq<char>, Seq<char>)>,
    changes: Seq<HeaderChangeModel>,
) -> Seq<(Seq<char>, Seq<char>)>
    decreases changes.len(),
{
    if changes.len() == 0 {
        headers
    } else {
        header_applied(headers_applied(headers, changes.drop_last()), changes.last())
    }
}

/// The state after what a script asked for: its changes of the globals and the
/// global headers, and its log lines and errors behind those there were.
pub open spec fn folded(state: RunModel, result: ResultModel) -> RunModel {
    RunModel {
        globals: applied_all(state.globals, result.globals),
        logs: state.logs + result.logs,
        handler_errors: state.handler_errors + result.errors,
        global_headers: headers_applied(state.global_headers, result.headers),
    }
}

/// The state after a script that sees the response `r`. A script in a file is
/// not run.
pub open spec fn after_script(
    state: RunModel,
    script: Option<HandlerModel>,
    r: ResponseModel,
) -> RunModel {
    match script {
        Some(HandlerModel::Inline(text)) => folded(state, script_result(text, r, state.globals)),
        _ => state,
    }
}

proof fn lemma_kept_headers(headers: Seq<(Seq<char>, Seq<char>)>, name: Seq<char>)
    ensures
        forall|i: int|
            0 <= i < without_header(headers, name).len() ==> {
                &&& headers.contains(#[trigger] without_header(headers, name)[i])
                &&& !same_ignoring_ascii_case(without_header(headers, name)[i].0, name)
            },
        forall|j: int|
            0 <= j < headers.len() && !same_ignoring_ascii_case((#[trigger] headers[j]).0, name)
                ==> without_header(headers, name).contains(headers[j]),
        sorted(headers) ==> sorted(without_header(headers, name)),
    decreases headers.len(),
{
    if headers.len() > 0 {
        let rest = headers.drop_last();
        let before = without_header(rest, name);
        let all = without_header(headers, name);
        lemma_kept_headers(rest, name);
        assert forall|i: int| 0 <= i < all.len() implies headers.contains(#[trigger] all[i])
            && !same_ignoring_ascii_case(all[i].0, name) by {
            if i < before.len() {
                assert(all[i] == before[i]);
                assert(rest.contains(before[i]));
                let k = choose|k: int| 0 <= k < rest.len() && rest[k] == before[i];
                assert(headers[k] == all[i]);
            } else {
                assert(all[i] == headers[headers.len() - 1]);
            }
        }
        assert forall|j: int|
            0 <= j < headers.len() && !same_ignoring_ascii_case(
                (#[trigger] headers[j]).0,
                name,
            ) implies all.contains(headers[j]) by {
            if j < rest.len() {
                assert(rest[j] == headers[j]);
                assert(before.contains(rest[j]));
                let k = choose|k: int| 0 <= k < before.len() && before[k] == rest[j];
                assert(all[k] == headers[j]);
            } else {
                assert(all[all.len() - 1] == headers[j]);
            }
        }
        if sorted(headers) {
            assert(sorted(rest)) by {
                assert forall|i: int, j: int| 0 <= i < j < rest.len() implies text_lt(
                    (#[trigger] rest[i]).0,
                    (#[trigger] rest[j]).0,
                ) by {
                    assert(text_lt(headers[i].0, headers[j].0));
                }
            }
            assert forall|i: int, j: int| 0 <= i < j < all.len() implies text_lt(
                (#[trigger] all[i]).0,
                (#[trigger] all[j]).0,
            ) by {
                assert(all[i] == before[i]);
                if j < before.len() {
                    assert(all[j] == before[j]);
                    assert(text_lt(before[i].0, before[j].0));
                } else {
                    assert(rest.contains(before[i]));
                    let k = choose|k: int| 0 <= k < rest.len() && rest[k] == before[i];
                    assert(headers[k] == before[i]);
                    assert(text_lt(headers[k].0, headers[headers.len() - 1].0));
                }
            }
        }
    }
}

/// A cleared header is gone in every spelling, and no other header is touched.
pub proof fn cleared_header_is_gone(headers: Seq<(Seq<char>, Seq<char>)>, name: Seq<char>)
    ensures
        forall|i: int|
            0 <= i < without_header(headers, name).len() ==> !same_ignoring_ascii_case(
                (#[trigger] without_header(headers, name)[i]).0,
                name,
            ) && headers.contains(without_header(headers, name)[i]),
        forall|j: int|
            0 <= j < headers.len() && !same_ignoring_ascii_case((#[trigger] headers[j]).0, name)
                ==> without_header(headers, name).contains(headers[j]),
{
    lemma_kept_headers(headers, name);
}

fn clear_header(headers: &mut TextMap<String>, name: &str)
    ensures
        final(headers)@ == without_header(old(headers)@, name@),
{
    let ghost all = headers@;
    let total: usize = headers.len();
    let mut kept: Vec<(String, String)> = Vec::new();
    assert(text_pairs(kept@) =~= Seq::empty());
    for i in 0..total
        invariant
            all == headers@,
            total == all.len(),
            text_pairs(kept@) == without_header(all.take(i as int), name@),
    {
        let key = headers.key_at(i);
        let ghost before = text_pairs(kept@);
        assert(all.take(i + 1).drop_last() =~= all.take(i as int));
        assert(all.take(i + 1).last() == all[i as int]);
        if !eq_ignore_ascii_case(key, name) {
            kept.push((owned(key), headers.value_at(i).clone()));
            assert(text_pairs(kept@) =~= before.push(all[i as int]));
        }
    }
    assert(all.take(total as int) =~= all);
    proof {
        use_type_invariant(&*headers);
        map_is_sorted(*headers);
        lemma_kept_headers(all, name@);
        assert(crate::map::entry_models(kept@) =~= text_pairs(kept@));
    }
    *headers = TextMap::from_sorted(kept);
}

/// Runs a script and folds its effects into the run state.
pub fn process_handler(
    script: &str,
    status: u16,
    headers: &[(String, String)],
    body: &[u8],
    state: &mut RunState,
)
    ensures
        final(state)@ == folded(
            old(state)@,
            script_result(script@, response_model(status, headers@, body@), old(state)@.globals),
        ),
{
    let result = run_response_handler_with_globals(script, status, headers, body, &state.globals);
    let ghost asked = result@;
    apply_global_changes(result.globals.as_slice(), &mut state.globals);
    let ghost changes = header_change_models(result.headers@);
    for i in 0..result.headers.len()
        invariant
            changes == header_change_models(result.headers@),
            state.global_headers@ == headers_applied(
                old(state).global_headers@,
                changes.take(i as int),
            ),
            state.globals@ == applied_all(old(state).globals@, asked.globals),
            state.logs == old(state).logs,
            state.handler_errors == old(state).handler_errors,
    {
        assert(changes.take(i + 1).drop_last() =~= changes.take(i as int));
        assert(changes.take(i + 1).last() == result.headers@[i as int]@);
        match &result.headers[i] {
            HeaderChange::Assign(name, value) => {
                state.global_headers.insert(name.clone(), value.clone());
            },
            HeaderChange::Clear(name) => {
                clear_header(&mut state.global_headers, name.as_str());
            },
        }
    }
    assert(changes.take(changes.len() as int) =~= changes);
    let mut logs = result.logs;
    let mut errors = result.errors;
    state.logs.append(&mut logs);
    state.handler_errors.append(&mut errors);
    assert(state@ =~= folded(old(state)@, asked));
}

/// Runs the response handler (when present) and folds its effects into the
/// run state: global variables, log lines and errors.
pub fn process_response(resolved: &ResolvedRequest, response: &ResponseData, state: &mut RunState)
    ensures
        final(state)@ == after_script(
            old(state)@,
            resolved@.handler,
            response_model(response.status, response.headers@, response.body@),
        ),
{
    if let Some(Handler::Inline(script)) = &resolved.handler {
        process_handler(
            script.as_str(),
            response.status,
            response.headers.as_slice(),
            response.body.as_slice(),
            state,
        );
    }
}

/// Runs an inline pre-request script and folds its effects into the run state.
/// It sees an empty response with the status 0.
pub fn process_pre_request(request: &Request, state: &mut RunState)
    ensures
        final(state)@ == after_script(
            old(state)@,
            request@.pre_request_script,
            (ResponseModel { status: 0, headers: Seq::empty(), body: Seq::empty() }),
        ),
{
    if let Some(Handler::Inline(script)) = &request.pre_request_script {
        let headers: Vec<(String, String)> = Vec::new();
        let body: Vec<u8> = Vec::new();
        assert(text_pairs(headers@) =~= Seq::empty());
        process_handler(script.as_str(), 0, headers.as_slice(), body.as_slice(), state);
    }
}

// ---------------------------------------------------------------------------
// What holds of every request
// ---------------------------------------------------------------------------

proof fn lemma_header_index(headers: Seq<(Seq<char>, Seq<char>)>, name: Seq<char>)
    ensures
        header_index(headers, name) matches Some(i) ==> {
            &&& 0 <= i < headers.len()
            &&& same_ignoring_ascii_case(headers[i].0, name)
            &&& forall|j: int|
                0 <= j < i ==> !same_ignoring_ascii_case((#[trigger] headers[j]).0, name)
        },
        header_index(headers, name) is None ==> forall|j: int|
            0 <= j < headers.len() ==> !same_ignoring_ascii_case((#[trigger] headers[j]).0, name),
    decreases headers.len(),
{
    if headers.len() > 0 {
        let rest = headers.drop_last();
        lemma_header_index(rest, name);
        assert forall|j: int|
            0 <= j < rest.len() && !same_ignoring_ascii_case(
                (#[trigger] rest[j]).0,
                name,
            ) implies !same_ignoring_ascii_case(headers[j].0, name) by {}
        match header_index(rest, name) {
            Some(i) => {
                assert forall|j: int| 0 <= j < i implies !same_ignoring_ascii_case(
                    (#[trigger] headers[j]).0,
                    name,
                ) by {
                    assert(rest[j] == headers[j]);
                }
            },
            None => {
                assert forall|j: int|
                    0 <= j < headers.len() - 1 implies !same_ignoring_ascii_case(
                    (#[trigger] headers[j]).0,
                    name,
                ) by {
                    assert(rest[j] == headers[j]);
                }
            },
        }
    }
}

/// A header of a request takes the place of the global header of the same name,
/// whatever its case: the name then has the request's value, and every other
/// header stays as and where it was.
pub proof fn request_header_replaces_global_header(
    headers: Seq<(Seq<char>, Seq<char>)>,
    name: Seq<char>,
    value: Seq<char>,
)
    ensures
        ({
            let all = with_header(headers, name, value);
            let k = match header_index(headers, name) {
                Some(i) => i,
                None => headers.len() as int,
            };
            &&& 0 <= k < all.len()
            &&& all[k] == (name, value)
            &&& all.len() == if header_index(headers, name) is Some {
                headers.len()
            } else {
                headers.len() + 1
            }
            &&& forall|j: int| 0 <= j < headers.len() && j != k ==> all[j] == #[trigger] headers[j]
            &&& forall|j: int|
                0 <= j < k ==> !same_ignoring_ascii_case((#[trigger] headers[j]).0, name)
        }),
{
    lemma_header_index(headers, name);
}

/// A request without a script, or with one in a file, leaves the run as it is.
pub proof fn only_inline_scripts_run(
    state: RunModel,
    script: Option<HandlerModel>,
    r: ResponseModel,
)
    requires
        !(script matches Some(HandlerModel::Inline(_))),
    ensures
        after_script(state, script, r) == state,
{
}

/// What a script logs and reports is added to the run, and the globals and the
/// global headers are those that the script left.
pub proof fn script_adds_to_the_run(
    state: RunModel,
    script: Seq<char>,
    r: ResponseModel,
)
    ensures
        ({
            let after = after_script(state, Some(HandlerModel::Inline(script)), r);
            let asked = script_result(script, r, state.globals);
            &&& state.logs.is_prefix_of(after.logs)
            &&& state.handler_errors.is_prefix_of(after.handler_errors)
            &&& after.globals == crate::handler::run_lines(
                crate::text::lines(script),
                0,
                crate::handler::script_start(state.globals),
                r,
            ).globals
        }),
{
    crate::handler::caller_sees_what_the_script_sees(script, r, state.globals);
}

/// `response.headers.valueOf` gives a script the header that the response has by
/// that name, or null.
pub proof fn scripts_see_the_headers(headers: Seq<(Seq<char>, Seq<char>)>, name: Seq<char>)
    ensures
        header_value(headers, lowercase(name)) == (match first_value(headers, lowercase(name)) {
            Some(value) => Json::Text(value),
            None => Json::Null,
        }),
    decreases headers.len(),
{
    if headers.len() > 0 {
        scripts_see_the_headers(headers.drop_first(), name);
    }
}

/// Each header of a request is set in turn, with its value substituted: to set a
/// further one is to set those before it, and then that one.
pub proof fn headers_are_set_in_turn(
    own: Seq<(Seq<char>, Seq<char>)>,
    header: (Seq<char>, Seq<char>),
    i: int,
    headers: Seq<(Seq<char>, Seq<char>)>,
    c: Scopes,
    rng: u64,
    now: u64,
)
    requires
        0 <= i <= own.len(),
    ensures
        headers_from(own.push(header), i, headers, c, rng, now) == (match headers_from(
            own,
            i,
            headers,
            c,
            rng,
            now,
        ) {
            (Ok(all), state) => match substituted(header.1, c, state, now, 10) {
                (Ok(value), next) => (
                    Ok::<Seq<(Seq<char>, Seq<char>)>, Seq<char>>(
                        with_header(all, header.0, value),
                    ),
                    next,
                ),
                (Err(error), next) => (Err(error), next),
            },
            (Err(error), state) => (Err(error), state),
        }),
        headers_from(Seq::empty(), 0, headers, c, rng, now) == (
            Ok::<Seq<(Seq<char>, Seq<char>)>, Seq<char>>(headers),
            rng,
        ),
    decreases own.len() - i,
{
    let more = own.push(header);
    if i < own.len() {
        assert(more[i] == own[i]);
        if let (Ok(value), next) = substituted(own[i].1, c, rng, now, 10) {
            headers_are_set_in_turn(
                own,
                header,
                i + 1,
                with_header(headers, own[i].0, value),
                c,
                next,
                now,
            );
        }
    } else {
        assert(more[i] == header);
        reveal_with_fuel(headers_from, 2);
    }
}

/// Whether the names of the headers all differ, whatever their case.
pub open spec fn names_differ(headers: Seq<(Seq<char>, Seq<char>)>) -> bool {
    forall|i: int, j: int|
        0 <= i < j < headers.len() ==> !same_ignoring_ascii_case(
            (#[trigger] headers[i]).0,
            (#[trigger] headers[j]).0,
        )
}

proof fn lemma_plain_headers(
    own: Seq<(Seq<char>, Seq<char>)>,
    c: Scopes,
    rng: u64,
    now: u64,
)
    requires
        names_differ(own),
        forall|i: int| 0 <= i < own.len() ==> placeholder((#[trigger] own[i]).1) is None,
    ensures
        headers_from(own, 0, Seq::empty(), c, rng, now) == (
            Ok::<Seq<(Seq<char>, Seq<char>)>, Seq<char>>(own),
            rng,
        ),
    decreases own.len(),
{
    let none = Seq::<(Seq<char>, Seq<char>)>::empty();
    if own.len() == 0 {
        assert(own =~= none);
    } else {
        let before = own.drop_last();
        let last = own[own.len() - 1];
        assert(names_differ(before)) by {
            assert forall|i: int, j: int|
                0 <= i < j < before.len() implies !same_ignoring_ascii_case(
                (#[trigger] before[i]).0,
                (#[trigger] before[j]).0,
            ) by {
                assert(before[i] == own[i] && before[j] == own[j]);
            }
        }
        assert forall|i: int| 0 <= i < before.len() implies placeholder(
            (#[trigger] before[i]).1,
        ) is None by {
            assert(before[i] == own[i]);
        }
        lemma_plain_headers(before, c, rng, now);
        assert(before.push(last) =~= own);
        headers_are_set_in_turn(before, last, 0, none, c, rng, now);
        text_without_placeholder_is_kept(last.1, c, rng, now, 10);
        lemma_header_index(before, last.0);
        if let Some(i) = header_index(before, last.0) {
            assert(before[i] == own[i]);
        }
    }
}

/// A request without placeholders is sent as it is written, with all its headers in
/// their order: nothing is added, left out or changed.
pub proof fn plain_request_is_sent_as_written(
    request: RequestModel,
    c: Scopes,
    rng: u64,
    now: u64,
)
    requires
        placeholder(request.url) is None,
        request.body matches Some(text) ==> placeholder(text) is None,
        names_differ(request.headers),
        forall|i: int|
            0 <= i < request.headers.len() ==> placeholder(
                (#[trigger] request.headers[i]).1,
            ) is None,
    ensures
        resolution(request, c, Seq::empty(), rng, now) == (
            Ok::<ResolvedModel, Seq<char>>(
                ResolvedModel {
                    name: request.display_name,
                    method: request.method,
                    url: request.url,
                    headers: request.headers,
                    body: request.body,
                    follow_redirects: !request.no_redirect,
                    timeout_secs: request.timeout_secs,
                    connection_timeout_secs: request.connection_timeout_secs,
                    pre_request_script: request.pre_request_script,
                    handler: request.handler,
                    redirect_to: request.redirect_to,
                },
            ),
            rng,
        ),
{
    text_without_placeholder_is_kept(request.url, c, rng, now, 10);
    lemma_plain_headers(request.headers, c, rng, now);
    if let Some(text) = request.body {
        text_without_placeholder_is_kept(text, c, rng, now, 10);
    }
}

/// Of a request, the URL, then the headers on top of the global ones, then the body are
/// substituted, each by its own; what has no placeholders by its nature is taken over.
/// The first that cannot be substituted is the error.
pub proof fn every_part_is_substituted(
    request: RequestModel,
    c: Scopes,
    global_headers: Seq<(Seq<char>, Seq<char>)>,
    rng: u64,
    now: u64,
)
    ensures
        ({
            let (url, a) = substituted(request.url, c, rng, now, 10);
            let (headers, b) = headers_from(request.headers, 0, global_headers, c, a, now);
            let (body, d) = substituted(request.body->0, c, b, now, 10);
            match resolution(request, c, global_headers, rng, now).0 {
                Ok(q) => {
                    &&& url == Ok::<Seq<char>, Seq<char>>(q.url)
                    &&& headers == Ok::<Seq<(Seq<char>, Seq<char>)>, Seq<char>>(q.headers)
                    &&& q.body is Some == request.body is Some
                    &&& request.body is Some ==> body == Ok::<Seq<char>, Seq<char>>(q.body->0)
                    &&& q.name == request.display_name && q.method == request.method
                    &&& q.follow_redirects == !request.no_redirect
                    &&& q.timeout_secs == request.timeout_secs
                    &&& q.connection_timeout_secs == request.connection_timeout_secs
                    &&& q.pre_request_script == request.pre_request_script
                    &&& q.handler == request.handler && q.redirect_to == request.redirect_to
                },
                Err(error) => {
                    ||| url == Err::<Seq<char>, Seq<char>>(error)
                    ||| url is Ok && headers == Err::<Seq<(Seq<char>, Seq<char>)>, Seq<char>>(error)
                    ||| url is Ok && headers is Ok && request.body is Some && body == Err::<
                        Seq<char>,
                        Seq<char>,
                    >(error)
                },
            }
        }),
{
}

/// Changes of the global headers are applied one after the other, each of them.
pub proof fn header_changes_are_applied_in_turn(
    headers: Seq<(Seq<char>, Seq<char>)>,
    changes: Seq<HeaderChangeModel>,
    name: Seq<char>,
    value: Seq<char>,
    q: Seq<char>,
)
    ensures
        headers_applied(headers, Seq::empty()) == headers,
        lookup(
            headers_applied(headers, changes.push(HeaderChangeModel::Assign(name, value))),
            q,
        ) == if q == name {
            Some(value)
        } else {
            lookup(headers_applied(headers, changes), q)
        },
        headers_applied(headers, changes.push(HeaderChangeModel::Clear(name))) == without_header(
            headers_applied(headers, changes),
            name,
        ),
{
    let assigned = changes.push(HeaderChangeModel::Assign(name, value));
    let cleared = changes.push(HeaderChangeModel::Clear(name));
    assert(assigned.drop_last() =~= changes);
    assert(cleared.drop_last() =~= changes);
    lookup_after_put(headers_applied(headers, changes), name, value, q);
}

/// A script leaves its log lines and its errors behind those there were, all of them
/// and in order, and its changes of the global headers in force.
pub proof fn script_effects_are_folded(state: RunModel, script: Seq<char>, r: ResponseModel)
    ensures
        ({
            let after = after_script(state, Some(HandlerModel::Inline(script)), r);
            let asked = script_result(script, r, state.globals);
            &&& after.logs == state.logs + asked.logs
            &&& after.handler_errors == state.handler_errors + asked.errors
            &&& after.global_headers == headers_applied(state.global_headers, asked.headers)
        }),
{
}

/// The value of a header is that of the first one of its name, whatever its case.
pub proof fn first_header_counts(headers: Seq<(Seq<char>, Seq<char>)>, lower: Seq<char>)
    ensures
        match first_value(headers, lower) {
            Some(value) => exists|k: int|
                0 <= k < headers.len() && lowercase((#[trigger] headers[k]).0) == lower
                    && headers[k].1 == value && forall|j: int|
                    0 <= j < k ==> lowercase((#[trigger] headers[j]).0) != lower,
            None => forall|j: int|
                0 <= j < headers.len() ==> lowercase((#[trigger] headers[j]).0) != lower,
        },
    decreases headers.len(),
{
    if headers.len() > 0 && lowercase(headers[0].0) != lower {
        let rest = headers.drop_first();
        first_header_counts(rest, lower);
        if first_value(rest, lower) is Some {
            let k = choose|k: int|
                0 <= k < rest.len() && lowercase((#[trigger] rest[k]).0) == lower && rest[k].1
                    == first_value(rest, lower)->0 && forall|j: int|
                    0 <= j < k ==> lowercase((#[trigger] rest[j]).0) != lower;
            assert(headers[k + 1] == rest[k]);
            assert forall|j: int| 0 <= j < k + 1 implies lowercase((#[trigger] headers[j]).0)
                != lower by {
                if j > 0 {
                    assert(rest[j - 1] == headers[j]);
                }
            }
        } else {
            assert forall|j: int| 0 <= j < headers.len() implies lowercase(
                (#[trigger] headers[j]).0,
            ) != lower by {
                if j > 0 {
                    assert(rest[j - 1] == headers[j]);
                }
            }
        }
    }
}

} // verus!
