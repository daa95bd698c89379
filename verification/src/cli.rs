//! The command line: its arguments, and what they select.

use vstd::prelude::*;
use vstd::string::StringExecFns;
use crate::decimal::decimal;
use crate::decimal::decimal_of;
use crate::decimal::decimal_reads_back;
use crate::decimal::read_unsigned;
use crate::decimal::read_usize;
use crate::env::Environment;
use crate::env::environment_models;
use crate::json::Json;
use crate::parser::Request;
use crate::parser::RequestModel;
use crate::parser::are_placed;
use crate::parser::is_placed;
use crate::parser::request_models;
use crate::text::after_prefix;
use crate::text::concat3;
use crate::text::concat;
use crate::text::copy_text;
use crate::text::fill_to;
use crate::text::filled;
use crate::text::has_prefix;
use crate::text::is_digit;
use crate::text::is_empty_text;
use crate::text::is_trimmed;
use crate::text::join;
use crate::text::join_of;
use crate::text::owned;
use crate::text::replace_char;
use crate::text::replaced;
use crate::text::same;
use crate::text::shows;
use crate::text::shows_behind;
use crate::text::starts_with;
use crate::text::strip_prefix;
use crate::text::text_option;
use crate::text::texts;
use crate::text::trim;
use crate::text::trim_finds;
use crate::text::trim_of;
use crate::text::trimmed_text_is_kept;
use crate::vars::text_result;

verus! {

// ---------------------------------------------------------------------------
// The arguments of `run`
// ---------------------------------------------------------------------------

/// What `run` was asked for.
#[derive(Debug, PartialEq)]
pub struct RunOptions {
    pub file: String,
    pub name: Option<String>,
    pub index: Option<usize>,
    pub line: Option<usize>,
    pub all: bool,
    pub env_name: Option<String>,
    pub no_env: bool,
    pub root: Option<String>,
    pub curl: String,
    pub fail_on_http_error: bool,
    pub no_cookies: bool,
}

/// What `run` was asked for, as far as its arguments have been read.
#[verifier::ext_equal]
pub ghost struct Options {
    pub file: Option<Seq<char>>,
    pub name: Option<Seq<char>>,
    pub index: Option<nat>,
    pub line: Option<nat>,
    pub all: bool,
    pub env_name: Option<Seq<char>>,
    pub no_env: bool,
    pub root: Option<Seq<char>>,
    pub curl: Seq<char>,
    pub fail_on_http_error: bool,
    pub no_cookies: bool,
}

pub open spec fn number_option(n: Option<usize>) -> Option<nat> {
    match n {
        Some(n) => Some(n as nat),
        None => None,
    }
}

impl View for RunOptions {
    type V = Options;

    open spec fn view(&self) -> Options {
        Options {
            file: Some(self.file@),
            name: text_option(self.name),
            index: number_option(self.index),
            line: number_option(self.line),
            all: self.all,
            env_name: text_option(self.env_name),
            no_env: self.no_env,
            root: text_option(self.root),
            curl: self.curl@,
            fail_on_http_error: self.fail_on_http_error,
            no_cookies: self.no_cookies,
        }
    }
}

/// The options before any argument is read. The curl binary is `$CURL`, or
/// `curl` from the path.
pub open spec fn no_options(curl_env: Option<Seq<char>>) -> Options {
    Options {
        file: None,
        name: None,
        index: None,
        line: None,
        all: false,
        env_name: None,
        no_env: false,
        root: None,
        curl: match curl_env {
            Some(curl) => curl,
            None => "curl"@,
        },
        fail_on_http_error: false,
        no_cookies: false,
    }
}

pub open spec fn takes_value(arg: Seq<char>) -> bool {
    arg == "--name"@ || arg == "--index"@ || arg == "--line"@ || arg == "--env"@ || arg
        == "--root"@ || arg == "--curl"@
}

/// The options with the value of an option that takes one.
pub open spec fn with_value(o: Options, arg: Seq<char>, value: Seq<char>) -> Result<
    Options,
    Seq<char>,
> {
    if arg == "--name"@ {
        Ok(Options { name: Some(value), ..o })
    } else if arg == "--index"@ {
        match read_unsigned(value, usize::MAX as nat) {
            Some(n) => Ok(Options { index: Some(n), ..o }),
            None => Err("--index expects a number"@),
        }
    } else if arg == "--line"@ {
        match read_unsigned(value, usize::MAX as nat) {
            Some(n) => if n == 0 {
                Err("--line expects a one-based line number"@)
            } else {
                Ok(Options { line: Some(n), ..o })
            },
            None => Err("--line expects a number"@),
        }
    } else if arg == "--env"@ {
        Ok(Options { env_name: Some(value), ..o })
    } else if arg == "--root"@ {
        Ok(Options { root: Some(value), ..o })
    } else {
        Ok(Options { curl: value, ..o })
    }
}

/// The options with an argument that stands alone.
pub open spec fn with_argument(o: Options, arg: Seq<char>) -> Result<Options, Seq<char>> {
    if arg == "--all"@ {
        Ok(Options { all: true, ..o })
    } else if arg == "--no-env"@ {
        Ok(Options { no_env: true, ..o })
    } else if arg == "--fail-on-http-error"@ {
        Ok(Options { fail_on_http_error: true, ..o })
    } else if arg == "--no-cookies"@ {
        Ok(Options { no_cookies: true, ..o })
    } else if starts_with(arg, "-"@) {
        Err("unknown option: "@ + arg)
    } else if o.file is None {
        Ok(Options { file: Some(arg), ..o })
    } else {
        Err("unexpected argument: "@ + arg)
    }
}

/// The options after the arguments from number `i` on.
pub open spec fn options_from(args: Seq<Seq<char>>, i: int, o: Options) -> Result<
    Options,
    Seq<char>,
>
    decreases args.len() - i,
{
    if i < 0 || i >= args.len() {
        if o.file is None {
            Err("missing file argument"@)
        } else {
            Ok(o)
        }
    } else if takes_value(args[i]) {
        if i + 1 >= args.len() {
            Err(args[i] + " requires a value"@)
        } else {
            match with_value(o, args[i], args[i + 1]) {
                Ok(next) => options_from(args, i + 2, next),
                Err(error) => Err(error),
            }
        }
    } else {
        match with_argument(o, args[i]) {
            Ok(next) => options_from(args, i + 1, next),
            Err(error) => Err(error),
        }
    }
}

pub open spec fn options_result(r: Result<RunOptions, String>) -> Result<Options, Seq<char>> {
    match r {
        Ok(o) => Ok(o@),
        Err(e) => Err(e@),
    }
}

/// The options while the file may still be missing.
struct Draft {
    file: Option<String>,
    rest: RunOptions,
}

impl Draft {
    spec fn model(&self) -> Options {
        Options { file: text_option(self.file), ..self.rest@ }
    }

    fn set_value(&mut self, arg: &str, value: &str) -> (r: Result<(), String>)
        requires
            takes_value(arg@),
        ensures
            r matches Ok(_) ==> with_value(old(self).model(), arg@, value@) == Ok::<
                Options,
                Seq<char>,
            >(final(self).model()),
            r matches Err(e) ==> with_value(old(self).model(), arg@, value@) == Err::<
                Options,
                Seq<char>,
            >(e@),
    {
        if same(arg, "--name") {
            self.rest.name = Some(owned(value));
        } else if same(arg, "--index") {
            match read_usize(value) {
                Some(n) => {
                    self.rest.index = Some(n);
                },
                None => {
                    return Err(owned("--index expects a number"));
                },
            }
        } else if same(arg, "--line") {
            match read_usize(value) {
                Some(n) => {
                    if n == 0 {
                        return Err(owned("--line expects a one-based line number"));
                    }
                    self.rest.line = Some(n);
                },
                None => {
                    return Err(owned("--line expects a number"));
                },
            }
        } else if same(arg, "--env") {
            self.rest.env_name = Some(owned(value));
        } else if same(arg, "--root") {
            self.rest.root = Some(owned(value));
        } else {
            self.rest.curl = owned(value);
        }
        Ok(())
    }

    fn set_argument(&mut self, arg: &str) -> (r: Result<(), String>)
        ensures
            r matches Ok(_) ==> with_argument(old(self).model(), arg@) == Ok::<Options, Seq<char>>(
                final(self).model(),
            ),
            r matches Err(e) ==> with_argument(old(self).model(), arg@) == Err::<
                Options,
                Seq<char>,
            >(e@),
    {
        if same(arg, "--all") {
            self.rest.all = true;
        } else if same(arg, "--no-env") {
            self.rest.no_env = true;
        } else if same(arg, "--fail-on-http-error") {
            self.rest.fail_on_http_error = true;
        } else if same(arg, "--no-cookies") {
            self.rest.no_cookies = true;
        } else if has_prefix(arg, "-") {
            return Err(concat("unknown option: ", arg));
        } else if self.file.is_none() {
            self.file = Some(owned(arg));
        } else {
            return Err(concat("unexpected argument: ", arg));
        }
        Ok(())
    }
}

fn needs_value(arg: &str) -> (r: bool)
    ensures
        r == takes_value(arg@),
{
    same(arg, "--name") || same(arg, "--index") || same(arg, "--line") || same(arg, "--env")
        || same(arg, "--root") || same(arg, "--curl")
}

/// Reads the arguments of `run`. The value of `$CURL`, where it is set, is
/// `curl_env`.
pub fn parse_run_args(args: &[String], curl_env: Option<String>) -> (r: Result<RunOptions, String>)
    ensures
        options_result(r) == options_from(texts(args@), 0, no_options(text_option(curl_env))),
{
    let ghost all = texts(args@);
    let ghost start = no_options(text_option(curl_env));
    let mut draft = Draft {
        file: None,
        rest: RunOptions {
            file: String::new(),
            name: None,
            index: None,
            line: None,
            all: false,
            env_name: None,
            no_env: false,
            root: None,
            curl: match curl_env {
                Some(curl) => curl,
                None => owned("curl"),
            },
            fail_on_http_error: false,
            no_cookies: false,
        },
    };
    assert(draft.model() =~= start);
    let total: usize = args.len();
    let mut i: usize = 0;
    while i < total
        invariant
            all == texts(args@),
            start == no_options(text_option(curl_env)),
            total == args@.len(),
            i <= total,
            options_from(all, i as int, draft.model()) == options_from(all, 0, start),
        decreases total - i,
    {
        let arg = args[i].as_str();
        assert(all[i as int] == arg@);
        if needs_value(arg) {
            if total - i < 2 {
                return Err(concat(arg, " requires a value"));
            }
            assert(all[i + 1] == args@[i + 1]@);
            match draft.set_value(arg, args[i + 1].as_str()) {
                Ok(_) => {},
                Err(error) => {
                    return Err(error);
                },
            }
            i = i + 2;
        } else {
            match draft.set_argument(arg) {
                Ok(_) => {},
                Err(error) => {
                    return Err(error);
                },
            }
            i = i + 1;
        }
    }
    match draft.file {
        Some(file) => {
            let mut options = draft.rest;
            options.file = file;
            Ok(options)
        },
        None => Err(owned("missing file argument")),
    }
}

// ---------------------------------------------------------------------------
// The requests that are selected
// ---------------------------------------------------------------------------

/// The position of the first request from number `i` on of which `p` holds.
pub open spec fn first_where(
    requests: Seq<RequestModel>,
    p: spec_fn(RequestModel) -> bool,
    i: int,
) -> Option<int>
    decreases requests.len() - i,
{
    if i < 0 || i >= requests.len() {
        None
    } else if p(requests[i]) {
        Some(i)
    } else {
        first_where(requests, p, i + 1)
    }
}

/// The request that is shown as `name`, or that `#N` counts.
pub open spec fn named(requests: Seq<RequestModel>, name: Seq<char>) -> Option<int> {
    match first_where(requests, |r: RequestModel| r.display_name == name, 0) {
        Some(i) => Some(i),
        None => match strip_prefix(name, "#"@) {
            Some(number) => match read_unsigned(number, usize::MAX as nat) {
                Some(n) => if 0 < n <= requests.len() {
                    Some(n - 1)
                } else {
                    None
                },
                None => None,
            },
            None => None,
        },
    }
}

/// The request whose request line is line `line`, or else the one around it.
pub open spec fn at_line(requests: Seq<RequestModel>, line: int) -> Option<int> {
    match first_where(requests, |r: RequestModel| r.request_line == line, 0) {
        Some(i) => Some(i),
        None => first_where(
            requests,
            |r: RequestModel| r.start_line <= line <= r.end_line,
            0,
        ),
    }
}

pub open spec fn one_request(
    requests: Seq<RequestModel>,
    found: Option<int>,
    error: Seq<char>,
) -> Result<Seq<int>, Seq<char>> {
    match found {
        Some(i) => Ok(seq![requests[i].index]),
        None => Err(error),
    }
}

/// The requests that the options select, by their numbers in the file.
pub open spec fn selection(requests: Seq<RequestModel>, o: Options) -> Result<
    Seq<int>,
    Seq<char>,
> {
    if o.all {
        Ok(Seq::new(requests.len(), |i: int| i))
    } else if let Some(name) = o.name {
        one_request(requests, named(requests, name), "no request named `"@ + name + "`"@)
    } else if let Some(index) = o.index {
        one_request(
            requests,
            if index < requests.len() {
                Some(index as int)
            } else {
                None
            },
            "no request at index "@ + decimal(index),
        )
    } else if let Some(line) = o.line {
        if line == 0 {
            Err("line numbers start at 1"@)
        } else {
            one_request(
                requests,
                at_line(requests, line - 1),
                "no request at line "@ + decimal((line - 1) as nat),
            )
        }
    } else if requests.len() == 1 {
        Ok(seq![0int])
    } else {
        Err("specify --name, --index, --line or --all"@)
    }
}

pub open spec fn numbers(v: Seq<usize>) -> Seq<int> {
    Seq::new(v.len(), |i: int| v[i] as int)
}

pub open spec fn selection_result(r: Result<Vec<usize>, String>) -> Result<Seq<int>, Seq<char>> {
    match r {
        Ok(v) => Ok(numbers(v@)),
        Err(e) => Err(e@),
    }
}

fn find_displayed(requests: &[Request], name: &str) -> (r: Option<usize>)
    ensures
        number_option(r) == (match first_where(
            request_models(requests@),
            |q: RequestModel| q.display_name == name@,
            0,
        ) {
            Some(i) => Some(i as nat),
            None => None,
        }),
        r matches Some(i) ==> i < requests@.len(),
{
    let ghost all = request_models(requests@);
    let ghost p = |q: RequestModel| q.display_name == name@;
    for i in 0..requests.len()
        invariant
            all == request_models(requests@),
            p == (|q: RequestModel| q.display_name == name@),
            first_where(all, p, i as int) == first_where(all, p, 0),
    {
        assert(all[i as int] == requests@[i as int]@);
        if same(requests[i].display_name.as_str(), name) {
            return Some(i);
        }
    }
    None
}

fn find_named(requests: &[Request], name: &str) -> (r: Option<usize>)
    ensures
        number_option(r) == (match named(request_models(requests@), name@) {
            Some(i) => Some(i as nat),
            None => None,
        }),
        r matches Some(i) ==> i < requests@.len(),
{
    let ghost all = request_models(requests@);
    if let Some(i) = find_displayed(requests, name) {
        return Some(i);
    }
    match after_prefix(name, "#") {
        Some(number) => match read_usize(number) {
            Some(n) => if 0 < n && n <= requests.len() {
                Some(n - 1)
            } else {
                None
            },
            None => None,
        },
        None => None,
    }
}

fn find_at_line(requests: &[Request], line: usize) -> (r: Option<usize>)
    ensures
        number_option(r) == (match at_line(request_models(requests@), line as int) {
            Some(i) => Some(i as nat),
            None => None,
        }),
        r matches Some(i) ==> i < requests@.len(),
{
    let ghost all = request_models(requests@);
    let ghost on = |q: RequestModel| q.request_line == line as int;
    let ghost around = |q: RequestModel| q.start_line <= line as int <= q.end_line;
    for i in 0..requests.len()
        invariant
            all == request_models(requests@),
            on == (|q: RequestModel| q.request_line == line as int),
            first_where(all, on, i as int) == first_where(all, on, 0),
    {
        assert(all[i as int] == requests@[i as int]@);
        if requests[i].request_line == line {
            return Some(i);
        }
    }
    for i in 0..requests.len()
        invariant
            all == request_models(requests@),
            around == (|q: RequestModel| q.start_line <= line as int <= q.end_line),
            on == (|q: RequestModel| q.request_line == line as int),
            first_where(all, on, 0) is None,
            first_where(all, around, i as int) == first_where(all, around, 0),
    {
        assert(all[i as int] == requests@[i as int]@);
        if requests[i].start_line <= line && line <= requests[i].end_line {
            return Some(i);
        }
    }
    None
}

fn pick(requests: &[Request], found: Option<usize>, error: String) -> (r: Result<
    Vec<usize>,
    String,
>)
    requires
        found matches Some(i) ==> i < requests@.len(),
    ensures
        selection_result(r) == one_request(
            request_models(requests@),
            (match found {
                Some(i) => Some(i as int),
                None => None,
            }),
            error@,
        ),
{
    match found {
        Some(i) => {
            let mut out: Vec<usize> = Vec::new();
            out.push(requests[i].index);
            assert(numbers(out@) =~= seq![request_models(requests@)[i as int].index]);
            Ok(out)
        },
        None => Err(error),
    }
}

/// The requests that the options select, by their numbers in the file.
pub fn select_requests(requests: &[Request], options: &RunOptions) -> (r: Result<
    Vec<usize>,
    String,
>)
    ensures
        selection_result(r) == selection(request_models(requests@), options@),
{
    let ghost all = request_models(requests@);
    if options.all {
        let mut out: Vec<usize> = Vec::new();
        for i in 0..requests.len()
            invariant
                numbers(out@) == Seq::new(i as nat, |k: int| k),
        {
            let ghost before = numbers(out@);
            out.push(i);
            assert(numbers(out@) =~= before.push(i as int));
            assert(numbers(out@) =~= Seq::new((i + 1) as nat, |k: int| k));
        }
        return Ok(out);
    }
    if let Some(name) = &options.name {
        proof {
            lemma_named_exists(all, name@);
        }
        return pick(
            requests,
            find_named(requests, name.as_str()),
            concat3("no request named `", name.as_str(), "`"),
        );
    }
    if let Some(index) = options.index {
        return pick(
            requests,
            if index < requests.len() {
                Some(index)
            } else {
                None
            },
            concat("no request at index ", decimal_of(index as u64).as_str()),
        );
    }
    if let Some(line) = options.line {
        if line == 0 {
            return Err(owned("line numbers start at 1"));
        }
        proof {
            lemma_at_line_exists(all, line - 1);
        }
        return pick(
            requests,
            find_at_line(requests, line - 1),
            concat("no request at line ", decimal_of((line - 1) as u64).as_str()),
        );
    }
    if requests.len() == 1 {
        let mut out: Vec<usize> = Vec::new();
        out.push(0);
        assert(numbers(out@) =~= seq![0int]);
        return Ok(out);
    }
    Err(owned("specify --name, --index, --line or --all"))
}

proof fn lemma_first_where(
    requests: Seq<RequestModel>,
    p: spec_fn(RequestModel) -> bool,
    i: int,
)
    requires
        0 <= i,
    ensures
        first_where(requests, p, i) matches Some(k) ==> {
            &&& i <= k < requests.len()
            &&& p(requests[k])
            &&& forall|j: int| i <= j < k ==> !p(#[trigger] requests[j])
        },
        first_where(requests, p, i) is None ==> forall|j: int|
            i <= j < requests.len() ==> !p(#[trigger] requests[j]),
    decreases requests.len() - i,
{
    if i < requests.len() && !p(requests[i]) {
        lemma_first_where(requests, p, i + 1);
    }
}

proof fn lemma_named_exists(requests: Seq<RequestModel>, name: Seq<char>)
    ensures
        named(requests, name) matches Some(i) ==> 0 <= i < requests.len(),
{
    lemma_first_where(requests, |r: RequestModel| r.display_name == name, 0);
}

proof fn lemma_at_line_exists(requests: Seq<RequestModel>, line: int)
    ensures
        at_line(requests, line) matches Some(i) ==> 0 <= i < requests.len(),
{
    lemma_first_where(requests, |r: RequestModel| r.request_line == line, 0);
    lemma_first_where(requests, |r: RequestModel| r.start_line <= line <= r.end_line, 0);
}

/// Whatever is selected of a document is one of its requests.
pub proof fn selected_requests_exist(requests: Seq<RequestModel>, o: Options)
    requires
        are_placed(requests),
    ensures
        selection(requests, o) matches Ok(selected) ==> forall|k: int|
            0 <= k < selected.len() ==> 0 <= #[trigger] selected[k] < requests.len(),
{
    if let Some(name) = o.name {
        lemma_named_exists(requests, name);
        if let Some(i) = named(requests, name) {
            assert(is_placed(requests[i], i));
        }
    }
    if let Some(index) = o.index {
        if index < requests.len() {
            assert(is_placed(requests[index as int], index as int));
        }
    }
    if let Some(line) = o.line {
        lemma_at_line_exists(requests, line - 1);
        if let Some(i) = at_line(requests, line - 1) {
            assert(is_placed(requests[i], i));
        }
    }
}

/// Every line of a request selects it: the lines of the requests of a document do
/// not overlap.
pub proof fn every_line_selects_its_request(requests: Seq<RequestModel>, k: int, line: int)
    requires
        are_placed(requests),
        0 <= k < requests.len(),
        requests[k].start_line <= line <= requests[k].end_line,
    ensures
        at_line(requests, line) == Some(k),
{
    let on = |r: RequestModel| r.request_line == line;
    let around = |r: RequestModel| r.start_line <= line <= r.end_line;
    lemma_first_where(requests, on, 0);
    lemma_first_where(requests, around, 0);
    assert(is_placed(requests[k], k));
    assert(around(requests[k]));
    assert forall|j: int| 0 <= j < requests.len() && j != k implies !around(#[trigger] requests[j])
        && !on(requests[j]) by {
        assert(is_placed(requests[j], j));
        if j < k {
            assert(requests[j].end_line < requests[k].start_line);
        } else {
            assert(requests[k].end_line < requests[j].start_line);
        }
    }
}

// ---------------------------------------------------------------------------
// The environment that is selected
// ---------------------------------------------------------------------------

/// The names of environments.
pub open spec fn environment_names(
    environments: Seq<(Seq<char>, Seq<(Seq<char>, Json)>)>,
) -> Seq<Seq<char>> {
    Seq::new(environments.len(), |i: int| environments[i].0)
}

/// The name that is asked for: by `--env`, by `$HTTP_CLIENT_ENV`, or by the
/// persisted selection, in this order.
pub open spec fn asked_environment(
    o: Options,
    variable: Option<Seq<char>>,
    persisted: Option<Seq<char>>,
) -> Option<Seq<char>> {
    if o.env_name is Some {
        o.env_name
    } else if variable is Some {
        variable
    } else {
        match persisted {
            Some(text) => if trim(text).len() == 0 {
                None
            } else {
                Some(trim(text))
            },
            None => None,
        }
    }
}

/// The environment to use. One that is asked for must be known; `--no-env` ignores
/// the persisted selection.
pub open spec fn selected_environment(
    o: Options,
    variable: Option<Seq<char>>,
    persisted: Option<Seq<char>>,
    names: Seq<Seq<char>>,
) -> Result<Option<Seq<char>>, Seq<char>> {
    match asked_environment(
        o,
        variable,
        if o.no_env {
            None
        } else {
            persisted
        },
    ) {
        Some(name) => if names.contains(name) {
            Ok(Some(name))
        } else {
            Err(
                "environment `"@ + name + "` not found (available: "@ + join(names, ", "@) + ")"@,
            )
        },
        None => Ok(None),
    }
}

pub open spec fn name_result(r: Result<Option<String>, String>) -> Result<
    Option<Seq<char>>,
    Seq<char>,
> {
    match r {
        Ok(name) => Ok(text_option(name)),
        Err(e) => Err(e@),
    }
}

fn names_of(environments: &[Environment]) -> (r: Vec<String>)
    ensures
        texts(r@) == environment_names(environment_models(environments@)),
{
    let ghost all = environment_names(environment_models(environments@));
    let mut out: Vec<String> = Vec::new();
    for i in 0..environments.len()
        invariant
            all == environment_names(environment_models(environments@)),
            texts(out@) == all.take(i as int),
    {
        let ghost before = texts(out@);
        out.push(environments[i].name.clone());
        assert(texts(out@) =~= before.push(all[i as int]));
    }
    assert(all.take(environments@.len() as int) =~= all);
    out
}

fn knows(names: &Vec<String>, name: &str) -> (r: bool)
    ensures
        r == texts(names@).contains(name@),
{
    let ghost all = texts(names@);
    for i in 0..names.len()
        invariant
            all == texts(names@),
            forall|k: int| 0 <= k < i ==> #[trigger] all[k] != name@,
    {
        assert(all[i as int] == names@[i as int]@);
        if same(names[i].as_str(), name) {
            return true;
        }
    }
    false
}

/// The environment to use, given the value of `$HTTP_CLIENT_ENV` and the
/// persisted selection, where there are such.
pub fn select_environment(
    options: &RunOptions,
    variable: Option<String>,
    persisted: Option<String>,
    environments: &[Environment],
) -> (r: Result<Option<String>, String>)
    ensures
        name_result(r) == selected_environment(
            options@,
            text_option(variable),
            text_option(persisted),
            environment_names(environment_models(environments@)),
        ),
{
    let persisted = if options.no_env {
        None
    } else {
        persisted
    };
    let asked = if options.env_name.is_some() {
        copy_text(&options.env_name)
    } else if variable.is_some() {
        variable
    } else {
        match persisted {
            Some(text) => {
                let name = trim_of(text.as_str());
                if is_empty_text(name) {
                    None
                } else {
                    Some(owned(name))
                }
            },
            None => None,
        }
    };
    match asked {
        Some(name) => {
            let names = names_of(environments);
            if knows(&names, name.as_str()) {
                Ok(Some(name))
            } else {
                let mut error = concat3(
                    "environment `",
                    name.as_str(),
                    "` not found (available: ",
                );
                error.append(join_of(&names, ", ").as_str());
                error.append(")");
                Err(error)
            }
        },
        None => Ok(None),
    }
}

// ---------------------------------------------------------------------------
// The arguments of `env`
// ---------------------------------------------------------------------------

/// What `env` was asked for.
pub struct EnvArgs {
    pub interactive: bool,
    pub name: Option<String>,
}

/// The first argument from number `i` on that is not `--select`.
pub open spec fn first_name(args: Seq<Seq<char>>, i: int) -> Option<Seq<char>>
    decreases args.len() - i,
{
    if i < 0 || i >= args.len() {
        None
    } else if args[i] != "--select"@ {
        Some(args[i])
    } else {
        first_name(args, i + 1)
    }
}

/// Reads the arguments of `env` behind the file.
pub fn parse_env_args(args: &[String]) -> (r: EnvArgs)
    ensures
        r.interactive == texts(args@).contains("--select"@),
        text_option(r.name) == first_name(texts(args@), 0),
{
    let ghost all = texts(args@);
    let mut interactive = false;
    let mut name: Option<String> = None;
    for i in 0..args.len()
        invariant
            all == texts(args@),
            interactive == exists|k: int| 0 <= k < i && #[trigger] all[k] == "--select"@,
            name is None ==> first_name(all, i as int) == first_name(all, 0),
            name is Some ==> text_option(name) == first_name(all, 0),
    {
        let arg = args[i].as_str();
        assert(all[i as int] == arg@);
        if same(arg, "--select") {
            interactive = true;
        } else if name.is_none() {
            name = Some(owned(arg));
        }
    }
    EnvArgs { interactive, name }
}

/// The environment that an answer selects: by its number, counted from 1, or by
/// its name.
pub open spec fn chosen(answer: Seq<char>, names: Seq<Seq<char>>) -> Seq<char> {
    let answer = trim(answer);
    match read_unsigned(answer, usize::MAX as nat) {
        Some(n) => {
            let i = if n == 0 {
                0
            } else {
                n - 1
            };
            if i < names.len() {
                names[i]
            } else {
                answer
            }
        },
        None => answer,
    }
}

/// The environment that an answer selects.
pub fn environment_choice(answer: &str, environments: &[Environment]) -> (r: String)
    ensures
        r@ == chosen(answer@, environment_names(environment_models(environments@))),
{
    let answer = trim_of(answer);
    match read_usize(answer) {
        Some(n) => {
            let i: usize = if n == 0 {
                0
            } else {
                n - 1
            };
            if i < environments.len() {
                environments[i].name.clone()
            } else {
                owned(answer)
            }
        },
        None => owned(answer),
    }
}

/// Whether no environment is selected although there are some.
pub fn lacks_environment(selected: &Option<String>, environments: &[Environment]) -> (r: bool)
    ensures
        r == (selected is None && environments@.len() > 0),
{
    selected.is_none() && environments.len() > 0
}

/// What `env` does.
#[derive(Debug, PartialEq)]
pub enum EnvAction {
    /// Show the environments.
    List,
    /// Persist the selection of this environment.
    Persist(String),
    /// Report that there is no such environment.
    Unknown(String),
    /// Nothing was selected.
    Nothing,
}

/// What `env` does.
pub ghost enum EnvActionModel {
    List,
    Persist(Seq<char>),
    Unknown(Seq<char>),
    Nothing,
}

impl View for EnvAction {
    type V = EnvActionModel;

    open spec fn view(&self) -> EnvActionModel {
        match self {
            EnvAction::List => EnvActionModel::List,
            EnvAction::Persist(name) => EnvActionModel::Persist(name@),
            EnvAction::Unknown(name) => EnvActionModel::Unknown(name@),
            EnvAction::Nothing => EnvActionModel::Nothing,
        }
    }
}

/// What `env` does when `requested` is asked for.
pub open spec fn env_action_for(
    requested: Option<Seq<char>>,
    names: Seq<Seq<char>>,
) -> EnvActionModel {
    match requested {
        None => EnvActionModel::List,
        Some(name) => if name.len() == 0 {
            EnvActionModel::Nothing
        } else if names.contains(name) {
            EnvActionModel::Persist(name)
        } else {
            EnvActionModel::Unknown(name)
        },
    }
}

/// What `env` does when `requested` is asked for.
pub fn env_action(requested: Option<String>, environments: &[Environment]) -> (r: EnvAction)
    ensures
        r@ == env_action_for(
            text_option(requested),
            environment_names(environment_models(environments@)),
        ),
{
    match requested {
        None => EnvAction::List,
        Some(name) => {
            if is_empty_text(name.as_str()) {
                EnvAction::Nothing
            } else if knows(&names_of(environments), name.as_str()) {
                EnvAction::Persist(name)
            } else {
                EnvAction::Unknown(name)
            }
        },
    }
}

// ---------------------------------------------------------------------------
// Lines that are shown
// ---------------------------------------------------------------------------

/// The line that `list` shows of a request.
pub open spec fn list_text(r: RequestModel) -> Seq<char> {
    "#"@ + filled(decimal(r.index as nat), 3) + " "@ + filled(r.display_name, 24) + " "@ + filled(
        r.method,
        8,
    ) + " "@ + r.url
}

/// The line that `list` shows of a request.
pub fn list_line(request: &Request) -> (r: String)
    ensures
        r@ == list_text(request@),
{
    let mut out = owned("#");
    out.append(fill_to(decimal_of(request.index as u64).as_str(), 3).as_str());
    out.append(" ");
    out.append(fill_to(request.display_name.as_str(), 24).as_str());
    out.append(" ");
    out.append(fill_to(request.method.as_str(), 8).as_str());
    out.append(" ");
    out.append(request.url.as_str());
    out
}

/// The line that shows a request that could have been selected.
pub open spec fn available_text(r: RequestModel) -> Seq<char> {
    "  #"@ + decimal(r.index as nat) + "  "@ + r.display_name + "  "@ + r.method + " "@ + r.url
}

/// The line that shows a request that could have been selected.
pub fn available_line(request: &Request) -> (r: String)
    ensures
        r@ == available_text(request@),
{
    let mut out = owned("  #");
    out.append(decimal_of(request.index as u64).as_str());
    out.append("  ");
    out.append(request.display_name.as_str());
    out.append("  ");
    out.append(request.method.as_str());
    out.append(" ");
    out.append(request.url.as_str());
    out
}

/// The names of variables.
pub open spec fn variable_names(vars: Seq<(Seq<char>, Json)>) -> Seq<Seq<char>> {
    Seq::new(vars.len(), |i: int| vars[i].0)
}

/// The line that `env` shows of an environment: its name, and the names of its
/// variables.
pub fn environment_line(environment: &Environment) -> (r: String)
    ensures
        r@ == environment.name@ + ": "@ + join(variable_names(environment.vars@), ", "@),
{
    let ghost all = variable_names(environment.vars@);
    let mut keys: Vec<String> = Vec::new();
    let total: usize = environment.vars.len();
    for i in 0..total
        invariant
            total == environment.vars@.len(),
            all == variable_names(environment.vars@),
            texts(keys@) == all.take(i as int),
    {
        let ghost before = texts(keys@);
        keys.push(owned(environment.vars.key_at(i)));
        assert(texts(keys@) =~= before.push(all[i as int]));
    }
    assert(all.take(total as int) =~= all);
    concat3(environment.name.as_str(), ": ", join_of(&keys, ", ").as_str())
}

// ---------------------------------------------------------------------------
// The project root
// ---------------------------------------------------------------------------

/// The first of the directories, from number `i` on, that holds a repository.
pub open spec fn first_repository(dirs: Seq<(String, bool)>, i: int) -> Option<int>
    decreases dirs.len() - i,
{
    if i < 0 || i >= dirs.len() {
        None
    } else if dirs[i].1 {
        Some(i)
    } else {
        first_repository(dirs, i + 1)
    }
}

/// The project root: the one asked for, or the nearest directory above the file
/// that holds a repository, or the directory of the file.
pub open spec fn root_of(asked: Option<Seq<char>>, dirs: Seq<(String, bool)>) -> Result<
    Seq<char>,
    Seq<char>,
> {
    match asked {
        Some(root) => Ok(root),
        None => if dirs.len() == 0 {
            Err("file has no parent directory"@)
        } else {
            match first_repository(dirs, 0) {
                Some(i) => Ok(dirs[i].0@),
                None => Ok(dirs[0].0@),
            }
        },
    }
}

/// The project root. The directories above the file come from near to far, each
/// with whether it holds a repository.
pub fn project_root(asked: Option<String>, dirs: &[(String, bool)]) -> (r: Result<String, String>)
    ensures
        text_result(r) == root_of(text_option(asked), dirs@),
{
    if let Some(root) = asked {
        return Ok(root);
    }
    if dirs.len() == 0 {
        return Err(owned("file has no parent directory"));
    }
    for i in 0..dirs.len()
        invariant
            asked is None,
            dirs@.len() > 0,
            first_repository(dirs@, i as int) == first_repository(dirs@, 0),
    {
        if dirs[i].1 {
            return Ok(dirs[i].0.clone());
        }
    }
    Ok(dirs[0].0.clone())
}

/// The directory of a file as seen from the project root, with `/` between its
/// parts; the root itself for a file outside of it.
pub fn relative_dir(relative: Option<&str>) -> (r: String)
    ensures
        r@ == (match relative {
            Some(dir) => replaced(dir@, '\\', '/'),
            None => Seq::empty(),
        }),
{
    match relative {
        Some(dir) => replace_char(dir, '\\', '/'),
        None => String::new(),
    }
}

// ---------------------------------------------------------------------------
// What holds of every command line
// ---------------------------------------------------------------------------

/// Whatever environment is used is a known one; a known one that is asked for by
/// `--env`, or else by `$HTTP_CLIENT_ENV`, is used; and with `--no-env` the
/// persisted selection makes no difference.
pub proof fn used_environment_is_known(
    o: Options,
    variable: Option<Seq<char>>,
    persisted: Option<Seq<char>>,
    names: Seq<Seq<char>>,
)
    ensures
        selected_environment(o, variable, persisted, names) matches Ok(Some(name))
            ==> names.contains(name),
        o.no_env ==> selected_environment(o, variable, persisted, names) == selected_environment(
            o,
            variable,
            None,
            names,
        ),
        o.env_name is Some && names.contains(o.env_name->0) ==> selected_environment(
            o,
            variable,
            persisted,
            names,
        ) == Ok::<Option<Seq<char>>, Seq<char>>(o.env_name),
        o.env_name is None && variable is Some && names.contains(variable->0)
            ==> selected_environment(o, variable, persisted, names) == Ok::<
            Option<Seq<char>>,
            Seq<char>,
        >(variable),
{
}

proof fn lemma_options_behind(
    read: Seq<Seq<char>>,
    rest: Seq<Seq<char>>,
    i: int,
    o: Options,
)
    requires
        0 <= i <= rest.len(),
    ensures
        options_from(read + rest, read.len() + i, o) == options_from(rest, i, o),
    decreases rest.len() - i,
{
    let all = read + rest;
    if i < rest.len() {
        assert(all[read.len() + i] == rest[i]);
        if takes_value(rest[i]) {
            if i + 1 < rest.len() {
                assert(all[read.len() + i + 1] == rest[i + 1]);
                if let Ok(next) = with_value(o, rest[i], rest[i + 1]) {
                    lemma_options_behind(read, rest, i + 2, next);
                }
            }
        } else if let Ok(next) = with_argument(o, rest[i]) {
            lemma_options_behind(read, rest, i + 1, next);
        }
    }
}

proof fn lemma_option_names()
    ensures
        "--name"@ != "--index"@ && "--name"@ != "--line"@ && "--name"@ != "--env"@ && "--name"@
            != "--root"@ && "--name"@ != "--curl"@,
        "--index"@ != "--line"@ && "--index"@ != "--env"@ && "--index"@ != "--root"@ && "--index"@
            != "--curl"@,
        "--line"@ != "--env"@ && "--line"@ != "--root"@ && "--line"@ != "--curl"@,
        "--env"@ != "--root"@ && "--env"@ != "--curl"@,
        "--root"@ != "--curl"@,
        "--all"@ != "--no-env"@ && "--all"@ != "--fail-on-http-error"@ && "--all"@
            != "--no-cookies"@,
        "--no-env"@ != "--fail-on-http-error"@ && "--no-env"@ != "--no-cookies"@,
        "--fail-on-http-error"@ != "--no-cookies"@,
        !takes_value("--all"@) && !takes_value("--no-env"@) && !takes_value(
            "--fail-on-http-error"@,
        ) && !takes_value("--no-cookies"@),
{
    reveal_strlit("--name");
    reveal_strlit("--index");
    reveal_strlit("--line");
    reveal_strlit("--env");
    reveal_strlit("--root");
    reveal_strlit("--curl");
    reveal_strlit("--all");
    reveal_strlit("--no-env");
    reveal_strlit("--fail-on-http-error");
    reveal_strlit("--no-cookies");
    assert("--name"@[2] == 'n' && "--index"@[2] == 'i' && "--line"@[2] == 'l' && "--env"@[2] == 'e'
        && "--root"@[2] == 'r' && "--curl"@[2] == 'c' && "--all"@[2] == 'a' && "--no-env"@[2]
        == 'n' && "--fail-on-http-error"@[2] == 'f' && "--no-cookies"@[2] == 'n');
    assert("--no-env"@.len() == 8 && "--no-cookies"@.len() == 12 && "--name"@.len() == 6);
}

/// Every option is read, in whatever place it stands: it sets what it is for and nothing
/// else, and reading goes on behind it.
pub proof fn options_are_read(rest: Seq<Seq<char>>, o: Options, value: Seq<char>, n: nat)
    requires
        0 < n <= usize::MAX,
    ensures
        options_from(seq!["--name"@, value] + rest, 0, o) == options_from(
            rest,
            0,
            (Options { name: Some(value), ..o }),
        ),
        options_from(seq!["--env"@, value] + rest, 0, o) == options_from(
            rest,
            0,
            (Options { env_name: Some(value), ..o }),
        ),
        options_from(seq!["--root"@, value] + rest, 0, o) == options_from(
            rest,
            0,
            (Options { root: Some(value), ..o }),
        ),
        options_from(seq!["--curl"@, value] + rest, 0, o) == options_from(
            rest,
            0,
            (Options { curl: value, ..o }),
        ),
        options_from(seq!["--index"@, decimal(n)] + rest, 0, o) == options_from(
            rest,
            0,
            (Options { index: Some(n), ..o }),
        ),
        options_from(seq!["--line"@, decimal(n)] + rest, 0, o) == options_from(
            rest,
            0,
            (Options { line: Some(n), ..o }),
        ),
        options_from(seq!["--line"@, decimal(0)] + rest, 0, o) is Err,
        options_from(seq!["--all"@] + rest, 0, o) == options_from(
            rest,
            0,
            (Options { all: true, ..o }),
        ),
        options_from(seq!["--no-env"@] + rest, 0, o) == options_from(
            rest,
            0,
            (Options { no_env: true, ..o }),
        ),
        options_from(seq!["--fail-on-http-error"@] + rest, 0, o) == options_from(
            rest,
            0,
            (Options { fail_on_http_error: true, ..o }),
        ),
        options_from(seq!["--no-cookies"@] + rest, 0, o) == options_from(
            rest,
            0,
            (Options { no_cookies: true, ..o }),
        ),
{
    lemma_option_names();
    decimal_reads_back(n);
    decimal_reads_back(0);
    lemma_value_read("--name"@, value, rest, o);
    lemma_value_read("--env"@, value, rest, o);
    lemma_value_read("--root"@, value, rest, o);
    lemma_value_read("--curl"@, value, rest, o);
    lemma_value_read("--index"@, decimal(n), rest, o);
    lemma_value_read("--line"@, decimal(n), rest, o);
    lemma_value_read("--line"@, decimal(0), rest, o);
    lemma_decimal_is_read(n);
    lemma_decimal_is_read(0);
    lemma_flag_read("--all"@, rest, o);
    lemma_flag_read("--no-env"@, rest, o);
    lemma_flag_read("--fail-on-http-error"@, rest, o);
    lemma_flag_read("--no-cookies"@, rest, o);
}

proof fn lemma_decimal_is_read(n: nat)
    requires
        n <= usize::MAX,
    ensures
        read_unsigned(decimal(n), usize::MAX as nat) == Some(n),
{
    decimal_reads_back(n);
}

proof fn lemma_value_read(arg: Seq<char>, value: Seq<char>, rest: Seq<Seq<char>>, o: Options)
    requires
        takes_value(arg),
    ensures
        options_from(seq![arg, value] + rest, 0, o) == (match with_value(o, arg, value) {
            Ok(next) => options_from(rest, 0, next),
            Err(error) => Err(error),
        }),
{
    let all = seq![arg, value] + rest;
    assert(all[0] == arg && all[1] == value);
    if let Ok(next) = with_value(o, arg, value) {
        lemma_options_behind(seq![arg, value], rest, 0, next);
    }
}

proof fn lemma_flag_read(arg: Seq<char>, rest: Seq<Seq<char>>, o: Options)
    requires
        !takes_value(arg),
    ensures
        options_from(seq![arg] + rest, 0, o) == (match with_argument(o, arg) {
            Ok(next) => options_from(rest, 0, next),
            Err(error) => Err(error),
        }),
{
    let all = seq![arg] + rest;
    assert(all[0] == arg);
    if let Ok(next) = with_argument(o, arg) {
        lemma_options_behind(seq![arg], rest, 0, next);
    }
}

/// An argument that is no option is the file; there is one, and no more. An option that
/// is not known, or that lacks its value, is an error.
pub proof fn file_is_read(rest: Seq<Seq<char>>, o: Options, arg: Seq<char>)
    ensures
        !starts_with(arg, "-"@) && o.file is None ==> options_from(seq![arg] + rest, 0, o)
            == options_from(rest, 0, (Options { file: Some(arg), ..o })),
        !starts_with(arg, "-"@) && o.file is Some ==> options_from(seq![arg] + rest, 0, o) == Err::<
            Options,
            Seq<char>,
        >("unexpected argument: "@ + arg),
        o.file is None ==> options_from(Seq::empty(), 0, o) == Err::<Options, Seq<char>>(
            "missing file argument"@,
        ),
        o.file is Some ==> options_from(Seq::empty(), 0, o) == Ok::<Options, Seq<char>>(o),
        takes_value(arg) ==> options_from(seq![arg], 0, o) == Err::<Options, Seq<char>>(
            arg + " requires a value"@,
        ),
        starts_with(arg, "-"@) && !takes_value(arg) && arg != "--all"@ && arg != "--no-env"@ && arg
            != "--fail-on-http-error"@ && arg != "--no-cookies"@ ==> options_from(
            seq![arg] + rest,
            0,
            o,
        ) == Err::<Options, Seq<char>>("unknown option: "@ + arg),
{
    reveal_strlit("-");
    lemma_dashes();
    assert(seq![arg][0] == arg);
    if !takes_value(arg) {
        lemma_flag_read(arg, rest, o);
    }
}

proof fn lemma_dashes()
    ensures
        starts_with("--name"@, "-"@) && starts_with("--index"@, "-"@) && starts_with(
            "--line"@,
            "-"@,
        ) && starts_with("--env"@, "-"@) && starts_with("--root"@, "-"@) && starts_with(
            "--curl"@,
            "-"@,
        ),
        starts_with("--all"@, "-"@) && starts_with("--no-env"@, "-"@) && starts_with(
            "--fail-on-http-error"@,
            "-"@,
        ) && starts_with("--no-cookies"@, "-"@),
{
    reveal_strlit("-");
    reveal_strlit("--name");
    reveal_strlit("--index");
    reveal_strlit("--line");
    reveal_strlit("--env");
    reveal_strlit("--root");
    reveal_strlit("--curl");
    reveal_strlit("--all");
    reveal_strlit("--no-env");
    reveal_strlit("--fail-on-http-error");
    reveal_strlit("--no-cookies");
    assert("--name"@.subrange(0, 1) =~= "-"@);
    assert("--index"@.subrange(0, 1) =~= "-"@);
    assert("--line"@.subrange(0, 1) =~= "-"@);
    assert("--env"@.subrange(0, 1) =~= "-"@);
    assert("--root"@.subrange(0, 1) =~= "-"@);
    assert("--curl"@.subrange(0, 1) =~= "-"@);
    assert("--all"@.subrange(0, 1) =~= "-"@);
    assert("--no-env"@.subrange(0, 1) =~= "-"@);
    assert("--fail-on-http-error"@.subrange(0, 1) =~= "-"@);
    assert("--no-cookies"@.subrange(0, 1) =~= "-"@);
}

/// `--all` selects every request in order, `--name` the first that is shown by the name,
/// or else the one that `#N` counts, `--index` the one of that number, and `--line` the
/// one on whose lines it stands. A document with a single request needs no option.
pub proof fn options_select(requests: Seq<RequestModel>, o: Options, k: int)
    requires
        are_placed(requests),
        0 <= k < requests.len(),
    ensures
        o.all ==> selection(requests, o) == Ok::<Seq<int>, Seq<char>>(
            Seq::new(requests.len(), |i: int| i),
        ),
        !o.all && o.name is Some && requests[k].display_name == o.name->0 && (forall|j: int|
            0 <= j < k ==> (#[trigger] requests[j]).display_name != o.name->0) ==> selection(
            requests,
            o,
        ) == Ok::<Seq<int>, Seq<char>>(seq![k]),
        !o.all && o.name == Some("#"@ + decimal((k + 1) as nat)) && requests.len() <= usize::MAX
            && (forall|j: int|
            0 <= j < requests.len() ==> (#[trigger] requests[j]).display_name != o.name->0)
            ==> selection(requests, o) == Ok::<Seq<int>, Seq<char>>(seq![k]),
        !o.all && o.name is None && o.index == Some(k as nat) ==> selection(requests, o) == Ok::<
            Seq<int>,
            Seq<char>,
        >(seq![k]),
        !o.all && o.name is None && o.index is None && o.line is Some
            && requests[k].start_line < o.line->0 <= requests[k].end_line + 1 ==> selection(
            requests,
            o,
        ) == Ok::<Seq<int>, Seq<char>>(seq![k]),
        !o.all && o.name is None && o.index is None && o.line is None ==> (selection(requests, o)
            == if requests.len() == 1 {
            Ok::<Seq<int>, Seq<char>>(seq![0int])
        } else {
            Err("specify --name, --index, --line or --all"@)
        }),
{
    assert(is_placed(requests[k], k));
    if let Some(name) = o.name {
        let shown = |r: RequestModel| r.display_name == name;
        lemma_first_where(requests, shown, 0);
        if requests[k].display_name == name && (forall|j: int|
            0 <= j < k ==> (#[trigger] requests[j]).display_name != name) {
            lemma_first_is(requests, shown, 0, k);
        }
        if name == "#"@ + decimal((k + 1) as nat) && requests.len() <= usize::MAX && (forall|j: int|
            0 <= j < requests.len() ==> (#[trigger] requests[j]).display_name != name) {
            reveal_strlit("#");
            lemma_decimal_is_read((k + 1) as nat);
            assert(name.subrange(0, 1) =~= "#"@);
            assert(name.skip(1) =~= decimal((k + 1) as nat));
            lemma_none_where(requests, shown, 0);
        }
    }
    if let Some(line) = o.line {
        if requests[k].start_line < line <= requests[k].end_line + 1 {
            every_line_selects_its_request(requests, k, line - 1);
        }
    }
}

proof fn lemma_first_is(
    requests: Seq<RequestModel>,
    p: spec_fn(RequestModel) -> bool,
    i: int,
    k: int,
)
    requires
        0 <= i <= k < requests.len(),
        p(requests[k]),
        forall|j: int| i <= j < k ==> !p(#[trigger] requests[j]),
    ensures
        first_where(requests, p, i) == Some(k),
    decreases k - i,
{
    if i < k {
        assert(!p(requests[i]));
        lemma_first_is(requests, p, i + 1, k);
    }
}

proof fn lemma_none_where(requests: Seq<RequestModel>, p: spec_fn(RequestModel) -> bool, i: int)
    requires
        0 <= i <= requests.len(),
        forall|j: int| i <= j < requests.len() ==> !p(#[trigger] requests[j]),
    ensures
        first_where(requests, p, i) is None,
    decreases requests.len() - i,
{
    if i < requests.len() {
        assert(!p(requests[i]));
        lemma_none_where(requests, p, i + 1);
    }
}

/// What is asked for but not there is an error that says what was asked for.
pub proof fn missing_request_is_an_error(requests: Seq<RequestModel>, o: Options)
    requires
        !o.all,
    ensures
        o.name is None && o.index is Some && o.index->0 >= requests.len() ==> selection(requests, o)
            == Err::<Seq<int>, Seq<char>>("no request at index "@ + decimal(o.index->0)),
        o.name is Some && (forall|j: int|
            0 <= j < requests.len() ==> (#[trigger] requests[j]).display_name != o.name->0)
            && !starts_with(o.name->0, "#"@) ==> selection(requests, o) == Err::<
            Seq<int>,
            Seq<char>,
        >("no request named `"@ + o.name->0 + "`"@),
        o.name is None && o.index is None && o.line is Some && o.line->0 > 0 && (forall|j: int|
            0 <= j < requests.len() ==> (#[trigger] requests[j]).request_line != o.line->0 - 1 && (
            o.line->0 - 1 < requests[j].start_line || o.line->0 - 1 > requests[j].end_line))
            ==> selection(requests, o) is Err,
{
    if let Some(name) = o.name {
        let shown = |r: RequestModel| r.display_name == name;
        if forall|j: int|
            0 <= j < requests.len() ==> (#[trigger] requests[j]).display_name != name {
            lemma_none_where(requests, shown, 0);
        }
    }
    if let Some(line) = o.line {
        if forall|j: int|
            0 <= j < requests.len() ==> (#[trigger] requests[j]).request_line != line - 1 && (line
                - 1 < requests[j].start_line || line - 1 > requests[j].end_line) {
            lemma_none_where(requests, |r: RequestModel| r.request_line == line - 1, 0);
            lemma_none_where(
                requests,
                |r: RequestModel| r.start_line <= line - 1 <= r.end_line,
                0,
            );
        }
    }
}

/// The persisted selection is used, without white space around it, where neither `--env`
/// nor `$HTTP_CLIENT_ENV` nor `--no-env` is given. Whatever is asked for and not known is
/// an error; where nothing is asked for, none is used.
pub proof fn persisted_selection_is_last(
    o: Options,
    variable: Option<Seq<char>>,
    name: Seq<char>,
    names: Seq<Seq<char>>,
)
    requires
        is_trimmed(name),
    ensures
        o.env_name is None && variable is None && !o.no_env && name.len() > 0 && names.contains(
            name,
        ) ==> selected_environment(o, variable, Some(name + "\n"@), names) == Ok::<
            Option<Seq<char>>,
            Seq<char>,
        >(Some(name)),
        o.env_name is None && variable is None && (o.no_env || name.len() == 0)
            ==> selected_environment(o, variable, Some(name + "\n"@), names) == Ok::<
            Option<Seq<char>>,
            Seq<char>,
        >(None),
        o.env_name is None && variable is None ==> selected_environment(o, variable, None, names)
            == Ok::<Option<Seq<char>>, Seq<char>>(None),
        o.env_name is Some && !names.contains(o.env_name->0) ==> selected_environment(
            o,
            variable,
            Some(name),
            names,
        ) == Err::<Option<Seq<char>>, Seq<char>>(
            "environment `"@ + o.env_name->0 + "` not found (available: "@ + join(names, ", "@)
                + ")"@,
        ),
        o.env_name is None && variable is Some && !names.contains(variable->0)
            ==> selected_environment(o, variable, Some(name), names) == Err::<
            Option<Seq<char>>,
            Seq<char>,
        >(
            "environment `"@ + variable->0 + "` not found (available: "@ + join(names, ", "@)
                + ")"@,
        ),
{
    reveal_strlit("\n");
    let none = Seq::<char>::empty();
    trim_finds(none, name, "\n"@);
    assert(none + name + "\n"@ =~= name + "\n"@);
}

/// A number, counted from 1, selects the environment of that number; any other answer is
/// taken as a name.
pub proof fn answers_choose(names: Seq<Seq<char>>, k: int, answer: Seq<char>)
    ensures
        0 <= k < names.len() <= usize::MAX ==> chosen(decimal((k + 1) as nat), names) == names[k],
        is_trimmed(answer) && answer.len() > 0 && answer[0] != '+' && !is_digit(answer[0])
            ==> chosen(answer, names) == answer,
{
    if 0 <= k < names.len() <= usize::MAX {
        let text = decimal((k + 1) as nat);
        decimal_reads_back((k + 1) as nat);
        assert(is_digit(text[0]) && is_digit(text[text.len() - 1]));
        trimmed_text_is_kept(text);
        lemma_decimal_is_read((k + 1) as nat);
    }
    if is_trimmed(answer) && answer.len() > 0 && answer[0] != '+' && !is_digit(answer[0]) {
        trimmed_text_is_kept(answer);
        assert(!crate::decimal::all_digits(answer));
    }
}

/// The name is the first argument of `env` that is not `--select`.
pub proof fn first_name_is_first(args: Seq<Seq<char>>, i: int)
    requires
        0 <= i <= args.len(),
    ensures
        match first_name(args, i) {
            Some(name) => exists|k: int|
                i <= k < args.len() && #[trigger] args[k] == name && name != "--select"@
                    && forall|j: int| i <= j < k ==> #[trigger] args[j] == "--select"@,
            None => forall|j: int| i <= j < args.len() ==> #[trigger] args[j] == "--select"@,
        },
    decreases args.len() - i,
{
    if i < args.len() {
        if args[i] == "--select"@ {
            first_name_is_first(args, i + 1);
            if first_name(args, i) is Some {
                let k = choose|k: int|
                    i + 1 <= k < args.len() && #[trigger] args[k] == first_name(args, i)->0
                        && forall|j: int| i + 1 <= j < k ==> #[trigger] args[j] == "--select"@;
                assert(args[k] == first_name(args, i)->0);
            }
        } else {
            assert(args[i] == first_name(args, i)->0);
        }
    }
}

/// `env` keeps a name that is known, and only such; without a name it lists.
pub proof fn only_known_names_are_kept(requested: Option<Seq<char>>, names: Seq<Seq<char>>)
    ensures
        match env_action_for(requested, names) {
            EnvActionModel::Persist(name) => requested == Some(name) && names.contains(name)
                && name.len() > 0,
            EnvActionModel::Unknown(name) => requested == Some(name) && !names.contains(name)
                && name.len() > 0,
            EnvActionModel::List => requested is None,
            EnvActionModel::Nothing => requested is Some && requested->0.len() == 0,
        },
{
}

proof fn lemma_four_shown(
    p0: Seq<char>,
    a: Seq<char>,
    p1: Seq<char>,
    b: Seq<char>,
    p2: Seq<char>,
    c: Seq<char>,
    p3: Seq<char>,
    d: Seq<char>,
)
    ensures
        shows(p0 + a + (p1 + b + (p2 + c + (p3 + d + Seq::empty()))), seq![a, b, c, d]),
{
    let none = Seq::<char>::empty();
    let end = Seq::<Seq<char>>::empty();
    assert(shows(none, end)) by {
        reveal_with_fuel(shows, 2);
    }
    let t1 = p3 + d + none;
    let t2 = p2 + c + t1;
    let t3 = p1 + b + t2;
    shows_behind(p3, d, none, end);
    shows_behind(p2, c, t1, seq![d] + end);
    shows_behind(p1, b, t2, seq![c] + (seq![d] + end));
    shows_behind(p0, a, t3, seq![b] + (seq![c] + (seq![d] + end)));
    assert(seq![a] + (seq![b] + (seq![c] + (seq![d] + end))) =~= seq![a, b, c, d]);
}

proof fn lemma_filled(s: Seq<char>, width: nat)
    ensures
        filled(s, width) + " "@ == s + (filled(s, width).skip(s.len() as int) + " "@),
{
    assert(filled(s, width) =~= s + filled(s, width).skip(s.len() as int));
}

/// The line of a request shows its number, its name, its method and its URL.
pub proof fn lines_show_the_request(r: RequestModel)
    ensures
        shows(list_text(r), seq![decimal(r.index as nat), r.display_name, r.method, r.url]),
        shows(available_text(r), seq![decimal(r.index as nat), r.display_name, r.method, r.url]),
{
    let none = Seq::<char>::empty();
    let number = decimal(r.index as nat);
    let pad3 = filled(number, 3).skip(number.len() as int) + " "@;
    let pad24 = filled(r.display_name, 24).skip(r.display_name.len() as int) + " "@;
    let pad8 = filled(r.method, 8).skip(r.method.len() as int) + " "@;
    lemma_filled(number, 3);
    lemma_filled(r.display_name, 24);
    lemma_filled(r.method, 8);
    lemma_four_shown("#"@, number, pad3, r.display_name, pad24, r.method, pad8, r.url);
    lemma_four_shown("  #"@, number, "  "@, r.display_name, "  "@, r.method, " "@, r.url);
    lemma_list_parts(
        filled(number, 3),
        number,
        pad3,
        filled(r.display_name, 24),
        r.display_name,
        pad24,
        filled(r.method, 8),
        r.method,
        pad8,
        r.url,
    );
    assert(available_text(r) =~= "  #"@ + number + ("  "@ + r.display_name + ("  "@ + r.method + (
    " "@ + r.url + none))));
}

proof fn lemma_list_parts(
    a: Seq<char>,
    a0: Seq<char>,
    a1: Seq<char>,
    b: Seq<char>,
    b0: Seq<char>,
    b1: Seq<char>,
    c: Seq<char>,
    c0: Seq<char>,
    c1: Seq<char>,
    d: Seq<char>,
)
    requires
        a + " "@ == a0 + a1,
        b + " "@ == b0 + b1,
        c + " "@ == c0 + c1,
    ensures
        "#"@ + a + " "@ + b + " "@ + c + " "@ + d == "#"@ + a0 + (a1 + b0 + (b1 + c0 + (c1 + d
            + Seq::empty()))),
{
    assert("#"@ + a + " "@ + b + " "@ + c + " "@ + d =~= "#"@ + (a + " "@) + (b + " "@) + (c
        + " "@) + d);
    assert("#"@ + (a0 + a1) + (b0 + b1) + (c0 + c1) + d =~= "#"@ + a0 + (a1 + b0 + (b1 + c0 + (c1
        + d + Seq::empty()))));
}

/// The project root is the one that is asked for; or else the nearest directory that
/// holds a repository; or else that of the file.
pub proof fn root_is_the_nearest(asked: Option<Seq<char>>, dirs: Seq<(String, bool)>, k: int)
    requires
        0 <= k < dirs.len(),
    ensures
        asked matches Some(root) ==> root_of(asked, dirs) == Ok::<Seq<char>, Seq<char>>(root),
        asked is None && dirs[k].1 && (forall|j: int| 0 <= j < k ==> !(#[trigger] dirs[j]).1)
            ==> root_of(asked, dirs) == Ok::<Seq<char>, Seq<char>>(dirs[k].0@),
        asked is None && (forall|j: int| 0 <= j < dirs.len() ==> !(#[trigger] dirs[j]).1)
            ==> root_of(asked, dirs) == Ok::<Seq<char>, Seq<char>>(dirs[0].0@),
{
    lemma_first_repository(dirs, k, 0);
}

proof fn lemma_first_repository(dirs: Seq<(String, bool)>, k: int, i: int)
    requires
        0 <= i <= dirs.len(),
    ensures
        i <= k < dirs.len() && dirs[k].1 && (forall|j: int| i <= j < k ==> !(#[trigger] dirs[j]).1)
            ==> first_repository(dirs, i) == Some(k),
        (forall|j: int| i <= j < dirs.len() ==> !(#[trigger] dirs[j]).1) ==> first_repository(
            dirs,
            i,
        ) is None,
    decreases dirs.len() - i,
{
    if i < dirs.len() && !dirs[i].1 {
        lemma_first_repository(dirs, k, i + 1);
    }
}

/// What is no number cannot be an index or a line.
pub proof fn numbers_are_needed(rest: Seq<Seq<char>>, o: Options, value: Seq<char>)
    requires
        value.len() == 0 || !is_digit(value.last()),
    ensures
        options_from(seq!["--index"@, value] + rest, 0, o) == Err::<Options, Seq<char>>(
            "--index expects a number"@,
        ),
        options_from(seq!["--line"@, value] + rest, 0, o) == Err::<Options, Seq<char>>(
            "--line expects a number"@,
        ),
{
    reveal_strlit("--name");
    reveal_strlit("--index");
    reveal_strlit("--line");
    assert("--index"@[2] == 'i' && "--line"@[2] == 'l' && "--name"@[2] == 'n');
    let first = seq!["--index"@, value] + rest;
    assert(first[0] == "--index"@ && first[1] == value);
    let second = seq!["--line"@, value] + rest;
    assert(second[0] == "--line"@ && second[1] == value);
    if value.len() > 1 {
        assert(value.drop_first().last() == value.last());
        assert(value.drop_first()[value.len() - 2] == value.last());
    }
    assert(value.len() > 0 ==> value[value.len() - 1] == value.last());
    assert(read_unsigned(value, usize::MAX as nat) is None);
}

/// The names of all environments, and of all their variables, are listed in order.
pub proof fn all_names_are_listed(
    environments: Seq<(Seq<char>, Seq<(Seq<char>, Json)>)>,
    vars: Seq<(Seq<char>, Json)>,
    i: int,
)
    ensures
        environment_names(environments).len() == environments.len(),
        0 <= i < environments.len() ==> environment_names(environments)[i] == environments[i].0,
        variable_names(vars).len() == vars.len(),
        0 <= i < vars.len() ==> variable_names(vars)[i] == vars[i].0,
{
}

} // verus!
