//! Environment file loading for HTTP request clients.
//!
//! Environments live in `http-client.env.json` (public) and
//! `http-client.private.env.json` (private), discovered from the request
//! file's directory up to the project root. Private values override public
//! ones; files closer to the request file override files further up.

use vstd::prelude::*;
use vstd::string::StringExecFns;
use crate::json::Json;
use crate::json::JsonValue;
use crate::json::json_parse;
use crate::json::lemma_json_of;
use crate::json::parse_json;
use crate::map::TextMap;
use crate::map::lemma_last_is_new;
use crate::map::lemma_lookup_last;
use crate::map::lemma_put_entries;
use crate::map::lemma_sorted_but_last;
use crate::map::lookup;
use crate::map::lookup_after_put;
use crate::map::lookup_after_put_all;
use crate::map::map_is_sorted;
use crate::map::put;
use crate::map::put_all;
use crate::map::put_all_keeps_sorted;
use crate::map::put_keeps_sorted;
use crate::map::sorted;
use crate::text::after_prefix;
use crate::text::concat3;
use crate::text::concat;
use crate::text::is_empty_text;
use crate::text::join;
use crate::text::join_of_all;
use crate::text::owned;
use crate::text::same;
use crate::text::split;
use crate::text::split_finds_all;
use crate::text::split_of;
use crate::text::strip_prefix;
use crate::text::texts;

verus! {

broadcast use lemma_json_of;

pub const PUBLIC_ENV_FILE: &'static str = "http-client.env.json";

pub const PRIVATE_ENV_FILE: &'static str = "http-client.private.env.json";

/// The directory in the project root that holds the runtime artifacts.
pub const RUNTIME_DIR: &'static str = ".http-client";

/// The name of the selected environment, in the runtime directory.
pub const SELECTED_ENV_FILE: &'static str = "http-client-env";

/// The cookie jar, in the runtime directory.
pub const COOKIE_FILE: &'static str = "http-client.cookies";

/// The globals that response handlers have set, in the runtime directory.
pub const GLOBALS_FILE: &'static str = "http-client-globals.json";

/// The request log, in the runtime directory.
pub const LOG_FILE: &'static str = "http-requests-log.http";

/// The directory of the saved responses, in the runtime directory.
pub const RESPONSE_DIR: &'static str = "httpRequests";

/// A named environment with its merged variable set.
#[derive(Debug, PartialEq)]
pub struct Environment {
    pub name: String,
    pub vars: TextMap<JsonValue>,
}

impl View for Environment {
    type V = (Seq<char>, Seq<(Seq<char>, Json)>);

    open spec fn view(&self) -> (Seq<char>, Seq<(Seq<char>, Json)>) {
        (self.name@, self.vars@)
    }
}

impl Clone for Environment {
    fn clone(&self) -> (r: Self)
        ensures
            r@ == self@,
    {
        Environment { name: self.name.clone(), vars: self.vars.clone() }
    }
}

pub open spec fn environment_models(v: Seq<Environment>) -> Seq<
    (Seq<char>, Seq<(Seq<char>, Json)>),
> {
    Seq::new(v.len(), |i: int| v[i]@)
}

// ---------------------------------------------------------------------------
// Directories
// ---------------------------------------------------------------------------

/// The path of `file` in `dir`.
pub open spec fn joined(dir: Seq<char>, file: Seq<char>) -> Seq<char> {
    if dir.len() == 0 {
        file
    } else {
        dir + "/"@ + file
    }
}

/// `dirs` and the directories on the way down by the parts from number `i` on,
/// from `current`.
pub open spec fn descent(
    parts: Seq<Seq<char>>,
    i: int,
    current: Seq<char>,
    dirs: Seq<Seq<char>>,
) -> Seq<Seq<char>>
    decreases parts.len() - i,
{
    if i < 0 || i >= parts.len() {
        dirs
    } else if parts[i].len() == 0 {
        descent(parts, i + 1, current, dirs)
    } else {
        let next = joined(current, parts[i]);
        descent(parts, i + 1, next, dirs.push(next))
    }
}

/// `file_dir` as seen from `root`.
pub open spec fn relative(root: Seq<char>, file_dir: Seq<char>) -> Seq<char> {
    if root.len() == 0 {
        file_dir
    } else {
        match strip_prefix(file_dir, root + "/"@) {
            Some(rest) => rest,
            None => file_dir,
        }
    }
}

/// The directories from `root` down to `file_dir`, far to near.
pub open spec fn directories(root: Seq<char>, file_dir: Seq<char>) -> Seq<Seq<char>> {
    if file_dir.len() == 0 || file_dir == root {
        seq![root]
    } else {
        descent(split(relative(root, file_dir), '/'), 0, root, seq![root])
    }
}

/// The path of `file` in `dir`.
pub fn join_path(dir: &str, file: &str) -> (r: String)
    ensures
        r@ == joined(dir@, file@),
{
    if is_empty_text(dir) {
        owned(file)
    } else {
        concat3(dir, "/", file)
    }
}

/// Directories from `root` down to `file_dir` (inclusive), far to near.
pub fn directory_chain(root: &str, file_dir: &str) -> (r: Vec<String>)
    ensures
        texts(r@) == directories(root@, file_dir@),
{
    let mut dirs: Vec<String> = Vec::new();
    dirs.push(owned(root));
    assert(texts(dirs@) =~= seq![root@]);
    if is_empty_text(file_dir) || same(file_dir, root) {
        return dirs;
    }
    let rel = if is_empty_text(root) {
        file_dir
    } else {
        match after_prefix(file_dir, concat(root, "/").as_str()) {
            Some(rest) => rest,
            None => file_dir,
        }
    };
    let parts = split_of(rel, '/');
    let ghost all = texts(parts@);
    let mut current = owned(root);
    let mut i: usize = 0;
    while i < parts.len()
        invariant
            all == texts(parts@),
            i <= parts@.len(),
            descent(all, i as int, current@, texts(dirs@)) == directories(root@, file_dir@),
        decreases parts@.len() - i,
    {
        let part = parts[i].as_str();
        assert(all[i as int] == part@);
        if !is_empty_text(part) {
            let ghost before = texts(dirs@);
            current = join_path(current.as_str(), part);
            dirs.push(current.clone());
            assert(texts(dirs@) =~= before.push(current@));
        }
        i = i + 1;
    }
    dirs
}

// ---------------------------------------------------------------------------
// Environment files
// ---------------------------------------------------------------------------

/// The variables that a value holds.
pub open spec fn vars_in(value: Json) -> Seq<(Seq<char>, Json)> {
    match value {
        Json::Object(vars) => vars,
        _ => Seq::empty(),
    }
}

/// The variables of the environment `name`.
pub open spec fn vars_of(environments: Seq<(Seq<char>, Json)>, name: Seq<char>) -> Seq<
    (Seq<char>, Json),
> {
    match lookup(environments, name) {
        Some(value) => vars_in(value),
        None => Seq::empty(),
    }
}

/// The environments with `vars` put into the one called `name`.
pub open spec fn with_vars(
    environments: Seq<(Seq<char>, Json)>,
    name: Seq<char>,
    vars: Seq<(Seq<char>, Json)>,
) -> Seq<(Seq<char>, Json)> {
    put(environments, name, Json::Object(put_all(vars_of(environments, name), vars)))
}

/// What the file at `path` says of the variable `key` of the environment `name`.
pub open spec fn file_value(
    files: Seq<(Seq<char>, Seq<char>)>,
    path: Seq<char>,
    name: Seq<char>,
    key: Seq<char>,
) -> Option<Json> {
    match lookup(files, path) {
        Some(text) => match json_parse(text) {
            Some(Json::Object(entries)) => lookup(vars_of(entries, name), key),
            _ => None,
        },
        None => None,
    }
}

/// What the nearest of the files called `file` in `dirs` says of a variable, if
/// any of them does. The nearest directory is the last.
pub open spec fn nearest_value(
    dirs: Seq<Seq<char>>,
    file: Seq<char>,
    files: Seq<(Seq<char>, Seq<char>)>,
    name: Seq<char>,
    key: Seq<char>,
) -> Option<Json>
    decreases dirs.len(),
{
    if dirs.len() == 0 {
        None
    } else {
        match file_value(files, joined(dirs.last(), file), name, key) {
            Some(value) => Some(value),
            None => nearest_value(dirs.drop_last(), file, files, name, key),
        }
    }
}

/// What a variable of an environment is: what the nearest private file says of
/// it, or else what the nearest public one says.
pub open spec fn visible_value(
    dirs: Seq<Seq<char>>,
    files: Seq<(Seq<char>, Seq<char>)>,
    name: Seq<char>,
    key: Seq<char>,
) -> Option<Json> {
    match nearest_value(dirs, PRIVATE_ENV_FILE@, files, name, key) {
        Some(value) => Some(value),
        None => nearest_value(dirs, PUBLIC_ENV_FILE@, files, name, key),
    }
}

/// Whether the environments, and the variables of each, are in the order of their
/// names.
pub open spec fn are_ordered(environments: Seq<(Seq<char>, Json)>) -> bool {
    &&& sorted(environments)
    &&& forall|i: int|
        0 <= i < environments.len() ==> sorted(vars_in((#[trigger] environments[i]).1))
}

/// Whether the file at `path`, where there is one, was read as a map of maps.
pub open spec fn is_ordered_file(files: Seq<(Seq<char>, Seq<char>)>, path: Seq<char>) -> bool {
    match lookup(files, path) {
        Some(text) => match json_parse(text) {
            Some(Json::Object(entries)) => are_ordered(entries),
            _ => true,
        },
        None => true,
    }
}

/// Whether the environment files in `dirs` were read as maps of maps.
pub open spec fn files_are_ordered(
    dirs: Seq<Seq<char>>,
    files: Seq<(Seq<char>, Seq<char>)>,
) -> bool {
    forall|k: int|
        0 <= k < dirs.len() ==> is_ordered_file(files, joined(#[trigger] dirs[k], PUBLIC_ENV_FILE@))
            && is_ordered_file(files, joined(dirs[k], PRIVATE_ENV_FILE@))
}

/// Environments, and what was wrong with their files.
#[verifier::ext_equal]
pub ghost struct Loaded {
    pub environments: Seq<(Seq<char>, Json)>,
    pub warnings: Seq<Seq<char>>,
}

/// What is loaded after the given entries of the file at `path`.
pub open spec fn with_entries(
    before: Loaded,
    path: Seq<char>,
    entries: Seq<(Seq<char>, Json)>,
) -> Loaded
    decreases entries.len(),
{
    if entries.len() == 0 {
        before
    } else {
        let loaded = with_entries(before, path, entries.drop_last());
        let (name, value) = entries.last();
        match value {
            Json::Object(vars) => Loaded {
                environments: with_vars(loaded.environments, name, vars),
                ..loaded
            },
            _ => Loaded {
                warnings: loaded.warnings.push(
                    path + ": environment `"@ + name + "` must be a JSON object"@,
                ),
                ..loaded
            },
        }
    }
}

/// What is loaded after the file at `path`, where there is one.
pub open spec fn with_file(
    before: Loaded,
    path: Seq<char>,
    files: Seq<(Seq<char>, Seq<char>)>,
) -> Loaded {
    match lookup(files, path) {
        Some(text) => match json_parse(text) {
            Some(Json::Object(entries)) => with_entries(before, path, entries),
            _ => Loaded {
                warnings: before.warnings.push(path + ": not a valid environment file"@),
                ..before
            },
        },
        None => before,
    }
}

/// What has been loaded of public and private files.
#[verifier::ext_equal]
pub ghost struct Collected {
    pub public: Seq<(Seq<char>, Json)>,
    pub private: Seq<(Seq<char>, Json)>,
    pub warnings: Seq<Seq<char>>,
}

/// What is loaded after the two files in `dir`, first the public one.
pub open spec fn with_directory(
    before: Collected,
    dir: Seq<char>,
    files: Seq<(Seq<char>, Seq<char>)>,
) -> Collected {
    let public = with_file(
        Loaded { environments: before.public, warnings: before.warnings },
        joined(dir, PUBLIC_ENV_FILE@),
        files,
    );
    let private = with_file(
        Loaded { environments: before.private, warnings: public.warnings },
        joined(dir, PRIVATE_ENV_FILE@),
        files,
    );
    Collected {
        public: public.environments,
        private: private.environments,
        warnings: private.warnings,
    }
}

/// What is loaded after the files in all of `dirs`, one directory after the
/// other.
pub open spec fn collected(
    dirs: Seq<Seq<char>>,
    files: Seq<(Seq<char>, Seq<char>)>,
) -> Collected
    decreases dirs.len(),
{
    if dirs.len() == 0 {
        Collected { public: Seq::empty(), private: Seq::empty(), warnings: Seq::empty() }
    } else {
        with_directory(collected(dirs.drop_last(), files), dirs.last(), files)
    }
}

/// The public environments with the private ones on top.
pub open spec fn overlaid(
    public: Seq<(Seq<char>, Json)>,
    private: Seq<(Seq<char>, Json)>,
) -> Seq<(Seq<char>, Json)>
    decreases private.len(),
{
    if private.len() == 0 {
        public
    } else {
        let (name, value) = private.last();
        put(
            overlaid(public, private.drop_last()),
            name,
            Json::Object(put_all(vars_of(public, name), vars_in(value))),
        )
    }
}

/// The environments in the order of their names, each with its variables.
pub open spec fn listed(environments: Seq<(Seq<char>, Json)>) -> Seq<
    (Seq<char>, Seq<(Seq<char>, Json)>),
> {
    Seq::new(
        environments.len(),
        |i: int| (environments[i].0, vars_in(environments[i].1)),
    )
}

fn copy_vars(environments: &TextMap<JsonValue>, name: &str) -> (r: TextMap<JsonValue>)
    ensures
        r@ == vars_of(environments@, name@),
{
    match environments.get(name) {
        Some(JsonValue::Object(vars)) => vars.clone(),
        _ => TextMap::new(),
    }
}

/// Puts the environments of one file, where there is one, into `target`.
pub fn merge_env_file(
    files: &TextMap<String>,
    dir: &str,
    file_name: &str,
    target: &mut TextMap<JsonValue>,
    warnings: &mut Vec<String>,
)
    ensures
        (Loaded { environments: final(target)@, warnings: texts(final(warnings)@) }) == with_file(
            (Loaded { environments: old(target)@, warnings: texts(old(warnings)@) }),
            joined(dir@, file_name@),
            files@,
        ),
        is_ordered_file(files@, joined(dir@, file_name@)),
{
    let path = join_path(dir, file_name);
    let ghost before = Loaded { environments: target@, warnings: texts(warnings@) };
    let text = match files.get(path.as_str()) {
        Some(text) => text,
        None => {
            return;
        },
    };
    match parse_json(text.as_str()) {
        Some(JsonValue::Object(entries)) => {
            proof {
                use_type_invariant(&entries);
                map_is_sorted(entries);
            }
            let total: usize = entries.len();
            for i in 0..total
                invariant
                    total == entries@.len(),
                    sorted(entries@),
                    forall|k: int|
                        0 <= k < i ==> sorted(vars_in((#[trigger] entries@[k]).1)),
                    (Loaded { environments: target@, warnings: texts(warnings@) }) == with_entries(
                        before,
                        path@,
                        entries@.take(i as int),
                    ),
            {
                let name = entries.key_at(i);
                let ghost was = texts(warnings@);
                assert(entries@.take(i + 1).drop_last() =~= entries@.take(i as int));
                assert(entries@.take(i + 1).last() == entries@[i as int]);
                match entries.value_at(i) {
                    JsonValue::Object(vars) => {
                        proof {
                            use_type_invariant(vars);
                            map_is_sorted(*vars);
                        }
                        assert(vars_in(entries@[i as int].1) == vars@);
                        let mut merged = copy_vars(target, name);
                        merged.extend_from(vars);
                        target.insert(owned(name), JsonValue::Object(merged));
                    },
                    _ => {
                        let mut warning = concat3(path.as_str(), ": environment `", name);
                        warning.append("` must be a JSON object");
                        warnings.push(warning);
                        assert(texts(warnings@) =~= was.push(warning@));
                    },
                }
            }
            assert(entries@.take(total as int) =~= entries@);
        },
        _ => {
            warnings.push(concat(path.as_str(), ": not a valid environment file"));
            assert(texts(warnings@) =~= before.warnings.push(warnings@.last()@));
        },
    }
}

fn overlay(public: &TextMap<JsonValue>, private: &TextMap<JsonValue>) -> (r: TextMap<JsonValue>)
    ensures
        r@ == overlaid(public@, private@),
{
    let mut out = public.clone();
    let total: usize = private.len();
    for i in 0..total
        invariant
            total == private@.len(),
            out@ == overlaid(public@, private@.take(i as int)),
    {
        let name = private.key_at(i);
        assert(private@.take(i + 1).drop_last() =~= private@.take(i as int));
        assert(private@.take(i + 1).last() == private@[i as int]);
        let mut vars = copy_vars(public, name);
        match private.value_at(i) {
            JsonValue::Object(more) => {
                vars.extend_from(more);
            },
            _ => {},
        }
        out.insert(owned(name), JsonValue::Object(vars));
    }
    assert(private@.take(total as int) =~= private@);
    out
}

fn list(environments: &TextMap<JsonValue>) -> (r: Vec<Environment>)
    ensures
        environment_models(r@) == listed(environments@),
{
    let mut out: Vec<Environment> = Vec::new();
    let total: usize = environments.len();
    let ghost all = listed(environments@);
    for i in 0..total
        invariant
            total == environments@.len(),
            all == listed(environments@),
            environment_models(out@) == all.take(i as int),
    {
        let ghost before = environment_models(out@);
        let vars = match environments.value_at(i) {
            JsonValue::Object(vars) => vars.clone(),
            _ => TextMap::new(),
        };
        out.push(Environment { name: owned(environments.key_at(i)), vars });
        assert(environment_models(out@) =~= before.push(all[i as int]));
    }
    assert(all.take(total as int) =~= all);
    out
}

/// The paths of all environment files that are visible to `file_dir`, in the
/// order in which they are read.
pub open spec fn environment_paths(dirs: Seq<Seq<char>>) -> Seq<Seq<char>>
    decreases dirs.len(),
{
    if dirs.len() == 0 {
        Seq::empty()
    } else {
        environment_paths(dirs.drop_last()).push(joined(dirs.last(), PUBLIC_ENV_FILE@)).push(
            joined(dirs.last(), PRIVATE_ENV_FILE@),
        )
    }
}

/// The paths of all environment files that are visible to `file_dir`.
pub fn environment_files(file_dir: &str, root: &str) -> (r: Vec<String>)
    ensures
        texts(r@) == environment_paths(directories(root@, file_dir@)),
{
    let dirs = directory_chain(root, file_dir);
    let ghost all = texts(dirs@);
    let mut out: Vec<String> = Vec::new();
    assert(texts(out@) =~= Seq::empty());
    for i in 0..dirs.len()
        invariant
            all == texts(dirs@),
            texts(out@) == environment_paths(all.take(i as int)),
    {
        let dir = dirs[i].as_str();
        let ghost before = texts(out@);
        assert(all.take(i + 1).drop_last() =~= all.take(i as int));
        assert(all.take(i + 1).last() == dir@);
        out.push(join_path(dir, PUBLIC_ENV_FILE));
        assert(texts(out@) =~= before.push(joined(dir@, PUBLIC_ENV_FILE@)));
        let ghost between = texts(out@);
        out.push(join_path(dir, PRIVATE_ENV_FILE));
        assert(texts(out@) =~= between.push(joined(dir@, PRIVATE_ENV_FILE@)));
    }
    assert(all.take(dirs@.len() as int) =~= all);
    out
}

/// Loads all environments visible to `file_dir`, walking directories from
/// `root` down to `file_dir` (workspace-relative, `/`-separated, "" is root).
/// The environment files that there are stand in `files`, by their paths.
pub fn load_environments(files: &TextMap<String>, file_dir: &str, root: &str) -> (r: (
    Vec<Environment>,
    Vec<String>,
))
    ensures
        ({
            let all = collected(directories(root@, file_dir@), files@);
            &&& environment_models(r.0@) == listed(overlaid(all.public, all.private))
            &&& texts(r.1@) == all.warnings
        }),
        files_are_ordered(directories(root@, file_dir@), files@),
{
    let dirs = directory_chain(root, file_dir);
    let ghost all = texts(dirs@);
    let mut public: TextMap<JsonValue> = TextMap::new();
    let mut private: TextMap<JsonValue> = TextMap::new();
    let mut warnings: Vec<String> = Vec::new();
    assert(texts(warnings@) =~= Seq::empty());
    for i in 0..dirs.len()
        invariant
            all == texts(dirs@),
            (Collected { public: public@, private: private@, warnings: texts(warnings@) })
                == collected(all.take(i as int), files@),
            files_are_ordered(all.take(i as int), files@),
    {
        let dir = dirs[i].as_str();
        assert(all.take(i + 1).drop_last() =~= all.take(i as int));
        assert(all.take(i + 1).last() == dir@);
        merge_env_file(files, dir, PUBLIC_ENV_FILE, &mut public, &mut warnings);
        merge_env_file(files, dir, PRIVATE_ENV_FILE, &mut private, &mut warnings);
        proof {
            let read = all.take(i + 1);
            assert forall|k: int| 0 <= k < read.len() implies is_ordered_file(
                files@,
                joined(#[trigger] read[k], PUBLIC_ENV_FILE@),
            ) && is_ordered_file(files@, joined(read[k], PRIVATE_ENV_FILE@)) by {
                if k < i {
                    assert(read[k] == all.take(i as int)[k]);
                }
            }
        }
    }
    assert(all.take(dirs@.len() as int) =~= all);
    (list(&overlay(&public, &private)), warnings)
}

// ---------------------------------------------------------------------------
// What holds of every environment
// ---------------------------------------------------------------------------

/// What a file says of an environment overrides what files before it said, and
/// other environments are not touched by it.
pub proof fn nearer_overrides_farther(
    environments: Seq<(Seq<char>, Json)>,
    name: Seq<char>,
    vars: Seq<(Seq<char>, Json)>,
    other: Seq<char>,
    key: Seq<char>,
)
    requires
        sorted(vars),
    ensures
        lookup(vars_of(with_vars(environments, name, vars), other), key) == (if other == name
            && lookup(vars, key) is Some {
            lookup(vars, key)
        } else {
            lookup(vars_of(environments, other), key)
        }),
{
    lookup_after_put(
        environments,
        name,
        Json::Object(put_all(vars_of(environments, name), vars)),
        other,
    );
    lookup_after_put_all(vars_of(environments, name), vars, key);
}

proof fn lemma_overlaid(
    public: Seq<(Seq<char>, Json)>,
    private: Seq<(Seq<char>, Json)>,
    name: Seq<char>,
)
    requires
        sorted(private),
    ensures
        lookup(overlaid(public, private), name) == match lookup(private, name) {
            Some(value) => Some(Json::Object(put_all(vars_of(public, name), vars_in(value)))),
            None => lookup(public, name),
        },
    decreases private.len(),
{
    if private.len() > 0 {
        let before = private.drop_last();
        lemma_sorted_but_last(private);
        lemma_overlaid(public, before, name);
        let (last, value) = private.last();
        lookup_after_put(
            overlaid(public, before),
            last,
            Json::Object(put_all(vars_of(public, last), vars_in(value))),
            name,
        );
        lemma_lookup_last(private, name);
    }
}

/// A private value overrides the public one of the same name, and public values
/// without a private one stay.
pub proof fn private_overrides_public(
    public: Seq<(Seq<char>, Json)>,
    private: Seq<(Seq<char>, Json)>,
    name: Seq<char>,
    key: Seq<char>,
)
    requires
        sorted(private),
        sorted(vars_of(private, name)),
    ensures
        lookup(vars_of(overlaid(public, private), name), key) == (match lookup(
            vars_of(private, name),
            key,
        ) {
            Some(value) => Some(value),
            None => lookup(vars_of(public, name), key),
        }),
{
    lemma_overlaid(public, private, name);
    if let Some(value) = lookup(private, name) {
        lookup_after_put_all(vars_of(public, name), vars_in(value), key);
    }
}

proof fn lemma_entries_override(
    before: Loaded,
    path: Seq<char>,
    entries: Seq<(Seq<char>, Json)>,
    name: Seq<char>,
    key: Seq<char>,
)
    requires
        are_ordered(entries),
    ensures
        lookup(vars_of(with_entries(before, path, entries).environments, name), key) == (
        match lookup(vars_of(entries, name), key) {
            Some(value) => Some(value),
            None => lookup(vars_of(before.environments, name), key),
        }),
    decreases entries.len(),
{
    if entries.len() > 0 {
        let rest = entries.drop_last();
        lemma_sorted_but_last(entries);
        lemma_last_is_new(entries);
        lemma_lookup_last(entries, name);
        assert(are_ordered(rest)) by {
            assert forall|i: int| 0 <= i < rest.len() implies sorted(
                vars_in((#[trigger] rest[i]).1),
            ) by {
                assert(rest[i] == entries[i]);
            }
        }
        lemma_entries_override(before, path, rest, name, key);
        let loaded = with_entries(before, path, rest);
        let (last, value) = entries.last();
        assert(sorted(vars_in(entries[entries.len() - 1].1)));
        if let Json::Object(vars) = value {
            nearer_overrides_farther(loaded.environments, last, vars, name, key);
        }
    }
}

proof fn lemma_file_overrides(
    before: Loaded,
    path: Seq<char>,
    files: Seq<(Seq<char>, Seq<char>)>,
    name: Seq<char>,
    key: Seq<char>,
)
    requires
        is_ordered_file(files, path),
    ensures
        lookup(vars_of(with_file(before, path, files).environments, name), key) == (
        match file_value(files, path, name, key) {
            Some(value) => Some(value),
            None => lookup(vars_of(before.environments, name), key),
        }),
{
    if let Some(text) = lookup(files, path) {
        if let Some(Json::Object(entries)) = json_parse(text) {
            lemma_entries_override(before, path, entries, name, key);
        }
    }
}

proof fn lemma_entries_keep_order(before: Loaded, path: Seq<char>, entries: Seq<(Seq<char>, Json)>)
    requires
        are_ordered(before.environments),
    ensures
        are_ordered(with_entries(before, path, entries).environments),
    decreases entries.len(),
{
    if entries.len() > 0 {
        lemma_entries_keep_order(before, path, entries.drop_last());
        let all = with_entries(before, path, entries.drop_last()).environments;
        let (name, value) = entries.last();
        if let Json::Object(vars) = value {
            let old_vars = vars_of(all, name);
            assert(sorted(old_vars)) by {
                lemma_vars_sorted(all, name);
            }
            put_all_keeps_sorted(old_vars, vars);
            let v = Json::Object(put_all(old_vars, vars));
            put_keeps_sorted(all, name, v);
            lemma_put_entries(all, name, v);
            let next = put(all, name, v);
            assert forall|i: int| 0 <= i < next.len() implies sorted(
                vars_in((#[trigger] next[i]).1),
            ) by {
                if next[i] != (name, v) {
                    let h = choose|h: int| 0 <= h < all.len() && all[h] == next[i];
                    assert(sorted(vars_in(all[h].1)));
                }
            }
        }
    }
}

proof fn lemma_vars_sorted(environments: Seq<(Seq<char>, Json)>, name: Seq<char>)
    requires
        forall|i: int|
            0 <= i < environments.len() ==> sorted(vars_in((#[trigger] environments[i]).1)),
    ensures
        sorted(vars_of(environments, name)),
    decreases environments.len(),
{
    if environments.len() > 0 {
        let rest = environments.drop_first();
        assert(sorted(vars_in(environments[0].1)));
        assert forall|i: int| 0 <= i < rest.len() implies sorted(
            vars_in((#[trigger] rest[i]).1),
        ) by {
            assert(rest[i] == environments[i + 1]);
        }
        lemma_vars_sorted(rest, name);
    }
}

proof fn lemma_collected(
    dirs: Seq<Seq<char>>,
    files: Seq<(Seq<char>, Seq<char>)>,
    name: Seq<char>,
    key: Seq<char>,
)
    requires
        files_are_ordered(dirs, files),
    ensures
        lookup(vars_of(collected(dirs, files).public, name), key) == nearest_value(
            dirs,
            PUBLIC_ENV_FILE@,
            files,
            name,
            key,
        ),
        lookup(vars_of(collected(dirs, files).private, name), key) == nearest_value(
            dirs,
            PRIVATE_ENV_FILE@,
            files,
            name,
            key,
        ),
        are_ordered(collected(dirs, files).private),
    decreases dirs.len(),
{
    if dirs.len() > 0 {
        let rest = dirs.drop_last();
        assert(files_are_ordered(rest, files)) by {
            assert forall|k: int| 0 <= k < rest.len() implies is_ordered_file(
                files,
                joined(#[trigger] rest[k], PUBLIC_ENV_FILE@),
            ) && is_ordered_file(files, joined(rest[k], PRIVATE_ENV_FILE@)) by {
                assert(rest[k] == dirs[k]);
            }
        }
        lemma_collected(rest, files, name, key);
        let before = collected(rest, files);
        let dir = dirs[dirs.len() - 1];
        let public_path = joined(dir, PUBLIC_ENV_FILE@);
        let private_path = joined(dir, PRIVATE_ENV_FILE@);
        let a = Loaded { environments: before.public, warnings: before.warnings };
        let b = Loaded {
            environments: before.private,
            warnings: with_file(a, public_path, files).warnings,
        };
        lemma_file_overrides(a, public_path, files, name, key);
        lemma_file_overrides(b, private_path, files, name, key);
        if let Some(text) = lookup(files, private_path) {
            if let Some(Json::Object(entries)) = json_parse(text) {
                lemma_entries_keep_order(b, private_path, entries);
            }
        }
    }
}

/// A variable of a loaded environment is what the nearest private file says of
/// it, or else what the nearest public file says: private values override public
/// ones, and files closer to the request file override files further up.
pub proof fn private_and_near_files_win(
    dirs: Seq<Seq<char>>,
    files: Seq<(Seq<char>, Seq<char>)>,
    name: Seq<char>,
    key: Seq<char>,
)
    requires
        files_are_ordered(dirs, files),
    ensures
        lookup(
            vars_of(
                overlaid(collected(dirs, files).public, collected(dirs, files).private),
                name,
            ),
            key,
        ) == visible_value(dirs, files, name, key),
{
    lemma_collected(dirs, files, name, key);
    let all = collected(dirs, files);
    lemma_vars_sorted(all.private, name);
    private_overrides_public(all.public, all.private, name, key);
}

proof fn lemma_descent(
    parts: Seq<Seq<char>>,
    i: int,
    current: Seq<char>,
    dirs: Seq<Seq<char>>,
)
    requires
        dirs.len() > 0,
        dirs.last() == current,
        forall|k: int| 0 < k < dirs.len() ==> dirs[k - 1].is_prefix_of(#[trigger] dirs[k]),
    ensures
        descent(parts, i, current, dirs).len() > 0,
        descent(parts, i, current, dirs)[0] == dirs[0],
        forall|k: int|
            0 < k < descent(parts, i, current, dirs).len() ==> descent(
                parts,
                i,
                current,
                dirs,
            )[k - 1].is_prefix_of(#[trigger] descent(parts, i, current, dirs)[k]),
    decreases parts.len() - i,
{
    if 0 <= i < parts.len() {
        if parts[i].len() == 0 {
            lemma_descent(parts, i + 1, current, dirs);
        } else {
            let next = joined(current, parts[i]);
            let more = dirs.push(next);
            assert(current.is_prefix_of(next));
            assert forall|k: int| 0 < k < more.len() implies more[k - 1].is_prefix_of(
                #[trigger] more[k],
            ) by {
                if k < dirs.len() {
                    assert(more[k] == dirs[k]);
                }
            }
            lemma_descent(parts, i + 1, next, more);
        }
    }
}

/// The directories go from the root down, each inside the one before it.
pub proof fn directories_go_down(root: Seq<char>, file_dir: Seq<char>)
    ensures
        directories(root, file_dir).len() > 0,
        directories(root, file_dir)[0] == root,
        forall|k: int|
            0 < k < directories(root, file_dir).len() ==> directories(root, file_dir)[k
                - 1].is_prefix_of(#[trigger] directories(root, file_dir)[k]),
{
    lemma_descent(split(relative(root, file_dir), '/'), 0, root, seq![root]);
}

/// Of the files of a name, the nearest that knows a variable decides on it; where none
/// does, there is no value.
pub proof fn nearest_file_counts(
    dirs: Seq<Seq<char>>,
    file: Seq<char>,
    files: Seq<(Seq<char>, Seq<char>)>,
    name: Seq<char>,
    key: Seq<char>,
    k: int,
)
    ensures
        0 <= k < dirs.len() && file_value(files, joined(dirs[k], file), name, key) is Some && (
        forall|j: int|
            k < j < dirs.len() ==> file_value(
                files,
                joined(#[trigger] dirs[j], file),
                name,
                key,
            ) is None) ==> nearest_value(dirs, file, files, name, key) == file_value(
            files,
            joined(dirs[k], file),
            name,
            key,
        ),
        (forall|j: int|
            0 <= j < dirs.len() ==> file_value(
                files,
                joined(#[trigger] dirs[j], file),
                name,
                key,
            ) is None) ==> nearest_value(dirs, file, files, name, key) is None,
    decreases dirs.len(),
{
    if dirs.len() > 0 {
        let before = dirs.drop_last();
        let last = dirs.len() - 1;
        assert(dirs[last] == dirs.last());
        nearest_file_counts(before, file, files, name, key, k);
        if 0 <= k < last && (forall|j: int|
            k < j < dirs.len() ==> file_value(
                files,
                joined(#[trigger] dirs[j], file),
                name,
                key,
            ) is None) {
            assert(file_value(files, joined(dirs[last], file), name, key) is None);
            assert forall|j: int| k < j < before.len() implies file_value(
                files,
                joined(#[trigger] before[j], file),
                name,
                key,
            ) is None by {
                assert(before[j] == dirs[j]);
            }
        }
        if forall|j: int|
            0 <= j < dirs.len() ==> file_value(
                files,
                joined(#[trigger] dirs[j], file),
                name,
                key,
            ) is None {
            assert(file_value(files, joined(dirs[last], file), name, key) is None);
            assert forall|j: int| 0 <= j < before.len() implies file_value(
                files,
                joined(#[trigger] before[j], file),
                name,
                key,
            ) is None by {
                assert(before[j] == dirs[j]);
            }
        }
    }
}

/// A private file decides before any public one.
pub proof fn private_file_counts_first(
    dirs: Seq<Seq<char>>,
    files: Seq<(Seq<char>, Seq<char>)>,
    name: Seq<char>,
    key: Seq<char>,
)
    ensures
        nearest_value(dirs, "http-client.private.env.json"@, files, name, key) is Some
            ==> visible_value(dirs, files, name, key) == nearest_value(
            dirs,
            "http-client.private.env.json"@,
            files,
            name,
            key,
        ),
        nearest_value(dirs, "http-client.private.env.json"@, files, name, key) is None
            ==> visible_value(dirs, files, name, key) == nearest_value(
            dirs,
            "http-client.env.json"@,
            files,
            name,
            key,
        ),
{
}

/// What a file says of a variable is what its JSON holds: an object of environments, each
/// an object of variables.
pub proof fn files_hold_objects(
    files: Seq<(Seq<char>, Seq<char>)>,
    path: Seq<char>,
    text: Seq<char>,
    entries: Seq<(Seq<char>, Json)>,
    vars: Seq<(Seq<char>, Json)>,
    name: Seq<char>,
    key: Seq<char>,
)
    requires
        lookup(files, path) == Some(text),
        json_parse(text) == Some(Json::Object(entries)),
    ensures
        lookup(entries, name) == Some(Json::Object(vars)) ==> file_value(files, path, name, key)
            == lookup(vars, key),
        lookup(entries, name) is None ==> file_value(files, path, name, key) is None,
{
}

/// A file that is no object of objects is reported, as far as it is none, and nothing
/// else is: one that is not there, or whose environments are all objects, is not.
pub proof fn bad_files_are_reported(
    before: Loaded,
    path: Seq<char>,
    files: Seq<(Seq<char>, Seq<char>)>,
    entries: Seq<(Seq<char>, Json)>,
    name: Seq<char>,
    value: Json,
)
    ensures
        lookup(files, path) is None ==> with_file(before, path, files) == before,
        lookup(files, path) matches Some(text) ==> (json_parse(text) is None ==> with_file(
            before,
            path,
            files,
        ) == (Loaded {
            warnings: before.warnings.push(path + ": not a valid environment file"@),
            ..before
        })),
        lookup(files, path) matches Some(text) ==> (json_parse(text) == Some(Json::Object(entries))
            ==> with_file(before, path, files) == with_entries(before, path, entries)),
        with_entries(before, path, Seq::empty()) == before,
        with_entries(before, path, entries.push((name, value))).warnings == if value is Object {
            with_entries(before, path, entries).warnings
        } else {
            with_entries(before, path, entries).warnings.push(
                path + ": environment `"@ + name + "` must be a JSON object"@,
            )
        },
{
    assert(entries.push((name, value)).drop_last() =~= entries);
}

/// The files that are looked for are the public and the private one in each directory,
/// in the order of the directories.
pub proof fn both_files_are_looked_for(dirs: Seq<Seq<char>>, k: int)
    ensures
        environment_paths(dirs).len() == 2 * dirs.len(),
        0 <= k < dirs.len() ==> environment_paths(dirs)[2 * k] == joined(
            dirs[k],
            "http-client.env.json"@,
        ) && environment_paths(dirs)[2 * k + 1] == joined(
            dirs[k],
            "http-client.private.env.json"@,
        ),
    decreases dirs.len(),
{
    if dirs.len() > 0 {
        both_files_are_looked_for(dirs.drop_last(), k);
    }
}

/// A file stands in its directory, behind a `/`; the root that has no name needs none.
pub proof fn files_stand_in_directories(dir: Seq<char>, file: Seq<char>)
    ensures
        dir.len() > 0 ==> joined(dir, file) == dir + "/"@ + file,
        dir.len() == 0 ==> joined(dir, file) == file,
{
}

proof fn lemma_descent_steps(
    parts: Seq<Seq<char>>,
    i: int,
    current: Seq<char>,
    dirs: Seq<Seq<char>>,
)
    requires
        0 <= i <= parts.len(),
        dirs.len() == i + 1,
        dirs.last() == current,
        forall|k: int| 0 <= k < parts.len() ==> (#[trigger] parts[k]).len() > 0,
        forall|k: int| 0 <= k < i ==> dirs[k + 1] == joined(dirs[k], #[trigger] parts[k]),
    ensures
        ({
            let all = descent(parts, i, current, dirs);
            &&& all.len() == parts.len() + 1
            &&& all[0] == dirs[0]
            &&& forall|k: int|
                0 <= k < parts.len() ==> all[k + 1] == joined(all[k], #[trigger] parts[k])
        }),
    decreases parts.len() - i,
{
    if i < parts.len() {
        assert(parts[i].len() > 0);
        let next = joined(current, parts[i]);
        let more = dirs.push(next);
        assert forall|k: int| 0 <= k < i + 1 implies more[k + 1] == joined(
            more[k],
            #[trigger] parts[k],
        ) by {
            if k < i {
                assert(dirs[k + 1] == joined(dirs[k], parts[k]));
            }
        }
        lemma_descent_steps(parts, i + 1, next, more);
    }
}

/// The directories lead from the root to that of the file, one part of the path at a
/// time, and leave none out.
pub proof fn every_directory_is_visited(root: Seq<char>, parts: Seq<Seq<char>>)
    requires
        parts.len() > 0,
        forall|k: int|
            0 <= k < parts.len() ==> (#[trigger] parts[k]).len() > 0 && !parts[k].contains('/'),
        root.len() == 0 ==> join(parts, seq!['/']) != root,
    ensures
        ({
            let path = join(parts, seq!['/']);
            let dirs = directories(
                root,
                if root.len() == 0 {
                    path
                } else {
                    root + "/"@ + path
                },
            );
            &&& dirs.len() == parts.len() + 1
            &&& dirs[0] == root
            &&& forall|k: int|
                0 <= k < parts.len() ==> dirs[k + 1] == joined(dirs[k], #[trigger] parts[k])
        }),
{
    reveal_strlit("/");
    let path = join(parts, seq!['/']);
    split_finds_all(parts, '/');
    lemma_descent_steps(parts, 0, root, seq![root]);
    assert(path.len() > 0) by {
        assert(parts[0].len() > 0);
        if parts.len() > 1 {
            let rest = parts.drop_first();
            join_of_all(seq![parts[0]], rest, seq!['/']);
            assert(seq![parts[0]] + rest =~= parts);
        }
    }
    if root.len() > 0 {
        let full = root + "/"@ + path;
        let prefix = root + "/"@;
        assert(full.subrange(0, prefix.len() as int) =~= prefix);
        assert(full.skip(prefix.len() as int) =~= path);
        assert(full.len() > root.len());
    }
}

/// Every environment is listed by its name, with its variables, in order.
pub proof fn every_environment_is_listed(environments: Seq<(Seq<char>, Json)>, k: int)
    ensures
        listed(environments).len() == environments.len(),
        0 <= k < environments.len() ==> listed(environments)[k].0 == environments[k].0,
        0 <= k < environments.len() ==> (environments[k].1 matches Json::Object(vars) ==> listed(
            environments,
        )[k].1 == vars),
{
}

} // verus!
