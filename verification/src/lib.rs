//! Shared core for the HTTP Client CLI.
//!
//! Implements a practical subset of common `.http` request file conventions:
//!
//! * Requests separated by `###`, optional names, and request tags
//!   (`@no-redirect`, `@timeout`, `@connection-timeout`)
//! * In-place variables (`@name = value`) and `{{variable}}` substitution with
//!   the documented priority: environment > global > in-place > per-request
//! * Environment files (`http-client.env.json`, `http-client.private.env.json`)
//!   discovered from the request file's directory up to the project root;
//!   private values override public ones
//! * Dynamic variables (`{{$uuid}}`, `{{$timestamp}}`, `{{$randomInt}}`,
//!   `{{$random.integer(a,b)}}`, `{{$env.NAME}}`, ...)
//! * A response-handler subset (`client.global.set`, `client.log`, ...) rich
//!   enough for login-then-use-token chaining workflows
//!
//! Every function states in its contract what it returns, over the models of its
//! arguments: a text is a sequence of characters, a map is a list of entries in
//! the order of their keys, a JSON value is a `Json`. What the library promises
//! beyond single functions stands as public proof functions at the end of each
//! module.

pub mod bignat;
pub mod binary64;
pub mod calendar;
pub mod cli;
pub mod curl;
pub mod decimal;
pub mod duration;
pub mod env;
pub mod execute;
pub mod expression;
pub mod handler;
pub mod json;
pub mod map;
pub mod output;
pub mod parser;
pub mod rng;
pub mod run;
pub mod text;
pub mod vars;

pub use env::Environment;
pub use env::PRIVATE_ENV_FILE;
pub use env::PUBLIC_ENV_FILE;
pub use execute::resolve_request;
pub use execute::ResolvedRequest;
pub use execute::ResponseData;
pub use parser::parse;
pub use parser::Handler;
pub use parser::Header;
pub use parser::HttpFile;
pub use parser::Redirect;
pub use parser::Request;
pub use rng::Rng;
pub use vars::substitute;
pub use vars::VarContext;
