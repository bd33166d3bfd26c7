//! An HTTP/1.1 load generator: the response parser, the request and target
//! model, the per-worker connection bookkeeping and the run statistics.
pub mod cli_args;
pub mod engine;
pub mod http_parser;
pub mod job;
pub mod stats;
pub mod text;
pub mod url_parser;
pub mod utils;
