//! The verified core of `ruk`, an HTTP benchmarking tool.

pub mod ascii;
pub mod chunked;
pub mod chunked_laws;
pub mod connection;
pub mod connection_laws;
pub mod head;
pub mod header_laws;
pub mod headers;
pub mod latency;
pub mod plan;
pub mod report;
pub mod request;
pub mod response_laws;
pub mod seek;
pub mod stats;
pub mod stats_laws;
pub mod text;
pub mod text_laws;
pub mod url;
pub mod url_laws;
pub mod worker;
