//! A verified core for small HTTP services: routing and request dispatch,
//! query and cookie parsing, CORS header policy, static-file path
//! resolution, range and conditional requests, the answer to a static-file
//! request, live reload, the accept loop and TLS configuration.
pub mod text;
pub mod params;
pub mod router;
pub mod headers;
pub mod cors;
pub mod files;
pub mod conditional;
pub mod serve;
pub mod plan;
pub mod live;
pub mod lifecycle;
pub mod tls;
