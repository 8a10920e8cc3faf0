//! A minimal HTTP/1.1 origin-server core: byte-exact request/response
//! parsing and serialization, a routing table with named path segments,
//! task-pool bookkeeping, and the decision logic of the connection loop.

pub mod body;
pub mod client;
pub mod error;
pub mod header_item;
pub mod header_map;
pub mod http_status;
pub mod method;
pub mod pool;
pub mod request;
pub mod response;
pub mod route;
pub mod server;
pub mod text;
pub mod url;
pub mod version;
