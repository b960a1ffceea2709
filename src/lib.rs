//! A minimal HTTP server core: a streaming request parser, the request and
//! response data model, and the file and directory-listing handler logic.
//! Sockets, threads and the file system are driven by the binary around it.

pub mod text;
pub mod handler;
pub mod headers;
pub mod parser;
pub mod query;
pub mod request;
pub mod response;
