//! The framing, parsing and serialization core of a small HTTP/1.1 server.
//!
//! - `framing` finds the end of a request's header block (CRLF CRLF) in a
//!   byte stream, leaving any bytes after it unread.
//! - `request` parses the block: the request line is split on single spaces
//!   into method, target and `HTTP/<version>`, and each further non-empty
//!   line into a header name and value around its first colon.
//! - `headers` holds the header map. Names are compared exactly, so `Host`
//!   and `host` are distinct; HTTP itself treats names case-insensitively.
//! - `response` builds a response and writes it out as bytes.
//! - `errors` holds the parse and I/O errors. A caller that meets one drops
//!   the connection; no error response is composed here.
pub mod errors;
pub mod text;
pub mod headers;
pub mod request;
pub mod response;
pub mod framing;
