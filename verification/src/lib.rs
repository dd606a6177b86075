//! A minimal, single-request-per-connection HTTP/1.x front-end core.
//!
//! The crate carves an incoming byte stream into request line, header
//! lines and header terminator with an incremental pattern matcher,
//! decides admission of the request's method against an allow-set and a
//! deny-set, and builds the response bytes: status line, headers, a
//! fixed banner, an echo of the captured request head and of the body.
//! All I/O stays outside; every function here works on plain bytes.

pub mod ascii;
pub mod frame;
pub mod matcher;
pub mod policy;
pub mod service;
