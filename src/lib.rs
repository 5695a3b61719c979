//! The body of an incoming HTTP request as one peekable, once-consumable
//! byte stream: bytes the header parser already buffered, then bytes still
//! on the connection, cut to the body by its framing.
use vstd::prelude::*;

pub mod body;
pub mod framing;
pub mod reader;
