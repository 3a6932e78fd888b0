//! Pipe protocol message types and the decision of what to answer.
//!
//! Behavior:
//! - `query`  -> one echo candidate `MOCHI_BRAIN:<input>`
//! - `commit` -> `{"v":1,"ok":true}`
//! - unknown `v` / `method` / malformed JSON -> `{"v":1,"error":"unsupported"}`
//!
//! JSON framing lives with the transport; this module decides.

use vstd::prelude::*;
use vstd::string::StringExecFns;

use crate::text::push_char;

verus! {

pub const PROTOCOL_VERSION: u32 = 1;

#[derive(Debug, Clone, PartialEq, Eq, Default)]
pub struct Scene {
    pub app: Option<String>,
    pub title: Option<String>,
}

/// Incoming request, dispatched on the `method` field.
#[derive(Debug, Clone, PartialEq, Eq)]
pub enum Request {
    Query {
        v: u32,
        input: String,
        seg: Option<[u64; 2]>,
        scene: Option<Scene>,
        session: Option<String>,
    },
    Commit {
        v: u32,
        text: String,
        input: Option<String>,
        scene: Option<Scene>,
    },
}

#[derive(Debug, Clone, PartialEq, Eq)]
pub struct OkResponse {
    pub v: u32,
    pub ok: bool,
}

#[derive(Debug, Clone, PartialEq, Eq)]
pub struct ErrorResponse {
    pub v: u32,
    pub error: String,
}

/// What to answer a request with.
pub enum Reply {
    /// One candidate echoing the input (its quality is 1.0).
    Echo { text: String, comment: String, preedit: String },
    /// Commit acknowledged.
    Acknowledged(OkResponse),
    /// Unknown version: the `unsupported` error.
    Unsupported(ErrorResponse),
}

/// The `unsupported` error response.
pub fn unsupported() -> (r: ErrorResponse)
    ensures
        r.v == PROTOCOL_VERSION,
        r.error@ == "unsupported"@,
{
    ErrorResponse { v: PROTOCOL_VERSION, error: String::from_str("unsupported") }
}

/// What a well-formed request is answered with.
pub open spec fn reply_spec(req: Request, r: Reply) -> bool {
    match req {
        Request::Query { v, input, .. } => if v == PROTOCOL_VERSION {
            r matches Reply::Echo { text, comment, preedit }
                && text@ == "MOCHI_BRAIN:"@ + input@
                && comment@ == "echo"@
                && preedit@ == seq!['\u{00ab}'] + input@ + seq!['\u{00bb}']
        } else {
            r matches Reply::Unsupported(e) && e.v == PROTOCOL_VERSION && e.error@ == "unsupported"@
        },
        Request::Commit { v, .. } => if v == PROTOCOL_VERSION {
            r matches Reply::Acknowledged(ok) && ok.v == PROTOCOL_VERSION && ok.ok
        } else {
            r matches Reply::Unsupported(e) && e.v == PROTOCOL_VERSION && e.error@ == "unsupported"@
        },
    }
}

/// Decide the answer to one parsed request. The v0 query answer is an
/// echo candidate (preedit round-trips the input as «input» so the full
/// candidate field set is exercised); a commit is acknowledged; any other
/// protocol version is unsupported.
pub fn dispatch(req: &Request) -> (r: Reply)
    ensures
        reply_spec(*req, r),
{
    match req {
        Request::Query { v, input, .. } => {
            if *v != PROTOCOL_VERSION {
                return Reply::Unsupported(unsupported());
            }
            let mut text = String::from_str("MOCHI_BRAIN:");
            text.append(input.as_str());
            let mut preedit = String::new();
            push_char(&mut preedit, '\u{00ab}');
            preedit.append(input.as_str());
            push_char(&mut preedit, '\u{00bb}');
            assert(preedit@ =~= seq!['\u{00ab}'] + input@ + seq!['\u{00bb}']);
            Reply::Echo { text, comment: String::from_str("echo"), preedit }
        },
        Request::Commit { v, .. } => {
            if *v != PROTOCOL_VERSION {
                return Reply::Unsupported(unsupported());
            }
            Reply::Acknowledged(OkResponse { v: PROTOCOL_VERSION, ok: true })
        },
    }
}

} // verus!
