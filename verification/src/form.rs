//! The request-side arithmetic of the memo form handlers: pulling the memo
//! text out of a form body and the memo id out of a request target.  The
//! persistence work those handlers do stays outside the library.

use crate::text::decimal_i32_spec;
use crate::text::lemma_split_on_len;
use crate::text::parse_i32;
use crate::text::split_on;
use crate::text::split_str;
use crate::text::trim_spec;
use crate::text::trim_str;
use crate::web_dealer::http_def::HttpError;
use vstd::prelude::*;

verus! {

/// The memo text carried by a form body: the piece after the first `=` and
/// before any second one; a body without `=` is a broken request.
pub open spec fn form_content_spec(body: Seq<char>) -> Result<Seq<char>, HttpError> {
    let parts = split_on(trim_spec(body), "="@);
    if parts.len() >= 2 {
        Ok(parts[1])
    } else {
        Err(HttpError::RequestIsBroken)
    }
}

/// Pull the memo text out of a form body.
pub fn form_content(body: &str) -> (r: Result<String, HttpError>)
    ensures
        match r {
            Ok(s) => form_content_spec(body@) == Ok::<Seq<char>, HttpError>(s@),
            Err(e) => form_content_spec(body@) == Err::<Seq<char>, HttpError>(e),
        },
{
    proof {
        reveal_strlit("=");
    }
    let trimmed = trim_str(body);
    let parts = split_str(trimmed, "=");
    if parts.len() >= 2 {
        Ok(parts[1].clone())
    } else {
        Err(HttpError::RequestIsBroken)
    }
}

/// The memo id named by a request target: the text before any `?`, its last
/// `/`-separated segment, read as a strict decimal integer; anything else is
/// a broken request.
pub open spec fn memo_id_spec(target: Seq<char>) -> Result<int, HttpError> {
    let qparts = split_on(trim_spec(target), "?"@);
    let segs = split_on(qparts[0], "/"@);
    match decimal_i32_spec(trim_spec(segs.last())) {
        Some(v) => Ok(v),
        None => Err(HttpError::RequestIsBroken),
    }
}

/// Pull the memo id out of a request target.
pub fn memo_id_from_target(target: &str) -> (r: Result<i32, HttpError>)
    ensures
        match r {
            Ok(v) => memo_id_spec(target@) == Ok::<int, HttpError>(v as int),
            Err(e) => memo_id_spec(target@) == Err::<int, HttpError>(e),
        },
{
    proof {
        reveal_strlit("?");
        reveal_strlit("/");
    }
    let trimmed = trim_str(target);
    let qparts = split_str(trimmed, "?");
    proof {
        lemma_split_on_len(trimmed@, "?"@);
    }
    let segs = split_str(qparts[0].as_str(), "/");
    proof {
        lemma_split_on_len(qparts@[0]@, "/"@);
    }
    let idtxt = trim_str(segs[segs.len() - 1].as_str());
    match parse_i32(idtxt) {
        Some(v) => Ok(v),
        None => Err(HttpError::RequestIsBroken),
    }
}

} // verus!
