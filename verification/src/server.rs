//! Request dispatch: one decoded request against the engine, under the
//! engine's exclusive lock.
//!
//! The network loop around this — framing, serialization, the listener —
//! lives outside the library; it hands a decoded `Request` in and carries
//! the `Response` and the disk work of the `WriteOutcome` out.  Keys and
//! values arriving from clients are checked here: a key must be non-empty
//! and hold neither `':'` nor a newline, a written value must be non-empty
//! (the empty value is the tombstone, produced only by `Delete`) and hold no
//! newline.  An invalid request is answered with an error and leaves the
//! engine untouched.

use crate::codec::{encode_line, encode_record, is_valid_key, is_valid_value, wf_key, wf_value};
use crate::common_enums::{Request, Response};
use crate::lsm_tree::{LSMTree, WriteOutcome};
use vstd::prelude::*;

verus! {

/// The log line a request appends if the engine accepts it, or nothing for
/// reads and rejected requests.  The caller makes this line durable before
/// dispatching: an accepted record is then in the write-ahead log before the
/// engine's state moves, and a failed append can be answered with an error
/// while the engine is untouched.
pub fn wal_line_for(request: &Request) -> (r: Option<String>)
    ensures
        match *request {
            Request::Read { .. } => r is None,
            Request::Write { ref key, ref value } => {
                if wf_key(key@) && wf_value(value@) && value@.len() > 0 {
                    match r {
                        Some(line) => line@ == encode_record((key@, value@)),
                        None => false,
                    }
                } else {
                    r is None
                }
            },
            Request::Delete { ref key } => {
                if wf_key(key@) {
                    match r {
                        Some(line) => line@ == encode_record((key@, Seq::<char>::empty())),
                        None => false,
                    }
                } else {
                    r is None
                }
            },
        },
{
    match request {
        Request::Read { key: _ } => None,
        Request::Write { key, value } => {
            if is_valid_key(key.as_str()) && !value.as_str().is_empty() && is_valid_value(
                value.as_str(),
            ) {
                Some(encode_line(key.as_str(), value.as_str()))
            } else {
                None
            }
        },
        Request::Delete { key } => {
            if is_valid_key(key.as_str()) {
                let empty = String::new();
                Some(encode_line(key.as_str(), empty.as_str()))
            } else {
                None
            }
        },
    }
}

/// Applies one request to the engine and reports the response together with
/// what must change on disk (for reads and rejected requests: nothing).
pub fn dispatch(tree: &mut LSMTree, request: Request) -> (out: (Response, Option<WriteOutcome>))
    requires
        old(tree).wf(),
    ensures
        final(tree).wf(),
        final(tree).spec_max() == old(tree).spec_max(),
        final(tree).spec_threshold() == old(tree).spec_threshold(),
        match request {
            Request::Read { key } => {
                &&& *final(tree) == *old(tree)
                &&& out.1 is None
                &&& match out.0 {
                    Response::Success(v) => match v {
                        Some(s) => old(tree).visible(key@) == Some(s@),
                        None => old(tree).visible(key@) is None,
                    },
                    Response::Error(_) => false,
                }
            },
            Request::Write { key, value } => if wf_key(key@) && wf_value(value@) && value@.len()
                > 0 {
                &&& out.0 == Response::Success(None::<String>)
                &&& match out.1 {
                    Some(wo) => LSMTree::outcome_describes(
                        *old(tree),
                        *final(tree),
                        key@,
                        value@,
                        wo,
                    ),
                    None => false,
                }
                &&& forall|k: Seq<char>|
                    #[trigger] final(tree).current(k) == if k == key@ {
                        Some(value@)
                    } else {
                        old(tree).current(k)
                    }
            } else {
                &&& out.0 matches Response::Error(_)
                &&& *final(tree) == *old(tree)
                &&& out.1 is None
            },
            Request::Delete { key } => if wf_key(key@) {
                &&& out.0 == Response::Success(None::<String>)
                &&& match out.1 {
                    Some(wo) => LSMTree::outcome_describes(
                        *old(tree),
                        *final(tree),
                        key@,
                        Seq::<char>::empty(),
                        wo,
                    ),
                    None => false,
                }
                &&& final(tree).visible(key@) is None
                &&& forall|k: Seq<char>|
                    #[trigger] final(tree).current(k) == if k == key@ {
                        Some(Seq::<char>::empty())
                    } else {
                        old(tree).current(k)
                    }
            } else {
                &&& out.0 matches Response::Error(_)
                &&& *final(tree) == *old(tree)
                &&& out.1 is None
            },
        },
{
    match request {
        Request::Read { key } => {
            let r = tree.read(key.as_str());
            (Response::Success(r), None)
        },
        Request::Write { key, value } => {
            if is_valid_key(key.as_str()) && !value.as_str().is_empty() && is_valid_value(
                value.as_str(),
            ) {
                let outcome = tree.write(key, value);
                (Response::Success(None), Some(outcome))
            } else {
                (Response::Error(String::from_str("invalid key or value")), None)
            }
        },
        Request::Delete { key } => {
            if is_valid_key(key.as_str()) {
                let outcome = tree.write(key, String::new());
                (Response::Success(None), Some(outcome))
            } else {
                (Response::Error(String::from_str("invalid key")), None)
            }
        },
    }
}

} // verus!
