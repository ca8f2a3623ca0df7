//! The per-line request protocol: a line's first character names the symbol,
//! and each line is answered with one fixed token.

use crate::rate_limiter::ArrayStore;
use crate::symbols::{index_of, to_index, N};
use vstd::prelude::*;
use vstd::string::StrSliceExecFns;

verus! {

/// The answer to one request line.
#[derive(Debug, Clone, Copy, PartialEq, Eq, Structural)]
pub enum Response {
    Admitted,
    Denied,
}

/// The symbol index that a request line names: that of its first character, if
/// the line is non-empty and that character is in the alphabet.
pub open spec fn request_symbol(line: Seq<char>) -> Option<usize> {
    if line.len() == 0 {
        None
    } else {
        index_of(line[0])
    }
}

/// The text written back for a response: `"0\n"` when admitted, `"1\n"` when
/// denied.
pub open spec fn token_text(r: Response) -> Seq<char> {
    match r {
        Response::Admitted => seq!['0', '\n'],
        Response::Denied => seq!['1', '\n'],
    }
}

impl Response {
    /// The line written back to the client.
    pub fn token(&self) -> (r: &'static str)
        ensures
            r@ == token_text(*self),
    {
        proof {
            reveal_strlit("0\n");
            reveal_strlit("1\n");
        }
        match self {
            Response::Admitted => "0\n",
            Response::Denied => "1\n",
        }
    }
}

/// Decodes the symbol index of a request line.
pub fn decode(line: &str) -> (r: Option<usize>)
    ensures
        r == request_symbol(line@),
{
    if line.unicode_len() == 0 {
        None
    } else {
        to_index(line.get_char(0))
    }
}

/// Answers one request line. A line that names no symbol is denied without
/// consulting any bucket; otherwise the bucket of the symbol's partition
/// decides.
pub fn respond(line: &str, store: &ArrayStore<N>) -> (r: Response)
    requires
        store.wf(),
    ensures
        request_symbol(line@) is None ==> r == Response::Denied,
        r == Response::Admitted ==> request_symbol(line@) is Some,
{
    match decode(line) {
        None => Response::Denied,
        Some(ix) => {
            if store.check_key(&ix).is_ok() {
                Response::Admitted
            } else {
                Response::Denied
            }
        },
    }
}

} // verus!
