use vstd::prelude::*;

use crate::error::LineSenderError;

verus! {

/// Whether `s` ends in a newline.
pub open spec fn is_terminated(s: Seq<char>) -> bool {
    s.len() > 0 && s.last() == '\n'
}

/// Decides what is written for a candidate line: the line itself, in one
/// write, when it ends in a newline; otherwise nothing is written and the
/// line comes back inside `UnterminatedLine`.
pub fn terminated_line(msg: String) -> (r: Result<String, LineSenderError>)
    ensures
        is_terminated(msg@) ==> r == Ok::<String, LineSenderError>(msg),
        !is_terminated(msg@) ==> (r matches Err(LineSenderError::UnterminatedLine(m)) && m == msg),
{
    let mut last: Option<char> = None;
    for c in it: msg.as_str().chars()
        invariant
            it.seq() == msg@,
            last == (if it.index() == 0 {
                None
            } else {
                Some(msg@[it.index() - 1])
            }),
    {
        last = Some(c);
    }
    match last {
        Some('\n') => Ok(msg),
        _ => Err(LineSenderError::UnterminatedLine(msg)),
    }
}

} // verus!
