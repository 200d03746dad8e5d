//! Text handling: trimming of optional names and the message-body length
//! limit.
//!
//! A name set to all-whitespace or to the empty string is stored as absent;
//! otherwise the trimmed text is stored. A message body may hold at most
//! `MAX_MESSAGE_CHARS` characters.

use vstd::prelude::*;

use crate::rows::ChatError;
use vstd::string::StrSliceExecFns;

verus! {

/// Longest message body, in characters.
pub const MAX_MESSAGE_CHARS: usize = 65535;

/// Largest avatar, in bytes.
pub const MAX_AVATAR_BYTES: usize = 1000000;

/// Whether a character counts as whitespace, by Unicode's `White_Space`
/// property; the full table is not restated here.
pub uninterp spec fn is_space(c: char) -> bool;

/// Relies on char::is_whitespace: true exactly for characters with the
/// Unicode `White_Space` property, a function of the character alone.
#[verifier::external_body]
fn char_is_space(c: char) -> (r: bool)
    ensures
        r == is_space(c),
{
    c.is_whitespace()
}

/// The text with leading and trailing whitespace removed.
pub open spec fn trim_spec(s: Seq<char>) -> Seq<char>
    decreases s.len(),
{
    if s.len() == 0 {
        s
    } else if is_space(s[0]) {
        trim_spec(s.drop_first())
    } else if is_space(s.last()) {
        trim_spec(s.drop_last())
    } else {
        s
    }
}

/// An optional name as stored: trimmed, and absent when nothing is left.
pub open spec fn normalized(name: Option<Seq<char>>) -> Option<Seq<char>> {
    match name {
        None => None,
        Some(s) => if trim_spec(s).len() == 0 {
            None
        } else {
            Some(trim_spec(s))
        },
    }
}

/// Removes leading and trailing whitespace from a string.
pub fn trim_string(s: &str) -> (t: String)
    ensures
        t@ == trim_spec(s@),
{
    let n = s.unicode_len();
    let mut lo: usize = 0;
    let mut hi: usize = n;
    proof {
        assert(s@.subrange(0, n as int) =~= s@);
    }
    while lo < hi && char_is_space(s.get_char(lo))
        invariant
            0 <= lo <= hi <= n,
            n == s@.len(),
            trim_spec(s@) == trim_spec(s@.subrange(lo as int, hi as int)),
        decreases hi - lo,
    {
        proof {
            let part = s@.subrange(lo as int, hi as int);
            assert(part.drop_first() =~= s@.subrange(lo as int + 1, hi as int));
        }
        lo = lo + 1;
    }
    while lo < hi && char_is_space(s.get_char(hi - 1))
        invariant
            0 <= lo <= hi <= n,
            n == s@.len(),
            trim_spec(s@) == trim_spec(s@.subrange(lo as int, hi as int)),
            lo < hi ==> !is_space(s@[lo as int]),
        decreases hi - lo,
    {
        proof {
            let part = s@.subrange(lo as int, hi as int);
            assert(part.drop_last() =~= s@.subrange(lo as int, hi as int - 1));
        }
        hi = hi - 1;
    }
    let t = s.substring_char(lo, hi);
    proof {
        assert(t@ == trim_spec(s@));
    }
    t.to_owned()
}

/// Trims an optional name; an empty or all-whitespace name becomes absent.
pub fn normalize_name(name: Option<String>) -> (r: Option<String>)
    ensures
        crate::rows::text_view(r) == normalized(crate::rows::text_view(name)),
{
    match name {
        None => None,
        Some(s) => {
            let t = trim_string(s.as_str());
            if t.as_str().is_empty() {
                None
            } else {
                Some(t)
            }
        },
    }
}

/// Accepts a message body of at most `MAX_MESSAGE_CHARS` characters.
pub fn check_message(message: &str) -> (r: Result<(), ChatError>)
    ensures
        r is Ok <==> message@.len() <= MAX_MESSAGE_CHARS,
        r is Err ==> r == Err::<(), ChatError>(ChatError::ValidationFailed),
{
    if message.unicode_len() > MAX_MESSAGE_CHARS {
        Err(ChatError::ValidationFailed)
    } else {
        Ok(())
    }
}

} // verus!
