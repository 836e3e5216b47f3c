//! What the answer to a question means.

use vstd::prelude::*;
use crate::space::{trim, trimmed};
use crate::text::chars_of;

verus! {

/// Whether a text is `y` or `yes`, in capital or small letters.
pub open spec fn says_yes(t: Seq<char>) -> bool {
    ||| t.len() == 1 && (t[0] == 'y' || t[0] == 'Y')
    ||| t.len() == 3 && (t[0] == 'y' || t[0] == 'Y') && (t[1] == 'e' || t[1] == 'E') && (t[2]
        == 's' || t[2] == 'S')
}

/// Whether an answer means yes: with the white space at its ends left
/// aside, it is `y` or `yes` in capital or small letters, or it is empty
/// and an empty answer counts as yes.
pub open spec fn means_yes(answer: Seq<char>, empty_is_yes: bool) -> bool {
    (empty_is_yes && trimmed(answer).len() == 0) || says_yes(trimmed(answer))
}

/// Whether an answer means yes. `empty_is_yes` says what an answer of
/// nothing but white space counts as.
pub fn answer_is_yes(answer: &str, empty_is_yes: bool) -> (yes: bool)
    ensures
        yes == means_yes(answer@, empty_is_yes),
{
    let t = trim(&chars_of(answer));
    if t.len() == 0 {
        empty_is_yes
    } else if t.len() == 1 {
        t[0] == 'y' || t[0] == 'Y'
    } else if t.len() == 3 {
        (t[0] == 'y' || t[0] == 'Y') && (t[1] == 'e' || t[1] == 'E') && (t[2] == 's' || t[2]
            == 'S')
    } else {
        false
    }
}

} // verus!
