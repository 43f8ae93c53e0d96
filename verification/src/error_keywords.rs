//! The words that tell of something gone wrong.
use crate::text::{contains_text, text_contains};
use vstd::prelude::*;

verus! {

/// Words of errors, in lower case. Whoever looks for errors looks for these.
pub const ERROR_KEYWORDS: [&'static str; 12] = [
    "error",
    "exception",
    "failed",
    "failure",
    "critical",
    "fatal",
    "crash",
    "panic",
    "abort",
    "timeout",
    "denied",
    "rejected",
];

/// Whether one of the error words occurs in the text.
pub open spec fn has_error_word(text: Seq<char>) -> bool {
    exists|i: int| 0 <= i < 12 && contains_text(text, (#[trigger] ERROR_KEYWORDS@[i])@)
}

pub fn mentions_error(text: &str) -> (b: bool)
    ensures
        b == has_error_word(text@),
{
    let mut i: usize = 0;
    while i < 12
        invariant
            i <= 12,
            forall|j: int| 0 <= j < i ==> !contains_text(text@, (#[trigger] ERROR_KEYWORDS@[j])@),
        decreases 12 - i,
    {
        if text_contains(text, ERROR_KEYWORDS[i]) {
            return true;
        }
        i = i + 1;
    }
    false
}

/// A text tells of an error just where one of these twelve words occurs in it.
pub proof fn twelve_words_tell_of_errors(text: Seq<char>)
    ensures
        has_error_word(text) <==> {
            ||| contains_text(text, "error"@)
            ||| contains_text(text, "exception"@)
            ||| contains_text(text, "failed"@)
            ||| contains_text(text, "failure"@)
            ||| contains_text(text, "critical"@)
            ||| contains_text(text, "fatal"@)
            ||| contains_text(text, "crash"@)
            ||| contains_text(text, "panic"@)
            ||| contains_text(text, "abort"@)
            ||| contains_text(text, "timeout"@)
            ||| contains_text(text, "denied"@)
            ||| contains_text(text, "rejected"@)
        },
{
    let w = ERROR_KEYWORDS@;
    assert(w[0]@ == "error"@ && w[1]@ == "exception"@ && w[2]@ == "failed"@ && w[3]@ == "failure"@);
    assert(w[4]@ == "critical"@ && w[5]@ == "fatal"@ && w[6]@ == "crash"@ && w[7]@ == "panic"@);
    assert(w[8]@ == "abort"@ && w[9]@ == "timeout"@ && w[10]@ == "denied"@ && w[11]@ == "rejected"@);
}

} // verus!
