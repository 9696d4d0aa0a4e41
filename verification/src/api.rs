//! What is shown of objects and of the budget.
use vstd::prelude::*;
use vstd::string::StrSliceExecFns;
use vstd::utf8::valid_utf8;
use crate::model::outside::{lossy_text, utf8_lossy, utf8_text};
use crate::model::text::part_of;

verus! {

/// The most characters that a preview shows.
pub const PREVIEW_CHARS: usize = 2000;

/// What is shown of a content.
#[derive(Debug)]
pub struct Preview {
    pub text: String,
    pub is_text: bool,
}

/// The head of a text.
pub open spec fn head_of(s: Seq<char>) -> Seq<char> {
    if s.len() <= PREVIEW_CHARS {
        s
    } else {
        s.take(PREVIEW_CHARS as int)
    }
}

/// The head of a content as text, and whether the whole of it is text.
pub fn preview(content: &[u8]) -> (p: Preview)
    ensures
        p.text@ == head_of(lossy_text(content@)),
        p.is_text == valid_utf8(content@),
{
    let all = utf8_lossy(content);
    let text = first_chars(all.as_str());
    let is_text: bool = match utf8_text(content) {
        Ok(_) => true,
        Err(_) => false,
    };
    Preview { text, is_text }
}

/// The head of a text.
pub fn first_chars(s: &str) -> (r: String)
    ensures
        r@ == head_of(s@),
{
    let n: usize = s.unicode_len();
    let to: usize = if n <= PREVIEW_CHARS {
        n
    } else {
        PREVIEW_CHARS
    };
    let r = part_of(s, 0, to);
    assert(r@ =~= head_of(s@));
    r
}

/// What is left of a budget; less than nothing when more was used than it holds.
pub fn remaining(max_total_expanded: u64, total_expanded_used: u64) -> (n: i128)
    ensures
        n == max_total_expanded - total_expanded_used,
{
    max_total_expanded as i128 - total_expanded_used as i128
}

} // verus!
