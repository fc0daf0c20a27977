//! Lowercasing, which is left to the standard library.

use vstd::prelude::*;

verus! {

/// The lowercase form of `text` under Unicode's rules, as the standard
/// library's `str::to_lowercase` computes it: a function of the whole text,
/// not of its characters one by one.
pub uninterp spec fn lowercase(text: Seq<char>) -> Seq<char>;

/// `str::to_lowercase` of the standard library. Believed, not proved: the
/// string it returns is the lowercase form of its argument, and an empty text
/// has an empty lowercase form.
pub assume_specification[ str::to_lowercase ](text: &str) -> (lowered: String)
    ensures
        lowered@ == lowercase(text@),
        text@.len() == 0 ==> lowered@.len() == 0,
;

} // verus!
