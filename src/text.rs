//! Substring search over bytes, and the case folding and colouring that the
//! search relies on.

use colored::Colorize;
use vstd::prelude::*;

verus! {

/// The lowercase form of a text, as `str::to_lowercase` computes it.
pub uninterp spec fn lower_of(s: Seq<char>) -> Seq<char>;

/// The text that comparisons use: lowercased in case-insensitive mode.
pub open spec fn fold_case(s: Seq<char>, insensitive: bool) -> Seq<char> {
    if insensitive {
        lower_of(s)
    } else {
        s
    }
}

/// Relies on `str::to_lowercase`: the lowercase form of a text depends on
/// its characters alone.
#[verifier::external_body]
pub(crate) fn lowercase(s: &str) -> (r: String)
    ensures
        r@ == lower_of(s@),
{
    s.to_lowercase()
}

/// The escape sequence that switches the terminal to a red foreground.
pub open spec fn red_escape() -> Seq<char> {
    seq!['\x1b', '[', '3', '1', 'm']
}

/// The escape sequence that resets every terminal style.
pub open spec fn reset_escape() -> Seq<char> {
    seq!['\x1b', '[', '0', 'm']
}

/// `s` holds a reset escape somewhere.
pub open spec fn holds_reset(s: Seq<char>) -> bool {
    exists|i: int| 0 <= i && i + 4 <= s.len() && #[trigger] s.subrange(i, i + 4) == reset_escape()
}

/// `r` is a red rendering of `s`: either `s` itself, where colouring is off,
/// or `s` between the red and the reset escapes. Only a text that holds a
/// reset escape itself may come out otherwise.
pub open spec fn is_red_rendering(s: Seq<char>, r: Seq<char>) -> bool {
    !holds_reset(s) ==> (r == s || r == red_escape() + s + reset_escape())
}

/// Relies on colored's `Colorize::red` for `&str` and on the `Display` of the
/// `ColoredString` it returns: the text is written unchanged when colouring is
/// off (`NO_COLOR`, `CLICOLOR`, `CLICOLOR_FORCE`, or a stdout that is not a
/// terminal), else as the red escape, the text, and the reset escape, where
/// only reset escapes inside the text are rewritten.
#[verifier::external_body]
pub(crate) fn paint_red(s: &str) -> (r: String)
    ensures
        is_red_rendering(s@, r@),
{
    s.red().to_string()
}

/// `needle` occurs in `hay` starting at byte `i`.
pub open spec fn occurs_at(hay: Seq<u8>, needle: Seq<u8>, i: int) -> bool {
    &&& 0 <= i
    &&& i + needle.len() <= hay.len()
    &&& hay.subrange(i, i + needle.len()) == needle
}

/// The first position at or after `i` where `needle` occurs in `hay`.
pub open spec fn search_from(hay: Seq<u8>, needle: Seq<u8>, i: int) -> Option<int>
    decreases hay.len() + 1 - i,
{
    if i < 0 || i + needle.len() > hay.len() {
        None
    } else if occurs_at(hay, needle, i) {
        Some(i)
    } else {
        search_from(hay, needle, i + 1)
    }
}

/// The position of the leftmost occurrence of `needle` in `hay`, if any.
pub open spec fn first_occurrence(hay: Seq<u8>, needle: Seq<u8>) -> Option<int> {
    search_from(hay, needle, 0)
}

/// A found position is an occurrence, and none occurs between `i` and it.
pub proof fn lemma_search_from_found(hay: Seq<u8>, needle: Seq<u8>, i: int)
    requires
        search_from(hay, needle, i) is Some,
    ensures
        i <= search_from(hay, needle, i)->0,
        occurs_at(hay, needle, search_from(hay, needle, i)->0),
        forall|j: int| i <= j < search_from(hay, needle, i)->0 ==> !occurs_at(hay, needle, j),
    decreases hay.len() + 1 - i,
{
    if i >= 0 && i + needle.len() <= hay.len() && !occurs_at(hay, needle, i) {
        lemma_search_from_found(hay, needle, i + 1);
    }
}

/// Nothing is found from `i >= 0` exactly when nothing occurs at or after `i`.
pub proof fn lemma_search_from_none(hay: Seq<u8>, needle: Seq<u8>, i: int)
    requires
        0 <= i,
    ensures
        search_from(hay, needle, i) is None <==> forall|j: int|
            i <= j ==> !#[trigger] occurs_at(hay, needle, j),
    decreases hay.len() + 1 - i,
{
    if i + needle.len() <= hay.len() {
        lemma_search_from_none(hay, needle, i + 1);
        if search_from(hay, needle, i) is Some {
            lemma_search_from_found(hay, needle, i);
        }
    }
}

/// The empty needle is found at the very start.
pub proof fn lemma_empty_needle(hay: Seq<u8>)
    ensures
        first_occurrence(hay, Seq::<u8>::empty()) == Some(0int),
{
    assert(hay.subrange(0, 0) =~= Seq::<u8>::empty());
}

/// Whether `needle` occurs in `hay` at byte `i`.
fn occurs_at_exec(hay: &[u8], needle: &[u8], i: usize) -> (r: bool)
    requires
        i + needle@.len() <= hay@.len(),
    ensures
        r == occurs_at(hay@, needle@, i as int),
{
    let n: usize = hay.len();
    let mut k: usize = 0;
    while k < needle.len()
        invariant
            n == hay@.len(),
            k <= needle@.len(),
            i + needle@.len() <= hay@.len(),
            forall|m: int| 0 <= m < k ==> hay@[i + m] == needle@[m],
        decreases needle@.len() - k,
    {
        if hay[i + k] != needle[k] {
            assert(hay@.subrange(i as int, i + needle@.len())[k as int] != needle@[k as int]);
            return false;
        }
        k = k + 1;
    }
    assert(hay@.subrange(i as int, i + needle@.len()) =~= needle@);
    true
}

/// The leftmost byte position where `needle` occurs in `hay`.
pub fn find_bytes(hay: &[u8], needle: &[u8]) -> (r: Option<usize>)
    ensures
        match r {
            Some(i) => first_occurrence(hay@, needle@) == Some(i as int),
            None => first_occurrence(hay@, needle@) is None,
        },
{
    if needle.len() > hay.len() {
        return None;
    }
    let last: usize = hay.len() - needle.len();
    let mut i: usize = 0;
    loop
        invariant
            last + needle@.len() == hay@.len(),
            i <= last,
            search_from(hay@, needle@, 0) == search_from(hay@, needle@, i as int),
        decreases last - i,
    {
        if occurs_at_exec(hay, needle, i) {
            return Some(i);
        }
        if i == last {
            assert(search_from(hay@, needle@, i + 1) is None);
            return None;
        }
        i = i + 1;
    }
}

} // verus!
