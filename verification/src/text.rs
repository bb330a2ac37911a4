//! Byte classification and maximal runs of bytes, the vocabulary that the
//! indentation detector and the lexer share. All classes are ASCII by
//! design: the whole front end works on source bytes, so spans stay plain
//! byte offsets and every step is verified. A byte outside ASCII belongs
//! to no class and lexes as an Invalid token.

use vstd::prelude::*;

verus! {

/// Horizontal whitespace: space, tab, carriage return. Skipped by the lexer
/// outside of line-start position.
pub open spec fn is_hspace(c: u8) -> bool {
    c == 32 || c == 9 || c == 13
}

/// ASCII whitespace, the bytes the indentation detector treats as blank.
pub open spec fn is_ws(c: u8) -> bool {
    c == 32 || (9 <= c && c <= 13)
}

pub open spec fn is_space(c: u8) -> bool {
    c == 32
}

pub open spec fn is_tab(c: u8) -> bool {
    c == 9
}

pub open spec fn is_digit(c: u8) -> bool {
    48 <= c && c <= 57
}

/// ASCII alphabetic.
pub open spec fn is_alpha(c: u8) -> bool {
    (65 <= c && c <= 90) || (97 <= c && c <= 122)
}

pub open spec fn is_alnum(c: u8) -> bool {
    is_alpha(c) || is_digit(c)
}

/// Not a line feed; a run of these is the rest of the current line.
pub open spec fn is_not_newline(c: u8) -> bool {
    c != 10
}

/// The predicates below are passed to `run_len`. Each is a single named
/// value, so that every mention of a given run denotes the same function.
pub open spec fn space_p() -> spec_fn(u8) -> bool {
    |c: u8| is_space(c)
}

pub open spec fn tab_p() -> spec_fn(u8) -> bool {
    |c: u8| is_tab(c)
}

pub open spec fn digit_p() -> spec_fn(u8) -> bool {
    |c: u8| is_digit(c)
}

pub open spec fn alnum_p() -> spec_fn(u8) -> bool {
    |c: u8| is_alnum(c)
}

pub open spec fn not_newline_p() -> spec_fn(u8) -> bool {
    |c: u8| is_not_newline(c)
}

/// Length of the maximal run of bytes satisfying `p` that starts at `i`.
pub open spec fn run_len(src: Seq<u8>, i: int, p: spec_fn(u8) -> bool) -> nat
    decreases src.len() - i,
{
    if 0 <= i && i < src.len() && p(src[i]) {
        1 + run_len(src, i + 1, p)
    } else {
        0
    }
}

/// A run starting inside the sequence ends inside it.
pub proof fn lemma_run_len_bound(src: Seq<u8>, i: int, p: spec_fn(u8) -> bool)
    requires
        0 <= i <= src.len(),
    ensures
        i + run_len(src, i, p) <= src.len(),
    decreases src.len() - i,
{
    if i < src.len() && p(src[i]) {
        lemma_run_len_bound(src, i + 1, p);
    }
}

/// Every byte of the run satisfies `p`, and the byte just past it does not
/// (unless the run reaches the end of the sequence).
pub proof fn lemma_run_len_range(src: Seq<u8>, i: int, p: spec_fn(u8) -> bool)
    requires
        0 <= i <= src.len(),
    ensures
        i + run_len(src, i, p) <= src.len(),
        forall|k: int| i <= k < i + run_len(src, i, p) ==> p(src[k]),
        i + run_len(src, i, p) == src.len() || !p(src[i + run_len(src, i, p)]),
    decreases src.len() - i,
{
    if i < src.len() && p(src[i]) {
        lemma_run_len_range(src, i + 1, p);
    }
}

/// A scan that stopped at the first byte not satisfying `p` has measured
/// exactly the maximal run.
pub proof fn lemma_run_len_exact(src: Seq<u8>, i: int, j: int, p: spec_fn(u8) -> bool)
    requires
        0 <= i <= j <= src.len(),
        forall|k: int| i <= k < j ==> p(src[k]),
        j == src.len() || !p(src[j]),
    ensures
        run_len(src, i, p) == j - i,
    decreases j - i,
{
    if i < j {
        lemma_run_len_exact(src, i + 1, j, p);
    }
}

} // verus!
