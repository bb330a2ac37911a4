//! Source text, byte spans into it, and the indentation convention.

use vstd::prelude::*;
use crate::text::{is_ws, run_len, space_p, not_newline_p, lemma_run_len_exact};

verus! {

/// The bytes of a piece of source text. All spans are offsets into this
/// byte sequence.
pub open spec fn source_bytes(text: Seq<char>) -> Seq<u8> {
    vstd::utf8::encode_utf8(text)
}

/// Half-open byte range into the source buffer. Attached to every token and
/// AST node; never mutated after creation, only copied.
#[derive(Copy, Clone, Debug, PartialEq, Eq, Structural)]
pub struct SourceSpan {
    pub start: usize,
    pub end: usize,
}

impl SourceSpan {
    pub fn new(start: usize, end: usize) -> (r: Self)
        requires
            start <= end,
        ensures
            r == (SourceSpan { start, end }),
    {
        Self { start, end }
    }

    pub fn from_length(start: usize, length: usize) -> (r: Self)
        requires
            start + length <= usize::MAX,
        ensures
            r == (SourceSpan { start, end: (start + length) as usize }),
    {
        Self { start, end: start + length }
    }

    pub fn len(self) -> (r: usize)
        requires
            self.start <= self.end,
        ensures
            r == self.end - self.start,
    {
        self.end - self.start
    }
}

/// The character sequence that denotes one level of block nesting:
/// a single tab, or a fixed positive number of spaces.
#[derive(Copy, Clone, Debug, PartialEq, Eq, Structural)]
pub enum IndentKind {
    Tab,
    Spaces(usize),
}

impl IndentKind {
    /// A usable convention: a spaces convention must have a positive width,
    /// since the indentation level is the space count divided by the width.
    pub open spec fn wf(self) -> bool {
        match self {
            IndentKind::Tab => true,
            IndentKind::Spaces(n) => n >= 1,
        }
    }
}

/// An already-loaded source file: its path, its text, and the indentation
/// convention detected for it. Reading from disk is the caller's job.
pub struct SourceFile {
    /// Path the source text was loaded from, used only for reporting.
    pub file_path: String,
    /// The complete source text.
    pub source_code: String,
    /// Kind of indentation used in the source text.
    pub indent_kind: IndentKind,
}

impl SourceFile {
    /// The bytes of the source text covered by `span`.
    pub fn read_span(&self, span: SourceSpan) -> (r: &[u8])
        requires
            span.start <= span.end,
            span.end <= source_bytes(self.source_code@).len(),
        ensures
            r@ == source_bytes(self.source_code@).subrange(span.start as int, span.end as int),
    {
        let bytes: &[u8] = self.source_code.as_str().as_bytes();
        &bytes[span.start..span.end]
    }
}

/// Every byte in `[a, b)` is ASCII whitespace.
pub open spec fn all_ws(src: Seq<u8>, a: int, b: int) -> bool {
    forall|k: int| a <= k < b ==> is_ws(#[trigger] src[k])
}

/// The convention that inspecting the raw text line by line yields: the
/// first non-blank line whose leading whitespace run is not itself followed
/// by further whitespace decides between tabs and a space count; if no line
/// decides, two spaces is the default.
pub open spec fn detect_from(src: Seq<u8>, i: int) -> IndentKind
    decreases src.len() - i,
{
    if i < 0 || i >= src.len() {
        IndentKind::Spaces(2)
    } else {
        // The current line is [i, e); a carriage return before the line feed
        // is not part of its content.
        let e = i + run_len(src, i, not_newline_p());
        let ep = if e > i && src[e - 1] == 13 { e - 1 } else { e };
        if all_ws(src, i, ep) {
            if e >= src.len() {
                IndentKind::Spaces(2)
            } else {
                detect_from(src, e + 1)
            }
        } else if src[i] == 9 {
            IndentKind::Tab
        } else if src[i] == 32 {
            let sc = run_len(src, i, space_p()) as int;
            if i + sc < ep && is_ws(src[i + sc]) {
                if e >= src.len() {
                    IndentKind::Spaces(2)
                } else {
                    detect_from(src, e + 1)
                }
            } else {
                IndentKind::Spaces(sc as usize)
            }
        } else {
            if e >= src.len() {
                IndentKind::Spaces(2)
            } else {
                detect_from(src, e + 1)
            }
        }
    }
}

/// Looks through the source text line by line for the first non-blank,
/// indented line whose indentation is not followed by further whitespace.
/// A leading tab on such a line decides for tabs; a leading run of spaces
/// decides for that many spaces. Defaults to two spaces when no line
/// decides. Blankness and the whitespace that undoes a decision are read
/// as ASCII whitespace, like every character class of this front end.
pub fn detect_indent_kind(source_code: &String) -> (r: IndentKind)
    ensures
        r == detect_from(source_bytes(source_code@), 0),
        r.wf(),
{
    let bytes: &[u8] = source_code.as_str().as_bytes();
    let n = bytes.len();
    let mut i: usize = 0;
    while i < n
        invariant
            0 <= i <= n,
            n == bytes@.len(),
            bytes@ == source_bytes(source_code@),
            detect_from(bytes@, 0) == detect_from(bytes@, i as int),
        decreases n - i,
    {
        // Find the end of the current line.
        let mut e: usize = i;
        while e < n && bytes[e] != 10
            invariant
                i <= e <= n,
                n == bytes@.len(),
                forall|k: int| i <= k < e ==> (not_newline_p())(#[trigger] bytes@[k]),
            decreases n - e,
        {
            e += 1;
        }
        proof {
            assert(e == n || !(not_newline_p())(bytes@[e as int]));
            lemma_run_len_exact(bytes@, i as int, e as int, not_newline_p());
        }
        let ep: usize = if e > i && bytes[e - 1] == 13 { e - 1 } else { e };

        // Skip a line whose content is only whitespace.
        let mut k: usize = i;
        while k < ep && (bytes[k] == 32 || (9 <= bytes[k] && bytes[k] <= 13))
            invariant
                i <= k <= ep,
                ep <= n,
                n == bytes@.len(),
                forall|j: int| i <= j < k ==> is_ws(#[trigger] bytes@[j]),
            decreases ep - k,
        {
            k += 1;
        }
        if k == ep {
            if e == n {
                return IndentKind::Spaces(2);
            }
            i = e + 1;
            continue;
        }
        assert(!all_ws(bytes@, i as int, ep as int));

        if bytes[i] == 9 {
            return IndentKind::Tab;
        }
        if bytes[i] == 32 {
            let mut sc: usize = i;
            while sc < n && bytes[sc] == 32
                invariant
                    i <= sc <= n,
                    n == bytes@.len(),
                    forall|j: int| i <= j < sc ==> (space_p())(#[trigger] bytes@[j]),
                decreases n - sc,
            {
                sc += 1;
            }
            proof {
                assert(sc == n || !(space_p())(bytes@[sc as int]));
                lemma_run_len_exact(bytes@, i as int, sc as int, space_p());
            }
            let count = sc - i;
            if sc < ep && (bytes[sc] == 32 || (9 <= bytes[sc] && bytes[sc] <= 13)) {
                if e == n {
                    return IndentKind::Spaces(2);
                }
                i = e + 1;
                continue;
            }
            return IndentKind::Spaces(count);
        }
        if e == n {
            return IndentKind::Spaces(2);
        }
        i = e + 1;
    }
    IndentKind::Spaces(2)
}

} // verus!
