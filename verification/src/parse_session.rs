//! Per-parse bookkeeping: the source file being compiled and running
//! error/warning counts. Formatting and printing diagnostics is the
//! caller's job; the session only counts them.

use vstd::prelude::*;
use crate::source_file::{SourceFile, SourceSpan};

verus! {

/// One compilation session over one source file.
pub struct ParseSession {
    pub source_file: SourceFile,
    error_count: usize,
    warning_count: usize,
}

impl ParseSession {
    /// The source file this session compiles.
    pub closed spec fn spec_source_file(&self) -> SourceFile {
        self.source_file
    }

    pub closed spec fn spec_error_count(&self) -> int {
        self.error_count as int
    }

    pub closed spec fn spec_warning_count(&self) -> int {
        self.warning_count as int
    }

    pub fn new(source_file: SourceFile) -> (r: Self)
        ensures
            r.spec_error_count() == 0,
            r.spec_warning_count() == 0,
            r.spec_source_file() == source_file,
    {
        Self { source_file, error_count: 0, warning_count: 0 }
    }

    /// Records an error found at `span`. The caller reports it to the user;
    /// the session keeps the running count.
    pub fn error(&mut self, span: SourceSpan)
        requires
            old(self).spec_error_count() < usize::MAX,
        ensures
            final(self).spec_error_count() == old(self).spec_error_count() + 1,
            final(self).spec_warning_count() == old(self).spec_warning_count(),
            final(self).spec_source_file() == old(self).spec_source_file(),
    {
        self.error_count += 1;
    }

    /// Records a warning found at `span`, as `error` does for errors.
    pub fn warning(&mut self, span: SourceSpan)
        requires
            old(self).spec_warning_count() < usize::MAX,
        ensures
            final(self).spec_warning_count() == old(self).spec_warning_count() + 1,
            final(self).spec_error_count() == old(self).spec_error_count(),
            final(self).spec_source_file() == old(self).spec_source_file(),
    {
        self.warning_count += 1;
    }

    pub fn error_count(&self) -> (r: usize)
        ensures
            r == self.spec_error_count(),
    {
        self.error_count
    }

    pub fn warning_count(&self) -> (r: usize)
        ensures
            r == self.spec_warning_count(),
    {
        self.warning_count
    }

    pub fn has_errors(&self) -> (r: bool)
        ensures
            r == (self.spec_error_count() != 0),
    {
        self.error_count != 0
    }
}

} // verus!
