//! What the analysis reports.

use vstd::prelude::*;
use crate::text::{FileId, TextRange};

verus! {

/// The rule a diagnostic belongs to.
#[derive(Debug, Clone, Copy, PartialEq, Eq, Hash, Structural)]
pub enum Lint {
    /// A function may raise an exception its docstring does not list.
    Raise,
    /// A docstring lists an exception the function cannot raise.
    ExtraDocumentedError,
}

impl Lint {
    /// The name under which the rule is reported.
    pub fn name(&self) -> (r: &'static str)
        ensures
            r@ == (match *self {
                Lint::Raise => "raise"@,
                Lint::ExtraDocumentedError => "extra-documented-error"@,
            }),
    {
        match self {
            Lint::Raise => "raise",
            Lint::ExtraDocumentedError => "extra-documented-error",
        }
    }
}

/// A place in a source file.
#[derive(Debug, Clone, Copy, PartialEq, Eq, Hash, Structural)]
pub struct Span {
    pub file: FileId,
    pub range: TextRange,
}

/// One finding: its rule and message, the place it points at, and the
/// further places that explain it.
#[derive(Debug)]
pub struct Diagnostic {
    pub lint: Lint,
    pub message: String,
    pub primary: Span,
    pub secondary: Vec<Span>,
}

/// The mathematical value of a [`Diagnostic`].
pub ghost struct DiagnosticView {
    pub lint: Lint,
    pub message: Seq<char>,
    pub primary: Span,
    pub secondary: Seq<Span>,
}

impl View for Diagnostic {
    type V = DiagnosticView;

    open spec fn view(&self) -> DiagnosticView {
        DiagnosticView {
            lint: self.lint,
            message: self.message@,
            primary: self.primary,
            secondary: self.secondary@,
        }
    }
}

/// The views of a list of diagnostics, in order.
pub open spec fn diagnostic_views(list: Seq<Diagnostic>) -> Seq<DiagnosticView> {
    Seq::new(list.len(), |i: int| list[i]@)
}

/// Whether the place `a` does not come after the place `b`: places are
/// ordered by file, then by where they begin.
pub open spec fn span_le(a: Span, b: Span) -> bool {
    a.file.index < b.file.index || (a.file.index == b.file.index && a.range.start
        <= b.range.start)
}

/// Whether no diagnostic of `s` points at a place that comes after the place
/// of a later one.
pub open spec fn by_place(s: Seq<DiagnosticView>) -> bool {
    forall|i: int, j: int|
        0 <= i < j < s.len() ==> span_le((#[trigger] s[i]).primary, (#[trigger] s[j]).primary)
}

/// `slice::sort_unstable_by_key` with the file and the start of the primary
/// place as the key: the same diagnostics, ordered by that key. Diagnostics
/// with the same key come in no particular order.
#[verifier::external_body]
pub(crate) fn sort_by_place(diagnostics: Vec<Diagnostic>) -> (r: Vec<Diagnostic>)
    ensures
        diagnostic_views(r@).to_multiset() == diagnostic_views(diagnostics@).to_multiset(),
        by_place(diagnostic_views(r@)),
{
    let mut sorted = diagnostics;
    sorted.sort_unstable_by_key(|d| (d.primary.file.index, d.primary.range.start));
    sorted
}

} // verus!
