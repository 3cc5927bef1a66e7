//! Raise records: the evidence that a function may let an exception escape.

use vstd::prelude::*;
use vstd::string::StringExecFns;
use crate::diagnostic::{Diagnostic, DiagnosticView, Lint, Span};
use crate::exception::{lemma_view_unfold, Exception, ExceptionView};
use crate::text::{FileId, TextRange};

verus! {

/// A `raise` statement in the function itself.
#[derive(Debug)]
pub struct FunctionRaiseDirectTarget {
    pub file: FileId,
    pub exception: Exception,
    pub range: TextRange,
}

/// A call in the function through which the callee's record `target`
/// escapes. `depth` counts the calls between this record and the `raise`
/// statement where the chain ends.
#[derive(Debug)]
pub struct FunctionRaiseTransitiveTarget {
    pub target: Box<FunctionRaise>,
    pub file: FileId,
    pub exception: Exception,
    pub range: TextRange,
    pub depth: usize,
}

/// One way in which an exception may escape a function.
#[derive(Debug)]
pub enum FunctionRaise {
    Direct(FunctionRaiseDirectTarget),
    Transitive(FunctionRaiseTransitiveTarget),
}

/// The mathematical value of a [`FunctionRaise`].
pub ghost enum RaiseView {
    Direct { file: FileId, exception: ExceptionView, range: TextRange },
    Transitive {
        inner: Box<RaiseView>,
        file: FileId,
        exception: ExceptionView,
        range: TextRange,
        depth: nat,
    },
}

impl RaiseView {
    /// The exception the record is about.
    pub open spec fn exception(self) -> ExceptionView {
        match self {
            RaiseView::Direct { exception, .. } => exception,
            RaiseView::Transitive { exception, .. } => exception,
        }
    }

    /// The file of the record's own site.
    pub open spec fn file(self) -> FileId {
        match self {
            RaiseView::Direct { file, .. } => file,
            RaiseView::Transitive { file, .. } => file,
        }
    }

    /// The record's own site: the `raise` statement or the call.
    pub open spec fn range(self) -> TextRange {
        match self {
            RaiseView::Direct { range, .. } => range,
            RaiseView::Transitive { range, .. } => range,
        }
    }

    /// 0 for a direct record, the recorded depth of a transitive one.
    pub open spec fn depth(self) -> nat {
        match self {
            RaiseView::Direct { .. } => 0,
            RaiseView::Transitive { depth, .. } => depth,
        }
    }

    /// 0 for a direct record, 1 for a transitive one.
    pub open spec fn rank(self) -> nat {
        match self {
            RaiseView::Direct { .. } => 0,
            RaiseView::Transitive { .. } => 1,
        }
    }

    /// The number of calls between the record and the `raise` statement in
    /// which its chain ends.
    pub open spec fn chain_len(self) -> nat
        decreases self,
    {
        match self {
            RaiseView::Direct { .. } => 0,
            RaiseView::Transitive { inner, .. } => 1 + inner.chain_len(),
        }
    }

    /// Every link of the chain is about the same exception as the record it
    /// points to, and lies one call further from the `raise` statement.
    pub open spec fn chain_ok(self) -> bool
        decreases self,
    {
        match self {
            RaiseView::Direct { .. } => true,
            RaiseView::Transitive { inner, exception, depth, .. } => {
                &&& inner.chain_ok()
                &&& exception == inner.exception()
                &&& depth == inner.depth() + 1
            },
        }
    }

    /// The sites of the chain, from the `raise` statement outwards to the
    /// record's own site.
    pub open spec fn chain_sites(self) -> Seq<Span>
        decreases self,
    {
        match self {
            RaiseView::Direct { file, range, .. } => seq![Span { file, range }],
            RaiseView::Transitive { inner, file, range, .. } => inner.chain_sites().push(
                Span { file, range },
            ),
        }
    }

    /// The site of the `raise` statement in which the chain ends.
    pub open spec fn origin(self) -> Span
        decreases self,
    {
        match self {
            RaiseView::Direct { file, range, .. } => Span { file, range },
            RaiseView::Transitive { inner, .. } => inner.origin(),
        }
    }

    /// The record for a call at `range` in `file` through which `self`
    /// escapes.
    pub open spec fn lifted(self, file: FileId, range: TextRange) -> RaiseView {
        RaiseView::Transitive {
            inner: Box::new(self),
            file,
            exception: self.exception(),
            range,
            depth: self.depth() + 1,
        }
    }

    /// What is reported for an undocumented record: the message names the
    /// exception and the primary place is the record's own site. For a
    /// transitive record the further places are the sites of the chain it
    /// points to, from the `raise` statement outwards; its own site is not
    /// among them.
    pub open spec fn diagnostic(self) -> DiagnosticView {
        DiagnosticView {
            lint: Lint::Raise,
            message: "Raises undocumented error "@ + self.exception().name,
            primary: Span { file: self.file(), range: self.range() },
            secondary: match self {
                RaiseView::Direct { .. } => Seq::empty(),
                RaiseView::Transitive { inner, .. } => inner.chain_sites(),
            },
        }
    }
}

impl View for FunctionRaise {
    type V = RaiseView;

    open spec fn view(&self) -> RaiseView
        decreases self,
    {
        match self {
            FunctionRaise::Direct(t) => RaiseView::Direct {
                file: t.file,
                exception: t.exception@,
                range: t.range,
            },
            FunctionRaise::Transitive(t) => RaiseView::Transitive {
                inner: Box::new((*t.target)@),
                file: t.file,
                exception: t.exception@,
                range: t.range,
                depth: t.depth as nat,
            },
        }
    }
}

/// The views of a list of records, in order.
pub open spec fn raise_views(list: Seq<FunctionRaise>) -> Seq<RaiseView> {
    Seq::new(list.len(), |i: int| list[i]@)
}

/// In a well-formed chain the recorded depth is the length of the chain.
pub proof fn lemma_depth_is_chain_len(r: RaiseView)
    requires
        r.chain_ok(),
    ensures
        r.depth() == r.chain_len(),
    decreases r,
{
    match r {
        RaiseView::Direct { .. } => {},
        RaiseView::Transitive { inner, .. } => {
            lemma_depth_is_chain_len(*inner);
        },
    }
}

/// The sites of a chain are one more than its calls; they begin with the
/// `raise` statement and end with the record's own site.
pub proof fn lemma_chain_sites(r: RaiseView)
    ensures
        r.chain_sites().len() == r.chain_len() + 1,
        r.chain_sites()[0] == r.origin(),
        r.chain_sites().last() == (Span { file: r.file(), range: r.range() }),
    decreases r,
{
    match r {
        RaiseView::Direct { .. } => {},
        RaiseView::Transitive { inner, .. } => {
            lemma_chain_sites(*inner);
        },
    }
}

/// The diagnostic of a transitive record with a well-formed chain lists as
/// many further places as the record is deep: first the `raise` statement,
/// last the call that the record points to.
pub proof fn lemma_secondary_places(r: RaiseView)
    requires
        r.chain_ok(),
        r is Transitive,
    ensures
        r.diagnostic().secondary.len() == r.depth(),
        r.diagnostic().secondary[0] == r.origin(),
        r.diagnostic().primary == (Span { file: r.file(), range: r.range() }),
{
    match r {
        RaiseView::Direct { .. } => {},
        RaiseView::Transitive { inner, .. } => {
            lemma_chain_sites(*inner);
            lemma_depth_is_chain_len(*inner);
        },
    }
}

/// Lifting a record through a call gives a transitive record that points
/// to it and stands at the call: it keeps the exception, is one call deeper,
/// and its chain is one call longer, and well-formed if the chain of the
/// record is.
pub proof fn lemma_lifted(r: RaiseView, file: FileId, range: TextRange)
    ensures
        r.lifted(file, range) matches RaiseView::Transitive { inner, .. } && *inner == r,
        r.lifted(file, range).file() == file,
        r.lifted(file, range).range() == range,
        r.lifted(file, range).exception() == r.exception(),
        r.lifted(file, range).depth() == r.depth() + 1,
        r.lifted(file, range).chain_len() == r.chain_len() + 1,
        r.chain_ok() ==> r.lifted(file, range).chain_ok(),
{
}

impl FunctionRaise {
    /// The record of a `raise` statement at `range` in `file`.
    pub fn direct(file: FileId, exception: Exception, range: TextRange) -> (r: FunctionRaise)
        ensures
            r@ == (RaiseView::Direct { file, exception: exception@, range }),
    {
        FunctionRaise::Direct(FunctionRaiseDirectTarget { file, exception, range })
    }

    /// The recorded depth.
    pub fn depth(&self) -> (r: usize)
        ensures
            r == self@.depth(),
    {
        match self {
            FunctionRaise::Direct(_) => 0,
            FunctionRaise::Transitive(t) => t.depth,
        }
    }

    /// By what records are ordered: the exception's name, then direct before
    /// transitive, then the depth.
    pub fn sort_key(&self) -> (r: (String, usize, usize))
        ensures
            r.0@ == self@.exception().name,
            r.1 == self@.rank(),
            r.2 == self@.depth(),
    {
        let name = self.group_key();
        match self {
            FunctionRaise::Direct(_) => (name, 0, 0),
            FunctionRaise::Transitive(e) => (name, 1, e.depth),
        }
    }

    /// By what records are grouped: the exception's name.
    pub fn group_key(&self) -> (r: String)
        ensures
            r@ == self@.exception().name,
    {
        let exception = self.name();
        proof {
            lemma_view_unfold(*exception);
        }
        exception.name.clone()
    }

    /// The record for a call at `range` in `file` through which this record
    /// escapes.
    pub fn transitive(&self, file: FileId, range: TextRange) -> (r: FunctionRaise)
        requires
            self@.depth() < usize::MAX,
        ensures
            r@ == self@.lifted(file, range),
    {
        let depth = self.depth();
        FunctionRaise::Transitive(
            FunctionRaiseTransitiveTarget {
                target: Box::new(self.clone()),
                file,
                exception: self.name().clone(),
                range,
                depth: depth + 1,
            },
        )
    }

    /// The exception the record is about.
    pub fn name(&self) -> (r: &Exception)
        ensures
            r@ == self@.exception(),
    {
        match self {
            FunctionRaise::Direct(r) => &r.exception,
            FunctionRaise::Transitive(r) => &r.exception,
        }
    }

    /// The file of the record's own site.
    pub fn file(&self) -> (r: FileId)
        ensures
            r == self@.file(),
    {
        match self {
            FunctionRaise::Direct(r) => r.file,
            FunctionRaise::Transitive(r) => r.file,
        }
    }

    /// The record's own site.
    pub fn range(&self) -> (r: TextRange)
        ensures
            r == self@.range(),
    {
        match self {
            FunctionRaise::Direct(r) => r.range,
            FunctionRaise::Transitive(r) => r.range,
        }
    }

    /// The sites of the chain, from the `raise` statement outwards.
    fn build_call_chain(&self) -> (r: Vec<Span>)
        ensures
            r@ == self@.chain_sites(),
        decreases self,
    {
        match self {
            FunctionRaise::Direct(t) => {
                let mut sites: Vec<Span> = Vec::new();
                sites.push(Span { file: t.file, range: t.range });
                assert(sites@ =~= self@.chain_sites());
                sites
            },
            FunctionRaise::Transitive(t) => {
                let mut sites = t.target.build_call_chain();
                sites.push(Span { file: t.file, range: t.range });
                sites
            },
        }
    }

    /// The diagnostic for this record when the function's docstring does not
    /// list its exception.
    pub fn to_diagnostic(&self) -> (r: Diagnostic)
        ensures
            r@ == self@.diagnostic(),
    {
        let message = String::from_str("Raises undocumented error ").concat(
            self.group_key().as_str(),
        );
        let secondary = match self {
            FunctionRaise::Direct(_) => Vec::new(),
            FunctionRaise::Transitive(t) => t.target.build_call_chain(),
        };
        let r = Diagnostic {
            lint: Lint::Raise,
            message,
            primary: Span { file: self.file(), range: self.range() },
            secondary,
        };
        assert(r@.secondary =~= self@.diagnostic().secondary);
        r
    }
}

impl Clone for FunctionRaise {
    fn clone(&self) -> (r: FunctionRaise)
        ensures
            r@ == self@,
        decreases self,
    {
        match self {
            FunctionRaise::Direct(t) => FunctionRaise::Direct(
                FunctionRaiseDirectTarget {
                    file: t.file,
                    exception: t.exception.clone(),
                    range: t.range,
                },
            ),
            FunctionRaise::Transitive(t) => FunctionRaise::Transitive(
                FunctionRaiseTransitiveTarget {
                    target: Box::new((*t.target).clone()),
                    file: t.file,
                    exception: t.exception.clone(),
                    range: t.range,
                    depth: t.depth,
                },
            ),
        }
    }
}

} // verus!
