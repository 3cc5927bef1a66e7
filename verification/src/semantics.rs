//! What the analysis computes, as functions of the project.
//!
//! The records that a piece of code contributes are those of its parts, in
//! the order in which a walk meets them: a node before its children, the
//! children in the order in which they are evaluated.

use vstd::prelude::*;
use crate::ast::{Child, ExceptHandler, Expr, Stmt, StmtFunctionDef, StmtRaise, StmtTry};
use crate::call_stack::Frame;
use crate::capture_stack::{captured, list_captures, CaptureView};
use crate::exception::{root, subclass_of_any, ExceptionView};
use crate::extract::{caught_by, exception_named, resolved_alias};
use crate::module::{collect_module, found_functions, lemma_found_are_listed};
use crate::project::{function_frame, Project};
use crate::raise::RaiseView;
use crate::report::report;
use crate::text::{FileId, TextRange};

verus! {

/// Under what a piece of code is analysed.
pub ghost struct Context {
    /// The file the code stands in.
    pub file: FileId,
    /// The exception classes of interest; none means all.
    pub targets: Seq<ExceptionView>,
    /// The functions whose analysis is under way.
    pub stack: Seq<Frame>,
    /// What the enclosing `try` blocks and handler catch.
    pub capture: CaptureView,
    /// For each enclosing handler, what the body of its `try` block raises.
    pub tries: Seq<Seq<ExceptionView>>,
}

impl Context {
    /// This context inside a handler that has caught `caught`.
    pub open spec fn in_handler(self, caught: Seq<ExceptionView>) -> Context {
        Context {
            capture: CaptureView {
                try_captures: self.capture.try_captures,
                handler_captures: self.capture.handler_captures.push(caught),
            },
            ..self
        }
    }

    /// This context inside the handlers of a `try` block whose body raises
    /// `raised`.
    pub open spec fn after_try(self, raised: Seq<ExceptionView>) -> Context {
        Context { tries: self.tries.push(raised), ..self }
    }
}

/// Whether `e` is of interest: there are no targets, or `e` is a subclass of
/// one of them.
pub open spec fn passes(targets: Seq<ExceptionView>, e: ExceptionView) -> bool {
    targets.len() == 0 || subclass_of_any(e, targets)
}

/// The record of a `raise` statement at `range` in `file`.
pub open spec fn direct(file: FileId, e: ExceptionView, range: TextRange) -> RaiseView {
    RaiseView::Direct { file, exception: e, range }
}

/// Of the first `n` records of `s`, those whose exception no list of
/// `lists` catches.
pub open spec fn escaping_among(s: Seq<RaiseView>, lists: Seq<Seq<ExceptionView>>, n: nat) -> Seq<
    RaiseView,
>
    decreases n,
{
    if n == 0 || n > s.len() {
        Seq::empty()
    } else {
        let rest = escaping_among(s, lists, (n - 1) as nat);
        if captured(lists, s[n - 1].exception()) {
            rest
        } else {
            rest.push(s[n - 1])
        }
    }
}

/// The records of `s` whose exception no list of `lists` catches.
pub open spec fn escaping(s: Seq<RaiseView>, lists: Seq<Seq<ExceptionView>>) -> Seq<RaiseView> {
    escaping_among(s, lists, s.len())
}

/// Of what the body of a `try` block raises, what gets past its handlers,
/// which catch `caught`, and past the `try` blocks around it.
pub open spec fn guarded(c: Context, body: Seq<RaiseView>, caught: Seq<ExceptionView>) -> Seq<
    RaiseView,
> {
    escaping(body, c.capture.try_captures.push(caught))
}

/// No record that escapes is about an exception that is caught.
pub proof fn lemma_escaping_uncaught(s: Seq<RaiseView>, lists: Seq<Seq<ExceptionView>>, n: nat)
    ensures
        forall|i: int|
            0 <= i < escaping_among(s, lists, n).len() ==> !captured(
                lists,
                (#[trigger] escaping_among(s, lists, n)[i]).exception(),
            ),
    decreases n,
{
    if n > 0 && n <= s.len() {
        lemma_escaping_uncaught(s, lists, (n - 1) as nat);
        let rest = escaping_among(s, lists, (n - 1) as nat);
        assert forall|i: int| 0 <= i < escaping_among(s, lists, n).len() implies !captured(
            lists,
            (#[trigger] escaping_among(s, lists, n)[i]).exception(),
        ) by {
            if i < rest.len() {
                assert(escaping_among(s, lists, n)[i] == rest[i]);
            }
        }
    }
}

/// What escapes is part of what was there: every escaping record is one of
/// the first `n`.
pub proof fn lemma_escaping_from(s: Seq<RaiseView>, lists: Seq<Seq<ExceptionView>>, n: nat)
    requires
        n <= s.len(),
    ensures
        forall|i: int|
            0 <= i < escaping_among(s, lists, n).len() ==> exists|k: int|
                0 <= k < n && s[k] == #[trigger] escaping_among(s, lists, n)[i],
    decreases n,
{
    if n > 0 {
        lemma_escaping_from(s, lists, (n - 1) as nat);
        let rest = escaping_among(s, lists, (n - 1) as nat);
        assert forall|i: int| 0 <= i < escaping_among(s, lists, n).len() implies exists|k: int|
            0 <= k < n && s[k] == #[trigger] escaping_among(s, lists, n)[i] by {
            if i < rest.len() {
                let k = choose|k: int| 0 <= k < n - 1 && s[k] == rest[i];
                assert(0 <= k < n && s[k] == escaping_among(s, lists, n)[i]);
            } else {
                assert(s[n - 1] == escaping_among(s, lists, n)[i]);
            }
        }
    }
}

/// A record that nothing catches escapes: each of the first `n` records
/// whose exception no list of `lists` catches is among what escapes.
pub proof fn lemma_escaping_keeps(
    s: Seq<RaiseView>,
    lists: Seq<Seq<ExceptionView>>,
    n: nat,
    k: int,
)
    requires
        0 <= k < n <= s.len(),
        !captured(lists, s[k].exception()),
    ensures
        escaping_among(s, lists, n).contains(s[k]),
    decreases n,
{
    let rest = escaping_among(s, lists, (n - 1) as nat);
    if k == n - 1 {
        assert(escaping_among(s, lists, n)[rest.len() as int] == s[k]);
    } else {
        lemma_escaping_keeps(s, lists, (n - 1) as nat, k);
        let i = choose|i: int| 0 <= i < rest.len() && rest[i] == s[k];
        assert(escaping_among(s, lists, n)[i] == s[k]);
    }
}

/// A handler that names a class catches the subclasses of that class, and
/// nothing else gets caught by it: of what the body of a `try` block
/// raises, a record about a subclass of a class that the handlers catch
/// does not get past them, and a record about a class that neither the
/// handlers nor the enclosing `try` blocks catch does.
pub proof fn lemma_handlers_catch_subclasses(
    c: Context,
    body: Seq<RaiseView>,
    caught: Seq<ExceptionView>,
    k: int,
)
    requires
        0 <= k < body.len(),
    ensures
        list_captures(caught, body[k].exception()) ==> !guarded(c, body, caught).contains(body[k]),
        !list_captures(caught, body[k].exception()) && !captured(
            c.capture.try_captures,
            body[k].exception(),
        ) ==> guarded(c, body, caught).contains(body[k]),
{
    let lists = c.capture.try_captures.push(caught);
    let e = body[k].exception();
    lemma_guarded_uncaught(c, body, caught);
    if !list_captures(caught, e) && !captured(c.capture.try_captures, e) {
        if captured(lists, e) {
            let i = choose|i: int| 0 <= i < lists.len() && list_captures(#[trigger] lists[i], e);
            if i < c.capture.try_captures.len() {
                assert(lists[i] == c.capture.try_captures[i]);
            }
        }
        lemma_escaping_keeps(body, lists, body.len(), k);
    }
}

/// No record survives a `try` block whose exception one of its handlers
/// catches, or an enclosing `try` block: of what the body raises, every
/// record that is kept is about an exception that neither `caught` nor the
/// stack of `c` captures.
pub proof fn lemma_guarded_uncaught(c: Context, body: Seq<RaiseView>, caught: Seq<ExceptionView>)
    ensures
        forall|i: int|
            0 <= i < guarded(c, body, caught).len() ==> {
                let e = (#[trigger] guarded(c, body, caught)[i]).exception();
                !list_captures(caught, e) && !captured(c.capture.try_captures, e)
            },
{
    let lists = c.capture.try_captures.push(caught);
    lemma_escaping_uncaught(body, lists, body.len());
    assert forall|i: int| 0 <= i < guarded(c, body, caught).len() implies {
        let e = (#[trigger] guarded(c, body, caught)[i]).exception();
        !list_captures(caught, e) && !captured(c.capture.try_captures, e)
    } by {
        let e = guarded(c, body, caught)[i].exception();
        assert(!captured(lists, e));
        if list_captures(caught, e) {
            assert(lists[lists.len() - 1] == caught);
        }
        if captured(c.capture.try_captures, e) {
            let k = choose|k: int|
                0 <= k < c.capture.try_captures.len() && list_captures(
                    #[trigger] c.capture.try_captures[k],
                    e,
                );
            assert(lists[k] == c.capture.try_captures[k]);
        }
    }
}

/// The exceptions of the first `n` records of `s`, one for each name: the
/// first that bears it.
pub open spec fn raised_by(s: Seq<RaiseView>, n: nat) -> Seq<ExceptionView>
    decreases n,
{
    if n == 0 || n > s.len() {
        Seq::empty()
    } else {
        let rest = raised_by(s, (n - 1) as nat);
        let e = s[n - 1].exception();
        if exists|i: int| 0 <= i < rest.len() && (#[trigger] rest[i]).name == e.name {
            rest
        } else {
            rest.push(e)
        }
    }
}

/// What a `raise` at `range` re-raises of the first `n` classes of `list`:
/// a direct record for each that is of interest, the root of the hierarchy
/// left out where `skip_root` says so.
pub open spec fn reraised(
    file: FileId,
    targets: Seq<ExceptionView>,
    list: Seq<ExceptionView>,
    n: nat,
    range: TextRange,
    skip_root: bool,
) -> Seq<RaiseView>
    decreases n,
{
    if n == 0 || n > list.len() {
        Seq::empty()
    } else {
        let rest = reraised(file, targets, list, (n - 1) as nat, range, skip_root);
        let e = list[n - 1];
        if (skip_root && e == root()) || !passes(targets, e) {
            rest
        } else {
            rest.push(direct(file, e, range))
        }
    }
}

/// What a bare `raise` at `range` raises. Outside a handler, nothing. In a
/// handler that catches the root of the hierarchy, whatever the body of the
/// `try` block raises; this holds whatever else the handler lists. In any
/// other handler, each class it has caught.
pub open spec fn bare_raise(c: Context, range: TextRange) -> Seq<RaiseView> {
    if c.capture.handler_captures.len() == 0 {
        Seq::empty()
    } else {
        let caught = c.capture.handler_captures.last();
        if caught.contains(root()) {
            if c.tries.len() == 0 {
                Seq::empty()
            } else {
                reraised(c.file, c.targets, c.tries.last(), c.tries.last().len(), range, false)
            }
        } else {
            reraised(c.file, c.targets, caught, caught.len(), range, false)
        }
    }
}

/// What the `raise` statement itself raises, apart from what evaluating its
/// operands raises. `raise C(…)` raises the class that `C` names, if it is
/// of interest and no enclosing `try` block catches it. `raise name` in a
/// handler re-raises what the handler has caught, which may be any of its
/// classes but the root.
pub open spec fn raised_at(p: &Project, c: Context, raise: StmtRaise) -> Seq<RaiseView> {
    match raise.exc {
        None => bare_raise(c, raise.range),
        Some(Expr::Call(call)) => match exception_named(p, *call.func) {
            Some(e) => if passes(c.targets, e) && !captured(c.capture.try_captures, e) {
                seq![direct(c.file, e, raise.range)]
            } else {
                Seq::empty()
            },
            None => Seq::empty(),
        },
        Some(Expr::Name(_)) => if c.capture.handler_captures.len() > 0 {
            let caught = c.capture.handler_captures.last();
            reraised(c.file, c.targets, caught, caught.len(), raise.range, true)
        } else {
            Seq::empty()
        },
        Some(_) => Seq::empty(),
    }
}

/// What the first `n` handlers of a `try` block catch between them.
pub open spec fn caught_all(p: &Project, handlers: Seq<ExceptHandler>, n: nat) -> Seq<
    ExceptionView,
>
    decreases n,
{
    if n == 0 || n > handlers.len() {
        Seq::empty()
    } else {
        caught_all(p, handlers, (n - 1) as nat) + caught_by(p, handlers[n - 1])
    }
}

/// The definitions that a call of `func` may reach: those of a name or of an
/// attribute.
pub open spec fn callees(func: Expr) -> Seq<usize> {
    match func {
        Expr::Name(name) => name.definitions@,
        Expr::Attribute(attr) => attr.definitions@,
        _ => Seq::empty(),
    }
}

/// Whether the record `r` is as every record of an analysis is: its chain is
/// well-formed and no deeper than `bound`, and its exception is of
/// interest.
pub open spec fn sound(targets: Seq<ExceptionView>, bound: nat, r: RaiseView) -> bool {
    &&& r.chain_ok()
    &&& r.depth() <= bound
    &&& passes(targets, r.exception())
}

/// Whether every record of `s` is [`sound`].
pub open spec fn all_sound(targets: Seq<ExceptionView>, bound: nat, s: Seq<RaiseView>) -> bool {
    forall|i: int| 0 <= i < s.len() ==> sound(targets, bound, #[trigger] s[i])
}

/// How many calls deeper than `stack` a chain can be and still be counted.
pub open spec fn room(stack: Seq<Frame>) -> nat {
    (usize::MAX - stack.len()) as nat
}

/// Each record of `s` lifted through the call at `range` in `file`.
pub open spec fn lifted_all(s: Seq<RaiseView>, file: FileId, range: TextRange) -> Seq<RaiseView> {
    Seq::new(s.len(), |i: int| s[i].lifted(file, range))
}

/// Stands in a termination measure where a function has no syntax node to
/// descend into.
pub open spec fn no_node() -> Option<Expr> {
    None
}

/// What the statement `stmt` contributes.
pub open spec fn stmt_raises(p: &Project, c: Context, stmt: Stmt) -> Seq<RaiseView>
    decreases p.unvisited(c.stack), 4nat, stmt, 0nat,
{
    match stmt {
        Stmt::Raise(raise) => raised_at(p, c, raise) + option_raises(p, c, raise.exc)
            + option_raises(p, c, raise.cause),
        Stmt::Try(t) => try_raises(p, c, t),
        Stmt::FunctionDef(def) => exprs_raises(p, c, def.decorators@, def.decorators@.len())
            + exprs_raises(p, c, def.header@, def.header@.len()) + body_raises(
            p,
            c,
            def.body@,
            def.body@.len(),
        ),
        Stmt::ClassDef(cls) => exprs_raises(p, c, cls.decorators@, cls.decorators@.len())
            + exprs_raises(p, c, cls.type_params@, cls.type_params@.len()) + exprs_raises(
            p,
            c,
            cls.bases@,
            cls.bases@.len(),
        ) + exprs_raises(p, c, cls.keywords@, cls.keywords@.len()) + body_raises(
            p,
            c,
            cls.body@,
            cls.body@.len(),
        ),
        Stmt::Expr(e) => expr_raises(p, c, e.value),
        Stmt::Other(o) => children_raises(p, c, o.children@, o.children@.len()),
    }
}

/// What a `try` statement contributes: of what its body raises, the records
/// that its handlers do not catch; then what the handlers raise, each
/// analysed as having caught its own classes; then the `else` and the
/// `finally` block.
pub open spec fn try_raises(p: &Project, c: Context, t: StmtTry) -> Seq<RaiseView>
    decreases p.unvisited(c.stack), 4nat, t, 0nat,
{
    let body = body_raises(p, c, t.body@, t.body@.len());
    let caught = caught_all(p, t.handlers@, t.handlers@.len());
    guarded(c, body, caught) + handlers_raises(
        p,
        c.after_try(raised_by(body, body.len())),
        t.handlers@,
        t.handlers@.len(),
    ) + body_raises(p, c, t.orelse@, t.orelse@.len()) + body_raises(
        p,
        c,
        t.finalbody@,
        t.finalbody@.len(),
    )
}

/// What the first `n` statements of `body` contribute.
pub open spec fn body_raises(p: &Project, c: Context, body: Seq<Stmt>, n: nat) -> Seq<RaiseView>
    decreases p.unvisited(c.stack), 4nat, body, n,
{
    if n == 0 || n > body.len() {
        Seq::empty()
    } else {
        body_raises(p, c, body, (n - 1) as nat) + stmt_raises(p, c, body[n - 1])
    }
}

/// What the bodies of the first `n` handlers contribute.
pub open spec fn handlers_raises(
    p: &Project,
    c: Context,
    handlers: Seq<ExceptHandler>,
    n: nat,
) -> Seq<RaiseView>
    decreases p.unvisited(c.stack), 4nat, handlers, n,
{
    if n == 0 || n > handlers.len() {
        Seq::empty()
    } else {
        let h = handlers[n - 1];
        handlers_raises(p, c, handlers, (n - 1) as nat) + body_raises(
            p,
            c.in_handler(caught_by(p, h)),
            h.body@,
            h.body@.len(),
        )
    }
}

/// What the first `n` parts of a statement contribute.
pub open spec fn children_raises(p: &Project, c: Context, children: Seq<Child>, n: nat) -> Seq<
    RaiseView,
>
    decreases p.unvisited(c.stack), 4nat, children, n,
{
    if n == 0 || n > children.len() {
        Seq::empty()
    } else {
        children_raises(p, c, children, (n - 1) as nat) + (match children[n - 1] {
            Child::Expr(e) => expr_raises(p, c, e),
            Child::Stmt(s) => stmt_raises(p, c, s),
        })
    }
}

/// What an operand that may be missing contributes.
pub open spec fn option_raises(p: &Project, c: Context, e: Option<Expr>) -> Seq<RaiseView>
    decreases p.unvisited(c.stack), 3nat, e, 0nat,
{
    match e {
        Some(e) => expr_raises(p, c, e),
        None => Seq::empty(),
    }
}

/// What the expression `expr` contributes: for a call, what escapes from
/// each definition it may reach, then what its operands contribute.
pub open spec fn expr_raises(p: &Project, c: Context, expr: Expr) -> Seq<RaiseView>
    decreases p.unvisited(c.stack), 3nat, expr, 0nat,
{
    match expr {
        Expr::Call(call) => calls_raises(
            p,
            c.file,
            c.targets,
            c.stack,
            c.capture,
            callees(*call.func),
            callees(*call.func).len(),
            call.range,
        ) + expr_raises(p, c, *call.func) + exprs_raises(
            p,
            c,
            call.arguments@,
            call.arguments@.len(),
        ),
        Expr::Attribute(attr) => expr_raises(p, c, *attr.value),
        Expr::Tuple(tuple) => exprs_raises(p, c, tuple.elts@, tuple.elts@.len()),
        Expr::Other(o) => exprs_raises(p, c, o.children@, o.children@.len()),
        Expr::Name(_) => Seq::empty(),
        Expr::StringLiteral(_) => Seq::empty(),
    }
}

/// What the first `n` expressions of `exprs` contribute.
pub open spec fn exprs_raises(p: &Project, c: Context, exprs: Seq<Expr>, n: nat) -> Seq<RaiseView>
    decreases p.unvisited(c.stack), 3nat, exprs, n,
{
    if n == 0 || n > exprs.len() {
        Seq::empty()
    } else {
        exprs_raises(p, c, exprs, (n - 1) as nat) + expr_raises(p, c, exprs[n - 1])
    }
}

/// What escapes through a call at `range` from the first `n` of the
/// definitions at the positions `defs`.
pub open spec fn calls_raises(
    p: &Project,
    file: FileId,
    targets: Seq<ExceptionView>,
    stack: Seq<Frame>,
    capture: CaptureView,
    defs: Seq<usize>,
    n: nat,
    range: TextRange,
) -> Seq<RaiseView>
    decreases p.unvisited(stack), 2nat, no_node(), n,
{
    if n == 0 || n > defs.len() {
        Seq::empty()
    } else {
        calls_raises(p, file, targets, stack, capture, defs, (n - 1) as nat, range)
            + callee_raises(p, file, targets, stack, capture, defs[n - 1] as int, range)
    }
}

/// Whether a call is followed into the definition at position `d`: the
/// definition is in an included file of the project, and its frame, if it
/// has one, is not on the stack.
pub open spec fn follows(p: &Project, stack: Seq<Frame>, d: int) -> bool {
    &&& 0 <= d < p.definitions@.len()
    &&& p.definitions@[d].file.index < p.modules@.len()
    &&& p.modules@[p.definitions@[d].file.index as int].included
    &&& p.frame_of(d) matches Some(f) ==> !stack.contains(f)
}

/// The stack under which the definition at position `d` is extracted: with
/// its frame on top, if it has one.
pub open spec fn entered(p: &Project, stack: Seq<Frame>, d: int) -> Seq<Frame> {
    match p.frame_of(d) {
        Some(f) => stack.push(f),
        None => stack,
    }
}

/// Whether the bodies behind the definition at position `d` are analysed
/// only where they are fresh, that is, where their own frame is not on the
/// stack: so it is for a definition without a frame, whose bodies nothing
/// else keeps from being analysed over and over.
pub open spec fn only_fresh(p: &Project, d: int) -> bool {
    p.frame_of(d) is None
}

/// What escapes through a call at `range` from the definition at position
/// `d`: where the call is followed, the records extracted with the frame of
/// the definition on the stack, but for those that an enclosing `try` block
/// catches.
pub open spec fn callee_raises(
    p: &Project,
    file: FileId,
    targets: Seq<ExceptionView>,
    stack: Seq<Frame>,
    capture: CaptureView,
    d: int,
    range: TextRange,
) -> Seq<RaiseView>
    decreases p.unvisited(stack), 2nat, no_node(), 0nat,
{
    if follows(p, stack, d) {
        proof {
            if p.frame_of(d) is Some {
                p.lemma_definition_decreases(stack, d);
            }
        }
        escaping(
            extracted(p, file, range, d, targets, entered(p, stack, d), capture),
            capture.try_captures,
        )
    } else {
        Seq::empty()
    }
}

/// The function bodies of `file` that stand under `range`: the definitions
/// of every unit of the module that is found under it.
pub open spec fn bodies_of(p: &Project, file: FileId, range: TextRange) -> Seq<StmtFunctionDef> {
    if file.index < p.modules@.len() {
        let units = collect_module(p.modules@[file.index as int].body@).functions;
        found_functions(units, range, units.len())
    } else {
        Seq::empty()
    }
}

/// What a call at `range` in `caller_file` of the definition at position `d`
/// lets escape: the reported records of every function body that the
/// definition stands for, each lifted through the call. The bodies are
/// those that stand under the range of the definition that `d` is an alias
/// of, in its file.
pub open spec fn extracted(
    p: &Project,
    caller_file: FileId,
    range: TextRange,
    d: int,
    targets: Seq<ExceptionView>,
    stack: Seq<Frame>,
    capture: CaptureView,
) -> Seq<RaiseView>
    decreases p.unvisited(stack), if only_fresh(p, d) {
        1nat
    } else {
        7nat
    }, no_node(), 0nat,
{
    match resolved_alias(p, d, p.definitions@.len()) {
        Some(r) => {
            let def = p.definitions@[r];
            lifted_all(
                bodies_raises(
                    p,
                    def.file,
                    def.range,
                    targets,
                    stack,
                    capture,
                    only_fresh(p, d),
                    bodies_of(p, def.file, def.range).len(),
                ),
                caller_file,
                range,
            )
        },
        None => Seq::empty(),
    }
}

/// The frame under which the function `func` of `file` goes on the stack.
pub open spec fn body_frame(p: &Project, file: FileId, func: StmtFunctionDef) -> Frame {
    function_frame(p.modules@[file.index as int].path@, func)
}

/// The reported records of the first `n` of the function bodies of `file`
/// that stand under `range`, each analysed with its own frame on the stack.
/// Where only fresh bodies count, a body whose frame is on the stack
/// already is left out.
pub open spec fn bodies_raises(
    p: &Project,
    file: FileId,
    range: TextRange,
    targets: Seq<ExceptionView>,
    stack: Seq<Frame>,
    capture: CaptureView,
    fresh: bool,
    n: nat,
) -> Seq<RaiseView>
    decreases p.unvisited(stack), if fresh {
        0nat
    } else {
        6nat
    }, no_node(), n,
{
    let bodies = bodies_of(p, file, range);
    if n == 0 || n > bodies.len() {
        Seq::empty()
    } else {
        let func = bodies[n - 1];
        let rest = bodies_raises(p, file, range, targets, stack, capture, fresh, (n - 1) as nat);
        if fresh && stack.contains(body_frame(p, file, func)) {
            rest
        } else {
            proof {
                if fresh {
                    let units = collect_module(p.modules@[file.index as int].body@).functions;
                    lemma_found_are_listed(units, range, units.len());
                    p.lemma_body_decreases(stack, file, func);
                } else {
                    p.lemma_frame_keeps(stack, body_frame(p, file, func));
                }
            }
            rest + function_raises(
                p,
                file,
                func,
                targets,
                stack.push(body_frame(p, file, func)),
                capture,
            )
        }
    }
}

/// What is reported for the function `func` of `file`: what its body
/// contributes, put in order, one record for each exception name.
pub open spec fn function_raises(
    p: &Project,
    file: FileId,
    func: StmtFunctionDef,
    targets: Seq<ExceptionView>,
    stack: Seq<Frame>,
    capture: CaptureView,
) -> Seq<RaiseView>
    decreases p.unvisited(stack), 5nat, no_node(), 0nat,
{
    report(
        body_raises(
            p,
            Context { file, targets, stack, capture, tries: Seq::empty() },
            func.body@,
            func.body@.len(),
        ),
    )
}

/// No record escapes through a call whose exception a `try` block around
/// the call catches.
pub proof fn lemma_callee_uncaught(
    p: &Project,
    file: FileId,
    targets: Seq<ExceptionView>,
    stack: Seq<Frame>,
    capture: CaptureView,
    d: int,
    range: TextRange,
)
    ensures
        forall|i: int|
            0 <= i < callee_raises(p, file, targets, stack, capture, d, range).len() ==> !captured(
                capture.try_captures,
                (#[trigger] callee_raises(p, file, targets, stack, capture, d, range)[i]).exception(),
            ),
{
    if follows(p, stack, d) {
        let found = extracted(p, file, range, d, targets, entered(p, stack, d), capture);
        lemma_escaping_uncaught(found, capture.try_captures, found.len());
    }
}

/// What escapes through a call is reported at the call: every record is a
/// transitive one whose own site is the call at `range` in `file`, not the
/// site in the callee that it points to.
pub proof fn lemma_call_reports_at_call_site(
    p: &Project,
    file: FileId,
    targets: Seq<ExceptionView>,
    stack: Seq<Frame>,
    capture: CaptureView,
    d: int,
    range: TextRange,
)
    ensures
        forall|i: int|
            0 <= i < callee_raises(p, file, targets, stack, capture, d, range).len() ==> {
                let r = #[trigger] callee_raises(p, file, targets, stack, capture, d, range)[i];
                r is Transitive && r.file() == file && r.range() == range
            },
{
    if follows(p, stack, d) {
        let found = extracted(p, file, range, d, targets, entered(p, stack, d), capture);
        lemma_escaping_from(found, capture.try_captures, found.len());
        assert forall|i: int|
            0 <= i < callee_raises(p, file, targets, stack, capture, d, range).len() implies {
            let r = #[trigger] callee_raises(p, file, targets, stack, capture, d, range)[i];
            r is Transitive && r.file() == file && r.range() == range
        } by {
            let r = callee_raises(p, file, targets, stack, capture, d, range)[i];
            let k = choose|k: int| 0 <= k < found.len() && found[k] == r;
            assert(found[k] is Transitive && found[k].file() == file && found[k].range() == range);
        }
    }
}

/// Behind a definition without a frame of its own, a function whose frame
/// is on the stack is not analysed again: it adds nothing to what the
/// bodies before it report.
pub proof fn lemma_stale_body_is_left_out(
    p: &Project,
    file: FileId,
    range: TextRange,
    targets: Seq<ExceptionView>,
    stack: Seq<Frame>,
    capture: CaptureView,
    n: nat,
)
    requires
        0 < n <= bodies_of(p, file, range).len(),
        stack.contains(body_frame(p, file, bodies_of(p, file, range)[n - 1])),
    ensures
        bodies_raises(p, file, range, targets, stack, capture, true, n) == bodies_raises(
            p,
            file,
            range,
            targets,
            stack,
            capture,
            true,
            (n - 1) as nat,
        ),
{
}

/// A call is not followed into a definition whose frame is on the stack:
/// nothing escapes through it.
pub proof fn lemma_recursion_is_cut(
    p: &Project,
    file: FileId,
    targets: Seq<ExceptionView>,
    stack: Seq<Frame>,
    capture: CaptureView,
    d: int,
    range: TextRange,
)
    requires
        p.frame_of(d) is Some,
        stack.contains(p.frame_of(d).unwrap()),
    ensures
        callee_raises(p, file, targets, stack, capture, d, range) == Seq::<RaiseView>::empty(),
{
}

} // verus!
