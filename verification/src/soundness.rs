//! What holds of every record that the analysis reports.

use vstd::prelude::*;
use crate::ast::{Child, ExceptHandler, Expr, Stmt, StmtFunctionDef, StmtRaise, StmtTry};
use crate::call_stack::Frame;
use crate::capture_stack::CaptureView;
use crate::exception::ExceptionView;
use crate::extract::{caught_by, resolved_alias};
use crate::module::{collect_module, lemma_found_are_listed};
use crate::project::Project;
use crate::raise::RaiseView;
use crate::report::{lemma_report_contains, lemma_report_names_ascend, names_ascend, report};
use crate::semantics::{
    all_sound, bodies_of, bodies_raises, body_frame, body_raises, callee_raises, callees,
    calls_raises, caught_all, children_raises, entered, expr_raises, exprs_raises, extracted,
    follows, function_raises, guarded, handlers_raises, lifted_all, no_node, only_fresh,
    option_raises, raised_at, raised_by, sound, stmt_raises, try_raises, Context,
};
use crate::text::{FileId, TextRange};
use crate::visitor::{lemma_all_sound_concat, lemma_escaping_sound, lemma_reraised_sound};

verus! {

/// Records that are sound within a bound are sound within a larger one.
pub proof fn lemma_all_sound_within(
    targets: Seq<ExceptionView>,
    bound: nat,
    larger: nat,
    s: Seq<RaiseView>,
)
    requires
        all_sound(targets, bound, s),
        bound <= larger,
    ensures
        all_sound(targets, larger, s),
{
    assert forall|i: int| 0 <= i < s.len() implies sound(targets, larger, #[trigger] s[i]) by {
        assert(sound(targets, bound, s[i]));
    }
}

/// What a `raise` statement itself raises is sound.
pub proof fn lemma_raised_at_sound(p: &Project, c: Context, raise: StmtRaise, bound: nat)
    ensures
        all_sound(c.targets, bound, raised_at(p, c, raise)),
{
    if c.capture.handler_captures.len() > 0 {
        let caught = c.capture.handler_captures.last();
        lemma_reraised_sound(c.file, c.targets, bound, caught, caught.len(), raise.range, true);
        lemma_reraised_sound(c.file, c.targets, bound, caught, caught.len(), raise.range, false);
        if c.tries.len() > 0 {
            lemma_reraised_sound(
                c.file,
                c.targets,
                bound,
                c.tries.last(),
                c.tries.last().len(),
                raise.range,
                false,
            );
        }
    }
}

/// What a statement contributes is sound.
pub proof fn lemma_stmt_sound(p: &Project, c: Context, stmt: Stmt)
    ensures
        all_sound(c.targets, p.unvisited(c.stack), stmt_raises(p, c, stmt)),
    decreases p.unvisited(c.stack), 4nat, stmt, 0nat,
{
    let t = c.targets;
    let b = p.unvisited(c.stack);
    match stmt {
        Stmt::Raise(raise) => {
            lemma_raised_at_sound(p, c, raise, b);
            lemma_option_sound(p, c, raise.exc);
            lemma_option_sound(p, c, raise.cause);
            lemma_all_sound_concat(t, b, raised_at(p, c, raise), option_raises(p, c, raise.exc));
            lemma_all_sound_concat(
                t,
                b,
                raised_at(p, c, raise) + option_raises(p, c, raise.exc),
                option_raises(p, c, raise.cause),
            );
        },
        Stmt::Try(t_) => {
            lemma_try_sound(p, c, t_);
        },
        Stmt::FunctionDef(def) => {
            let a1 = exprs_raises(p, c, def.decorators@, def.decorators@.len());
            let a2 = exprs_raises(p, c, def.header@, def.header@.len());
            let a3 = body_raises(p, c, def.body@, def.body@.len());
            lemma_exprs_sound(p, c, def.decorators@, def.decorators@.len());
            lemma_exprs_sound(p, c, def.header@, def.header@.len());
            lemma_body_sound(p, c, def.body@, def.body@.len());
            lemma_all_sound_concat(t, b, a1, a2);
            lemma_all_sound_concat(t, b, a1 + a2, a3);
        },
        Stmt::ClassDef(cls) => {
            let a1 = exprs_raises(p, c, cls.decorators@, cls.decorators@.len());
            let a2 = exprs_raises(p, c, cls.type_params@, cls.type_params@.len());
            let a3 = exprs_raises(p, c, cls.bases@, cls.bases@.len());
            let a4 = exprs_raises(p, c, cls.keywords@, cls.keywords@.len());
            let a5 = body_raises(p, c, cls.body@, cls.body@.len());
            lemma_exprs_sound(p, c, cls.decorators@, cls.decorators@.len());
            lemma_exprs_sound(p, c, cls.type_params@, cls.type_params@.len());
            lemma_exprs_sound(p, c, cls.bases@, cls.bases@.len());
            lemma_exprs_sound(p, c, cls.keywords@, cls.keywords@.len());
            lemma_body_sound(p, c, cls.body@, cls.body@.len());
            lemma_all_sound_concat(t, b, a1, a2);
            lemma_all_sound_concat(t, b, a1 + a2, a3);
            lemma_all_sound_concat(t, b, a1 + a2 + a3, a4);
            lemma_all_sound_concat(t, b, a1 + a2 + a3 + a4, a5);
        },
        Stmt::Expr(e) => {
            lemma_expr_sound(p, c, e.value);
        },
        Stmt::Other(o) => {
            lemma_children_sound(p, c, o.children@, o.children@.len());
        },
    }
}

/// What a `try` statement contributes is sound.
pub proof fn lemma_try_sound(p: &Project, c: Context, t: StmtTry)
    ensures
        all_sound(c.targets, p.unvisited(c.stack), try_raises(p, c, t)),
    decreases p.unvisited(c.stack), 4nat, t, 0nat,
{
    let ts = c.targets;
    let b = p.unvisited(c.stack);
    let body = body_raises(p, c, t.body@, t.body@.len());
    let caught = caught_all(p, t.handlers@, t.handlers@.len());
    let inner = c.after_try(raised_by(body, body.len()));
    let a1 = guarded(c, body, caught);
    let a2 = handlers_raises(p, inner, t.handlers@, t.handlers@.len());
    let a3 = body_raises(p, c, t.orelse@, t.orelse@.len());
    let a4 = body_raises(p, c, t.finalbody@, t.finalbody@.len());
    lemma_body_sound(p, c, t.body@, t.body@.len());
    lemma_escaping_sound(ts, b, body, c.capture.try_captures.push(caught), body.len());
    lemma_handlers_sound(p, inner, t.handlers@, t.handlers@.len());
    lemma_body_sound(p, c, t.orelse@, t.orelse@.len());
    lemma_body_sound(p, c, t.finalbody@, t.finalbody@.len());
    lemma_all_sound_concat(ts, b, a1, a2);
    lemma_all_sound_concat(ts, b, a1 + a2, a3);
    lemma_all_sound_concat(ts, b, a1 + a2 + a3, a4);
}

/// What the first `n` statements of a body contribute is sound.
pub proof fn lemma_body_sound(p: &Project, c: Context, body: Seq<Stmt>, n: nat)
    ensures
        all_sound(c.targets, p.unvisited(c.stack), body_raises(p, c, body, n)),
    decreases p.unvisited(c.stack), 4nat, body, n,
{
    if n > 0 && n <= body.len() {
        lemma_body_sound(p, c, body, (n - 1) as nat);
        lemma_stmt_sound(p, c, body[n - 1]);
        lemma_all_sound_concat(
            c.targets,
            p.unvisited(c.stack),
            body_raises(p, c, body, (n - 1) as nat),
            stmt_raises(p, c, body[n - 1]),
        );
    }
}

/// What the bodies of the first `n` handlers contribute is sound.
pub proof fn lemma_handlers_sound(p: &Project, c: Context, handlers: Seq<ExceptHandler>, n: nat)
    ensures
        all_sound(c.targets, p.unvisited(c.stack), handlers_raises(p, c, handlers, n)),
    decreases p.unvisited(c.stack), 4nat, handlers, n,
{
    if n > 0 && n <= handlers.len() {
        let h = handlers[n - 1];
        let inside = c.in_handler(caught_by(p, h));
        lemma_handlers_sound(p, c, handlers, (n - 1) as nat);
        lemma_body_sound(p, inside, h.body@, h.body@.len());
        lemma_all_sound_concat(
            c.targets,
            p.unvisited(c.stack),
            handlers_raises(p, c, handlers, (n - 1) as nat),
            body_raises(p, inside, h.body@, h.body@.len()),
        );
    }
}

/// What the first `n` parts of a statement contribute is sound.
pub proof fn lemma_children_sound(p: &Project, c: Context, children: Seq<Child>, n: nat)
    ensures
        all_sound(c.targets, p.unvisited(c.stack), children_raises(p, c, children, n)),
    decreases p.unvisited(c.stack), 4nat, children, n,
{
    if n > 0 && n <= children.len() {
        lemma_children_sound(p, c, children, (n - 1) as nat);
        let before = children_raises(p, c, children, (n - 1) as nat);
        match children[n - 1] {
            Child::Expr(e) => {
                lemma_expr_sound(p, c, e);
                lemma_all_sound_concat(c.targets, p.unvisited(c.stack), before, expr_raises(p, c, e));
            },
            Child::Stmt(s) => {
                lemma_stmt_sound(p, c, s);
                lemma_all_sound_concat(c.targets, p.unvisited(c.stack), before, stmt_raises(p, c, s));
            },
        }
    }
}

/// What an operand that may be missing contributes is sound.
pub proof fn lemma_option_sound(p: &Project, c: Context, e: Option<Expr>)
    ensures
        all_sound(c.targets, p.unvisited(c.stack), option_raises(p, c, e)),
    decreases p.unvisited(c.stack), 3nat, e, 0nat,
{
    match e {
        Some(e) => {
            lemma_expr_sound(p, c, e);
        },
        None => {},
    }
}

/// What an expression contributes is sound.
pub proof fn lemma_expr_sound(p: &Project, c: Context, expr: Expr)
    ensures
        all_sound(c.targets, p.unvisited(c.stack), expr_raises(p, c, expr)),
    decreases p.unvisited(c.stack), 3nat, expr, 0nat,
{
    let t = c.targets;
    let b = p.unvisited(c.stack);
    match expr {
        Expr::Call(call) => {
            let defs = callees(*call.func);
            let a1 = calls_raises(p, c.file, t, c.stack, c.capture, defs, defs.len(), call.range);
            let a2 = expr_raises(p, c, *call.func);
            let a3 = exprs_raises(p, c, call.arguments@, call.arguments@.len());
            lemma_calls_sound(p, c.file, t, c.stack, c.capture, defs, defs.len(), call.range);
            lemma_expr_sound(p, c, *call.func);
            lemma_exprs_sound(p, c, call.arguments@, call.arguments@.len());
            lemma_all_sound_concat(t, b, a1, a2);
            lemma_all_sound_concat(t, b, a1 + a2, a3);
        },
        Expr::Attribute(attr) => {
            lemma_expr_sound(p, c, *attr.value);
        },
        Expr::Tuple(tuple) => {
            lemma_exprs_sound(p, c, tuple.elts@, tuple.elts@.len());
        },
        Expr::Other(o) => {
            lemma_exprs_sound(p, c, o.children@, o.children@.len());
        },
        Expr::Name(_) => {},
        Expr::StringLiteral(_) => {},
    }
}

/// What the first `n` expressions contribute is sound.
pub proof fn lemma_exprs_sound(p: &Project, c: Context, exprs: Seq<Expr>, n: nat)
    ensures
        all_sound(c.targets, p.unvisited(c.stack), exprs_raises(p, c, exprs, n)),
    decreases p.unvisited(c.stack), 3nat, exprs, n,
{
    if n > 0 && n <= exprs.len() {
        lemma_exprs_sound(p, c, exprs, (n - 1) as nat);
        lemma_expr_sound(p, c, exprs[n - 1]);
        lemma_all_sound_concat(
            c.targets,
            p.unvisited(c.stack),
            exprs_raises(p, c, exprs, (n - 1) as nat),
            expr_raises(p, c, exprs[n - 1]),
        );
    }
}

/// What escapes through a call from the first `n` definitions is sound.
pub proof fn lemma_calls_sound(
    p: &Project,
    file: FileId,
    targets: Seq<ExceptionView>,
    stack: Seq<Frame>,
    capture: CaptureView,
    defs: Seq<usize>,
    n: nat,
    range: TextRange,
)
    ensures
        all_sound(
            targets,
            p.unvisited(stack),
            calls_raises(p, file, targets, stack, capture, defs, n, range),
        ),
    decreases p.unvisited(stack), 2nat, no_node(), n,
{
    if n > 0 && n <= defs.len() {
        lemma_calls_sound(p, file, targets, stack, capture, defs, (n - 1) as nat, range);
        lemma_callee_sound(p, file, targets, stack, capture, defs[n - 1] as int, range);
        lemma_all_sound_concat(
            targets,
            p.unvisited(stack),
            calls_raises(p, file, targets, stack, capture, defs, (n - 1) as nat, range),
            callee_raises(p, file, targets, stack, capture, defs[n - 1] as int, range),
        );
    }
}

/// What escapes through a call from one definition is sound.
pub proof fn lemma_callee_sound(
    p: &Project,
    file: FileId,
    targets: Seq<ExceptionView>,
    stack: Seq<Frame>,
    capture: CaptureView,
    d: int,
    range: TextRange,
)
    ensures
        all_sound(
            targets,
            p.unvisited(stack),
            callee_raises(p, file, targets, stack, capture, d, range),
        ),
    decreases p.unvisited(stack), 2nat, no_node(), 0nat,
{
    if follows(p, stack, d) {
        let deeper = entered(p, stack, d);
        if p.frame_of(d) is Some {
            p.lemma_definition_decreases(stack, d);
        }
        lemma_extracted_sound(p, file, range, d, targets, deeper, capture);
        let found = extracted(p, file, range, d, targets, deeper, capture);
        lemma_all_sound_within(targets, extracted_depth(p, deeper, d), p.unvisited(stack), found);
        lemma_escaping_sound(targets, p.unvisited(stack), found, capture.try_captures, found.len());
    }
}

/// How deep the chains of what is extracted under `stack` from the
/// definition at position `d` may be: one call deeper than what the bodies
/// report, which for fresh bodies is less than is left to visit.
pub open spec fn extracted_depth(p: &Project, stack: Seq<Frame>, d: int) -> nat {
    if only_fresh(p, d) {
        p.unvisited(stack)
    } else {
        p.unvisited(stack) + 1
    }
}

/// What a call lets escape is sound, one call deeper than what the bodies
/// report.
pub proof fn lemma_extracted_sound(
    p: &Project,
    caller_file: FileId,
    range: TextRange,
    d: int,
    targets: Seq<ExceptionView>,
    stack: Seq<Frame>,
    capture: CaptureView,
)
    ensures
        all_sound(
            targets,
            extracted_depth(p, stack, d),
            extracted(p, caller_file, range, d, targets, stack, capture),
        ),
    decreases p.unvisited(stack), if only_fresh(p, d) {
        1nat
    } else {
        7nat
    }, no_node(), 0nat,
{
    match resolved_alias(p, d, p.definitions@.len()) {
        Some(r) => {
            let def = p.definitions@[r];
            let fresh = only_fresh(p, d);
            let n = bodies_of(p, def.file, def.range).len();
            let reported = bodies_raises(p, def.file, def.range, targets, stack, capture, fresh, n);
            lemma_bodies_sound(p, def.file, def.range, targets, stack, capture, fresh, n);
            assert forall|i: int| 0 <= i < lifted_all(reported, caller_file, range).len() implies sound(
                targets,
                extracted_depth(p, stack, d),
                #[trigger] lifted_all(reported, caller_file, range)[i],
            ) by {
                assert(sound(targets, p.unvisited(stack), reported[i]));
            }
        },
        None => {},
    }
}

/// What the first `n` function bodies report is sound; what fresh bodies
/// report is less deep than is left to visit.
pub proof fn lemma_bodies_sound(
    p: &Project,
    file: FileId,
    range: TextRange,
    targets: Seq<ExceptionView>,
    stack: Seq<Frame>,
    capture: CaptureView,
    fresh: bool,
    n: nat,
)
    ensures
        all_sound(
            targets,
            p.unvisited(stack),
            bodies_raises(p, file, range, targets, stack, capture, fresh, n),
        ),
        fresh ==> forall|i: int|
            0 <= i < bodies_raises(p, file, range, targets, stack, capture, fresh, n).len() ==> (
            #[trigger] bodies_raises(p, file, range, targets, stack, capture, fresh, n)[i]).depth()
                < p.unvisited(stack),
    decreases p.unvisited(stack), if fresh {
        0nat
    } else {
        6nat
    }, no_node(), n,
{
    let bodies = bodies_of(p, file, range);
    if n > 0 && n <= bodies.len() {
        let func = bodies[n - 1];
        let frame = body_frame(p, file, func);
        let rest = bodies_raises(p, file, range, targets, stack, capture, fresh, (n - 1) as nat);
        lemma_bodies_sound(p, file, range, targets, stack, capture, fresh, (n - 1) as nat);
        if !(fresh && stack.contains(frame)) {
            let deeper = stack.push(frame);
            if fresh {
                let units = collect_module(p.modules@[file.index as int].body@).functions;
                lemma_found_are_listed(units, range, units.len());
                p.lemma_body_decreases(stack, file, func);
            } else {
                p.lemma_frame_keeps(stack, frame);
            }
            lemma_function_sound(p, file, func, targets, deeper, capture);
            let reported = function_raises(p, file, func, targets, deeper, capture);
            lemma_all_sound_within(targets, p.unvisited(deeper), p.unvisited(stack), reported);
            lemma_all_sound_concat(targets, p.unvisited(stack), rest, reported);
            if fresh {
                assert forall|i: int| 0 <= i < (rest + reported).len() implies (#[trigger] (rest
                    + reported)[i]).depth() < p.unvisited(stack) by {
                    if i >= rest.len() {
                        assert(sound(targets, p.unvisited(deeper), reported[i - rest.len()]));
                    }
                }
            }
        }
    }
}

/// What is reported for a function is sound: every record is about an
/// exception of interest, that is, there are no targets or the exception is a
/// subclass of one of them; its chain is well-formed, and no deeper than the
/// call stack leaves definitions to visit. The records stand in strictly
/// ascending order of their names, so no two are about the same name.
pub proof fn lemma_function_sound(
    p: &Project,
    file: FileId,
    func: StmtFunctionDef,
    targets: Seq<ExceptionView>,
    stack: Seq<Frame>,
    capture: CaptureView,
)
    ensures
        all_sound(
            targets,
            p.unvisited(stack),
            function_raises(p, file, func, targets, stack, capture),
        ),
        names_ascend(function_raises(p, file, func, targets, stack, capture)),
    decreases p.unvisited(stack), 5nat, no_node(), 0nat,
{
    let c = Context { file, targets, stack, capture, tries: Seq::empty() };
    let gathered = body_raises(p, c, func.body@, func.body@.len());
    lemma_body_sound(p, c, func.body@, func.body@.len());
    lemma_report_contains(gathered);
    lemma_report_names_ascend(gathered);
    assert forall|k: int| 0 <= k < report(gathered).len() implies sound(
        targets,
        p.unvisited(stack),
        #[trigger] report(gathered)[k],
    ) by {
        let m = choose|m: int| 0 <= m < gathered.len() && gathered[m] == report(gathered)[k];
        assert(sound(targets, p.unvisited(stack), gathered[m]));
    }
}

} // verus!
