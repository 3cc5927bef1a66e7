//! The walk over one function body that gathers what it may raise.

use vstd::prelude::*;
use crate::ast::{Child, ExceptHandler, Expr, Stmt, StmtFunctionDef, StmtRaise, StmtTry};
use crate::call_stack::CallStack;
use crate::capture_stack::{CaptureView, ExceptionCaptureStack};
use crate::exception::{
    clone_lists, is_subclass, list_views, root, views, Exception, ExceptionView,
};
use crate::extract::{
    caught_by, extract_caught_exceptions, extract_errors, try_extract_exception_from_expr,
};
use crate::project::Project;
use crate::raise::{raise_views, FunctionRaise, RaiseView};
use crate::report::{
    dedup_sorted, lemma_report_contains, lemma_report_names_ascend, names_ascend, report,
};
use crate::semantics::{
    all_sound, bare_raise, room, body_raises, callee_raises, callees, calls_raises, caught_all,
    children_raises, direct, escaping, escaping_among, expr_raises, exprs_raises,
    function_raises, handlers_raises, no_node, option_raises, passes, raised_at, raised_by,
    reraised, sound, stmt_raises, try_raises, Context,
};
use crate::soundness::{lemma_all_sound_within, lemma_function_sound};
use crate::text::{FileId, TextRange};

verus! {

/// Puts the records of `more` behind those of `acc`.
pub fn append_raises(acc: &mut Vec<FunctionRaise>, more: Vec<FunctionRaise>)
    ensures
        raise_views(final(acc)@) == raise_views(old(acc)@) + raise_views(more@),
{
    let ghost before = acc@;
    let mut more = more;
    let ghost added = more@;
    acc.append(&mut more);
    assert(raise_views(acc@) =~= raise_views(before) + raise_views(added));
}

/// Two sequences of sound records make a sequence of sound records.
pub proof fn lemma_all_sound_concat(
    targets: Seq<ExceptionView>,
    bound: nat,
    a: Seq<RaiseView>,
    b: Seq<RaiseView>,
)
    requires
        all_sound(targets, bound, a),
        all_sound(targets, bound, b),
    ensures
        all_sound(targets, bound, a + b),
{
    assert forall|i: int| 0 <= i < (a + b).len() implies sound(
        targets,
        bound,
        #[trigger] (a + b)[i],
    ) by {
        if i < a.len() {
            assert((a + b)[i] == a[i]);
        } else {
            assert((a + b)[i] == b[i - a.len()]);
        }
    }
}

/// What escapes of sound records is sound.
pub proof fn lemma_escaping_sound(
    targets: Seq<ExceptionView>,
    bound: nat,
    s: Seq<RaiseView>,
    lists: Seq<Seq<ExceptionView>>,
    n: nat,
)
    requires
        all_sound(targets, bound, s),
        n <= s.len(),
    ensures
        all_sound(targets, bound, escaping_among(s, lists, n)),
    decreases n,
{
    if n > 0 {
        lemma_escaping_sound(targets, bound, s, lists, (n - 1) as nat);
    }
}

/// What is re-raised is sound.
pub proof fn lemma_reraised_sound(
    file: FileId,
    targets: Seq<ExceptionView>,
    bound: nat,
    list: Seq<ExceptionView>,
    n: nat,
    range: TextRange,
    skip_root: bool,
)
    requires
        n <= list.len(),
    ensures
        all_sound(targets, bound, reraised(file, targets, list, n, range, skip_root)),
    decreases n,
{
    if n > 0 {
        lemma_reraised_sound(file, targets, bound, list, (n - 1) as nat, range, skip_root);
    }
}

/// The records of `records` whose exception no `try` block of `capture`
/// catches.
pub fn keep_escaping(records: Vec<FunctionRaise>, capture: &ExceptionCaptureStack) -> (r: Vec<
    FunctionRaise,
>)
    ensures
        raise_views(r@) == escaping(raise_views(records@), capture@.try_captures),
{
    let mut kept: Vec<FunctionRaise> = Vec::new();
    let mut i: usize = 0;
    assert(raise_views(kept@) =~= Seq::empty());
    while i < records.len()
        invariant
            i <= records.len(),
            raise_views(kept@) == escaping_among(
                raise_views(records@),
                capture@.try_captures,
                i as nat,
            ),
        decreases records.len() - i,
    {
        let ghost before = kept@;
        assert(raise_views(records@)[i as int] == records@[i as int]@);
        if !capture.is_captured(records[i].name()) {
            kept.push(records[i].clone());
            assert(raise_views(kept@) =~= raise_views(before).push(records@[i as int]@));
        }
        i += 1;
    }
    kept
}

/// The exceptions of `records`, one for each name.
pub fn raised_exceptions(records: &Vec<FunctionRaise>) -> (r: Vec<Exception>)
    ensures
        views(r@) == raised_by(raise_views(records@), records@.len()),
{
    let mut found: Vec<Exception> = Vec::new();
    let mut i: usize = 0;
    assert(views(found@) =~= Seq::empty());
    while i < records.len()
        invariant
            i <= records.len(),
            views(found@) == raised_by(raise_views(records@), i as nat),
        decreases records.len() - i,
    {
        let ghost before = found@;
        let exc = records[i].name();
        assert(raise_views(records@)[i as int] == records@[i as int]@);
        let mut known = false;
        let mut k: usize = 0;
        while k < found.len()
            invariant
                k <= found.len(),
                known == exists|j: int|
                    0 <= j < k && (#[trigger] views(found@)[j]).name == exc@.name,
            decreases found.len() - k,
        {
            proof {
                crate::exception::lemma_view_unfold(found@[k as int]);
                crate::exception::lemma_view_unfold(*exc);
                assert(views(found@)[k as int] == found@[k as int]@);
            }
            if found[k].name == exc.name {
                known = true;
            }
            k += 1;
        }
        if !known {
            found.push(exc.clone());
            assert(views(found@) =~= views(before).push(exc@));
        }
        i += 1;
    }
    found
}

/// Whether `list` holds the root of the hierarchy.
pub fn contains_root(list: &Vec<Exception>) -> (r: bool)
    ensures
        r == views(list@).contains(root()),
{
    let mut i: usize = 0;
    while i < list.len()
        invariant
            i <= list.len(),
            forall|j: int| 0 <= j < i ==> views(list@)[j] != root(),
        decreases list.len() - i,
    {
        assert(views(list@)[i as int] == list@[i as int]@);
        if list[i].is_base_exception() {
            return true;
        }
        i += 1;
    }
    false
}

/// The walk over the body of `func`, a function of `file`, with
/// `call_stack` under way and `exception_capture_stack` around it.
pub struct FunctionTransitiveErrorVisitor<'a> {
    pub project: &'a Project,
    pub file: FileId,
    pub func: &'a StmtFunctionDef,
    pub target_exceptions: &'a Vec<Exception>,
    pub call_stack: CallStack,
    pub exception_capture_stack: ExceptionCaptureStack,
}

impl<'a> FunctionTransitiveErrorVisitor<'a> {
    /// The context of a piece of the body that stands under `capture`, with
    /// `tries` the raising sets of the `try` blocks whose handlers enclose
    /// it.
    pub open spec fn context(&self, capture: CaptureView, tries: Seq<Seq<ExceptionView>>) -> Context {
        Context {
            file: self.file,
            targets: views(self.target_exceptions@),
            stack: self.call_stack@,
            capture,
            tries,
        }
    }

    /// How deep a chain of calls from this function can be and still be
    /// counted.
    pub open spec fn bound(&self) -> nat {
        room(self.call_stack@)
    }

    /// Whether every record of `s` is sound for this walk.
    pub open spec fn ok(&self, s: Seq<RaiseView>) -> bool {
        all_sound(views(self.target_exceptions@), self.bound(), s)
    }

    /// A walk that has not begun.
    pub fn new(
        project: &'a Project,
        file: FileId,
        func: &'a StmtFunctionDef,
        target_exceptions: &'a Vec<Exception>,
        call_stack: CallStack,
        exception_capture_stack: &ExceptionCaptureStack,
    ) -> (r: FunctionTransitiveErrorVisitor<'a>)
        ensures
            r.project == project,
            r.file == file,
            r.func == func,
            r.target_exceptions == target_exceptions,
            r.call_stack@ == call_stack@,
            r.exception_capture_stack@ == exception_capture_stack@,
    {
        FunctionTransitiveErrorVisitor {
            project,
            file,
            func,
            target_exceptions,
            call_stack,
            exception_capture_stack: exception_capture_stack.clone(),
        }
    }

    /// What is reported for the function: what its body contributes, in
    /// order, one record for each exception name.
    pub fn transitive_errors(&self) -> (r: Vec<FunctionRaise>)
        ensures
            raise_views(r@) == function_raises(
                self.project,
                self.file,
                *self.func,
                views(self.target_exceptions@),
                self.call_stack@,
                self.exception_capture_stack@,
            ),
            self.ok(raise_views(r@)),
            all_sound(
                views(self.target_exceptions@),
                self.project.unvisited(self.call_stack@),
                raise_views(r@),
            ),
            names_ascend(raise_views(r@)),
        decreases self.project.unvisited(self.call_stack@), 5nat, no_node(), 0nat,
    {
        proof {
            lemma_function_sound(
                self.project,
                self.file,
                *self.func,
                views(self.target_exceptions@),
                self.call_stack@,
                self.exception_capture_stack@,
            );
        }
        let tries: Vec<Vec<Exception>> = Vec::new();
        assert(list_views(tries@) =~= Seq::empty());
        let gathered = self.visit_body(&self.func.body, &self.exception_capture_stack, &tries);
        let ghost all = raise_views(gathered@);
        let r = dedup_sorted(gathered);
        proof {
            lemma_report_contains(all);
            lemma_report_names_ascend(all);
            assert forall|k: int| 0 <= k < raise_views(r@).len() implies sound(
                views(self.target_exceptions@),
                self.bound(),
                #[trigger] raise_views(r@)[k],
            ) by {
                let m = choose|m: int| 0 <= m < all.len() && all[m] == report(all)[k];
                assert(sound(views(self.target_exceptions@), self.bound(), all[m]));
            }
        }
        r
    }

    /// Whether `e` is of interest.
    fn passes_targets(&self, e: &Exception) -> (r: bool)
        ensures
            r == passes(views(self.target_exceptions@), e@),
    {
        if self.target_exceptions.len() == 0 {
            return true;
        }
        let mut i: usize = 0;
        while i < self.target_exceptions.len()
            invariant
                i <= self.target_exceptions.len(),
                forall|j: int|
                    0 <= j < i ==> !is_subclass(e@, #[trigger] views(self.target_exceptions@)[j]),
            decreases self.target_exceptions.len() - i,
        {
            assert(views(self.target_exceptions@)[i as int] == self.target_exceptions@[i as int]@);
            if e.is_subclass_of(&self.target_exceptions[i]) {
                return true;
            }
            i += 1;
        }
        false
    }

    /// A direct record at `range` for each class of `list` that is of
    /// interest, the root left out where `skip_root` says so.
    fn reraise(&self, list: &Vec<Exception>, range: TextRange, skip_root: bool) -> (r: Vec<
        FunctionRaise,
    >)
        ensures
            raise_views(r@) == reraised(
                self.file,
                views(self.target_exceptions@),
                views(list@),
                list@.len(),
                range,
                skip_root,
            ),
            self.ok(raise_views(r@)),
    {
        let mut found: Vec<FunctionRaise> = Vec::new();
        let mut i: usize = 0;
        assert(raise_views(found@) =~= Seq::empty());
        while i < list.len()
            invariant
                i <= list.len(),
                raise_views(found@) == reraised(
                    self.file,
                    views(self.target_exceptions@),
                    views(list@),
                    i as nat,
                    range,
                    skip_root,
                ),
            decreases list.len() - i,
        {
            let ghost before = found@;
            assert(views(list@)[i as int] == list@[i as int]@);
            let skipped = skip_root && list[i].is_base_exception();
            if !skipped && self.passes_targets(&list[i]) {
                let record = FunctionRaise::direct(self.file, list[i].clone(), range);
                found.push(record);
                assert(raise_views(found@) =~= raise_views(before).push(record@));
            }
            i += 1;
        }
        proof {
            lemma_reraised_sound(
                self.file,
                views(self.target_exceptions@),
                self.bound(),
                views(list@),
                list@.len() as nat,
                range,
                skip_root,
            );
        }
        found
    }

    /// What a bare `raise` at `range` raises.
    fn visit_bare_raise(
        &self,
        range: TextRange,
        capture: &ExceptionCaptureStack,
        tries: &Vec<Vec<Exception>>,
    ) -> (r: Vec<FunctionRaise>)
        ensures
            raise_views(r@) == bare_raise(self.context(capture@, list_views(tries@)), range),
            self.ok(raise_views(r@)),
    {
        match capture.get_current_handler_exceptions() {
            None => {
                let r: Vec<FunctionRaise> = Vec::new();
                assert(raise_views(r@) =~= Seq::empty());
                r
            },
            Some(caught) => {
                if contains_root(&caught) {
                    if tries.len() == 0 {
                        let r: Vec<FunctionRaise> = Vec::new();
                        assert(raise_views(r@) =~= Seq::empty());
                        r
                    } else {
                        assert(list_views(tries@).last() == views(tries@[tries@.len() - 1]@));
                        self.reraise(&tries[tries.len() - 1], range, false)
                    }
                } else {
                    self.reraise(&caught, range, false)
                }
            },
        }
    }

    /// What the `raise` statement itself raises.
    fn visit_raise(
        &self,
        raise: &StmtRaise,
        capture: &ExceptionCaptureStack,
        tries: &Vec<Vec<Exception>>,
    ) -> (r: Vec<FunctionRaise>)
        ensures
            raise_views(r@) == raised_at(
                self.project,
                self.context(capture@, list_views(tries@)),
                *raise,
            ),
            self.ok(raise_views(r@)),
    {
        match &raise.exc {
            None => self.visit_bare_raise(raise.range, capture, tries),
            Some(Expr::Call(call)) => {
                let mut r: Vec<FunctionRaise> = Vec::new();
                assert(raise_views(r@) =~= Seq::empty());
                match try_extract_exception_from_expr(self.project, &call.func) {
                    Some(exc) => {
                        if self.passes_targets(&exc) && !capture.is_captured(&exc) {
                            let record = FunctionRaise::direct(self.file, exc, raise.range);
                            r.push(record);
                            assert(raise_views(r@) =~= seq![record@]);
                        }
                    },
                    None => {},
                }
                r
            },
            Some(Expr::Name(_)) => {
                match capture.get_current_handler_exceptions() {
                    Some(caught) => self.reraise(&caught, raise.range, true),
                    None => {
                        let r: Vec<FunctionRaise> = Vec::new();
                        assert(raise_views(r@) =~= Seq::empty());
                        r
                    },
                }
            },
            Some(_) => {
                let r: Vec<FunctionRaise> = Vec::new();
                assert(raise_views(r@) =~= Seq::empty());
                r
            },
        }
    }

    /// What the handlers of a `try` block catch between them.
    fn caught_by_handlers(&self, handlers: &Vec<ExceptHandler>) -> (r: Vec<Exception>)
        ensures
            views(r@) == caught_all(self.project, handlers@, handlers@.len()),
    {
        let mut caught: Vec<Exception> = Vec::new();
        let mut i: usize = 0;
        assert(views(caught@) =~= Seq::empty());
        while i < handlers.len()
            invariant
                i <= handlers.len(),
                views(caught@) == caught_all(self.project, handlers@, i as nat),
            decreases handlers.len() - i,
        {
            let ghost before = caught@;
            let mut more = extract_caught_exceptions(self.project, &handlers[i]);
            let ghost added = more@;
            caught.append(&mut more);
            assert(views(caught@) =~= views(before) + views(added));
            i += 1;
        }
        caught
    }

    /// What the statement `stmt` contributes.
    pub fn visit_stmt(
        &self,
        stmt: &Stmt,
        capture: &ExceptionCaptureStack,
        tries: &Vec<Vec<Exception>>,
    ) -> (r: Vec<FunctionRaise>)
        ensures
            raise_views(r@) == stmt_raises(
                self.project,
                self.context(capture@, list_views(tries@)),
                *stmt,
            ),
            self.ok(raise_views(r@)),
        decreases self.project.unvisited(self.call_stack@), 4nat, *stmt, 0nat,
    {
        let ghost t = views(self.target_exceptions@);
        let ghost b = self.bound();
        match stmt {
            Stmt::Raise(raise) => {
                let mut out = self.visit_raise(raise, capture, tries);
                let exc = self.visit_option(&raise.exc, capture, tries);
                proof {
                    lemma_all_sound_concat(t, b, raise_views(out@), raise_views(exc@));
                }
                append_raises(&mut out, exc);
                let cause = self.visit_option(&raise.cause, capture, tries);
                proof {
                    lemma_all_sound_concat(t, b, raise_views(out@), raise_views(cause@));
                }
                append_raises(&mut out, cause);
                out
            },
            Stmt::Try(t_) => self.visit_try(t_, capture, tries),
            Stmt::FunctionDef(def) => {
                let mut out = self.visit_exprs(&def.decorators, capture, tries);
                let header = self.visit_exprs(&def.header, capture, tries);
                proof {
                    lemma_all_sound_concat(t, b, raise_views(out@), raise_views(header@));
                }
                append_raises(&mut out, header);
                let body = self.visit_body(&def.body, capture, tries);
                proof {
                    lemma_all_sound_concat(t, b, raise_views(out@), raise_views(body@));
                }
                append_raises(&mut out, body);
                out
            },
            Stmt::ClassDef(cls) => {
                let mut out = self.visit_exprs(&cls.decorators, capture, tries);
                let params = self.visit_exprs(&cls.type_params, capture, tries);
                proof {
                    lemma_all_sound_concat(t, b, raise_views(out@), raise_views(params@));
                }
                append_raises(&mut out, params);
                let bases = self.visit_exprs(&cls.bases, capture, tries);
                proof {
                    lemma_all_sound_concat(t, b, raise_views(out@), raise_views(bases@));
                }
                append_raises(&mut out, bases);
                let keywords = self.visit_exprs(&cls.keywords, capture, tries);
                proof {
                    lemma_all_sound_concat(t, b, raise_views(out@), raise_views(keywords@));
                }
                append_raises(&mut out, keywords);
                let body = self.visit_body(&cls.body, capture, tries);
                proof {
                    lemma_all_sound_concat(t, b, raise_views(out@), raise_views(body@));
                }
                append_raises(&mut out, body);
                out
            },
            Stmt::Expr(e) => self.visit_expr(&e.value, capture, tries),
            Stmt::Other(o) => self.visit_children(&o.children, capture, tries),
        }
    }

    /// What a `try` statement contributes.
    fn visit_try(
        &self,
        t: &StmtTry,
        capture: &ExceptionCaptureStack,
        tries: &Vec<Vec<Exception>>,
    ) -> (r: Vec<FunctionRaise>)
        ensures
            raise_views(r@) == try_raises(
                self.project,
                self.context(capture@, list_views(tries@)),
                *t,
            ),
            self.ok(raise_views(r@)),
        decreases self.project.unvisited(self.call_stack@), 4nat, *t, 0nat,
    {
        let ghost ts = views(self.target_exceptions@);
        let ghost b = self.bound();
        let ghost c = self.context(capture@, list_views(tries@));
        let body = self.visit_body(&t.body, capture, tries);
        let ghost body_view = raise_views(body@);
        let raised = raised_exceptions(&body);
        let caught = self.caught_by_handlers(&t.handlers);
        let guarded = capture.push(caught);
        let mut out = keep_escaping(body, &guarded);
        proof {
            lemma_escaping_sound(ts, b, body_view, guarded@.try_captures, body_view.len());
        }
        let mut inner = clone_lists(tries);
        let ghost outer = inner@;
        inner.push(raised);
        proof {
            assert forall|i: int| 0 <= i < list_views(inner@).len() implies list_views(inner@)[i]
                == list_views(tries@).push(views(raised@))[i] by {
                if i < outer.len() {
                    assert(list_views(outer)[i] == list_views(tries@)[i]);
                }
            }
            assert(list_views(inner@) =~= list_views(tries@).push(views(raised@)));
            assert(self.context(capture@, list_views(inner@)) == c.after_try(views(raised@)));
        }
        let handled = self.visit_handlers(&t.handlers, capture, &inner);
        proof {
            lemma_all_sound_concat(ts, b, raise_views(out@), raise_views(handled@));
        }
        append_raises(&mut out, handled);
        let orelse = self.visit_body(&t.orelse, capture, tries);
        proof {
            lemma_all_sound_concat(ts, b, raise_views(out@), raise_views(orelse@));
        }
        append_raises(&mut out, orelse);
        let finalbody = self.visit_body(&t.finalbody, capture, tries);
        proof {
            lemma_all_sound_concat(ts, b, raise_views(out@), raise_views(finalbody@));
        }
        append_raises(&mut out, finalbody);
        out
    }

    /// What the statements of `body` contribute.
    pub fn visit_body(
        &self,
        body: &Vec<Stmt>,
        capture: &ExceptionCaptureStack,
        tries: &Vec<Vec<Exception>>,
    ) -> (r: Vec<FunctionRaise>)
        ensures
            raise_views(r@) == body_raises(
                self.project,
                self.context(capture@, list_views(tries@)),
                body@,
                body@.len(),
            ),
            self.ok(raise_views(r@)),
        decreases self.project.unvisited(self.call_stack@), 4nat, body@, body@.len(),
    {
        let mut out: Vec<FunctionRaise> = Vec::new();
        let mut i: usize = 0;
        assert(raise_views(out@) =~= Seq::empty());
        while i < body.len()
            invariant
                i <= body.len(),
                raise_views(out@) == body_raises(
                    self.project,
                    self.context(capture@, list_views(tries@)),
                    body@,
                    i as nat,
                ),
                self.ok(raise_views(out@)),
            decreases body.len() - i,
        {
            let more = self.visit_stmt(&body[i], capture, tries);
            proof {
                lemma_all_sound_concat(
                    views(self.target_exceptions@),
                    self.bound(),
                    raise_views(out@),
                    raise_views(more@),
                );
            }
            append_raises(&mut out, more);
            i += 1;
        }
        out
    }

    /// What the bodies of `handlers` contribute, each analysed as having
    /// caught its own classes.
    fn visit_handlers(
        &self,
        handlers: &Vec<ExceptHandler>,
        capture: &ExceptionCaptureStack,
        tries: &Vec<Vec<Exception>>,
    ) -> (r: Vec<FunctionRaise>)
        ensures
            raise_views(r@) == handlers_raises(
                self.project,
                self.context(capture@, list_views(tries@)),
                handlers@,
                handlers@.len(),
            ),
            self.ok(raise_views(r@)),
        decreases self.project.unvisited(self.call_stack@), 4nat, handlers@, handlers@.len(),
    {
        let ghost c = self.context(capture@, list_views(tries@));
        let mut out: Vec<FunctionRaise> = Vec::new();
        let mut i: usize = 0;
        assert(raise_views(out@) =~= Seq::empty());
        while i < handlers.len()
            invariant
                i <= handlers.len(),
                c == self.context(capture@, list_views(tries@)),
                raise_views(out@) == handlers_raises(self.project, c, handlers@, i as nat),
                self.ok(raise_views(out@)),
            decreases handlers.len() - i,
        {
            let caught = extract_caught_exceptions(self.project, &handlers[i]);
            let inside = capture.push_handler_exceptions(caught);
            assert(self.context(inside@, list_views(tries@)) == c.in_handler(
                caught_by(self.project, handlers@[i as int]),
            ));
            let more = self.visit_body(&handlers[i].body, &inside, tries);
            proof {
                lemma_all_sound_concat(
                    views(self.target_exceptions@),
                    self.bound(),
                    raise_views(out@),
                    raise_views(more@),
                );
            }
            append_raises(&mut out, more);
            i += 1;
        }
        out
    }

    /// What the parts `children` of a statement contribute.
    fn visit_children(
        &self,
        children: &Vec<Child>,
        capture: &ExceptionCaptureStack,
        tries: &Vec<Vec<Exception>>,
    ) -> (r: Vec<FunctionRaise>)
        ensures
            raise_views(r@) == children_raises(
                self.project,
                self.context(capture@, list_views(tries@)),
                children@,
                children@.len(),
            ),
            self.ok(raise_views(r@)),
        decreases self.project.unvisited(self.call_stack@), 4nat, children@, children@.len(),
    {
        let mut out: Vec<FunctionRaise> = Vec::new();
        let mut i: usize = 0;
        assert(raise_views(out@) =~= Seq::empty());
        while i < children.len()
            invariant
                i <= children.len(),
                raise_views(out@) == children_raises(
                    self.project,
                    self.context(capture@, list_views(tries@)),
                    children@,
                    i as nat,
                ),
                self.ok(raise_views(out@)),
            decreases children.len() - i,
        {
            let more = match &children[i] {
                Child::Expr(e) => self.visit_expr(e, capture, tries),
                Child::Stmt(s) => self.visit_stmt(s, capture, tries),
            };
            proof {
                lemma_all_sound_concat(
                    views(self.target_exceptions@),
                    self.bound(),
                    raise_views(out@),
                    raise_views(more@),
                );
            }
            append_raises(&mut out, more);
            i += 1;
        }
        out
    }

    /// What an operand that may be missing contributes.
    fn visit_option(
        &self,
        e: &Option<Expr>,
        capture: &ExceptionCaptureStack,
        tries: &Vec<Vec<Exception>>,
    ) -> (r: Vec<FunctionRaise>)
        ensures
            raise_views(r@) == option_raises(
                self.project,
                self.context(capture@, list_views(tries@)),
                *e,
            ),
            self.ok(raise_views(r@)),
        decreases self.project.unvisited(self.call_stack@), 3nat, *e, 0nat,
    {
        match e {
            Some(e) => self.visit_expr(e, capture, tries),
            None => {
                let r: Vec<FunctionRaise> = Vec::new();
                assert(raise_views(r@) =~= Seq::empty());
                r
            },
        }
    }

    /// What the expression `expr` contributes.
    pub fn visit_expr(
        &self,
        expr: &Expr,
        capture: &ExceptionCaptureStack,
        tries: &Vec<Vec<Exception>>,
    ) -> (r: Vec<FunctionRaise>)
        ensures
            raise_views(r@) == expr_raises(
                self.project,
                self.context(capture@, list_views(tries@)),
                *expr,
            ),
            self.ok(raise_views(r@)),
        decreases self.project.unvisited(self.call_stack@), 3nat, *expr, 0nat,
    {
        let ghost t = views(self.target_exceptions@);
        let ghost b = self.bound();
        match expr {
            Expr::Call(call) => {
                let mut out = match &*call.func {
                    Expr::Name(name) => self.visit_calls(&name.definitions, call.range, capture),
                    Expr::Attribute(attr) => self.visit_calls(
                        &attr.definitions,
                        call.range,
                        capture,
                    ),
                    _ => {
                        let r: Vec<FunctionRaise> = Vec::new();
                        assert(raise_views(r@) =~= Seq::empty());
                        assert(callees(*call.func).len() == 0);
                        r
                    },
                };
                assert(raise_views(out@) == calls_raises(
                    self.project,
                    self.file,
                    t,
                    self.call_stack@,
                    capture@,
                    callees(*call.func),
                    callees(*call.func).len(),
                    call.range,
                ));
                let func = self.visit_expr(&call.func, capture, tries);
                proof {
                    lemma_all_sound_concat(t, b, raise_views(out@), raise_views(func@));
                }
                append_raises(&mut out, func);
                let arguments = self.visit_exprs(&call.arguments, capture, tries);
                proof {
                    lemma_all_sound_concat(t, b, raise_views(out@), raise_views(arguments@));
                }
                append_raises(&mut out, arguments);
                out
            },
            Expr::Attribute(attr) => self.visit_expr(&attr.value, capture, tries),
            Expr::Tuple(tuple) => self.visit_exprs(&tuple.elts, capture, tries),
            Expr::Other(o) => self.visit_exprs(&o.children, capture, tries),
            Expr::Name(_) => {
                let r: Vec<FunctionRaise> = Vec::new();
                assert(raise_views(r@) =~= Seq::empty());
                r
            },
            Expr::StringLiteral(_) => {
                let r: Vec<FunctionRaise> = Vec::new();
                assert(raise_views(r@) =~= Seq::empty());
                r
            },
        }
    }

    /// What the expressions `exprs` contribute.
    fn visit_exprs(
        &self,
        exprs: &Vec<Expr>,
        capture: &ExceptionCaptureStack,
        tries: &Vec<Vec<Exception>>,
    ) -> (r: Vec<FunctionRaise>)
        ensures
            raise_views(r@) == exprs_raises(
                self.project,
                self.context(capture@, list_views(tries@)),
                exprs@,
                exprs@.len(),
            ),
            self.ok(raise_views(r@)),
        decreases self.project.unvisited(self.call_stack@), 3nat, exprs@, exprs@.len(),
    {
        let mut out: Vec<FunctionRaise> = Vec::new();
        let mut i: usize = 0;
        assert(raise_views(out@) =~= Seq::empty());
        while i < exprs.len()
            invariant
                i <= exprs.len(),
                raise_views(out@) == exprs_raises(
                    self.project,
                    self.context(capture@, list_views(tries@)),
                    exprs@,
                    i as nat,
                ),
                self.ok(raise_views(out@)),
            decreases exprs.len() - i,
        {
            let more = self.visit_expr(&exprs[i], capture, tries);
            proof {
                lemma_all_sound_concat(
                    views(self.target_exceptions@),
                    self.bound(),
                    raise_views(out@),
                    raise_views(more@),
                );
            }
            append_raises(&mut out, more);
            i += 1;
        }
        out
    }

    /// What escapes through a call at `range` from the definitions at the
    /// positions `defs`.
    fn visit_calls(&self, defs: &Vec<usize>, range: TextRange, capture: &ExceptionCaptureStack) -> (r:
        Vec<FunctionRaise>)
        ensures
            raise_views(r@) == calls_raises(
                self.project,
                self.file,
                views(self.target_exceptions@),
                self.call_stack@,
                capture@,
                defs@,
                defs@.len(),
                range,
            ),
            self.ok(raise_views(r@)),
        decreases self.project.unvisited(self.call_stack@), 2nat, no_node(), defs@.len() + 1,
    {
        let mut out: Vec<FunctionRaise> = Vec::new();
        let mut i: usize = 0;
        assert(raise_views(out@) =~= Seq::empty());
        while i < defs.len()
            invariant
                i <= defs.len(),
                raise_views(out@) == calls_raises(
                    self.project,
                    self.file,
                    views(self.target_exceptions@),
                    self.call_stack@,
                    capture@,
                    defs@,
                    i as nat,
                    range,
                ),
                self.ok(raise_views(out@)),
            decreases defs.len() - i,
        {
            let more = self.visit_callee(defs[i], range, capture);
            proof {
                lemma_all_sound_concat(
                    views(self.target_exceptions@),
                    self.bound(),
                    raise_views(out@),
                    raise_views(more@),
                );
            }
            append_raises(&mut out, more);
            i += 1;
        }
        out
    }

    /// What escapes through a call at `range` from the definition at
    /// position `d`.
    fn visit_callee(&self, d: usize, range: TextRange, capture: &ExceptionCaptureStack) -> (r: Vec<
        FunctionRaise,
    >)
        ensures
            raise_views(r@) == callee_raises(
                self.project,
                self.file,
                views(self.target_exceptions@),
                self.call_stack@,
                capture@,
                d as int,
                range,
            ),
            self.ok(raise_views(r@)),
        decreases self.project.unvisited(self.call_stack@), 2nat, no_node(), 0nat,
    {
        let p = self.project;
        let mut followed: Option<CallStack> = None;
        match p.definition(d) {
            Some(def) => match p.module(def.file) {
                Some(module) => {
                    if module.included {
                        match p.frame(d) {
                            Some(frame) => {
                                if !self.call_stack.contains(&frame) {
                                    followed = Some(self.call_stack.push(frame));
                                }
                            },
                            None => {
                                followed = Some(self.call_stack.clone());
                            },
                        }
                    }
                },
                None => {},
            },
            None => {},
        }
        match followed {
            Some(stack) => {
                proof {
                    if p.frame_of(d as int) is Some {
                        p.lemma_definition_decreases(self.call_stack@, d as int);
                    }
                    stack.lemma_fits();
                    self.call_stack.lemma_fits();
                }
                let found = extract_errors(
                    p,
                    self.file,
                    range,
                    d,
                    self.target_exceptions,
                    stack,
                    capture,
                );
                let ghost found_view = raise_views(found@);
                let r = keep_escaping(found, capture);
                proof {
                    lemma_all_sound_within(
                        views(self.target_exceptions@),
                        room(stack@),
                        self.bound(),
                        found_view,
                    );
                    lemma_escaping_sound(
                        views(self.target_exceptions@),
                        self.bound(),
                        found_view,
                        capture@.try_captures,
                        found_view.len(),
                    );
                }
                r
            },
            None => {
                let r: Vec<FunctionRaise> = Vec::new();
                assert(raise_views(r@) =~= Seq::empty());
                r
            },
        }
    }
}

/// What is reported for the function `func` of `file`: the records of
/// everything its body may raise, directly or through the calls it makes,
/// in order and one for each exception name. Every record is about an
/// exception of interest and carries a well-formed chain, no deeper than
/// `call_stack` leaves frames to visit and than can be counted.
pub fn get_transitive_errors(
    project: &Project,
    file: FileId,
    func: &StmtFunctionDef,
    target_exceptions: &Vec<Exception>,
    call_stack: CallStack,
    exception_capture_stack: &ExceptionCaptureStack,
) -> (r: Vec<FunctionRaise>)
    ensures
        raise_views(r@) == function_raises(
            project,
            file,
            *func,
            views(target_exceptions@),
            call_stack@,
            exception_capture_stack@,
        ),
        all_sound(views(target_exceptions@), project.unvisited(call_stack@), raise_views(r@)),
        all_sound(views(target_exceptions@), room(call_stack@), raise_views(r@)),
        names_ascend(raise_views(r@)),
    decreases project.unvisited(call_stack@), 5nat, no_node(), 1nat,
{
    let visitor = FunctionTransitiveErrorVisitor::new(
        project,
        file,
        func,
        target_exceptions,
        call_stack,
        exception_capture_stack,
    );
    visitor.transitive_errors()
}

} // verus!
