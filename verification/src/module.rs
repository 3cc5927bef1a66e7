//! The functions and classes of a module, as the analysis looks them up.

use vstd::prelude::*;
use crate::ast::{Child, ExceptHandler, Expr, Stmt, StmtClassDef, StmtFunctionDef};
use crate::text::TextRange;

verus! {

/// The function bodies that stand for one callable: the source ranges under
/// which it is found, and the definitions to analyse when it is called.
pub ghost struct Unit {
    pub ranges: Seq<TextRange>,
    pub defs: Seq<StmtFunctionDef>,
}

/// What a walk over a module has gathered so far.
pub ghost struct Collected {
    /// The name and the definitions of the run of `overload` definitions
    /// that the walk is in, if any.
    pub overloads: Option<(Seq<char>, Seq<StmtFunctionDef>)>,
    pub functions: Seq<Unit>,
    pub classes: Seq<StmtClassDef>,
}

/// Nothing gathered yet.
pub open spec fn nothing() -> Collected {
    Collected { overloads: None, functions: Seq::empty(), classes: Seq::empty() }
}

/// Whether `name` is one of the methods that run when a class is called or
/// used as a context manager.
pub open spec fn is_lifecycle(name: Seq<char>) -> bool {
    ||| name == "__init__"@
    ||| name == "__new__"@
    ||| name == "__enter__"@
    ||| name == "__exit__"@
    ||| name == "__aenter__"@
    ||| name == "__aexit__"@
}

/// Whether `e` is the bare name `overload`.
pub open spec fn is_overload_name(e: Expr) -> bool {
    e matches Expr::Name(n) && n.id@ == "overload"@
}

/// Whether one of the decorators of `def` is the bare name `overload`.
pub open spec fn is_overload(def: StmtFunctionDef) -> bool {
    exists|i: int| 0 <= i < def.decorators@.len() && is_overload_name(#[trigger] def.decorators@[i])
}

/// The lifecycle methods among the first `n` statements of a class body, in
/// source order.
pub open spec fn lifecycle_methods(body: Seq<Stmt>, n: nat) -> Seq<StmtFunctionDef>
    decreases n,
{
    if n == 0 || n > body.len() {
        Seq::empty()
    } else {
        let rest = lifecycle_methods(body, (n - 1) as nat);
        match body[n - 1] {
            Stmt::FunctionDef(def) => if is_lifecycle(def.name@) {
                rest.push(def)
            } else {
                rest
            },
            _ => rest,
        }
    }
}

/// The run of `overload` definitions after the walk has met `def`: a
/// definition under another name ends the run, and one decorated with
/// `overload` joins it or starts a new one.
pub open spec fn overloads_after(
    overloads: Option<(Seq<char>, Seq<StmtFunctionDef>)>,
    def: StmtFunctionDef,
) -> Option<(Seq<char>, Seq<StmtFunctionDef>)> {
    let kept = match overloads {
        Some((name, defs)) => if name == def.name@ {
            overloads
        } else {
            None
        },
        None => None,
    };
    if is_overload(def) {
        match kept {
            Some((name, defs)) => Some((name, defs.push(def))),
            None => Some((def.name@, seq![def])),
        }
    } else {
        kept
    }
}

/// The unit of the function definition `def`, met while the run of
/// `overload` definitions is `overloads` (`def` included). An `overload`
/// definition stands for itself; a plain one is followed by the overloads of
/// the run it closes.
pub open spec fn function_unit(
    overloads: Option<(Seq<char>, Seq<StmtFunctionDef>)>,
    def: StmtFunctionDef,
) -> Unit {
    Unit {
        ranges: seq![def.range],
        defs: match overloads {
            Some((name, defs)) => if is_overload(def) {
                seq![def]
            } else {
                seq![def] + defs
            },
            None => seq![def],
        },
    }
}

/// `c` after the walk has met the function definition `def`.
pub open spec fn after_function(c: Collected, def: StmtFunctionDef) -> Collected {
    let overloads = overloads_after(c.overloads, def);
    Collected {
        overloads,
        functions: c.functions.push(function_unit(overloads, def)),
        classes: c.classes,
    }
}

/// `c` after the walk has met the class definition `cls`: the class is
/// recorded, and its lifecycle methods form a unit found under the range of
/// the class; a class without such methods gives a unit without
/// definitions.
pub open spec fn after_class(c: Collected, cls: StmtClassDef) -> Collected {
    let methods = lifecycle_methods(cls.body@, cls.body@.len());
    Collected {
        overloads: c.overloads,
        functions: c.functions.push(Unit { ranges: seq![cls.range], defs: methods }),
        classes: c.classes.push(cls),
    }
}

/// `c` after a walk over `stmt` and the statements nested in it, each
/// statement before those it contains.
pub open spec fn collect_stmt(c: Collected, stmt: Stmt) -> Collected
    decreases stmt, 0nat,
{
    match stmt {
        Stmt::FunctionDef(def) => collect_body(
            after_function(c, def),
            def.body@,
            def.body@.len(),
        ),
        Stmt::ClassDef(cls) => collect_body(after_class(c, cls), cls.body@, cls.body@.len()),
        Stmt::Try(t) => {
            let c1 = collect_body(c, t.body@, t.body@.len());
            let c2 = collect_handlers(c1, t.handlers@, t.handlers@.len());
            let c3 = collect_body(c2, t.orelse@, t.orelse@.len());
            collect_body(c3, t.finalbody@, t.finalbody@.len())
        },
        Stmt::Other(o) => collect_children(c, o.children@, o.children@.len()),
        Stmt::Raise(_) => c,
        Stmt::Expr(_) => c,
    }
}

/// `c` after a walk over the first `n` statements of `body`.
pub open spec fn collect_body(c: Collected, body: Seq<Stmt>, n: nat) -> Collected
    decreases body, n,
{
    if n == 0 || n > body.len() {
        c
    } else {
        collect_stmt(collect_body(c, body, (n - 1) as nat), body[n - 1])
    }
}

/// `c` after a walk over the bodies of the first `n` handlers.
pub open spec fn collect_handlers(c: Collected, handlers: Seq<ExceptHandler>, n: nat) -> Collected
    decreases handlers, n,
{
    if n == 0 || n > handlers.len() {
        c
    } else {
        let h = handlers[n - 1];
        collect_body(collect_handlers(c, handlers, (n - 1) as nat), h.body@, h.body@.len())
    }
}

/// `c` after a walk over the statements among the first `n` parts of a
/// statement.
pub open spec fn collect_children(c: Collected, children: Seq<Child>, n: nat) -> Collected
    decreases children, n,
{
    if n == 0 || n > children.len() {
        c
    } else {
        let before = collect_children(c, children, (n - 1) as nat);
        match children[n - 1] {
            Child::Stmt(s) => collect_stmt(before, s),
            Child::Expr(_) => before,
        }
    }
}

/// What a walk over a whole module body gathers.
pub open spec fn collect_module(body: Seq<Stmt>) -> Collected {
    collect_body(nothing(), body, body.len())
}

/// The definitions of the first `n` units of `units` that are found under
/// `range`, in order.
pub open spec fn found_functions(units: Seq<Unit>, range: TextRange, n: nat) -> Seq<
    StmtFunctionDef,
>
    decreases n,
{
    if n == 0 || n > units.len() {
        Seq::empty()
    } else {
        let rest = found_functions(units, range, (n - 1) as nat);
        if units[n - 1].ranges.contains(range) {
            rest + units[n - 1].defs
        } else {
            rest
        }
    }
}

/// The definitions of the first `n` units of `units`, in order.
pub open spec fn listed_functions(units: Seq<Unit>, n: nat) -> Seq<StmtFunctionDef>
    decreases n,
{
    if n == 0 || n > units.len() {
        Seq::empty()
    } else {
        listed_functions(units, (n - 1) as nat) + units[n - 1].defs
    }
}

/// The first of the first `n` classes whose range is `range`.
pub open spec fn found_class(classes: Seq<StmtClassDef>, range: TextRange, n: nat) -> Option<
    StmtClassDef,
>
    decreases n,
{
    if n == 0 || n > classes.len() {
        None
    } else {
        match found_class(classes, range, (n - 1) as nat) {
            Some(c) => Some(c),
            None => if classes[n - 1].range == range {
                Some(classes[n - 1])
            } else {
                None
            },
        }
    }
}

/// The values behind a sequence of references.
pub open spec fn derefs<T>(s: Seq<&T>) -> Seq<T> {
    Seq::new(s.len(), |i: int| *s[i])
}

/// Whether `name` is `literal`.
pub fn name_is(name: &String, literal: &str) -> (r: bool)
    ensures
        r == (name@ == literal@),
{
    let other = literal.to_owned();
    *name == other
}

/// Whether `name` is one of the lifecycle methods.
pub fn is_lifecycle_name(name: &String) -> (r: bool)
    ensures
        r == is_lifecycle(name@),
{
    name_is(name, "__init__") || name_is(name, "__new__") || name_is(name, "__enter__")
        || name_is(name, "__exit__") || name_is(name, "__aenter__") || name_is(
        name,
        "__aexit__",
    )
}

/// Whether one of the decorators of `def` is the bare name `overload`.
pub fn has_overload_decorator(def: &StmtFunctionDef) -> (r: bool)
    ensures
        r == is_overload(*def),
{
    let mut i: usize = 0;
    while i < def.decorators.len()
        invariant
            i <= def.decorators.len(),
            forall|j: int| 0 <= j < i ==> !is_overload_name(def.decorators@[j]),
        decreases def.decorators.len() - i,
    {
        let found = match &def.decorators[i] {
            Expr::Name(n) => name_is(&n.id, "overload"),
            _ => false,
        };
        if found {
            return true;
        }
        i += 1;
    }
    false
}

/// The functions and classes of one module.
pub struct ModuleCollector<'a> {
    pub overloads: Option<(String, Vec<&'a StmtFunctionDef>)>,
    pub functions: Vec<(Vec<TextRange>, Vec<&'a StmtFunctionDef>)>,
    pub classes: Vec<&'a StmtClassDef>,
}

impl<'a> View for ModuleCollector<'a> {
    type V = Collected;

    open spec fn view(&self) -> Collected {
        Collected {
            overloads: match self.overloads {
                Some((name, defs)) => Some((name@, derefs(defs@))),
                None => None,
            },
            functions: Seq::new(
                self.functions@.len(),
                |i: int|
                    Unit { ranges: self.functions@[i].0@, defs: derefs(self.functions@[i].1@) },
            ),
            classes: derefs(self.classes@),
        }
    }
}

impl<'a> ModuleCollector<'a> {
    /// A collector that has seen nothing.
    pub fn new() -> (r: ModuleCollector<'a>)
        ensures
            r@ == nothing(),
    {
        let r = ModuleCollector { overloads: None, functions: Vec::new(), classes: Vec::new() };
        assert(r@.functions =~= Seq::empty());
        assert(r@.classes =~= Seq::empty());
        r
    }

    /// Walks the module body `body`.
    pub fn init(&mut self, body: &'a Vec<Stmt>)
        ensures
            final(self)@ == collect_body(old(self)@, body@, body@.len()),
    {
        self.visit_body(body);
    }

    /// The definitions of every unit found under `range`, in the order in
    /// which the walk met them.
    pub fn find_functions(&self, range: &TextRange) -> (found: Vec<&'a StmtFunctionDef>)
        ensures
            derefs(found@) == found_functions(self@.functions, *range, self@.functions.len()),
    {
        let mut found: Vec<&'a StmtFunctionDef> = Vec::new();
        let mut i: usize = 0;
        assert(derefs(found@) =~= Seq::empty());
        while i < self.functions.len()
            invariant
                i <= self.functions.len(),
                derefs(found@) == found_functions(self@.functions, *range, i as nat),
            decreases self.functions.len() - i,
        {
            let ghost before = found@;
            let ranges = &self.functions[i].0;
            let defs = &self.functions[i].1;
            let mut hit = false;
            let mut k: usize = 0;
            while k < ranges.len()
                invariant
                    k <= ranges.len(),
                    hit == exists|j: int| 0 <= j < k && ranges@[j] == *range,
                decreases ranges.len() - k,
            {
                if ranges[k] == *range {
                    hit = true;
                }
                k += 1;
            }
            assert(hit == ranges@.contains(*range));
            assert(self@.functions[i as int].ranges == ranges@);
            assert(self@.functions[i as int].defs == derefs(defs@));
            if hit {
                let mut j: usize = 0;
                while j < defs.len()
                    invariant
                        j <= defs.len(),
                        found@ == before + defs@.subrange(0, j as int),
                    decreases defs.len() - j,
                {
                    found.push(defs[j]);
                    j += 1;
                }
                assert(defs@.subrange(0, defs@.len() as int) =~= defs@);
                assert(derefs(found@) =~= derefs(before) + derefs(defs@));
            }
            i += 1;
        }
        found
    }

    /// The definitions of every unit, in the order in which the walk met
    /// them.
    pub fn list_functions(&self) -> (found: Vec<&'a StmtFunctionDef>)
        ensures
            derefs(found@) == listed_functions(self@.functions, self@.functions.len()),
    {
        let mut found: Vec<&'a StmtFunctionDef> = Vec::new();
        let mut i: usize = 0;
        assert(derefs(found@) =~= Seq::empty());
        while i < self.functions.len()
            invariant
                i <= self.functions.len(),
                derefs(found@) == listed_functions(self@.functions, i as nat),
            decreases self.functions.len() - i,
        {
            let ghost before = found@;
            let defs = &self.functions[i].1;
            assert(self@.functions[i as int].defs == derefs(defs@));
            let mut j: usize = 0;
            while j < defs.len()
                invariant
                    j <= defs.len(),
                    found@ == before + defs@.subrange(0, j as int),
                decreases defs.len() - j,
            {
                found.push(defs[j]);
                j += 1;
            }
            assert(defs@.subrange(0, defs@.len() as int) =~= defs@);
            assert(derefs(found@) =~= derefs(before) + derefs(defs@));
            i += 1;
        }
        found
    }

    /// The first class, in the order of the walk, whose range is `range`.
    pub fn find_class(&self, range: &TextRange) -> (found: Option<&'a StmtClassDef>)
        ensures
            match found {
                Some(c) => found_class(self@.classes, *range, self@.classes.len()) == Some(*c),
                None => found_class(self@.classes, *range, self@.classes.len()).is_none(),
            },
    {
        let mut i: usize = 0;
        while i < self.classes.len()
            invariant
                i <= self.classes.len(),
                found_class(self@.classes, *range, i as nat).is_none(),
            decreases self.classes.len() - i,
        {
            if self.classes[i].range == *range {
                let c = self.classes[i];
                proof {
                    lemma_found_class_stays(self@.classes, *range, (i + 1) as nat);
                }
                return Some(c);
            }
            i += 1;
        }
        None
    }

    /// Records the function definition `def` and gives its unit.
    fn collect_function(&mut self, def: &'a StmtFunctionDef) -> (unit: (
        Vec<TextRange>,
        Vec<&'a StmtFunctionDef>,
    ))
        ensures
            final(self)@.overloads == overloads_after(old(self)@.overloads, *def),
            final(self).functions == old(self).functions,
            final(self).classes == old(self).classes,
            (Unit { ranges: unit.0@, defs: derefs(unit.1@) }) == function_unit(
                final(self)@.overloads,
                *def,
            ),
    {
        let decorated = has_overload_decorator(def);
        let mut kept: Option<(String, Vec<&'a StmtFunctionDef>)> = None;
        match self.overloads.take() {
            Some((name, defs)) => {
                if name == def.name {
                    kept = Some((name, defs));
                }
            },
            None => {},
        }
        let mut unit_defs: Vec<&'a StmtFunctionDef> = Vec::new();
        unit_defs.push(def);
        if decorated {
            match kept {
                Some((name, mut defs)) => {
                    let ghost before = defs@;
                    defs.push(def);
                    assert(derefs(defs@) =~= derefs(before).push(*def));
                    kept = Some((name, defs));
                },
                None => {
                    let mut defs: Vec<&'a StmtFunctionDef> = Vec::new();
                    defs.push(def);
                    assert(derefs(defs@) =~= seq![*def]);
                    kept = Some((def.name.clone(), defs));
                },
            }
            assert(derefs(unit_defs@) =~= seq![*def]);
        } else {
            match &kept {
                Some((_, defs)) => {
                    let mut j: usize = 0;
                    while j < defs.len()
                        invariant
                            j <= defs.len(),
                            unit_defs@ == seq![def] + defs@.subrange(0, j as int),
                        decreases defs.len() - j,
                    {
                        unit_defs.push(defs[j]);
                        j += 1;
                    }
                    assert(defs@.subrange(0, defs@.len() as int) =~= defs@);
                    assert(derefs(unit_defs@) =~= seq![*def] + derefs(defs@));
                },
                None => {
                    assert(derefs(unit_defs@) =~= seq![*def]);
                },
            }
        }
        self.overloads = kept;
        let mut ranges: Vec<TextRange> = Vec::new();
        ranges.push(def.range);
        assert(ranges@ =~= seq![def.range]);
        (ranges, unit_defs)
    }

    /// Records the class definition `cls`.
    fn collect_class(&mut self, cls: &'a StmtClassDef)
        ensures
            final(self)@ == after_class(old(self)@, *cls),
    {
        let mut fns: Vec<&'a StmtFunctionDef> = Vec::new();
        let mut i: usize = 0;
        assert(derefs(fns@) =~= Seq::empty());
        while i < cls.body.len()
            invariant
                i <= cls.body.len(),
                derefs(fns@) == lifecycle_methods(cls.body@, i as nat),
            decreases cls.body.len() - i,
        {
            let ghost before = fns@;
            match &cls.body[i] {
                Stmt::FunctionDef(def) => {
                    if is_lifecycle_name(&def.name) {
                        fns.push(def);
                        assert(derefs(fns@) =~= derefs(before).push(*def));
                    }
                },
                _ => {},
            }
            i += 1;
        }
        let ghost before_functions = self@.functions;
        let ghost before_classes = self@.classes;
        let mut ranges: Vec<TextRange> = Vec::new();
        ranges.push(cls.range);
        assert(ranges@ =~= seq![cls.range]);
        self.functions.push((ranges, fns));
        assert(self@.functions =~= before_functions.push(
            Unit { ranges: seq![cls.range], defs: derefs(fns@) },
        ));
        self.classes.push(cls);
        assert(self@.classes =~= before_classes.push(*cls));
    }

    /// Walks `stmt` and the statements nested in it.
    pub fn visit_stmt(&mut self, stmt: &'a Stmt)
        ensures
            final(self)@ == collect_stmt(old(self)@, *stmt),
        decreases stmt, 0nat,
    {
        match stmt {
            Stmt::FunctionDef(def) => {
                let ghost before = self@;
                let collected = self.collect_function(def);
                self.functions.push(collected);
                assert(self@.functions =~= before.functions.push(
                    function_unit(self@.overloads, *def),
                ));
                assert(self@.classes == before.classes);
                assert(self@ == after_function(before, *def));
                self.visit_body(&def.body);
            },
            Stmt::ClassDef(cls) => {
                self.collect_class(cls);
                self.visit_body(&cls.body);
            },
            Stmt::Try(t) => {
                self.visit_body(&t.body);
                self.visit_handlers(&t.handlers);
                self.visit_body(&t.orelse);
                self.visit_body(&t.finalbody);
            },
            Stmt::Other(o) => {
                self.visit_children(&o.children);
            },
            Stmt::Raise(_) => {},
            Stmt::Expr(_) => {},
        }
    }

    /// Walks the statements of `body` in order.
    pub fn visit_body(&mut self, body: &'a Vec<Stmt>)
        ensures
            final(self)@ == collect_body(old(self)@, body@, body@.len()),
        decreases body@, body@.len(),
    {
        let mut i: usize = 0;
        while i < body.len()
            invariant
                i <= body.len(),
                self@ == collect_body(old(self)@, body@, i as nat),
            decreases body.len() - i,
        {
            self.visit_stmt(&body[i]);
            i += 1;
        }
    }

    /// Walks the bodies of `handlers` in order.
    fn visit_handlers(&mut self, handlers: &'a Vec<ExceptHandler>)
        ensures
            final(self)@ == collect_handlers(old(self)@, handlers@, handlers@.len()),
        decreases handlers@, handlers@.len(),
    {
        let mut i: usize = 0;
        while i < handlers.len()
            invariant
                i <= handlers.len(),
                self@ == collect_handlers(old(self)@, handlers@, i as nat),
            decreases handlers.len() - i,
        {
            self.visit_body(&handlers[i].body);
            i += 1;
        }
    }

    /// Walks the statements among `children` in order.
    fn visit_children(&mut self, children: &'a Vec<Child>)
        ensures
            final(self)@ == collect_children(old(self)@, children@, children@.len()),
        decreases children@, children@.len(),
    {
        let mut i: usize = 0;
        while i < children.len()
            invariant
                i <= children.len(),
                self@ == collect_children(old(self)@, children@, i as nat),
            decreases children.len() - i,
        {
            match &children[i] {
                Child::Stmt(s) => {
                    self.visit_stmt(s);
                },
                Child::Expr(_) => {},
            }
            i += 1;
        }
    }
}

/// Every function found under a range is one of the listed functions.
pub proof fn lemma_found_are_listed(units: Seq<Unit>, range: TextRange, n: nat)
    requires
        n <= units.len(),
    ensures
        forall|i: int|
            0 <= i < found_functions(units, range, n).len() ==> listed_functions(
                units,
                n,
            ).contains(#[trigger] found_functions(units, range, n)[i]),
    decreases n,
{
    if n > 0 {
        lemma_found_are_listed(units, range, (n - 1) as nat);
        let found = found_functions(units, range, (n - 1) as nat);
        let listed = listed_functions(units, (n - 1) as nat);
        let defs = units[n - 1].defs;
        assert forall|i: int|
            0 <= i < found_functions(units, range, n).len() implies listed_functions(
            units,
            n,
        ).contains(#[trigger] found_functions(units, range, n)[i]) by {
            let f = found_functions(units, range, n)[i];
            if i < found.len() {
                assert(f == found[i]);
                let k = choose|k: int| 0 <= k < listed.len() && listed[k] == f;
                assert(listed_functions(units, n)[k] == f);
            } else {
                assert(f == defs[i - found.len()]);
                assert(listed_functions(units, n)[listed.len() + (i - found.len())] == f);
            }
        }
    }
}

/// Once a class is found among the first `n`, it is the one found among any
/// more.
proof fn lemma_found_class_stays(classes: Seq<StmtClassDef>, range: TextRange, n: nat)
    requires
        0 < n <= classes.len(),
        found_class(classes, range, (n - 1) as nat).is_none(),
        classes[n - 1].range == range,
    ensures
        found_class(classes, range, classes.len()) == Some(classes[n - 1]),
{
    lemma_found_class_monotone(classes, range, n, classes.len());
}

proof fn lemma_found_class_monotone(classes: Seq<StmtClassDef>, range: TextRange, n: nat, m: nat)
    requires
        n <= m <= classes.len(),
        found_class(classes, range, n).is_some(),
    ensures
        found_class(classes, range, m) == found_class(classes, range, n),
    decreases m,
{
    if m > n {
        lemma_found_class_monotone(classes, range, n, (m - 1) as nat);
    }
}

} // verus!
