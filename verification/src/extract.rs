//! From a definition to the exception class it stands for.

use vstd::prelude::*;
use crate::ast::{ExceptHandler, Expr, StmtClassDef};
use crate::call_stack::CallStack;
use crate::capture_stack::ExceptionCaptureStack;
use crate::exception::{root, views, Exception, ExceptionView};
use crate::module::{
    collect_module, derefs, found_class, lemma_found_are_listed, ModuleCollector,
};
use crate::project::{DefinitionKind, Project};
use crate::raise::{raise_views, FunctionRaise};
use crate::semantics::{
    all_sound, bodies_of, bodies_raises, body_frame, extracted, lifted_all, no_node, only_fresh,
    room, sound,
};
use crate::soundness::{extracted_depth, lemma_extracted_sound};
use crate::text::{FileId, TextRange};
use crate::visitor::get_transitive_errors;

verus! {

/// The definition that the definition at position `d` stands for: `d` itself
/// unless it is an assignment, else what the first definition of the
/// assigned name stands for. An assignment of anything but a resolved name
/// stands for nothing, and neither does a chain of more than `fuel`
/// assignments.
pub open spec fn resolved_alias(p: &Project, d: int, fuel: nat) -> Option<int>
    decreases fuel,
{
    if 0 <= d < p.definitions@.len() {
        match p.definitions@[d].kind {
            DefinitionKind::Other => Some(d),
            DefinitionKind::Assignment { value: None } => None,
            DefinitionKind::Assignment { value: Some(targets) } => if targets@.len() == 0 || fuel
                == 0 {
                None
            } else {
                resolved_alias(p, targets@[0] as int, (fuel - 1) as nat)
            },
        }
    } else {
        None
    }
}

/// The class that the definition at position `d` stands for: the first class
/// of its module, in source order, whose range is that of the definition
/// `d` is an alias of.
pub open spec fn class_of(p: &Project, d: int) -> Option<StmtClassDef> {
    match resolved_alias(p, d, p.definitions@.len()) {
        Some(r) => {
            let def = p.definitions@[r];
            if def.file.index < p.modules@.len() {
                let module = p.modules@[def.file.index as int];
                let classes = collect_module(module.body@).classes;
                found_class(classes, def.range, classes.len())
            } else {
                None
            }
        },
        None => None,
    }
}

/// The exception class that the definition at position `d` stands for, with
/// its bases resolved in turn, at most `fuel` levels deep.
pub open spec fn exception_of(p: &Project, d: int, fuel: nat) -> Option<ExceptionView>
    decreases fuel, 2nat, 0nat,
{
    match class_of(p, d) {
        Some(cls) => Some(
            ExceptionView {
                name: cls.name@,
                bases: bases_of(p, cls.bases@, cls.bases@.len(), fuel),
            },
        ),
        None => None,
    }
}

/// The exception classes that the first `n` of the base expressions
/// `bases` stand for, in order: every class that a definition of a bare
/// name stands for.
pub open spec fn bases_of(p: &Project, bases: Seq<Expr>, n: nat, fuel: nat) -> Seq<ExceptionView>
    decreases fuel, 1nat, n,
{
    if n == 0 || n > bases.len() {
        Seq::empty()
    } else {
        let rest = bases_of(p, bases, (n - 1) as nat, fuel);
        match bases[n - 1] {
            Expr::Name(name) => rest + exceptions_of(
                p,
                name.definitions@,
                name.definitions@.len(),
                fuel,
            ),
            _ => rest,
        }
    }
}

/// The exception classes that the first `n` of the definitions at the
/// positions `defs` stand for, in order.
pub open spec fn exceptions_of(p: &Project, defs: Seq<usize>, n: nat, fuel: nat) -> Seq<
    ExceptionView,
>
    decreases fuel, 0nat, n,
{
    if n == 0 || n > defs.len() {
        Seq::empty()
    } else {
        let rest = exceptions_of(p, defs, (n - 1) as nat, fuel);
        if fuel == 0 {
            rest
        } else {
            match exception_of(p, defs[n - 1] as int, (fuel - 1) as nat) {
                Some(e) => rest.push(e),
                None => rest,
            }
        }
    }
}

/// The exception class of the definition at position `d`, resolved as deep
/// as the project has definitions.
pub open spec fn exception_for(p: &Project, d: int) -> Option<ExceptionView> {
    exception_of(p, d, p.definitions@.len())
}

/// The exception class of the first definition among `defs`, from position
/// `from` on, that stands for one.
pub open spec fn first_exception(p: &Project, defs: Seq<usize>, from: nat) -> Option<
    ExceptionView,
>
    decreases defs.len() - from,
{
    if from >= defs.len() {
        None
    } else {
        match exception_for(p, defs[from as int] as int) {
            Some(e) => Some(e),
            None => first_exception(p, defs, from + 1),
        }
    }
}

/// The exception class that the expression `expr` names: that of the first
/// definition of a name or attribute that stands for one.
pub open spec fn exception_named(p: &Project, expr: Expr) -> Option<ExceptionView> {
    match expr {
        Expr::Name(name) => first_exception(p, name.definitions@, 0),
        Expr::Attribute(attr) => first_exception(p, attr.definitions@, 0),
        _ => None,
    }
}

/// The classes that the first `n` elements of a tuple of handler types
/// name: those of the bare names among them.
pub open spec fn caught_among(p: &Project, elts: Seq<Expr>, n: nat) -> Seq<ExceptionView>
    decreases n,
{
    if n == 0 || n > elts.len() {
        Seq::empty()
    } else {
        let rest = caught_among(p, elts, (n - 1) as nat);
        match elts[n - 1] {
            Expr::Name(_) => match exception_named(p, elts[n - 1]) {
                Some(e) => rest.push(e),
                None => rest,
            },
            _ => rest,
        }
    }
}

/// The classes that `handler` catches: the root of the hierarchy where it
/// names no type, the class of a bare name, or the classes of the bare names
/// in a tuple. A type that does not resolve catches nothing.
pub open spec fn caught_by(p: &Project, handler: ExceptHandler) -> Seq<ExceptionView> {
    match handler.type_ {
        None => seq![root()],
        Some(Expr::Name(name)) => match exception_named(p, Expr::Name(name)) {
            Some(e) => seq![e],
            None => Seq::empty(),
        },
        Some(Expr::Tuple(tuple)) => caught_among(p, tuple.elts@, tuple.elts@.len()),
        Some(_) => Seq::empty(),
    }
}

/// Follows the chain of assignments from the definition at position `d`,
/// over at most `fuel` of them.
pub fn resolve_alias(p: &Project, d: usize, fuel: usize) -> (r: Option<usize>)
    ensures
        r is Some == resolved_alias(p, d as int, fuel as nat) is Some,
        r matches Some(t) ==> resolved_alias(p, d as int, fuel as nat) == Some(t as int)
            && t < p.definitions@.len(),
    decreases fuel,
{
    match p.definition(d) {
        Some(def) => match &def.kind {
            DefinitionKind::Other => Some(d),
            DefinitionKind::Assignment { value: None } => None,
            DefinitionKind::Assignment { value: Some(targets) } => {
                if targets.len() == 0 || fuel == 0 {
                    None
                } else {
                    resolve_alias(p, targets[0], fuel - 1)
                }
            },
        },
        None => None,
    }
}

/// The class that the definition at position `d` stands for.
pub fn find_class_of<'a>(p: &'a Project, d: usize) -> (r: Option<&'a StmtClassDef>)
    ensures
        match r {
            Some(c) => class_of(p, d as int) == Some(*c),
            None => class_of(p, d as int).is_none(),
        },
{
    match resolve_alias(p, d, p.definitions.len()) {
        Some(t) => {
            let def = &p.definitions[t];
            match p.module(def.file) {
                Some(module) => {
                    let mut collector = ModuleCollector::new();
                    collector.init(&module.body);
                    collector.find_class(&def.range)
                },
                None => None,
            }
        },
        None => None,
    }
}

/// The exception class of the definition at position `d`, its bases
/// resolved at most `fuel` levels deep.
pub fn extract_exception_within(p: &Project, d: usize, fuel: usize) -> (r: Option<Exception>)
    ensures
        match r {
            Some(e) => exception_of(p, d as int, fuel as nat) == Some(e@),
            None => exception_of(p, d as int, fuel as nat).is_none(),
        },
    decreases fuel, 2nat, 0nat,
{
    match find_class_of(p, d) {
        Some(cls) => {
            let bases = extract_bases(p, &cls.bases, fuel);
            let e = Exception::new(cls.name.clone(), bases);
            Some(e)
        },
        None => None,
    }
}

/// The exception classes of the base expressions `bases`.
fn extract_bases(p: &Project, bases: &Vec<Expr>, fuel: usize) -> (r: Vec<Exception>)
    ensures
        views(r@) == bases_of(p, bases@, bases@.len(), fuel as nat),
    decreases fuel, 1nat, bases@.len(),
{
    let mut found: Vec<Exception> = Vec::new();
    let mut i: usize = 0;
    assert(views(found@) =~= Seq::empty());
    while i < bases.len()
        invariant
            i <= bases.len(),
            views(found@) == bases_of(p, bases@, i as nat, fuel as nat),
        decreases bases.len() - i,
    {
        match &bases[i] {
            Expr::Name(name) => {
                let ghost before = found@;
                let mut more = extract_all(p, &name.definitions, fuel);
                let ghost added = more@;
                found.append(&mut more);
                assert(views(found@) =~= views(before) + views(added));
            },
            _ => {},
        }
        i += 1;
    }
    found
}

/// The exception classes of the definitions at the positions `defs`.
fn extract_all(p: &Project, defs: &Vec<usize>, fuel: usize) -> (r: Vec<Exception>)
    ensures
        views(r@) == exceptions_of(p, defs@, defs@.len(), fuel as nat),
    decreases fuel, 0nat, defs@.len(),
{
    let mut found: Vec<Exception> = Vec::new();
    let mut i: usize = 0;
    assert(views(found@) =~= Seq::empty());
    while i < defs.len()
        invariant
            i <= defs.len(),
            views(found@) == exceptions_of(p, defs@, i as nat, fuel as nat),
        decreases defs.len() - i,
    {
        if fuel != 0 {
            let ghost before = found@;
            match extract_exception_within(p, defs[i], fuel - 1) {
                Some(e) => {
                    found.push(e);
                    assert(views(found@) =~= views(before).push(e@));
                },
                None => {},
            }
        }
        i += 1;
    }
    found
}

/// The exception class that the definition at position `definition` stands
/// for, if it stands for a class: its name, and the classes that its base
/// names stand for.
pub fn extract_exception(p: &Project, definition: usize) -> (r: Option<Exception>)
    ensures
        match r {
            Some(e) => exception_for(p, definition as int) == Some(e@),
            None => exception_for(p, definition as int).is_none(),
        },
{
    extract_exception_within(p, definition, p.definitions.len())
}

/// The exception class of the first definition among `defs` that stands for
/// one.
pub fn extract_first(p: &Project, defs: &Vec<usize>) -> (r: Option<Exception>)
    ensures
        match r {
            Some(e) => first_exception(p, defs@, 0) == Some(e@),
            None => first_exception(p, defs@, 0).is_none(),
        },
{
    let mut i: usize = 0;
    while i < defs.len()
        invariant
            i <= defs.len(),
            first_exception(p, defs@, 0) == first_exception(p, defs@, i as nat),
        decreases defs.len() - i,
    {
        match extract_exception(p, defs[i]) {
            Some(e) => {
                return Some(e);
            },
            None => {},
        }
        i += 1;
    }
    None
}

/// The exception class that `expr` names, if it is a name or an attribute
/// that resolves to one.
pub fn try_extract_exception_from_expr(p: &Project, expr: &Expr) -> (r: Option<Exception>)
    ensures
        match r {
            Some(e) => exception_named(p, *expr) == Some(e@),
            None => exception_named(p, *expr).is_none(),
        },
{
    match expr {
        Expr::Name(name) => extract_first(p, &name.definitions),
        Expr::Attribute(attr) => extract_first(p, &attr.definitions),
        _ => None,
    }
}

/// The classes that `handler` catches.
pub fn extract_caught_exceptions(p: &Project, handler: &ExceptHandler) -> (r: Vec<Exception>)
    ensures
        views(r@) == caught_by(p, *handler),
{
    let mut caught: Vec<Exception> = Vec::new();
    assert(views(caught@) =~= Seq::empty());
    match &handler.type_ {
        None => {
            let e = Exception::base_exception();
            caught.push(e);
            assert(views(caught@) =~= seq![root()]);
        },
        Some(Expr::Name(name)) => {
            match extract_first(p, &name.definitions) {
                Some(e) => {
                    caught.push(e);
                    assert(views(caught@) =~= seq![e@]);
                },
                None => {},
            }
        },
        Some(Expr::Tuple(tuple)) => {
            let mut i: usize = 0;
            while i < tuple.elts.len()
                invariant
                    i <= tuple.elts.len(),
                    views(caught@) == caught_among(p, tuple.elts@, i as nat),
                decreases tuple.elts.len() - i,
            {
                let ghost before = caught@;
                match &tuple.elts[i] {
                    Expr::Name(name) => {
                        match extract_first(p, &name.definitions) {
                            Some(e) => {
                                caught.push(e);
                                assert(views(caught@) =~= views(before).push(e@));
                            },
                            None => {},
                        }
                    },
                    _ => {},
                }
                i += 1;
            }
        },
        Some(_) => {},
    }
    caught
}

/// What a call at `expr_range` in `expr_file` of the definition at position
/// `definition` lets escape: the reported records of every function body
/// that the definition stands for, each analysed with its own frame on
/// `call_stack` and lifted through the call. Behind a definition that has
/// no frame of its own, a body whose frame is on the stack already is left
/// out.
pub fn extract_errors(
    p: &Project,
    expr_file: FileId,
    expr_range: TextRange,
    definition: usize,
    target_exceptions: &Vec<Exception>,
    call_stack: CallStack,
    exception_capture_stack: &ExceptionCaptureStack,
) -> (r: Vec<FunctionRaise>)
    ensures
        raise_views(r@) == extracted(
            p,
            expr_file,
            expr_range,
            definition as int,
            views(target_exceptions@),
            call_stack@,
            exception_capture_stack@,
        ),
        all_sound(
            views(target_exceptions@),
            extracted_depth(p, call_stack@, definition as int),
            raise_views(r@),
        ),
        all_sound(views(target_exceptions@), room(call_stack@), raise_views(r@)),
    decreases p.unvisited(call_stack@), if only_fresh(p, definition as int) {
        1nat
    } else {
        7nat
    }, no_node(), 0nat,
{
    let ghost targets = views(target_exceptions@);
    let ghost limit = room(call_stack@);
    proof {
        call_stack.lemma_fits();
        lemma_extracted_sound(
            p,
            expr_file,
            expr_range,
            definition as int,
            targets,
            call_stack@,
            exception_capture_stack@,
        );
    }
    let mut errors: Vec<FunctionRaise> = Vec::new();
    assert(raise_views(errors@) =~= Seq::empty());
    assert(lifted_all(Seq::empty(), expr_file, expr_range) =~= Seq::empty());
    let resolved = resolve_alias(p, definition, p.definitions.len());
    if resolved.is_none() {
        return errors;
    }
    let def = &p.definitions[resolved.unwrap()];
    let fresh = p.frame(definition).is_none();
    let found = p.module(def.file);
    if found.is_none() {
        return errors;
    }
    let module = found.unwrap();
    let mut collector = ModuleCollector::new();
    collector.init(&module.body);
    let bodies = collector.find_functions(&def.range);
    assert(derefs(bodies@) == bodies_of(p, def.file, def.range));
    let mut i: usize = 0;
    while i < bodies.len()
        invariant
            i <= bodies.len(),
            call_stack@.len() <= usize::MAX,
            limit == room(call_stack@),
            def.file.index < p.modules@.len(),
            *module == p.modules@[def.file.index as int],
            derefs(bodies@) == bodies_of(p, def.file, def.range),
            targets == views(target_exceptions@),
            fresh == only_fresh(p, definition as int),
            raise_views(errors@) == lifted_all(
                bodies_raises(
                    p,
                    def.file,
                    def.range,
                    targets,
                    call_stack@,
                    exception_capture_stack@,
                    fresh,
                    i as nat,
                ),
                expr_file,
                expr_range,
            ),
            all_sound(targets, limit, raise_views(errors@)),
        decreases bodies.len() - i,
    {
        let func = bodies[i];
        assert(derefs(bodies@)[i as int] == *func);
        let frame = (module.path.clone(), func.name.clone());
        if !(fresh && call_stack.contains(&frame)) {
            let new_stack = call_stack.push(frame);
            proof {
                new_stack.lemma_fits();
                if fresh {
                    let units = collect_module(module.body@).functions;
                    lemma_found_are_listed(units, def.range, units.len());
                    p.lemma_body_decreases(call_stack@, def.file, *func);
                } else {
                    p.lemma_frame_keeps(call_stack@, body_frame(p, def.file, *func));
                }
            }
            let reported = get_transitive_errors(
                p,
                def.file,
                func,
                target_exceptions,
                new_stack,
                exception_capture_stack,
            );
            let ghost before = raise_views(errors@);
            let ghost done = bodies_raises(
                p,
                def.file,
                def.range,
                targets,
                call_stack@,
                exception_capture_stack@,
                fresh,
                i as nat,
            );
            let mut k: usize = 0;
            while k < reported.len()
                invariant
                    k <= reported.len(),
                    0 < limit <= usize::MAX,
                    all_sound(targets, (limit - 1) as nat, raise_views(reported@)),
                    all_sound(targets, limit, raise_views(errors@)),
                    raise_views(errors@) == before + lifted_all(
                        raise_views(reported@).take(k as int),
                        expr_file,
                        expr_range,
                    ),
                decreases reported.len() - k,
            {
                let ghost so_far = raise_views(errors@);
                assert(raise_views(reported@)[k as int] == reported@[k as int]@);
                assert(sound(targets, (limit - 1) as nat, raise_views(reported@)[k as int]));
                let lifted = reported[k].transitive(expr_file, expr_range);
                errors.push(lifted);
                proof {
                    assert(raise_views(errors@) =~= so_far.push(lifted@));
                    assert(raise_views(reported@).take(k + 1) =~= raise_views(reported@).take(
                        k as int,
                    ).push(reported@[k as int]@));
                    assert(lifted_all(raise_views(reported@).take(k + 1), expr_file, expr_range)
                        =~= lifted_all(
                        raise_views(reported@).take(k as int),
                        expr_file,
                        expr_range,
                    ).push(lifted@));
                    assert(raise_views(errors@) =~= before + lifted_all(
                        raise_views(reported@).take(k + 1),
                        expr_file,
                        expr_range,
                    ));
                    assert forall|j: int| 0 <= j < raise_views(errors@).len() implies sound(
                        targets,
                        limit,
                        #[trigger] raise_views(errors@)[j],
                    ) by {
                        if j < so_far.len() {
                            assert(raise_views(errors@)[j] == so_far[j]);
                        }
                    }
                }
                k += 1;
            }
            proof {
                assert(raise_views(reported@).take(reported@.len() as int) =~= raise_views(
                    reported@,
                ));
                assert(lifted_all(done + raise_views(reported@), expr_file, expr_range)
                    =~= lifted_all(done, expr_file, expr_range) + lifted_all(
                    raise_views(reported@),
                    expr_file,
                    expr_range,
                ));
            }
        }
        i += 1;
    }
    errors
}

} // verus!
