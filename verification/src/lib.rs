//! Static analysis of undocumented exceptions: for every function of a
//! project, which exception classes may escape it, and how that set differs
//! from what its docstring declares.

use vstd::prelude::*;

pub mod args;
pub mod ast;
pub mod call_stack;
pub mod capture_stack;
pub mod diagnostic;
pub mod docstring;
pub mod exception;
pub mod extract;
pub mod module;
pub mod project;
pub mod raise;
pub mod report;
pub mod semantics;
pub mod soundness;
pub mod text;
pub mod visitor;

pub use args::OutputFormat;
pub use docstring::compare_documented_exceptions;
pub use exception::Exception;
pub use extract::extract_exception;

use crate::ast::StmtFunctionDef;
use crate::call_stack::{CallStack, Frame};
use crate::capture_stack::{CaptureView, ExceptionCaptureStack};
use crate::diagnostic::{
    by_place, diagnostic_views, sort_by_place, Diagnostic, DiagnosticView, Lint,
};
use crate::docstring::{
    docstring_of, documented, lemma_raise_diagnostics, lemma_reconciled, reconciled,
};
use crate::exception::{views, ExceptionView};
use crate::extract::{extract_first, first_exception};
use crate::module::{collect_module, derefs, listed_functions, ModuleCollector};
use crate::project::{GlobalSymbol, Module, Project};
use crate::semantics::{function_raises, passes};
use crate::soundness::lemma_function_sound;
use crate::text::FileId;
use crate::visitor::get_transitive_errors;

verus! {

/// The capture stack of code that no `try` block and no handler encloses.
pub open spec fn no_capture() -> CaptureView {
    CaptureView { try_captures: Seq::empty(), handler_captures: Seq::empty() }
}

/// The diagnostics for the function `func` of `file`, analysed on its own:
/// what it may raise, held against its docstring.
pub open spec fn function_diagnostics(
    p: &Project,
    file: FileId,
    targets: Seq<ExceptionView>,
    func: StmtFunctionDef,
) -> Seq<DiagnosticView> {
    reconciled(
        file,
        func.body@,
        function_raises(p, file, func, targets, Seq::<Frame>::empty(), no_capture()),
    )
}

/// A function is reported to raise only what is of interest: every
/// diagnostic of the rule `raise` is that of a record reported for the
/// function, about an exception that passes the targets. So with targets,
/// what is no subclass of any of them gives no such diagnostic.
pub proof fn lemma_raise_diagnostics_of_interest(
    p: &Project,
    file: FileId,
    targets: Seq<ExceptionView>,
    func: StmtFunctionDef,
)
    ensures
        forall|i: int|
            0 <= i < function_diagnostics(p, file, targets, func).len() && (
            #[trigger] function_diagnostics(p, file, targets, func)[i]).lint == Lint::Raise
                ==> exists|k: int|
                0 <= k < function_raises(
                    p,
                    file,
                    func,
                    targets,
                    Seq::<Frame>::empty(),
                    no_capture(),
                ).len() && function_diagnostics(p, file, targets, func)[i] == function_raises(
                    p,
                    file,
                    func,
                    targets,
                    Seq::<Frame>::empty(),
                    no_capture(),
                )[k].diagnostic() && passes(
                    targets,
                    function_raises(
                        p,
                        file,
                        func,
                        targets,
                        Seq::<Frame>::empty(),
                        no_capture(),
                    )[k].exception(),
                ),
{
    let errors = function_raises(p, file, func, targets, Seq::<Frame>::empty(), no_capture());
    let all = function_diagnostics(p, file, targets, func);
    lemma_function_sound(p, file, func, targets, Seq::<Frame>::empty(), no_capture());
    let docs = match docstring_of(func.body@) {
        Some((text, start)) => documented(text, start),
        None => None,
    };
    match docs {
        Some(docs) => {
            lemma_reconciled(file, func.body@, errors, docs);
        },
        None => {
            lemma_raise_diagnostics(errors, errors.len());
        },
    }
    assert forall|i: int| 0 <= i < all.len() && (#[trigger] all[i]).lint == Lint::Raise implies exists|
        k: int,
    |
        0 <= k < errors.len() && all[i] == errors[k].diagnostic() && passes(
            targets,
            errors[k].exception(),
        ) by {
        if docs is Some {
            let k = choose|k: int| 0 <= k < errors.len() && all[i] == errors[k].diagnostic();
            assert(passes(targets, errors[k].exception()));
        } else {
            assert(all[i] == errors[i].diagnostic());
            assert(passes(targets, errors[i].exception()));
        }
    }
}

/// The diagnostics for the first `n` of the functions `funcs` of `file`.
pub open spec fn functions_diagnostics(
    p: &Project,
    file: FileId,
    targets: Seq<ExceptionView>,
    funcs: Seq<StmtFunctionDef>,
    n: nat,
) -> Seq<DiagnosticView>
    decreases n,
{
    if n == 0 || n > funcs.len() {
        Seq::empty()
    } else {
        functions_diagnostics(p, file, targets, funcs, (n - 1) as nat) + function_diagnostics(
            p,
            file,
            targets,
            funcs[n - 1],
        )
    }
}

/// The diagnostics for `file`: those of every function that the walk over
/// the module lists, in that order. A file that the project does not have
/// gives none.
pub open spec fn file_diagnostics(p: &Project, file: FileId, targets: Seq<ExceptionView>) -> Seq<
    DiagnosticView,
> {
    if file.index < p.modules@.len() {
        let units = collect_module(p.modules@[file.index as int].body@).functions;
        let funcs = listed_functions(units, units.len());
        functions_diagnostics(p, file, targets, funcs, funcs.len())
    } else {
        Seq::empty()
    }
}

/// The diagnostics for the included files among the first `n` modules.
pub open spec fn project_diagnostics(p: &Project, targets: Seq<ExceptionView>, n: nat) -> Seq<
    DiagnosticView,
>
    decreases n,
{
    if n == 0 || n > p.modules@.len() {
        Seq::empty()
    } else {
        let rest = project_diagnostics(p, targets, (n - 1) as nat);
        if p.modules@[n - 1].included {
            rest + file_diagnostics(p, FileId { index: (n - 1) as usize }, targets)
        } else {
            rest
        }
    }
}

/// Puts the diagnostics of `more` behind those of `acc`.
fn append_diagnostics(acc: &mut Vec<Diagnostic>, more: Vec<Diagnostic>)
    ensures
        diagnostic_views(final(acc)@) == diagnostic_views(old(acc)@) + diagnostic_views(more@),
{
    let ghost before = acc@;
    let mut more = more;
    let ghost added = more@;
    acc.append(&mut more);
    assert(diagnostic_views(acc@) =~= diagnostic_views(before) + diagnostic_views(added));
}

/// Analyses every function of `file` and holds what each may raise against
/// its docstring.
pub fn analyze_file(project: &Project, file: FileId, target_exceptions: &Vec<Exception>) -> (r:
    Vec<Diagnostic>)
    ensures
        diagnostic_views(r@) == file_diagnostics(project, file, views(target_exceptions@)),
{
    let mut out: Vec<Diagnostic> = Vec::new();
    assert(diagnostic_views(out@) =~= Seq::empty());
    let module = match project.module(file) {
        Some(module) => module,
        None => {
            return out;
        },
    };
    let mut module_collector = ModuleCollector::new();
    module_collector.init(&module.body);
    let funcs = module_collector.list_functions();
    let mut i: usize = 0;
    while i < funcs.len()
        invariant
            i <= funcs.len(),
            diagnostic_views(out@) == functions_diagnostics(
                project,
                file,
                views(target_exceptions@),
                derefs(funcs@),
                i as nat,
            ),
        decreases funcs.len() - i,
    {
        let func_def = funcs[i];
        assert(derefs(funcs@)[i as int] == *func_def);
        let capture = ExceptionCaptureStack::new();
        assert(capture@ == no_capture());
        let errors = get_transitive_errors(
            project,
            file,
            func_def,
            target_exceptions,
            CallStack::new(),
            &capture,
        );
        let diagnostics = compare_documented_exceptions(file, &func_def.body, &errors);
        append_diagnostics(&mut out, diagnostics);
        i += 1;
    }
    out
}

/// Analyses every included file of the project, in the order of its
/// modules.
pub fn analyze_project(project: &Project, target_exceptions: &Vec<Exception>) -> (r: Vec<
    Diagnostic,
>)
    ensures
        diagnostic_views(r@) == project_diagnostics(
            project,
            views(target_exceptions@),
            project.modules@.len(),
        ),
{
    let mut out: Vec<Diagnostic> = Vec::new();
    assert(diagnostic_views(out@) =~= Seq::empty());
    let mut i: usize = 0;
    while i < project.modules.len()
        invariant
            i <= project.modules.len(),
            diagnostic_views(out@) == project_diagnostics(
                project,
                views(target_exceptions@),
                i as nat,
            ),
        decreases project.modules.len() - i,
    {
        if project.modules[i].included {
            let diagnostics = analyze_file(project, FileId::new(i), target_exceptions);
            append_diagnostics(&mut out, diagnostics);
        }
        i += 1;
    }
    out
}

/// Checks the project: the diagnostics of every included file, in the order
/// in which they are shown, by file and then by where they begin.
pub fn check(project: &Project, target_exceptions: &Vec<Exception>) -> (r: Vec<Diagnostic>)
    ensures
        diagnostic_views(r@).to_multiset() == project_diagnostics(
            project,
            views(target_exceptions@),
            project.modules@.len(),
        ).to_multiset(),
        by_place(diagnostic_views(r@)),
{
    sort_by_place(analyze_project(project, target_exceptions))
}

/// The position of the last dot among the first `n` characters of `path`.
pub open spec fn last_dot(path: Seq<char>, n: nat) -> Option<nat>
    decreases n,
{
    if n == 0 || n > path.len() {
        None
    } else if path[n - 1] == '.' {
        Some((n - 1) as nat)
    } else {
        last_dot(path, (n - 1) as nat)
    }
}

/// The position of the first module from `k` on whose dotted name is
/// `name`.
pub open spec fn module_named(p: &Project, name: Seq<char>, k: nat) -> Option<nat>
    decreases p.modules@.len() - k,
{
    if k >= p.modules@.len() {
        None
    } else if p.modules@[k as int].name@ == name {
        Some(k)
    } else {
        module_named(p, name, k + 1)
    }
}

/// The definitions of the first global from `k` on that is called `name`.
pub open spec fn global_named(globals: Seq<GlobalSymbol>, name: Seq<char>, k: nat) -> Option<
    Seq<usize>,
>
    decreases globals.len() - k,
{
    if k >= globals.len() {
        None
    } else if globals[k as int].name@ == name {
        Some(globals[k as int].definitions@)
    } else {
        global_named(globals, name, k + 1)
    }
}

/// The exception class that the dotted path `path` names: what stands
/// before its last dot names a module, what stands behind it a global of
/// that module, and the class is that of the first definition of the global
/// that stands for one. A path without a dot names nothing.
pub open spec fn target_exception(p: &Project, path: Seq<char>) -> Option<ExceptionView> {
    match last_dot(path, path.len()) {
        Some(dot) => match module_named(p, path.subrange(0, dot as int), 0) {
            Some(m) => match global_named(
                p.modules@[m as int].globals@,
                path.subrange(dot as int + 1, path.len() as int),
                0,
            ) {
                Some(defs) => first_exception(p, defs, 0),
                None => None,
            },
            None => None,
        },
        None => None,
    }
}

/// The position of the last dot of `path`.
fn find_last_dot(path: &str) -> (r: Option<usize>)
    ensures
        match r {
            Some(dot) => last_dot(path@, path@.len()) == Some(dot as nat) && dot < path@.len(),
            None => last_dot(path@, path@.len()).is_none(),
        },
{
    let n = path.unicode_len();
    let mut k: usize = n;
    while k > 0
        invariant
            k <= n,
            n == path@.len(),
            last_dot(path@, path@.len()) == last_dot(path@, k as nat),
        decreases k,
    {
        if path.get_char(k - 1) == '.' {
            return Some(k - 1);
        }
        k -= 1;
    }
    None
}

/// The first module whose dotted name is `name`.
fn find_module<'a>(project: &'a Project, name: &String) -> (r: Option<&'a Module>)
    ensures
        match r {
            Some(m) => match module_named(project, name@, 0) {
                Some(k) => k < project.modules@.len() && *m == project.modules@[k as int],
                None => false,
            },
            None => module_named(project, name@, 0).is_none(),
        },
{
    let mut k: usize = 0;
    while k < project.modules.len()
        invariant
            k <= project.modules.len(),
            module_named(project, name@, 0) == module_named(project, name@, k as nat),
        decreases project.modules.len() - k,
    {
        if project.modules[k].name == *name {
            return Some(&project.modules[k]);
        }
        k += 1;
    }
    None
}

/// The definitions of the first global of `module` that is called `name`.
fn find_global<'a>(module: &'a Module, name: &String) -> (r: Option<&'a Vec<usize>>)
    ensures
        match r {
            Some(defs) => global_named(module.globals@, name@, 0) == Some(defs@),
            None => global_named(module.globals@, name@, 0).is_none(),
        },
{
    let mut k: usize = 0;
    while k < module.globals.len()
        invariant
            k <= module.globals.len(),
            global_named(module.globals@, name@, 0) == global_named(
                module.globals@,
                name@,
                k as nat,
            ),
        decreases module.globals.len() - k,
    {
        if module.globals[k].name == *name {
            return Some(&module.globals[k].definitions);
        }
        k += 1;
    }
    None
}

/// The exception class that `path` names in the form
/// `full.module.path.ClassName`, if the module, the name and the class can
/// be found.
pub fn resolve_absolute_module_path(project: &Project, path: &str) -> (r: Option<Exception>)
    ensures
        match r {
            Some(e) => target_exception(project, path@) == Some(e@),
            None => target_exception(project, path@).is_none(),
        },
{
    let dot = match find_last_dot(path) {
        Some(dot) => dot,
        None => {
            return None;
        },
    };
    let n = path.unicode_len();
    let module_name = path.substring_char(0, dot).to_owned();
    let exception_name = path.substring_char(dot + 1, n).to_owned();
    let module = match find_module(project, &module_name) {
        Some(module) => module,
        None => {
            return None;
        },
    };
    match find_global(module, &exception_name) {
        Some(defs) => extract_first(project, defs),
        None => None,
    }
}

} // verus!
