use py_checked_exceptions::ast::{
    Child, ExceptHandler, Expr, ExprCall, ExprName, ExprOther, ExprStringLiteral, ExprTuple, Stmt,
    StmtClassDef, StmtExpr, StmtFunctionDef, StmtOther, StmtRaise, StmtTry,
};
use py_checked_exceptions::call_stack::CallStack;
use py_checked_exceptions::capture_stack::ExceptionCaptureStack;
use py_checked_exceptions::diagnostic::Span;
use py_checked_exceptions::extract::extract_errors;
use py_checked_exceptions::project::{Definition, DefinitionKind, Module, Project};
use py_checked_exceptions::raise::FunctionRaise;
use py_checked_exceptions::text::{FileId, TextRange};
use py_checked_exceptions::visitor::get_transitive_errors;
use py_checked_exceptions::{analyze_file, analyze_project, check, Exception};

const BASE: usize = 0;
const CHILD: usize = 1;
const OTHER: usize = 2;
const ROOT: usize = 3;

fn at(line: u32) -> TextRange {
    TextRange::new(line * 10, line * 10 + 9)
}

fn name(id: &str, definitions: Vec<usize>) -> Expr {
    Expr::Name(ExprName { id: id.to_string(), range: TextRange::new(0, 0), definitions })
}

fn class(id: &str, definition: usize, bases: Vec<Expr>) -> Stmt {
    Stmt::ClassDef(StmtClassDef {
        name: id.to_string(),
        range: at(900 + definition as u32),
        decorators: vec![],
        type_params: vec![],
        bases,
        keywords: vec![],
        body: vec![],
    })
}

fn function(id: &str, line: u32, body: Vec<Stmt>) -> Stmt {
    decorated(id, line, vec![], body)
}

fn decorated(id: &str, line: u32, decorators: Vec<Expr>, body: Vec<Stmt>) -> Stmt {
    Stmt::FunctionDef(StmtFunctionDef {
        name: id.to_string(),
        range: at(line),
        decorators,
        header: vec![],
        body,
    })
}

fn call(line: u32, callee: &str, definitions: Vec<usize>, arguments: Vec<Expr>) -> Expr {
    Expr::Call(ExprCall { func: Box::new(name(callee, definitions)), arguments, range: at(line) })
}

fn call_stmt(line: u32, callee: &str, definitions: Vec<usize>) -> Stmt {
    Stmt::Expr(StmtExpr { value: call(line, callee, definitions, vec![]), range: at(line) })
}

fn raise(line: u32, exc: Option<Expr>, cause: Option<Expr>) -> Stmt {
    Stmt::Raise(StmtRaise { exc, cause, range: at(line) })
}

/// `raise Class()`, where the class is itself no callee of interest.
fn raise_class(line: u32, id: &str, definition: usize) -> Stmt {
    raise(line, Some(call(0, id, vec![definition], vec![])), None)
}

fn try_(body: Vec<Stmt>, handlers: Vec<ExceptHandler>) -> Stmt {
    Stmt::Try(StmtTry { body, handlers, orelse: vec![], finalbody: vec![] })
}

fn except(type_: Option<Expr>, body: Vec<Stmt>) -> ExceptHandler {
    ExceptHandler { type_, body }
}

fn tuple(elts: Vec<Expr>) -> Expr {
    Expr::Tuple(ExprTuple { elts, range: TextRange::new(0, 0) })
}

fn base() -> Expr {
    name("Base", vec![BASE])
}

fn child() -> Expr {
    name("Child", vec![CHILD])
}

fn other() -> Expr {
    name("Other", vec![OTHER])
}

fn root() -> Expr {
    name("BaseException", vec![ROOT])
}

fn definition(file: usize, id: Option<&str>, range: TextRange) -> Definition {
    Definition {
        file: FileId::new(file),
        name: id.map(|id| id.to_string()),
        range,
        kind: DefinitionKind::Other,
    }
}

/// A project of an included module with the classes `Base`, `Child(Base)`,
/// `Other` and `BaseException` before `functions`, and of a module that is
/// not included; `definitions` come after those of the classes.
fn project(functions: Vec<Stmt>, library: Vec<Stmt>, definitions: Vec<Definition>) -> Project {
    let mut all = vec![
        definition(0, Some("Base"), at(900 + BASE as u32)),
        definition(0, Some("Child"), at(900 + CHILD as u32)),
        definition(0, Some("Other"), at(900 + OTHER as u32)),
        definition(0, Some("BaseException"), at(900 + ROOT as u32)),
    ];
    all.extend(definitions);
    let mut body = vec![
        class("Base", BASE, vec![]),
        class("Child", CHILD, vec![base()]),
        class("Other", OTHER, vec![]),
        class("BaseException", ROOT, vec![]),
    ];
    body.extend(functions);
    Project {
        modules: vec![
            Module {
                path: "/project/m.py".to_string(),
                name: "m".to_string(),
                included: true,
                globals: vec![],
                body,
            },
            Module {
                path: "/site/lib.py".to_string(),
                name: "lib".to_string(),
                included: false,
                globals: vec![],
                body: library,
            },
        ],
        definitions: all,
    }
}

fn function_at(project: &Project, index: usize) -> &StmtFunctionDef {
    match &project.modules[0].body[4 + index] {
        Stmt::FunctionDef(def) => def,
        _ => panic!("statement {index} is no function"),
    }
}

fn found(records: &[FunctionRaise]) -> Vec<(String, usize, u32)> {
    records.iter().map(|r| (r.group_key(), r.depth(), r.range().start() / 10)).collect()
}

/// What the function at position `index` of the included module raises,
/// analysed on its own.
fn raises_of(project: &Project, index: usize, targets: &Vec<Exception>) -> Vec<(String, usize, u32)> {
    found(&get_transitive_errors(
        project,
        FileId::new(0),
        function_at(project, index),
        targets,
        CallStack::new(),
        &ExceptionCaptureStack::new(),
    ))
}

fn raises(body: Vec<Stmt>) -> Vec<(String, usize, u32)> {
    let project = project(vec![function("f", 1, body)], vec![], vec![]);
    raises_of(&project, 0, &vec![])
}

fn record(id: &str, depth: usize, line: u32) -> (String, usize, u32) {
    (id.to_string(), depth, line)
}

#[test]
fn a_raise_of_a_class_is_recorded() {
    assert_eq!(raises(vec![raise_class(2, "Child", CHILD)]), vec![record("Child", 0, 2)]);
}

#[test]
fn a_raise_of_what_is_no_class_is_not_recorded() {
    assert!(raises(vec![raise_class(2, "missing", 99)]).is_empty());
    assert!(raises(vec![raise(2, Some(name("Child", vec![CHILD])), None)]).is_empty());
    assert!(raises(vec![raise(2, None, None)]).is_empty());
    let literal = Expr::StringLiteral(ExprStringLiteral {
        value: "Child".to_string(),
        range: TextRange::new(0, 0),
    });
    assert!(raises(vec![raise(2, Some(literal), None)]).is_empty());
}

#[test]
fn a_handler_catches_the_subclasses_of_its_class() {
    let body = vec![try_(
        vec![raise_class(2, "Child", CHILD), raise_class(3, "Other", OTHER)],
        vec![except(Some(base()), vec![])],
    )];
    assert_eq!(raises(body), vec![record("Other", 0, 3)]);
}

#[test]
fn a_handler_does_not_catch_the_superclass_of_its_class() {
    let body = vec![try_(vec![raise_class(2, "Base", BASE)], vec![except(Some(child()), vec![])])];
    assert_eq!(raises(body), vec![record("Base", 0, 2)]);
}

#[test]
fn a_handler_whose_type_does_not_resolve_catches_nothing() {
    let body = vec![try_(
        vec![raise_class(2, "Child", CHILD)],
        vec![except(Some(name("Missing", vec![])), vec![])],
    )];
    assert_eq!(raises(body), vec![record("Child", 0, 2)]);
}

#[test]
fn what_a_handler_raises_escapes_its_own_try() {
    let body = vec![try_(
        vec![raise_class(2, "Child", CHILD)],
        vec![except(Some(base()), vec![raise_class(4, "Child", CHILD)])],
    )];
    assert_eq!(raises(body), vec![record("Child", 0, 4)]);
}

#[test]
fn else_and_finally_are_not_guarded() {
    let body = vec![Stmt::Try(StmtTry {
        body: vec![],
        handlers: vec![except(None, vec![])],
        orelse: vec![raise_class(5, "Child", CHILD)],
        finalbody: vec![raise_class(7, "Other", OTHER)],
    })];
    assert_eq!(raises(body), vec![record("Child", 0, 5), record("Other", 0, 7)]);
}

#[test]
fn an_outer_try_catches_what_an_inner_one_lets_through() {
    let inner = try_(
        vec![raise_class(3, "Child", CHILD), raise_class(4, "Other", OTHER)],
        vec![except(Some(other()), vec![])],
    );
    assert_eq!(
        raises(vec![try_(vec![inner], vec![except(Some(base()), vec![])])]),
        Vec::<(String, usize, u32)>::new()
    );
}

#[test]
fn a_bare_raise_raises_what_the_handler_caught() {
    let body = vec![try_(
        vec![],
        vec![except(Some(tuple(vec![child(), other()])), vec![raise(4, None, None)])],
    )];
    assert_eq!(raises(body), vec![record("Child", 0, 4), record("Other", 0, 4)]);
}

#[test]
fn a_bare_raise_after_the_root_raises_what_the_body_raises() {
    let body = vec![try_(
        vec![
            raise_class(2, "Child", CHILD),
            raise_class(3, "Other", OTHER),
            raise_class(4, "Child", CHILD),
        ],
        vec![except(None, vec![raise(6, None, None)])],
    )];
    assert_eq!(raises(body), vec![record("Child", 0, 6), record("Other", 0, 6)]);
}

#[test]
fn the_root_decides_what_a_bare_raise_raises() {
    let body = vec![try_(
        vec![raise_class(2, "Other", OTHER)],
        vec![except(Some(tuple(vec![child(), root()])), vec![raise(4, None, None)])],
    )];
    assert_eq!(raises(body), vec![record("Other", 0, 4)]);
}

#[test]
fn a_raise_of_a_name_raises_what_the_handler_caught_but_the_root() {
    let body = vec![try_(
        vec![raise_class(2, "Other", OTHER)],
        vec![except(
            Some(tuple(vec![root(), child(), base()])),
            vec![raise(4, Some(name("e", vec![])), None)],
        )],
    )];
    assert_eq!(raises(body), vec![record("Base", 0, 4), record("Child", 0, 4)]);
}

#[test]
fn a_bare_raise_means_the_innermost_handler() {
    let inner = try_(vec![], vec![except(Some(other()), vec![raise(6, None, None)])]);
    let body = vec![try_(vec![], vec![except(Some(child()), vec![inner, raise(8, None, None)])])];
    assert_eq!(raises(body), vec![record("Child", 0, 8), record("Other", 0, 6)]);
}

#[test]
fn the_operands_of_a_raise_are_walked() {
    let project = project(
        vec![
            function(
                "f",
                1,
                vec![raise(
                    2,
                    Some(call(3, "Child", vec![CHILD], vec![call(4, "fail", vec![4], vec![])])),
                    Some(call(5, "fail_other", vec![5], vec![])),
                )],
            ),
            function("fail", 10, vec![raise_class(11, "Base", BASE)]),
            function("fail_other", 20, vec![raise_class(21, "Other", OTHER)]),
        ],
        vec![],
        vec![definition(0, Some("fail"), at(10)), definition(0, Some("fail_other"), at(20))],
    );
    assert_eq!(
        raises_of(&project, 0, &vec![]),
        vec![record("Base", 1, 4), record("Child", 0, 2), record("Other", 1, 5)]
    );
}

#[test]
fn only_exceptions_of_interest_are_recorded() {
    let project = project(
        vec![
            function(
                "f",
                1,
                vec![
                    raise_class(2, "Child", CHILD),
                    raise_class(3, "Other", OTHER),
                    call_stmt(4, "g", vec![4]),
                    try_(
                        vec![],
                        vec![except(Some(tuple(vec![other(), base()])), vec![raise(6, None, None)])],
                    ),
                ],
            ),
            function("g", 10, vec![raise_class(11, "Other", OTHER), raise_class(12, "Base", BASE)]),
        ],
        vec![],
        vec![definition(0, Some("g"), at(10))],
    );
    let targets = vec![Exception::new("Base".to_string(), vec![])];
    assert_eq!(raises_of(&project, 0, &targets), vec![record("Base", 0, 6), record("Child", 0, 2)]);
    let unrelated = vec![Exception::new("Unrelated".to_string(), vec![])];
    assert!(raises_of(&project, 0, &unrelated).is_empty());
    let either = vec![
        Exception::new("Unrelated".to_string(), vec![]),
        Exception::new("Other".to_string(), vec![]),
    ];
    assert_eq!(raises_of(&project, 0, &either), vec![record("Other", 0, 3)]);
}

#[test]
fn a_call_lets_through_what_the_callee_raises() {
    let project = project(
        vec![
            function("f", 1, vec![call_stmt(2, "g", vec![4])]),
            function("g", 10, vec![call_stmt(11, "h", vec![5]), raise_class(12, "Other", OTHER)]),
            function("h", 20, vec![raise_class(21, "Child", CHILD)]),
        ],
        vec![],
        vec![definition(0, Some("g"), at(10)), definition(0, Some("h"), at(20))],
    );
    assert_eq!(raises_of(&project, 0, &vec![]), vec![record("Child", 2, 2), record("Other", 1, 2)]);
    assert_eq!(raises_of(&project, 1, &vec![]), vec![record("Child", 1, 11), record("Other", 0, 12)]);
}

#[test]
fn a_call_is_guarded_by_the_try_around_it() {
    let project = project(
        vec![
            function(
                "f",
                1,
                vec![try_(vec![call_stmt(3, "g", vec![4])], vec![except(Some(base()), vec![])])],
            ),
            function("g", 10, vec![raise_class(11, "Child", CHILD), raise_class(12, "Other", OTHER)]),
        ],
        vec![],
        vec![definition(0, Some("g"), at(10))],
    );
    assert_eq!(raises_of(&project, 0, &vec![]), vec![record("Other", 1, 3)]);
}

#[test]
fn the_arguments_of_a_call_are_walked_after_the_call() {
    let project = project(
        vec![
            function(
                "f",
                1,
                vec![Stmt::Expr(StmtExpr {
                    value: call(2, "g", vec![4], vec![call(3, "h", vec![5], vec![])]),
                    range: at(2),
                })],
            ),
            function("g", 10, vec![raise_class(11, "Child", CHILD)]),
            function("h", 20, vec![raise_class(21, "Child", CHILD), raise_class(22, "Other", OTHER)]),
        ],
        vec![],
        vec![definition(0, Some("g"), at(10)), definition(0, Some("h"), at(20))],
    );
    assert_eq!(raises_of(&project, 0, &vec![]), vec![record("Child", 1, 2), record("Other", 1, 3)]);
}

#[test]
fn every_definition_of_the_callee_is_followed() {
    let project = project(
        vec![
            function("f", 1, vec![call_stmt(2, "g", vec![99, 5, 4])]),
            function("g", 10, vec![raise_class(11, "Child", CHILD)]),
            function("g", 20, vec![raise_class(21, "Other", OTHER)]),
        ],
        vec![],
        vec![definition(0, Some("g"), at(10)), definition(0, Some("g2"), at(20))],
    );
    assert_eq!(raises_of(&project, 0, &vec![]), vec![record("Child", 1, 2), record("Other", 1, 2)]);
}

#[test]
fn every_overload_is_analysed_when_the_function_is_called() {
    let overload = || vec![name("overload", vec![])];
    let project = project(
        vec![
            function("f", 1, vec![call_stmt(2, "g", vec![4])]),
            decorated("g", 10, overload(), vec![raise_class(11, "Child", CHILD)]),
            decorated("g", 20, overload(), vec![raise_class(21, "Other", OTHER)]),
            function("g", 30, vec![raise_class(31, "Base", BASE)]),
        ],
        vec![],
        vec![definition(0, Some("g"), at(30))],
    );
    assert_eq!(
        raises_of(&project, 0, &vec![]),
        vec![record("Base", 1, 2), record("Child", 1, 2), record("Other", 1, 2)]
    );
}

#[test]
fn a_call_into_a_file_that_is_not_included_is_not_followed() {
    let project = project(
        vec![function("f", 1, vec![call_stmt(2, "helper", vec![4, 5, 6])])],
        vec![function("helper", 10, vec![raise_class(11, "Child", CHILD)])],
        vec![
            definition(1, Some("helper"), at(10)),
            definition(7, Some("helper"), at(10)),
            definition(0, None, at(1)),
        ],
    );
    assert!(raises_of(&project, 0, &vec![]).is_empty());
}

#[test]
fn a_function_that_calls_itself_is_followed_once() {
    let project = project(
        vec![function(
            "f",
            1,
            vec![call_stmt(2, "f", vec![4]), raise_class(3, "Child", CHILD), call_stmt(4, "f", vec![4])],
        )],
        vec![],
        vec![definition(0, Some("f"), at(1))],
    );
    assert_eq!(raises_of(&project, 0, &vec![]), vec![record("Child", 0, 3)]);
    let errors = extract_errors(
        &project,
        FileId::new(0),
        at(50),
        4,
        &vec![],
        CallStack::new().push(("/project/m.py".to_string(), "f".to_string())),
        &ExceptionCaptureStack::new(),
    );
    assert_eq!(found(&errors), vec![record("Child", 1, 50)]);
}

#[test]
fn functions_that_call_each_other_are_each_followed_once() {
    let project = project(
        vec![
            function("f", 1, vec![call_stmt(2, "g", vec![5]), raise_class(3, "Child", CHILD)]),
            function("g", 10, vec![call_stmt(11, "f", vec![4]), raise_class(12, "Other", OTHER)]),
        ],
        vec![],
        vec![definition(0, Some("f"), at(1)), definition(0, Some("g"), at(10))],
    );
    assert_eq!(raises_of(&project, 0, &vec![]), vec![record("Child", 0, 3), record("Other", 1, 2)]);
    assert_eq!(raises_of(&project, 1, &vec![]), vec![record("Child", 1, 11), record("Other", 0, 12)]);
}

#[test]
fn a_callee_on_the_call_stack_is_not_followed() {
    let project = project(
        vec![
            function("f", 1, vec![call_stmt(2, "g", vec![4])]),
            function("g", 10, vec![raise_class(11, "Child", CHILD)]),
        ],
        vec![],
        vec![definition(0, Some("g"), at(10))],
    );
    let run = |stack: CallStack| {
        found(&get_transitive_errors(
            &project,
            FileId::new(0),
            function_at(&project, 0),
            &vec![],
            stack,
            &ExceptionCaptureStack::new(),
        ))
    };
    assert_eq!(run(CallStack::new()), vec![record("Child", 1, 2)]);
    let elsewhere = CallStack::new().push(("/site/lib.py".to_string(), "g".to_string()));
    assert_eq!(run(elsewhere), vec![record("Child", 1, 2)]);
    let under_way = CallStack::new().push(("/project/m.py".to_string(), "g".to_string()));
    assert!(run(under_way).is_empty());
}

#[test]
fn the_capture_stack_of_the_caller_guards_the_function() {
    let project = project(
        vec![
            function(
                "f",
                1,
                vec![
                    raise_class(2, "Child", CHILD),
                    raise_class(3, "Other", OTHER),
                    call_stmt(4, "g", vec![4]),
                    raise(5, None, None),
                ],
            ),
            function("g", 10, vec![raise_class(11, "Base", BASE)]),
        ],
        vec![],
        vec![definition(0, Some("g"), at(10))],
    );
    let base = Exception::new("Base".to_string(), vec![]);
    let capture = ExceptionCaptureStack::new()
        .push(vec![base.clone()])
        .push_handler_exceptions(vec![base]);
    let errors = get_transitive_errors(
        &project,
        FileId::new(0),
        function_at(&project, 0),
        &vec![],
        CallStack::new(),
        &capture,
    );
    assert_eq!(found(&errors), vec![record("Base", 0, 5), record("Other", 0, 3)]);
}

#[test]
fn what_nested_definitions_raise_counts_for_the_function_around_them() {
    let body = vec![
        function("inner", 2, vec![raise_class(3, "Child", CHILD)]),
        Stmt::ClassDef(StmtClassDef {
            name: "Local".to_string(),
            range: at(4),
            decorators: vec![],
            type_params: vec![],
            bases: vec![],
            keywords: vec![],
            body: vec![function("method", 5, vec![raise_class(6, "Other", OTHER)])],
        }),
        Stmt::Other(StmtOther {
            children: vec![
                Child::Expr(Expr::Other(ExprOther { children: vec![name("flag", vec![])] })),
                Child::Stmt(raise_class(8, "Base", BASE)),
            ],
        }),
    ];
    assert_eq!(
        raises(body),
        vec![record("Base", 0, 8), record("Child", 0, 3), record("Other", 0, 6)]
    );
}

#[test]
fn a_transitive_diagnostic_shows_the_chain_of_calls() {
    let project = project(
        vec![
            function("f", 1, vec![call_stmt(2, "g", vec![4])]),
            function("g", 10, vec![call_stmt(11, "h", vec![5])]),
            function(
                "h",
                20,
                vec![
                    Stmt::Expr(StmtExpr {
                        value: Expr::StringLiteral(ExprStringLiteral {
                            value: "\nRaises:\n    Child: always\n".to_string(),
                            range: at(21),
                        }),
                        range: at(21),
                    }),
                    raise_class(22, "Child", CHILD),
                ],
            ),
        ],
        vec![],
        vec![definition(0, Some("g"), at(10)), definition(0, Some("h"), at(20))],
    );
    let diagnostics = analyze_file(&project, FileId::new(0), &vec![]);
    assert_eq!(diagnostics.len(), 2);
    let file = FileId::new(0);
    assert_eq!(diagnostics[0].primary, Span { file, range: at(2) });
    assert_eq!(
        diagnostics[0].secondary,
        vec![Span { file, range: at(22) }, Span { file, range: at(11) }]
    );
    assert_eq!(diagnostics[1].primary, Span { file, range: at(11) });
    assert_eq!(diagnostics[1].secondary, vec![Span { file, range: at(22) }]);
}

#[test]
fn diagnostics_are_shown_in_the_order_of_the_text() {
    let documented = |line: u32| {
        Stmt::Expr(StmtExpr {
            value: Expr::StringLiteral(ExprStringLiteral {
                value: "\nRaises:\n    Other: never\n".to_string(),
                range: at(line),
            }),
            range: at(line),
        })
    };
    let project = project(
        vec![
            function("f", 30, vec![documented(31), raise_class(35, "Child", CHILD)]),
            function("g", 10, vec![documented(11), raise_class(15, "Child", CHILD)]),
        ],
        vec![],
        vec![],
    );
    let messages = |diagnostics: Vec<py_checked_exceptions::diagnostic::Diagnostic>| -> Vec<(u32, String)> {
        diagnostics.into_iter().map(|d| (d.primary.range.start(), d.message)).collect()
    };
    let raised = "Raises undocumented error Child".to_string();
    let extra = "Documents extra error that is never raised Other".to_string();
    assert_eq!(
        messages(analyze_project(&project, &vec![])),
        vec![(350, raised.clone()), (326, extra.clone()), (150, raised.clone()), (126, extra.clone())]
    );
    assert_eq!(
        messages(check(&project, &vec![])),
        vec![(126, extra.clone()), (150, raised.clone()), (326, extra), (350, raised)]
    );
}

#[test]
fn a_file_outside_the_project_has_no_diagnostics() {
    let project = project(vec![function("f", 1, vec![raise_class(2, "Child", CHILD)])], vec![], vec![]);
    assert!(analyze_file(&project, FileId::new(9), &vec![]).is_empty());
    assert_eq!(analyze_file(&project, FileId::new(0), &vec![]).len(), 1);
}

#[test]
fn only_included_files_are_analysed() {
    let project = project(
        vec![function("f", 1, vec![raise_class(2, "Child", CHILD)])],
        vec![function("helper", 10, vec![raise_class(11, "Child", CHILD)])],
        vec![],
    );
    let diagnostics = analyze_project(&project, &vec![]);
    assert_eq!(diagnostics.len(), 1);
    assert_eq!(diagnostics[0].primary, Span { file: FileId::new(0), range: at(2) });
}

/// `self.callback = target`: a binding that bears no name.
fn unnamed_binding(line: u32, target: usize) -> Definition {
    Definition {
        file: FileId::new(0),
        name: None,
        range: at(line),
        kind: DefinitionKind::Assignment { value: Some(vec![target]) },
    }
}

#[test]
fn a_call_through_a_binding_without_a_name_is_followed() {
    let project = project(
        vec![
            function("f", 1, vec![call_stmt(2, "callback", vec![5])]),
            function("g", 10, vec![raise_class(11, "Child", CHILD)]),
        ],
        vec![],
        vec![definition(0, Some("g"), at(10)), unnamed_binding(20, 4)],
    );
    assert_eq!(raises_of(&project, 0, &vec![]), vec![record("Child", 1, 2)]);
}

#[test]
fn a_definition_without_a_name_that_is_a_function_is_followed() {
    let project = project(
        vec![
            function("f", 1, vec![call_stmt(2, "callback", vec![4])]),
            function("g", 10, vec![raise_class(11, "Child", CHILD)]),
        ],
        vec![],
        vec![definition(0, None, at(10))],
    );
    assert_eq!(raises_of(&project, 0, &vec![]), vec![record("Child", 1, 2)]);
}

#[test]
fn a_function_that_calls_itself_through_a_binding_without_a_name_is_followed_once() {
    let project = project(
        vec![
            function("f", 1, vec![call_stmt(2, "callback", vec![5])]),
            function(
                "g",
                10,
                vec![call_stmt(11, "callback", vec![5]), raise_class(12, "Child", CHILD)],
            ),
        ],
        vec![],
        vec![definition(0, Some("g"), at(10)), unnamed_binding(20, 4)],
    );
    assert_eq!(raises_of(&project, 0, &vec![]), vec![record("Child", 1, 2)]);
    assert_eq!(raises_of(&project, 1, &vec![]), vec![record("Child", 0, 12)]);
}

#[test]
fn functions_that_call_each_other_through_bindings_without_names_are_each_followed_once() {
    let project = project(
        vec![
            function(
                "f",
                1,
                vec![call_stmt(2, "to_g", vec![7]), raise_class(3, "Child", CHILD)],
            ),
            function(
                "g",
                10,
                vec![call_stmt(11, "to_f", vec![6]), raise_class(12, "Other", OTHER)],
            ),
        ],
        vec![],
        vec![
            definition(0, Some("f"), at(1)),
            definition(0, Some("g"), at(10)),
            unnamed_binding(20, 4),
            unnamed_binding(21, 5),
        ],
    );
    assert_eq!(raises_of(&project, 0, &vec![]), vec![record("Child", 0, 3), record("Other", 1, 2)]);
    assert_eq!(raises_of(&project, 1, &vec![]), vec![record("Child", 1, 11), record("Other", 0, 12)]);
}

#[test]
fn a_body_on_the_stack_is_left_out_behind_a_binding_without_a_name() {
    let project = project(
        vec![function("g", 10, vec![raise_class(11, "Child", CHILD)])],
        vec![],
        vec![definition(0, Some("g"), at(10)), unnamed_binding(20, 4)],
    );
    let run = |definition: usize, stack: CallStack| {
        found(&extract_errors(
            &project,
            FileId::new(0),
            at(50),
            definition,
            &vec![],
            stack,
            &ExceptionCaptureStack::new(),
        ))
    };
    let under_way = || CallStack::new().push(("/project/m.py".to_string(), "g".to_string()));
    assert_eq!(run(5, CallStack::new()), vec![record("Child", 1, 50)]);
    assert!(run(5, under_way()).is_empty());
    assert_eq!(run(4, under_way()), vec![record("Child", 1, 50)]);
}
