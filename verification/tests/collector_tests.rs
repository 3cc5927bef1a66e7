use py_checked_exceptions::ast::{
    Child, ExceptHandler, Expr, ExprName, Stmt, StmtClassDef, StmtFunctionDef, StmtOther, StmtTry,
};
use py_checked_exceptions::module::ModuleCollector;
use py_checked_exceptions::text::TextRange;

fn at(line: u32) -> TextRange {
    TextRange::new(line * 10, line * 10 + 9)
}

fn name(id: &str) -> Expr {
    Expr::Name(ExprName { id: id.to_string(), range: TextRange::new(0, 0), definitions: vec![] })
}

fn function(id: &str, line: u32, decorators: Vec<Expr>, body: Vec<Stmt>) -> Stmt {
    Stmt::FunctionDef(StmtFunctionDef {
        name: id.to_string(),
        range: at(line),
        decorators,
        header: vec![],
        body,
    })
}

fn plain(id: &str, line: u32) -> Stmt {
    function(id, line, vec![], vec![])
}

fn overload(id: &str, line: u32) -> Stmt {
    function(id, line, vec![name("overload")], vec![])
}

fn class(id: &str, line: u32, body: Vec<Stmt>) -> Stmt {
    Stmt::ClassDef(StmtClassDef {
        name: id.to_string(),
        range: at(line),
        decorators: vec![],
        type_params: vec![],
        bases: vec![],
        keywords: vec![],
        body,
    })
}

fn collect(body: &Vec<Stmt>) -> ModuleCollector<'_> {
    let mut collector = ModuleCollector::new();
    collector.init(body);
    collector
}

fn lines(found: Vec<&StmtFunctionDef>) -> Vec<u32> {
    found.iter().map(|def| def.range.start() / 10).collect()
}

#[test]
fn an_empty_module_has_nothing() {
    let body = vec![];
    let collector = collect(&body);
    assert!(collector.list_functions().is_empty());
    assert!(collector.find_functions(&at(1)).is_empty());
    assert!(collector.find_class(&at(1)).is_none());
}

#[test]
fn every_function_is_found_under_its_range() {
    let body = vec![plain("f", 1), plain("g", 2)];
    let collector = collect(&body);
    assert_eq!(lines(collector.find_functions(&at(1))), vec![1]);
    assert_eq!(lines(collector.find_functions(&at(2))), vec![2]);
    assert!(collector.find_functions(&at(3)).is_empty());
    assert!(collector.find_functions(&TextRange::new(10, 18)).is_empty());
    assert_eq!(lines(collector.list_functions()), vec![1, 2]);
}

#[test]
fn nested_functions_are_found_after_the_one_that_holds_them() {
    let body = vec![
        function("outer", 1, vec![], vec![plain("inner", 2), plain("other", 3)]),
        Stmt::Other(StmtOther {
            children: vec![Child::Expr(name("flag")), Child::Stmt(plain("guarded", 4))],
        }),
        Stmt::Try(StmtTry {
            body: vec![plain("tried", 5)],
            handlers: vec![ExceptHandler { type_: None, body: vec![plain("handled", 6)] }],
            orelse: vec![plain("otherwise", 7)],
            finalbody: vec![plain("finally", 8)],
        }),
    ];
    let collector = collect(&body);
    assert_eq!(lines(collector.list_functions()), vec![1, 2, 3, 4, 5, 6, 7, 8]);
    assert_eq!(lines(collector.find_functions(&at(6))), vec![6]);
}

#[test]
fn the_overloads_follow_the_function_they_belong_to() {
    let body = vec![overload("f", 1), overload("f", 2), plain("f", 3), plain("g", 4)];
    let collector = collect(&body);
    assert_eq!(lines(collector.find_functions(&at(1))), vec![1]);
    assert_eq!(lines(collector.find_functions(&at(2))), vec![2]);
    assert_eq!(lines(collector.find_functions(&at(3))), vec![3, 1, 2]);
    assert_eq!(lines(collector.find_functions(&at(4))), vec![4]);
    assert_eq!(lines(collector.list_functions()), vec![1, 2, 3, 1, 2, 4]);
}

#[test]
fn another_name_ends_the_run_of_overloads() {
    let body = vec![overload("f", 1), plain("g", 2), plain("f", 3)];
    let collector = collect(&body);
    assert_eq!(lines(collector.find_functions(&at(3))), vec![3]);
}

#[test]
fn a_run_of_overloads_lasts_while_the_name_does() {
    let body = vec![overload("f", 1), plain("f", 2), plain("f", 3), overload("f", 4), plain("f", 5)];
    let collector = collect(&body);
    assert_eq!(lines(collector.find_functions(&at(2))), vec![2, 1]);
    assert_eq!(lines(collector.find_functions(&at(3))), vec![3, 1]);
    assert_eq!(lines(collector.find_functions(&at(4))), vec![4]);
    assert_eq!(lines(collector.find_functions(&at(5))), vec![5, 1, 4]);
}

#[test]
fn only_the_bare_name_marks_an_overload() {
    let decorated = function("f", 1, vec![name("cache"), name("typing_overload")], vec![]);
    let body = vec![decorated, plain("f", 2)];
    let collector = collect(&body);
    assert_eq!(lines(collector.find_functions(&at(2))), vec![2]);
}

#[test]
fn a_class_is_found_with_its_lifecycle_methods() {
    let body = vec![class(
        "Resource",
        1,
        vec![
            plain("__init__", 2),
            plain("read", 3),
            plain("__new__", 4),
            plain("__enter__", 5),
            plain("__exit__", 6),
            plain("__aenter__", 7),
            plain("__aexit__", 8),
            plain("__del__", 9),
            class("Inner", 10, vec![plain("__init__", 11)]),
        ],
    )];
    let collector = collect(&body);
    assert_eq!(lines(collector.find_functions(&at(1))), vec![2, 4, 5, 6, 7, 8]);
    assert_eq!(lines(collector.find_functions(&at(10))), vec![11]);
    assert_eq!(lines(collector.find_functions(&at(3))), vec![3]);
    assert_eq!(
        lines(collector.list_functions()),
        vec![2, 4, 5, 6, 7, 8, 2, 3, 4, 5, 6, 7, 8, 9, 11, 11]
    );
    assert_eq!(collector.find_class(&at(1)).unwrap().name, "Resource");
    assert_eq!(collector.find_class(&at(10)).unwrap().name, "Inner");
    assert!(collector.find_class(&at(2)).is_none());
}

#[test]
fn a_class_without_lifecycle_methods_is_a_unit_without_functions() {
    let body = vec![class("Plain", 1, vec![plain("read", 2)])];
    let collector = collect(&body);
    assert!(collector.find_functions(&at(1)).is_empty());
    assert_eq!(lines(collector.list_functions()), vec![2]);
    assert_eq!(collector.find_class(&at(1)).unwrap().name, "Plain");
    assert_eq!(collector.functions.len(), 2);
    assert_eq!(collector.functions[0].0, vec![at(1)]);
    assert!(collector.functions[0].1.is_empty());
    assert_eq!(collector.functions[1].0, vec![at(2)]);
    assert_eq!(lines(collector.functions[1].1.clone()), vec![2]);
}

#[test]
fn every_class_and_every_function_is_a_unit() {
    let body = vec![
        class("Empty", 1, vec![]),
        class("Resource", 2, vec![plain("__init__", 3), plain("read", 4)]),
        plain("f", 5),
    ];
    let collector = collect(&body);
    let ranges: Vec<TextRange> = collector.functions.iter().map(|unit| unit.0[0]).collect();
    assert_eq!(ranges, vec![at(1), at(2), at(3), at(4), at(5)]);
    let sizes: Vec<usize> = collector.functions.iter().map(|unit| unit.1.len()).collect();
    assert_eq!(sizes, vec![0, 1, 1, 1, 1]);
}
