use py_checked_exceptions::ast::{Expr, ExprStringLiteral, Stmt, StmtExpr, StmtOther};
use py_checked_exceptions::compare_documented_exceptions;
use py_checked_exceptions::diagnostic::{Lint, Span};
use py_checked_exceptions::docstring::{
    chars_of, count_whitespace_chars_at_start, difference_by_key, docstring_from,
    documented_exceptions, has_raises_header, split_lines, DocumentedException,
};
use py_checked_exceptions::raise::FunctionRaise;
use py_checked_exceptions::text::{FileId, TextRange};
use py_checked_exceptions::Exception;

fn direct(name: &str, at: u32) -> FunctionRaise {
    FunctionRaise::direct(
        FileId::new(3),
        Exception::new(name.to_string(), vec![]),
        TextRange::new(at, at + 5),
    )
}

fn docstring(text: &str, start: u32) -> Stmt {
    let range = TextRange::new(start, start + text.len() as u32 + 6);
    Stmt::Expr(StmtExpr {
        value: Expr::StringLiteral(ExprStringLiteral { value: text.to_string(), range }),
        range,
    })
}

fn documented(text: &str, start: u32) -> Option<Vec<(u32, u32, String)>> {
    documented_exceptions(text, start)
        .map(|docs| docs.into_iter().map(|d| (d.range.start(), d.range.end(), d.name)).collect())
}

#[test]
fn leading_white_space_is_counted_up_to_the_first_other_character() {
    assert_eq!(count_whitespace_chars_at_start("    Raises:\n"), 4);
    assert_eq!(count_whitespace_chars_at_start("Raises:"), 0);
    assert_eq!(count_whitespace_chars_at_start(""), 0);
    assert_eq!(count_whitespace_chars_at_start("   "), 3);
}

#[test]
fn any_white_space_but_a_line_feed_counts() {
    assert_eq!(count_whitespace_chars_at_start("\t \u{a0}\u{3000}x"), 4);
    assert_eq!(count_whitespace_chars_at_start("\r\u{2003}\u{85}x "), 3);
    assert_eq!(count_whitespace_chars_at_start(" \n  x"), 1);
    assert_eq!(count_whitespace_chars_at_start("\n  x"), 0);
    assert_eq!(count_whitespace_chars_at_start("\u{200b} x"), 0);
}

#[test]
fn a_text_is_the_sequence_of_its_characters() {
    assert_eq!(chars_of("aé\n"), vec!['a', 'é', '\n']);
    assert!(chars_of("").is_empty());
}

#[test]
fn every_line_ends_in_a_line_feed() {
    let lines = |text: &str| -> Vec<String> {
        split_lines(&chars_of(text)).iter().map(|l| l.iter().collect()).collect()
    };
    assert_eq!(lines(""), vec!["\n"]);
    assert_eq!(lines("a"), vec!["a\n"]);
    assert_eq!(lines("a\nb"), vec!["a\n", "b\n"]);
    assert_eq!(lines("a\n"), vec!["a\n", "\n"]);
    assert_eq!(lines("\n\nx y\n"), vec!["\n", "\n", "x y\n", "\n"]);
}

#[test]
fn the_header_may_stand_anywhere_in_its_line() {
    assert!(has_raises_header(&chars_of("Raises:")));
    assert!(has_raises_header(&chars_of("    Raises:\n")));
    assert!(has_raises_header(&chars_of("It Raises: things")));
    assert!(!has_raises_header(&chars_of("Raises")));
    assert!(!has_raises_header(&chars_of("raises:")));
    assert!(!has_raises_header(&chars_of("Raises :")));
    assert!(!has_raises_header(&chars_of("")));
}

#[test]
fn a_docstring_without_the_header_documents_nothing() {
    assert_eq!(documented("Just words.\n\n    Returns:\n        int: a number\n", 10), None);
    assert_eq!(documented("", 10), None);
}

#[test]
fn names_are_placed_by_the_lines_before_them() {
    let text = "\n    Raises:\n        ValueError: bad\n        KeyError: missing\n    ";
    assert_eq!(
        documented(text, 100),
        Some(vec![(124, 134, "ValueError".to_string()), (148, 156, "KeyError".to_string())])
    );
}

#[test]
fn the_first_line_of_the_docstring_is_not_counted() {
    let text = "Doc\n\n    Raises:\n        RuntimeError: never raised\n    ";
    assert_eq!(documented(text, 200), Some(vec![(225, 237, "RuntimeError".to_string())]));
}

#[test]
fn the_header_may_stand_in_the_first_line() {
    assert_eq!(
        documented("Raises:\n    ValueError: x", 50),
        Some(vec![(58, 68, "ValueError".to_string())])
    );
}

#[test]
fn only_a_line_with_one_colon_documents_a_name() {
    let text = "\nRaises:\n    just words\n    A: b: c\n    KeyError: x\n";
    assert_eq!(documented(text, 0), Some(vec![(43, 51, "KeyError".to_string())]));
}

#[test]
fn every_name_is_placed_where_it_stands() {
    let text = "\n    Raises:\n        ValueError: bad\n        see above\n        KeyError: x\n";
    let found = documented(text, 0).unwrap();
    assert_eq!(found.len(), 2);
    let source = format!("\"\"\"{text}\"\"\"");
    for (start, end, name) in found {
        assert_eq!(&source[start as usize..end as usize], name);
    }
}

#[test]
fn the_section_ends_at_the_first_line_that_is_indented_less() {
    let text = "\n    Raises:\n        ValueError: bad\n    Returns:\n        KeyError: no\n";
    assert_eq!(documented(text, 0), Some(vec![(24, 34, "ValueError".to_string())]));
    let text = "\n    Raises:\n\n        ValueError: bad\n";
    assert_eq!(documented(text, 0), Some(vec![]));
}

#[test]
fn a_section_indented_by_two_spaces_is_empty() {
    let text = "\n    Raises:\n      ValueError: bad\n";
    assert_eq!(documented(text, 0), Some(vec![]));
}

#[test]
fn a_section_indented_by_eight_spaces_is_read_with_its_spaces_trimmed() {
    let text = "\nRaises:\n        ValueError   : bad\n";
    assert_eq!(documented(text, 0), Some(vec![(16, 26, "ValueError".to_string())]));
}

#[test]
fn a_name_is_as_long_as_its_bytes() {
    let text = "\nRaises:\n    Fehlér: x\n    Ω: y\n";
    assert_eq!(
        documented(text, 0),
        Some(vec![(16, 23, "Fehlér".to_string()), (31, 33, "Ω".to_string())])
    );
}

#[test]
fn offsets_stay_at_the_largest() {
    let text = "\nRaises:\n    ValueError: x\n    KeyError: y\n";
    assert_eq!(
        documented(text, u32::MAX - 20),
        Some(vec![
            (u32::MAX - 4, u32::MAX, "ValueError".to_string()),
            (u32::MAX, u32::MAX, "KeyError".to_string()),
        ])
    );
}

#[test]
fn the_docstring_is_the_first_statement() {
    let pass = || Stmt::Other(StmtOther { children: vec![] });
    let stmts = vec![docstring("Doc", 40), pass()];
    let (text, start) = docstring_from(&stmts).unwrap();
    assert_eq!(text, "Doc");
    assert_eq!(start, 40);
    assert!(docstring_from(&vec![pass(), docstring("Doc", 40)]).is_none());
    assert!(docstring_from(&vec![]).is_none());
}

#[test]
fn records_and_names_are_told_apart_by_name() {
    let errors = vec![direct("TypeError", 1), direct("ValueError", 2), direct("OSError", 3)];
    let docs = vec![
        DocumentedException { range: TextRange::new(10, 20), name: "ValueError".to_string() },
        DocumentedException { range: TextRange::new(30, 38), name: "KeyError".to_string() },
        DocumentedException { range: TextRange::new(40, 50), name: "IndexError".to_string() },
    ];
    let (only_raised, only_documented) = difference_by_key(&errors, &docs);
    let raised: Vec<String> = only_raised.iter().map(|e| e.group_key()).collect();
    let named: Vec<(u32, String)> =
        only_documented.into_iter().map(|d| (d.range.start(), d.name)).collect();
    assert_eq!(raised, vec!["TypeError", "OSError"]);
    assert_eq!(named, vec![(30, "KeyError".to_string()), (40, "IndexError".to_string())]);
}

#[test]
fn without_a_docstring_every_record_is_undocumented() {
    let errors = vec![direct("TypeError", 1), direct("ValueError", 2)];
    let diagnostics = compare_documented_exceptions(FileId::new(3), &vec![], &errors);
    let messages: Vec<&str> = diagnostics.iter().map(|d| d.message.as_str()).collect();
    assert_eq!(
        messages,
        vec!["Raises undocumented error TypeError", "Raises undocumented error ValueError"]
    );
    assert!(diagnostics.iter().all(|d| d.lint == Lint::Raise));
}

#[test]
fn without_the_header_every_record_is_undocumented() {
    let errors = vec![direct("TypeError", 1)];
    let stmts = vec![docstring("Says nothing of errors.", 0)];
    let diagnostics = compare_documented_exceptions(FileId::new(3), &stmts, &errors);
    assert_eq!(diagnostics.len(), 1);
    assert_eq!(diagnostics[0].message, "Raises undocumented error TypeError");
    assert_eq!(diagnostics[0].primary, Span { file: FileId::new(3), range: TextRange::new(1, 6) });
}

#[test]
fn both_kinds_of_difference_are_reported() {
    let errors = vec![direct("TypeError", 300), direct("ValueError", 400)];
    let text = "\n    Raises:\n        ValueError: bad\n        KeyError: missing\n    ";
    let stmts = vec![docstring(text, 100)];
    let diagnostics = compare_documented_exceptions(FileId::new(3), &stmts, &errors);
    assert_eq!(diagnostics.len(), 2);
    assert_eq!(diagnostics[0].lint, Lint::Raise);
    assert_eq!(diagnostics[0].message, "Raises undocumented error TypeError");
    assert_eq!(
        diagnostics[0].primary,
        Span { file: FileId::new(3), range: TextRange::new(300, 305) }
    );
    assert_eq!(diagnostics[1].lint, Lint::ExtraDocumentedError);
    assert_eq!(diagnostics[1].lint.name(), "extra-documented-error");
    assert_eq!(diagnostics[1].message, "Documents extra error that is never raised KeyError");
    assert_eq!(
        diagnostics[1].primary,
        Span { file: FileId::new(3), range: TextRange::new(148, 156) }
    );
    assert!(diagnostics[1].secondary.is_empty());
}

#[test]
fn a_function_that_raises_what_it_documents_is_silent() {
    let errors = vec![direct("ValueError", 400)];
    let text = "\n    Raises:\n        ValueError: bad\n    ";
    let stmts = vec![docstring(text, 100)];
    assert!(compare_documented_exceptions(FileId::new(3), &stmts, &errors).is_empty());
}

#[test]
fn reconciling_twice_gives_the_same() {
    let errors = vec![direct("TypeError", 300), direct("ValueError", 400)];
    let text = "\n    Raises:\n        ValueError: bad\n        KeyError: missing\n    ";
    let stmts = vec![docstring(text, 100)];
    let show = |stmts: &Vec<Stmt>| -> Vec<(String, Span)> {
        compare_documented_exceptions(FileId::new(3), stmts, &errors)
            .into_iter()
            .map(|d| (d.message, d.primary))
            .collect()
    };
    assert_eq!(show(&stmts), show(&stmts));
}
