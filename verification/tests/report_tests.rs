use py_checked_exceptions::diagnostic::{Lint, Span};
use py_checked_exceptions::raise::FunctionRaise;
use py_checked_exceptions::report::dedup_sorted;
use py_checked_exceptions::text::{FileId, TextRange};
use py_checked_exceptions::Exception;

fn class(name: &str) -> Exception {
    Exception::new(name.to_string(), vec![])
}

fn direct(name: &str, at: u32) -> FunctionRaise {
    FunctionRaise::direct(FileId::new(0), class(name), TextRange::new(at, at + 1))
}

fn lifted(record: &FunctionRaise, at: u32) -> FunctionRaise {
    assert!(record.depth() < usize::MAX);
    record.transitive(FileId::new(1), TextRange::new(at, at + 1))
}

fn summary(records: &[FunctionRaise]) -> Vec<(String, usize, usize, u32)> {
    records
        .iter()
        .map(|r| {
            let key = r.sort_key();
            (key.0, key.1, key.2, r.range().start())
        })
        .collect()
}

#[test]
fn a_direct_record_has_rank_and_depth_zero() {
    let record = direct("ValueError", 7);
    assert_eq!(record.sort_key(), ("ValueError".to_string(), 0, 0));
    assert_eq!(record.group_key(), "ValueError");
    assert_eq!(record.name().name, "ValueError");
    assert_eq!(record.depth(), 0);
}

#[test]
fn lifting_counts_the_calls() {
    let record = direct("ValueError", 7);
    let once = lifted(&record, 20);
    let twice = lifted(&once, 30);
    assert_eq!(once.sort_key(), ("ValueError".to_string(), 1, 1));
    assert_eq!(twice.sort_key(), ("ValueError".to_string(), 1, 2));
    assert_eq!(twice.group_key(), "ValueError");
    assert_eq!(twice.file(), FileId::new(1));
    assert_eq!(twice.range(), TextRange::new(30, 31));
    match &twice {
        FunctionRaise::Transitive(t) => {
            assert_eq!(t.depth, 2);
            match &*t.target {
                FunctionRaise::Transitive(inner) => {
                    assert_eq!(inner.depth, 1);
                    assert!(matches!(&*inner.target, FunctionRaise::Direct(_)));
                },
                FunctionRaise::Direct(_) => panic!("the chain is one link short"),
            }
        },
        FunctionRaise::Direct(_) => panic!("a lifted record is transitive"),
    }
}

#[test]
fn records_are_ordered_by_name() {
    let records = vec![direct("ValueError", 1), direct("KeyError", 2), direct("TypeError", 3)];
    assert_eq!(
        summary(&dedup_sorted(records)),
        vec![
            ("KeyError".to_string(), 0, 0, 2),
            ("TypeError".to_string(), 0, 0, 3),
            ("ValueError".to_string(), 0, 0, 1),
        ]
    );
}

#[test]
fn names_are_ordered_by_code_point() {
    let records = vec![direct("é", 1), direct("a", 2), direct("Z", 3), direct("ab", 4), direct("", 5)];
    let names: Vec<String> = dedup_sorted(records).iter().map(|r| r.group_key()).collect();
    assert_eq!(names, vec!["", "Z", "a", "ab", "é"]);
}

#[test]
fn one_record_is_kept_for_each_name() {
    let records = vec![
        direct("ValueError", 1),
        direct("KeyError", 2),
        direct("ValueError", 3),
        direct("KeyError", 4),
        direct("ValueError", 5),
    ];
    assert_eq!(
        summary(&dedup_sorted(records)),
        vec![("KeyError".to_string(), 0, 0, 2), ("ValueError".to_string(), 0, 0, 1)]
    );
}

#[test]
fn a_direct_record_wins_over_a_transitive_one() {
    let inner = direct("ValueError", 1);
    let records = vec![lifted(&inner, 10), direct("ValueError", 20)];
    assert_eq!(summary(&dedup_sorted(records)), vec![("ValueError".to_string(), 0, 0, 20)]);
}

#[test]
fn a_shallow_chain_wins_over_a_deeper_one() {
    let inner = direct("ValueError", 1);
    let once = lifted(&inner, 10);
    let twice = lifted(&once, 20);
    let records = vec![twice, lifted(&inner, 30), lifted(&inner, 40)];
    assert_eq!(summary(&dedup_sorted(records)), vec![("ValueError".to_string(), 1, 1, 30)]);
}

#[test]
fn reporting_twice_changes_nothing() {
    let inner = direct("ValueError", 1);
    let records = vec![
        direct("TypeError", 5),
        lifted(&inner, 10),
        direct("KeyError", 20),
        direct("TypeError", 30),
    ];
    let once = dedup_sorted(records);
    let first = summary(&once);
    let twice = dedup_sorted(once);
    assert_eq!(summary(&twice), first);
    assert_eq!(
        first,
        vec![
            ("KeyError".to_string(), 0, 0, 20),
            ("TypeError".to_string(), 0, 0, 5),
            ("ValueError".to_string(), 1, 1, 10),
        ]
    );
}

#[test]
fn nothing_gathered_nothing_reported() {
    assert!(dedup_sorted(vec![]).is_empty());
}

#[test]
fn a_direct_record_points_at_its_raise() {
    let diagnostic = direct("ValueError", 7).to_diagnostic();
    assert_eq!(diagnostic.lint, Lint::Raise);
    assert_eq!(diagnostic.lint.name(), "raise");
    assert_eq!(diagnostic.message, "Raises undocumented error ValueError");
    assert_eq!(diagnostic.primary, Span { file: FileId::new(0), range: TextRange::new(7, 8) });
    assert!(diagnostic.secondary.is_empty());
}

#[test]
fn a_transitive_record_lists_the_chain_it_points_to_from_the_raise_outwards() {
    let inner = direct("ValueError", 7);
    let twice = lifted(&lifted(&inner, 20), 30);
    let diagnostic = twice.to_diagnostic();
    assert_eq!(diagnostic.message, "Raises undocumented error ValueError");
    assert_eq!(diagnostic.primary, Span { file: FileId::new(1), range: TextRange::new(30, 31) });
    assert_eq!(
        diagnostic.secondary,
        vec![
            Span { file: FileId::new(0), range: TextRange::new(7, 8) },
            Span { file: FileId::new(1), range: TextRange::new(20, 21) },
        ]
    );
}

#[test]
fn a_record_one_call_from_the_raise_lists_the_raise_alone() {
    let once = lifted(&direct("ValueError", 7), 20);
    let diagnostic = once.to_diagnostic();
    assert_eq!(diagnostic.primary, Span { file: FileId::new(1), range: TextRange::new(20, 21) });
    assert_eq!(
        diagnostic.secondary,
        vec![Span { file: FileId::new(0), range: TextRange::new(7, 8) }]
    );
    assert_eq!(diagnostic.secondary.len(), once.depth());
}
