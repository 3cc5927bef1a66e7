//! What a docstring declares under `Raises:`, and how that differs from what
//! the function may raise.

use vstd::prelude::*;
use vstd::string::StringExecFns;
use itertools::Itertools;
use crate::ast::{Expr, Stmt};
use crate::diagnostic::{diagnostic_views, Diagnostic, DiagnosticView, Lint, Span};
use crate::raise::{raise_views, FunctionRaise, RaiseView};
use crate::text::{FileId, TextRange};

verus! {

/// Whether `c` is white space: the characters with the Unicode property
/// `White_Space`.
pub open spec fn is_whitespace(c: char) -> bool {
    let u = c as u32;
    ||| 0x09 <= u <= 0x0D
    ||| u == 0x20
    ||| u == 0x85
    ||| u == 0xA0
    ||| u == 0x1680
    ||| 0x2000 <= u <= 0x200A
    ||| u == 0x2028
    ||| u == 0x2029
    ||| u == 0x202F
    ||| u == 0x205F
    ||| u == 0x3000
}

/// The number of bytes that `c` takes in UTF-8.
pub open spec fn utf8_len(c: char) -> nat {
    let u = c as u32;
    if u < 0x80 {
        1
    } else if u < 0x800 {
        2
    } else if u < 0x10000 {
        3
    } else {
        4
    }
}

/// The number of bytes that `s` takes in UTF-8.
pub open spec fn byte_len(s: Seq<char>) -> nat
    decreases s.len(),
{
    if s.len() == 0 {
        0
    } else {
        byte_len(s.drop_last()) + utf8_len(s.last())
    }
}

/// `x` as a 32-bit offset: offsets past the largest stay at the largest.
pub open spec fn clamp(x: nat) -> u32 {
    if x > u32::MAX {
        u32::MAX
    } else {
        x as u32
    }
}

/// The lines of `text`: the pieces between its line feeds, each with a line
/// feed at its end, the last piece too.
pub open spec fn lines_of(text: Seq<char>) -> Seq<Seq<char>>
    decreases text.len(),
{
    if text.len() == 0 {
        seq![seq!['\n']]
    } else {
        let before = lines_of(text.drop_last());
        if text.last() == '\n' {
            before.push(seq!['\n'])
        } else {
            before.drop_last().push(before.last().drop_last().push(text.last()).push('\n'))
        }
    }
}

/// The word that opens the section.
pub open spec fn header() -> Seq<char> {
    seq!['R', 'a', 'i', 's', 'e', 's', ':']
}

/// Whether the header stands in `line` at position `j`.
pub open spec fn header_at(line: Seq<char>, j: int) -> bool {
    0 <= j && j + 7 <= line.len() && line.subrange(j, j + 7) == header()
}

/// Whether the header stands somewhere in `line`.
pub open spec fn has_header(line: Seq<char>) -> bool {
    exists|j: int| header_at(line, j)
}

/// Whether `c` is white space other than a line feed.
pub open spec fn is_blank(c: char) -> bool {
    is_whitespace(c) && c != '\n'
}

/// How many blank characters stand in `line` from position `i` on, before
/// the first character that is not blank.
pub open spec fn blanks_from(line: Seq<char>, i: nat) -> nat
    decreases line.len() - i,
{
    if i < line.len() && is_blank(line[i as int]) {
        1 + blanks_from(line, i + 1)
    } else {
        0
    }
}

/// How many white space characters stand in `s` from position `i` on,
/// before the first character that is not white space.
pub open spec fn spaces_from(s: Seq<char>, i: nat) -> nat
    decreases s.len() - i,
{
    if i < s.len() && is_whitespace(s[i as int]) {
        1 + spaces_from(s, i + 1)
    } else {
        0
    }
}

/// How many white space characters end the first `n` characters of `s`.
pub open spec fn spaces_before(s: Seq<char>, n: nat) -> nat
    decreases n,
{
    if 0 < n <= s.len() && is_whitespace(s[n - 1]) {
        1 + spaces_before(s, (n - 1) as nat)
    } else {
        0
    }
}

/// `s` without the white space at its ends.
pub open spec fn trimmed(s: Seq<char>) -> Seq<char> {
    let from = spaces_from(s, 0);
    let to = s.len() - spaces_before(s, s.len());
    if from < to {
        s.subrange(from as int, to)
    } else {
        Seq::empty()
    }
}

/// Whether `line` begins with `width` spaces.
pub open spec fn indented(line: Seq<char>, width: nat) -> bool {
    width <= line.len() && forall|j: int| 0 <= j < width ==> line[j] == ' '
}

/// How many colons are among the first `n` characters of `line`.
pub open spec fn colons(line: Seq<char>, n: nat) -> nat
    decreases n,
{
    if n == 0 || n > line.len() {
        0
    } else {
        colons(line, (n - 1) as nat) + if line[n - 1] == ':' {
            1nat
        } else {
            0nat
        }
    }
}

/// The position of the first colon of `line` at or after `i`, or the length
/// of the line.
pub open spec fn colon_from(line: Seq<char>, i: nat) -> nat
    decreases line.len() - i,
{
    if i < line.len() && line[i as int] != ':' {
        colon_from(line, i + 1)
    } else if i < line.len() {
        i
    } else {
        line.len()
    }
}

/// The name that `line` documents: a line with exactly one colon documents
/// what stands before the colon, without the white space around it.
pub open spec fn documented_name(line: Seq<char>) -> Option<Seq<char>> {
    if colons(line, line.len()) == 1 {
        Some(trimmed(line.subrange(0, colon_from(line, 0) as int)))
    } else {
        None
    }
}

/// A documented exception: its name and where the name is taken to stand.
pub struct DocumentedException {
    pub range: TextRange,
    pub name: String,
}

/// The mathematical value of a [`DocumentedException`].
pub ghost struct DocumentedView {
    pub range: TextRange,
    pub name: Seq<char>,
}

impl View for DocumentedException {
    type V = DocumentedView;

    open spec fn view(&self) -> DocumentedView {
        DocumentedView { range: self.range, name: self.name@ }
    }
}

/// The views of a list of documented exceptions.
pub open spec fn documented_views(list: Seq<DocumentedException>) -> Seq<DocumentedView> {
    Seq::new(list.len(), |i: int| list[i]@)
}

/// The sum of the byte lengths of the lines from `from` up to, not
/// including, `to`.
pub open spec fn bytes_between(lines: Seq<Seq<char>>, from: int, to: int) -> nat
    decreases to - from,
{
    if from >= to || to > lines.len() || from < 0 {
        0
    } else {
        bytes_between(lines, from, to - 1) + byte_len(lines[to - 1])
    }
}

/// The position of the first of the lines from `k` on that does not begin
/// with `width` spaces, or the number of lines.
pub open spec fn section_end(lines: Seq<Seq<char>>, k: nat, width: nat) -> nat
    decreases lines.len() - k,
{
    if k < lines.len() && indented(lines[k as int], width) {
        section_end(lines, k + 1, width)
    } else if k < lines.len() {
        k
    } else {
        lines.len()
    }
}

/// What the lines from `k` up to `end` document. `offset` is where line `k`
/// begins: a name stands `indent + 4` bytes into its line, and every line,
/// whether it documents a name or not, moves the offset on by its own
/// length.
pub open spec fn documented_in(
    lines: Seq<Seq<char>>,
    k: nat,
    end: nat,
    offset: nat,
    indent: nat,
) -> Seq<DocumentedView>
    decreases end - k,
{
    if k >= end || end > lines.len() {
        Seq::empty()
    } else {
        match documented_name(lines[k as int]) {
            Some(name) => seq![
                DocumentedView {
                    range: TextRange {
                        start: clamp(offset + indent + 4),
                        end: clamp(offset + indent + 4 + byte_len(name)),
                    },
                    name,
                },
            ] + documented_in(lines, k + 1, end, offset + byte_len(lines[k as int]), indent),
            None => documented_in(lines, k + 1, end, offset + byte_len(lines[k as int]), indent),
        }
    }
}

/// The position of the first line from `k` on that holds the header.
pub open spec fn header_line(lines: Seq<Seq<char>>, k: nat) -> Option<nat>
    decreases lines.len() - k,
{
    if k >= lines.len() {
        None
    } else if has_header(lines[k as int]) {
        Some(k)
    } else {
        header_line(lines, k + 1)
    }
}

/// What the docstring `text`, which begins at offset `start` of its file,
/// documents under `Raises:`, or nothing if it has no such section. The
/// section is made of the lines that follow the first line with the header
/// and are indented by four spaces more than it; it ends before the first
/// line that is not. The first of them is taken to begin four bytes and the
/// lengths of the lines up to the header behind `start`, the first line of
/// the docstring not counted; each of the others begins where the line
/// before it ends.
pub open spec fn documented(text: Seq<char>, start: u32) -> Option<Seq<DocumentedView>> {
    let lines = lines_of(text);
    match header_line(lines, 0) {
        Some(h) => {
            let indent = blanks_from(lines[h as int], 0);
            let first = (start + 4 + bytes_between(lines, 1, h as int + 1)) as nat;
            Some(
                documented_in(
                    lines,
                    h + 1,
                    section_end(lines, h + 1, indent + 4),
                    first,
                    indent,
                ),
            )
        },
        None => None,
    }
}

/// The docstring of a function body: its first statement, if that is a
/// string literal, with the offset at which the statement begins.
pub open spec fn docstring_of(stmts: Seq<Stmt>) -> Option<(Seq<char>, u32)> {
    if stmts.len() == 0 {
        None
    } else {
        match stmts[0] {
            Stmt::Expr(e) => match e.value {
                Expr::StringLiteral(lit) => Some((lit.value@, e.range.start)),
                _ => None,
            },
            _ => None,
        }
    }
}

/// Whether one of the first `n` of `docs` bears `name`.
pub open spec fn documents(docs: Seq<DocumentedView>, name: Seq<char>) -> bool {
    exists|i: int| 0 <= i < docs.len() && (#[trigger] docs[i]).name == name
}

/// Whether one of `errors` is about `name`.
pub open spec fn raises(errors: Seq<RaiseView>, name: Seq<char>) -> bool {
    exists|i: int| 0 <= i < errors.len() && (#[trigger] errors[i]).exception().name == name
}

/// Of the first `n` of `errors`, those that `docs` does not document.
pub open spec fn undocumented(errors: Seq<RaiseView>, docs: Seq<DocumentedView>, n: nat) -> Seq<
    RaiseView,
>
    decreases n,
{
    if n == 0 || n > errors.len() {
        Seq::empty()
    } else {
        let rest = undocumented(errors, docs, (n - 1) as nat);
        if documents(docs, errors[n - 1].exception().name) {
            rest
        } else {
            rest.push(errors[n - 1])
        }
    }
}

/// Of the first `n` of `docs`, those that none of `errors` is about.
pub open spec fn never_raised(docs: Seq<DocumentedView>, errors: Seq<RaiseView>, n: nat) -> Seq<
    DocumentedView,
>
    decreases n,
{
    if n == 0 || n > docs.len() {
        Seq::empty()
    } else {
        let rest = never_raised(docs, errors, (n - 1) as nat);
        if raises(errors, docs[n - 1].name) {
            rest
        } else {
            rest.push(docs[n - 1])
        }
    }
}

/// The diagnostics for the first `n` of `errors`.
pub open spec fn raise_diagnostics(errors: Seq<RaiseView>, n: nat) -> Seq<DiagnosticView>
    decreases n,
{
    if n == 0 || n > errors.len() {
        Seq::empty()
    } else {
        raise_diagnostics(errors, (n - 1) as nat).push(errors[n - 1].diagnostic())
    }
}

/// What is reported for a documented exception that is never raised.
pub open spec fn extra_diagnostic(file: FileId, doc: DocumentedView) -> DiagnosticView {
    DiagnosticView {
        lint: Lint::ExtraDocumentedError,
        message: "Documents extra error that is never raised "@ + doc.name,
        primary: Span { file, range: doc.range },
        secondary: Seq::empty(),
    }
}

/// The diagnostics for the first `n` of `docs`.
pub open spec fn extra_diagnostics(file: FileId, docs: Seq<DocumentedView>, n: nat) -> Seq<
    DiagnosticView,
>
    decreases n,
{
    if n == 0 || n > docs.len() {
        Seq::empty()
    } else {
        extra_diagnostics(file, docs, (n - 1) as nat).push(extra_diagnostic(file, docs[n - 1]))
    }
}

/// The diagnostics for a function of `file` with the body `stmts` that may
/// raise `errors`. Where the body has a docstring with a `Raises:` section:
/// one for each record whose exception the section does not name, in the
/// order of the records, then one for each documented name that no record
/// is about, in the order of the section. Else one for every record.
pub open spec fn reconciled(file: FileId, stmts: Seq<Stmt>, errors: Seq<RaiseView>) -> Seq<
    DiagnosticView,
> {
    let docs = match docstring_of(stmts) {
        Some((text, start)) => documented(text, start),
        None => None,
    };
    match docs {
        Some(docs) => {
            let missing = undocumented(errors, docs, errors.len());
            let extra = never_raised(docs, errors, docs.len());
            raise_diagnostics(missing, missing.len()) + extra_diagnostics(file, extra, extra.len())
        },
        None => raise_diagnostics(errors, errors.len()),
    }
}

/// The place of a documented name covers the bytes of the name: it ends as
/// many bytes behind its start as the name is long, unless it ends at the
/// largest offset.
pub proof fn lemma_documented_span(
    lines: Seq<Seq<char>>,
    k: nat,
    end: nat,
    offset: nat,
    indent: nat,
)
    ensures
        forall|i: int|
            0 <= i < documented_in(lines, k, end, offset, indent).len() ==> {
                let d = #[trigger] documented_in(lines, k, end, offset, indent)[i];
                d.range.start <= d.range.end && (d.range.end < u32::MAX ==> d.range.end
                    - d.range.start == byte_len(d.name))
            },
    decreases end - k,
{
    if k < end && end <= lines.len() {
        match documented_name(lines[k as int]) {
            Some(name) => {
                let next = offset + byte_len(lines[k as int]);
                lemma_documented_span(lines, k + 1, end, next, indent);
                let rest = documented_in(lines, k + 1, end, next, indent);
                assert forall|i: int|
                    0 <= i < documented_in(lines, k, end, offset, indent).len() implies {
                    let d = #[trigger] documented_in(lines, k, end, offset, indent)[i];
                    d.range.start <= d.range.end && (d.range.end < u32::MAX ==> d.range.end
                        - d.range.start == byte_len(d.name))
                } by {
                    if i > 0 {
                        assert(documented_in(lines, k, end, offset, indent)[i] == rest[i - 1]);
                    } else {
                        let d = documented_in(lines, k, end, offset, indent)[0];
                        assert(d.name == name);
                        assert(d.range.start == clamp(offset + indent + 4));
                        assert(d.range.end == clamp(offset + indent + 4 + byte_len(name)));
                    }
                }
            },
            None => {
                let next = offset + byte_len(lines[k as int]);
                lemma_documented_span(lines, k + 1, end, next, indent);
                assert(documented_in(lines, k, end, offset, indent) == documented_in(
                    lines,
                    k + 1,
                    end,
                    next,
                    indent,
                ));
            },
        }
    }
}

/// The lines from `from` up to `to` are as long as the first of them and
/// the rest.
pub proof fn lemma_bytes_between_front(lines: Seq<Seq<char>>, from: int, to: int)
    requires
        0 <= from < to <= lines.len(),
    ensures
        bytes_between(lines, from, to) == byte_len(lines[from]) + bytes_between(
            lines,
            from + 1,
            to,
        ),
    decreases to - from,
{
    if from + 1 < to {
        lemma_bytes_between_front(lines, from, to - 1);
    } else {
        assert(bytes_between(lines, from, to - 1) == 0);
        assert(bytes_between(lines, from + 1, to) == 0);
    }
}

/// A documented name is placed where it stands: `indent + 4` bytes behind
/// the beginning of its line, which lies as far behind the beginning of the
/// section as the section lines before it are long.
pub proof fn lemma_documented_place(
    lines: Seq<Seq<char>>,
    k: nat,
    end: nat,
    offset: nat,
    indent: nat,
    j: nat,
)
    requires
        k <= j < end <= lines.len(),
        documented_name(lines[j as int]) is Some,
    ensures
        documented_in(lines, k, end, offset, indent).contains(
            DocumentedView {
                range: TextRange {
                    start: clamp(offset + bytes_between(lines, k as int, j as int) + indent + 4),
                    end: clamp(
                        offset + bytes_between(lines, k as int, j as int) + indent + 4 + byte_len(
                            documented_name(lines[j as int]).unwrap(),
                        ),
                    ),
                },
                name: documented_name(lines[j as int]).unwrap(),
            },
        ),
    decreases j - k,
{
    let all = documented_in(lines, k, end, offset, indent);
    if j == k {
        assert(all[0].name == documented_name(lines[j as int]).unwrap());
    } else {
        let next = offset + byte_len(lines[k as int]);
        let rest = documented_in(lines, k + 1, end, next, indent);
        lemma_documented_place(lines, k + 1, end, next, indent, j);
        lemma_bytes_between_front(lines, k as int, j as int);
        let name = documented_name(lines[j as int]).unwrap();
        let d = DocumentedView {
            range: TextRange {
                start: clamp(next + bytes_between(lines, k as int + 1, j as int) + indent + 4),
                end: clamp(
                    next + bytes_between(lines, k as int + 1, j as int) + indent + 4 + byte_len(name),
                ),
            },
            name,
        };
        let i = choose|i: int| 0 <= i < rest.len() && rest[i] == d;
        match documented_name(lines[k as int]) {
            Some(_) => {
                assert(all[i + 1] == d);
            },
            None => {
                assert(all[i] == d);
            },
        }
    }
}

/// What is left as undocumented is raised and not documented: every record
/// kept is one of the first `n`, and `docs` does not bear its name.
pub proof fn lemma_undocumented(errors: Seq<RaiseView>, docs: Seq<DocumentedView>, n: nat)
    requires
        n <= errors.len(),
    ensures
        forall|i: int|
            0 <= i < undocumented(errors, docs, n).len() ==> {
                let r = #[trigger] undocumented(errors, docs, n)[i];
                !documents(docs, r.exception().name) && exists|k: int|
                    0 <= k < n && errors[k] == r
            },
    decreases n,
{
    if n > 0 {
        lemma_undocumented(errors, docs, (n - 1) as nat);
        let rest = undocumented(errors, docs, (n - 1) as nat);
        assert forall|i: int| 0 <= i < undocumented(errors, docs, n).len() implies {
            let r = #[trigger] undocumented(errors, docs, n)[i];
            !documents(docs, r.exception().name) && exists|k: int| 0 <= k < n && errors[k] == r
        } by {
            let r = undocumented(errors, docs, n)[i];
            if i < rest.len() {
                let k = choose|k: int| 0 <= k < n - 1 && errors[k] == rest[i];
                assert(0 <= k < n && errors[k] == r);
            } else {
                assert(errors[n - 1] == r);
            }
        }
    }
}

/// What is left as never raised is documented and not raised: every entry
/// kept is one of the first `n`, and no record is about its name.
pub proof fn lemma_never_raised(docs: Seq<DocumentedView>, errors: Seq<RaiseView>, n: nat)
    requires
        n <= docs.len(),
    ensures
        forall|i: int|
            0 <= i < never_raised(docs, errors, n).len() ==> {
                let d = #[trigger] never_raised(docs, errors, n)[i];
                !raises(errors, d.name) && exists|k: int| 0 <= k < n && docs[k] == d
            },
    decreases n,
{
    if n > 0 {
        lemma_never_raised(docs, errors, (n - 1) as nat);
        let rest = never_raised(docs, errors, (n - 1) as nat);
        assert forall|i: int| 0 <= i < never_raised(docs, errors, n).len() implies {
            let d = #[trigger] never_raised(docs, errors, n)[i];
            !raises(errors, d.name) && exists|k: int| 0 <= k < n && docs[k] == d
        } by {
            let d = never_raised(docs, errors, n)[i];
            if i < rest.len() {
                let k = choose|k: int| 0 <= k < n - 1 && docs[k] == rest[i];
                assert(0 <= k < n && docs[k] == d);
            } else {
                assert(docs[n - 1] == d);
            }
        }
    }
}

/// Each record gives its diagnostic, in order.
pub proof fn lemma_raise_diagnostics(errors: Seq<RaiseView>, n: nat)
    requires
        n <= errors.len(),
    ensures
        raise_diagnostics(errors, n).len() == n,
        forall|i: int|
            0 <= i < n ==> #[trigger] raise_diagnostics(errors, n)[i] == errors[i].diagnostic(),
    decreases n,
{
    if n > 0 {
        lemma_raise_diagnostics(errors, (n - 1) as nat);
    }
}

/// Each documented name that is never raised gives its diagnostic, in
/// order, and the diagnostic points at the place of the name.
pub proof fn lemma_extra_diagnostics(file: FileId, docs: Seq<DocumentedView>, n: nat)
    requires
        n <= docs.len(),
    ensures
        extra_diagnostics(file, docs, n).len() == n,
        forall|i: int|
            0 <= i < n ==> #[trigger] extra_diagnostics(file, docs, n)[i] == extra_diagnostic(
                file,
                docs[i],
            ) && extra_diagnostics(file, docs, n)[i].primary == (Span {
                file,
                range: docs[i].range,
            }),
    decreases n,
{
    if n > 0 {
        lemma_extra_diagnostics(file, docs, (n - 1) as nat);
    }
}

/// What the reconciliation of `errors` with the documented names `docs`
/// reports, and nothing else: a diagnostic is that of a record whose name
/// is not documented, or that of a documented name that no record is
/// about. So a record about a documented name, and a name that is raised,
/// give no diagnostic.
pub proof fn lemma_reconciled(
    file: FileId,
    stmts: Seq<Stmt>,
    errors: Seq<RaiseView>,
    docs: Seq<DocumentedView>,
)
    requires
        docstring_of(stmts) matches Some((text, start)) && documented(text, start) == Some(docs),
    ensures
        forall|i: int|
            0 <= i < reconciled(file, stmts, errors).len() ==> {
                let d = #[trigger] reconciled(file, stmts, errors)[i];
                ||| exists|k: int|
                    0 <= k < errors.len() && d == errors[k].diagnostic() && !documents(
                        docs,
                        errors[k].exception().name,
                    )
                ||| exists|j: int|
                    0 <= j < docs.len() && d == extra_diagnostic(file, docs[j]) && !raises(
                        errors,
                        docs[j].name,
                    )
            },
{
    let missing = undocumented(errors, docs, errors.len());
    let extra = never_raised(docs, errors, docs.len());
    lemma_undocumented(errors, docs, errors.len());
    lemma_never_raised(docs, errors, docs.len());
    lemma_raise_diagnostics(missing, missing.len());
    lemma_extra_diagnostics(file, extra, extra.len());
    let first = raise_diagnostics(missing, missing.len());
    let second = extra_diagnostics(file, extra, extra.len());
    assert(reconciled(file, stmts, errors) == first + second);
    assert forall|i: int| 0 <= i < reconciled(file, stmts, errors).len() implies {
        let d = #[trigger] reconciled(file, stmts, errors)[i];
        ||| exists|k: int|
            0 <= k < errors.len() && d == errors[k].diagnostic() && !documents(
                docs,
                errors[k].exception().name,
            )
        ||| exists|j: int|
            0 <= j < docs.len() && d == extra_diagnostic(file, docs[j]) && !raises(
                errors,
                docs[j].name,
            )
    } by {
        let d = reconciled(file, stmts, errors)[i];
        if i < first.len() {
            assert(d == first[i]);
            let r = missing[i];
            let k = choose|k: int| 0 <= k < errors.len() && errors[k] == r;
            assert(d == errors[k].diagnostic() && !documents(docs, errors[k].exception().name));
        } else {
            assert(d == second[i - first.len()]);
            let e = extra[i - first.len()];
            let j = choose|j: int| 0 <= j < docs.len() && docs[j] == e;
            assert(d == extra_diagnostic(file, docs[j]) && !raises(errors, docs[j].name));
        }
    }
}

/// Reconciling the same body with the same records gives the same
/// diagnostics: they depend on nothing else.
pub proof fn lemma_reconciled_repeatable(
    file: FileId,
    stmts: Seq<Stmt>,
    first: Seq<RaiseView>,
    second: Seq<RaiseView>,
)
    requires
        first == second,
    ensures
        reconciled(file, stmts, first) == reconciled(file, stmts, second),
{
}

/// The views of a list of lines.
pub open spec fn line_views(lines: Seq<Vec<char>>) -> Seq<Seq<char>> {
    Seq::new(lines.len(), |i: int| lines[i]@)
}

/// Whether `c` is white space.
pub fn is_whitespace_char(c: char) -> (r: bool)
    ensures
        r == is_whitespace(c),
{
    let u = c as u32;
    (0x09 <= u && u <= 0x0D) || u == 0x20 || u == 0x85 || u == 0xA0 || u == 0x1680 || (0x2000
        <= u && u <= 0x200A) || u == 0x2028 || u == 0x2029 || u == 0x202F || u == 0x205F || u
        == 0x3000
}

/// `String::from_iter` over the characters of `chars`: the string made of
/// them.
#[verifier::external_body]
fn string_from_chars(chars: &Vec<char>) -> (r: String)
    ensures
        r@ == chars@,
{
    String::from_iter(chars.iter())
}

/// The characters of `s`.
pub fn chars_of(s: &str) -> (r: Vec<char>)
    ensures
        r@ == s@,
{
    let mut out: Vec<char> = Vec::new();
    for c in it: s.chars()
        invariant
            it.seq() == s@,
            out@ == it.seq().take(it.index() as int),
    {
        out.push(c);
        assert(out@ =~= it.seq().take(it.index() + 1));
    }
    assert(s@.take(s@.len() as int) =~= s@);
    out
}

/// The number of bytes that `c` takes in UTF-8.
pub fn char_utf8_len(c: char) -> (r: u32)
    ensures
        r == utf8_len(c),
{
    let u = c as u32;
    if u < 0x80 {
        1
    } else if u < 0x800 {
        2
    } else if u < 0x10000 {
        3
    } else {
        4
    }
}

/// `x` as a 32-bit offset.
pub fn clamp_usize(x: usize) -> (r: u32)
    ensures
        r == clamp(x as nat),
{
    if x > 0xFFFF_FFFF {
        u32::MAX
    } else {
        x as u32
    }
}

/// The number of bytes that `line` takes in UTF-8, as a 32-bit offset.
pub fn line_byte_len(line: &Vec<char>) -> (r: u32)
    ensures
        r == clamp(byte_len(line@)),
{
    let mut total: u32 = 0;
    let mut i: usize = 0;
    while i < line.len()
        invariant
            i <= line.len(),
            total == clamp(byte_len(line@.take(i as int))),
        decreases line.len() - i,
    {
        assert(line@.take(i + 1).drop_last() =~= line@.take(i as int));
        total = total.saturating_add(char_utf8_len(line[i]));
        i += 1;
    }
    assert(line@.take(line@.len() as int) =~= line@);
    total
}

/// The lines of `text`.
pub fn split_lines(text: &Vec<char>) -> (r: Vec<Vec<char>>)
    ensures
        line_views(r@) == lines_of(text@),
{
    let mut lines: Vec<Vec<char>> = Vec::new();
    let mut current: Vec<char> = Vec::new();
    let mut i: usize = 0;
    assert(line_views(lines@).push(current@.push('\n')) =~= lines_of(text@.take(0)));
    while i < text.len()
        invariant
            i <= text.len(),
            line_views(lines@).push(current@.push('\n')) == lines_of(text@.take(i as int)),
        decreases text.len() - i,
    {
        let ghost before = line_views(lines@);
        let ghost line = current@;
        let c = text[i];
        assert(text@.take(i + 1).drop_last() =~= text@.take(i as int));
        assert(before.push(line.push('\n')).drop_last() =~= before);
        if c == '\n' {
            current.push('\n');
            lines.push(current);
            current = Vec::new();
            assert(line_views(lines@) =~= before.push(line.push('\n')));
            assert(current@.push('\n') =~= seq!['\n']);
        } else {
            current.push(c);
            assert(line.push('\n').drop_last() =~= line);
        }
        i += 1;
    }
    assert(text@.take(text@.len() as int) =~= text@);
    let ghost before = line_views(lines@);
    current.push('\n');
    lines.push(current);
    assert(line_views(lines@) =~= before.push(current@));
    lines
}

/// Whether the header stands somewhere in `line`.
pub fn has_raises_header(line: &Vec<char>) -> (r: bool)
    ensures
        r == has_header(line@),
{
    if line.len() < 7 {
        assert forall|j: int| !header_at(line@, j) by {}
        return false;
    }
    let mut j: usize = 0;
    while j <= line.len() - 7
        invariant
            line.len() >= 7,
            j <= line.len() - 6,
            forall|k: int| 0 <= k < j ==> !header_at(line@, k),
        decreases line.len() - j,
    {
        if line[j] == 'R' && line[j + 1] == 'a' && line[j + 2] == 'i' && line[j + 3] == 's'
            && line[j + 4] == 'e' && line[j + 5] == 's' && line[j + 6] == ':' {
            assert(line@.subrange(j as int, j + 7) =~= header());
            assert(header_at(line@, j as int));
            return true;
        }
        assert(!header_at(line@, j as int)) by {
            if header_at(line@, j as int) {
                let w = line@.subrange(j as int, j + 7);
                assert(w[0] == 'R' && w[1] == 'a' && w[2] == 'i' && w[3] == 's' && w[4] == 'e'
                    && w[5] == 's' && w[6] == ':');
            }
        }
        j += 1;
    }
    assert forall|k: int| !header_at(line@, k) by {}
    false
}

/// `Itertools::find_position` with [`has_raises_header`] as the test: the
/// position of the first line that holds the header.
#[verifier::external_body]
fn find_header(lines: &Vec<Vec<char>>) -> (r: Option<usize>)
    ensures
        match r {
            Some(h) => h < lines@.len() && has_header(lines@[h as int]@) && forall|k: int|
                0 <= k < h ==> !has_header(#[trigger] lines@[k]@),
            None => forall|k: int| 0 <= k < lines@.len() ==> !has_header(#[trigger] lines@[k]@),
        },
{
    lines.iter().find_position(|l| has_raises_header(l)).map(|(h, _)| h)
}

/// The first line with the header is the first that no line with the header
/// precedes.
proof fn lemma_header_line(lines: Seq<Seq<char>>, k: nat, h: nat)
    requires
        k <= h < lines.len(),
        has_header(lines[h as int]),
        forall|j: int| k <= j < h ==> !has_header(#[trigger] lines[j]),
    ensures
        header_line(lines, k) == Some(h),
    decreases h - k,
{
    if k < h {
        lemma_header_line(lines, k + 1, h);
    }
}

proof fn lemma_no_header_line(lines: Seq<Seq<char>>, k: nat)
    requires
        forall|j: int| k <= j < lines.len() ==> !has_header(#[trigger] lines[j]),
    ensures
        header_line(lines, k).is_none(),
    decreases lines.len() - k,
{
    if k < lines.len() {
        lemma_no_header_line(lines, k + 1);
    }
}

/// How many blank characters begin `line`.
pub fn count_blanks(line: &Vec<char>) -> (r: usize)
    ensures
        r == blanks_from(line@, 0),
{
    let mut i: usize = 0;
    while i < line.len() && is_whitespace_char(line[i]) && line[i] != '\n'
        invariant
            i <= line.len(),
            blanks_from(line@, 0) == i + blanks_from(line@, i as nat),
        decreases line.len() - i,
    {
        i += 1;
    }
    i
}

/// How many white space characters other than line feeds begin `input`.
pub fn count_whitespace_chars_at_start(input: &str) -> (r: usize)
    ensures
        r == blanks_from(input@, 0),
{
    let chars = chars_of(input);
    count_blanks(&chars)
}

/// Whether `line` begins with `width` spaces.
pub fn is_indented(line: &Vec<char>, width: usize) -> (r: bool)
    ensures
        r == indented(line@, width as nat),
{
    if width > line.len() {
        return false;
    }
    let mut j: usize = 0;
    while j < width
        invariant
            j <= width <= line.len(),
            forall|k: int| 0 <= k < j ==> line@[k] == ' ',
        decreases width - j,
    {
        if line[j] != ' ' {
            return false;
        }
        j += 1;
    }
    true
}

/// The position of the first of the lines from `k` on that does not begin
/// with `width` spaces, or the number of lines.
fn find_section_end(lines: &Vec<Vec<char>>, k: usize, width: usize) -> (r: usize)
    requires
        k <= lines@.len(),
    ensures
        r == section_end(line_views(lines@), k as nat, width as nat),
        k <= r <= lines@.len(),
{
    let mut i: usize = k;
    while i < lines.len() && is_indented(&lines[i], width)
        invariant
            k <= i <= lines.len(),
            section_end(line_views(lines@), k as nat, width as nat) == section_end(
                line_views(lines@),
                i as nat,
                width as nat,
            ),
        decreases lines.len() - i,
    {
        assert(line_views(lines@)[i as int] == lines@[i as int]@);
        i += 1;
    }
    proof {
        if i < lines.len() {
            assert(line_views(lines@)[i as int] == lines@[i as int]@);
        }
    }
    i
}

/// The name that `line` documents, if it documents one.
fn parse_documented_name(line: &Vec<char>) -> (r: Option<Vec<char>>)
    ensures
        match r {
            Some(name) => documented_name(line@) == Some(name@),
            None => documented_name(line@).is_none(),
        },
{
    let mut count: usize = 0;
    let mut first: usize = line.len();
    let mut i: usize = 0;
    while i < line.len()
        invariant
            i <= line.len(),
            count == colons(line@, i as nat),
            count <= i,
            count == 0 ==> first == line.len() && colon_from(line@, 0) == colon_from(
                line@,
                i as nat,
            ),
            count > 0 ==> first < i && colon_from(line@, 0) == first,
        decreases line.len() - i,
    {
        if line[i] == ':' {
            if count == 0 {
                first = i;
            }
            count += 1;
        }
        i += 1;
    }
    if count != 1 {
        return None;
    }
    let ghost part = line@.subrange(0, first as int);
    let mut from: usize = 0;
    while from < first && is_whitespace_char(line[from])
        invariant
            from <= first <= line.len(),
            part == line@.subrange(0, first as int),
            spaces_from(part, 0) == from + spaces_from(part, from as nat),
        decreases first - from,
    {
        assert(part[from as int] == line@[from as int]);
        from += 1;
    }
    proof {
        if from < first {
            assert(part[from as int] == line@[from as int]);
        }
    }
    let mut to: usize = first;
    while to > 0 && is_whitespace_char(line[to - 1])
        invariant
            to <= first <= line.len(),
            part == line@.subrange(0, first as int),
            spaces_before(part, first as nat) == (first - to) + spaces_before(part, to as nat),
        decreases to,
    {
        assert(part[to - 1] == line@[to - 1]);
        to -= 1;
    }
    proof {
        if to > 0 {
            assert(part[to - 1] == line@[to - 1]);
        }
    }
    let mut name: Vec<char> = Vec::new();
    if from < to {
        let mut j: usize = from;
        while j < to
            invariant
                from <= j <= to <= first <= line.len(),
                part == line@.subrange(0, first as int),
                name@ == part.subrange(from as int, j as int),
            decreases to - j,
        {
            name.push(line[j]);
            assert(name@ =~= part.subrange(from as int, j + 1));
            j += 1;
        }
    } else {
        assert(name@ =~= Seq::empty());
    }
    Some(name)
}

/// `clamp` of a sum is the saturating sum of the `clamp`s.
proof fn lemma_clamp_add(a: nat, b: nat)
    ensures
        clamp(a + b) == clamp(a).saturating_add(clamp(b)),
{
}

/// What the docstring `text`, which begins at offset `start` of its file,
/// documents under `Raises:`, or nothing if it has no such section.
pub fn documented_exceptions(text: &str, start: u32) -> (r: Option<Vec<DocumentedException>>)
    ensures
        match r {
            Some(docs) => documented(text@, start) == Some(documented_views(docs@)),
            None => documented(text@, start).is_none(),
        },
{
    let chars = chars_of(text);
    let lines = split_lines(&chars);
    let ghost all = line_views(lines@);
    let h = match find_header(&lines) {
        Some(h) => h,
        None => {
            proof {
                assert forall|j: int| 0 <= j < all.len() implies !has_header(#[trigger] all[j]) by {
                    assert(all[j] == lines@[j]@);
                }
                lemma_no_header_line(all, 0);
            }
            return None;
        },
    };
    proof {
        assert(all[h as int] == lines@[h as int]@);
        assert forall|j: int| 0 <= j < h implies !has_header(#[trigger] all[j]) by {
            assert(all[j] == lines@[j]@);
        }
        lemma_header_line(all, 0, h as nat);
    }
    let indent = count_blanks(&lines[h]);
    let mut offset: u32 = start.saturating_add(4);
    let mut k: usize = 1;
    while k <= h
        invariant
            1 <= k <= h + 1,
            h < lines.len(),
            all == line_views(lines@),
            offset == clamp((start + 4 + bytes_between(all, 1, k as int)) as nat),
        decreases h + 1 - k,
    {
        assert(all[k as int] == lines@[k as int]@);
        proof {
            lemma_clamp_add(
                (start + 4 + bytes_between(all, 1, k as int)) as nat,
                byte_len(all[k as int]),
            );
        }
        offset = offset.saturating_add(line_byte_len(&lines[k]));
        k += 1;
    }
    let mut found: Vec<DocumentedException> = Vec::new();
    assert(documented_views(found@) =~= Seq::empty());
    let end = match indent.checked_add(4) {
        Some(width) => find_section_end(&lines, h + 1, width),
        None => {
            assert(section_end(all, (h + 1) as nat, (indent + 4) as nat) == h + 1) by {
                if h + 1 < all.len() {
                    assert(all[h + 1] == lines@[h + 1]@);
                    assert(lines@[h + 1].len() <= usize::MAX);
                }
            }
            h + 1
        },
    };
    let ghost first = (start + 4 + bytes_between(all, 1, h as int + 1)) as nat;
    let ghost mut at: nat = first;
    let step = clamp_usize(indent);
    let mut i: usize = h + 1;
    while i < end
        invariant
            h + 1 <= i <= end <= lines@.len(),
            all == line_views(lines@),
            offset == clamp(at),
            step == clamp(indent as nat),
            documented_in(all, (h + 1) as nat, end as nat, first, indent as nat)
                == documented_views(found@) + documented_in(
                all,
                i as nat,
                end as nat,
                at,
                indent as nat,
            ),
        decreases end - i,
    {
        let ghost before = documented_views(found@);
        assert(all[i as int] == lines@[i as int]@);
        let width = line_byte_len(&lines[i]);
        proof {
            lemma_clamp_add(at, byte_len(all[i as int]));
        }
        match parse_documented_name(&lines[i]) {
            Some(name) => {
                proof {
                    lemma_clamp_add(at, indent as nat);
                    lemma_clamp_add((at + indent) as nat, 4);
                    lemma_clamp_add((at + indent + 4) as nat, byte_len(name@));
                }
                let begin = offset.saturating_add(step).saturating_add(4);
                let finish = begin.saturating_add(line_byte_len(&name));
                let doc = DocumentedException {
                    range: TextRange::new(begin, finish),
                    name: string_from_chars(&name),
                };
                found.push(doc);
                proof {
                    assert(documented_views(found@) =~= before.push(doc@));
                    let rest = documented_in(
                        all,
                        (i + 1) as nat,
                        end as nat,
                        at + byte_len(all[i as int]),
                        indent as nat,
                    );
                    assert(before + (seq![doc@] + rest) =~= before.push(doc@) + rest);
                }
            },
            None => {},
        }
        offset = offset.saturating_add(width);
        proof {
            at = at + byte_len(all[i as int]);
        }
        i += 1;
    }
    Some(found)
}

/// Whether one of `docs` bears the name of the exception of `error`.
fn is_documented(error: &FunctionRaise, docs: &Vec<DocumentedException>) -> (r: bool)
    ensures
        r == documents(documented_views(docs@), error@.exception().name),
{
    let name = error.group_key();
    let mut j: usize = 0;
    while j < docs.len()
        invariant
            j <= docs.len(),
            name@ == error@.exception().name,
            forall|k: int| 0 <= k < j ==> (#[trigger] documented_views(docs@)[k]).name != name@,
        decreases docs.len() - j,
    {
        assert(documented_views(docs@)[j as int] == docs@[j as int]@);
        if docs[j].name == name {
            return true;
        }
        j += 1;
    }
    false
}

/// Whether one of `errors` is about the exception that `doc` names.
fn is_raised(doc: &DocumentedException, errors: &Vec<FunctionRaise>) -> (r: bool)
    ensures
        r == raises(raise_views(errors@), doc@.name),
{
    let mut j: usize = 0;
    while j < errors.len()
        invariant
            j <= errors.len(),
            forall|k: int|
                0 <= k < j ==> (#[trigger] raise_views(errors@)[k]).exception().name != doc@.name,
        decreases errors.len() - j,
    {
        assert(raise_views(errors@)[j as int] == errors@[j as int]@);
        let name = errors[j].group_key();
        if name == doc.name {
            return true;
        }
        j += 1;
    }
    false
}

/// The records whose exception `documented` does not name, and the
/// documented exceptions that no record is about, each in its own order.
pub fn difference_by_key(errors: &Vec<FunctionRaise>, documented: &Vec<DocumentedException>) -> (r:
    (Vec<FunctionRaise>, Vec<DocumentedException>))
    ensures
        raise_views(r.0@) == undocumented(
            raise_views(errors@),
            documented_views(documented@),
            errors@.len(),
        ),
        documented_views(r.1@) == never_raised(
            documented_views(documented@),
            raise_views(errors@),
            documented@.len(),
        ),
{
    let mut only_in_a: Vec<FunctionRaise> = Vec::new();
    let mut i: usize = 0;
    assert(raise_views(only_in_a@) =~= Seq::empty());
    while i < errors.len()
        invariant
            i <= errors.len(),
            raise_views(only_in_a@) == undocumented(
                raise_views(errors@),
                documented_views(documented@),
                i as nat,
            ),
        decreases errors.len() - i,
    {
        let ghost before = raise_views(only_in_a@);
        assert(raise_views(errors@)[i as int] == errors@[i as int]@);
        if !is_documented(&errors[i], documented) {
            only_in_a.push(errors[i].clone());
            assert(raise_views(only_in_a@) =~= before.push(errors@[i as int]@));
        }
        i += 1;
    }
    let mut only_in_b: Vec<DocumentedException> = Vec::new();
    let mut j: usize = 0;
    assert(documented_views(only_in_b@) =~= Seq::empty());
    while j < documented.len()
        invariant
            j <= documented.len(),
            documented_views(only_in_b@) == never_raised(
                documented_views(documented@),
                raise_views(errors@),
                j as nat,
            ),
        decreases documented.len() - j,
    {
        let ghost before = documented_views(only_in_b@);
        assert(documented_views(documented@)[j as int] == documented@[j as int]@);
        if !is_raised(&documented[j], errors) {
            let doc = DocumentedException {
                range: documented[j].range,
                name: documented[j].name.clone(),
            };
            only_in_b.push(doc);
            assert(documented_views(only_in_b@) =~= before.push(documented@[j as int]@));
        }
        j += 1;
    }
    (only_in_a, only_in_b)
}

/// The diagnostics for the records `errors`.
fn raise_diagnostics_for(errors: &Vec<FunctionRaise>) -> (r: Vec<Diagnostic>)
    ensures
        diagnostic_views(r@) == raise_diagnostics(raise_views(errors@), errors@.len()),
{
    let mut out: Vec<Diagnostic> = Vec::new();
    let mut i: usize = 0;
    assert(diagnostic_views(out@) =~= Seq::empty());
    while i < errors.len()
        invariant
            i <= errors.len(),
            diagnostic_views(out@) == raise_diagnostics(raise_views(errors@), i as nat),
        decreases errors.len() - i,
    {
        let ghost before = diagnostic_views(out@);
        assert(raise_views(errors@)[i as int] == errors@[i as int]@);
        let d = errors[i].to_diagnostic();
        out.push(d);
        assert(diagnostic_views(out@) =~= before.push(d@));
        i += 1;
    }
    out
}

/// The docstring of the function body `stmts`, with the offset at which it
/// begins.
pub fn docstring_from(stmts: &Vec<Stmt>) -> (r: Option<(&String, u32)>)
    ensures
        match r {
            Some((text, start)) => docstring_of(stmts@) == Some((text@, start)),
            None => docstring_of(stmts@).is_none(),
        },
{
    if stmts.len() == 0 {
        return None;
    }
    match &stmts[0] {
        Stmt::Expr(e) => match &e.value {
            Expr::StringLiteral(lit) => Some((&lit.value, e.range.start)),
            _ => None,
        },
        _ => None,
    }
}

/// The diagnostics for a function of `file` with the body `stmts` of which
/// the analysis reports `errors`: one for each record whose exception the
/// `Raises:` section of the docstring does not name, then one for each name
/// in that section that no record is about. Without a docstring, or without
/// that section, every record gives a diagnostic.
pub fn compare_documented_exceptions(
    file: FileId,
    stmts: &Vec<Stmt>,
    errors: &Vec<FunctionRaise>,
) -> (r: Vec<Diagnostic>)
    ensures
        diagnostic_views(r@) == reconciled(file, stmts@, raise_views(errors@)),
{
    let docs = match docstring_from(stmts) {
        Some((text, start)) => documented_exceptions(text.as_str(), start),
        None => None,
    };
    match docs {
        None => raise_diagnostics_for(errors),
        Some(docs) => {
            let (undocumented_errors, extra_documented_errors) = difference_by_key(errors, &docs);
            let mut diagnostics = raise_diagnostics_for(&undocumented_errors);
            let ghost first = diagnostic_views(diagnostics@);
            let ghost extra = documented_views(extra_documented_errors@);
            let mut i: usize = 0;
            assert(first + extra_diagnostics(file, extra, 0) =~= first);
            while i < extra_documented_errors.len()
                invariant
                    i <= extra_documented_errors.len(),
                    extra == documented_views(extra_documented_errors@),
                    diagnostic_views(diagnostics@) == first + extra_diagnostics(
                        file,
                        extra,
                        i as nat,
                    ),
                decreases extra_documented_errors.len() - i,
            {
                let ghost before = diagnostic_views(diagnostics@);
                let doc = &extra_documented_errors[i];
                assert(extra[i as int] == doc@);
                let message = String::from_str(
                    "Documents extra error that is never raised ",
                ).concat(doc.name.as_str());
                let d = Diagnostic {
                    lint: Lint::ExtraDocumentedError,
                    message,
                    primary: Span { file, range: doc.range },
                    secondary: Vec::new(),
                };
                assert(d@.secondary =~= Seq::empty());
                assert(d@ == extra_diagnostic(file, doc@));
                diagnostics.push(d);
                assert(diagnostic_views(diagnostics@) =~= before.push(d@));
                assert(first + extra_diagnostics(file, extra, (i + 1) as nat) =~= (first
                    + extra_diagnostics(file, extra, i as nat)).push(d@));
                i += 1;
            }
            diagnostics
        },
    }
}

} // verus!
