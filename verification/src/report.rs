//! From the records gathered in a function to the records reported for it:
//! ordered, and one for each exception name.

use vstd::prelude::*;
use itertools::Itertools;
use crate::raise::{raise_views, FunctionRaise, RaiseView};
use crate::text::{FileId, TextRange};

verus! {

/// The order of names: that of strings, which compares them character by
/// character, by code point, a proper prefix coming first.
pub open spec fn text_le(a: Seq<char>, b: Seq<char>) -> bool
    decreases a.len(),
{
    if a.len() == 0 {
        true
    } else if b.len() == 0 {
        false
    } else if a[0] != b[0] {
        (a[0] as u32) < (b[0] as u32)
    } else {
        text_le(a.skip(1), b.skip(1))
    }
}

/// The order of records: by the exception's name, then direct before
/// transitive, then by depth.
pub open spec fn key_le(a: RaiseView, b: RaiseView) -> bool {
    let x = a.exception().name;
    let y = b.exception().name;
    if x != y {
        text_le(x, y)
    } else if a.rank() != b.rank() {
        a.rank() < b.rank()
    } else {
        a.depth() <= b.depth()
    }
}

/// The ordered sequence `s` with `x` put in after every record that does not
/// come after it.
pub open spec fn inserted(s: Seq<RaiseView>, x: RaiseView) -> Seq<RaiseView>
    decreases s.len(),
{
    if s.len() == 0 {
        seq![x]
    } else if key_le(s.last(), x) {
        s.push(x)
    } else {
        inserted(s.drop_last(), x).push(s.last())
    }
}

/// The records of `s` in ascending order, records that compare equal staying
/// in the order in which they stand in `s`.
pub open spec fn sorted(s: Seq<RaiseView>) -> Seq<RaiseView>
    decreases s.len(),
{
    if s.len() == 0 {
        s
    } else {
        inserted(sorted(s.drop_last()), s.last())
    }
}

/// `s` cut into its runs: the longest stretches of neighbours that are about
/// the same exception name.
pub open spec fn runs(s: Seq<RaiseView>) -> Seq<Seq<RaiseView>>
    decreases s.len(),
{
    if s.len() == 0 {
        Seq::empty()
    } else {
        let before = runs(s.drop_last());
        if before.len() > 0 && before.last().len() > 0 && before.last().last().exception().name
            == s.last().exception().name {
            before.drop_last().push(before.last().push(s.last()))
        } else {
            before.push(seq![s.last()])
        }
    }
}

/// The first record of each of the first `n` runs.
pub open spec fn firsts(groups: Seq<Seq<RaiseView>>, n: nat) -> Seq<RaiseView>
    decreases n,
{
    if n == 0 || n > groups.len() {
        Seq::empty()
    } else {
        let rest = firsts(groups, (n - 1) as nat);
        if groups[n - 1].len() > 0 {
            rest.push(groups[n - 1][0])
        } else {
            rest
        }
    }
}

/// What is reported of the gathered records `s`: they are put in order, and
/// of the records about one exception name the first is kept. So a direct
/// record wins over a transitive one, a shallow chain over a deeper one, and
/// among equals the one gathered first.
pub open spec fn report(s: Seq<RaiseView>) -> Seq<RaiseView> {
    let groups = runs(sorted(s));
    firsts(groups, groups.len())
}

/// Putting a record in adds that record and nothing else.
pub proof fn lemma_inserted_contains(s: Seq<RaiseView>, x: RaiseView)
    ensures
        forall|i: int|
            0 <= i < inserted(s, x).len() ==> (#[trigger] inserted(s, x)[i]) == x || s.contains(
                inserted(s, x)[i],
            ),
    decreases s.len(),
{
    if s.len() == 0 {
    } else if key_le(s.last(), x) {
        assert forall|i: int| 0 <= i < inserted(s, x).len() implies (#[trigger] inserted(s, x)[i])
            == x || s.contains(inserted(s, x)[i]) by {
            if i < s.len() {
                assert(s[i] == inserted(s, x)[i]);
            }
        }
    } else {
        lemma_inserted_contains(s.drop_last(), x);
        let t = inserted(s.drop_last(), x);
        assert forall|i: int| 0 <= i < inserted(s, x).len() implies (#[trigger] inserted(s, x)[i])
            == x || s.contains(inserted(s, x)[i]) by {
            if i < t.len() {
                if t[i] != x {
                    let k = choose|k: int| 0 <= k < s.drop_last().len() && s.drop_last()[k] == t[i];
                    assert(s[k] == t[i]);
                }
            } else {
                assert(s[s.len() - 1] == inserted(s, x)[i]);
            }
        }
    }
}

/// Ordering the records brings in none that was not there.
pub proof fn lemma_sorted_contains(s: Seq<RaiseView>)
    ensures
        forall|i: int| 0 <= i < sorted(s).len() ==> s.contains(#[trigger] sorted(s)[i]),
    decreases s.len(),
{
    if s.len() > 0 {
        lemma_sorted_contains(s.drop_last());
        lemma_inserted_contains(sorted(s.drop_last()), s.last());
        let t = sorted(s.drop_last());
        assert forall|i: int| 0 <= i < sorted(s).len() implies s.contains(
            #[trigger] sorted(s)[i],
        ) by {
            let y = sorted(s)[i];
            if y == s.last() {
                assert(s[s.len() - 1] == y);
            } else {
                let k = choose|k: int| 0 <= k < t.len() && t[k] == y;
                let m = choose|m: int| 0 <= m < s.drop_last().len() && s.drop_last()[m] == t[k];
                assert(s[m] == y);
            }
        }
    }
}

/// Every record of every run is a record of the sequence that was cut.
pub proof fn lemma_runs_contains(s: Seq<RaiseView>)
    ensures
        forall|i: int, j: int|
            0 <= i < runs(s).len() && 0 <= j < runs(s)[i].len() ==> s.contains(
                #[trigger] runs(s)[i][j],
            ),
    decreases s.len(),
{
    if s.len() > 0 {
        lemma_runs_contains(s.drop_last());
        let before = runs(s.drop_last());
        assert forall|i: int, j: int|
            0 <= i < runs(s).len() && 0 <= j < runs(s)[i].len() implies s.contains(
            #[trigger] runs(s)[i][j],
        ) by {
            let y = runs(s)[i][j];
            if y == s.last() {
                assert(s[s.len() - 1] == y);
            } else {
                assert(i < before.len() && j < before[i].len() && before[i][j] == y);
                let m = choose|m: int| 0 <= m < s.drop_last().len() && s.drop_last()[m] == y;
                assert(s[m] == y);
            }
        }
    }
}

/// The first record of a run is a record of that run.
pub proof fn lemma_firsts_contains(groups: Seq<Seq<RaiseView>>, n: nat)
    requires
        n <= groups.len(),
    ensures
        forall|k: int|
            0 <= k < firsts(groups, n).len() ==> exists|i: int|
                0 <= i < n && groups[i].len() > 0 && groups[i][0] == #[trigger] firsts(
                    groups,
                    n,
                )[k],
    decreases n,
{
    if n > 0 {
        lemma_firsts_contains(groups, (n - 1) as nat);
        let rest = firsts(groups, (n - 1) as nat);
        assert forall|k: int| 0 <= k < firsts(groups, n).len() implies exists|i: int|
            0 <= i < n && groups[i].len() > 0 && groups[i][0] == #[trigger] firsts(groups, n)[k] by {
            if k < rest.len() {
                let i = choose|i: int|
                    0 <= i < n - 1 && groups[i].len() > 0 && groups[i][0] == rest[k];
                assert(0 <= i < n && groups[i].len() > 0 && groups[i][0] == firsts(groups, n)[k]);
            } else {
                assert(groups[n - 1].len() > 0 && groups[n - 1][0] == firsts(groups, n)[k]);
            }
        }
    }
}

/// Every reported record is one of the gathered records.
pub proof fn lemma_report_contains(s: Seq<RaiseView>)
    ensures
        forall|k: int| 0 <= k < report(s).len() ==> s.contains(#[trigger] report(s)[k]),
{
    let groups = runs(sorted(s));
    lemma_firsts_contains(groups, groups.len());
    lemma_runs_contains(sorted(s));
    lemma_sorted_contains(s);
    assert forall|k: int| 0 <= k < report(s).len() implies s.contains(#[trigger] report(s)[k]) by {
        let i = choose|i: int|
            0 <= i < groups.len() && groups[i].len() > 0 && groups[i][0] == report(s)[k];
        assert(sorted(s).contains(groups[i][0]));
        let m = choose|m: int| 0 <= m < sorted(s).len() && sorted(s)[m] == groups[i][0];
        assert(s.contains(sorted(s)[m]));
    }
}

/// Every name is at most itself.
pub proof fn lemma_text_le_reflexive(a: Seq<char>)
    ensures
        text_le(a, a),
    decreases a.len(),
{
    if a.len() > 0 {
        lemma_text_le_reflexive(a.skip(1));
    }
}

/// Of two names one is at most the other.
pub proof fn lemma_text_le_total(a: Seq<char>, b: Seq<char>)
    ensures
        text_le(a, b) || text_le(b, a),
    decreases a.len(),
{
    if a.len() > 0 && b.len() > 0 {
        if a[0] == b[0] {
            lemma_text_le_total(a.skip(1), b.skip(1));
        } else {
            vstd::utf8::char_u32_cast(a[0], a[0] as u32);
            vstd::utf8::char_u32_cast(b[0], b[0] as u32);
        }
    }
}

/// Two names that are each at most the other are the same name.
pub proof fn lemma_text_le_antisymmetric(a: Seq<char>, b: Seq<char>)
    requires
        text_le(a, b),
        text_le(b, a),
    ensures
        a == b,
    decreases a.len(),
{
    if a.len() == 0 {
        assert(b.len() == 0);
        assert(a =~= b);
    } else {
        assert(b.len() > 0);
        assert(a[0] == b[0]);
        lemma_text_le_antisymmetric(a.skip(1), b.skip(1));
        assert(a =~= seq![a[0]] + a.skip(1));
        assert(b =~= seq![b[0]] + b.skip(1));
    }
}

/// The order of names is transitive.
pub proof fn lemma_text_le_transitive(a: Seq<char>, b: Seq<char>, c: Seq<char>)
    requires
        text_le(a, b),
        text_le(b, c),
    ensures
        text_le(a, c),
    decreases a.len(),
{
    if a.len() > 0 {
        assert(b.len() > 0);
        assert(c.len() > 0);
        if a[0] == b[0] && b[0] == c[0] {
            lemma_text_le_transitive(a.skip(1), b.skip(1), c.skip(1));
        }
    }
}

/// Of two records one does not come after the other.
pub proof fn lemma_key_le_total(a: RaiseView, b: RaiseView)
    ensures
        key_le(a, b) || key_le(b, a),
{
    lemma_text_le_total(a.exception().name, b.exception().name);
}

/// The order of records is transitive.
pub proof fn lemma_key_le_transitive(a: RaiseView, b: RaiseView, c: RaiseView)
    requires
        key_le(a, b),
        key_le(b, c),
    ensures
        key_le(a, c),
{
    let x = a.exception().name;
    let y = b.exception().name;
    let z = c.exception().name;
    lemma_text_le_reflexive(x);
    lemma_text_le_reflexive(y);
    lemma_text_le_transitive(x, y, z);
    if x == z && x != y {
        lemma_text_le_antisymmetric(x, y);
    }
}

/// A record lifted through a call is about the same name and comes after
/// the record it points to.
pub proof fn lemma_lifted_comes_later(
    r: RaiseView,
    file: FileId,
    range: TextRange,
)
    ensures
        r.lifted(file, range).exception().name == r.exception().name,
        key_le(r, r.lifted(file, range)),
        !key_le(r.lifted(file, range), r),
{
    lemma_text_le_reflexive(r.exception().name);
}

/// Whether no record of `s` comes after a later one.
pub open spec fn ordered(s: Seq<RaiseView>) -> bool {
    forall|i: int, j: int| 0 <= i < j < s.len() ==> key_le(#[trigger] s[i], #[trigger] s[j])
}

/// Whether the names of the records of `s` ascend strictly.
pub open spec fn names_ascend(s: Seq<RaiseView>) -> bool {
    forall|i: int, j: int|
        0 <= i < j < s.len() ==> text_le(
            (#[trigger] s[i]).exception().name,
            (#[trigger] s[j]).exception().name,
        ) && s[i].exception().name != s[j].exception().name
}

/// Whether no two records of `s` are about the same exception name.
pub open spec fn names_distinct(s: Seq<RaiseView>) -> bool {
    forall|i: int, j: int|
        0 <= i < j < s.len() ==> (#[trigger] s[i]).exception().name
            != (#[trigger] s[j]).exception().name
}

/// Putting a record into an ordered sequence leaves it ordered.
pub proof fn lemma_inserted_ordered(s: Seq<RaiseView>, x: RaiseView)
    requires
        ordered(s),
    ensures
        ordered(inserted(s, x)),
        inserted(s, x).len() == s.len() + 1,
    decreases s.len(),
{
    if s.len() == 0 {
    } else if key_le(s.last(), x) {
        assert forall|i: int, j: int| 0 <= i < j < inserted(s, x).len() implies key_le(
            #[trigger] inserted(s, x)[i],
            #[trigger] inserted(s, x)[j],
        ) by {
            if j == s.len() {
                if i < s.len() - 1 {
                    lemma_key_le_transitive(s[i], s.last(), x);
                }
            }
        }
    } else {
        let t = inserted(s.drop_last(), x);
        lemma_inserted_ordered(s.drop_last(), x);
        lemma_inserted_contains(s.drop_last(), x);
        lemma_key_le_total(s.last(), x);
        assert forall|i: int, j: int| 0 <= i < j < inserted(s, x).len() implies key_le(
            #[trigger] inserted(s, x)[i],
            #[trigger] inserted(s, x)[j],
        ) by {
            if j == t.len() {
                if t[i] != x {
                    let k = choose|k: int| 0 <= k < s.drop_last().len() && s.drop_last()[k] == t[i];
                    assert(key_le(s[k], s[s.len() - 1]));
                }
            } else {
                assert(key_le(t[i], t[j]));
            }
        }
    }
}

/// The sorted sequence is ordered and as long as the one it came from.
pub proof fn lemma_sorted_ordered(s: Seq<RaiseView>)
    ensures
        ordered(sorted(s)),
        sorted(s).len() == s.len(),
    decreases s.len(),
{
    if s.len() > 0 {
        lemma_sorted_ordered(s.drop_last());
        lemma_inserted_ordered(sorted(s.drop_last()), s.last());
    }
}

/// What holds of the runs of an ordered sequence: no run is empty, the
/// records of a run share their name, the last run bears the name of the
/// last record, and the names of the runs ascend strictly.
pub open spec fn runs_ok(s: Seq<RaiseView>, g: Seq<Seq<RaiseView>>) -> bool {
    &&& forall|i: int| 0 <= i < g.len() ==> (#[trigger] g[i]).len() > 0
    &&& forall|i: int, j: int|
        0 <= i < g.len() && 0 <= j < g[i].len() ==> (#[trigger] g[i][j]).exception().name
            == g[i][0].exception().name
    &&& s.len() > 0 ==> g.len() > 0 && g.last()[0].exception().name == s.last().exception().name
    &&& s.len() == 0 ==> g.len() == 0
    &&& forall|i: int, j: int|
        0 <= i < j < g.len() ==> text_le(
            (#[trigger] g[i])[0].exception().name,
            (#[trigger] g[j])[0].exception().name,
        ) && g[i][0].exception().name != g[j][0].exception().name
}

/// The runs of an ordered sequence are as [`runs_ok`] says.
pub proof fn lemma_runs_ok(s: Seq<RaiseView>)
    requires
        ordered(s),
    ensures
        runs_ok(s, runs(s)),
    decreases s.len(),
{
    if s.len() > 0 {
        let r = s.drop_last();
        let x = s.last();
        assert(ordered(r)) by {
            assert forall|i: int, j: int| 0 <= i < j < r.len() implies key_le(
                #[trigger] r[i],
                #[trigger] r[j],
            ) by {
                assert(key_le(s[i], s[j]));
            }
        }
        lemma_runs_ok(r);
        let before = runs(r);
        let g = runs(s);
        if before.len() > 0 && before.last().len() > 0 && before.last().last().exception().name
            == x.exception().name {
            assert forall|i: int, j: int|
                0 <= i < g.len() && 0 <= j < g[i].len() implies (#[trigger] g[i][j]).exception().name
                == g[i][0].exception().name by {
                if i == g.len() - 1 {
                    if j < before.last().len() {
                        assert(g[i][j] == before.last()[j]);
                    }
                    assert(g[i][0] == before.last()[0]);
                    assert(before.last().last() == before.last()[before.last().len() - 1]);
                } else {
                    assert(g[i] == before[i]);
                }
            }
            assert forall|i: int, j: int| 0 <= i < j < g.len() implies text_le(
                (#[trigger] g[i])[0].exception().name,
                (#[trigger] g[j])[0].exception().name,
            ) && g[i][0].exception().name != g[j][0].exception().name by {
                assert(g[i] == before[i]);
                assert(g[j][0] == before[j][0]);
            }
        } else {
            if r.len() > 0 {
                let last = before.last();
                assert(last[0].exception().name == r.last().exception().name);
                assert(last.last() == last[last.len() - 1]);
                assert(last.last().exception().name == last[0].exception().name);
                assert(key_le(s[r.len() - 1], s[s.len() - 1]));
                assert(r.last() == s[r.len() - 1]);
                lemma_text_le_reflexive(x.exception().name);
                assert(text_le(last[0].exception().name, x.exception().name));
            }
            assert forall|i: int, j: int| 0 <= i < j < g.len() implies text_le(
                (#[trigger] g[i])[0].exception().name,
                (#[trigger] g[j])[0].exception().name,
            ) && g[i][0].exception().name != g[j][0].exception().name by {
                assert(g[i] == before[i]);
                if j == g.len() - 1 {
                    let last = before.last();
                    if i < before.len() - 1 {
                        lemma_text_le_transitive(
                            before[i][0].exception().name,
                            last[0].exception().name,
                            x.exception().name,
                        );
                        if before[i][0].exception().name == x.exception().name {
                            lemma_text_le_antisymmetric(
                                before[i][0].exception().name,
                                last[0].exception().name,
                            );
                        }
                    }
                } else {
                    assert(g[j] == before[j]);
                }
            }
        }
    }
}

/// The first records of runs that are as [`runs_ok`] says are as many as
/// the runs, and each is the first of its run.
pub proof fn lemma_firsts_of_runs(g: Seq<Seq<RaiseView>>, n: nat)
    requires
        n <= g.len(),
        forall|i: int| 0 <= i < g.len() ==> (#[trigger] g[i]).len() > 0,
    ensures
        firsts(g, n).len() == n,
        forall|i: int| 0 <= i < n ==> (#[trigger] firsts(g, n)[i]) == g[i][0],
    decreases n,
{
    if n > 0 {
        lemma_firsts_of_runs(g, (n - 1) as nat);
    }
}

/// The reported records stand in strictly ascending order of their names:
/// no two of them are about the same exception name.
pub proof fn lemma_report_names_ascend(s: Seq<RaiseView>)
    ensures
        names_ascend(report(s)),
        names_distinct(report(s)),
{
    lemma_sorted_ordered(s);
    lemma_runs_ok(sorted(s));
    let g = runs(sorted(s));
    lemma_firsts_of_runs(g, g.len());
    assert forall|i: int, j: int| 0 <= i < j < report(s).len() implies text_le(
        (#[trigger] report(s)[i]).exception().name,
        (#[trigger] report(s)[j]).exception().name,
    ) && report(s)[i].exception().name != report(s)[j].exception().name by {
        assert(report(s)[i] == g[i][0]);
        assert(report(s)[j] == g[j][0]);
    }
}

/// A sequence whose names ascend strictly is ordered.
pub proof fn lemma_ascending_is_ordered(s: Seq<RaiseView>)
    requires
        names_ascend(s),
    ensures
        ordered(s),
{
}

/// Sorting an ordered sequence changes nothing.
pub proof fn lemma_sorted_of_ordered(s: Seq<RaiseView>)
    requires
        ordered(s),
    ensures
        sorted(s) == s,
    decreases s.len(),
{
    if s.len() > 0 {
        let r = s.drop_last();
        assert(ordered(r)) by {
            assert forall|i: int, j: int| 0 <= i < j < r.len() implies key_le(
                #[trigger] r[i],
                #[trigger] r[j],
            ) by {
                assert(key_le(s[i], s[j]));
            }
        }
        lemma_sorted_of_ordered(r);
        if r.len() > 0 {
            assert(key_le(s[r.len() - 1], s[s.len() - 1]));
            assert(r.last() == s[r.len() - 1]);
        }
        assert(r.push(s.last()) =~= s);
    }
}

/// A sequence whose names differ from neighbour to neighbour is cut into
/// runs of one record each.
pub proof fn lemma_runs_of_distinct(s: Seq<RaiseView>)
    requires
        names_distinct(s),
    ensures
        runs(s).len() == s.len(),
        forall|i: int| 0 <= i < s.len() ==> (#[trigger] runs(s)[i]) == seq![s[i]],
    decreases s.len(),
{
    if s.len() > 0 {
        let r = s.drop_last();
        assert(names_distinct(r)) by {
            assert forall|i: int, j: int| 0 <= i < j < r.len() implies (#[trigger] r[i]).exception().name
                != (#[trigger] r[j]).exception().name by {
                assert(s[i].exception().name != s[j].exception().name);
            }
        }
        lemma_runs_of_distinct(r);
        if r.len() > 0 {
            let before = runs(r);
            assert(before.last() == seq![r[r.len() - 1]]);
            assert(before.last().last() == r[r.len() - 1]);
            assert(s[r.len() - 1].exception().name != s[s.len() - 1].exception().name);
        }
    }
}

/// Reporting what has been reported changes nothing.
pub proof fn lemma_report_idempotent(s: Seq<RaiseView>)
    ensures
        report(report(s)) == report(s),
{
    let r = report(s);
    lemma_report_names_ascend(s);
    lemma_ascending_is_ordered(r);
    lemma_sorted_of_ordered(r);
    lemma_runs_of_distinct(r);
    let g = runs(r);
    lemma_firsts_of_runs(g, g.len());
    assert(report(r) =~= r);
}

/// The views of a list of groups of records.
pub open spec fn group_views(groups: Seq<Vec<FunctionRaise>>) -> Seq<Seq<RaiseView>> {
    Seq::new(groups.len(), |i: int| raise_views(groups[i]@))
}

/// Putting a record in keeps every record that was there, and adds the one
/// put in.
pub proof fn lemma_inserted_has(s: Seq<RaiseView>, x: RaiseView)
    ensures
        inserted(s, x).contains(x),
        forall|i: int| 0 <= i < s.len() ==> inserted(s, x).contains(#[trigger] s[i]),
    decreases s.len(),
{
    if s.len() == 0 {
        assert(inserted(s, x)[0] == x);
    } else if key_le(s.last(), x) {
        assert(inserted(s, x)[s.len() as int] == x);
        assert forall|i: int| 0 <= i < s.len() implies inserted(s, x).contains(
            #[trigger] s[i],
        ) by {
            assert(inserted(s, x)[i] == s[i]);
        }
    } else {
        let t = inserted(s.drop_last(), x);
        lemma_inserted_has(s.drop_last(), x);
        let m = choose|m: int| 0 <= m < t.len() && t[m] == x;
        assert(inserted(s, x)[m] == x);
        assert forall|i: int| 0 <= i < s.len() implies inserted(s, x).contains(
            #[trigger] s[i],
        ) by {
            if i < s.len() - 1 {
                assert(s.drop_last()[i] == s[i]);
                let k = choose|k: int| 0 <= k < t.len() && t[k] == s[i];
                assert(inserted(s, x)[k] == s[i]);
            } else {
                assert(inserted(s, x)[t.len() as int] == s[i]);
            }
        }
    }
}

/// Ordering the records loses none.
pub proof fn lemma_sorted_has(s: Seq<RaiseView>)
    ensures
        forall|i: int| 0 <= i < s.len() ==> sorted(s).contains(#[trigger] s[i]),
    decreases s.len(),
{
    if s.len() > 0 {
        let t = sorted(s.drop_last());
        lemma_sorted_has(s.drop_last());
        lemma_inserted_has(t, s.last());
        assert forall|i: int| 0 <= i < s.len() implies sorted(s).contains(#[trigger] s[i]) by {
            if i < s.len() - 1 {
                assert(s.drop_last()[i] == s[i]);
                let k = choose|k: int| 0 <= k < t.len() && t[k] == s[i];
                assert(inserted(t, s.last()).contains(t[k]));
            }
        }
    }
}

/// The runs of a sequence cut it into its runs.
pub proof fn lemma_runs_cut(s: Seq<RaiseView>)
    ensures
        cut_into_runs(s, runs(s)),
    decreases s.len(),
{
    if s.len() == 0 {
        assert(joined(runs(s)) =~= s);
    } else {
        let s1 = s.drop_last();
        lemma_runs_cut(s1);
        let before = runs(s1);
        let g = runs(s);
        if before.len() > 0 && before.last().len() > 0 && before.last().last().exception().name
            == s.last().exception().name {
            let last = before.last();
            assert(last == before[before.len() - 1]);
            assert(last.last() == last[last.len() - 1]);
            assert(g.drop_last() =~= before.drop_last());
            assert(g.last() =~= last.push(s.last()));
            assert(joined(g) =~= joined(before.drop_last()) + last.push(s.last()));
            assert(joined(before) == joined(before.drop_last()) + last);
            assert(joined(before) == s1);
            assert(s1 + seq![s.last()] =~= s);
            assert(joined(g) =~= s);
            assert forall|i: int, j: int|
                0 <= i < g.len() && 0 <= j < g[i].len() implies (#[trigger] g[i][j]).exception().name
                == g[i][0].exception().name by {
                if i == g.len() - 1 {
                    if j < last.len() {
                        assert(g[i][j] == last[j]);
                    }
                    assert(g[i][0] == last[0]);
                } else {
                    assert(g[i] == before[i]);
                }
            }
            assert forall|i: int| 0 <= i < g.len() - 1 implies (#[trigger] g[i])[0].exception().name
                != g[i + 1][0].exception().name by {
                assert(g[i] == before[i]);
                assert(g[i + 1][0] == before[i + 1][0]);
            }
        } else {
            assert(g =~= before.push(seq![s.last()]));
            assert(g.drop_last() =~= before);
            assert(g.last() =~= seq![s.last()]);
            assert(joined(before) == s1);
            assert(s1 + seq![s.last()] =~= s);
            assert(joined(g) =~= s);
            assert forall|i: int| 0 <= i < g.len() - 1 implies (#[trigger] g[i])[0].exception().name
                != g[i + 1][0].exception().name by {
                assert(g[i] == before[i]);
                if i == g.len() - 2 {
                    let last = before.last();
                    assert(last == before[before.len() - 1]);
                    assert(last.last() == last[last.len() - 1]);
                } else {
                    assert(g[i + 1] == before[i + 1]);
                }
            }
        }
    }
}

/// Every record of the groups put together stands in a group, and the first
/// record of that group stands no later than it.
pub proof fn lemma_group_of(g: Seq<Seq<RaiseView>>, m: int)
    requires
        0 <= m < joined(g).len(),
        forall|i: int| 0 <= i < g.len() ==> (#[trigger] g[i]).len() > 0,
    ensures
        exists|i: int, j: int, first: int|
            0 <= i < g.len() && 0 <= j < g[i].len() && 0 <= first <= m && #[trigger] g[i][j]
                == joined(g)[m] && g[i][0] == #[trigger] joined(g)[first],
    decreases g.len(),
{
    let before = joined(g.drop_last());
    let last = g.last();
    assert(last == g[g.len() - 1]);
    if m >= before.len() {
        let i = g.len() - 1;
        let j = m - before.len();
        let first = before.len() as int;
        assert(g[i][j] == joined(g)[m] && g[i][0] == joined(g)[first]);
    } else {
        assert forall|i: int| 0 <= i < g.drop_last().len() implies (#[trigger] g.drop_last()[i]).len()
            > 0 by {
            assert(g.drop_last()[i] == g[i]);
        }
        lemma_group_of(g.drop_last(), m);
        let (i, j, first) = choose|i: int, j: int, first: int|
            0 <= i < g.drop_last().len() && 0 <= j < g.drop_last()[i].len() && 0 <= first <= m
                && #[trigger] g.drop_last()[i][j] == before[m] && g.drop_last()[i][0]
                == #[trigger] before[first];
        assert(g[i] == g.drop_last()[i]);
        assert(g[i][j] == joined(g)[m] && g[i][0] == joined(g)[first]);
    }
}

/// No record comes after itself.
pub proof fn lemma_key_le_reflexive(a: RaiseView)
    ensures
        key_le(a, a),
{
}

/// Of the records about one exception name the smallest is reported: for
/// every gathered record there is a reported record about the same name
/// that does not come after it.
pub proof fn lemma_report_covers(s: Seq<RaiseView>, k: int)
    requires
        0 <= k < s.len(),
    ensures
        exists|i: int|
            0 <= i < report(s).len() && (#[trigger] report(s)[i]).exception().name
                == s[k].exception().name && key_le(report(s)[i], s[k]),
{
    let t = sorted(s);
    lemma_sorted_has(s);
    lemma_sorted_ordered(s);
    let m = choose|m: int| 0 <= m < t.len() && t[m] == s[k];
    let g = runs(t);
    lemma_runs_cut(t);
    lemma_group_of(g, m);
    let (i, j, first) = choose|i: int, j: int, first: int|
        0 <= i < g.len() && 0 <= j < g[i].len() && 0 <= first <= m && #[trigger] g[i][j]
            == joined(g)[m] && g[i][0] == #[trigger] joined(g)[first];
    lemma_firsts_of_runs(g, g.len());
    assert(report(s)[i] == g[i][0]);
    assert(g[i][j].exception().name == g[i][0].exception().name);
    if first < m {
        assert(key_le(t[first], t[m]));
    } else {
        lemma_key_le_reflexive(t[m]);
    }
}

/// Whether `k` is among the places that `from` lists.
pub open spec fn lists(from: Seq<int>, k: int) -> bool {
    exists|i: int| 0 <= i < from.len() && #[trigger] from[i] == k
}

/// Whether `r` holds the records of `v` in ascending order, those that
/// compare equal in the order in which they stand in `v`; `from[i]` is the
/// place in `v` of the record `r[i]`.
pub open spec fn stably_sorted(v: Seq<RaiseView>, r: Seq<RaiseView>, from: Seq<int>) -> bool {
    &&& r.len() == v.len()
    &&& from.len() == v.len()
    &&& forall|i: int| 0 <= i < r.len() ==> 0 <= #[trigger] from[i] < v.len() && r[i] == v[from[i]]
    &&& forall|i: int, j: int| 0 <= i < j < r.len() ==> #[trigger] from[i] != #[trigger] from[j]
    &&& forall|k: int| 0 <= k < v.len() ==> #[trigger] lists(from, k)
    &&& forall|i: int, j: int| 0 <= i < j < r.len() ==> key_le(#[trigger] r[i], #[trigger] r[j])
    &&& forall|i: int, j: int|
        0 <= i < j < r.len() && key_le(#[trigger] r[j], #[trigger] r[i]) ==> from[i] < from[j]
}

/// The groups of `g` put one behind the other.
pub open spec fn joined(g: Seq<Seq<RaiseView>>) -> Seq<RaiseView>
    decreases g.len(),
{
    if g.len() == 0 {
        Seq::empty()
    } else {
        joined(g.drop_last()) + g.last()
    }
}

/// Whether `g` cuts `s` into its runs: the groups make up `s`, none is
/// empty, the records of a group are about one exception name, and
/// neighbouring groups are about different ones.
pub open spec fn cut_into_runs(s: Seq<RaiseView>, g: Seq<Seq<RaiseView>>) -> bool {
    &&& joined(g) == s
    &&& forall|i: int| 0 <= i < g.len() ==> (#[trigger] g[i]).len() > 0
    &&& forall|i: int, j: int|
        0 <= i < g.len() && 0 <= j < g[i].len() ==> (#[trigger] g[i][j]).exception().name
            == g[i][0].exception().name
    &&& forall|i: int|
        0 <= i < g.len() - 1 ==> (#[trigger] g[i])[0].exception().name != g[i
            + 1][0].exception().name
}

/// Where `x` goes when it is put into an ordered sequence: behind the
/// records that do not come after it, before the others.
proof fn lemma_inserted_at(s: Seq<RaiseView>, x: RaiseView, q: int)
    requires
        0 <= q <= s.len(),
        forall|i: int| 0 <= i < q ==> key_le(#[trigger] s[i], x),
        forall|j: int| q <= j < s.len() ==> !key_le(#[trigger] s[j], x),
    ensures
        inserted(s, x) == s.subrange(0, q) + seq![x] + s.subrange(q, s.len() as int),
    decreases s.len(),
{
    if s.len() == 0 {
        assert(inserted(s, x) =~= s.subrange(0, q) + seq![x] + s.subrange(q, s.len() as int));
    } else if q == s.len() {
        assert(key_le(s[s.len() - 1], x));
        assert(inserted(s, x) =~= s.subrange(0, q) + seq![x] + s.subrange(q, s.len() as int));
    } else {
        assert(!key_le(s[s.len() - 1], x));
        let t = s.drop_last();
        assert forall|i: int| 0 <= i < q implies key_le(#[trigger] t[i], x) by {
            assert(t[i] == s[i]);
        }
        assert forall|j: int| q <= j < t.len() implies !key_le(#[trigger] t[j], x) by {
            assert(t[j] == s[j]);
        }
        lemma_inserted_at(t, x, q);
        assert(inserted(s, x) =~= s.subrange(0, q) + seq![x] + s.subrange(q, s.len() as int));
    }
}

/// There is one way only to sort stably: the way of [`sorted`].
pub proof fn lemma_stably_sorted_is_sorted(v: Seq<RaiseView>, r: Seq<RaiseView>, from: Seq<int>)
    requires
        stably_sorted(v, r, from),
    ensures
        r == sorted(v),
    decreases v.len(),
{
    if v.len() == 0 {
        assert(r =~= sorted(v));
    } else {
        let n = v.len() as int;
        assert(lists(from, n - 1));
        let q = choose|i: int| 0 <= i < from.len() && #[trigger] from[i] == n - 1;
        let x = v.last();
        assert(r[q] == x);
        let v1 = v.drop_last();
        let r1 = r.subrange(0, q) + r.subrange(q + 1, n);
        let from1 = from.subrange(0, q) + from.subrange(q + 1, n);
        assert forall|i: int| 0 <= i < r1.len() implies 0 <= #[trigger] from1[i] < v1.len()
            && r1[i] == v1[from1[i]] by {
            let k = if i < q {
                i
            } else {
                i + 1
            };
            assert(from1[i] == from[k]);
            assert(r1[i] == r[k]);
            if k < q {
                assert(from[k] != from[q]);
            } else {
                assert(from[q] != from[k]);
            }
        }
        assert forall|i: int, j: int| 0 <= i < j < r1.len() implies #[trigger] from1[i]
            != #[trigger] from1[j] by {
            let a = if i < q {
                i
            } else {
                i + 1
            };
            let b = if j < q {
                j
            } else {
                j + 1
            };
            assert(from1[i] == from[a] && from1[j] == from[b]);
        }
        assert forall|k: int| 0 <= k < v1.len() implies #[trigger] lists(from1, k) by {
            assert(lists(from, k));
            let a = choose|a: int| 0 <= a < from.len() && #[trigger] from[a] == k;
            let i = if a < q {
                a
            } else {
                a - 1
            };
            assert(from1[i] == from[a]);
        }
        assert forall|i: int, j: int| 0 <= i < j < r1.len() implies key_le(
            #[trigger] r1[i],
            #[trigger] r1[j],
        ) by {
            let a = if i < q {
                i
            } else {
                i + 1
            };
            let b = if j < q {
                j
            } else {
                j + 1
            };
            assert(r1[i] == r[a] && r1[j] == r[b]);
        }
        assert forall|i: int, j: int|
            0 <= i < j < r1.len() && key_le(#[trigger] r1[j], #[trigger] r1[i]) implies from1[i]
            < from1[j] by {
            let a = if i < q {
                i
            } else {
                i + 1
            };
            let b = if j < q {
                j
            } else {
                j + 1
            };
            assert(r1[i] == r[a] && r1[j] == r[b]);
            assert(from1[i] == from[a] && from1[j] == from[b]);
        }
        lemma_stably_sorted_is_sorted(v1, r1, from1);
        assert forall|i: int| 0 <= i < q implies key_le(#[trigger] r1[i], x) by {
            assert(r1[i] == r[i]);
            assert(key_le(r[i], r[q]));
        }
        assert forall|j: int| q <= j < r1.len() implies !key_le(#[trigger] r1[j], x) by {
            assert(r1[j] == r[j + 1]);
            if key_le(r[j + 1], r[q]) {
                assert(from[q] < from[j + 1]);
            }
        }
        lemma_inserted_at(r1, x, q);
        assert(r =~= r1.subrange(0, q) + seq![x] + r1.subrange(q, r1.len() as int));
    }
}

/// There is one way only to cut a sequence into its runs: the way of
/// [`runs`].
pub proof fn lemma_cut_is_runs(s: Seq<RaiseView>, g: Seq<Seq<RaiseView>>)
    requires
        cut_into_runs(s, g),
    ensures
        g == runs(s),
    decreases s.len(),
{
    if g.len() == 0 {
        assert(g =~= runs(s));
    } else {
        let last = g.last();
        assert(last == g[g.len() - 1]);
        assert(last.len() > 0);
        let rest = joined(g.drop_last());
        assert(s.len() == rest.len() + last.len());
        assert(s.last() == last.last());
        let s1 = s.drop_last();
        if last.len() == 1 {
            let g1 = g.drop_last();
            assert(s1 =~= rest);
            assert forall|i: int| 0 <= i < g1.len() - 1 implies (#[trigger] g1[i])[0].exception().name
                != g1[i + 1][0].exception().name by {
                assert(g1[i] == g[i]);
                assert(g1[i + 1] == g[i + 1]);
            }
            assert(cut_into_runs(s1, g1));
            lemma_cut_is_runs(s1, g1);
            if g1.len() > 0 {
                let before = g1.last();
                assert(before == g[g.len() - 2]);
                assert(before.last() == g[g.len() - 2][before.len() - 1]);
                assert(before.last().exception().name == g[g.len() - 2][0].exception().name);
                assert(last[0].exception().name == s.last().exception().name);
            }
            assert(last =~= seq![s.last()]);
            assert(g =~= g1.push(seq![s.last()]));
        } else {
            let shorter = last.drop_last();
            let g1 = g.drop_last().push(shorter);
            assert(g1.drop_last() =~= g.drop_last());
            assert(joined(g1) =~= s1);
            assert forall|i: int, j: int| 0 <= i < g1.len() && 0 <= j < g1[i].len() implies (
            #[trigger] g1[i][j]).exception().name == g1[i][0].exception().name by {
                if i == g1.len() - 1 {
                    assert(g1[i][j] == g[i][j]);
                    assert(g1[i][0] == g[i][0]);
                } else {
                    assert(g1[i] == g[i]);
                }
            }
            assert forall|i: int| 0 <= i < g1.len() - 1 implies (#[trigger] g1[i])[0].exception().name
                != g1[i + 1][0].exception().name by {
                assert(g1[i] == g[i]);
                assert(g1[i + 1][0] == g[i + 1][0]);
            }
            assert(cut_into_runs(s1, g1));
            lemma_cut_is_runs(s1, g1);
            assert(shorter.last() == last[last.len() - 2]);
            assert(shorter.last().exception().name == last[0].exception().name);
            assert(last.last() == last[last.len() - 1]);
            assert(shorter.push(s.last()) =~= last);
            assert(g =~= g.drop_last().push(last));
        }
    }
}

/// `Itertools::sorted_by_key` with [`FunctionRaise::sort_key`] as the key:
/// the same records in ascending order of their keys, which are compared as
/// tuples of a string and two integers are; records with equal keys keep
/// their order.
#[verifier::external_body]
fn sorted_by_sort_key(records: Vec<FunctionRaise>) -> (r: Vec<FunctionRaise>)
    ensures
        exists|from: Seq<int>| stably_sorted(raise_views(records@), raise_views(r@), from),
{
    records.into_iter().sorted_by_key(|e| e.sort_key()).collect()
}

/// `Itertools::chunk_by` with [`FunctionRaise::group_key`] as the key: the
/// records cut into runs of neighbours with the same key, each run handed
/// out as a list.
#[verifier::external_body]
fn chunked_by_group_key(records: Vec<FunctionRaise>) -> (r: Vec<Vec<FunctionRaise>>)
    ensures
        cut_into_runs(raise_views(records@), group_views(r@)),
{
    let chunks = records.into_iter().chunk_by(|e| e.group_key());
    let groups = chunks.into_iter().map(|(_, es)| es.collect()).collect();
    groups
}

/// Orders the gathered records and keeps one for each exception name.
pub fn dedup_sorted(records: Vec<FunctionRaise>) -> (r: Vec<FunctionRaise>)
    ensures
        raise_views(r@) == report(raise_views(records@)),
{
    let ghost gathered = raise_views(records@);
    let ordered = sorted_by_sort_key(records);
    proof {
        let from = choose|from: Seq<int>| stably_sorted(gathered, raise_views(ordered@), from);
        lemma_stably_sorted_is_sorted(gathered, raise_views(ordered@), from);
    }
    let groups = chunked_by_group_key(ordered);
    proof {
        lemma_cut_is_runs(sorted(gathered), group_views(groups@));
    }
    let mut kept: Vec<FunctionRaise> = Vec::new();
    let mut i: usize = 0;
    assert(raise_views(kept@) =~= Seq::empty());
    while i < groups.len()
        invariant
            i <= groups.len(),
            raise_views(kept@) == firsts(group_views(groups@), i as nat),
        decreases groups.len() - i,
    {
        let ghost before = kept@;
        assert(group_views(groups@)[i as int] == raise_views(groups@[i as int]@));
        if groups[i].len() > 0 {
            kept.push(groups[i][0].clone());
            assert(raise_views(kept@) =~= raise_views(before).push(groups@[i as int]@[0]@));
        }
        i += 1;
    }
    kept
}

} // verus!
