//! Exception classes with their chain of bases, and the subclass test.

use vstd::prelude::*;
use vstd::std_specs::cmp::PartialEqSpecImpl;

verus! {

/// An exception class: its name and the classes it directly derives from,
/// each carrying its own bases in turn.
#[derive(Debug, Hash)]
pub struct Exception {
    pub name: String,
    pub bases: Vec<Exception>,
}

/// The mathematical value of an [`Exception`].
pub ghost struct ExceptionView {
    pub name: Seq<char>,
    pub bases: Seq<ExceptionView>,
}

impl View for Exception {
    type V = ExceptionView;

    open spec fn view(&self) -> ExceptionView
        decreases self,
    {
        ExceptionView {
            name: self.name@,
            bases: Seq::new(
                self.bases@.len(),
                |i: int|
                    if 0 <= i < self.bases@.len() {
                        self.bases@[i]@
                    } else {
                        arbitrary()
                    },
            ),
        }
    }
}

/// The views of a list of exceptions, in order.
pub open spec fn views(list: Seq<Exception>) -> Seq<ExceptionView> {
    Seq::new(list.len(), |i: int| list[i]@)
}

/// The views of a list of lists of exceptions, in order.
pub open spec fn list_views(lists: Seq<Vec<Exception>>) -> Seq<Seq<ExceptionView>> {
    Seq::new(lists.len(), |i: int| views(lists[i]@))
}

/// The root of the class hierarchy: the class named `BaseException`, which
/// has no bases.
pub open spec fn root() -> ExceptionView {
    ExceptionView { name: "BaseException"@, bases: Seq::empty() }
}

/// `e` is `other`, or one of the first `n` bases of `e` is a subclass of
/// `other`.
pub open spec fn subclass_within(e: ExceptionView, other: ExceptionView, n: nat) -> bool
    decreases e, n,
{
    e == other || (0 < n <= e.bases.len() && (subclass_within(
        e.bases[n - 1],
        other,
        e.bases[n - 1].bases.len(),
    ) || subclass_within(e, other, (n - 1) as nat)))
}

/// `e` is `other`, or one of the bases of `e` is a subclass of `other`.
pub open spec fn is_subclass(e: ExceptionView, other: ExceptionView) -> bool {
    subclass_within(e, other, e.bases.len())
}

/// Some member of `list` is a superclass of `e`.
pub open spec fn subclass_of_any(e: ExceptionView, list: Seq<ExceptionView>) -> bool {
    exists|i: int| 0 <= i < list.len() && #[trigger] is_subclass(e, list[i])
}

proof fn lemma_subclass_within(e: ExceptionView, other: ExceptionView, n: nat)
    requires
        n <= e.bases.len(),
    ensures
        subclass_within(e, other, n) == (e == other || exists|i: int|
            0 <= i < n && #[trigger] is_subclass(e.bases[i], other)),
    decreases n,
{
    if n > 0 {
        lemma_subclass_within(e, other, (n - 1) as nat);
        if is_subclass(e.bases[n - 1], other) {
            assert(0 <= n - 1 < n && is_subclass(e.bases[n - 1], other));
        }
    }
}

/// A class is a subclass of `other` exactly when it is `other` or one of its
/// direct bases is a subclass of `other`.
pub proof fn lemma_subclass_unfold(e: ExceptionView, other: ExceptionView)
    ensures
        is_subclass(e, other) == (e == other || exists|i: int|
            0 <= i < e.bases.len() && #[trigger] is_subclass(e.bases[i], other)),
{
    lemma_subclass_within(e, other, e.bases.len());
}

/// The view of an exception is its name with the views of its bases.
pub proof fn lemma_view_unfold(e: Exception)
    ensures
        e@.name == e.name@,
        e@.bases == views(e.bases@),
{
    reveal_with_fuel(<Exception as View>::view, 2);
    assert(e@.bases =~= views(e.bases@));
}

/// Every class is a subclass of itself.
pub proof fn lemma_subclass_reflexive(e: ExceptionView)
    ensures
        is_subclass(e, e),
{
    lemma_subclass_unfold(e, e);
}

/// A subclass of a subclass is a subclass.
pub proof fn lemma_subclass_transitive(a: ExceptionView, b: ExceptionView, c: ExceptionView)
    requires
        is_subclass(a, b),
        is_subclass(b, c),
    ensures
        is_subclass(a, c),
    decreases a,
{
    lemma_subclass_unfold(a, b);
    lemma_subclass_unfold(a, c);
    if a != b {
        let i = choose|i: int| 0 <= i < a.bases.len() && #[trigger] is_subclass(a.bases[i], b);
        lemma_subclass_transitive(a.bases[i], b, c);
    }
}

impl Exception {
    /// The class `name` with the direct bases `bases`.
    pub fn new(name: String, bases: Vec<Exception>) -> (r: Exception)
        ensures
            r.name == name,
            r.bases == bases,
            r@.name == name@,
            r@.bases == views(bases@),
    {
        let r = Exception { name, bases };
        proof {
            lemma_view_unfold(r);
        }
        r
    }

    /// Structural equality: the same name and, position by position, equal
    /// bases.
    pub fn same_as(&self, other: &Exception) -> (r: bool)
        ensures
            r == (self@ == other@),
        decreases self,
    {
        proof {
            lemma_view_unfold(*self);
            lemma_view_unfold(*other);
        }
        if self.name != other.name {
            return false;
        }
        if self.bases.len() != other.bases.len() {
            assert(self@.bases.len() != other@.bases.len());
            return false;
        }
        let mut i: usize = 0;
        while i < self.bases.len()
            invariant
                i <= self.bases.len(),
                self.bases.len() == other.bases.len(),
                self@.bases == views(self.bases@),
                other@.bases == views(other.bases@),
                forall|j: int| 0 <= j < i ==> self.bases@[j]@ == other.bases@[j]@,
            decreases self.bases.len() - i,
        {
            if !self.bases[i].same_as(&other.bases[i]) {
                assert(self@.bases[i as int] == self.bases@[i as int]@);
                assert(other@.bases[i as int] == other.bases@[i as int]@);
                return false;
            }
            i += 1;
        }
        assert(self@.bases =~= other@.bases);
        true
    }

    /// Whether this class is `other` or derives from it, directly or through
    /// any chain of bases.
    pub fn is_subclass_of(&self, other: &Exception) -> (r: bool)
        ensures
            r == is_subclass(self@, other@),
        decreases self,
    {
        proof {
            lemma_view_unfold(*self);
            lemma_subclass_unfold(self@, other@);
        }
        if self.same_as(other) {
            return true;
        }
        let mut i: usize = 0;
        while i < self.bases.len()
            invariant
                i <= self.bases.len(),
                self@ != other@,
                self@.bases == views(self.bases@),
                is_subclass(self@, other@) == exists|k: int|
                    0 <= k < self@.bases.len() && #[trigger] is_subclass(self@.bases[k], other@),
                forall|j: int| 0 <= j < i ==> !is_subclass(self.bases@[j]@, other@),
            decreases self.bases.len() - i,
        {
            if self.bases[i].is_subclass_of(other) {
                assert(self@.bases[i as int] == self.bases@[i as int]@);
                return true;
            }
            i += 1;
        }
        assert forall|j: int| 0 <= j < self@.bases.len() implies !is_subclass(
            #[trigger] self@.bases[j],
            other@,
        ) by {
            assert(self@.bases[j] == self.bases@[j]@);
        }
        false
    }

    /// The root of the class hierarchy.
    pub fn base_exception() -> (r: Exception)
        ensures
            r@ == root(),
    {
        let r = Exception { name: "BaseException".to_owned(), bases: Vec::new() };
        proof {
            lemma_view_unfold(r);
            assert(r@.bases =~= Seq::empty());
        }
        r
    }

    /// Whether this is the root of the class hierarchy.
    pub fn is_base_exception(&self) -> (r: bool)
        ensures
            r == (self@ == root()),
    {
        proof {
            lemma_view_unfold(*self);
        }
        let root_name = "BaseException".to_owned();
        let r = self.name == root_name && self.bases.len() == 0;
        proof {
            if r {
                assert(self@.bases =~= Seq::empty());
                assert(self@ =~= root());
            } else if self.bases.len() != 0 {
                assert(self@.bases.len() != root().bases.len());
            }
        }
        r
    }
}

/// A copy of `list`.
pub fn clone_list(list: &Vec<Exception>) -> (r: Vec<Exception>)
    ensures
        views(r@) == views(list@),
{
    let mut r: Vec<Exception> = Vec::new();
    let mut i: usize = 0;
    while i < list.len()
        invariant
            i <= list.len(),
            r.len() == i,
            forall|j: int| 0 <= j < i ==> r@[j]@ == list@[j]@,
        decreases list.len() - i,
    {
        r.push(list[i].clone());
        i += 1;
    }
    assert(views(r@) =~= views(list@));
    r
}

/// A copy of `lists`.
pub fn clone_lists(lists: &Vec<Vec<Exception>>) -> (r: Vec<Vec<Exception>>)
    ensures
        list_views(r@) == list_views(lists@),
{
    let mut r: Vec<Vec<Exception>> = Vec::new();
    let mut i: usize = 0;
    while i < lists.len()
        invariant
            i <= lists.len(),
            r.len() == i,
            forall|j: int| 0 <= j < i ==> views(r@[j]@) == views(lists@[j]@),
        decreases lists.len() - i,
    {
        r.push(clone_list(&lists[i]));
        i += 1;
    }
    assert(list_views(r@) =~= list_views(lists@));
    r
}

impl PartialEq for Exception {
    fn eq(&self, other: &Exception) -> (r: bool) {
        self.same_as(other)
    }
}

impl Eq for Exception {

}

impl PartialEqSpecImpl for Exception {
    open spec fn obeys_eq_spec() -> bool {
        true
    }

    open spec fn eq_spec(&self, other: &Exception) -> bool {
        self@ == other@
    }
}

impl Clone for Exception {
    fn clone(&self) -> (r: Exception)
        ensures
            r@ == self@,
        decreases self,
    {
        let mut bases: Vec<Exception> = Vec::new();
        let mut i: usize = 0;
        while i < self.bases.len()
            invariant
                i <= self.bases.len(),
                bases.len() == i,
                forall|j: int| 0 <= j < i ==> bases@[j]@ == self.bases@[j]@,
            decreases self.bases.len() - i,
        {
            bases.push(self.bases[i].clone());
            i += 1;
        }
        let r = Exception { name: self.name.clone(), bases };
        proof {
            lemma_view_unfold(r);
            lemma_view_unfold(*self);
            assert(r@.bases =~= self@.bases);
        }
        r
    }
}

} // verus!
