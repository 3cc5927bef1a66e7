//! The chain of functions whose analysis is under way.

use vstd::prelude::*;
use vstd::std_specs::cmp::PartialEqSpecImpl;

verus! {

/// A function under analysis: the path of its file and its name.
pub type Frame = (Seq<char>, Seq<char>);

/// The frames of the functions whose analysis is under way, outermost first.
/// A stack is never changed in place: [`CallStack::push`] gives a new one.
#[derive(Debug)]
pub struct CallStack(pub Vec<(String, String)>);

impl View for CallStack {
    type V = Seq<Frame>;

    open spec fn view(&self) -> Seq<Frame> {
        Seq::new(self.0@.len(), |i: int| (self.0@[i].0@, self.0@[i].1@))
    }
}

impl CallStack {
    /// The empty stack.
    pub fn new() -> (r: CallStack)
        ensures
            r@ == Seq::<Frame>::empty(),
    {
        let r = CallStack(Vec::new());
        assert(r@ =~= Seq::<Frame>::empty());
        r
    }

    /// This stack with `func` on top; the receiver stays as it is.
    pub fn push(&self, func: (String, String)) -> (r: CallStack)
        ensures
            r@ == self@.push((func.0@, func.1@)),
    {
        let mut new_stack: Vec<(String, String)> = Vec::new();
        let mut i: usize = 0;
        while i < self.0.len()
            invariant
                i <= self.0.len(),
                new_stack.len() == i,
                forall|j: int|
                    0 <= j < i ==> new_stack@[j].0@ == self.0@[j].0@ && new_stack@[j].1@
                        == self.0@[j].1@,
            decreases self.0.len() - i,
        {
            new_stack.push((self.0[i].0.clone(), self.0[i].1.clone()));
            i += 1;
        }
        new_stack.push(func);
        let r = CallStack(new_stack);
        assert(r@ =~= self@.push((func.0@, func.1@)));
        r
    }

    /// A stack holds no more frames than can be counted.
    pub proof fn lemma_fits(&self)
        ensures
            self@.len() <= usize::MAX,
    {
        assert(self@.len() == self.0.len());
    }

    /// Whether `func` is among the frames.
    pub fn contains(&self, func: &(String, String)) -> (r: bool)
        ensures
            r == self@.contains((func.0@, func.1@)),
    {
        let mut i: usize = 0;
        while i < self.0.len()
            invariant
                i <= self.0.len(),
                forall|j: int| 0 <= j < i ==> self@[j] != (func.0@, func.1@),
            decreases self.0.len() - i,
        {
            if self.0[i].0 == func.0 && self.0[i].1 == func.1 {
                assert(self@[i as int] == (func.0@, func.1@));
                return true;
            }
            i += 1;
        }
        false
    }
}

impl Clone for CallStack {
    fn clone(&self) -> (r: CallStack)
        ensures
            r@ == self@,
    {
        let mut new_stack: Vec<(String, String)> = Vec::new();
        let mut i: usize = 0;
        while i < self.0.len()
            invariant
                i <= self.0.len(),
                new_stack.len() == i,
                forall|j: int|
                    0 <= j < i ==> new_stack@[j].0@ == self.0@[j].0@ && new_stack@[j].1@
                        == self.0@[j].1@,
            decreases self.0.len() - i,
        {
            new_stack.push((self.0[i].0.clone(), self.0[i].1.clone()));
            i += 1;
        }
        let r = CallStack(new_stack);
        assert(r@ =~= self@);
        r
    }
}

/// Any two stacks compare equal: which calls led to a program point is no
/// part of the identity of what is computed there.
impl PartialEq for CallStack {
    fn eq(&self, other: &CallStack) -> (r: bool) {
        true
    }
}

impl Eq for CallStack {

}

/// Every stack hashes alike, as every stack compares equal: nothing of it is
/// fed to the hasher.
impl std::hash::Hash for CallStack {
    fn hash<H: std::hash::Hasher>(&self, _state: &mut H) {
    }
}

impl PartialEqSpecImpl for CallStack {
    open spec fn obeys_eq_spec() -> bool {
        true
    }

    open spec fn eq_spec(&self, other: &CallStack) -> bool {
        true
    }
}

} // verus!
