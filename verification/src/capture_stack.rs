//! What the enclosing `try` blocks catch, and what the enclosing `except`
//! handler has caught.

use vstd::prelude::*;
use crate::exception::{
    clone_list, clone_lists, is_subclass, list_views, root, views, Exception, ExceptionView,
};

verus! {

/// Two stacks of exception lists. `try_captures` holds, for each `try` block
/// that guards the code under analysis, the classes its handlers catch;
/// `handler_captures` holds the classes caught by each enclosing `except`
/// handler. A stack is a value: every operation gives a new one.
#[derive(Debug)]
pub struct ExceptionCaptureStack {
    pub try_captures: Vec<Vec<Exception>>,
    pub handler_captures: Vec<Vec<Exception>>,
}

/// The mathematical value of an [`ExceptionCaptureStack`].
pub ghost struct CaptureView {
    pub try_captures: Seq<Seq<ExceptionView>>,
    pub handler_captures: Seq<Seq<ExceptionView>>,
}

impl View for ExceptionCaptureStack {
    type V = CaptureView;

    open spec fn view(&self) -> CaptureView {
        CaptureView {
            try_captures: list_views(self.try_captures@),
            handler_captures: list_views(self.handler_captures@),
        }
    }
}

/// Whether `list` catches `e`: it holds the root of the hierarchy, which
/// catches everything, or a superclass of `e`.
pub open spec fn list_captures(list: Seq<ExceptionView>, e: ExceptionView) -> bool {
    exists|j: int| 0 <= j < list.len() && (#[trigger] list[j] == root() || is_subclass(e, list[j]))
}

/// Whether some list of `lists` catches `e`.
pub open spec fn captured(lists: Seq<Seq<ExceptionView>>, e: ExceptionView) -> bool {
    exists|i: int| 0 <= i < lists.len() && list_captures(#[trigger] lists[i], e)
}

/// `s` without its last element; the empty sequence stays empty.
pub open spec fn popped<A>(s: Seq<A>) -> Seq<A> {
    if s.len() == 0 {
        s
    } else {
        s.drop_last()
    }
}

/// Whether `list` catches `error`.
pub fn list_is_captured(list: &Vec<Exception>, error: &Exception) -> (r: bool)
    ensures
        r == list_captures(views(list@), error@),
{
    let mut j: usize = 0;
    while j < list.len()
        invariant
            j <= list.len(),
            forall|k: int|
                0 <= k < j ==> !(list@[k]@ == root() || is_subclass(error@, list@[k]@)),
        decreases list.len() - j,
    {
        if list[j].is_base_exception() || error.is_subclass_of(&list[j]) {
            assert(views(list@)[j as int] == list@[j as int]@);
            return true;
        }
        j += 1;
    }
    assert forall|k: int| 0 <= k < views(list@).len() implies !(#[trigger] views(list@)[k]
        == root() || is_subclass(error@, views(list@)[k])) by {
        assert(views(list@)[k] == list@[k]@);
    }
    false
}

impl ExceptionCaptureStack {
    /// The stack with no `try` block and no handler around.
    pub fn new() -> (r: ExceptionCaptureStack)
        ensures
            r@.try_captures == Seq::<Seq<ExceptionView>>::empty(),
            r@.handler_captures == Seq::<Seq<ExceptionView>>::empty(),
    {
        let r = ExceptionCaptureStack { try_captures: Vec::new(), handler_captures: Vec::new() };
        assert(r@.try_captures =~= Seq::<Seq<ExceptionView>>::empty());
        assert(r@.handler_captures =~= Seq::<Seq<ExceptionView>>::empty());
        r
    }

    /// This stack inside one more `try` block whose handlers catch
    /// `captured_exceptions`.
    pub fn push(&self, captured_exceptions: Vec<Exception>) -> (r: ExceptionCaptureStack)
        ensures
            r@.try_captures == self@.try_captures.push(views(captured_exceptions@)),
            r@.handler_captures == self@.handler_captures,
    {
        let mut new_inner = clone_lists(&self.try_captures);
        let ghost before = new_inner@;
        new_inner.push(captured_exceptions);
        let r = ExceptionCaptureStack {
            try_captures: new_inner,
            handler_captures: clone_lists(&self.handler_captures),
        };
        proof {
            assert forall|i: int| 0 <= i < r@.try_captures.len() implies r@.try_captures[i]
                == self@.try_captures.push(views(captured_exceptions@))[i] by {
                if i < before.len() {
                    assert(list_views(before)[i] == list_views(self.try_captures@)[i]);
                }
            }
            assert(r@.try_captures =~= self@.try_captures.push(views(captured_exceptions@)));
        }
        r
    }

    /// This stack outside its innermost `try` block.
    pub fn pop(&self) -> (r: ExceptionCaptureStack)
        ensures
            r@.try_captures == popped(self@.try_captures),
            r@.handler_captures == self@.handler_captures,
    {
        let mut new_inner = clone_lists(&self.try_captures);
        let ghost before = new_inner@;
        new_inner.pop();
        let r = ExceptionCaptureStack {
            try_captures: new_inner,
            handler_captures: clone_lists(&self.handler_captures),
        };
        proof {
            assert forall|i: int| 0 <= i < r@.try_captures.len() implies r@.try_captures[i]
                == popped(self@.try_captures)[i] by {
                assert(list_views(before)[i] == list_views(self.try_captures@)[i]);
            }
            assert(r@.try_captures =~= popped(self@.try_captures));
        }
        r
    }

    /// Whether an enclosing `try` block catches `error`.
    pub fn is_captured(&self, error: &Exception) -> (r: bool)
        ensures
            r == captured(self@.try_captures, error@),
    {
        let mut i: usize = 0;
        while i < self.try_captures.len()
            invariant
                i <= self.try_captures.len(),
                forall|k: int|
                    0 <= k < i ==> !list_captures(views(self.try_captures@[k]@), error@),
            decreases self.try_captures.len() - i,
        {
            if list_is_captured(&self.try_captures[i], error) {
                assert(self@.try_captures[i as int] == views(self.try_captures@[i as int]@));
                return true;
            }
            i += 1;
        }
        assert forall|k: int| 0 <= k < self@.try_captures.len() implies !list_captures(
            #[trigger] self@.try_captures[k],
            error@,
        ) by {
            assert(self@.try_captures[k] == views(self.try_captures@[k]@));
        }
        false
    }

    /// This stack inside one more `except` handler that has caught
    /// `exceptions`.
    pub fn push_handler_exceptions(&self, exceptions: Vec<Exception>) -> (r:
        ExceptionCaptureStack)
        ensures
            r@.try_captures == self@.try_captures,
            r@.handler_captures == self@.handler_captures.push(views(exceptions@)),
    {
        let mut new_handler_exceptions = clone_lists(&self.handler_captures);
        let ghost before = new_handler_exceptions@;
        new_handler_exceptions.push(exceptions);
        let r = ExceptionCaptureStack {
            try_captures: clone_lists(&self.try_captures),
            handler_captures: new_handler_exceptions,
        };
        proof {
            assert forall|i: int|
                0 <= i < r@.handler_captures.len() implies r@.handler_captures[i]
                == self@.handler_captures.push(views(exceptions@))[i] by {
                if i < before.len() {
                    assert(list_views(before)[i] == list_views(self.handler_captures@)[i]);
                }
            }
            assert(r@.handler_captures =~= self@.handler_captures.push(views(exceptions@)));
        }
        r
    }

    /// This stack outside its innermost `except` handler.
    pub fn pop_handler_exceptions(&self) -> (r: ExceptionCaptureStack)
        ensures
            r@.try_captures == self@.try_captures,
            r@.handler_captures == popped(self@.handler_captures),
    {
        let mut new_handler_exceptions = clone_lists(&self.handler_captures);
        let ghost before = new_handler_exceptions@;
        new_handler_exceptions.pop();
        let r = ExceptionCaptureStack {
            try_captures: clone_lists(&self.try_captures),
            handler_captures: new_handler_exceptions,
        };
        proof {
            assert forall|i: int|
                0 <= i < r@.handler_captures.len() implies r@.handler_captures[i] == popped(
                self@.handler_captures,
            )[i] by {
                assert(list_views(before)[i] == list_views(self.handler_captures@)[i]);
            }
            assert(r@.handler_captures =~= popped(self@.handler_captures));
        }
        r
    }

    /// What the innermost enclosing `except` handler has caught, if there is
    /// one.
    pub fn get_current_handler_exceptions(&self) -> (r: Option<Vec<Exception>>)
        ensures
            r is Some == (self@.handler_captures.len() > 0),
            r matches Some(list) ==> views(list@) == self@.handler_captures.last(),
    {
        let n = self.handler_captures.len();
        if n == 0 {
            None
        } else {
            let list = clone_list(&self.handler_captures[n - 1]);
            Some(list)
        }
    }

    /// Whether the code under analysis stands inside an `except` handler.
    pub fn in_handler(&self) -> (r: bool)
        ensures
            r == (self@.handler_captures.len() > 0),
    {
        self.handler_captures.len() != 0
    }
}

impl Clone for ExceptionCaptureStack {
    fn clone(&self) -> (r: ExceptionCaptureStack)
        ensures
            r@ == self@,
    {
        ExceptionCaptureStack {
            try_captures: clone_lists(&self.try_captures),
            handler_captures: clone_lists(&self.handler_captures),
        }
    }
}

} // verus!
