//! The frontier queue of the sequential driver: an append-only task list
//! backed by `orx_imp_vec::ImpVec`, the growable vector the driver drains by
//! index while it is still being appended to.

use vstd::prelude::*;

verus! {

use orx_imp_vec::{ImpVec, PinnedVec};

/// An append-only list of node ids. It holds an `orx_imp_vec::ImpVec`, which
/// guarantees that elements already pushed stay in place while new ones are
/// appended; the driver reads it by index while still growing it.
#[verifier::external_body]
pub struct TaskList {
    vec: ImpVec<usize>,
}

/// The node ids held by a task list, in push order.
pub uninterp spec fn task_items(v: TaskList) -> Seq<usize>;

impl TaskList {
    /// Relies on `ImpVec`'s `FromIterator`: collecting an iterator yields a
    /// vector holding the iterated items in order.
    #[verifier::external_body]
    pub fn from_ids(ids: &Vec<usize>) -> (r: TaskList)
        ensures
            task_items(r) == ids@,
    {
        TaskList { vec: ids.iter().copied().collect() }
    }

    /// Relies on `ImpVec::imp_push`: appends the value at the end of the
    /// vector, leaving the elements before it unchanged.
    #[verifier::external_body]
    pub fn push(&mut self, id: usize)
        ensures
            task_items(*final(self)) == task_items(*old(self)).push(id),
    {
        self.vec.imp_push(id);
    }

    /// Relies on `PinnedVec::len`: the number of elements pushed so far.
    #[verifier::external_body]
    pub fn len(&self) -> (r: usize)
        ensures
            r == task_items(*self).len(),
    {
        self.vec.len()
    }

    /// Relies on `PinnedVec::get`: `Some` of the element at `i` when `i` is
    /// in bounds, `None` otherwise.
    #[verifier::external_body]
    pub fn get(&self, i: usize) -> (r: Option<usize>)
        ensures
            r == if (i as int) < task_items(*self).len() {
                Some(task_items(*self)[i as int])
            } else {
                None::<usize>
            },
    {
        self.vec.get(i).copied()
    }
}

} // verus!
