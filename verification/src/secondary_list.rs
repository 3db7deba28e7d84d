use vstd::prelude::*;
use std::collections::VecDeque;
use crate::executable_task::ExecutableTask;

verus! {

/// An unbounded first-in first-out list of executables: `push_front` adds
/// the newest at the front, `pop_back` takes the oldest from the back.
pub struct SecondaryList {
    list: VecDeque<ExecutableTask>,
}

impl View for SecondaryList {
    type V = Seq<ExecutableTask>;

    /// The executables, newest first.
    closed spec fn view(&self) -> Seq<ExecutableTask> {
        self.list@
    }
}

impl SecondaryList {
    /// An empty list.
    pub fn new() -> (r: SecondaryList)
        ensures
            r@ == Seq::<ExecutableTask>::empty(),
    {
        SecondaryList { list: VecDeque::new() }
    }

    /// Adds `task` as the newest executable.
    pub fn push_front(&mut self, task: ExecutableTask)
        ensures
            final(self)@ == seq![task] + old(self)@,
    {
        self.list.push_front(task);
    }

    /// Takes the oldest executable, or `None` when the list is empty.
    pub fn pop_back(&mut self) -> (r: Option<ExecutableTask>)
        ensures
            old(self)@.len() == 0 ==> r is None && final(self)@ == old(self)@,
            old(self)@.len() > 0 ==> r == Some(old(self)@.last()) && final(self)@ == old(self)@.drop_last(),
    {
        self.list.pop_back()
    }

    /// The number of executables in the list.
    pub fn len(&self) -> (r: usize)
        ensures
            r == self@.len(),
    {
        self.list.len()
    }
}

/// The list contents after pushing `xs`, first to last, onto `s`.
pub open spec fn after_pushes(s: Seq<ExecutableTask>, xs: Seq<ExecutableTask>) -> Seq<ExecutableTask>
    decreases xs.len(),
{
    if xs.len() == 0 {
        s
    } else {
        seq![xs.last()] + after_pushes(s, xs.drop_last())
    }
}

/// Executables leave the list in the order they entered it: after pushing
/// `xs` onto an empty list, `pop_back` gives `xs[0]` and leaves the list as
/// if only the rest of `xs` had been pushed.
pub proof fn lemma_first_in_first_out(xs: Seq<ExecutableTask>)
    requires
        xs.len() > 0,
    ensures
        after_pushes(Seq::empty(), xs).len() == xs.len(),
        after_pushes(Seq::empty(), xs).last() == xs[0],
        after_pushes(Seq::empty(), xs).drop_last() =~= after_pushes(Seq::empty(), xs.drop_first()),
    decreases xs.len(),
{
    if xs.len() == 1 {
        assert(xs.drop_last() =~= Seq::<ExecutableTask>::empty());
        assert(xs.drop_first() =~= Seq::<ExecutableTask>::empty());
    } else {
        let ys = xs.drop_last();
        lemma_first_in_first_out(ys);
        assert(ys.drop_first() =~= xs.drop_first().drop_last());
        assert(xs.drop_first().last() == xs.last());
        assert(ys[0] == xs[0]);
        let a = after_pushes(Seq::empty(), ys);
        assert(after_pushes(Seq::empty(), xs) == seq![xs.last()] + a);
        assert((seq![xs.last()] + a).drop_last() =~= seq![xs.last()] + a.drop_last());
        lemma_after_pushes_len(xs.drop_first());
    }
}

pub proof fn lemma_after_pushes_len(xs: Seq<ExecutableTask>)
    ensures
        after_pushes(Seq::empty(), xs).len() == xs.len(),
    decreases xs.len(),
{
    if xs.len() > 0 {
        lemma_after_pushes_len(xs.drop_last());
    }
}

} // verus!
