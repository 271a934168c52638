use vstd::prelude::*;

verus! {

/// A stack that holds at most `C` values.
pub struct Stack<T, const C: usize> {
    data: Vec<T>,
}

impl<T, const C: usize> View for Stack<T, C> {
    type V = Seq<T>;

    /// The values on the stack, from the bottom to the top.
    closed spec fn view(&self) -> Seq<T> {
        self.data@
    }
}

impl<T, const C: usize> Stack<T, C> {
    /// The stack holds no more than `C` values.
    pub closed spec fn wf(&self) -> bool {
        self.data@.len() <= C
    }

    /// A well-formed stack holds at most `C` values.
    pub proof fn lemma_capacity(&self)
        requires
            self.wf(),
        ensures
            self@.len() <= C,
    {
    }

    /// An empty stack.
    pub fn new() -> (s: Self)
        ensures
            s.wf(),
            s@ == Seq::<T>::empty(),
    {
        Self { data: Vec::new() }
    }

    /// Number of values on the stack, never more than `C`.
    pub fn len(&self) -> (n: usize)
        requires
            self.wf(),
        ensures
            n == self@.len(),
            n <= C,
    {
        self.data.len()
    }

    /// Puts `value` on top; refused, with the stack unchanged, when the stack is full.
    pub fn push(&mut self, value: T) -> (r: Result<(), ()>)
        requires
            old(self).wf(),
        ensures
            final(self).wf(),
            old(self)@.len() < C ==> r is Ok && final(self)@ == old(self)@.push(value),
            old(self)@.len() >= C ==> r is Err && final(self)@ == old(self)@,
    {
        if self.data.len() < C {
            self.data.push(value);
            Ok(())
        } else {
            Err(())
        }
    }

    /// Takes the top value off; `None` when the stack is empty.
    pub fn pop(&mut self) -> (r: Option<T>)
        requires
            old(self).wf(),
        ensures
            final(self).wf(),
            old(self)@.len() > 0 ==> r == Some(old(self)@.last()) && final(self)@ == old(self)@.drop_last(),
            old(self)@.len() == 0 ==> r is None && final(self)@ == old(self)@,
    {
        if self.data.len() > 0 {
            self.data.pop()
        } else {
            None
        }
    }

    /// The top value, to read or to change in place; `None` when the stack is empty.
    pub fn top(&mut self) -> (r: Option<&mut T>)
        requires
            old(self).wf(),
        ensures
            final(self).wf(),
            old(self)@.len() > 0 ==> (r matches Some(x) && *x == old(self)@.last()
                && final(self)@ == old(self)@.update(old(self)@.len() - 1, *final(x))),
            old(self)@.len() == 0 ==> r is None && final(self)@ == old(self)@,
    {
        let n = self.data.len();
        if n > 0 {
            Some(&mut self.data[n - 1])
        } else {
            None
        }
    }
}

} // verus!

verus! {

/// Taking the top value off after putting `value` on gives `value` back and
/// leaves the stack as it was.
pub proof fn law_pop_undoes_push<T>(stack: Seq<T>, value: T)
    ensures
        stack.push(value).len() > 0,
        stack.push(value).last() == value,
        stack.push(value).drop_last() == stack,
{
    assert(stack.push(value).drop_last() =~= stack);
}

} // verus!
