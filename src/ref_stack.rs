//! A stack of at most `N` frames, grown from its top by a step function.
use vstd::prelude::*;

verus! {

/// A stack holding at most `N` frames; the first frame is the root.
pub struct RefStack<T, const N: usize> {
    stack: Vec<T>,
}

impl<T, const N: usize> View for RefStack<T, N> {
    type V = Seq<T>;

    closed spec fn view(&self) -> Seq<T> {
        self.stack@
    }
}

impl<T, const N: usize> RefStack<T, N> {
    /// At most `N` frames.
    pub closed spec fn wf(&self) -> bool {
        self.stack@.len() <= N
    }

    /// An empty stack.
    pub fn new() -> (r: Self)
        ensures
            r.wf(),
            r@ == Seq::<T>::empty(),
    {
        RefStack { stack: Vec::new() }
    }

    /// A stack holding `root` alone.
    pub fn with_root(root: T) -> (r: Self)
        requires
            N >= 1,
        ensures
            r.wf(),
            r@ == seq![root],
    {
        let mut slf = Self::new();
        let _ = slf.set_root(root);
        slf
    }

    /// Makes `root` the only frame and hands back the previous root, if any.
    pub fn set_root(&mut self, root: T) -> (r: Option<T>)
        requires
            N >= 1,
        ensures
            final(self).wf(),
            final(self)@ == seq![root],
            r == if old(self)@.len() > 0 { Some(old(self)@[0]) } else { None },
    {
        let prev_root = if self.stack.len() == 0 {
            None
        } else {
            self.stack.truncate(1);
            self.stack.pop()
        };
        self.stack.push(root);
        assert(self.stack@ =~= seq![root]);
        prev_root
    }

    /// Number of frames.
    pub fn len(&self) -> (r: usize)
        ensures
            r == self@.len(),
    {
        self.stack.len()
    }

    pub fn is_empty(&self) -> (r: bool)
        ensures
            r == (self@.len() == 0),
    {
        self.stack.len() == 0
    }

    pub fn is_full(&self) -> (r: bool)
        ensures
            r == (self@.len() == N),
    {
        self.stack.len() == N
    }

    /// Pushes the frame that `f` makes from the top frame. The stack must
    /// hold a root and have room.
    pub fn push<F: FnOnce(&T) -> T>(&mut self, f: F)
        requires
            old(self).wf(),
            0 < old(self)@.len() < N,
            f.requires((&old(self)@.last(),)),
        ensures
            final(self).wf(),
            final(self)@.len() == old(self)@.len() + 1,
            final(self)@.drop_last() == old(self)@,
            f.ensures((&old(self)@.last(),), final(self)@.last()),
    {
        let r = self.ret_push(f);
        match r {
            Some(_) => {
                proof {
                    assert(false);
                }
            },
            None => {},
        }
    }

    /// Pushes the frame that `f` makes from the top frame, or hands `f` back
    /// unused when the stack is empty or full.
    pub fn ret_push<F: FnOnce(&T) -> T>(&mut self, f: F) -> (r: Option<F>)
        requires
            old(self).wf(),
            0 < old(self)@.len() < N ==> f.requires((&old(self)@.last(),)),
        ensures
            final(self).wf(),
            (old(self)@.len() == 0 || old(self)@.len() == N) ==> r == Some(f) && final(self)@ == old(self)@,
            0 < old(self)@.len() < N ==> {
                &&& r is None
                &&& final(self)@.len() == old(self)@.len() + 1
                &&& final(self)@.drop_last() == old(self)@
                &&& f.ensures((&old(self)@.last(),), final(self)@.last())
            },
    {
        if self.is_empty() || self.is_full() {
            Some(f)
        } else {
            let next = f(&self.stack[self.stack.len() - 1]);
            self.stack.push(next);
            assert(self.stack@.drop_last() =~= old(self)@);
            None
        }
    }

    /// Removes the top frame; hands it back when it was the root.
    pub fn pop(&mut self) -> (r: Option<T>)
        requires
            old(self)@.len() > 0,
        ensures
            final(self)@ == old(self)@.drop_last(),
            old(self).wf() ==> final(self).wf(),
            r == if old(self)@.len() == 1 { Some(old(self)@[0]) } else { None },
    {
        let top = self.stack.pop();
        if self.stack.len() == 0 {
            top
        } else {
            None
        }
    }

    /// The top frame, if any.
    pub fn top(&self) -> (r: Option<&T>)
        ensures
            r == if self@.len() > 0 { Some(&self@.last()) } else { None },
    {
        if self.stack.len() == 0 {
            None
        } else {
            Some(&self.stack[self.stack.len() - 1])
        }
    }

    /// Mutable access to the top frame, if any.
    pub fn top_mut(&mut self) -> (r: Option<&mut T>)
        ensures
            old(self)@.len() == 0 ==> r is None && final(self)@ == old(self)@,
            old(self)@.len() > 0 ==> r is Some && *r.unwrap() == old(self)@.last()
                && final(self)@ == old(self)@.drop_last().push(*final(r.unwrap())),
    {
        let n = self.stack.len();
        if n == 0 {
            None
        } else {
            Some(&mut self.stack[n - 1])
        }
    }
}

} // verus!
