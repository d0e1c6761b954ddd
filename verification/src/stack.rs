//! A singly linked stack of owned elements.
use vstd::prelude::*;

verus! {

/// A last-in, first-out stack backed by a chain of boxed nodes.
///
/// `size` always equals the number of elements held (see [`Stack::wf`]).
pub struct Stack<E> {
    head: Option<Box<StackNode<E>>>,
    pub size: usize,
}

struct StackNode<E> {
    elem: E,
    next: Option<Box<StackNode<E>>>,
}

/// The elements of a chain of nodes, from the first node to the last.
spec fn chain_seq<E>(node: Option<Box<StackNode<E>>>) -> Seq<E>
    decreases node,
{
    match node {
        None => Seq::empty(),
        Some(n) => seq![n.elem] + chain_seq(n.next),
    }
}

impl<E> View for Stack<E> {
    type V = Seq<E>;

    /// The elements from the top of the stack (index 0) to the bottom.
    closed spec fn view(&self) -> Seq<E> {
        chain_seq(self.head)
    }
}

impl<E> Stack<E> {
    /// The value of the public `size` field. (A public specification cannot
    /// read a field of a struct that also has private fields; this names it.)
    pub closed spec fn size_field(&self) -> nat {
        self.size as nat
    }

    /// The public `size` counter agrees with the number of elements.
    pub closed spec fn wf(&self) -> bool {
        self.size as nat == self@.len()
    }

    /// In a well-formed stack the public `size` field is the number of
    /// elements.
    pub proof fn lemma_size_is_len(&self)
        requires
            self.wf(),
        ensures
            self.size_field() == self@.len(),
    {
    }

    /// An empty stack.
    pub fn new() -> (s: Self)
        ensures
            s.wf(),
            s@ == Seq::<E>::empty(),
            s.size_field() == 0,
    {
        Stack { head: None, size: 0 }
    }

    /// Puts `elem` on top of the stack.
    pub fn push(&mut self, elem: E)
        requires
            old(self).wf(),
            old(self).size_field() < usize::MAX,
        ensures
            final(self).wf(),
            final(self).size_field() == final(self)@.len(),
            final(self)@ == seq![elem] + old(self)@,
            final(self).size_field() == old(self).size_field() + 1,
            
    {
        let new_node = Box::new(StackNode { elem, next: self.head.take() });
        self.head = Some(new_node);
        self.size = self.size + 1;
    }

    /// Removes and returns the top element, or `None` when the stack is empty.
    pub fn pop(&mut self) -> (r: Option<E>)
        requires
            old(self).wf(),
        ensures
            final(self).wf(),
            final(self).size_field() == final(self)@.len(),
            r is Some ==> final(self).size_field() == old(self).size_field() - 1,
            r is None ==> final(self).size_field() == old(self).size_field(),
            match r {
                None => old(self)@.len() == 0 && final(self)@ == old(self)@,
                Some(e) => old(self)@.len() > 0 && e == old(self)@[0] && final(self)@
                    == old(self)@.drop_first(),
            },
    {
        match self.head.take() {
            None => None,
            Some(head) => {
                let node = *head;
                assert(chain_seq(Some(Box::new(node))) == seq![node.elem] + chain_seq(node.next));
                self.head = node.next;
                self.size = self.size - 1;
                assert(old(self)@.drop_first() =~= chain_seq(node.next));
                Some(node.elem)
            },
        }
    }

    /// Same as [`Stack::pop`]: the stack yields its elements top first.
    pub fn next(&mut self) -> (r: Option<E>)
        requires
            old(self).wf(),
        ensures
            final(self).wf(),
            final(self).size_field() == final(self)@.len(),
            r is Some ==> final(self).size_field() == old(self).size_field() - 1,
            r is None ==> final(self).size_field() == old(self).size_field(),
            match r {
                None => old(self)@.len() == 0 && final(self)@ == old(self)@,
                Some(e) => old(self)@.len() > 0 && e == old(self)@[0] && final(self)@
                    == old(self)@.drop_first(),
            },
    {
        self.pop()
    }
}

/// The elements of a stack that held `before` once `pushed` has been pushed
/// onto it, first element first.
pub open spec fn after_pushes<E>(before: Seq<E>, pushed: Seq<E>) -> Seq<E>
    decreases pushed.len(),
{
    if pushed.len() == 0 {
        before
    } else {
        seq![pushed.last()] + after_pushes(before, pushed.drop_last())
    }
}

/// Popping right after pushing `x` gives back `x` and leaves the stack as
/// it was before the push.
pub proof fn law_push_then_pop<E>(before: Seq<E>, x: E)
    ensures
        (seq![x] + before).len() > 0,
        (seq![x] + before)[0] == x,
        (seq![x] + before).drop_first() == before,
{
    assert((seq![x] + before).drop_first() =~= before);
}

/// Last in, first out: after pushing `pushed` in order, the stack holds
/// them in reverse order on top of what it held before, so `n` pops give
/// the `n` pushed elements last first and leave the stack as it was.
pub proof fn law_last_in_first_out<E>(before: Seq<E>, pushed: Seq<E>)
    ensures
        after_pushes(before, pushed) == pushed.reverse() + before,
        after_pushes(before, pushed).len() == pushed.len() + before.len(),
        forall|k: int|
            0 <= k < pushed.len() ==> #[trigger] after_pushes(before, pushed)[k] == pushed[pushed.len()
                - 1 - k],
        after_pushes(before, pushed).skip(pushed.len() as int) == before,
    decreases pushed.len(),
{
    lemma_after_pushes_reverse(before, pushed);
    assert((pushed.reverse() + before).skip(pushed.len() as int) =~= before);
}

proof fn lemma_after_pushes_reverse<E>(before: Seq<E>, pushed: Seq<E>)
    ensures
        after_pushes(before, pushed) == pushed.reverse() + before,
    decreases pushed.len(),
{
    if pushed.len() > 0 {
        lemma_after_pushes_reverse(before, pushed.drop_last());
        assert(pushed.reverse() =~= seq![pushed.last()] + pushed.drop_last().reverse());
        assert(seq![pushed.last()] + (pushed.drop_last().reverse() + before) =~= pushed.reverse()
            + before);
    } else {
        assert(pushed.reverse() + before =~= before);
    }
}

/// Frees a chain of nodes front to back, one node per iteration.
fn release_chain<E>(chain: Option<Box<StackNode<E>>>)
    opens_invariants none
    no_unwind
{
    let mut curr = chain;
    loop
        decreases chain_seq(curr).len(),
    {
        match curr {
            None => break,
            Some(boxed_node) => {
                let node = *boxed_node;
                assert(chain_seq(Some(Box::new(node))) == seq![node.elem] + chain_seq(node.next));
                curr = node.next;
            },
        }
    }
}

impl<E> Drop for Stack<E> {
    /// Releases the nodes one at a time, so that a long chain is freed
    /// without one nested call per node.
    fn drop(&mut self)
        opens_invariants none
        no_unwind
    {
        let mut chain = None;
        std::mem::swap(&mut chain, &mut self.head);
        release_chain(chain);
    }
}

} // verus!
