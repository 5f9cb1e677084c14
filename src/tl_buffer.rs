use vstd::prelude::*;
use crate::ring_buffer::{RingBuffer, SlotState};
use crate::stack::RingBufferNode;

verus! {

/// Largest number of nodes a thread-local buffered stack keeps.
pub const MAX_BUFFERS: usize = 32;

/// Single-owner node of up to `B` values, filled from the front.
pub struct TLBufferNode<T, const B: usize> {
    elements: Vec<T>,
}

/// Single-owner stack made of nodes of `B` values. The last node of `nodes`
/// is the head; every node below it is full. At most `MAX_BUFFERS` nodes are
/// kept: a push that would need more hands back the bottom node.
pub struct TLBufferedStack<T, const B: usize> {
    nodes: Vec<TLBufferNode<T, B>>,
    num_buffer: usize,
}

/// Values held by a chain of nodes, bottom node first.
pub open spec fn flatten_tl<T, const B: usize>(nodes: Seq<TLBufferNode<T, B>>) -> Seq<T>
    decreases nodes.len(),
{
    if nodes.len() == 0 {
        Seq::empty()
    } else {
        flatten_tl(nodes.drop_last()) + nodes.last()@
    }
}

proof fn lemma_flatten_tl_push<T, const B: usize>(
    nodes: Seq<TLBufferNode<T, B>>,
    n: TLBufferNode<T, B>,
)
    ensures
        flatten_tl(nodes.push(n)) == flatten_tl(nodes) + n@,
{
    assert(nodes.push(n).drop_last() =~= nodes);
}

pub proof fn lemma_flatten_tl_front<T, const B: usize>(nodes: Seq<TLBufferNode<T, B>>)
    requires
        nodes.len() > 0,
    ensures
        flatten_tl(nodes) == nodes[0]@ + flatten_tl(nodes.subrange(1, nodes.len() as int)),
    decreases nodes.len(),
{
    if nodes.len() == 1 {
        assert(nodes.drop_last() =~= Seq::<TLBufferNode<T, B>>::empty());
        assert(nodes.subrange(1, 1) =~= Seq::<TLBufferNode<T, B>>::empty());
        assert(flatten_tl(nodes.drop_last()) == Seq::<T>::empty());
        assert(flatten_tl(nodes.subrange(1, 1)) == Seq::<T>::empty());
        assert(flatten_tl(nodes) =~= nodes[0]@ + flatten_tl(nodes.subrange(1, 1)));
    } else {
        let d = nodes.drop_last();
        lemma_flatten_tl_front(d);
        let rest = nodes.subrange(1, nodes.len() as int);
        assert(rest.drop_last() =~= d.subrange(1, d.len() as int));
        assert(rest.last() == nodes.last());
        assert(flatten_tl(nodes) =~= nodes[0]@ + flatten_tl(rest));
    }
}

impl<T, const B: usize> TLBufferNode<T, B> {
    /// The values held, in push order.
    pub closed spec fn view(&self) -> Seq<T> {
        self.elements@
    }

    pub open spec fn wf(&self) -> bool {
        self@.len() <= B
    }

    pub fn new() -> (r: Self)
        ensures
            r@ == Seq::<T>::empty(),
    {
        TLBufferNode { elements: Vec::new() }
    }

    /// Appends `val`; hands it back when the node already holds `B` values.
    pub fn push(&mut self, val: T) -> (r: Result<(), T>)
        requires
            old(self).wf(),
        ensures
            final(self).wf(),
            old(self)@.len() >= B ==> r == Err::<(), T>(val) && final(self)@ == old(self)@,
            old(self)@.len() < B ==> r is Ok && final(self)@ == old(self)@.push(val),
    {
        if self.elements.len() >= B {
            Err(val)
        } else {
            self.elements.push(val);
            Ok(())
        }
    }

    /// Removes and returns the newest value.
    pub fn pop(&mut self) -> (r: Option<T>)
        ensures
            old(self)@.len() == 0 ==> r is None && final(self)@ == old(self)@,
            old(self)@.len() > 0 ==> r == Some(old(self)@.last()) && final(self)@
                == old(self)@.drop_last(),
    {
        self.elements.pop()
    }
}

impl<T: Copy, const B: usize> TLBufferNode<T, B> {
    /// The shared form of this node: a ring buffer whose first `pos` cells
    /// are `Acquired` and hold the values, `head` 0 and `tail` `pos`.
    pub fn into_ring_buffer_node(self) -> (r: RingBufferNode<T, B>)
        requires
            self.wf(),
            0 < B <= usize::MAX / 4,
        ensures
            r.wf(),
            r@ == self@,
            r.buffer.spec_head() == 0,
            forall|i: int|
                0 <= i < B ==> #[trigger] r.buffer.flag(i) == if i < self@.len() {
                    SlotState::Acquired
                } else {
                    SlotState::Empty
                },
    {
        RingBufferNode { buffer: RingBuffer::from_vec(self.elements) }
    }

    /// The local form of a shared node: the same values in the same order.
    pub fn from_ring_buffer_node(node: &RingBufferNode<T, B>) -> (r: Self)
        requires
            node.wf(),
        ensures
            r.wf(),
            r@ == node@,
    {
        proof {
            node.buffer.lemma_len_bound();
        }
        TLBufferNode { elements: node.buffer.to_vec() }
    }
}

impl<T, const B: usize> TLBufferedStack<T, B> {
    pub closed spec fn nodes(&self) -> Seq<TLBufferNode<T, B>> {
        self.nodes@
    }

    /// The values held; the top of the stack is the last one.
    pub open spec fn view(&self) -> Seq<T> {
        flatten_tl(self.nodes())
    }

    /// Number of nodes held.
    pub closed spec fn spec_num_buffer(&self) -> nat {
        self.num_buffer as nat
    }

    pub closed spec fn wf(&self) -> bool {
        &&& 0 < B
        &&& self.num_buffer == self.nodes@.len()
        &&& self.nodes@.len() <= MAX_BUFFERS
        &&& forall|i: int|
            0 <= i < self.nodes@.len() ==> {
                &&& (#[trigger] self.nodes@[i])@.len() <= B
                &&& i + 1 < self.nodes@.len() ==> self.nodes@[i]@.len() == B
                &&& self.nodes@[i]@.len() > 0
            }
    }

    pub fn new() -> (r: Self)
        requires
            0 < B,
        ensures
            r.wf(),
            r@ == Seq::<T>::empty(),
            r.spec_num_buffer() == 0,
    {
        TLBufferedStack { nodes: Vec::new(), num_buffer: 0 }
    }

    /// Number of nodes held.
    pub fn num_buffers(&self) -> (r: usize)
        requires
            self.wf(),
        ensures
            r == self.spec_num_buffer(),
            r <= MAX_BUFFERS,
    {
        self.num_buffer
    }

    /// Pushes `val` on top. When the head node is full a new head node is
    /// made; if that brings the count over `MAX_BUFFERS`, the bottom node,
    /// which is full, is unlinked and returned for donation.
    pub fn push(&mut self, val: T) -> (r: Option<TLBufferNode<T, B>>)
        requires
            old(self).wf(),
        ensures
            final(self).wf(),
            r is None ==> final(self)@ == old(self)@.push(val),
            r matches Some(n) ==> n@.len() == B && n@ + final(self)@ == old(self)@.push(val),
            r is Some <==> (old(self).spec_num_buffer() == MAX_BUFFERS && old(self)@.len() == MAX_BUFFERS
                * B),
    {
        let ghost old_nodes = self.nodes@;
        proof {
            self.lemma_len();
        }
        let mut pending = val;
        if self.nodes.len() > 0 {
            let mut top = self.nodes.pop().unwrap();
            assert(old_nodes.drop_last() =~= self.nodes@);
            let ghost top0 = top;
            assert(old_nodes.last() == top0);
            assert(old_nodes[old_nodes.len() - 1]@.len() <= B);
            let res = top.push(pending);
            self.nodes.push(top);
            proof {
                lemma_flatten_tl_push(old_nodes.drop_last(), top);
            }
            match res {
                Ok(()) => {
                    assert(flatten_tl(old_nodes.drop_last()) + top@ =~= old(self)@.push(val));
                    assert forall|i: int| 0 <= i < self.nodes@.len() implies {
                        &&& (#[trigger] self.nodes@[i])@.len() <= B
                        &&& i + 1 < self.nodes@.len() ==> self.nodes@[i]@.len() == B
                        &&& self.nodes@[i]@.len() > 0
                    } by {
                        if i + 1 < self.nodes@.len() {
                            assert(self.nodes@[i] == old_nodes[i]);
                        }
                    }
                    let ghost n = old_nodes.len() as int;
                    assert((n - 1) * B + B == n * B) by (nonlinear_arith);
                    assert(old(self)@.len() < n * B);
                    return None;
                },
                Err(v) => {
                    pending = v;
                },
            }
            assert(self@ == old(self)@);
            assert(top@.len() == B);
            assert forall|i: int| 0 <= i < self.nodes@.len() implies {
                &&& (#[trigger] self.nodes@[i])@.len() == B
                &&& self.nodes@[i]@.len() > 0
            } by {
                if i + 1 < self.nodes@.len() {
                    assert(self.nodes@[i] == old_nodes[i]);
                }
            }
            let ghost n = old_nodes.len() as int;
            assert((n - 1) * B + B == n * B) by (nonlinear_arith);
            assert(old(self)@.len() == n * B);
            assert(n == MAX_BUFFERS ==> old(self)@.len() == MAX_BUFFERS * B);
            let ghost total = old(self)@.len() as int;
            assert(total == MAX_BUFFERS * B ==> n == MAX_BUFFERS) by (nonlinear_arith)
                requires
                    total == n * B,
                    0 < B,
                    n <= MAX_BUFFERS,
            ;
        }
        let ghost mid = self.nodes@;
        let mut fresh = TLBufferNode::new();
        let _ = fresh.push(pending);
        self.nodes.push(fresh);
        self.num_buffer = self.num_buffer + 1;
        proof {
            lemma_flatten_tl_push(mid, fresh);
            assert(self@ =~= old(self)@.push(val));
        }
        if self.num_buffer > MAX_BUFFERS {
            let ghost full = self.nodes@;
            let bottom = self.nodes.remove(0);
            self.num_buffer = self.num_buffer - 1;
            proof {
                lemma_flatten_tl_front(full);
                assert(full.subrange(1, full.len() as int) =~= self.nodes@);
                assert(full[0] == bottom);
                assert forall|i: int| 0 <= i < self.nodes@.len() implies {
                    &&& (#[trigger] self.nodes@[i])@.len() <= B
                    &&& i + 1 < self.nodes@.len() ==> self.nodes@[i]@.len() == B
                    &&& self.nodes@[i]@.len() > 0
                } by {
                    assert(self.nodes@[i] == full[i + 1]);
                }
            }
            return Some(bottom);
        }
        proof {
            assert forall|i: int| 0 <= i < self.nodes@.len() implies {
                &&& (#[trigger] self.nodes@[i])@.len() <= B
                &&& i + 1 < self.nodes@.len() ==> self.nodes@[i]@.len() == B
                &&& self.nodes@[i]@.len() > 0
            } by {
                if i + 1 < self.nodes@.len() {
                    assert(self.nodes@[i] == mid[i]);
                }
            }
        }
        None
    }

    /// The stack holds at most `MAX_BUFFERS * B` values, and when it holds
    /// that many every node is in use.
    pub proof fn lemma_full(&self)
        requires
            self.wf(),
        ensures
            self@.len() <= MAX_BUFFERS * B,
            self@.len() == MAX_BUFFERS * B ==> self.spec_num_buffer() == MAX_BUFFERS,
    {
        self.lemma_len();
        let n = self.nodes@.len() as int;
        let total = self@.len() as int;
        if n > 0 {
            assert(n * B <= MAX_BUFFERS * B) by (nonlinear_arith)
                requires
                    n <= MAX_BUFFERS,
                    0 < B,
            ;
            assert(total == MAX_BUFFERS * B ==> n == MAX_BUFFERS) by (nonlinear_arith)
                requires
                    total <= n * B,
                    n <= MAX_BUFFERS,
                    0 < B,
            ;
        }
    }

    /// An empty stack holds no node.
    pub proof fn lemma_view_len(&self)
        requires
            self.wf(),
        ensures
            self@.len() == 0 <==> self.spec_num_buffer() == 0,
    {
        self.lemma_len();
    }

    /// With `n` nodes, all but the head full, the stack holds between
    /// `(n - 1) * B + 1` and `n * B` values.
    proof fn lemma_len(&self)
        requires
            self.wf(),
        ensures
            self.nodes@.len() > 0 ==> (self.nodes@.len() - 1) * B < self@.len() <= self.nodes@.len()
                * B,
            self.nodes@.len() == 0 ==> self@.len() == 0,
            self.nodes@.len() > 0 ==> self@.len() == (self.nodes@.len() - 1) * B
                + self.nodes@.last()@.len(),
    {
        self.lemma_len_rec(self.nodes@);
    }

    proof fn lemma_len_rec(&self, s: Seq<TLBufferNode<T, B>>)
        requires
            forall|i: int|
                0 <= i < s.len() ==> {
                    &&& (#[trigger] s[i])@.len() <= B
                    &&& i + 1 < s.len() ==> s[i]@.len() == B
                    &&& s[i]@.len() > 0
                },
            0 < B,
        ensures
            s.len() == 0 ==> flatten_tl(s).len() == 0,
            s.len() > 0 ==> flatten_tl(s).len() == (s.len() - 1) * B + s.last()@.len(),
            s.len() > 0 ==> (s.len() - 1) * B < flatten_tl(s).len() <= s.len() * B,
        decreases s.len(),
    {
        if s.len() > 1 {
            let d = s.drop_last();
            assert(d.last() == s[s.len() - 2]);
            assert forall|i: int| 0 <= i < d.len() implies {
                &&& (#[trigger] d[i])@.len() <= B
                &&& i + 1 < d.len() ==> d[i]@.len() == B
                &&& d[i]@.len() > 0
            } by {
                assert(d[i] == s[i]);
            }
            self.lemma_len_rec(d);
            assert(s[s.len() - 2]@.len() == B);
            assert(s.last() == s[s.len() - 1]);
            assert(s[s.len() - 1]@.len() > 0);
            assert(flatten_tl(s).len() == flatten_tl(d).len() + s.last()@.len());
            assert((s.len() - 1) * B == (s.len() - 2) * B + B) by (nonlinear_arith);
            assert(s.len() * B == (s.len() - 1) * B + B) by (nonlinear_arith);
        } else if s.len() == 1 {
            assert(s.drop_last() =~= Seq::<TLBufferNode<T, B>>::empty());
            assert(flatten_tl(s.drop_last()) == Seq::<T>::empty());
            assert(s.last() == s[0]);
            assert(s[0]@.len() > 0);
        }
    }

    /// Pops the top value; a head node left empty is unlinked and dropped.
    pub fn pop(&mut self) -> (r: Option<T>)
        requires
            old(self).wf(),
        ensures
            final(self).wf(),
            old(self)@.len() == 0 ==> r is None && final(self)@ == old(self)@,
            old(self)@.len() > 0 ==> r == Some(old(self)@.last()) && final(self)@
                == old(self)@.drop_last(),
    {
        let ghost old_nodes = self.nodes@;
        if self.nodes.len() == 0 {
            return None;
        }
        let mut top = self.nodes.pop().unwrap();
        assert(old_nodes.drop_last() =~= self.nodes@);
        let ghost top0 = top;
        assert(old_nodes.last() == top0);
        assert(old_nodes[old_nodes.len() - 1]@.len() > 0);
        let r = top.pop();
        if top.elements.len() > 0 {
            self.nodes.push(top);
            proof {
                lemma_flatten_tl_push(old_nodes.drop_last(), top);
                assert(flatten_tl(old_nodes.drop_last()) + top@ =~= old(self)@.drop_last());
                assert forall|i: int| 0 <= i < self.nodes@.len() implies {
                    &&& (#[trigger] self.nodes@[i])@.len() <= B
                    &&& i + 1 < self.nodes@.len() ==> self.nodes@[i]@.len() == B
                    &&& self.nodes@[i]@.len() > 0
                } by {
                    if i + 1 < self.nodes@.len() {
                        assert(self.nodes@[i] == old_nodes[i]);
                    }
                }
            }
        } else {
            self.num_buffer = self.num_buffer - 1;
            proof {
                assert(top0@.drop_last() =~= Seq::<T>::empty());
                assert(flatten_tl(old_nodes.drop_last()) =~= old(self)@.drop_last());
                assert forall|i: int| 0 <= i < self.nodes@.len() implies {
                    &&& (#[trigger] self.nodes@[i])@.len() <= B
                    &&& i + 1 < self.nodes@.len() ==> self.nodes@[i]@.len() == B
                    &&& self.nodes@[i]@.len() > 0
                } by {
                    assert(self.nodes@[i] == old_nodes[i]);
                }
            }
        }
        r
    }

    /// Makes `node` the only node of an empty stack.
    pub fn install_node(&mut self, node: TLBufferNode<T, B>)
        requires
            old(self).wf(),
            old(self)@.len() == 0,
            node.wf(),
        ensures
            final(self).wf(),
            final(self)@ == node@,
    {
        proof {
            self.lemma_len();
        }
        self.nodes = Vec::new();
        self.num_buffer = 0;
        if node.elements.len() > 0 {
            self.nodes.push(node);
            self.num_buffer = 1;
            proof {
                lemma_flatten_tl_push(Seq::<TLBufferNode<T, B>>::empty(), node);
                assert(Seq::<T>::empty() + node@ =~= node@);
            }
        } else {
            assert(node@ =~= Seq::<T>::empty());
        }
    }

    /// Unlinks every node, bottom first, leaving the stack empty.
    pub fn take_nodes(&mut self) -> (r: Vec<TLBufferNode<T, B>>)
        requires
            old(self).wf(),
        ensures
            final(self).wf(),
            final(self)@ == Seq::<T>::empty(),
            flatten_tl(r@) == old(self)@,
            forall|i: int| 0 <= i < r@.len() ==> (#[trigger] r@[i]).wf(),
    {
        let mut r: Vec<TLBufferNode<T, B>> = Vec::new();
        std::mem::swap(&mut r, &mut self.nodes);
        self.num_buffer = 0;
        r
    }
}

/// Round trip through donation: a value pushed into a local node is the
/// value popped from the back of the ring buffer the node converts into.
/// The requirements are what `TLBufferNode::push`,
/// `into_ring_buffer_node` and `RingBuffer::pop_back` ensure.
pub proof fn lemma_convert_round_trip<T>(
    before: Seq<T>,
    v: T,
    pushed: Seq<T>,
    converted: Seq<T>,
    popped: Option<T>,
)
    requires
        pushed == before.push(v),
        converted == pushed,
        popped == Some(converted.last()),
    ensures
        popped == Some(v),
{
}

} // verus!
