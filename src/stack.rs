use vstd::prelude::*;
use crate::ring_buffer::RingBuffer;

verus! {

/// A ring buffer that is one element of a linked stack.
pub struct RingBufferNode<T, const B: usize> {
    pub buffer: RingBuffer<T, B>,
}

/// Unbounded stack made of a chain of ring-buffer nodes. The last node of
/// `nodes` is the head of the chain; values are pushed into and popped from
/// the head node's buffer at its back.
pub struct LinkedRingBufferStack<T, const B: usize> {
    nodes: Vec<RingBufferNode<T, B>>,
}

/// Values held by a chain of nodes, bottom node first, each node's values
/// oldest first: the top of the stack is the last element.
pub open spec fn flatten<T: Copy, const B: usize>(nodes: Seq<RingBufferNode<T, B>>) -> Seq<T>
    decreases nodes.len(),
{
    if nodes.len() == 0 {
        Seq::empty()
    } else {
        flatten(nodes.drop_last()) + nodes.last().buffer@
    }
}

pub proof fn lemma_flatten_push<T: Copy, const B: usize>(
    nodes: Seq<RingBufferNode<T, B>>,
    n: RingBufferNode<T, B>,
)
    ensures
        flatten(nodes.push(n)) == flatten(nodes) + n.buffer@,
{
    assert(nodes.push(n).drop_last() =~= nodes);
}

/// Values of a sequence of sequences, joined in order.
pub open spec fn concat_seqs<T>(s: Seq<Seq<T>>) -> Seq<T>
    decreases s.len(),
{
    if s.len() == 0 {
        Seq::empty()
    } else {
        concat_seqs(s.drop_last()) + s.last()
    }
}

/// Index of the last non-empty sequence, or -1 when all are empty.
pub open spec fn last_nonempty<T>(s: Seq<Seq<T>>) -> int
    decreases s.len(),
{
    if s.len() == 0 {
        -1
    } else if s.last().len() > 0 {
        s.len() - 1
    } else {
        last_nonempty(s.drop_last())
    }
}

/// The index `last_nonempty` gives is in range, names a non-empty
/// sequence, and every sequence after it is empty.
pub proof fn lemma_last_nonempty<T>(s: Seq<Seq<T>>)
    ensures
        -1 <= last_nonempty(s) < s.len(),
        last_nonempty(s) >= 0 ==> s[last_nonempty(s)].len() > 0,
        forall|j: int| last_nonempty(s) < j < s.len() ==> (#[trigger] s[j]).len() == 0,
    decreases s.len(),
{
    if s.len() > 0 && s.last().len() == 0 {
        lemma_last_nonempty(s.drop_last());
        assert forall|j: int| last_nonempty(s) < j < s.len() implies (#[trigger] s[j]).len() == 0 by {
            if j < s.len() - 1 {
                assert(s[j] == s.drop_last()[j]);
            }
        }
    }
}

proof fn lemma_flatten_concat<T: Copy, const B: usize>(nodes: Seq<RingBufferNode<T, B>>)
    ensures
        flatten(nodes) == concat_seqs(Seq::new(nodes.len(), |i: int| nodes[i]@)),
    decreases nodes.len(),
{
    if nodes.len() > 0 {
        lemma_flatten_concat(nodes.drop_last());
        let v = Seq::new(nodes.len(), |i: int| nodes[i]@);
        assert(v.drop_last() =~= Seq::new(nodes.drop_last().len(), |i: int| nodes.drop_last()[i]@));
    }
}

impl<T: Copy, const B: usize> RingBufferNode<T, B> {
    pub open spec fn wf(&self) -> bool {
        self.buffer.wf()
    }

    pub open spec fn view(&self) -> Seq<T> {
        self.buffer@
    }
}

impl<T: Copy, const B: usize> LinkedRingBufferStack<T, B> {
    pub closed spec fn nodes(&self) -> Seq<RingBufferNode<T, B>> {
        self.nodes@
    }

    /// The values held; the top of the stack is the last one.
    pub open spec fn view(&self) -> Seq<T> {
        flatten(self.nodes())
    }

    /// The values of each node, bottom node first.
    pub closed spec fn node_views(&self) -> Seq<Seq<T>> {
        Seq::new(self.nodes@.len(), |i: int| self.nodes@[i]@)
    }

    /// The values held are those of the nodes, joined bottom first.
    pub proof fn lemma_view_is_nodes(&self)
        ensures
            self@ == concat_seqs(self.node_views()),
    {
        lemma_flatten_concat(self.nodes@);
    }

    pub closed spec fn wf(&self) -> bool {
        &&& 0 < B <= usize::MAX / 4
        &&& forall|i: int| 0 <= i < self.nodes@.len() ==> (#[trigger] self.nodes@[i]).wf()
    }

    pub fn new() -> (r: Self)
        requires
            0 < B <= usize::MAX / 4,
        ensures
            r.wf(),
            r@ == Seq::<T>::empty(),
            r.node_views() == Seq::<Seq<T>>::empty(),
    {
        let r = LinkedRingBufferStack { nodes: Vec::new() };
        assert(r.node_views() =~= Seq::<Seq<T>>::empty());
        r
    }

    /// Pushes `v` on top: into the head node, or into a new head node when
    /// the head node is full or there is none.
    pub fn push(&mut self, v: T)
        requires
            old(self).wf(),
        ensures
            final(self).wf(),
            final(self)@ == old(self)@.push(v),
    {
        let ghost old_nodes = self.nodes@;
        if self.nodes.len() > 0 {
            let mut top = self.nodes.pop().unwrap();
            assert(old_nodes.drop_last() =~= self.nodes@);
            assert(top.wf());
            let ghost top0 = top;
            proof {
                top.buffer.lemma_len_bound();
            }
            assert(old_nodes.last() == top0);
            assert(flatten(old_nodes) == flatten(old_nodes.drop_last()) + top0.buffer@);
            let res = top.buffer.push_back(v);
            self.nodes.push(top);
            proof {
                lemma_flatten_push(old_nodes.drop_last(), top);
            }
            match res {
                Ok(()) => {
                    assert(flatten(old_nodes.drop_last()) + top.buffer@ =~= old(self)@.push(v));
                    return ;
                },
                Err(_) => {},
            }
            assert(self@ == old(self)@);
        }
        let ghost mid = self.nodes@;
        let buf = RingBuffer::<T, B>::from_vec(vec![v]);
        self.nodes.push(RingBufferNode { buffer: buf });
        proof {
            lemma_flatten_push(mid, RingBufferNode { buffer: buf });
            assert(buf@ =~= seq![v]);
        }
    }

    /// Pops the top value. Empty head nodes met on the way are unlinked and
    /// dropped.
    pub fn pop(&mut self) -> (r: Option<T>)
        requires
            old(self).wf(),
        ensures
            final(self).wf(),
            old(self)@.len() == 0 ==> r is None && final(self)@ == old(self)@,
            old(self)@.len() > 0 ==> r == Some(old(self)@.last()) && final(self)@
                == old(self)@.drop_last(),
    {
        loop
            invariant
                self.wf(),
                self@ == old(self)@,
            decreases self.nodes@.len(),
        {
            if self.nodes.len() == 0 {
                return None;
            }
            let ghost before = self.nodes@;
            let mut top = self.nodes.pop().unwrap();
            assert(before.drop_last() =~= self.nodes@);
            assert(top.wf());
            let res = top.buffer.pop_back();
            match res {
                Some(v) => {
                    self.nodes.push(top);
                    proof {
                        lemma_flatten_push(before.drop_last(), top);
                        assert(flatten(before.drop_last()) + top.buffer@ =~= old(self)@.drop_last());
                    }
                    return Some(v);
                },
                None => {},
            }
        }
    }

    /// Places a whole node on top of the stack.
    pub fn attach_buffer(&mut self, node: RingBufferNode<T, B>)
        requires
            old(self).wf(),
            node.wf(),
        ensures
            final(self).wf(),
            final(self)@ == old(self)@ + node@,
            final(self).node_views() == old(self).node_views().push(node@),
    {
        let ghost before = self.nodes@;
        self.nodes.push(node);
        proof {
            lemma_flatten_push(before, node);
            assert(self.node_views() =~= old(self).node_views().push(node@));
        }
    }

    /// Detaches the head node with all it holds.
    pub fn pop_buffer(&mut self) -> (r: Option<RingBufferNode<T, B>>)
        requires
            old(self).wf(),
        ensures
            final(self).wf(),
            old(self).nodes().len() == 0 <==> r is None,
            r is None ==> final(self)@ == old(self)@ && old(self)@.len() == 0,
            r matches Some(n) ==> n.wf() && old(self)@ == final(self)@ + n@
                && final(self).nodes().len() == old(self).nodes().len() - 1,
            r matches Some(n) ==> n@ == old(self).node_views().last() && final(self).node_views()
                == old(self).node_views().drop_last(),
            r is None <==> old(self).node_views().len() == 0,
            r is None ==> final(self).node_views() == old(self).node_views(),
    {
        let ghost before = self.nodes@;
        let r = self.nodes.pop();
        proof {
            if before.len() > 0 {
                assert(before.drop_last() =~= self.nodes@);
                assert(self.node_views() =~= old(self).node_views().drop_last());
                assert(before[before.len() - 1].wf());
            } else {
                assert(self.node_views() =~= old(self).node_views());
            }
        }
        r
    }
}

} // verus!
