use objalloc::align_padding;
use objalloc::ring_buffer::RingBuffer;
use objalloc::stack::{LinkedRingBufferStack, RingBufferNode};
use objalloc::tl_buffer::{TLBufferNode, TLBufferedStack, MAX_BUFFERS};

#[test]
fn align_padding_values() {
    assert_eq!(align_padding(0, 8), 0);
    assert_eq!(align_padding(1, 8), 7);
    assert_eq!(align_padding(8, 8), 0);
    assert_eq!(align_padding(13, 16), 3);
    assert_eq!(align_padding(17, 1), 0);
}

#[test]
fn ring_buffer_round_trip() {
    let mut rb: RingBuffer<(usize, usize), 4> = RingBuffer::new();
    assert_eq!(rb.push_back((7, 0xdead_beef)), Ok(()));
    assert_eq!(rb.pop_back(), Some((7, 0xdead_beef)));
    assert_eq!(rb.pop_back(), None);
}

#[test]
fn ring_buffer_full_hands_value_back() {
    let mut rb: RingBuffer<u64, 3> = RingBuffer::new();
    for i in 0..3u64 {
        assert_eq!(rb.push_back(i), Ok(()));
    }
    assert!(rb.is_full());
    assert_eq!(rb.push_back(9), Err(9));
    assert_eq!(rb.len(), 3);
    assert_eq!(rb.to_vec(), vec![0, 1, 2]);
}

#[test]
fn ring_buffer_back_is_lifo_front_is_fifo() {
    let mut rb: RingBuffer<u64, 4> = RingBuffer::new();
    for i in 1..=4u64 {
        rb.push_back(i).unwrap();
    }
    assert_eq!(rb.pop_back(), Some(4));
    assert_eq!(rb.pop_front(), Some(1));
    assert_eq!(rb.pop_front(), Some(2));
    assert_eq!(rb.pop_back(), Some(3));
    assert_eq!(rb.pop_front(), None);
}

#[test]
fn ring_buffer_wraps_around() {
    let mut rb: RingBuffer<u64, 3> = RingBuffer::new();
    let mut expected = std::collections::VecDeque::new();
    for round in 0..20u64 {
        while !rb.is_full() {
            rb.push_back(round * 10 + rb.len() as u64).unwrap();
            expected.push_back(round * 10 + expected.len() as u64);
        }
        assert_eq!(rb.pop_front(), expected.pop_front());
        assert_eq!(rb.pop_front(), expected.pop_front());
        assert_eq!(rb.to_vec(), expected.iter().copied().collect::<Vec<_>>());
    }
}

#[test]
fn ring_buffer_from_vec_keeps_order() {
    let mut rb: RingBuffer<u64, 8> = RingBuffer::from_vec(vec![5, 6, 7]);
    assert_eq!(rb.len(), 3);
    assert_eq!(rb.pop_back(), Some(7));
    assert_eq!(rb.pop_front(), Some(5));
}

#[test]
fn stack_is_lifo_across_nodes() {
    let mut s: LinkedRingBufferStack<u64, 4> = LinkedRingBufferStack::new();
    for i in 0..10u64 {
        s.push(i);
    }
    for i in (0..10u64).rev() {
        assert_eq!(s.pop(), Some(i));
    }
    assert_eq!(s.pop(), None);
}

#[test]
fn stack_attach_and_pop_buffer() {
    let mut s: LinkedRingBufferStack<u64, 4> = LinkedRingBufferStack::new();
    s.push(1);
    let node = RingBufferNode { buffer: RingBuffer::from_vec(vec![10, 11]) };
    s.attach_buffer(node);
    assert_eq!(s.pop(), Some(11));
    let mut top = s.pop_buffer().unwrap();
    assert_eq!(top.buffer.pop_back(), Some(10));
    assert_eq!(top.buffer.pop_back(), None);
    assert_eq!(s.pop(), Some(1));
    assert_eq!(s.pop(), None);
    assert!(s.pop_buffer().is_none());
}

#[test]
fn stack_pop_skips_empty_nodes() {
    let mut s: LinkedRingBufferStack<u64, 4> = LinkedRingBufferStack::new();
    s.push(3);
    s.attach_buffer(RingBufferNode { buffer: RingBuffer::new() });
    s.attach_buffer(RingBufferNode { buffer: RingBuffer::new() });
    assert_eq!(s.pop(), Some(3));
    assert_eq!(s.pop(), None);
}

#[test]
fn tl_node_push_pop_and_convert() {
    let mut n: TLBufferNode<u64, 2> = TLBufferNode::new();
    assert_eq!(n.push(1), Ok(()));
    assert_eq!(n.push(2), Ok(()));
    assert_eq!(n.push(3), Err(3));
    assert_eq!(n.pop(), Some(2));
    n.push(4).unwrap();
    let mut rb = n.into_ring_buffer_node();
    assert_eq!(rb.buffer.len(), 2);
    assert_eq!(rb.buffer.pop_back(), Some(4));
    assert_eq!(rb.buffer.pop_back(), Some(1));
    let back = TLBufferNode::from_ring_buffer_node(&RingBufferNode {
        buffer: RingBuffer::<u64, 2>::from_vec(vec![8, 9]),
    });
    let mut back = back;
    assert_eq!(back.pop(), Some(9));
}

#[test]
fn tl_stack_donates_bottom_full_node() {
    const B: usize = 4;
    let mut s: TLBufferedStack<u64, B> = TLBufferedStack::new();
    let cap = (MAX_BUFFERS * B) as u64;
    for i in 0..cap {
        assert!(s.push(i).is_none());
    }
    assert_eq!(s.num_buffers(), MAX_BUFFERS);
    let mut donated = s.push(cap).expect("overflow donates a node");
    assert_eq!(s.num_buffers(), MAX_BUFFERS);
    let mut got = Vec::new();
    while let Some(v) = donated.pop() {
        got.push(v);
    }
    assert_eq!(got, vec![3, 2, 1, 0]);
    assert_eq!(s.pop(), Some(cap));
    for i in (4..cap).rev() {
        assert_eq!(s.pop(), Some(i));
    }
    assert_eq!(s.pop(), None);
    assert_eq!(s.num_buffers(), 0);
}

#[test]
fn tl_stack_install_node() {
    let mut s: TLBufferedStack<u64, 4> = TLBufferedStack::new();
    let mut n = TLBufferNode::new();
    n.push(5).unwrap();
    n.push(6).unwrap();
    s.install_node(n);
    assert_eq!(s.pop(), Some(6));
    assert_eq!(s.pop(), Some(5));
    assert_eq!(s.pop(), None);
}
