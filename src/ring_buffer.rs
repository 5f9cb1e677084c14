use vstd::prelude::*;

verus! {

/// Publication state of one cell of a ring buffer.
#[derive(Clone, Copy, Debug, PartialEq, Eq, Structural)]
pub enum SlotState {
    Empty,
    ReservedForWrite,
    Acquired,
    ReservedForRead,
}

/// Fixed-capacity buffer of `B` cells of a `Copy` type, each with its own publication flag.
///
/// The live values sit at logical positions `0 .. tail - head`; logical
/// position `k` is stored in cell `(head + k) mod B`. The counter `head` is
/// kept below `B`, so both counters stay small.
pub struct RingBuffer<T, const B: usize> {
    head: usize,
    tail: usize,
    elements: Vec<Option<T>>,
    flags: Vec<SlotState>,
}

/// Cell that holds logical position `k` when the window starts at `head`.
pub open spec fn slot_of(head: int, k: int, cap: int) -> int {
    if head + k < cap {
        head + k
    } else {
        head + k - cap
    }
}

/// Logical position of cell `i` when the window starts at `head`.
pub open spec fn offset_of(head: int, i: int, cap: int) -> int {
    if i >= head {
        i - head
    } else {
        i + cap - head
    }
}

impl<T: Copy, const B: usize> RingBuffer<T, B> {
    /// Cell index of the oldest value.
    pub closed spec fn spec_head(&self) -> int {
        self.head as int
    }

    /// Number of values held.
    pub closed spec fn spec_len(&self) -> int {
        self.tail - self.head
    }

    /// State of the flag of cell `i`.
    pub closed spec fn flag(&self, i: int) -> SlotState {
        self.flags@[i]
    }

    /// The values held, oldest first.
    pub closed spec fn view(&self) -> Seq<T> {
        Seq::new(
            (self.tail - self.head) as nat,
            |k: int| self.elements@[slot_of(self.head as int, k, B as int)]->Some_0,
        )
    }

    /// Well-formedness: counters in range, a cell is `Acquired` exactly when
    /// it lies in the live window (and then holds a value), `Empty` otherwise.
    pub closed spec fn wf(&self) -> bool {
        &&& 0 < B <= usize::MAX / 4
        &&& self.elements@.len() == B
        &&& self.flags@.len() == B
        &&& self.head < B
        &&& self.head <= self.tail <= self.head + B
        &&& forall|i: int|
            0 <= i < B ==> {
                &&& (#[trigger] self.flags@[i] == SlotState::Acquired) <==> offset_of(
                    self.head as int,
                    i,
                    B as int,
                ) < self.tail - self.head
                &&& (self.flags@[i] == SlotState::Acquired || self.flags@[i] == SlotState::Empty)
                &&& self.flags@[i] == SlotState::Acquired ==> self.elements@[i] is Some
            }
    }

    /// Every cell whose flag is `Acquired` holds a live value, and there are
    /// exactly as many of them as values held.
    pub proof fn lemma_acquired_cells(&self)
        requires
            self.wf(),
        ensures
            forall|k: int|
                0 <= k < self.spec_len() ==> #[trigger] self.flag(
                    slot_of(self.spec_head(), k, B as int),
                ) == SlotState::Acquired,
            forall|i: int|
                0 <= i < B && #[trigger] self.flag(i) == SlotState::Acquired ==> 0 <= offset_of(
                    self.spec_head(),
                    i,
                    B as int,
                ) < self.spec_len(),
    {
        assert forall|k: int| 0 <= k < self.spec_len() implies #[trigger] self.flag(
            slot_of(self.spec_head(), k, B as int),
        ) == SlotState::Acquired by {
            let i = slot_of(self.head as int, k, B as int);
            assert(offset_of(self.head as int, i, B as int) == k);
            assert(self.flags@[i] == SlotState::Acquired);
        }
    }

    /// A well-formed buffer holds at most `B` values.
    pub proof fn lemma_len_bound(&self)
        requires
            self.wf(),
        ensures
            self@.len() <= B,
            0 < B <= usize::MAX / 4,
    {
    }

    /// An empty buffer: every cell `Empty`.
    pub fn new() -> (r: Self)
        requires
            0 < B <= usize::MAX / 4,
        ensures
            r.wf(),
            r@ == Seq::<T>::empty(),
    {
        let mut elements: Vec<Option<T>> = Vec::new();
        let mut flags: Vec<SlotState> = Vec::new();
        let mut i: usize = 0;
        while i < B
            invariant
                i <= B,
                elements@.len() == i,
                flags@.len() == i,
                forall|j: int| 0 <= j < i ==> #[trigger] flags@[j] == SlotState::Empty,
            decreases B - i,
        {
            elements.push(None);
            flags.push(SlotState::Empty);
            i = i + 1;
        }
        RingBuffer { head: 0, tail: 0, elements, flags }
    }

    /// A buffer that holds `items` in order, as if pushed one by one.
    pub fn from_vec(items: Vec<T>) -> (r: Self)
        requires
            0 < B <= usize::MAX / 4,
            items@.len() <= B,
        ensures
            r.wf(),
            r@ == items@,
            r.spec_head() == 0,
            forall|i: int|
                0 <= i < B ==> #[trigger] r.flag(i) == if i < items@.len() {
                    SlotState::Acquired
                } else {
                    SlotState::Empty
                },
    {
        let mut elements: Vec<Option<T>> = Vec::new();
        let mut flags: Vec<SlotState> = Vec::new();
        let n = items.len();
        let mut i: usize = 0;
        while i < B
            invariant
                n == items@.len() <= B,
                i <= B,
                elements@.len() == i,
                flags@.len() == i,
                forall|j: int|
                    0 <= j < i ==> {
                        &&& (#[trigger] flags@[j] == SlotState::Acquired) <==> j < n
                        &&& (flags@[j] == SlotState::Acquired || flags@[j] == SlotState::Empty)
                        &&& j < n ==> elements@[j] == Some(items@[j])
                    },
            decreases B - i,
        {
            if i < n {
                elements.push(Some(items[i]));
                flags.push(SlotState::Acquired);
            } else {
                elements.push(None);
                flags.push(SlotState::Empty);
            }
            i = i + 1;
        }
        let r = RingBuffer { head: 0, tail: n, elements, flags };
        assert forall|k: int| 0 <= k < n implies #[trigger] r@[k] == items@[k] by {
            assert(slot_of(0, k, B as int) == k);
            assert(flags@[k] == SlotState::Acquired);
        }
        assert(r@ =~= items@);
        r
    }

    /// The values held, oldest first, copied out.
    pub fn to_vec(&self) -> (r: Vec<T>)
        requires
            self.wf(),
        ensures
            r@ == self@,
    {
        let n = self.tail - self.head;
        let mut r: Vec<T> = Vec::new();
        let mut k: usize = 0;
        while k < n
            invariant
                self.wf(),
                n == self@.len(),
                k <= n,
                r@ == self@.subrange(0, k as int),
            decreases n - k,
        {
            let idx = if self.head + k < B {
                self.head + k
            } else {
                self.head + k - B
            };
            assert(offset_of(self.head as int, idx as int, B as int) == k);
            assert(self.flags@[idx as int] == SlotState::Acquired);
            let v = self.elements[idx].unwrap();
            r.push(v);
            k = k + 1;
            assert(r@ =~= self@.subrange(0, k as int));
        }
        assert(r@ =~= self@);
        r
    }

    /// Number of values held.
    pub fn len(&self) -> (r: usize)
        requires
            self.wf(),
        ensures
            r == self@.len(),
    {
        self.tail - self.head
    }

    pub fn is_full(&self) -> (r: bool)
        requires
            self.wf(),
        ensures
            r == (self@.len() == B),
    {
        self.tail - self.head == B
    }

    /// Appends `v` behind the newest value; hands `v` back when all `B`
    /// cells are taken.
    pub fn push_back(&mut self, v: T) -> (r: Result<(), T>)
        requires
            old(self).wf(),
        ensures
            final(self).wf(),
            old(self)@.len() == B ==> r == Err::<(), T>(v) && final(self)@ == old(self)@,
            old(self)@.len() < B ==> r is Ok && final(self)@ == old(self)@.push(v),
    {
        if self.tail - self.head >= B {
            return Err(v);
        }
        let ghost old_self = *self;
        let len = self.tail - self.head;
        let idx = if self.head + len < B {
            self.head + len
        } else {
            self.head + len - B
        };
        assert(offset_of(self.head as int, idx as int, B as int) == len);
        // the cell is outside the window, so it is free
        self.flags.set(idx, SlotState::ReservedForWrite);
        self.elements.set(idx, Some(v));
        self.flags.set(idx, SlotState::Acquired);
        self.tail = self.tail + 1;
        assert forall|i: int| 0 <= i < B && i != idx implies #[trigger] offset_of(
            self.head as int,
            i,
            B as int,
        ) != len by {}
        assert(self@ =~= old_self@.push(v)) by {
            assert forall|k: int| 0 <= k < len implies #[trigger] slot_of(
                self.head as int,
                k,
                B as int,
            ) != idx by {}
        }
        Ok(())
    }

    /// Removes and returns the newest value, or `None` when empty.
    pub fn pop_back(&mut self) -> (r: Option<T>)
        requires
            old(self).wf(),
        ensures
            final(self).wf(),
            old(self)@.len() == 0 ==> r is None && final(self)@ == old(self)@,
            old(self)@.len() > 0 ==> r == Some(old(self)@.last()) && final(self)@
                == old(self)@.drop_last(),
    {
        if self.tail == self.head {
            return None;
        }
        let ghost old_self = *self;
        let last = self.tail - self.head - 1;
        let idx = if self.head + last < B {
            self.head + last
        } else {
            self.head + last - B
        };
        assert(offset_of(self.head as int, idx as int, B as int) == last);
        assert(self.flags@[idx as int] == SlotState::Acquired);
        self.flags.set(idx, SlotState::ReservedForRead);
        let v = self.elements[idx].unwrap();
        self.elements.set(idx, None);
        self.flags.set(idx, SlotState::Empty);
        self.tail = self.tail - 1;
        assert(self@ =~= old_self@.drop_last()) by {
            assert forall|k: int| 0 <= k < last implies #[trigger] slot_of(
                self.head as int,
                k,
                B as int,
            ) != idx by {}
        }
        Some(v)
    }

    /// Removes and returns the oldest value, or `None` when empty.
    pub fn pop_front(&mut self) -> (r: Option<T>)
        requires
            old(self).wf(),
        ensures
            final(self).wf(),
            old(self)@.len() == 0 ==> r is None && final(self)@ == old(self)@,
            old(self)@.len() > 0 ==> r == Some(old(self)@[0]) && final(self)@ == old(
                self,
            )@.subrange(1, old(self)@.len() as int),
    {
        if self.tail == self.head {
            return None;
        }
        let ghost old_self = *self;
        let idx = self.head;
        assert(offset_of(self.head as int, idx as int, B as int) == 0);
        assert(self.flags@[idx as int] == SlotState::Acquired);
        self.flags.set(idx, SlotState::ReservedForRead);
        let v = self.elements[idx].unwrap();
        self.elements.set(idx, None);
        self.flags.set(idx, SlotState::Empty);
        if self.head + 1 == B {
            self.head = 0;
            self.tail = self.tail - B;
        } else {
            self.head = self.head + 1;
        }
        assert(self@ =~= old_self@.subrange(1, old_self@.len() as int));
        Some(v)
    }
}

/// Round trip: a value pushed with `push_back` is the value the next
/// `pop_back` returns, and the contents are back to what they were. The
/// requirements are the view relations the two calls ensure.
pub proof fn lemma_push_pop_round_trip<T>(
    before: Seq<T>,
    v: T,
    pushed: Seq<T>,
    popped: Option<T>,
    after: Seq<T>,
)
    requires
        pushed == before.push(v),
        popped == Some(pushed.last()),
        after == pushed.drop_last(),
    ensures
        popped == Some(v),
        after == before,
{
    assert(after =~= before);
}

/// Round trip through the front: a value pushed into an empty buffer is the
/// value `pop_front` returns, and the buffer is empty again.
pub proof fn lemma_push_pop_front_round_trip<T>(
    v: T,
    pushed: Seq<T>,
    popped: Option<T>,
    after: Seq<T>,
)
    requires
        pushed == Seq::<T>::empty().push(v),
        popped == Some(pushed[0]),
        after == pushed.subrange(1, pushed.len() as int),
    ensures
        popped == Some(v),
        after == Seq::<T>::empty(),
{
    assert(after =~= Seq::<T>::empty());
}

} // verus!
