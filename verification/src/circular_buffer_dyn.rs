//! Single-writer, single-reader ring buffer whose capacity is chosen at
//! construction. The storage is allocated once and never grows, shrinks or
//! moves afterwards, so access costs the same as with the compile-time
//! variant.

use vstd::prelude::*;

use crate::ring::{
    lemma_ring_contents_skip, lemma_ring_contents_take, lemma_ring_sentinel,
    lemma_ring_write_appends, lemma_ring_write_step, ring_accepted, ring_contents, ring_index,
    ring_offset, ring_taken, ring_write,
};

verus! {

/// A circular buffer over `capacity` slots of `T`, one write cursor and one
/// read cursor, with the capacity fixed at construction. One slot is kept
/// free as a sentinel, so at most `capacity - 1` elements are stored at a
/// time; writes past that bound are silently truncated and reads of more
/// than is stored return fewer elements. The buffer does not synchronise
/// concurrent access: a caller that shares it between threads must impose
/// mutual exclusion.
pub struct CircularBufferDyn<T> {
    buffer: Vec<T>,
    capacity: usize,
    read_cursor: usize,
    write_cursor: usize,
}

impl<T> CircularBufferDyn<T> {
    /// The backing store as a sequence of `capacity` slots.
    pub closed spec fn storage(&self) -> Seq<T> {
        self.buffer@
    }

    /// Index of the next slot to read.
    pub closed spec fn spec_read_cursor(&self) -> int {
        self.read_cursor as int
    }

    /// Index of the next slot to write.
    pub closed spec fn spec_write_cursor(&self) -> int {
        self.write_cursor as int
    }

    /// Number of slots of the backing store.
    pub closed spec fn spec_capacity(&self) -> int {
        self.capacity as int
    }

    /// Well-formedness: the store has exactly `capacity` slots (at least
    /// one, for the sentinel gap) and both cursors point into it.
    pub open spec fn wf(&self) -> bool {
        &&& 1 <= self.spec_capacity()
        &&& self.storage().len() == self.spec_capacity()
        &&& 0 <= self.spec_read_cursor() < self.spec_capacity()
        &&& 0 <= self.spec_write_cursor() < self.spec_capacity()
    }

    /// Number of unread elements.
    pub open spec fn spec_len(&self) -> int {
        ring_offset(self.spec_read_cursor(), self.spec_write_cursor(), self.spec_capacity())
    }

    /// The unread elements, in the order they were written.
    pub open spec fn contents(&self) -> Seq<T> {
        ring_contents(self.storage(), self.spec_read_cursor(), self.spec_len())
    }

    /// Sentinel invariant: a well-formed buffer never holds more than
    /// `capacity - 1` unread elements, and its cursors coincide exactly when
    /// it is empty. Every operation returns a well-formed buffer, so this
    /// holds across any sequence of operations.
    pub proof fn lemma_sentinel_invariant(&self)
        requires
            self.wf(),
        ensures
            0 <= self.spec_len() <= self.spec_capacity() - 1,
            self.spec_len() == 0 <==> self.spec_read_cursor() == self.spec_write_cursor(),
            self.contents().len() == self.spec_len(),
    {
        lemma_ring_sentinel(self.spec_read_cursor(), self.spec_write_cursor(),
            self.spec_capacity());
    }
}

impl<T: Default + Copy> CircularBufferDyn<T> {
    /// Create a new circular buffer of `capacity` slots, every slot holding
    /// `T::default()`.
    pub fn new(capacity: usize) -> (buffer: CircularBufferDyn<T>)
        requires
            1 <= capacity,
        ensures
            buffer.wf(),
            buffer.spec_capacity() == capacity,
            buffer.spec_len() == 0,
            buffer.contents() == Seq::<T>::empty(),
            buffer.spec_read_cursor() == 0,
            buffer.spec_write_cursor() == 0,
            forall|i: int| 0 <= i < capacity ==> #[trigger] buffer.storage()[i]
                == buffer.storage()[0],
            call_ensures(T::default, (), buffer.storage()[0]),
    {
        let default_value = T::default();
        let mut storage: Vec<T> = Vec::new();
        let mut i: usize = 0;
        while i < capacity
            invariant
                i <= capacity,
                storage@ == Seq::new(i as nat, |j: int| default_value),
            decreases capacity - i,
        {
            storage.push(default_value);
            assert(storage@ =~= Seq::new((i + 1) as nat, |j: int| default_value));
            i = i + 1;
        }
        let buffer = CircularBufferDyn { buffer: storage, capacity, read_cursor: 0,
            write_cursor: 0 };
        assert(buffer.contents() =~= Seq::<T>::empty());
        buffer
    }

    /// Append one element. Returns how many were stored: 1, or 0 when the
    /// buffer already holds `capacity - 1` unread elements.
    pub fn push(&mut self, input: T) -> (written: usize)
        requires
            old(self).wf(),
        ensures
            final(self).wf(),
            written == ring_accepted(old(self).spec_len(), 1, old(self).spec_capacity()),
            final(self).contents() == old(self).contents() + seq![input].take(written as int),
            final(self).spec_len() == old(self).spec_len() + written,
            final(self).spec_capacity() == old(self).spec_capacity(),
            final(self).spec_read_cursor() == old(self).spec_read_cursor(),
    {
        let input_array: [T; 1] = [input];
        let written: usize = self.extend(input_array.as_slice());
        proof {
            assert(input_array@ =~= seq![input]);
        }
        written
    }

    /// Append the elements of `input` to the buffer, in order. Returns how
    /// many were stored: the whole input when it fits, else exactly the
    /// prefix that fills the buffer up to the sentinel slot — a full buffer
    /// accepts nothing more, and truncation is silent.
    pub fn extend(&mut self, input: &[T]) -> (written: usize)
        requires
            old(self).wf(),
        ensures
            final(self).wf(),
            written == ring_accepted(old(self).spec_len(), input@.len() as int,
                old(self).spec_capacity()),
            final(self).contents() == old(self).contents() + input@.take(written as int),
            final(self).spec_len() == old(self).spec_len() + written,
            final(self).storage() == ring_write(old(self).storage(),
                old(self).spec_write_cursor(), input@.take(written as int)),
            final(self).spec_capacity() == old(self).spec_capacity(),
            final(self).spec_read_cursor() == old(self).spec_read_cursor(),
            final(self).spec_write_cursor() == ring_index(old(self).spec_write_cursor(),
                written as int, old(self).spec_capacity()),
    {
        proof {
            old(self).lemma_sentinel_invariant();
        }
        let capacity: usize = self.capacity;
        let used_space: usize = self.len();
        let available_space: usize = capacity - used_space;
        let required_space: usize = input.len();

        // Keep one slot free: this makes two equal cursors always mean the
        // buffer is empty, never that it is full.
        let write_count: usize = if required_space >= available_space {
            available_space - 1
        } else {
            required_space
        };

        let ghost store0 = self.buffer@;
        let ghost read0 = self.read_cursor as int;
        let ghost write0 = self.write_cursor as int;
        let ghost accepted = input@.take(write_count as int);

        let mut index: usize = self.write_cursor;
        let mut j: usize = 0;
        while j < write_count
            invariant
                1 <= capacity,
                j <= write_count,
                write_count <= input@.len(),
                write_count < capacity,
                index < capacity,
                self.capacity == capacity,
                self.buffer@.len() == capacity,
                self.read_cursor as int == read0,
                self.write_cursor as int == write0,
                0 <= read0 < capacity,
                0 <= write0 < capacity,
                accepted == input@.take(write_count as int),
                index as int == ring_index(write0, j as int, capacity as int),
                self.buffer@ == ring_write(store0, write0, accepted.take(j as int)),
                store0.len() == capacity,
            decreases write_count - j,
        {
            self.buffer[index] = input[j];
            proof {
                lemma_ring_write_step(store0, write0, accepted, j as int);
                assert(accepted.take(j as int + 1) =~= input@.take(write_count as int).take(
                    j as int + 1));
            }
            index = index + 1;
            if index == capacity {
                index = 0;
            }
            j = j + 1;
        }
        self.write_cursor = index;
        proof {
            assert(accepted.take(write_count as int) =~= accepted);
            lemma_ring_write_appends(store0, read0, write0, accepted, capacity as int);
        }
        write_count
    }

    /// Take the oldest unread element, or `T::default()` when the buffer is
    /// empty; the two cases are told apart by `is_empty` or `len`, not by
    /// the returned value.
    pub fn take_one(&mut self) -> (element: T)
        requires
            old(self).wf(),
        ensures
            final(self).wf(),
            old(self).spec_len() > 0 ==> {
                &&& element == old(self).contents()[0]
                &&& final(self).contents() == old(self).contents().skip(1)
                &&& final(self).spec_len() == old(self).spec_len() - 1
                &&& final(self).spec_read_cursor() == ring_index(old(self).spec_read_cursor(),
                    1, old(self).spec_capacity())
            },
            old(self).spec_len() == 0 ==> {
                &&& call_ensures(T::default, (), element)
                &&& final(self).spec_read_cursor() == old(self).spec_read_cursor()
                &&& final(self).spec_len() == 0
                &&& final(self).contents() == old(self).contents()
            },
            final(self).storage() == old(self).storage(),
            final(self).spec_capacity() == old(self).spec_capacity(),
            final(self).spec_write_cursor() == old(self).spec_write_cursor(),
    {
        proof {
            old(self).lemma_sentinel_invariant();
        }
        let found: Vec<T> = self.take(1);
        if found.is_empty() {
            T::default()
        } else {
            proof {
                if old(self).spec_len() == 0 {
                    assert(found@.len() == 0);
                }
                assert(old(self).contents().take(1)[0] == old(self).contents()[0]);
            }
            found[0]
        }
    }

    /// Take every unread element, oldest first, leaving the buffer empty.
    pub fn take_all(&mut self) -> (data: Vec<T>)
        requires
            old(self).wf(),
        ensures
            final(self).wf(),
            data@ == old(self).contents(),
            final(self).contents() == Seq::<T>::empty(),
            final(self).spec_len() == 0,
            final(self).storage() == old(self).storage(),
            final(self).spec_capacity() == old(self).spec_capacity(),
            final(self).spec_write_cursor() == old(self).spec_write_cursor(),
    {
        proof {
            old(self).lemma_sentinel_invariant();
        }
        let amount: usize = self.len();
        let data: Vec<T> = self.take(amount);
        proof {
            assert(data@ =~= old(self).contents());
            assert(final(self).contents() =~= Seq::<T>::empty());
        }
        data
    }

    /// Take up to `amount` elements from the buffer, oldest first, removing
    /// them. When fewer are stored, only those are returned — a short read,
    /// never an error.
    pub fn take(&mut self, amount: usize) -> (data: Vec<T>)
        requires
            old(self).wf(),
        ensures
            final(self).wf(),
            data@.len() == ring_taken(old(self).spec_len(), amount as int),
            data@ == old(self).contents().take(data@.len() as int),
            final(self).contents() == old(self).contents().skip(data@.len() as int),
            final(self).spec_len() == old(self).spec_len() - data@.len(),
            final(self).storage() == old(self).storage(),
            final(self).spec_capacity() == old(self).spec_capacity(),
            final(self).spec_write_cursor() == old(self).spec_write_cursor(),
            final(self).spec_read_cursor() == ring_index(old(self).spec_read_cursor(),
                data@.len() as int, old(self).spec_capacity()),
    {
        let default_value = T::default();
        let mut output_buffer: Vec<T> = Vec::new();
        let mut i: usize = 0;
        while i < amount
            invariant
                i <= amount,
                output_buffer@.len() == i,
            decreases amount - i,
        {
            output_buffer.push(default_value);
            i = i + 1;
        }
        let ghost contents0 = self.contents();
        let taken: usize = self.take_to_buffer(output_buffer.as_mut_slice());
        output_buffer.truncate(taken);
        proof {
            assert(output_buffer@ =~= contents0.take(taken as int));
        }
        output_buffer
    }

    /// Copy up to `output.len()` unread elements into the front of `output`,
    /// oldest first, removing them from the buffer. Returns how many were
    /// copied; the rest of `output` is left as it was.
    fn take_to_buffer(&mut self, output: &mut [T]) -> (taken: usize)
        requires
            old(self).wf(),
        ensures
            final(self).wf(),
            taken == ring_taken(old(self).spec_len(), old(output)@.len() as int),
            final(output)@ == old(self).contents().take(taken as int) + old(output)@.skip(
                taken as int),
            final(output)@.len() == old(output)@.len(),
            final(self).contents() == old(self).contents().skip(taken as int),
            final(self).spec_len() == old(self).spec_len() - taken,
            final(self).storage() == old(self).storage(),
            final(self).spec_capacity() == old(self).spec_capacity(),
            final(self).spec_write_cursor() == old(self).spec_write_cursor(),
            final(self).spec_read_cursor() == ring_index(old(self).spec_read_cursor(),
                taken as int, old(self).spec_capacity()),
    {
        proof {
            old(self).lemma_sentinel_invariant();
        }
        let capacity: usize = self.capacity;
        let used_space: usize = self.len();
        let output_len: usize = output.len();
        let taken: usize = if used_space < output_len {
            used_space
        } else {
            output_len
        };

        let ghost store0 = self.buffer@;
        let ghost read0 = self.read_cursor as int;
        let ghost write0 = self.write_cursor as int;
        let ghost len0 = self.spec_len();
        let ghost contents0 = self.contents();
        let ghost out0 = output@;

        let mut index: usize = self.read_cursor;
        let mut j: usize = 0;
        while j < taken
            invariant
                1 <= capacity,
                j <= taken,
                taken <= len0,
                taken <= out0.len(),
                index < capacity,
                self.capacity == capacity,
                self.buffer@ == store0,
                self.read_cursor as int == read0,
                self.write_cursor as int == write0,
                0 <= read0 < capacity,
                0 <= write0 < capacity,
                store0.len() == capacity,
                len0 == ring_offset(read0, write0, capacity as int),
                contents0 == ring_contents(store0, read0, len0),
                index as int == ring_index(read0, j as int, capacity as int),
                output@.len() == out0.len(),
                forall|m: int| 0 <= m < j ==> output@[m] == contents0[m],
                forall|m: int| j <= m < out0.len() ==> output@[m] == out0[m],
            decreases taken - j,
        {
            output[j] = self.buffer[index];
            assert(contents0[j as int] == store0[index as int]);
            index = index + 1;
            if index == capacity {
                index = 0;
            }
            j = j + 1;
        }
        self.read_cursor = index;
        proof {
            lemma_ring_contents_skip(store0, read0, len0, taken as int, capacity as int);
            assert(output@ =~= contents0.take(taken as int) + out0.skip(taken as int));
        }
        taken
    }

    /// Snapshot of the whole backing store, rotated so the slot at the read
    /// cursor comes first. A diagnostic view: it includes slots that were
    /// already read (or never written) and does not consume anything.
    pub fn raw_data(&self) -> (data: Vec<T>)
        requires
            self.wf(),
        ensures
            data@ == ring_contents(self.storage(), self.spec_read_cursor(),
                self.spec_capacity()),
            data@.len() == self.spec_capacity(),
            data@.take(self.spec_len()) == self.contents(),
    {
        let capacity: usize = self.capacity;
        let mut output: Vec<T> = Vec::new();
        let mut index: usize = self.read_cursor;
        let mut j: usize = 0;
        while j < capacity
            invariant
                1 <= capacity,
                j <= capacity,
                index < capacity,
                self.wf(),
                self.capacity == capacity,
                index as int == ring_index(self.spec_read_cursor(), j as int, capacity as int),
                output@.len() == j,
                forall|m: int| 0 <= m < j ==> output@[m] == ring_contents(self.storage(),
                    self.spec_read_cursor(), capacity as int)[m],
            decreases capacity - j,
        {
            output.push(self.buffer[index]);
            index = index + 1;
            if index == capacity {
                index = 0;
            }
            j = j + 1;
        }
        proof {
            self.lemma_sentinel_invariant();
            assert(output@ =~= ring_contents(self.storage(), self.spec_read_cursor(),
                self.spec_capacity()));
            lemma_ring_contents_take(self.storage(), self.spec_read_cursor(), capacity as int,
                self.spec_len(), capacity as int);
        }
        output
    }

    /// Number of elements written but not yet read.
    pub fn len(&self) -> (length: usize)
        requires
            self.wf(),
        ensures
            length == self.spec_len(),
    {
        if self.write_cursor >= self.read_cursor {
            self.write_cursor - self.read_cursor
        } else {
            self.capacity - (self.read_cursor - self.write_cursor)
        }
    }

    /// Whether no unread elements are stored.
    pub fn is_empty(&self) -> (empty: bool)
        requires
            self.wf(),
        ensures
            empty == (self.spec_len() == 0),
    {
        self.len() == 0
    }

    /// Whether the buffer holds the most it can, `capacity - 1` unread
    /// elements: the sentinel slot is never used.
    pub fn is_full(&self) -> (full: bool)
        requires
            self.wf(),
        ensures
            full == (self.spec_len() == self.spec_capacity() - 1),
    {
        self.len() == self.capacity - 1
    }
}

} // verus!

