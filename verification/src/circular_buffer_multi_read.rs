//! Single-writer, multi-reader ring buffer: one write cursor and up to
//! `MAX_READ_CURSOR_COUNT` independently advancing read cursors over the
//! same backing store. The writer's available space is governed by the
//! slowest reader.

use vstd::prelude::*;

use crate::ring::{
    lemma_ring_contents_skip, lemma_ring_contents_take, lemma_ring_offset_bounds,
    lemma_ring_sentinel, lemma_ring_write_appends, lemma_ring_write_step, ring_accepted,
    ring_contents, ring_index, ring_offset, ring_taken, ring_write,
};

verus! {

/// Opaque handle to one read cursor of a [`CircularBufferMultiRead`]. It
/// carries no data of its own: all reading goes through the buffer that
/// created it, and a handle is only meaningful with that buffer.
#[derive(Debug)]
pub struct ReadCursor {
    index: usize,
}

impl ReadCursor {
    /// The registry slot this handle names.
    pub closed spec fn id(&self) -> int {
        self.index as int
    }
}

/// Failure of [`CircularBufferMultiRead::create_read_cursor`].
#[derive(Debug, PartialEq, Eq)]
pub enum CursorError {
    /// The cursor registry already holds `MAX_READ_CURSOR_COUNT` cursors;
    /// handing out another handle would alias two readers onto one slot.
    ResourceExhausted,
}

/// A circular buffer over `CAPACITY` slots of `T` with one writer and up to
/// `MAX_READ_CURSOR_COUNT` read cursors, each an independent position into
/// the same written stream. One slot is kept free as a sentinel, so at most
/// `CAPACITY - 1` elements are unread per cursor; a write is truncated to
/// what fits ahead of the least-advanced cursor, so a reader that never
/// takes eventually stalls the writer (deliberate backpressure). The buffer
/// does not synchronise concurrent access: several cursors mean several
/// logical read positions, not thread safety.
pub struct CircularBufferMultiRead<T, const CAPACITY: usize, const MAX_READ_CURSOR_COUNT: usize> {
    buffer: Vec<T>,
    read_cursors: Vec<usize>,
    write_cursor: usize,
}

impl<T, const CAPACITY: usize, const MAX_READ_CURSOR_COUNT: usize> CircularBufferMultiRead<
    T,
    CAPACITY,
    MAX_READ_CURSOR_COUNT,
> {
    /// The backing store as a sequence of `CAPACITY` slots.
    pub closed spec fn storage(&self) -> Seq<T> {
        self.buffer@
    }

    /// Index of the next slot to write.
    pub closed spec fn spec_write_cursor(&self) -> int {
        self.write_cursor as int
    }

    /// Number of read cursors created so far.
    pub closed spec fn spec_cursor_count(&self) -> int {
        self.read_cursors@.len() as int
    }

    /// Position of read cursor `c`.
    pub closed spec fn spec_cursor_at(&self, c: int) -> int {
        self.read_cursors@[c] as int
    }

    /// Number of slots of the backing store.
    pub open spec fn spec_capacity(&self) -> int {
        CAPACITY as int
    }

    /// Whether `cursor` names a cursor this buffer has created.
    pub open spec fn valid_cursor(&self, cursor: ReadCursor) -> bool {
        0 <= cursor.id() < self.spec_cursor_count()
    }

    /// Well-formedness: the store has exactly `CAPACITY` slots (at least
    /// one, for the sentinel gap), the write cursor and every read cursor
    /// point into it, and the registry has not outgrown its fixed maximum.
    pub open spec fn wf(&self) -> bool {
        &&& 1 <= CAPACITY
        &&& self.storage().len() == CAPACITY
        &&& 0 <= self.spec_write_cursor() < CAPACITY
        &&& self.spec_cursor_count() <= MAX_READ_CURSOR_COUNT
        &&& forall|c: int|
            0 <= c < self.spec_cursor_count() ==> 0 <= #[trigger] self.spec_cursor_at(c)
                < CAPACITY
    }

    /// Number of elements written and not yet read through cursor `c`.
    pub open spec fn spec_len_at(&self, c: int) -> int {
        ring_offset(self.spec_cursor_at(c), self.spec_write_cursor(), self.spec_capacity())
    }

    /// The elements cursor `c` has not yet read, in the order they were
    /// written.
    pub open spec fn contents_at(&self, c: int) -> Seq<T> {
        ring_contents(self.storage(), self.spec_cursor_at(c), self.spec_len_at(c))
    }

    /// The largest unread length among the first `n` cursors; 0 with no
    /// cursors.
    pub open spec fn spec_max_used_up_to(&self, n: int) -> int
        decreases n,
    {
        if n <= 0 {
            0
        } else if self.spec_len_at(n - 1) > self.spec_max_used_up_to(n - 1) {
            self.spec_len_at(n - 1)
        } else {
            self.spec_max_used_up_to(n - 1)
        }
    }

    /// The unread length of the least-advanced cursor: what governs how much
    /// a write may store.
    pub open spec fn spec_max_used(&self) -> int {
        self.spec_max_used_up_to(self.spec_cursor_count())
    }

    /// How many of `requested` elements a write will store: the space ahead
    /// of the least-advanced cursor, minus the sentinel slot.
    pub open spec fn spec_accepted(&self, requested: int) -> int {
        ring_accepted(self.spec_max_used(), requested, self.spec_capacity())
    }

    /// Relation between a buffer and its state after a write of `input` that
    /// stored `written` elements: the same accepted prefix of the input is
    /// appended behind every cursor, and no cursor moves.
    pub open spec fn extend_post(&self, post: Self, input: Seq<T>, written: int) -> bool {
        &&& post.wf()
        &&& written == self.spec_accepted(input.len() as int)
        &&& post.spec_cursor_count() == self.spec_cursor_count()
        &&& forall|c: int|
            0 <= c < self.spec_cursor_count() ==> #[trigger] post.spec_cursor_at(c)
                == self.spec_cursor_at(c)
        &&& forall|c: int|
            0 <= c < self.spec_cursor_count() ==> #[trigger] post.spec_len_at(c)
                == self.spec_len_at(c) + written
        &&& forall|c: int|
            0 <= c < self.spec_cursor_count() ==> #[trigger] post.contents_at(c)
                == self.contents_at(c) + input.take(written)
        &&& post.storage() == ring_write(self.storage(), self.spec_write_cursor(),
            input.take(written))
        &&& post.spec_write_cursor() == ring_index(self.spec_write_cursor(), written,
            self.spec_capacity())
    }

    /// Relation between a buffer and its state after a read of `returned`
    /// through cursor `reader`: that cursor advances past what it returned,
    /// and nothing else — not the storage, not the writer, not any other
    /// cursor — changes.
    pub open spec fn take_post(&self, post: Self, reader: int, returned: Seq<T>) -> bool {
        &&& post.wf()
        &&& returned == self.contents_at(reader).take(returned.len() as int)
        &&& returned.len() <= self.spec_len_at(reader)
        &&& post.contents_at(reader) == self.contents_at(reader).skip(returned.len() as int)
        &&& post.spec_len_at(reader) == self.spec_len_at(reader) - returned.len()
        &&& post.spec_cursor_at(reader) == ring_index(self.spec_cursor_at(reader),
            returned.len() as int, self.spec_capacity())
        &&& post.spec_cursor_count() == self.spec_cursor_count()
        &&& forall|c: int|
            0 <= c < self.spec_cursor_count() && c != reader ==> #[trigger] post.spec_cursor_at(c)
                == self.spec_cursor_at(c)
        &&& post.storage() == self.storage()
        &&& post.spec_write_cursor() == self.spec_write_cursor()
    }

    /// Sentinel invariant, per cursor: a well-formed buffer never holds more
    /// than `CAPACITY - 1` elements unread by cursor `c`, and that cursor
    /// coincides with the write cursor exactly when it has nothing to read.
    /// Every operation returns a well-formed buffer, so this holds across
    /// any sequence of operations.
    pub proof fn lemma_sentinel_invariant(&self, c: int)
        requires
            self.wf(),
            0 <= c < self.spec_cursor_count(),
        ensures
            0 <= self.spec_len_at(c) <= self.spec_capacity() - 1,
            self.spec_len_at(c) == 0 <==> self.spec_cursor_at(c) == self.spec_write_cursor(),
            self.contents_at(c).len() == self.spec_len_at(c),
    {
        lemma_ring_sentinel(self.spec_cursor_at(c), self.spec_write_cursor(),
            self.spec_capacity());
    }

    proof fn lemma_max_used_up_to(&self, n: int)
        requires
            self.wf(),
            0 <= n <= self.spec_cursor_count(),
        ensures
            0 <= self.spec_max_used_up_to(n) <= self.spec_capacity() - 1,
            forall|c: int| 0 <= c < n ==> #[trigger] self.spec_len_at(c)
                <= self.spec_max_used_up_to(n),
        decreases n,
    {
        if n > 0 {
            self.lemma_max_used_up_to(n - 1);
            lemma_ring_offset_bounds(self.spec_cursor_at(n - 1), self.spec_write_cursor(),
                self.spec_capacity());
        }
    }

    /// The governing unread length is the largest one: it bounds every
    /// cursor's backlog and never exceeds `CAPACITY - 1`.
    pub proof fn lemma_max_used_bounds(&self)
        requires
            self.wf(),
        ensures
            0 <= self.spec_max_used() <= self.spec_capacity() - 1,
            forall|c: int| 0 <= c < self.spec_cursor_count() ==> #[trigger] self.spec_len_at(c)
                <= self.spec_max_used(),
    {
        self.lemma_max_used_up_to(self.spec_cursor_count());
    }

    /// Backpressure: once any single cursor's backlog has reached
    /// `CAPACITY - 1`, a write stores nothing, however much it offers and
    /// however far every other cursor has read. Only that cursor reading (or
    /// being skipped) lets the writer advance again.
    pub proof fn lemma_backpressure(&self, c: int, requested: int)
        requires
            self.wf(),
            0 <= c < self.spec_cursor_count(),
            self.spec_len_at(c) == self.spec_capacity() - 1,
            0 <= requested,
        ensures
            self.spec_accepted(requested) == 0,
    {
        self.lemma_max_used_bounds();
    }

    /// Multi-reader independence: after a write and then a read through
    /// `reader`, any other cursor `observer` still sees the data it had not
    /// read, extended by the same accepted prefix of the write — the other
    /// reader's pace does not change what it will read. The read itself
    /// returned the next chunk of `reader`'s own stream.
    pub proof fn lemma_multi_reader_independence(
        pre: Self,
        mid: Self,
        post: Self,
        input: Seq<T>,
        written: int,
        reader: int,
        returned: Seq<T>,
        observer: int,
    )
        requires
            pre.wf(),
            pre.extend_post(mid, input, written),
            mid.take_post(post, reader, returned),
            0 <= reader < pre.spec_cursor_count(),
            0 <= observer < pre.spec_cursor_count(),
            observer != reader,
        ensures
            mid.contents_at(observer) == pre.contents_at(observer) + input.take(written),
            post.contents_at(observer) == mid.contents_at(observer),
            returned == (pre.contents_at(reader) + input.take(written)).take(
                returned.len() as int),
    {
    }
}

impl<T: Copy, const CAPACITY: usize, const MAX_READ_CURSOR_COUNT: usize> CircularBufferMultiRead<
    T,
    CAPACITY,
    MAX_READ_CURSOR_COUNT,
> {
    /// Create a new multi-reader circular buffer with every slot holding
    /// `default_value` and no read cursors yet.
    pub fn new_const(default_value: T) -> (buffer: CircularBufferMultiRead<
        T,
        CAPACITY,
        MAX_READ_CURSOR_COUNT,
    >)
        requires
            1 <= CAPACITY,
        ensures
            buffer.wf(),
            buffer.spec_cursor_count() == 0,
            buffer.spec_write_cursor() == 0,
            buffer.storage() == Seq::new(CAPACITY as nat, |i: int| default_value),
    {
        let mut storage: Vec<T> = Vec::new();
        let mut i: usize = 0;
        while i < CAPACITY
            invariant
                i <= CAPACITY,
                storage@ == Seq::new(i as nat, |j: int| default_value),
            decreases CAPACITY - i,
        {
            storage.push(default_value);
            assert(storage@ =~= Seq::new((i + 1) as nat, |j: int| default_value));
            i = i + 1;
        }
        CircularBufferMultiRead { buffer: storage, read_cursors: Vec::new(), write_cursor: 0 }
    }
}

impl<
    T: Default + Copy,
    const CAPACITY: usize,
    const MAX_READ_CURSOR_COUNT: usize,
> CircularBufferMultiRead<T, CAPACITY, MAX_READ_CURSOR_COUNT> {
    /// Create a new multi-reader circular buffer with every slot holding
    /// `T::default()` and no read cursors yet.
    pub fn new() -> (buffer: CircularBufferMultiRead<T, CAPACITY, MAX_READ_CURSOR_COUNT>)
        requires
            1 <= CAPACITY,
        ensures
            buffer.wf(),
            buffer.spec_cursor_count() == 0,
            buffer.spec_write_cursor() == 0,
            forall|i: int| 0 <= i < CAPACITY ==> #[trigger] buffer.storage()[i]
                == buffer.storage()[0],
            call_ensures(T::default, (), buffer.storage()[0]),
    {
        let default_value = T::default();
        Self::new_const(default_value)
    }

    /// Register a new read cursor, positioned at the current write cursor:
    /// the new reader sees only data written after its creation. Fails with
    /// [`CursorError::ResourceExhausted`] exactly when the registry already
    /// holds `MAX_READ_CURSOR_COUNT` cursors; the registry never shrinks,
    /// and a handle stays valid for the buffer's whole lifetime.
    pub fn create_read_cursor(&mut self) -> (result: Result<ReadCursor, CursorError>)
        requires
            old(self).wf(),
        ensures
            final(self).wf(),
            final(self).storage() == old(self).storage(),
            final(self).spec_write_cursor() == old(self).spec_write_cursor(),
            result is Ok <==> old(self).spec_cursor_count() < MAX_READ_CURSOR_COUNT,
            (match result {
                Ok(cursor) => {
                    &&& cursor.id() == old(self).spec_cursor_count()
                    &&& final(self).spec_cursor_count() == old(self).spec_cursor_count() + 1
                    &&& forall|c: int|
                        0 <= c < old(self).spec_cursor_count()
                            ==> #[trigger] final(self).spec_cursor_at(c)
                            == old(self).spec_cursor_at(c)
                    &&& final(self).spec_cursor_at(cursor.id()) == old(self).spec_write_cursor()
                    &&& final(self).spec_len_at(cursor.id()) == 0
                    &&& final(self).contents_at(cursor.id()) == Seq::<T>::empty()
                },
                Err(error) => {
                    &&& error == CursorError::ResourceExhausted
                    &&& final(self).spec_cursor_count() == old(self).spec_cursor_count()
                    &&& forall|c: int|
                        0 <= c < old(self).spec_cursor_count()
                            ==> #[trigger] final(self).spec_cursor_at(c)
                            == old(self).spec_cursor_at(c)
                },
            }),
    {
        let cursor_id: usize = self.read_cursors.len();
        if cursor_id >= MAX_READ_CURSOR_COUNT {
            return Err(CursorError::ResourceExhausted);
        }
        self.read_cursors.push(self.write_cursor);
        let cursor = ReadCursor { index: cursor_id };
        proof {
            assert forall|c: int| 0 <= c < self.spec_cursor_count() implies 0
                <= #[trigger] self.spec_cursor_at(c) < CAPACITY by {
                if c < old(self).spec_cursor_count() {
                    assert(self.spec_cursor_at(c) == old(self).spec_cursor_at(c));
                }
            };
            assert(self.contents_at(cursor.id()) =~= Seq::<T>::empty());
        }
        Ok(cursor)
    }

    /// Fast-forward `read_cursor` to the current write cursor, discarding
    /// everything it had not read. No other cursor is affected.
    pub fn skip_current_data(&mut self, read_cursor: &ReadCursor)
        requires
            old(self).wf(),
            old(self).valid_cursor(*read_cursor),
        ensures
            final(self).wf(),
            final(self).storage() == old(self).storage(),
            final(self).spec_write_cursor() == old(self).spec_write_cursor(),
            final(self).spec_cursor_count() == old(self).spec_cursor_count(),
            final(self).spec_cursor_at(read_cursor.id()) == old(self).spec_write_cursor(),
            final(self).spec_len_at(read_cursor.id()) == 0,
            final(self).contents_at(read_cursor.id()) == Seq::<T>::empty(),
            forall|c: int|
                0 <= c < old(self).spec_cursor_count() && c != read_cursor.id()
                    ==> #[trigger] final(self).spec_cursor_at(c) == old(self).spec_cursor_at(c),
    {
        let index: usize = read_cursor.index;
        self.read_cursors[index] = self.write_cursor;
        proof {
            assert forall|c: int| 0 <= c < self.spec_cursor_count() implies 0
                <= #[trigger] self.spec_cursor_at(c) < CAPACITY by {
                if c != read_cursor.id() {
                    assert(self.spec_cursor_at(c) == old(self).spec_cursor_at(c));
                }
            };
            assert(self.contents_at(read_cursor.id()) =~= Seq::<T>::empty());
        }
    }

    /// Append one element. Returns how many were stored: 1, or 0 when the
    /// least-advanced cursor already has `CAPACITY - 1` elements unread.
    pub fn push(&mut self, input: T) -> (written: usize)
        requires
            old(self).wf(),
        ensures
            old(self).extend_post(*final(self), seq![input], written as int),
    {
        let input_array: [T; 1] = [input];
        let written: usize = self.extend(input_array.as_slice());
        proof {
            assert(input_array@ =~= seq![input]);
        }
        written
    }

    /// Append the elements of `input`, in order, behind every cursor.
    /// Returns how many were stored: the whole input when it fits ahead of
    /// the least-advanced cursor with the sentinel slot spared, else exactly
    /// the prefix that fills that space — the writer never overtakes the
    /// slowest reader, and truncation is silent.
    pub fn extend(&mut self, input: &[T]) -> (written: usize)
        requires
            old(self).wf(),
        ensures
            old(self).extend_post(*final(self), input@, written as int),
    {
        proof {
            old(self).lemma_max_used_bounds();
        }

        // The least-advanced cursor governs the available space.
        let count: usize = self.read_cursors.len();
        let mut largest_used_space: usize = 0;
        let mut c: usize = 0;
        while c < count
            invariant
                c <= count,
                count == self.spec_cursor_count(),
                self.wf(),
                largest_used_space == self.spec_max_used_up_to(c as int),
            decreases count - c,
        {
            proof {
                assert(0 <= self.spec_cursor_at(c as int) < CAPACITY);
            }
            let read_cursor: usize = self.read_cursors[c];
            let used: usize = if self.write_cursor >= read_cursor {
                self.write_cursor - read_cursor
            } else {
                CAPACITY - (read_cursor - self.write_cursor)
            };
            if used > largest_used_space {
                largest_used_space = used;
            }
            c = c + 1;
        }
        let ghost max_used0 = old(self).spec_max_used();
        proof {
            assert(largest_used_space == max_used0);
        }

        let available_space: usize = CAPACITY - largest_used_space;
        let required_space: usize = input.len();

        // Keep one slot free: this makes a cursor equal to the write cursor
        // always mean that reader is drained, never that it is behind by a
        // full buffer.
        let write_count: usize = if required_space >= available_space {
            available_space - 1
        } else {
            required_space
        };

        let ghost store0 = self.buffer@;
        let ghost cursors0 = self.read_cursors@;
        let ghost write0 = self.write_cursor as int;
        let ghost accepted = input@.take(write_count as int);
        proof {
            assert(write_count as int <= CAPACITY - 1 - max_used0);
        }

        let mut index: usize = self.write_cursor;
        let mut j: usize = 0;
        while j < write_count
            invariant
                1 <= CAPACITY,
                j <= write_count,
                write_count <= input@.len(),
                write_count < CAPACITY,
                write_count as int <= CAPACITY - 1 - max_used0,
                max_used0 == old(self).spec_max_used(),
                index < CAPACITY,
                self.buffer@.len() == CAPACITY,
                self.read_cursors@ == cursors0,
                self.write_cursor as int == write0,
                0 <= write0 < CAPACITY,
                accepted == input@.take(write_count as int),
                index as int == ring_index(write0, j as int, CAPACITY as int),
                self.buffer@ == ring_write(store0, write0, accepted.take(j as int)),
                store0.len() == CAPACITY,
            decreases write_count - j,
        {
            self.buffer[index] = input[j];
            proof {
                lemma_ring_write_step(store0, write0, accepted, j as int);
                assert(accepted.take(j as int + 1) =~= input@.take(write_count as int).take(
                    j as int + 1));
            }
            index = index + 1;
            if index == CAPACITY {
                index = 0;
            }
            j = j + 1;
        }
        self.write_cursor = index;
        proof {
            old(self).lemma_max_used_bounds();
            assert forall|c: int| 0 <= c < self.spec_cursor_count() implies 0
                <= #[trigger] self.spec_cursor_at(c) < CAPACITY by {
                assert(self.spec_cursor_at(c) == old(self).spec_cursor_at(c));
            };
            assert(accepted.take(write_count as int) =~= accepted);
            assert forall|cur: int| 0 <= cur < old(self).spec_cursor_count() implies {
                &&& #[trigger] self.spec_len_at(cur) == old(self).spec_len_at(cur) + write_count
                &&& self.contents_at(cur) == old(self).contents_at(cur) + accepted
            } by {
                assert(old(self).spec_len_at(cur) <= max_used0);
                lemma_ring_write_appends(store0, old(self).spec_cursor_at(cur), write0, accepted,
                    CAPACITY as int);
            };
        }
        write_count
    }

    /// Snapshot of the whole backing store, rotated so the slot at
    /// `read_cursor`'s position comes first. A diagnostic view: it includes
    /// slots already read (or never written) and does not consume anything.
    pub fn raw_data(&self, read_cursor: &ReadCursor) -> (data: Vec<T>)
        requires
            self.wf(),
            self.valid_cursor(*read_cursor),
        ensures
            data@ == ring_contents(self.storage(), self.spec_cursor_at(read_cursor.id()),
                self.spec_capacity()),
            data@.len() == self.spec_capacity(),
            data@.take(self.spec_len_at(read_cursor.id())) == self.contents_at(read_cursor.id()),
    {
        let ghost cursor_position = self.spec_cursor_at(read_cursor.id());
        let mut output: Vec<T> = Vec::new();
        let mut index: usize = self.read_cursors[read_cursor.index];
        let mut j: usize = 0;
        while j < CAPACITY
            invariant
                1 <= CAPACITY,
                j <= CAPACITY,
                index < CAPACITY,
                self.wf(),
                0 <= cursor_position < CAPACITY,
                index as int == ring_index(cursor_position, j as int, CAPACITY as int),
                output@.len() == j,
                forall|m: int| 0 <= m < j ==> output@[m] == ring_contents(self.storage(),
                    cursor_position, CAPACITY as int)[m],
            decreases CAPACITY - j,
        {
            output.push(self.buffer[index]);
            index = index + 1;
            if index == CAPACITY {
                index = 0;
            }
            j = j + 1;
        }
        proof {
            self.lemma_sentinel_invariant(read_cursor.id());
            assert(output@ =~= ring_contents(self.storage(), cursor_position,
                self.spec_capacity()));
            lemma_ring_contents_take(self.storage(), cursor_position, CAPACITY as int,
                self.spec_len_at(read_cursor.id()), CAPACITY as int);
        }
        output
    }

    /// Take the oldest element `read_cursor` has not read, or `T::default()`
    /// when it has read everything; the two cases are told apart by
    /// `is_empty` or `len`, not by the returned value.
    pub fn take_one(&mut self, read_cursor: &ReadCursor) -> (element: T)
        requires
            old(self).wf(),
            old(self).valid_cursor(*read_cursor),
        ensures
            old(self).spec_len_at(read_cursor.id()) > 0 ==> {
                &&& element == old(self).contents_at(read_cursor.id())[0]
                &&& old(self).take_post(*final(self), read_cursor.id(), seq![element])
            },
            old(self).spec_len_at(read_cursor.id()) == 0 ==> {
                &&& call_ensures(T::default, (), element)
                &&& old(self).take_post(*final(self), read_cursor.id(), Seq::<T>::empty())
            },
    {
        proof {
            old(self).lemma_sentinel_invariant(read_cursor.id());
        }
        let found: Vec<T> = self.take(1, read_cursor);
        if found.is_empty() {
            proof {
                assert(found@ =~= Seq::<T>::empty());
            }
            T::default()
        } else {
            proof {
                assert(found@ =~= seq![found@[0]]);
            }
            found[0]
        }
    }

    /// Take everything `read_cursor` has not read, oldest first, leaving
    /// that cursor drained. Other cursors are unaffected.
    pub fn take_all(&mut self, read_cursor: &ReadCursor) -> (data: Vec<T>)
        requires
            old(self).wf(),
            old(self).valid_cursor(*read_cursor),
        ensures
            old(self).take_post(*final(self), read_cursor.id(), data@),
            data@ == old(self).contents_at(read_cursor.id()),
            final(self).spec_len_at(read_cursor.id()) == 0,
    {
        proof {
            old(self).lemma_sentinel_invariant(read_cursor.id());
        }
        let amount: usize = self.len(read_cursor);
        let data: Vec<T> = self.take(amount, read_cursor);
        proof {
            assert(data@ =~= old(self).contents_at(read_cursor.id()));
        }
        data
    }

    /// Take up to `amount` elements through `read_cursor`, oldest first,
    /// advancing only that cursor. When fewer are unread, only those are
    /// returned — a short read, never an error.
    pub fn take(&mut self, amount: usize, read_cursor: &ReadCursor) -> (data: Vec<T>)
        requires
            old(self).wf(),
            old(self).valid_cursor(*read_cursor),
        ensures
            old(self).take_post(*final(self), read_cursor.id(), data@),
            data@.len() == ring_taken(old(self).spec_len_at(read_cursor.id()), amount as int),
    {
        let default_value = T::default();
        let mut output_buffer: Vec<T> = Vec::new();
        let mut i: usize = 0;
        while i < amount
            invariant
                i <= amount,
                output_buffer@.len() == i,
            decreases amount - i,
        {
            output_buffer.push(default_value);
            i = i + 1;
        }
        let ghost contents0 = self.contents_at(read_cursor.id());
        let taken: usize = self.take_to_buffer(output_buffer.as_mut_slice(), read_cursor);
        output_buffer.truncate(taken);
        proof {
            assert(output_buffer@ =~= contents0.take(taken as int));
        }
        output_buffer
    }

    /// Copy up to `output.len()` elements unread by `read_cursor_ref` into
    /// the front of `output`, oldest first, advancing only that cursor.
    /// Returns how many were copied; the rest of `output` is left as it was.
    pub fn take_to_buffer(&mut self, output: &mut [T], read_cursor_ref: &ReadCursor) -> (taken:
        usize)
        requires
            old(self).wf(),
            old(self).valid_cursor(*read_cursor_ref),
        ensures
            old(self).take_post(*final(self), read_cursor_ref.id(),
                final(output)@.take(taken as int)),
            taken == ring_taken(old(self).spec_len_at(read_cursor_ref.id()),
                old(output)@.len() as int),
            final(output)@ == old(self).contents_at(read_cursor_ref.id()).take(taken as int)
                + old(output)@.skip(taken as int),
            final(output)@.len() == old(output)@.len(),
    {
        proof {
            old(self).lemma_sentinel_invariant(read_cursor_ref.id());
        }
        let cursor_index: usize = read_cursor_ref.index;
        let read_position: usize = self.read_cursors[cursor_index];
        let used_space: usize = self.len(read_cursor_ref);
        let output_len: usize = output.len();
        let taken: usize = if used_space < output_len {
            used_space
        } else {
            output_len
        };

        let ghost store0 = self.buffer@;
        let ghost cursors0 = self.read_cursors@;
        let ghost read0 = read_position as int;
        let ghost write0 = self.write_cursor as int;
        let ghost len0 = self.spec_len_at(read_cursor_ref.id());
        let ghost contents0 = self.contents_at(read_cursor_ref.id());
        let ghost out0 = output@;

        let mut index: usize = read_position;
        let mut j: usize = 0;
        while j < taken
            invariant
                1 <= CAPACITY,
                j <= taken,
                taken <= len0,
                taken <= out0.len(),
                index < CAPACITY,
                self.buffer@ == store0,
                self.read_cursors@ == cursors0,
                self.write_cursor as int == write0,
                0 <= read0 < CAPACITY,
                0 <= write0 < CAPACITY,
                store0.len() == CAPACITY,
                len0 == ring_offset(read0, write0, CAPACITY as int),
                contents0 == ring_contents(store0, read0, len0),
                index as int == ring_index(read0, j as int, CAPACITY as int),
                output@.len() == out0.len(),
                forall|m: int| 0 <= m < j ==> output@[m] == contents0[m],
                forall|m: int| j <= m < out0.len() ==> output@[m] == out0[m],
            decreases taken - j,
        {
            output[j] = self.buffer[index];
            assert(contents0[j as int] == store0[index as int]);
            index = index + 1;
            if index == CAPACITY {
                index = 0;
            }
            j = j + 1;
        }
        self.read_cursors[cursor_index] = index;
        proof {
            assert forall|c: int| 0 <= c < self.spec_cursor_count() implies 0
                <= #[trigger] self.spec_cursor_at(c) < CAPACITY by {
                if c != read_cursor_ref.id() {
                    assert(self.spec_cursor_at(c) == old(self).spec_cursor_at(c));
                }
            };
            lemma_ring_contents_skip(store0, read0, len0, taken as int, CAPACITY as int);
            assert(output@ =~= contents0.take(taken as int) + out0.skip(taken as int));
            assert(output@.take(taken as int) =~= contents0.take(taken as int));
        }
        taken
    }

    /// Number of elements written and not yet read through `cursor`.
    pub fn len(&self, cursor: &ReadCursor) -> (length: usize)
        requires
            self.wf(),
            self.valid_cursor(*cursor),
        ensures
            length == self.spec_len_at(cursor.id()),
    {
        proof {
            assert(0 <= self.spec_cursor_at(cursor.id()) < CAPACITY);
        }
        let read_cursor: usize = self.read_cursors[cursor.index];
        if self.write_cursor >= read_cursor {
            self.write_cursor - read_cursor
        } else {
            CAPACITY - (read_cursor - self.write_cursor)
        }
    }

    /// Whether `cursor` has read everything written so far.
    pub fn is_empty(&self, cursor: &ReadCursor) -> (empty: bool)
        requires
            self.wf(),
            self.valid_cursor(*cursor),
        ensures
            empty == (self.spec_len_at(cursor.id()) == 0),
    {
        self.len(cursor) == 0
    }

    /// Whether `cursor` is behind by the most the buffer can hold,
    /// `CAPACITY - 1` unread elements: the sentinel slot is never used.
    pub fn is_full(&self, cursor: &ReadCursor) -> (full: bool)
        requires
            self.wf(),
            self.valid_cursor(*cursor),
        ensures
            full == (self.spec_len_at(cursor.id()) == self.spec_capacity() - 1),
    {
        self.len(cursor) == CAPACITY - 1
    }
}

} // verus!

