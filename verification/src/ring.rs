//! The arithmetic core shared by all buffer variants: positions that wrap
//! modulo the capacity, the unread region they delimit, and how a batched
//! write or read moves that region.
//!
//! Everything is phrased over a backing store `Seq<T>` of length `cap`, a
//! read position and a write position, both in `[0, cap)`. The buffer types
//! define their views in terms of these functions, so the lemmas here are the
//! single proof of the wraparound behaviour for every variant.

use vstd::prelude::*;

verus! {

/// Slot reached after advancing `i` steps forward from `start` in a ring of
/// `cap` slots.
pub open spec fn ring_index(start: int, i: int, cap: int) -> int
    recommends
        0 <= start < cap,
        0 <= i < cap,
{
    if start + i < cap {
        start + i
    } else {
        start + i - cap
    }
}

/// Number of forward steps from `start` to `slot` in a ring of `cap` slots.
/// With `start` the read position and `slot` the write position this is the
/// number of unread elements.
pub open spec fn ring_offset(start: int, slot: int, cap: int) -> int
    recommends
        0 <= start < cap,
        0 <= slot < cap,
{
    if slot >= start {
        slot - start
    } else {
        slot + cap - start
    }
}

/// The `len` elements stored from position `read` onwards, in reading order.
pub open spec fn ring_contents<T>(store: Seq<T>, read: int, len: int) -> Seq<T>
    recommends
        1 <= store.len(),
        0 <= read < store.len(),
        0 <= len <= store.len(),
{
    Seq::new(len as nat, |i: int| store[ring_index(read, i, store.len() as int)])
}

/// The store after writing `input` into consecutive slots starting at
/// `start`, wrapping past the end of the store.
pub open spec fn ring_write<T>(store: Seq<T>, start: int, input: Seq<T>) -> Seq<T>
    recommends
        1 <= store.len(),
        0 <= start < store.len(),
        input.len() < store.len(),
{
    Seq::new(
        store.len(),
        |slot: int|
            if ring_offset(start, slot, store.len() as int) < input.len() {
                input[ring_offset(start, slot, store.len() as int)]
            } else {
                store[slot]
            },
    )
}

/// How many of `requested` elements a write accepts when `used` slots are
/// already unread: the whole input when it fits while sparing the sentinel
/// slot, otherwise exactly what fills the buffer up to the sentinel.
pub open spec fn ring_accepted(used: int, requested: int, cap: int) -> int
    recommends
        0 <= used <= cap - 1,
        0 <= requested,
{
    if used + requested < cap {
        requested
    } else {
        cap - 1 - used
    }
}

/// How many of `requested` elements a read returns when `len` are unread:
/// everything requested, or everything unread if less is there.
pub open spec fn ring_taken(len: int, requested: int) -> int
    recommends
        0 <= len,
        0 <= requested,
{
    if requested <= len {
        requested
    } else {
        len
    }
}

/// Advancing stays inside the ring.
pub proof fn lemma_ring_index_bounds(start: int, i: int, cap: int)
    requires
        0 <= start < cap,
        0 <= i < cap,
    ensures
        0 <= ring_index(start, i, cap) < cap,
{
}

/// The distance between two positions of the ring is at most `cap - 1`.
pub proof fn lemma_ring_offset_bounds(start: int, slot: int, cap: int)
    requires
        0 <= start < cap,
        0 <= slot < cap,
    ensures
        0 <= ring_offset(start, slot, cap) <= cap - 1,
{
}

/// Advancing `i` steps from `start` lands `i` steps away from `start`.
pub proof fn lemma_ring_offset_of_index(start: int, i: int, cap: int)
    requires
        0 <= start < cap,
        0 <= i < cap,
    ensures
        ring_offset(start, ring_index(start, i, cap), cap) == i,
{
}

/// Advancing from `start` by the distance to `slot` reaches `slot`.
pub proof fn lemma_ring_index_of_offset(start: int, slot: int, cap: int)
    requires
        0 <= start < cap,
        0 <= slot < cap,
    ensures
        ring_index(start, ring_offset(start, slot, cap), cap) == slot,
{
}

/// Advancing twice is advancing by the sum of the step counts.
pub proof fn lemma_ring_index_add(start: int, k: int, i: int, cap: int)
    requires
        0 <= start < cap,
        0 <= k,
        0 <= i,
        k + i < cap,
    ensures
        ring_index(ring_index(start, k, cap), i, cap) == ring_index(start, k + i, cap),
{
}

/// Writing one more element of `input` updates exactly the slot `j` steps
/// past `start`. This is the step a copy loop takes.
pub proof fn lemma_ring_write_step<T>(store: Seq<T>, start: int, input: Seq<T>, j: int)
    requires
        1 <= store.len(),
        0 <= start < store.len(),
        input.len() < store.len(),
        0 <= j < input.len(),
    ensures
        ring_write(store, start, input.take(j + 1)) == ring_write(store, start, input.take(j))
            .update(ring_index(start, j, store.len() as int), input[j]),
{
    let cap = store.len() as int;
    let lhs = ring_write(store, start, input.take(j + 1));
    let rhs = ring_write(store, start, input.take(j)).update(
        ring_index(start, j, cap),
        input[j],
    );
    lemma_ring_index_bounds(start, j, cap);
    assert forall|slot: int| 0 <= slot < cap implies lhs[slot] == rhs[slot] by {
        let off = ring_offset(start, slot, cap);
        lemma_ring_offset_bounds(start, slot, cap);
        lemma_ring_index_of_offset(start, slot, cap);
        lemma_ring_offset_of_index(start, j, cap);
        if off == j {
            assert(slot == ring_index(start, j, cap));
        } else {
            assert(slot != ring_index(start, j, cap));
        }
    };
    assert(lhs =~= rhs);
}

/// Writing `input` right behind the unread region appends it to the unread
/// contents and leaves everything before untouched; the write position moves
/// `input.len()` steps forward.
pub proof fn lemma_ring_write_appends<T>(
    store: Seq<T>,
    read: int,
    write: int,
    input: Seq<T>,
    cap: int,
)
    requires
        cap == store.len(),
        1 <= cap,
        0 <= read < cap,
        0 <= write < cap,
        ring_offset(read, write, cap) + input.len() < cap,
    ensures
        ring_contents(
            ring_write(store, write, input),
            read,
            ring_offset(read, write, cap) + input.len(),
        ) == ring_contents(store, read, ring_offset(read, write, cap)) + input,
        ring_offset(read, ring_index(write, input.len() as int, cap), cap) == ring_offset(
            read,
            write,
            cap,
        ) + input.len(),
{
    let len = ring_offset(read, write, cap);
    let n = input.len() as int;
    let lhs = ring_contents(ring_write(store, write, input), read, len + n);
    let rhs = ring_contents(store, read, len) + input;
    assert forall|i: int| 0 <= i < len + n implies lhs[i] == rhs[i] by {
        let slot = ring_index(read, i, cap);
        lemma_ring_index_bounds(read, i, cap);
        let off = ring_offset(write, slot, cap);
        lemma_ring_offset_bounds(write, slot, cap);
        if i < len {
            assert(off == i + cap - len);
        } else {
            assert(off == i - len);
        }
    };
    assert(lhs =~= rhs);
}

/// Advancing the read position by `k` drops the first `k` unread elements
/// and keeps the rest, in order.
pub proof fn lemma_ring_contents_skip<T>(store: Seq<T>, read: int, len: int, k: int, cap: int)
    requires
        cap == store.len(),
        1 <= cap,
        0 <= read < cap,
        0 <= k <= len,
        len < cap,
    ensures
        ring_contents(store, ring_index(read, k, cap), len - k) == ring_contents(
            store,
            read,
            len,
        ).skip(k),
{
    let read2 = ring_index(read, k, cap);
    lemma_ring_index_bounds(read, k, cap);
    let lhs = ring_contents(store, read2, len - k);
    let rhs = ring_contents(store, read, len).skip(k);
    assert forall|i: int| 0 <= i < len - k implies lhs[i] == rhs[i] by {
        lemma_ring_index_add(read, k, i, cap);
    };
    assert(lhs =~= rhs);
}

/// The first `k` of the unread elements are the unread contents cut to
/// length `k`.
pub proof fn lemma_ring_contents_take<T>(store: Seq<T>, read: int, len: int, k: int, cap: int)
    requires
        cap == store.len(),
        1 <= cap,
        0 <= read < cap,
        0 <= k <= len,
        len <= cap,
    ensures
        ring_contents(store, read, len).take(k) == ring_contents(store, read, k),
{
    assert(ring_contents(store, read, len).take(k) =~= ring_contents(store, read, k));
}

/// Sentinel invariant: however the two cursors stand, the unread length is
/// at most `cap - 1`, and it is zero exactly when the cursors coincide —
/// equal cursors always mean "empty", never "full".
pub proof fn lemma_ring_sentinel(read: int, write: int, cap: int)
    requires
        1 <= cap,
        0 <= read < cap,
        0 <= write < cap,
    ensures
        0 <= ring_offset(read, write, cap) <= cap - 1,
        ring_offset(read, write, cap) == 0 <==> read == write,
{
}

/// Truncation determinism: with `used` slots unread out of `cap`, a write of
/// `requested` elements accepts exactly `min(requested, cap - used - 1)`;
/// the sentinel slot survives every write.
pub proof fn lemma_ring_truncation(used: int, requested: int, cap: int)
    requires
        1 <= cap,
        0 <= used <= cap - 1,
        0 <= requested,
    ensures
        0 <= ring_accepted(used, requested, cap) <= requested,
        used + ring_accepted(used, requested, cap) <= cap - 1,
        requested <= cap - used - 1 ==> ring_accepted(used, requested, cap) == requested,
        requested > cap - used - 1 ==> ring_accepted(used, requested, cap) == cap - used - 1,
{
}

/// Short-read determinism: a read of `requested` elements out of `len`
/// unread ones returns exactly `min(requested, len)` elements.
pub proof fn lemma_ring_short_read(len: int, requested: int)
    requires
        0 <= len,
        0 <= requested,
    ensures
        0 <= ring_taken(len, requested) <= requested,
        ring_taken(len, requested) <= len,
        requested <= len ==> ring_taken(len, requested) == requested,
        requested > len ==> ring_taken(len, requested) == len,
{
}

/// Order preservation: across two writes followed by two reads, the unread
/// stream holds the accepted prefixes of both inputs behind the data that
/// was already unread, and the two reads return consecutive chunks of that
/// stream — their concatenation is its prefix. No element is lost,
/// duplicated or reordered, wraparound included.
///
/// Every buffer variant's `extend` and `take` pin their new storage, cursor
/// and returned data to exactly the `ring_write`, `ring_index` and
/// `ring_contents` expressions composed here, so this one lemma is the
/// order-preservation argument for all of them (in the multi-reader variant,
/// for each cursor separately).
pub proof fn lemma_ring_order_preservation<T>(
    store: Seq<T>,
    read: int,
    write: int,
    cap: int,
    w1: Seq<T>,
    w2: Seq<T>,
    k1: int,
    k2: int,
)
    requires
        cap == store.len(),
        1 <= cap,
        0 <= read < cap,
        0 <= write < cap,
        0 <= k1,
        0 <= k2,
    ensures
        ({
            let len0 = ring_offset(read, write, cap);
            let n1 = ring_accepted(len0, w1.len() as int, cap);
            let store1 = ring_write(store, write, w1.take(n1));
            let write1 = ring_index(write, n1, cap);
            let len1 = len0 + n1;
            let n2 = ring_accepted(len1, w2.len() as int, cap);
            let store2 = ring_write(store1, write1, w2.take(n2));
            let len2 = len1 + n2;
            let stream = ring_contents(store2, read, len2);
            let t1 = ring_taken(len2, k1);
            let read1 = ring_index(read, t1, cap);
            let t2 = ring_taken(len2 - t1, k2);
            &&& stream == ring_contents(store, read, len0) + w1.take(n1) + w2.take(n2)
            &&& stream.take(t1) + ring_contents(store2, read1, len2 - t1).take(t2) == stream.take(
                t1 + t2,
            )
        }),
{
    let len0 = ring_offset(read, write, cap);
    let n1 = ring_accepted(len0, w1.len() as int, cap);
    let store1 = ring_write(store, write, w1.take(n1));
    let write1 = ring_index(write, n1, cap);
    let len1 = len0 + n1;
    let n2 = ring_accepted(len1, w2.len() as int, cap);
    let store2 = ring_write(store1, write1, w2.take(n2));
    let write2 = ring_index(write1, n2, cap);
    let len2 = len1 + n2;
    let stream = ring_contents(store2, read, len2);
    let t1 = ring_taken(len2, k1);
    let read1 = ring_index(read, t1, cap);
    let t2 = ring_taken(len2 - t1, k2);

    lemma_ring_sentinel(read, write, cap);
    lemma_ring_write_appends(store, read, write, w1.take(n1), cap);
    lemma_ring_index_bounds(write, n1, cap);
    lemma_ring_write_appends(store1, read, write1, w2.take(n2), cap);
    assert(ring_contents(store1, read, len1).take(len0) == ring_contents(store1, read, len0)) by {
        lemma_ring_contents_take(store1, read, len1, len0, cap);
    }
    assert(ring_contents(store1, read, len0) == ring_contents(store, read, len0)) by {
        assert(ring_contents(store1, read, len1).take(len0) =~= (ring_contents(store, read, len0)
            + w1.take(n1)).take(len0));
        assert((ring_contents(store, read, len0) + w1.take(n1)).take(len0) =~= ring_contents(
            store,
            read,
            len0,
        ));
    }
    assert(stream =~= ring_contents(store, read, len0) + w1.take(n1) + w2.take(n2));

    lemma_ring_sentinel(read, write2, cap);
    lemma_ring_contents_skip(store2, read, len2, t1, cap);
    assert(stream.take(t1) + stream.skip(t1).take(t2) =~= stream.take(t1 + t2));
}

} // verus!
