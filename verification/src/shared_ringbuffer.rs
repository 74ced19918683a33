//! Fixed-capacity ring buffers of fixed-size frames, for moving messages
//! between two independently running execution contexts.
//!
//! Two variants are provided. [`SharedRingBuffer`] keeps one slot empty to
//! tell a full buffer from an empty one and rejects writes when full.
//! [`SharedRingBufferWithCS`] guards every operation with a caller-supplied
//! mutual-exclusion capability and overwrites the oldest frame instead of
//! rejecting a write.

use vstd::prelude::*;

verus! {

/// Errors raised by the ring buffers.
#[derive(Clone, Copy, Debug, PartialEq, Eq, Structural)]
pub enum SharedRingBufferError {
    /// The buffer is full under the keep-one-slot-empty policy.
    NoSpace,
    /// The buffer is empty; nothing to read.
    NoData,
    /// The mutual-exclusion capability could not be acquired.
    CantLock,
}

impl SharedRingBufferError {
    /// A short human-readable description of the error.
    pub fn message(&self) -> (r: &'static str)
        ensures
            *self == SharedRingBufferError::NoSpace ==> r@ == "No Space"@,
            *self == SharedRingBufferError::NoData ==> r@ == "No Data"@,
            *self == SharedRingBufferError::CantLock ==> r@ == "Can't lock"@,
    {
        match self {
            SharedRingBufferError::NoSpace => "No Space",
            SharedRingBufferError::NoData => "No Data",
            SharedRingBufferError::CantLock => "Can't lock",
        }
    }
}

/// Mathematical state of a ring buffer: the consumer index, the producer
/// index, and the raw contents of every frame slot.
#[verifier::ext_equal]
pub ghost struct RingState {
    pub head: int,
    pub tail: int,
    pub frames: Seq<Seq<u8>>,
}

/// Well-formedness of a ring state over `frame_count` slots of `frame_size`
/// bytes each: both indices are in range and every slot has the frame size.
pub open spec fn ring_wf(s: RingState, frame_size: int, frame_count: int) -> bool {
    &&& s.frames.len() == frame_count
    &&& forall|i: int| 0 <= i < frame_count ==> (#[trigger] s.frames[i]).len() == frame_size
    &&& 0 <= s.head < frame_count
    &&& 0 <= s.tail < frame_count
}

/// The slot index following `i`, wrapping at `frame_count`.
pub open spec fn ring_next(i: int, frame_count: int) -> int {
    if i + 1 >= frame_count {
        0
    } else {
        i + 1
    }
}

/// The buffer is full when advancing the producer index would make it catch
/// the consumer index; one slot is always kept empty.
pub open spec fn ring_is_full(s: RingState) -> bool {
    ring_next(s.tail, s.frames.len() as int) == s.head
}

/// The buffer is empty when the two indices coincide.
pub open spec fn ring_is_empty(s: RingState) -> bool {
    s.head == s.tail
}

/// The slot content after `msg` is copied into a slot that held `old_frame`:
/// the message bytes followed by the untouched rest of the slot.
pub open spec fn stored_frame(old_frame: Seq<u8>, msg: Seq<u8>) -> Seq<u8> {
    msg + old_frame.skip(msg.len() as int)
}

/// The state after an accepted write of `msg`: the slot at the producer index
/// receives the message and the producer index advances.
pub open spec fn ring_write(s: RingState, msg: Seq<u8>) -> RingState {
    RingState {
        head: s.head,
        tail: ring_next(s.tail, s.frames.len() as int),
        frames: s.frames.update(s.tail, stored_frame(s.frames[s.tail], msg)),
    }
}

/// The state after the consumer index advances by one slot.
pub open spec fn ring_advance_head(s: RingState) -> RingState {
    RingState { head: ring_next(s.head, s.frames.len() as int), tail: s.tail, frames: s.frames }
}

/// The state after an overwrite-on-full write: a full buffer first discards
/// its oldest frame, then the write proceeds as usual.
pub open spec fn ring_overwrite(s: RingState, msg: Seq<u8>) -> RingState {
    if ring_is_full(s) {
        ring_write(ring_advance_head(s), msg)
    } else {
        ring_write(s, msg)
    }
}

/// How many frames are pending (written and not yet read).
pub open spec fn ring_count(s: RingState) -> int {
    if s.tail >= s.head {
        s.tail - s.head
    } else {
        s.tail + s.frames.len() - s.head
    }
}

/// The slot holding the `i`-th pending frame, counting from the consumer
/// index and wrapping once at the end of the slot array.
pub open spec fn ring_slot(s: RingState, i: int) -> int {
    if s.head + i < s.frames.len() {
        s.head + i
    } else {
        s.head + i - s.frames.len()
    }
}

/// The pending frames in reading order, oldest first.
pub open spec fn ring_pending(s: RingState) -> Seq<Seq<u8>> {
    Seq::new(ring_count(s) as nat, |i: int| s.frames[ring_slot(s, i)])
}

/// The state after every message of `msgs` is written in order.
pub open spec fn ring_write_all(s: RingState, msgs: Seq<Seq<u8>>) -> RingState
    decreases msgs.len(),
{
    if msgs.len() == 0 {
        s
    } else {
        ring_write_all(ring_write(s, msgs[0]), msgs.skip(1))
    }
}

/// Whether writing the messages of `msgs` in order never meets a full
/// buffer, so that every write is accepted.
pub open spec fn ring_accepts_all(s: RingState, msgs: Seq<Seq<u8>>) -> bool
    decreases msgs.len(),
{
    msgs.len() == 0 || (!ring_is_full(s) && ring_accepts_all(ring_write(s, msgs[0]), msgs.skip(1)))
}

/// A well-formed ring is full exactly when all but the reserved slot hold
/// pending frames, and empty exactly when none does.
pub proof fn lemma_count_characterizes_full_and_empty(
    s: RingState,
    frame_size: int,
    frame_count: int,
)
    requires
        ring_wf(s, frame_size, frame_count),
    ensures
        ring_is_full(s) <==> ring_count(s) == frame_count - 1,
        ring_is_empty(s) <==> ring_count(s) == 0,
        0 <= ring_count(s) <= frame_count - 1,
{
}

/// An accepted write appends the stored frame to the pending sequence and
/// leaves every previously pending frame in place.
pub proof fn lemma_write_appends(s: RingState, msg: Seq<u8>, frame_size: int, frame_count: int)
    requires
        ring_wf(s, frame_size, frame_count),
        !ring_is_full(s),
        msg.len() <= frame_size,
    ensures
        ring_wf(ring_write(s, msg), frame_size, frame_count),
        ring_count(ring_write(s, msg)) == ring_count(s) + 1,
        ring_pending(ring_write(s, msg)) == ring_pending(s).push(
            stored_frame(s.frames[s.tail], msg),
        ),
{
    let s2 = ring_write(s, msg);
    assert forall|i: int| 0 <= i < ring_count(s) implies ring_slot(s, i) != s.tail by {}
    assert(ring_pending(s2) =~= ring_pending(s).push(stored_frame(s.frames[s.tail], msg)));
}

/// Advancing the consumer index of a non-empty ring removes exactly the
/// oldest pending frame, which sits in the slot at the consumer index.
pub proof fn lemma_advance_head_drops_oldest(s: RingState, frame_size: int, frame_count: int)
    requires
        ring_wf(s, frame_size, frame_count),
        !ring_is_empty(s),
    ensures
        ring_wf(ring_advance_head(s), frame_size, frame_count),
        ring_count(ring_advance_head(s)) == ring_count(s) - 1,
        ring_pending(s)[0] == s.frames[s.head],
        ring_pending(ring_advance_head(s)) == ring_pending(s).skip(1),
{
    assert(ring_pending(ring_advance_head(s)) =~= ring_pending(s).skip(1));
}

/// One round trip through an empty ring: writing a message makes exactly
/// that frame pending, and a read whose destination has the message's length
/// hands the written bytes back unchanged.
pub proof fn lemma_write_read_round_trip(
    s: RingState,
    msg: Seq<u8>,
    frame_size: int,
    frame_count: int,
)
    requires
        ring_wf(s, frame_size, frame_count),
        ring_is_empty(s),
        2 <= frame_count,
        msg.len() <= frame_size,
    ensures
        !ring_is_full(s),
        !ring_is_empty(ring_write(s, msg)),
        ring_pending(ring_write(s, msg)) == seq![stored_frame(s.frames[s.tail], msg)],
        forall|dst: Seq<u8>|
            dst.len() == msg.len() ==> read_result(
                dst,
                ring_write(s, msg).frames[ring_write(s, msg).head],
            ) == msg,
{
    let s2 = ring_write(s, msg);
    lemma_write_appends(s, msg, frame_size, frame_count);
    assert(ring_pending(s2) =~= seq![stored_frame(s.frames[s.tail], msg)]);
    assert(s2.frames[s2.head] == stored_frame(s.frames[s.tail], msg));
    assert forall|dst: Seq<u8>| dst.len() == msg.len() implies read_result(
        dst,
        s2.frames[s2.head],
    ) == msg by {
        assert(stored_frame(s.frames[s.tail], msg).len() == frame_size);
        assert(read_result(dst, s2.frames[s2.head]) =~= msg);
    }
}

/// The overwrite-on-full policy: a write is always accepted; a full ring
/// first discards its oldest pending frame, so the frame written `N` writes
/// ago becomes unreadable and the next read yields its successor.
pub proof fn lemma_overwrite_drops_oldest(
    s: RingState,
    msg: Seq<u8>,
    frame_size: int,
    frame_count: int,
)
    requires
        ring_wf(s, frame_size, frame_count),
        2 <= frame_count,
        msg.len() <= frame_size,
    ensures
        ring_wf(ring_overwrite(s, msg), frame_size, frame_count),
        ring_is_full(s) ==> ring_pending(ring_overwrite(s, msg)) == ring_pending(s).skip(1).push(
            stored_frame(s.frames[s.tail], msg),
        ),
        !ring_is_full(s) ==> ring_pending(ring_overwrite(s, msg)) == ring_pending(s).push(
            stored_frame(s.frames[s.tail], msg),
        ),
        ring_count(ring_overwrite(s, msg)) <= frame_count - 1,
{
    if ring_is_full(s) {
        lemma_count_characterizes_full_and_empty(s, frame_size, frame_count);
        lemma_advance_head_drops_oldest(s, frame_size, frame_count);
        let s1 = ring_advance_head(s);
        assert(!ring_is_full(s1));
        lemma_write_appends(s1, msg, frame_size, frame_count);
        lemma_count_characterizes_full_and_empty(
            ring_write(s1, msg),
            frame_size,
            frame_count,
        );
    } else {
        lemma_write_appends(s, msg, frame_size, frame_count);
        lemma_count_characterizes_full_and_empty(s, frame_size, frame_count);
        lemma_count_characterizes_full_and_empty(ring_write(s, msg), frame_size, frame_count);
    }
}

/// As long as the pending frames and the new messages together fit in the
/// `frame_count - 1` usable slots, every write in a run of writes is
/// accepted, and each one adds exactly one pending frame.
pub proof fn lemma_writes_within_capacity_accepted(
    s: RingState,
    msgs: Seq<Seq<u8>>,
    frame_size: int,
    frame_count: int,
)
    requires
        ring_wf(s, frame_size, frame_count),
        forall|i: int| 0 <= i < msgs.len() ==> (#[trigger] msgs[i]).len() <= frame_size,
        ring_count(s) + msgs.len() <= frame_count - 1,
    ensures
        ring_accepts_all(s, msgs),
        ring_wf(ring_write_all(s, msgs), frame_size, frame_count),
        ring_count(ring_write_all(s, msgs)) == ring_count(s) + msgs.len(),
    decreases msgs.len(),
{
    if msgs.len() > 0 {
        lemma_count_characterizes_full_and_empty(s, frame_size, frame_count);
        assert(!ring_is_full(s));
        lemma_write_appends(s, msgs[0], frame_size, frame_count);
        lemma_writes_within_capacity_accepted(
            ring_write(s, msgs[0]),
            msgs.skip(1),
            frame_size,
            frame_count,
        );
    }
}

/// The state after every message of `msgs` is written in order under the
/// overwrite-on-full policy.
pub open spec fn ring_overwrite_all(s: RingState, msgs: Seq<Seq<u8>>) -> RingState
    decreases msgs.len(),
{
    if msgs.len() == 0 {
        s
    } else {
        ring_overwrite_all(ring_overwrite(s, msgs[0]), msgs.skip(1))
    }
}

/// A run of overwrite writes can be split off at its last message.
pub proof fn lemma_overwrite_all_snoc(s: RingState, msgs: Seq<Seq<u8>>)
    requires
        msgs.len() > 0,
    ensures
        ring_overwrite_all(s, msgs) == ring_overwrite(
            ring_overwrite_all(s, msgs.take(msgs.len() - 1)),
            msgs.last(),
        ),
    decreases msgs.len(),
{
    let s1 = ring_overwrite(s, msgs[0]);
    assert(ring_overwrite_all(s, msgs) == ring_overwrite_all(s1, msgs.skip(1)));
    if msgs.len() == 1 {
        assert(msgs.take(0) =~= Seq::<Seq<u8>>::empty());
        assert(msgs.skip(1) =~= Seq::<Seq<u8>>::empty());
        assert(ring_overwrite_all(s1, Seq::<Seq<u8>>::empty()) == s1);
        assert(ring_overwrite_all(s, Seq::<Seq<u8>>::empty()) == s);
    } else {
        lemma_overwrite_all_snoc(s1, msgs.skip(1));
        assert(msgs.skip(1).take(msgs.len() - 2) =~= msgs.take(msgs.len() - 1).skip(1));
        assert(msgs.skip(1).last() == msgs.last());
        assert(msgs.take(msgs.len() - 1)[0] == msgs[0]);
        assert(ring_overwrite_all(s, msgs.take(msgs.len() - 1)) == ring_overwrite_all(
            s1,
            msgs.take(msgs.len() - 1).skip(1),
        ));
    }
}

/// The overwrite policy over a whole run, from an empty ring: every write
/// is accepted whatever the run's length, and afterwards exactly the last
/// `min(msgs.len(), frame_count - 1)` messages are pending, in order, each
/// as the prefix of its frame — every older message has been discarded.
pub proof fn lemma_overwrite_run_from_empty(
    s: RingState,
    msgs: Seq<Seq<u8>>,
    frame_size: int,
    frame_count: int,
)
    requires
        ring_wf(s, frame_size, frame_count),
        ring_is_empty(s),
        2 <= frame_count,
        forall|i: int| 0 <= i < msgs.len() ==> (#[trigger] msgs[i]).len() <= frame_size,
    ensures
        ({
            let e = ring_overwrite_all(s, msgs);
            let k = if msgs.len() <= frame_count - 1 {
                msgs.len() as int
            } else {
                frame_count - 1
            };
            &&& ring_wf(e, frame_size, frame_count)
            &&& ring_count(e) == k
            &&& forall|i: int|
                0 <= i < k ==> (#[trigger] ring_pending(e)[i]).take(
                    msgs[msgs.len() - k + i].len() as int,
                ) == msgs[msgs.len() - k + i]
        }),
    decreases msgs.len(),
{
    let e = ring_overwrite_all(s, msgs);
    let k = if msgs.len() <= frame_count - 1 {
        msgs.len() as int
    } else {
        frame_count - 1
    };
    if msgs.len() == 0 {
        lemma_count_characterizes_full_and_empty(s, frame_size, frame_count);
    } else {
        let init = msgs.take(msgs.len() - 1);
        let last = msgs.last();
        lemma_overwrite_run_from_empty(s, init, frame_size, frame_count);
        lemma_overwrite_all_snoc(s, msgs);
        let prev = ring_overwrite_all(s, init);
        let k_prev = if init.len() <= frame_count - 1 {
            init.len() as int
        } else {
            frame_count - 1
        };
        lemma_count_characterizes_full_and_empty(prev, frame_size, frame_count);
        lemma_overwrite_drops_oldest(prev, last, frame_size, frame_count);
        let stored = stored_frame(prev.frames[prev.tail], last);
        assert(stored.take(last.len() as int) =~= last);
        if ring_is_full(prev) {
            assert(ring_pending(e) == ring_pending(prev).skip(1).push(stored));
            lemma_count_characterizes_full_and_empty(e, frame_size, frame_count);
            assert(k == k_prev);
            assert forall|i: int| 0 <= i < k implies (#[trigger] ring_pending(e)[i]).take(
                msgs[msgs.len() - k + i].len() as int,
            ) == msgs[msgs.len() - k + i] by {
                if i < k - 1 {
                    assert(ring_pending(e)[i] == ring_pending(prev)[i + 1]);
                    assert(init[init.len() - k_prev + i + 1] == msgs[msgs.len() - k + i]);
                } else {
                    assert(ring_pending(e)[i] == stored);
                    assert(msgs[msgs.len() - k + i] == last);
                }
            }
        } else {
            assert(ring_pending(e) == ring_pending(prev).push(stored));
            lemma_count_characterizes_full_and_empty(e, frame_size, frame_count);
            assert(k == k_prev + 1);
            assert forall|i: int| 0 <= i < k implies (#[trigger] ring_pending(e)[i]).take(
                msgs[msgs.len() - k + i].len() as int,
            ) == msgs[msgs.len() - k + i] by {
                if i < k - 1 {
                    assert(ring_pending(e)[i] == ring_pending(prev)[i]);
                    assert(init[init.len() - k_prev + i] == msgs[msgs.len() - k + i]);
                } else {
                    assert(ring_pending(e)[i] == stored);
                    assert(msgs[msgs.len() - k + i] == last);
                }
            }
        }
    }
}

/// An all-zero frame of `frame_size` bytes.
pub open spec fn zero_frame(frame_size: int) -> Seq<u8> {
    Seq::new(frame_size as nat, |j: int| 0u8)
}

/// A vector of `len` zero bytes.
fn zero_vec(len: usize) -> (v: Vec<u8>)
    ensures
        v@ == zero_frame(len as int),
{
    let mut v: Vec<u8> = Vec::new();
    let mut j: usize = 0;
    while j < len
        invariant
            j <= len,
            v@ =~= zero_frame(j as int),
        decreases len - j,
    {
        v.push(0u8);
        j = j + 1;
        proof {
            assert(v@ =~= zero_frame(j as int));
        }
    }
    proof {
        assert(v@ =~= zero_frame(len as int));
    }
    v
}

/// A ring of `N` frame slots of `S` bytes each, with `512 + S * N` bytes of
/// region budget accounted for (a header region of 512 bytes precedes the
/// frame array in the shared-memory layout this models).
///
/// This variant assumes the two sides serialize access themselves
/// (single producer, single consumer) and rejects a write when full.
pub struct SharedRingBuffer<const S: usize, const N: usize> {
    head: usize,
    tail: usize,
    frames: Vec<Vec<u8>>,
    buffer_size: u32,
}

impl<const S: usize, const N: usize> View for SharedRingBuffer<S, N> {
    type V = RingState;

    closed spec fn view(&self) -> RingState {
        RingState {
            head: self.head as int,
            tail: self.tail as int,
            frames: self.frames@.map_values(|f: Vec<u8>| f@),
        }
    }
}

impl<const S: usize, const N: usize> SharedRingBuffer<S, N> {
    /// The ring state is well formed for this variant's parameters.
    pub open spec fn wf(&self) -> bool {
        ring_wf(self@, S as int, N as int)
    }

    /// The size of the backing region this buffer was bound to.
    pub closed spec fn size_spec(&self) -> u32 {
        self.buffer_size
    }

    /// Binds a fresh, zero-initialized ring over a region of `buffer_size`
    /// bytes. The region must hold the 512-byte header plus `N` frames of
    /// `S` bytes each; a smaller region is a configuration error.
    pub fn assign(buffer_size: u32) -> (r: Self)
        requires
            1 <= N,
            512 + (S as int) * (N as int) <= buffer_size as int,
        ensures
            r.wf(),
            r@.head == 0,
            r@.tail == 0,
            r@.frames == Seq::new(N as nat, |i: int| zero_frame(S as int)),
            ring_is_empty(r@),
            r.size_spec() == buffer_size,
    {
        let mut frames: Vec<Vec<u8>> = Vec::new();
        let mut i: usize = 0;
        while i < N
            invariant
                i <= N,
                frames@.len() == i,
                forall|k: int| 0 <= k < i ==> (#[trigger] frames@[k])@ == zero_frame(S as int),
            decreases N - i,
        {
            frames.push(zero_vec(S));
            i = i + 1;
        }
        let r = SharedRingBuffer { head: 0, tail: 0, frames, buffer_size };
        proof {
            assert(r@.frames =~= Seq::new(N as nat, |i: int| zero_frame(S as int)));
        }
        r
    }

    /// Writes one message into the slot at the producer index, then advances
    /// that index. Fails with `NoSpace`, leaving the state unchanged, exactly
    /// when the buffer is full.
    pub fn write(&mut self, message: &[u8]) -> (r: Result<(), SharedRingBufferError>)
        requires
            old(self).wf(),
            message@.len() <= S,
        ensures
            final(self).wf(),
            final(self).size_spec() == old(self).size_spec(),
            ring_is_full(old(self)@) ==> {
                &&& r matches Err(e) && e == SharedRingBufferError::NoSpace
                &&& final(self)@ == old(self)@
            },
            !ring_is_full(old(self)@) ==> {
                &&& r matches Ok(u) && u == ()
                &&& final(self)@ == ring_write(old(self)@, message@)
            },
    {
        let next_tail = if self.tail + 1 >= N {
            0
        } else {
            self.tail + 1
        };
        if next_tail == self.head {
            return Err(SharedRingBufferError::NoSpace);
        }
        proof {
            assert(self@.frames[self.tail as int] == self.frames@[self.tail as int]@);
        }
        let frame = store_message(&self.frames[self.tail], message, S);
        self.frames.set(self.tail, frame);
        self.tail = next_tail;
        proof {
            assert(self@.frames =~= ring_write(old(self)@, message@).frames);
            assert(self@ =~= ring_write(old(self)@, message@));
        }
        Ok(())
    }

    /// Reads the oldest pending frame into `message`, copying
    /// `min(message.len(), S)` bytes, then advances the consumer index and
    /// returns the number of bytes copied. Fails with `NoData`, changing
    /// nothing, exactly when the buffer is empty.
    pub fn read(&mut self, message: &mut Vec<u8>) -> (r: Result<usize, SharedRingBufferError>)
        requires
            old(self).wf(),
        ensures
            final(self).wf(),
            final(self).size_spec() == old(self).size_spec(),
            ring_is_empty(old(self)@) ==> {
                &&& r matches Err(e) && e == SharedRingBufferError::NoData
                &&& final(self)@ == old(self)@
                &&& final(message)@ == old(message)@
            },
            !ring_is_empty(old(self)@) ==> {
                &&& r matches Ok(n) && n == copy_len(old(message)@.len() as int, S as int)
                &&& final(message)@ == read_result(
                    old(message)@,
                    old(self)@.frames[old(self)@.head],
                )
                &&& final(self)@ == ring_advance_head(old(self)@)
            },
    {
        if self.head == self.tail {
            return Err(SharedRingBufferError::NoData);
        }
        copy_frame_prefix(message, &self.frames[self.head]);
        let copy_size = if message.len() < S {
            message.len()
        } else {
            S
        };
        self.head = if self.head + 1 >= N {
            0
        } else {
            self.head + 1
        };
        proof {
            assert(self@ =~= ring_advance_head(old(self)@));
        }
        Ok(copy_size)
    }

    /// The size of the backing region.
    pub fn size(&self) -> (r: u32)
        ensures
            r == self.size_spec(),
    {
        self.buffer_size
    }
}

/// A cross-context mutual-exclusion capability. `lock` busy-waits until
/// ownership is acquired or reports `CantLock`; `release` signals the other
/// side. Implementations may back this with any cross-context test-and-set
/// primitive (a hardware semaphore, an atomic flag in shared memory).
pub trait CriticalSection {
    /// Acquires the capability, or fails with `CantLock`.
    fn lock(&mut self) -> (r: Result<(), SharedRingBufferError>);

    /// Releases the capability.
    fn release(&mut self);
}

/// An in-process stand-in for a hardware mutual-exclusion device: a plain
/// flag that grants the capability whenever it is not already held.
pub struct LocalCriticalSection {
    locked: bool,
}

impl LocalCriticalSection {
    /// A fresh, unheld capability.
    pub fn new() -> (r: Self) {
        LocalCriticalSection { locked: false }
    }
}

impl CriticalSection for LocalCriticalSection {
    fn lock(&mut self) -> (r: Result<(), SharedRingBufferError>) {
        if self.locked {
            Err(SharedRingBufferError::CantLock)
        } else {
            self.locked = true;
            Ok(())
        }
    }

    fn release(&mut self) {
        self.locked = false;
    }
}

/// A ring of `N` frame slots of `S` bytes each, guarded by a
/// mutual-exclusion capability. A write to a full buffer discards the oldest
/// unread frame instead of failing, so a sender never loses interactivity;
/// it only fails when the capability cannot be acquired.
pub struct SharedRingBufferWithCS<const S: usize, const N: usize, CS: CriticalSection> {
    head: usize,
    tail: usize,
    frames: Vec<Vec<u8>>,
    buffer_size: u32,
    cs: CS,
}

impl<const S: usize, const N: usize, CS: CriticalSection> View for SharedRingBufferWithCS<
    S,
    N,
    CS,
> {
    type V = RingState;

    closed spec fn view(&self) -> RingState {
        RingState {
            head: self.head as int,
            tail: self.tail as int,
            frames: self.frames@.map_values(|f: Vec<u8>| f@),
        }
    }
}

impl<const S: usize, const N: usize, CS: CriticalSection> SharedRingBufferWithCS<S, N, CS> {
    /// The ring state is well formed for this variant's parameters.
    pub open spec fn wf(&self) -> bool {
        ring_wf(self@, S as int, N as int)
    }

    /// The size of the backing region this buffer was bound to.
    pub closed spec fn size_spec(&self) -> u32 {
        self.buffer_size
    }

    /// Binds a fresh, zero-initialized ring over a region of `buffer_size`
    /// bytes, guarded by `cs`. The region must hold the 512-byte header plus
    /// `N` frames of `S` bytes each; a smaller region is a configuration
    /// error.
    pub fn assign(buffer_size: u32, cs: CS) -> (r: Self)
        requires
            1 <= N,
            512 + (S as int) * (N as int) <= buffer_size as int,
        ensures
            r.wf(),
            r@.head == 0,
            r@.tail == 0,
            r@.frames == Seq::new(N as nat, |i: int| zero_frame(S as int)),
            ring_is_empty(r@),
            r.size_spec() == buffer_size,
    {
        let mut frames: Vec<Vec<u8>> = Vec::new();
        let mut i: usize = 0;
        while i < N
            invariant
                i <= N,
                frames@.len() == i,
                forall|k: int| 0 <= k < i ==> (#[trigger] frames@[k])@ == zero_frame(S as int),
            decreases N - i,
        {
            frames.push(zero_vec(S));
            i = i + 1;
        }
        let r = SharedRingBufferWithCS { head: 0, tail: 0, frames, buffer_size, cs };
        proof {
            assert(r@.frames =~= Seq::new(N as nat, |i: int| zero_frame(S as int)));
        }
        r
    }

    /// Writes one message under the capability. A full buffer first discards
    /// its oldest frame, so the write never fails for want of space; it fails
    /// with `CantLock`, changing nothing, when the capability is refused.
    pub fn write(&mut self, message: &[u8]) -> (r: Result<(), SharedRingBufferError>)
        requires
            old(self).wf(),
            message@.len() <= S,
        ensures
            final(self).wf(),
            final(self).size_spec() == old(self).size_spec(),
            ({
                ||| {
                    &&& r matches Ok(u) && u == ()
                    &&& final(self)@ == ring_overwrite(old(self)@, message@)
                }
                ||| {
                    &&& r matches Err(e) && e == SharedRingBufferError::CantLock
                    &&& final(self)@ == old(self)@
                }
            }),
    {
        match self.cs.lock() {
            Err(_) => Err(SharedRingBufferError::CantLock),
            Ok(()) => {
                let next_tail = if self.tail + 1 >= N {
                    0
                } else {
                    self.tail + 1
                };
                if self.head == next_tail {
                    // The buffer is full: drop the oldest unread frame.
                    self.head = if self.head + 1 >= N {
                        0
                    } else {
                        self.head + 1
                    };
                }
                proof {
                    assert(self@.frames[self.tail as int] == self.frames@[self.tail as int]@);
                }
                let frame = store_message(&self.frames[self.tail], message, S);
                self.frames.set(self.tail, frame);
                self.tail = next_tail;
                self.cs.release();
                proof {
                    assert(self@.frames =~= ring_overwrite(old(self)@, message@).frames);
                    assert(self@ =~= ring_overwrite(old(self)@, message@));
                }
                Ok(())
            },
        }
    }

    /// Reads the oldest pending frame into `message` under the capability,
    /// copying `min(message.len(), S)` bytes, then advances the consumer
    /// index and returns the number of bytes copied. Fails with `CantLock`
    /// when the capability is refused and with `NoData` when the buffer is
    /// empty; in either case nothing changes.
    pub fn read(&mut self, message: &mut Vec<u8>) -> (r: Result<usize, SharedRingBufferError>)
        requires
            old(self).wf(),
        ensures
            final(self).wf(),
            final(self).size_spec() == old(self).size_spec(),
            ({
                ||| {
                    &&& r matches Err(e) && e == SharedRingBufferError::CantLock
                    &&& final(self)@ == old(self)@
                    &&& final(message)@ == old(message)@
                }
                ||| {
                    &&& ring_is_empty(old(self)@)
                    &&& r matches Err(e) && e == SharedRingBufferError::NoData
                    &&& final(self)@ == old(self)@
                    &&& final(message)@ == old(message)@
                }
                ||| {
                    &&& !ring_is_empty(old(self)@)
                    &&& r matches Ok(n) && n == copy_len(old(message)@.len() as int, S as int)
                    &&& final(message)@ == read_result(
                        old(message)@,
                        old(self)@.frames[old(self)@.head],
                    )
                    &&& final(self)@ == ring_advance_head(old(self)@)
                }
            }),
    {
        match self.cs.lock() {
            Err(_) => Err(SharedRingBufferError::CantLock),
            Ok(()) => {
                if self.head == self.tail {
                    self.cs.release();
                    return Err(SharedRingBufferError::NoData);
                }
                proof {
                    assert(self@.frames[self.head as int] == self.frames@[self.head as int]@);
                }
                copy_frame_prefix(message, &self.frames[self.head]);
                let copy_size = if message.len() < S {
                    message.len()
                } else {
                    S
                };
                self.head = if self.head + 1 >= N {
                    0
                } else {
                    self.head + 1
                };
                self.cs.release();
                proof {
                    assert(self@ =~= ring_advance_head(old(self)@));
                }
                Ok(copy_size)
            },
        }
    }

    /// The size of the backing region.
    pub fn size(&self) -> (r: u32)
        ensures
            r == self.size_spec(),
    {
        self.buffer_size
    }
}

/// How many bytes a read copies: the destination length, capped at the frame
/// size.
pub open spec fn copy_len(dst_len: int, frame_size: int) -> int {
    if dst_len < frame_size {
        dst_len
    } else {
        frame_size
    }
}

/// The destination contents after a read: the copied prefix of the source
/// frame, followed by the untouched rest of the destination.
pub open spec fn read_result(dst: Seq<u8>, frame: Seq<u8>) -> Seq<u8> {
    let n = copy_len(dst.len() as int, frame.len() as int);
    frame.take(n) + dst.skip(n)
}

/// Builds the new slot content: `message` followed by the old slot bytes
/// beyond the message length, out to `frame_size` bytes.
fn store_message(old_frame: &Vec<u8>, message: &[u8], frame_size: usize) -> (frame: Vec<u8>)
    requires
        old_frame@.len() == frame_size,
        message@.len() <= frame_size,
    ensures
        frame@ == stored_frame(old_frame@, message@),
{
    let mut frame: Vec<u8> = Vec::new();
    let mut i: usize = 0;
    while i < message.len()
        invariant
            i <= message@.len() <= frame_size,
            old_frame@.len() == frame_size,
            frame@ =~= message@.take(i as int),
        decreases message@.len() - i,
    {
        frame.push(message[i]);
        i = i + 1;
    }
    let mut j: usize = message.len();
    while j < frame_size
        invariant
            message@.len() <= j <= frame_size,
            old_frame@.len() == frame_size,
            frame@ =~= message@ + old_frame@.subrange(message@.len() as int, j as int),
        decreases frame_size - j,
    {
        frame.push(old_frame[j]);
        j = j + 1;
    }
    proof {
        assert(frame@ =~= stored_frame(old_frame@, message@));
    }
    frame
}

/// Copies the frame prefix into `message`, overwriting its first
/// `min(message.len(), frame.len())` bytes and leaving the rest alone.
fn copy_frame_prefix(message: &mut Vec<u8>, frame: &Vec<u8>)
    ensures
        final(message)@ == read_result(old(message)@, frame@),
        final(message)@.len() == old(message)@.len(),
{
    let n = if message.len() < frame.len() {
        message.len()
    } else {
        frame.len()
    };
    let mut i: usize = 0;
    while i < n
        invariant
            i <= n,
            n == copy_len(old(message)@.len() as int, frame@.len() as int),
            n <= message@.len() == old(message)@.len(),
            n <= frame@.len(),
            message@ =~= frame@.take(i as int) + old(message)@.skip(i as int),
        decreases n - i,
    {
        message.set(i, frame[i]);
        i = i + 1;
        proof {
            assert(message@ =~= frame@.take(i as int) + old(message)@.skip(i as int));
        }
    }
    proof {
        assert(message@ =~= read_result(old(message)@, frame@));
    }
}

} // verus!
