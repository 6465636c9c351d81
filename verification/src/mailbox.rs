//! Typed bounded single-producer/single-consumer mailbox.
//!
//! [`MailboxRaw`] is the ring-buffer control block: a fixed backing
//! buffer with a read cursor and an occupancy count, moving whole
//! elements and reporting success or a transfer count on every call.
//! [`Mailbox`] is the typed channel layered on it, and [`channel_spsc`]
//! splits a mailbox into one receive and one transmit handle so that at
//! most one producer and one consumer ever address it. The in-flight
//! messages, oldest first, are the view every contract speaks of; writes
//! append to it and reads consume its front, which is the FIFO delivery
//! order.
//!
//! Message types are `Copy`: a mailbox transfers elements by plain
//! element-sized copies, never by handing out references into the
//! buffer.
use vstd::prelude::*;

verus! {

use core::marker::PhantomData;

/// Position `k` steps past `pos` on a ring of `n` slots.
spec fn wrap(pos: int, k: int, n: int) -> int
    recommends
        0 <= pos < n,
        0 <= k <= n,
{
    if pos + k < n {
        pos + k
    } else {
        pos + k - n
    }
}

/// Advances `pos` by `delta` slots on a ring of `n` slots without ever
/// leaving `[0, n)`.
fn wrap_add(pos: usize, delta: usize, n: usize) -> (r: usize)
    requires
        pos < n,
        delta <= n,
    ensures
        r as int == wrap(pos as int, delta as int, n as int),
        r < n,
{
    let room = n - pos;
    if delta < room {
        pos + delta
    } else {
        delta - room
    }
}

/// The ring-buffer control block: a fixed-capacity buffer, the position
/// of the oldest in-flight element, and how many elements are in flight.
/// Capacity and element type are fixed for the mailbox's lifetime. Its
/// view is the sequence of in-flight elements, oldest first.
pub struct MailboxRaw<T> {
    msg_buf: Vec<T>,
    read_pos: usize,
    count: usize,
}

impl<T> View for MailboxRaw<T> {
    type V = Seq<T>;

    closed spec fn view(&self) -> Seq<T> {
        Seq::new(
            self.count as nat,
            |k: int| self.msg_buf@[wrap(self.read_pos as int, k, self.msg_buf@.len() as int)],
        )
    }
}

impl<T> MailboxRaw<T> {
    /// Number of elements the buffer can hold in flight at once; fixed
    /// at initialization.
    pub closed spec fn capacity(self) -> nat {
        self.msg_buf@.len()
    }

    /// The occupancy count never exceeds the capacity and the read
    /// cursor stays on the ring, so write-when-full and read-when-empty
    /// are the only failure conditions.
    pub closed spec fn wf(self) -> bool {
        &&& self.msg_buf@.len() <= u32::MAX as nat
        &&& self.count <= self.msg_buf@.len()
        &&& self.msg_buf@.len() == 0 ==> self.read_pos == 0
        &&& self.msg_buf@.len() > 0 ==> self.read_pos < self.msg_buf@.len()
    }
}

impl<T: Copy> MailboxRaw<T> {
    /// Binds the caller-owned backing buffer to a fresh control block:
    /// the buffer's length is the capacity and the mailbox starts empty.
    /// The length bound is the transfer-count representation limit.
    pub fn init(msg_buf: Vec<T>) -> (mb: MailboxRaw<T>)
        requires
            msg_buf@.len() <= u32::MAX as nat,
        ensures
            mb.wf(),
            mb@ == Seq::<T>::empty(),
            mb.capacity() == msg_buf@.len(),
    {
        let mb = MailboxRaw { msg_buf, read_pos: 0, count: 0 };
        proof {
            assert(mb@ =~= Seq::<T>::empty());
        }
        mb
    }

    /// Enqueues one element: succeeds, appending the element to the
    /// in-flight sequence, exactly when the mailbox is not full; a full
    /// mailbox is left unchanged and reported, never blocked on.
    pub fn write_one(&mut self, msg: T) -> (success: bool)
        requires
            old(self).wf(),
        ensures
            final(self).wf(),
            final(self).capacity() == old(self).capacity(),
            success <==> old(self)@.len() < old(self).capacity(),
            success ==> final(self)@ == old(self)@.push(msg),
            !success ==> final(self)@ == old(self)@,
    {
        let n = self.msg_buf.len();
        if self.count < n {
            let idx = wrap_add(self.read_pos, self.count, n);
            self.msg_buf[idx] = msg;
            self.count = self.count + 1;
            proof {
                assert(self@ =~= old(self)@.push(msg));
            }
            true
        } else {
            false
        }
    }

    /// Dequeues one element: succeeds, returning the oldest in-flight
    /// element and removing it from the front of the sequence, exactly
    /// when the mailbox is not empty; an empty mailbox is left unchanged
    /// and reported, never blocked on.
    pub fn read_one(&mut self) -> (r: Option<T>)
        requires
            old(self).wf(),
        ensures
            final(self).wf(),
            final(self).capacity() == old(self).capacity(),
            old(self)@.len() == 0 ==> r is None && final(self)@ == old(self)@,
            old(self)@.len() > 0 ==> r == Some(old(self)@[0])
                && final(self)@ == old(self)@.drop_first(),
    {
        let n = self.msg_buf.len();
        if self.count > 0 {
            let v = self.msg_buf[self.read_pos];
            self.read_pos = wrap_add(self.read_pos, 1, n);
            self.count = self.count - 1;
            proof {
                assert(self@ =~= old(self)@.drop_first());
            }
            Some(v)
        } else {
            None
        }
    }

    /// Enqueues as many leading elements of `msgs` as fit: the count
    /// transferred is exactly the smaller of the element count offered
    /// and the space left, that prefix is appended whole — elements are
    /// only ever moved whole, never in part — and a short transfer is an
    /// expected outcome for the caller to handle, not an error.
    pub fn write_many(&mut self, msgs: &[T]) -> (n: u32)
        requires
            old(self).wf(),
        ensures
            final(self).wf(),
            final(self).capacity() == old(self).capacity(),
            n as int == if msgs@.len() as int <= old(self).capacity() - old(self)@.len() {
                msgs@.len() as int
            } else {
                old(self).capacity() - old(self)@.len()
            },
            final(self)@ == old(self)@ + msgs@.take(n as int),
    {
        let ghost orig = self@;
        let mut i: usize = 0;
        while i < msgs.len() && self.count < self.msg_buf.len()
            invariant
                self.wf(),
                self.capacity() == old(self).capacity(),
                i <= msgs@.len(),
                self@ =~= orig + msgs@.take(i as int),
                orig == old(self)@,
            decreases msgs@.len() - i,
        {
            let success = self.write_one(msgs[i]);
            assert(success);
            i = i + 1;
            proof {
                assert(self@ =~= orig + msgs@.take(i as int));
            }
        }
        proof {
            assert(self@ =~= orig + msgs@.take(i as int));
            assert(self@.len() == orig.len() + i);
            assert(i as int <= self.capacity() - orig.len());
            if i < msgs.len() {
                assert(self@.len() == self.capacity());
            }
        }
        i as u32
    }

    /// Dequeues as many elements as are both in flight and wanted,
    /// copying them, oldest first, over the leading slots of `out_buf`
    /// (whose length is the count wanted; its remaining slots keep their
    /// old values): the count transferred is exactly the smaller of the
    /// two, and a short transfer is an expected outcome, not an error.
    pub fn read_many(&mut self, out_buf: &mut Vec<T>) -> (n: u32)
        requires
            old(self).wf(),
        ensures
            final(self).wf(),
            final(self).capacity() == old(self).capacity(),
            n as int == if old(out_buf)@.len() as int <= old(self)@.len() {
                old(out_buf)@.len() as int
            } else {
                old(self)@.len() as int
            },
            final(out_buf)@ == old(self)@.take(n as int) + old(out_buf)@.skip(n as int),
            final(self)@ == old(self)@.skip(n as int),
    {
        let ghost orig = self@;
        let ghost orig_out = old(out_buf)@;
        let mut i: usize = 0;
        while i < out_buf.len() && self.count > 0
            invariant
                self.wf(),
                self.capacity() == old(self).capacity(),
                i <= orig_out.len(),
                i <= orig.len(),
                out_buf@.len() == orig_out.len(),
                self@ =~= orig.skip(i as int),
                forall|j: int| 0 <= j < i ==> out_buf@[j] == orig[j],
                forall|j: int| i <= j < orig_out.len() ==> out_buf@[j] == orig_out[j],
            decreases out_buf@.len() - i,
        {
            proof {
                assert(self@.len() > 0);
                assert(orig[i as int] == orig.skip(i as int)[0]);
            }
            match self.read_one() {
                Some(v) => {
                    out_buf[i] = v;
                    i = i + 1;
                    proof {
                        assert(self@ =~= orig.skip(i as int));
                    }
                },
                None => unreached(),
            }
        }
        proof {
            assert(out_buf@ =~= orig.take(i as int) + orig_out.skip(i as int));
            assert(self@ =~= orig.skip(i as int));
            assert(self@.len() == orig.len() - i);
            assert(i <= orig.len());
            if i < out_buf.len() {
                assert(self@.len() == 0);
                assert(i == orig.len());
            }
        }
        i as u32
    }
}

/// A strongly typed, fixed-capacity message channel over a ring-buffer
/// control block. Its view and capacity are the control block's; `split`
/// records whether [`channel_spsc`] has already handed out the one
/// receive/transmit handle pair this mailbox will ever have.
pub struct Mailbox<T> {
    mb: MailboxRaw<T>,
    split: bool,
}

impl<T> View for Mailbox<T> {
    type V = Seq<T>;

    closed spec fn view(&self) -> Seq<T> {
        self.mb@
    }
}

impl<T> Mailbox<T> {
    /// Number of messages that can be in flight at once.
    pub closed spec fn capacity(self) -> nat {
        self.mb.capacity()
    }

    /// The underlying control block is well formed.
    pub closed spec fn wf(self) -> bool {
        self.mb.wf()
    }

    /// Whether [`channel_spsc`] has already split this mailbox.
    pub closed spec fn is_split(self) -> bool {
        self.split
    }

    /// The underlying ring-buffer control block.
    pub closed spec fn raw(self) -> MailboxRaw<T> {
        self.mb
    }

    /// Borrows the underlying ring-buffer control block.
    pub fn get_raw_mailbox(&self) -> (r: &MailboxRaw<T>)
        ensures
            *r == self.raw(),
            r@ == self@,
    {
        &self.mb
    }
}

impl<T: Copy> Mailbox<T> {
    /// Binds a caller-owned, caller-sized backing buffer to a fresh
    /// mailbox: the buffer's length is the capacity, and the mailbox
    /// starts empty and unsplit. The length bound is the transfer-count
    /// representation limit.
    pub fn new(buf: Vec<T>) -> (mb: Mailbox<T>)
        requires
            buf@.len() <= u32::MAX as nat,
        ensures
            mb.wf(),
            mb@ == Seq::<T>::empty(),
            mb.capacity() == buf@.len(),
            !mb.is_split(),
    {
        Mailbox { mb: MailboxRaw::init(buf), split: false }
    }

    /// Attempts a single non-blocking enqueue: appends the message and
    /// reports success exactly when the mailbox is not full; a full
    /// mailbox is reported as failure with nothing changed.
    pub fn write(&mut self, msg: T) -> (success: bool)
        requires
            old(self).wf(),
        ensures
            final(self).wf(),
            final(self).capacity() == old(self).capacity(),
            final(self).is_split() == old(self).is_split(),
            success <==> old(self)@.len() < old(self).capacity(),
            success ==> final(self)@ == old(self)@.push(msg),
            !success ==> final(self)@ == old(self)@,
    {
        self.mb.write_one(msg)
    }

    /// Attempts a single non-blocking dequeue: returns the oldest
    /// in-flight message exactly when the mailbox is not empty; an empty
    /// mailbox yields `None` with nothing changed.
    pub fn read(&mut self) -> (r: Option<T>)
        requires
            old(self).wf(),
        ensures
            final(self).wf(),
            final(self).capacity() == old(self).capacity(),
            final(self).is_split() == old(self).is_split(),
            old(self)@.len() == 0 ==> r is None && final(self)@ == old(self)@,
            old(self)@.len() > 0 ==> r == Some(old(self)@[0])
                && final(self)@ == old(self)@.drop_first(),
    {
        self.mb.read_one()
    }

    /// Enqueues as many leading elements of `msgs` as fit and reports
    /// the count, which is exactly the smaller of the count offered and
    /// the space left; transferring fewer than offered is expected, not
    /// an error.
    pub fn write_multiple(&mut self, msgs: &[T]) -> (n: u32)
        requires
            old(self).wf(),
        ensures
            final(self).wf(),
            final(self).capacity() == old(self).capacity(),
            final(self).is_split() == old(self).is_split(),
            n as int == if msgs@.len() as int <= old(self).capacity() - old(self)@.len() {
                msgs@.len() as int
            } else {
                old(self).capacity() - old(self)@.len()
            },
            final(self)@ == old(self)@ + msgs@.take(n as int),
    {
        self.mb.write_many(msgs)
    }

    /// Dequeues up to `out_buf.len()` messages, oldest first, into the
    /// leading slots of `out_buf` and reports the count, which is
    /// exactly the smaller of the count wanted and the count in flight.
    pub fn read_multiple(&mut self, out_buf: &mut Vec<T>) -> (n: u32)
        requires
            old(self).wf(),
        ensures
            final(self).wf(),
            final(self).capacity() == old(self).capacity(),
            final(self).is_split() == old(self).is_split(),
            n as int == if old(out_buf)@.len() as int <= old(self)@.len() {
                old(out_buf)@.len() as int
            } else {
                old(self)@.len() as int
            },
            final(out_buf)@ == old(self)@.take(n as int) + old(out_buf)@.skip(n as int),
            final(self)@ == old(self)@.skip(n as int),
    {
        self.mb.read_many(out_buf)
    }
}

/// Failure of a non-blocking send: the channel was full. Hands the
/// rejected message back to the caller.
pub struct SendError<T>(pub T);

/// Failure of a non-blocking receive: the channel was empty.
pub struct RecvError;

/// The consumer's half of a split mailbox: the one handle entitled to
/// dequeue. Only [`channel_spsc`] constructs one, and only one per
/// mailbox, so a channel never has two consumers.
pub struct RxChannelSpsc<T> {
    _role: PhantomData<T>,
}

/// The producer's half of a split mailbox: the one handle entitled to
/// enqueue. Only [`channel_spsc`] constructs one, and only one per
/// mailbox, so a channel never has two producers.
pub struct TxChannelSpsc<T> {
    _role: PhantomData<T>,
}

impl<T: Copy> RxChannelSpsc<T> {
    /// Attempts a single non-blocking dequeue through the consumer
    /// handle: returns the oldest in-flight message exactly when the
    /// channel is not empty, and reports an empty channel as
    /// [`RecvError`] with nothing changed.
    pub fn try_recv(&self, mailbox: &mut Mailbox<T>) -> (r: Result<T, RecvError>)
        requires
            old(mailbox).wf(),
        ensures
            final(mailbox).wf(),
            final(mailbox).capacity() == old(mailbox).capacity(),
            final(mailbox).is_split() == old(mailbox).is_split(),
            old(mailbox)@.len() == 0 ==> r is Err && final(mailbox)@ == old(mailbox)@,
            old(mailbox)@.len() > 0 ==> (r matches Ok(v) && v == old(mailbox)@[0])
                && final(mailbox)@ == old(mailbox)@.drop_first(),
    {
        match mailbox.read() {
            Some(v) => Ok(v),
            None => Err(RecvError),
        }
    }

    /// Batch dequeue through the consumer handle: up to `out_buf.len()`
    /// messages, oldest first, into the leading slots of `out_buf`,
    /// reporting the count actually transferred — exactly the smaller of
    /// the count wanted and the count in flight.
    pub fn read_multiple(&self, mailbox: &mut Mailbox<T>, out_buf: &mut Vec<T>) -> (n: u32)
        requires
            old(mailbox).wf(),
        ensures
            final(mailbox).wf(),
            final(mailbox).capacity() == old(mailbox).capacity(),
            final(mailbox).is_split() == old(mailbox).is_split(),
            n as int == if old(out_buf)@.len() as int <= old(mailbox)@.len() {
                old(out_buf)@.len() as int
            } else {
                old(mailbox)@.len() as int
            },
            final(out_buf)@ == old(mailbox)@.take(n as int) + old(out_buf)@.skip(n as int),
            final(mailbox)@ == old(mailbox)@.skip(n as int),
    {
        mailbox.read_multiple(out_buf)
    }
}

impl<T: Copy> TxChannelSpsc<T> {
    /// Attempts a single non-blocking enqueue through the producer
    /// handle: appends the message exactly when the channel is not full,
    /// and reports a full channel as [`SendError`], handing the message
    /// back with nothing changed.
    pub fn try_send(&self, mailbox: &mut Mailbox<T>, msg: T) -> (r: Result<(), SendError<T>>)
        requires
            old(mailbox).wf(),
        ensures
            final(mailbox).wf(),
            final(mailbox).capacity() == old(mailbox).capacity(),
            final(mailbox).is_split() == old(mailbox).is_split(),
            old(mailbox)@.len() < old(mailbox).capacity() ==> r is Ok && final(mailbox)@ == old(
                mailbox,
            )@.push(msg),
            old(mailbox)@.len() == old(mailbox).capacity() ==> (r matches Err(e) && e.0 == msg)
                && final(mailbox)@ == old(mailbox)@,
    {
        if mailbox.write(msg) {
            Ok(())
        } else {
            Err(SendError(msg))
        }
    }

    /// Batch enqueue through the producer handle: as many leading
    /// elements of `msgs` as fit, reporting the count actually
    /// transferred — exactly the smaller of the count offered and the
    /// space left.
    pub fn write_multiple(&self, mailbox: &mut Mailbox<T>, msgs: &[T]) -> (n: u32)
        requires
            old(mailbox).wf(),
        ensures
            final(mailbox).wf(),
            final(mailbox).capacity() == old(mailbox).capacity(),
            final(mailbox).is_split() == old(mailbox).is_split(),
            n as int == if msgs@.len() as int <= old(mailbox).capacity() - old(mailbox)@.len() {
                msgs@.len() as int
            } else {
                old(mailbox).capacity() - old(mailbox)@.len()
            },
            final(mailbox)@ == old(mailbox)@ + msgs@.take(n as int),
    {
        mailbox.write_multiple(msgs)
    }
}

/// Splits a mailbox into its one receive handle and its one transmit
/// handle, enforcing single-producer/single-consumer use: this is the
/// only construction path for either handle, and a mailbox can be split
/// only once — the precondition refuses a second split while the first
/// pair exists.
pub fn channel_spsc<T: Copy>(mailbox: &mut Mailbox<T>) -> (handles: (
    RxChannelSpsc<T>,
    TxChannelSpsc<T>,
))
    requires
        old(mailbox).wf(),
        !old(mailbox).is_split(),
    ensures
        final(mailbox).wf(),
        final(mailbox).is_split(),
        final(mailbox).capacity() == old(mailbox).capacity(),
        final(mailbox)@ == old(mailbox)@,
{
    mailbox.split = true;
    (RxChannelSpsc { _role: PhantomData }, TxChannelSpsc { _role: PhantomData })
}

/// The outcome of `k` consecutive single-message reads on a channel
/// whose in-flight sequence is `s`, each read taking the front as
/// [`Mailbox::read`] promises: the pair of the messages returned, in
/// return order, and the sequence left in flight.
pub open spec fn reads_n<T>(s: Seq<T>, k: nat) -> (Seq<T>, Seq<T>)
    recommends
        k <= s.len(),
    decreases k,
{
    if k == 0 {
        (Seq::empty(), s)
    } else {
        let rest = reads_n(s.drop_first(), (k - 1) as nat);
        (seq![s[0]].add(rest.0), rest.1)
    }
}

/// FIFO delivery: whatever interleaving of single and batch operations
/// put a channel's in-flight sequence together, `k` consecutive reads
/// return exactly its first `k` messages, in the order they were
/// written, and leave exactly the remainder in flight. (Batch reads and
/// writes act on the same sequence by prefix, as their contracts state,
/// so the order is kept across any mix of the two.)
pub proof fn lemma_fifo_order<T>(s: Seq<T>, k: nat)
    requires
        k <= s.len(),
    ensures
        reads_n(s, k).0 == s.take(k as int),
        reads_n(s, k).1 == s.skip(k as int),
    decreases k,
{
    if k == 0 {
        assert(reads_n(s, k).0 =~= s.take(0));
        assert(reads_n(s, k).1 =~= s.skip(0));
    } else {
        lemma_fifo_order(s.drop_first(), (k - 1) as nat);
        assert(reads_n(s, k).0 =~= s.take(k as int));
        assert(reads_n(s, k).1 =~= s.skip(k as int));
    }
}

/// The in-flight sequence after `k` attempted single-message writes of
/// the successive elements of `msgs` into a channel of capacity `cap`
/// holding `s`, each attempt succeeding exactly when the channel is not
/// full, as [`Mailbox::write`] promises.
pub open spec fn writes_n<T>(s: Seq<T>, msgs: Seq<T>, cap: nat, k: nat) -> Seq<T>
    recommends
        k <= msgs.len(),
    decreases k,
{
    if k == 0 {
        s
    } else {
        let prev = writes_n(s, msgs, cap, (k - 1) as nat);
        if prev.len() < cap {
            prev.push(msgs[k - 1])
        } else {
            prev
        }
    }
}

/// Capacity law: attempting `k` writes into an initially empty channel
/// of capacity `cap` delivers exactly the first `min(k, cap)` messages —
/// the first `cap` attempts all succeed, every later attempt fails and
/// changes nothing. With one message read after filling, the in-flight
/// count drops below `cap` again, so exactly one more write succeeds.
pub proof fn lemma_channel_exhaustion<T>(msgs: Seq<T>, cap: nat, k: nat)
    requires
        k <= msgs.len(),
    ensures
        k <= cap ==> writes_n(Seq::empty(), msgs, cap, k) == msgs.take(k as int),
        k > cap ==> writes_n(Seq::empty(), msgs, cap, k) == msgs.take(cap as int),
    decreases k,
{
    if k > 0 {
        lemma_channel_exhaustion(msgs, cap, (k - 1) as nat);
        if k <= cap {
            assert(writes_n(Seq::<T>::empty(), msgs, cap, k) =~= msgs.take(k as int));
        } else {
            assert(writes_n(Seq::<T>::empty(), msgs, cap, k) =~= msgs.take(cap as int));
        }
    } else {
        assert(writes_n(Seq::<T>::empty(), msgs, cap, 0) =~= msgs.take(0));
    }
}

} // verus!
