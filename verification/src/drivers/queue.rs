//! A bounded queue of bytes that drops the oldest one when it is full.

use vstd::prelude::*;

verus! {

/// How many bytes can queue up before the oldest is dropped.
pub const BUFFER_CAP: usize = 256;

/// Keystrokes that wait to be read.
#[derive(Debug)]
pub struct RingBuffer {
    pub buf: [u8; 256],
    /// Next slot to write.
    pub head: usize,
    /// Next slot to read.
    pub tail: usize,
    pub len: usize,
}

impl View for RingBuffer {
    type V = Seq<u8>;

    /// The bytes in the queue, oldest first.
    open spec fn view(&self) -> Seq<u8> {
        Seq::new(self.len as nat, |i: int| self.buf@[(self.tail + i) % 256])
    }
}

/// A queue of bytes after one more came in: the oldest one goes when it is full.
pub open spec fn pushed(q: Seq<u8>, byte: u8) -> Seq<u8> {
    if q.len() == 256 {
        q.drop_first().push(byte)
    } else {
        q.push(byte)
    }
}

/// A queue after several bytes came in.
pub open spec fn pushed_all(q: Seq<u8>, bytes: Seq<u8>) -> Seq<u8>
    decreases bytes.len(),
{
    if bytes.len() == 0 {
        q
    } else {
        pushed(pushed_all(q, bytes.drop_last()), bytes.last())
    }
}

impl RingBuffer {
    pub open spec fn wf(self) -> bool {
        &&& self.len <= 256
        &&& self.tail < 256
        &&& self.head == (self.tail + self.len) % 256
    }

    pub fn new() -> (r: Self)
        ensures
            r.wf(),
            r@ == Seq::<u8>::empty(),
    {
        RingBuffer { buf: [0; 256], head: 0, tail: 0, len: 0 }
    }

    pub fn push(&mut self, byte: u8)
        requires
            old(self).wf(),
        ensures
            final(self).wf(),
            final(self)@ == pushed(old(self)@, byte),
    {
        let ghost q = self@;
        if self.len == BUFFER_CAP {
            self.tail = (self.tail + 1) % BUFFER_CAP;
            self.len = self.len - 1;
        }
        let at: usize = self.head;
        self.buf[at] = byte;
        self.head = (at + 1) % BUFFER_CAP;
        self.len = self.len + 1;
        assert(self@ =~= pushed(q, byte));
    }

    pub fn pop(&mut self) -> (r: Option<u8>)
        requires
            old(self).wf(),
        ensures
            final(self).wf(),
            match r {
                None => old(self)@.len() == 0 && final(self)@ == old(self)@,
                Some(b) => old(self)@.len() > 0 && b == old(self)@[0] && final(self)@ == old(
                    self,
                )@.drop_first(),
            },
    {
        if self.len == 0 {
            return None;
        }
        let b: u8 = self.buf[self.tail];
        self.tail = (self.tail + 1) % BUFFER_CAP;
        self.len = self.len - 1;
        assert(self@ =~= old(self)@.drop_first());
        Some(b)
    }

    /// Queue several bytes as one unit.
    pub fn push_all(&mut self, bytes: &[u8])
        requires
            old(self).wf(),
        ensures
            final(self).wf(),
            final(self)@ == pushed_all(old(self)@, bytes@),
    {
        let n: usize = bytes.len();
        let mut i: usize = 0;
        assert(bytes@.take(0) =~= Seq::empty());
        while i < n
            invariant
                i <= n,
                n == bytes@.len(),
                self.wf(),
                self@ == pushed_all(old(self)@, bytes@.take(i as int)),
            decreases n - i,
        {
            self.push(bytes[i]);
            proof {
                assert(bytes@.take(i + 1).drop_last() =~= bytes@.take(i as int));
            }
            i += 1;
        }
        assert(bytes@.take(n as int) =~= bytes@);
    }
}

/// The `k`-th byte from the end.
pub open spec fn from_end(s: Seq<u8>, k: int) -> u8 {
    s[s.len() - k]
}

/// What was typed last is never lost: the newest bytes in the queue are the ones
/// that came in last, in order.
pub proof fn law_newest_bytes_stay(q: Seq<u8>, bytes: Seq<u8>, k: int)
    requires
        q.len() <= 256,
        1 <= k <= 256,
        k <= bytes.len(),
    ensures
        k <= pushed_all(q, bytes).len() <= 256,
        from_end(pushed_all(q, bytes), k) == from_end(bytes, k),
    decreases bytes.len(),
{
    let b = bytes.drop_last();
    lemma_bounded(q, b);
    if k > 1 {
        law_newest_bytes_stay(q, b, k - 1);
    }
}

proof fn lemma_bounded(q: Seq<u8>, bytes: Seq<u8>)
    requires
        q.len() <= 256,
    ensures
        pushed_all(q, bytes).len() <= 256,
    decreases bytes.len(),
{
    if bytes.len() > 0 {
        lemma_bounded(q, bytes.drop_last());
    }
}

} // verus!
