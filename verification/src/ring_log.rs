//! A ring of bytes: log messages wait in it until they are flushed.

use vstd::prelude::*;
use vstd::arithmetic::div_mod::{lemma_mod_self_0, lemma_small_mod};

verus! {

/// What a [`RingBuffer`] stands for in contracts.
pub struct RingBufferView {
    /// The bytes of the ring, as many as the ring is long.
    pub buffer: Seq<u8>,
    /// The place of the byte that is read next.
    pub read_index: int,
    /// The place at which the next byte is written.
    pub write_index: int,
}

impl RingBufferView {
    /// The ring after `data` is written: the byte stands at the place of writing,
    /// and that place moves on by one, to the start again after the end.
    pub open spec fn write(self, data: u8) -> RingBufferView {
        RingBufferView {
            buffer: self.buffer.update(self.write_index, data),
            read_index: self.read_index,
            write_index: (self.write_index + 1) % (self.buffer.len() as int),
        }
    }

    /// The ring after a byte is read: the place of reading moves on by one, to the
    /// start again after the end.
    pub open spec fn read(self) -> RingBufferView {
        RingBufferView {
            buffer: self.buffer,
            read_index: (self.read_index + 1) % (self.buffer.len() as int),
            write_index: self.write_index,
        }
    }

    /// The ring after `bytes` are written one by one.
    pub open spec fn write_all(self, bytes: Seq<u8>) -> RingBufferView
        decreases bytes.len(),
    {
        if bytes.len() == 0 {
            self
        } else {
            self.write_all(bytes.drop_last()).write(bytes.last())
        }
    }

    /// Whether this is a ring of `n` bytes whose places lie within it.
    pub open spec fn in_ring(self, n: int) -> bool {
        &&& self.buffer.len() == n
        &&& n > 0 ==> 0 <= self.read_index < n && 0 <= self.write_index < n
    }

    /// How many bytes wait to be read: the way from the place of reading round to
    /// the place of writing.
    pub open spec fn waiting(self) -> int {
        if self.write_index >= self.read_index {
            self.write_index - self.read_index
        } else {
            self.write_index - self.read_index + self.buffer.len()
        }
    }

    /// The bytes that wait to be read, the one read next first.
    pub open spec fn pending(self) -> Seq<u8> {
        Seq::new(
            self.waiting() as nat,
            |i: int|
                if self.read_index + i < self.buffer.len() {
                    self.buffer[self.read_index + i]
                } else {
                    self.buffer[self.read_index + i - self.buffer.len()]
                },
        )
    }
}

/// A ring of `N` bytes with a place of reading and a place of writing. Writing does
/// not look at what is unread: a ring written round once begins anew.
pub struct RingBuffer<const N: usize> {
    buffer: [u8; N],
    read_index: usize,
    write_index: usize,
}

impl<const N: usize> View for RingBuffer<N> {
    type V = RingBufferView;

    closed spec fn view(&self) -> RingBufferView {
        RingBufferView {
            buffer: self.buffer@,
            read_index: self.read_index as int,
            write_index: self.write_index as int,
        }
    }
}

impl<const N: usize> RingBuffer<N> {
    /// Both places lie within the ring.
    #[verifier::type_invariant]
    spec fn places_in_ring(&self) -> bool {
        N > 0 ==> self.read_index < N && self.write_index < N
    }

    /// A ring of zeros, read and written from its start.
    pub fn new() -> (out: Self)
        ensures
            out@.in_ring(N as int),
            forall|i: int| 0 <= i < N ==> out@.buffer[i] == 0,
            out@.read_index == 0,
            out@.write_index == 0,
    {
        RingBuffer { buffer: [0;N], read_index: 0, write_index: 0 }
    }

    /// Writes one byte at the place of writing.
    pub fn write(&mut self, data: u8)
        requires
            N > 0,
        ensures
            final(self)@ == old(self)@.write(data),
            old(self)@.in_ring(N as int),
            final(self)@.in_ring(N as int),
    {
        proof {
            use_type_invariant(&*self);
        }
        let mut buffer = self.buffer;
        buffer[self.write_index] = data;
        self.buffer = buffer;
        proof {
            if self.write_index + 1 < N {
                lemma_small_mod((self.write_index + 1) as nat, N as nat);
            } else {
                lemma_mod_self_0(N as int);
            }
        }
        self.write_index = (self.write_index + 1) % N;
    }

    /// Reads the byte at the place of reading.
    pub fn read(&mut self) -> (data: u8)
        requires
            N > 0,
        ensures
            data == old(self)@.buffer[old(self)@.read_index],
            final(self)@ == old(self)@.read(),
            old(self)@.in_ring(N as int),
            final(self)@.in_ring(N as int),
    {
        proof {
            use_type_invariant(&*self);
        }
        let data = self.buffer[self.read_index];
        proof {
            if self.read_index + 1 < N {
                lemma_small_mod((self.read_index + 1) as nat, N as nat);
            } else {
                lemma_mod_self_0(N as int);
            }
        }
        self.read_index = (self.read_index + 1) % N;
        data
    }

    /// Whether no byte waits to be read.
    pub fn is_empty(&self) -> (out: bool)
        ensures
            out == (self@.read_index == self@.write_index),
            self@.in_ring(N as int),
    {
        proof {
            use_type_invariant(self);
        }
        self.read_index == self.write_index
    }

    /// Writes the bytes of a message, one by one.
    pub fn write_all(&mut self, bytes: &[u8])
        requires
            N > 0,
        ensures
            final(self)@ == old(self)@.write_all(bytes@),
    {
        let mut i: usize = 0;
        while i < bytes.len()
            invariant
                N > 0,
                i <= bytes.len(),
                self@ == old(self)@.write_all(bytes@.take(i as int)),
            decreases bytes.len() - i,
        {
            proof {
                assert(bytes@.take(i + 1).drop_last() =~= bytes@.take(i as int));
            }
            self.write(bytes[i]);
            i = i + 1;
        }
        assert(bytes@.take(bytes.len() as int) =~= bytes@);
    }

    /// Reads out the bytes that wait, the oldest first, until none waits.
    pub fn drain(&mut self) -> (out: Vec<u8>)
        requires
            N > 0,
        ensures
            out@ == old(self)@.pending(),
            final(self)@.buffer == old(self)@.buffer,
            final(self)@.write_index == old(self)@.write_index,
            final(self)@.read_index == old(self)@.write_index,
    {
        proof {
            use_type_invariant(&*self);
        }
        let mut out: Vec<u8> = Vec::new();
        while self.read_index != self.write_index
            invariant
                N > 0,
                self@.buffer == old(self)@.buffer,
                self@.buffer.len() == N,
                self@.write_index == old(self)@.write_index,
                0 <= self@.read_index < N,
                0 <= self@.write_index < N,
                out@ + self@.pending() == old(self)@.pending(),
            decreases self@.waiting(),
        {
            let ghost before = self@;
            let ghost read = out@;
            proof {
                if before.read_index + 1 < N {
                    lemma_small_mod((before.read_index + 1) as nat, N as nat);
                } else {
                    lemma_mod_self_0(N as int);
                }
            }
            let data = self.read();
            out.push(data);
            proof {
                use_type_invariant(&*self);
            }
        }
        out
    }
}

} // verus!
