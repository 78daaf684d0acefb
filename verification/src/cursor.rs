//! The output cursor: a fixed-capacity byte buffer with an append
//! position. Many small writes are batched here before a single flush to
//! the real sink.
//!
//! Appending comes in two variants, kept deliberately distinct: `write`
//! carries its capacity obligation in its precondition and tests nothing
//! at run time, while `write_checked` tests the capacity itself and
//! refuses a write that would run past the end.

use vstd::prelude::*;
use vstd::slice::slice_index_get;
use vstd::slice::SliceAdditionalExecFns;

verus! {

/// Byte capacity of the cursor's buffer.
pub const BUF_SIZE: usize = 8192;

pub struct Cursor {
    buf: Vec<u8>,
    pos: usize,
}

/// The refusal the bounds-checked append answers with when the bytes
/// would not fit.
#[derive(Debug, PartialEq, Eq, Structural)]
pub struct CursorOverflow;

impl Cursor {
    /// The bytes written so far: the prefix of the buffer up to the
    /// append position.
    pub closed spec fn contents(self) -> Seq<u8> {
        self.buf@.subrange(0, self.pos as int)
    }

    pub closed spec fn wf(self) -> bool {
        &&& self.buf@.len() == BUF_SIZE
        &&& self.pos <= BUF_SIZE
    }

    /// A fresh cursor with nothing written.
    pub fn new() -> (r: Self)
        ensures
            r.wf(),
            r.contents() == Seq::<u8>::empty(),
    {
        let c = Cursor { buf: vec![0u8; 8192], pos: 0 };
        proof {
            assert(c.contents() =~= Seq::<u8>::empty());
        }
        c
    }

    /// Append without a run-time bounds test: the caller owes the proof
    /// that the bytes fit, which the engine's capacity estimate supplies.
    pub fn write(&mut self, data: &[u8])
        requires
            old(self).wf(),
            old(self).contents().len() + data@.len() <= BUF_SIZE,
        ensures
            final(self).wf(),
            final(self).contents() == old(self).contents() + data@,
    {
        let ghost contents0 = old(self).contents();
        let n = data.len();
        let mut k: usize = 0;
        while k < n
            invariant
                k <= n,
                n == data@.len(),
                self.buf@.len() == BUF_SIZE,
                self.pos as int == contents0.len() + k,
                contents0.len() + n <= BUF_SIZE,
                self.contents() == contents0 + data@.subrange(0, k as int),
            decreases n - k,
        {
            let b = *slice_index_get(data, k);
            let ghost pre = *self;
            self.buf.set(self.pos, b);
            self.pos = self.pos + 1;
            proof {
                assert(self.contents() =~= pre.contents().push(b));
                assert(data@.subrange(0, k + 1) =~= data@.subrange(0, k as int).push(b));
                assert(self.contents() =~= contents0 + data@.subrange(0, k + 1));
            }
            k = k + 1;
        }
        proof {
            assert(data@.subrange(0, n as int) =~= data@);
        }
    }

    /// Append with a run-time bounds test: a write that would overflow is
    /// refused and leaves the cursor unchanged.
    pub fn write_checked(&mut self, data: &[u8]) -> (r: Result<(), CursorOverflow>)
        requires
            old(self).wf(),
        ensures
            final(self).wf(),
            old(self).contents().len() + data@.len() <= BUF_SIZE ==> r is Ok
                && final(self).contents() == old(self).contents() + data@,
            old(self).contents().len() + data@.len() > BUF_SIZE ==> r is Err
                && final(self).contents() == old(self).contents(),
    {
        proof {
            assert(old(self).contents().len() == old(self).pos);
        }
        if data.len() <= BUF_SIZE - self.pos {
            self.write(data);
            Ok(())
        } else {
            Err(CursorOverflow)
        }
    }

    /// A copy of the written prefix.
    pub fn get_ref(&self) -> (r: Vec<u8>)
        requires
            self.wf(),
        ensures
            r@ == self.contents(),
    {
        let mut out: Vec<u8> = Vec::new();
        let mut k: usize = 0;
        while k < self.pos
            invariant
                k <= self.pos,
                self.pos <= BUF_SIZE,
                self.buf@.len() == BUF_SIZE,
                out@ == self.contents().subrange(0, k as int),
            decreases self.pos - k,
        {
            let b = self.buf[k];
            out.push(b);
            proof {
                assert(self.contents()[k as int] == self.buf@[k as int]);
                assert(self.contents().subrange(0, k + 1) =~= self.contents().subrange(
                    0,
                    k as int,
                ).push(b));
            }
            k = k + 1;
        }
        proof {
            assert(self.contents().subrange(0, self.pos as int) =~= self.contents());
        }
        out
    }

    /// Move the append position back, dropping the bytes beyond it.
    pub fn set_pos(&mut self, pos: usize)
        requires
            old(self).wf(),
            pos <= old(self).contents().len(),
        ensures
            final(self).wf(),
            final(self).contents() == old(self).contents().subrange(0, pos as int),
    {
        self.pos = pos;
        proof {
            assert(self.contents() =~= old(self).contents().subrange(0, pos as int));
        }
    }

    /// How many bytes are pending.
    pub fn position(&self) -> (r: usize)
        requires
            self.wf(),
        ensures
            r == self.contents().len(),
            r <= BUF_SIZE,
    {
        self.pos
    }
}

} // verus!
