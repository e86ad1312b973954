//! The writer side of a connection: each reply's bytes go out in as many
//! writes as the socket takes.
use vstd::prelude::*;
use vstd::slice::slice_subrange;

verus! {

/// Where a reply stands after one write.
#[derive(PartialEq, Eq, Structural, Clone, Copy, Debug)]
pub enum WriteState {
    /// Every byte has been written.
    Done,
    /// Some bytes are left; write `unsent()` next.
    More,
    /// The socket took nothing: the write side is gone.
    Failed,
}

/// A reply's bytes and how many of them the socket has taken.
pub struct Outgoing {
    bytes: Vec<u8>,
    sent: usize,
}

impl Outgoing {
    pub closed spec fn bytes(&self) -> Seq<u8> {
        self.bytes@
    }

    pub closed spec fn sent(&self) -> nat {
        self.sent as nat
    }

    pub closed spec fn wf(&self) -> bool {
        self.sent <= self.bytes@.len()
    }

    pub fn new(bytes: Vec<u8>) -> (r: Outgoing)
        ensures
            r.wf(),
            r.bytes() == bytes@,
            r.sent() == 0,
    {
        Outgoing { bytes, sent: 0 }
    }

    /// The bytes that the socket has not taken yet.
    pub fn unsent(&self) -> (r: &[u8])
        requires
            self.wf(),
        ensures
            r@ == self.bytes().subrange(self.sent() as int, self.bytes().len() as int),
    {
        slice_subrange(self.bytes.as_slice(), self.sent, self.bytes.len())
    }

    pub fn is_done(&self) -> (r: bool)
        requires
            self.wf(),
        ensures
            r == (self.sent() == self.bytes().len()),
    {
        self.sent == self.bytes.len()
    }

    /// A write of `unsent()` took its first `n` bytes.
    pub fn wrote(&mut self, n: usize) -> (r: WriteState)
        requires
            old(self).wf(),
            old(self).sent() + n <= old(self).bytes().len(),
        ensures
            final(self).wf(),
            final(self).bytes() == old(self).bytes(),
            n == 0 ==> r == WriteState::Failed && final(self).sent() == old(self).sent(),
            n > 0 ==> final(self).sent() == old(self).sent() + n,
            n > 0 ==> (r == WriteState::Done <==> final(self).sent() == final(self).bytes().len()),
            n > 0 ==> (r == WriteState::More <==> final(self).sent() < final(self).bytes().len()),
    {
        if n == 0 {
            return WriteState::Failed;
        }
        let total = self.bytes.len();
        self.sent = self.sent + n;
        if self.sent == total {
            WriteState::Done
        } else {
            WriteState::More
        }
    }
}

} // verus!
