//! The producer side of [`crate::Stack::buffer`]: a pull-based source of
//! bytes with an unknown, possibly large, number of items left.

use vstd::prelude::*;

verus! {

/// A producer of bytes, drained front to back by [`crate::Stack::buffer`].
/// Implementations say through `remaining` which bytes they have yet to
/// yield; `next` yields them in order.
pub trait ByteSource: Sized {
    /// The bytes this source has yet to yield, in order.
    spec fn remaining(&self) -> Seq<u8>;

    /// Yield the next byte, or `None` exactly when the source is drained.
    fn next(&mut self) -> (r: Option<u8>)
        ensures
            match r {
                Some(b) => old(self).remaining().len() >= 1 && b == old(self).remaining()[0]
                    && final(self).remaining() == old(self).remaining().drop_first(),
                None => old(self).remaining().len() == 0 && final(self).remaining()
                    == old(self).remaining(),
            },
    ;
}

/// A source that yields the bytes of a vector, front to back.
pub struct VecSource {
    data: Vec<u8>,
    pos: usize,
}

impl VecSource {
    /// A source over all bytes of `data`.
    pub fn new(data: Vec<u8>) -> (r: VecSource)
        ensures
            r.remaining() == data@,
    {
        let r = VecSource { data, pos: 0 };
        proof {
            assert(r.remaining() =~= r.data@);
        }
        r
    }
}

impl ByteSource for VecSource {
    closed spec fn remaining(&self) -> Seq<u8> {
        if self.pos <= self.data@.len() {
            self.data@.skip(self.pos as int)
        } else {
            Seq::empty()
        }
    }

    fn next(&mut self) -> (r: Option<u8>)
        ensures
            match r {
                Some(b) => old(self).remaining().len() >= 1 && b == old(self).remaining()[0]
                    && final(self).remaining() == old(self).remaining().drop_first(),
                None => old(self).remaining().len() == 0 && final(self).remaining()
                    == old(self).remaining(),
            },
    {
        if self.pos < self.data.len() {
            let b = self.data[self.pos];
            self.pos = self.pos + 1;
            proof {
                assert(self.remaining() =~= old(self).remaining().drop_first());
            }
            Some(b)
        } else {
            None
        }
    }
}

} // verus!
