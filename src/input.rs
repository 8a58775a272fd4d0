//! A pull-based byte source with a two-byte pushback buffer.

use crate::parser::{ReadError, NEWLINE, SPACE};
use vstd::prelude::*;

verus! {

/// How many bytes may be pushed back at once.
pub const PUSHBACK_CAPACITY: usize = 2;

/// The bytes still to be read: pushed-back bytes first, most recent first,
/// then the rest of the underlying data.
pub struct Input {
    data: Vec<u8>,
    pos: usize,
    buffered: usize,
    buf: [u8; 2],
}

/// What `clear_pending_space` leaves of `s`: a run of spaces is dropped, and
/// with it the newline that ends it, if one does.
pub open spec fn after_pending_space(s: Seq<u8>) -> Seq<u8>
    decreases s.len(),
{
    if s.len() == 0 {
        s
    } else if s[0] == SPACE {
        after_pending_space(s.drop_first())
    } else if s[0] == NEWLINE {
        s.drop_first()
    } else {
        s
    }
}

impl View for Input {
    type V = Seq<u8>;

    closed spec fn view(&self) -> Seq<u8> {
        self.buf@.subrange(0, self.buffered as int) + self.data@.subrange(
            self.pos as int,
            self.data@.len() as int,
        )
    }
}

impl Input {
    /// The internal invariant: the position lies within the data and the
    /// pushback buffer is within its capacity.
    pub closed spec fn wf(&self) -> bool {
        &&& self.pos <= self.data@.len()
        &&& self.buffered <= PUSHBACK_CAPACITY
    }

    /// How many pushed-back bytes are waiting.
    pub closed spec fn pushed(&self) -> nat {
        self.buffered as nat
    }

    pub fn new(data: Vec<u8>) -> (r: Self)
        ensures
            r.wf(),
            r@ == data@,
            r.pushed() == 0,
    {
        let r = Input { data, pos: 0, buffered: 0, buf: [0, 0] };
        assert(r@ =~= r.data@);
        r
    }

    /// The next byte, pushed-back bytes first; `None` once everything has been
    /// read.
    pub fn get(&mut self) -> (r: Option<u8>)
        requires
            old(self).wf(),
        ensures
            final(self).wf(),
            old(self)@.len() == 0 ==> r is None && final(self)@ == old(self)@,
            old(self)@.len() > 0 ==> r == Some(old(self)@[0]) && final(self)@
                == old(self)@.drop_first(),
            final(self).pushed() < PUSHBACK_CAPACITY,
            final(self).pushed() == if old(self).pushed() == 0 {
                0
            } else {
                (old(self).pushed() - 1) as nat
            },
    {
        if self.buffered > 0 {
            let c = self.buf[0];
            self.buffered = self.buffered - 1;
            self.buf[0] = self.buf[1];
            self.buf[1] = 0;
            assert(self@ =~= old(self)@.drop_first());
            Some(c)
        } else if self.pos < self.data.len() {
            let c = self.data[self.pos];
            self.pos = self.pos + 1;
            assert(self@ =~= old(self)@.drop_first());
            Some(c)
        } else {
            assert(self@ =~= old(self)@);
            None
        }
    }

    /// Makes `byte` the next byte that `get` returns. With the buffer full the
    /// byte is refused with `PushbackOverflow` and nothing changes.
    pub fn push(&mut self, byte: u8) -> (r: Result<(), ReadError>)
        requires
            old(self).wf(),
        ensures
            final(self).wf(),
            old(self).pushed() < PUSHBACK_CAPACITY ==> r is Ok && final(self)@ == seq![byte]
                + old(self)@ && final(self).pushed() == old(self).pushed() + 1,
            old(self).pushed() >= PUSHBACK_CAPACITY ==> r == Err::<(), ReadError>(
                ReadError::PushbackOverflow,
            ) && *final(self) == *old(self),
    {
        if self.buffered >= PUSHBACK_CAPACITY {
            return Err(ReadError::PushbackOverflow);
        }
        self.buffered = self.buffered + 1;
        self.buf[1] = self.buf[0];
        self.buf[0] = byte;
        assert(self@ =~= seq![byte] + old(self)@);
        Ok(())
    }

    /// Whether any byte is left to read.
    pub fn has_pending(&self) -> (r: bool)
        requires
            self.wf(),
        ensures
            r == (self@.len() > 0),
    {
        self.buffered > 0 || self.pos < self.data.len()
    }

    /// Drops the spaces that follow a value, up to and including the newline
    /// that ends them; any other byte is left in place.
    pub fn clear_pending_space(&mut self)
        requires
            old(self).wf(),
        ensures
            final(self).wf(),
            final(self)@ == after_pending_space(old(self)@),
    {
        while self.has_pending()
            invariant
                self.wf(),
                after_pending_space(self@) == after_pending_space(old(self)@),
            decreases self@.len(),
        {
            let c = self.get();
            match c {
                Some(c) => {
                    if c == NEWLINE {
                        return ;
                    } else if c != SPACE {
                        let _ = self.push(c);
                        return ;
                    }
                },
                None => {
                    return ;
                },
            }
        }
    }
}

} // verus!
