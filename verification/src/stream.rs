use vstd::prelude::*;
use vstd::slice::{slice_index_get, slice_subrange};

verus! {

/// A positional cursor over an immutable byte slice.
///
/// The position always lies in `[0, length]`; a position equal to the length
/// means end-of-input. The unchecked accessors demand, as preconditions, that
/// the position they read is in range: callers must test `is_eof` first.
pub struct Stream<'a> {
    index: usize,
    data: &'a [u8],
}

impl<'a> Stream<'a> {
    /// The bytes this stream scans.
    pub closed spec fn data_seq(self) -> Seq<u8> {
        self.data@
    }

    /// The current position.
    pub closed spec fn pos(self) -> int {
        self.index as int
    }

    /// The position lies in `[0, length]`.
    pub open spec fn wf(self) -> bool {
        0 <= self.pos() <= self.data_seq().len()
    }

    /// Creates a new stream over `data`, positioned at its start.
    pub fn new(data: &'a [u8]) -> (r: Stream<'a>)
        ensures
            r.data_seq() == data@,
            r.pos() == 0,
    {
        Stream { data, index: 0 }
    }

    /// Returns the byte at the current position, or `None` at end-of-input.
    pub fn current_copied(&self) -> (r: Option<u8>)
        ensures
            r == (if self.pos() < self.data_seq().len() {
                Some(self.data_seq()[self.pos()])
            } else {
                None::<u8>
            }),
    {
        if self.index < self.data.len() {
            Some(*slice_index_get(self.data, self.index))
        } else {
            None
        }
    }

    /// Returns the byte at the current position; the position must be in range.
    pub fn current_unchecked(&self) -> (r: u8)
        requires
            self.pos() < self.data_seq().len(),
        ensures
            r == self.data_seq()[self.pos()],
    {
        *slice_index_get(self.data, self.index)
    }

    /// Moves one position forward and returns the byte there, or `None` if the
    /// new position is the end of the input.
    pub fn next_copied(&mut self) -> (r: Option<u8>)
        requires
            old(self).pos() < old(self).data_seq().len(),
        ensures
            final(self).data_seq() == old(self).data_seq(),
            final(self).pos() == old(self).pos() + 1,
            r == (if old(self).pos() + 1 < old(self).data_seq().len() {
                Some(old(self).data_seq()[old(self).pos() + 1])
            } else {
                None::<u8>
            }),
    {
        self.skip();
        self.current_copied()
    }

    /// Returns the byte one position behind, or `None` at the start.
    pub fn peek_back_copied(&self) -> (r: Option<u8>)
        requires
            self.wf(),
        ensures
            r == (if self.pos() >= 1 {
                Some(self.data_seq()[self.pos() - 1])
            } else {
                None::<u8>
            }),
    {
        if self.index >= 1 {
            Some(*slice_index_get(self.data, self.index - 1))
        } else {
            None
        }
    }

    /// Returns the current byte and moves past it if it equals `expect`.
    pub fn next_if_current_is(&mut self, expect: u8) -> (r: Option<u8>)
        ensures
            final(self).data_seq() == old(self).data_seq(),
            if old(self).pos() < old(self).data_seq().len()
                && old(self).data_seq()[old(self).pos()] == expect {
                r == Some(expect) && final(self).pos() == old(self).pos() + 1
            } else {
                r == None::<u8> && final(self).pos() == old(self).pos()
            },
    {
        match self.current_copied() {
            Some(c) => {
                if c == expect {
                    self.skip();
                    Some(c)
                } else {
                    None
                }
            },
            None => None,
        }
    }

    /// Returns the current byte and moves past it if it occurs in `expect`.
    pub fn next_if_current_present_in(&mut self, expect: &[u8]) -> (r: Option<u8>)
        ensures
            final(self).data_seq() == old(self).data_seq(),
            if old(self).pos() < old(self).data_seq().len()
                && expect@.contains(old(self).data_seq()[old(self).pos()]) {
                r == Some(old(self).data_seq()[old(self).pos()])
                    && final(self).pos() == old(self).pos() + 1
            } else {
                r == None::<u8> && final(self).pos() == old(self).pos()
            },
    {
        match self.current_copied() {
            Some(c) => {
                let mut i: usize = 0;
                let mut found = false;
                while i < expect.len()
                    invariant
                        0 <= i <= expect@.len(),
                        found ==> expect@.contains(c),
                        !found ==> forall|j: int| 0 <= j < i ==> expect@[j] != c,
                    decreases expect@.len() - i,
                {
                    if *slice_index_get(expect, i) == c {
                        found = true;
                    }
                    i = i + 1;
                }
                if found {
                    self.skip();
                    Some(c)
                } else {
                    assert(!expect@.contains(c));
                    None
                }
            },
            None => None,
        }
    }

    /// Moves past the current byte if it equals `expect`; reports whether it did.
    pub fn skip_if_current_is(&mut self, expect: u8) -> (r: bool)
        ensures
            final(self).data_seq() == old(self).data_seq(),
            r == (old(self).pos() < old(self).data_seq().len()
                && old(self).data_seq()[old(self).pos()] == expect),
            final(self).pos() == if r {
                old(self).pos() + 1
            } else {
                old(self).pos()
            },
    {
        match self.next_if_current_is(expect) {
            Some(_) => true,
            None => false,
        }
    }

    /// Returns a reference to the current byte, or `None` at end-of-input.
    pub fn current(&self) -> (r: Option<&'a u8>)
        ensures
            r.is_some() == (self.pos() < self.data_seq().len()),
            r matches Some(b) ==> *b == self.data_seq()[self.pos()],
    {
        if self.index < self.data.len() {
            Some(slice_index_get(self.data, self.index))
        } else {
            None
        }
    }

    /// Whether the stream has reached the end of its data.
    pub fn is_eof(&self) -> (r: bool)
        ensures
            r == (self.pos() >= self.data_seq().len()),
    {
        self.index >= self.data.len()
    }

    /// The length of the underlying data.
    pub fn length(&self) -> (r: usize)
        ensures
            r == self.data_seq().len(),
    {
        self.data.len()
    }

    /// Moves one position forward and returns a reference to the byte there,
    /// or `None`, without moving, if no such byte exists.
    pub fn next(&mut self) -> (r: Option<&'a u8>)
        ensures
            final(self).data_seq() == old(self).data_seq(),
            if old(self).pos() + 1 < old(self).data_seq().len() {
                final(self).pos() == old(self).pos() + 1 && r.is_some()
            } else {
                final(self).pos() == old(self).pos() && r.is_none()
            },
            r matches Some(b) ==> *b == old(self).data_seq()[old(self).pos() + 1],
    {
        if self.index < self.data.len() {
            let nxt = self.index + 1;
            if nxt < self.data.len() {
                self.index = nxt;
                Some(slice_index_get(self.data, self.index))
            } else {
                None
            }
        } else {
            None
        }
    }

    /// Moves one position forward and returns a reference to the byte there;
    /// that position must be in range.
    pub fn next_unchecked(&mut self) -> (r: &'a u8)
        requires
            old(self).pos() + 1 < old(self).data_seq().len(),
        ensures
            final(self).data_seq() == old(self).data_seq(),
            final(self).pos() == old(self).pos() + 1,
            *r == old(self).data_seq()[old(self).pos() + 1],
    {
        self.skip();
        slice_index_get(self.data, self.index)
    }

    /// Returns a reference to the byte one position ahead, without moving.
    pub fn peek(&self) -> (r: Option<&'a u8>)
        ensures
            r.is_some() == (self.pos() + 1 < self.data_seq().len()),
            r matches Some(b) ==> *b == self.data_seq()[self.pos() + 1],
    {
        if self.index < self.data.len() {
            let nxt = self.index + 1;
            if nxt < self.data.len() {
                Some(slice_index_get(self.data, nxt))
            } else {
                None
            }
        } else {
            None
        }
    }

    /// Returns a reference to the byte one position behind, or `None` at the start.
    pub fn peek_back(&self) -> (r: Option<&'a u8>)
        requires
            self.wf(),
        ensures
            r.is_some() == (self.pos() >= 1),
            r matches Some(b) ==> *b == self.data_seq()[self.pos() - 1],
    {
        if self.index >= 1 {
            Some(slice_index_get(self.data, self.index - 1))
        } else {
            None
        }
    }

    /// The current position of the stream on the data.
    pub fn position(&self) -> (r: usize)
        ensures
            r == self.pos(),
    {
        self.index
    }

    /// Moves one position forward; the current position must be in range.
    pub fn skip(&mut self)
        requires
            old(self).pos() < old(self).data_seq().len(),
        ensures
            final(self).data_seq() == old(self).data_seq(),
            final(self).pos() == old(self).pos() + 1,
    {
        proof {
            vstd::slice::axiom_spec_len(self.data);
        }
        self.index = self.index + 1;
    }

    /// Moves `n` positions forward; the new position must not pass the end.
    pub fn skip_n(&mut self, n: usize)
        requires
            old(self).pos() + n <= old(self).data_seq().len(),
        ensures
            final(self).data_seq() == old(self).data_seq(),
            final(self).pos() == old(self).pos() + n,
    {
        proof {
            vstd::slice::axiom_spec_len(self.data);
        }
        self.index = self.index + n;
    }

    /// Moves one position back; the position must not be the start.
    pub fn unskip(&mut self)
        requires
            old(self).pos() >= 1,
        ensures
            final(self).data_seq() == old(self).data_seq(),
            final(self).pos() == old(self).pos() - 1,
    {
        self.index = self.index - 1;
    }

    /// Moves back to the start of the data.
    pub fn reset_to_start(&mut self)
        ensures
            final(self).data_seq() == old(self).data_seq(),
            final(self).pos() == 0,
    {
        self.index = 0;
    }

    /// Returns the subslice `[from, to)`, with `to` clamped to the length of
    /// the data.
    pub fn slice(&self, from: usize, to: usize) -> (r: &'a [u8])
        requires
            from <= to,
            from <= self.data_seq().len(),
        ensures
            r@ == self.data_seq().subrange(
                from as int,
                if to <= self.data_seq().len() {
                    to as int
                } else {
                    self.data_seq().len() as int
                },
            ),
    {
        let hi = if to <= self.data.len() {
            to
        } else {
            self.data.len()
        };
        slice_subrange(self.data, from, hi)
    }

    /// Returns the subslice `[from, to)`; the whole range must be in bounds.
    pub fn slice_unchecked(&self, from: usize, to: usize) -> (r: &'a [u8])
        requires
            from <= to <= self.data_seq().len(),
        ensures
            r@ == self.data_seq().subrange(from as int, to as int),
    {
        slice_subrange(self.data, from, to)
    }

    /// Returns the subslice of `len` bytes starting at `from`, clamped to the
    /// end of the data.
    pub fn slice_len(&self, from: usize, len: usize) -> (r: &'a [u8])
        requires
            from <= self.data_seq().len(),
        ensures
            r@ == self.data_seq().subrange(
                from as int,
                if from + len <= self.data_seq().len() {
                    from + len
                } else {
                    self.data_seq().len() as int
                },
            ),
    {
        let avail = self.data.len() - from;
        let to = if len <= avail {
            from + len
        } else {
            self.data.len()
        };
        slice_subrange(self.data, from, to)
    }
}

} // verus!
