//! A bounds-checked cursor over one slice of the stream.

use vstd::prelude::*;
use vstd::slice::slice_subrange;

verus! {

/// A request that the slice could not serve.
///
/// `available` is the number of bytes that were left in front of the cursor
/// when the request was made (for a seek: the length of the slice).
#[derive(Debug, Clone, Copy, PartialEq, Eq, Structural)]
pub struct OutOfBounds {
    pub available: usize,
}

/// A read position inside a fixed slice of bytes.
pub struct DataReader<'a> {
    input: &'a [u8],
    cursor: usize,
}

impl<'a> DataReader<'a> {
    /// The bytes of the slice.
    pub closed spec fn data(&self) -> Seq<u8> {
        self.input@
    }

    /// The offset of the next byte to be read.
    pub closed spec fn pos(&self) -> int {
        self.cursor as int
    }

    /// The bytes that are still in front of the cursor.
    pub open spec fn rest(&self) -> Seq<u8> {
        self.data().subrange(self.pos(), self.data().len() as int)
    }

    /// The cursor never leaves the slice.
    #[verifier::type_invariant]
    pub open spec fn in_bounds(&self) -> bool {
        0 <= self.pos() <= self.data().len()
    }

    /// A cursor at the start of `input`.
    pub fn new(input: &'a [u8]) -> (r: Self)
        ensures
            r.data() == input@,
            r.pos() == 0,
    {
        DataReader { input, cursor: 0 }
    }

    /// The offset of the next byte to be read.
    pub fn position(&self) -> (p: usize)
        ensures
            p == self.pos(),
            p <= self.data().len(),
    {
        proof {
            use_type_invariant(self);
        }
        self.cursor
    }

    /// The number of bytes in front of the cursor.
    pub fn remains(&self) -> (n: usize)
        ensures
            n == self.left(),
    {
        proof {
            use_type_invariant(self);
        }
        self.input.len() - self.cursor
    }

    /// Whether the cursor stands at the end of the slice.
    pub fn eof(&self) -> (b: bool)
        ensures
            b == (self.pos() == self.data().len()),
            self.pos() <= self.data().len(),
    {
        proof {
            use_type_invariant(self);
        }
        self.cursor == self.input.len()
    }

    /// The number of bytes in front of the cursor.
    pub open spec fn left(&self) -> int {
        self.data().len() - self.pos()
    }

    /// Reads one byte, or fails without moving at the end of the slice.
    pub fn read1(&mut self) -> (r: Result<u8, OutOfBounds>)
        ensures
            final(self).data() == old(self).data(),
            match r {
                Ok(b) => old(self).left() > 0 && b == old(self).data()[old(self).pos()]
                    && final(self).pos() == old(self).pos() + 1,
                Err(e) => old(self).left() == 0 && e.available == 0
                    && final(self).pos() == old(self).pos(),
            },
    {
        proof {
            use_type_invariant(&*self);
        }
        if self.cursor < self.input.len() {
            let b = self.input[self.cursor];
            self.cursor = self.cursor + 1;
            Ok(b)
        } else {
            Err(OutOfBounds { available: 0 })
        }
    }

    /// Hands out the next `n` bytes without moving; fails if fewer are left.
    pub fn peek(&self, n: usize) -> (r: Result<&'a [u8], OutOfBounds>)
        ensures
            match r {
                Ok(bytes) => n <= self.left()
                    && bytes@ == self.data().subrange(self.pos(), self.pos() + n),
                Err(e) => n > self.left() && e.available == self.left(),
            },
    {
        proof {
            use_type_invariant(self);
        }
        let left = self.input.len() - self.cursor;
        if n <= left {
            Ok(slice_subrange(self.input, self.cursor, self.cursor + n))
        } else {
            Err(OutOfBounds { available: left })
        }
    }

    /// Hands out the next `n` bytes and moves past them; fails without
    /// moving if fewer are left.
    pub fn read(&mut self, n: usize) -> (r: Result<&'a [u8], OutOfBounds>)
        ensures
            final(self).data() == old(self).data(),
            match r {
                Ok(bytes) => n <= old(self).left()
                    && bytes@ == old(self).data().subrange(old(self).pos(), old(self).pos() + n)
                    && final(self).pos() == old(self).pos() + n,
                Err(e) => n > old(self).left() && e.available == old(self).left()
                    && final(self).pos() == old(self).pos(),
            },
    {
        proof {
            use_type_invariant(&*self);
        }
        let left = self.input.len() - self.cursor;
        if n <= left {
            let out = slice_subrange(self.input, self.cursor, self.cursor + n);
            self.cursor = self.cursor + n;
            Ok(out)
        } else {
            Err(OutOfBounds { available: left })
        }
    }

    /// Moves past the next `n` bytes. If fewer are left, moves to the end
    /// of the slice and fails, reporting how many bytes it did pass.
    pub fn skip(&mut self, n: usize) -> (r: Result<(), OutOfBounds>)
        ensures
            final(self).data() == old(self).data(),
            match r {
                Ok(_) => n <= old(self).left() && final(self).pos() == old(self).pos() + n,
                Err(e) => n > old(self).left() && e.available == old(self).left()
                    && final(self).pos() == old(self).data().len(),
            },
    {
        proof {
            use_type_invariant(&*self);
        }
        let left = self.input.len() - self.cursor;
        if n <= left {
            self.cursor = self.cursor + n;
            Ok(())
        } else {
            self.cursor = self.input.len();
            Err(OutOfBounds { available: left })
        }
    }

    /// Moves to `offset`; fails without moving if it lies behind the end.
    pub fn seek(&mut self, offset: usize) -> (r: Result<(), OutOfBounds>)
        ensures
            final(self).data() == old(self).data(),
            match r {
                Ok(_) => offset <= old(self).data().len() && final(self).pos() == offset,
                Err(e) => offset > old(self).data().len()
                    && e.available == old(self).data().len()
                    && final(self).pos() == old(self).pos(),
            },
    {
        proof {
            use_type_invariant(&*self);
        }
        if offset <= self.input.len() {
            self.cursor = offset;
            Ok(())
        } else {
            Err(OutOfBounds { available: self.input.len() })
        }
    }
}

} // verus!
