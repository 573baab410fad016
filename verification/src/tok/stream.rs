use vstd::prelude::*;

verus! {

/// A cursor over a byte slice with two bytes of lookahead and one of
/// lookbehind. It starts in front of the first byte; `next` steps onto the
/// following byte and returns it, and comes to rest one past the last byte.
#[derive(Clone, Copy)]
pub struct ByteStream<'a> {
    slice: &'a [u8],
    index: Option<usize>,
}

/// The byte at offset `i` of `bytes`, or `None` outside of it.
pub open spec fn byte_at(bytes: Seq<u8>, i: int) -> Option<u8> {
    if 0 <= i < bytes.len() {
        Some(bytes[i])
    } else {
        None
    }
}

impl<'a> ByteStream<'a> {
    /// The bytes the cursor runs over.
    pub closed spec fn bytes(&self) -> Seq<u8> {
        self.slice@
    }

    /// The offset of the current byte: `-1` before the first `next`, the
    /// input's length once the input is exhausted.
    pub closed spec fn cursor(&self) -> int {
        match self.index {
            None => -1,
            Some(i) => i as int,
        }
    }

    /// The cursor lies between `-1` and the input's length.
    pub closed spec fn wf(&self) -> bool {
        match self.index {
            None => true,
            Some(i) => i <= self.slice@.len(),
        }
    }

    /// The offset of the byte that `next` would return, capped at the
    /// input's length.
    pub open spec fn spec_next_index(&self) -> int {
        if self.cursor() + 1 <= self.bytes().len() {
            self.cursor() + 1
        } else {
            self.bytes().len() as int
        }
    }

    pub proof fn lemma_cursor_range(&self)
        requires
            self.wf(),
        ensures
            -1 <= self.cursor() <= self.bytes().len(),
            0 <= self.spec_next_index() <= self.bytes().len(),
    {
    }

    pub fn new(slice: &'a [u8]) -> (s: Self)
        ensures
            s.wf(),
            s.bytes() == slice@,
            s.cursor() == -1,
    {
        Self { slice, index: None }
    }

    pub fn next_index(&self) -> (i: usize)
        requires
            self.wf(),
        ensures
            i == self.spec_next_index(),
    {
        match self.index {
            None => 0,
            Some(i) => if i < self.slice.len() {
                i + 1
            } else {
                self.slice.len()
            },
        }
    }

    /// The input from offset `start` up to the byte that `next` would return.
    pub fn slice(&self, start: usize) -> (s: &'a [u8])
        requires
            self.wf(),
            start <= self.spec_next_index(),
        ensures
            s@ == self.bytes().subrange(start as int, self.spec_next_index()),
    {
        let end = self.next_index();
        vstd::slice::slice_subrange(self.slice, start, end)
    }

    fn get(&self, i: usize) -> (b: Option<u8>)
        ensures
            b == byte_at(self.bytes(), i as int),
    {
        if i < self.slice.len() {
            Some(self.slice[i])
        } else {
            None
        }
    }

    /// The byte before the current one.
    pub fn prev(&self) -> (b: Option<u8>)
        requires
            self.wf(),
        ensures
            b == byte_at(self.bytes(), self.cursor() - 1),
    {
        match self.index {
            None => None,
            Some(i) => if i == 0 {
                None
            } else {
                self.get(i - 1)
            },
        }
    }

    /// The byte returned by the last `next`.
    pub fn curr(&self) -> (b: Option<u8>)
        requires
            self.wf(),
        ensures
            b == byte_at(self.bytes(), self.cursor()),
    {
        match self.index {
            None => None,
            Some(i) => self.get(i),
        }
    }

    /// The byte that `next` would return.
    pub fn peek(&self) -> (b: Option<u8>)
        requires
            self.wf(),
        ensures
            b == byte_at(self.bytes(), self.cursor() + 1),
    {
        match self.index {
            None => self.get(0),
            Some(i) => if i < self.slice.len() {
                self.get(i + 1)
            } else {
                None
            },
        }
    }

    /// The byte after the one that `next` would return.
    pub fn peek_next(&self) -> (b: Option<u8>)
        requires
            self.wf(),
        ensures
            b == byte_at(self.bytes(), self.cursor() + 2),
    {
        match self.index {
            None => self.get(1),
            Some(i) => if i < self.slice.len() && i + 1 < self.slice.len() {
                self.get(i + 2)
            } else {
                None
            },
        }
    }

    /// Steps onto the following byte and returns it; at the end of the input
    /// the cursor rests one past the last byte and `None` is returned.
    pub fn next(&mut self) -> (b: Option<u8>)
        requires
            old(self).wf(),
        ensures
            final(self).wf(),
            final(self).bytes() == old(self).bytes(),
            final(self).cursor() == old(self).spec_next_index(),
            b == byte_at(old(self).bytes(), old(self).cursor() + 1),
    {
        let index = self.next_index();
        self.index = Some(index);
        self.get(index)
    }

    /// Consumes the following byte if there is one and `func` accepts it.
    pub fn next_if<F: FnOnce(u8) -> bool>(&mut self, func: F) -> (b: Option<u8>)
        requires
            old(self).wf(),
            forall|x: u8| call_requires(func, (x,)),
        ensures
            final(self).wf(),
            final(self).bytes() == old(self).bytes(),
            match byte_at(old(self).bytes(), old(self).cursor() + 1) {
                Some(x) => {
                    ||| (b == Some(x) && call_ensures(func, (x,), true) && final(self).cursor()
                        == old(self).cursor() + 1)
                    ||| (b.is_none() && call_ensures(func, (x,), false) && final(self).cursor()
                        == old(self).cursor())
                },
                None => b.is_none() && final(self).cursor() == old(self).cursor(),
            },
    {
        match self.peek() {
            Some(x) => {
                if func(x) {
                    self.next()
                } else {
                    None
                }
            },
            None => None,
        }
    }

    /// Consumes the following byte if it equals `expected`.
    pub fn next_if_eq(&mut self, expected: u8) -> (b: Option<u8>)
        requires
            old(self).wf(),
        ensures
            final(self).wf(),
            final(self).bytes() == old(self).bytes(),
            byte_at(old(self).bytes(), old(self).cursor() + 1) == Some(expected) ==> b == Some(
                expected,
            ) && final(self).cursor() == old(self).cursor() + 1,
            byte_at(old(self).bytes(), old(self).cursor() + 1) != Some(expected) ==> b.is_none()
                && final(self).cursor() == old(self).cursor(),
    {
        self.next_if(|x: u8| -> (r: bool)
            ensures
                r == (x == expected),
            { x == expected })
    }

    /// Consumes bytes for as long as `func` accepts the following one, and
    /// returns how many were consumed.
    pub fn consume_while<F: Fn(u8) -> bool>(&mut self, func: F) -> (count: usize)
        requires
            old(self).wf(),
            forall|x: u8| call_requires(func, (x,)),
        ensures
            final(self).wf(),
            final(self).bytes() == old(self).bytes(),
            final(self).cursor() == old(self).cursor() + count,
            final(self).cursor() < final(self).bytes().len() || count == 0,
            forall|i: int|
                old(self).cursor() < i <= final(self).cursor() ==> call_ensures(
                    func,
                    (#[trigger] old(self).bytes()[i],),
                    true,
                ),
            match byte_at(final(self).bytes(), final(self).cursor() + 1) {
                Some(x) => call_ensures(func, (x,), false),
                None => true,
            },
    {
        let len = self.slice.len();
        let mut count: usize = 0;
        loop
            invariant
                self.wf(),
                -1 <= old(self).cursor(),
                self.bytes().len() == len,
                self.bytes() == old(self).bytes(),
                self.cursor() == old(self).cursor() + count,
                self.cursor() < self.bytes().len() || count == 0,
                forall|x: u8| call_requires(func, (x,)),
                forall|i: int|
                    old(self).cursor() < i <= self.cursor() ==> call_ensures(
                        func,
                        (#[trigger] old(self).bytes()[i],),
                        true,
                    ),
            ensures
                match byte_at(self.bytes(), self.cursor() + 1) {
                    Some(x) => call_ensures(func, (x,), false),
                    None => true,
                },
            decreases self.bytes().len() - self.cursor(),
        {
            match self.peek() {
                Some(x) => {
                    if func(x) {
                        self.next();
                        count += 1;
                    } else {
                        break ;
                    }
                },
                None => {
                    break ;
                },
            }
        }
        count
    }
}

} // verus!
