use vstd::prelude::*;

use crate::tok::is_space;

verus! {

/// How many bytes of `s` are left when the ASCII whitespace at its end is
/// taken off.
pub open spec fn trimmed_len(s: Seq<u8>) -> nat
    decreases s.len(),
{
    if s.len() == 0 {
        0
    } else if is_space(s.last()) {
        trimmed_len(s.drop_last())
    } else {
        s.len()
    }
}

/// `s` without the ASCII whitespace at its end.
pub open spec fn trimmed(s: Seq<u8>) -> Seq<u8> {
    s.subrange(0, trimmed_len(s) as int)
}

pub proof fn lemma_trimmed_len(s: Seq<u8>)
    ensures
        trimmed_len(s) <= s.len(),
        trimmed_len(s) > 0 ==> !is_space(s[trimmed_len(s) - 1]),
        forall|i: int| trimmed_len(s) <= i < s.len() ==> is_space(#[trigger] s[i]),
    decreases s.len(),
{
    if s.len() > 0 && is_space(s.last()) {
        let front = s.drop_last();
        lemma_trimmed_len(front);
        assert forall|i: int| trimmed_len(s) <= i < s.len() implies is_space(#[trigger] s[i]) by {
            if i < front.len() {
                assert(front[i] == s[i]);
            }
        }
        if trimmed_len(s) > 0 {
            assert(front[trimmed_len(s) - 1] == s[trimmed_len(s) - 1]);
        }
    }
}

/// Taking the whitespace off the end of bytes.
pub trait TrimEnd {
    /// The bytes that `self` holds.
    spec fn bytes(&self) -> Seq<u8>;

    /// The bytes without the ASCII whitespace at their end: space, tab,
    /// line feed, form feed and carriage return.
    fn trim_end(&self) -> (r: &[u8])
        ensures
            r@ == trimmed(self.bytes()),
    ;
}

impl TrimEnd for [u8] {
    open spec fn bytes(&self) -> Seq<u8> {
        self@
    }

    fn trim_end(&self) -> (r: &[u8]) {
        let mut n: usize = self.len();
        assert(self@.subrange(0, n as int) =~= self@);
        while n > 0 && is_space_exec(self[n - 1])
            invariant
                n <= self@.len(),
                trimmed_len(self@) == trimmed_len(self@.subrange(0, n as int)),
            decreases n,
        {
            assert(self@.subrange(0, n as int).drop_last() =~= self@.subrange(0, n - 1));
            n -= 1;
        }
        vstd::slice::slice_subrange(self, 0, n)
    }
}

impl TrimEnd for Vec<u8> {
    open spec fn bytes(&self) -> Seq<u8> {
        self@
    }

    fn trim_end(&self) -> (r: &[u8]) {
        self.as_slice().trim_end()
    }
}

fn is_space_exec(c: u8) -> (b: bool)
    ensures
        b == is_space(c),
{
    c == 0x09 || c == 0x0c || c == 0x0d || c == 0x20 || c == 0x0a
}

} // verus!
