use vstd::prelude::*;

verus! {

/// A payload together with the half-open byte range `[start, end)` of the
/// source text it was read from: `Spanned(start, payload, end)`.
#[derive(Debug, PartialEq)]
pub struct Spanned<T>(pub usize, pub T, pub usize);

} // verus!
