use vstd::prelude::*;
use vstd::std_specs::cmp::PartialEqSpec;

verus! {

/// A cursor over a slice of any items, with two items of lookahead and one
/// of lookbehind. `index` is the position of the current item, `None` before
/// the first `next`; `next` never moves it beyond the slice's length.
pub struct Stream<'a, T> {
    pub slice: &'a [T],
    pub index: Option<usize>,
}

/// The item at position `i` of `items`, or `None` outside of them.
pub open spec fn item_at<T>(items: Seq<T>, i: int) -> Option<T> {
    if 0 <= i < items.len() {
        Some(items[i])
    } else {
        None
    }
}

/// What a borrowed item stands for.
pub open spec fn deref_item<T>(r: Option<&T>) -> Option<T> {
    match r {
        Some(x) => Some(*x),
        None => None,
    }
}

impl<'a, T> Stream<'a, T> {
    /// The position of the current item: `-1` before the first `next`.
    pub open spec fn cursor(&self) -> int {
        match self.index {
            None => -1,
            Some(i) => i as int,
        }
    }

    /// The position that `next` moves to: one further, but never beyond the
    /// slice's length.
    pub open spec fn after(&self) -> int {
        if self.cursor() + 1 <= self.slice@.len() {
            self.cursor() + 1
        } else {
            self.slice@.len() as int
        }
    }

    pub fn new(slice: &'a [T]) -> (s: Self)
        ensures
            s.slice@ == slice@,
            s.index is None,
    {
        Self { slice, index: None }
    }

    fn get(&self, i: usize) -> (r: Option<&'a T>)
        ensures
            deref_item(r) == item_at(self.slice@, i as int),
    {
        if i < self.slice.len() {
            Some(&self.slice[i])
        } else {
            None
        }
    }

    /// The item before the current one.
    pub fn prev(&self) -> (r: Option<&'a T>)
        ensures
            deref_item(r) == item_at(self.slice@, self.cursor() - 1),
    {
        match self.index {
            None => None,
            Some(i) => if i == 0 {
                None
            } else {
                self.get(i - 1)
            },
        }
    }

    /// The item returned by the last `next`.
    pub fn curr(&self) -> (r: Option<&'a T>)
        ensures
            deref_item(r) == item_at(self.slice@, self.cursor()),
    {
        match self.index {
            None => None,
            Some(i) => self.get(i),
        }
    }

    /// The item that `next` would return.
    pub fn peek(&self) -> (r: Option<&'a T>)
        ensures
            deref_item(r) == item_at(self.slice@, self.cursor() + 1),
    {
        match self.index {
            None => self.get(0),
            Some(i) => if i < self.slice.len() {
                self.get(i + 1)
            } else {
                None
            },
        }
    }

    /// The item after the one that `next` would return.
    pub fn peek_next(&self) -> (r: Option<&'a T>)
        ensures
            deref_item(r) == item_at(self.slice@, self.cursor() + 2),
    {
        match self.index {
            None => self.get(1),
            Some(i) => if i < self.slice.len() && i + 1 < self.slice.len() {
                self.get(i + 2)
            } else {
                None
            },
        }
    }

    /// Steps onto the following item and returns it; at the end the cursor
    /// comes to rest at the slice's length and `None` is returned.
    pub fn next(&mut self) -> (r: Option<&'a T>)
        ensures
            final(self).slice == old(self).slice,
            final(self).cursor() == old(self).after(),
            deref_item(r) == item_at(old(self).slice@, old(self).cursor() + 1),
    {
        let index = match self.index {
            None => 0,
            Some(i) => if i < self.slice.len() {
                i + 1
            } else {
                self.slice.len()
            },
        };
        self.index = Some(index);
        self.get(index)
    }

    /// Consumes the following item if there is one and `func` accepts it.
    pub fn next_if<F: FnOnce(&T) -> bool>(&mut self, func: F) -> (r: Option<&'a T>)
        requires
            forall|x: &T| call_requires(func, (x,)),
        ensures
            final(self).slice == old(self).slice,
            match item_at(old(self).slice@, old(self).cursor() + 1) {
                Some(x) => {
                    ||| (deref_item(r) == Some(x) && call_ensures(func, (&x,), true)
                        && final(self).cursor() == old(self).cursor() + 1)
                    ||| (r is None && call_ensures(func, (&x,), false) && final(self).index == old(
                        self,
                    ).index)
                },
                None => r is None && final(self).index == old(self).index,
            },
    {
        match self.peek() {
            Some(x) => {
                if func(x) {
                    self.next()
                } else {
                    None
                }
            },
            None => None,
        }
    }

    /// Consumes the following item if it equals `expected`.
    pub fn next_if_eq(&mut self, expected: &T) -> (r: Option<&'a T>) where T: PartialEq
        ensures
            final(self).slice == old(self).slice,
            T::obeys_eq_spec() ==> match item_at(old(self).slice@, old(self).cursor() + 1) {
                Some(x) => if x.eq_spec(expected) {
                    deref_item(r) == Some(x) && final(self).cursor() == old(self).cursor() + 1
                } else {
                    r is None && final(self).index == old(self).index
                },
                None => r is None && final(self).index == old(self).index,
            },
    {
        match self.peek() {
            Some(x) => {
                if x.eq(expected) {
                    self.next()
                } else {
                    None
                }
            },
            None => None,
        }
    }

    /// Consumes items for as long as `func` accepts the following one, and
    /// returns how many were consumed.
    pub fn consume_while<F: Fn(&T) -> bool>(&mut self, func: F) -> (count: usize)
        requires
            forall|x: &T| call_requires(func, (x,)),
        ensures
            final(self).slice == old(self).slice,
            count > 0 ==> final(self).cursor() == old(self).cursor() + count,
            count == 0 ==> final(self).index == old(self).index,
            count > 0 ==> old(self).cursor() + count < old(self).slice@.len(),
            forall|i: int|
                old(self).cursor() < i <= old(self).cursor() + count ==> call_ensures(
                    func,
                    (&#[trigger] old(self).slice@[i],),
                    true,
                ),
            match item_at(old(self).slice@, old(self).cursor() + count + 1) {
                Some(x) => call_ensures(func, (&x,), false),
                None => true,
            },
    {
        let len = self.slice.len();
        let mut count: usize = 0;
        loop
            invariant
                self.slice == old(self).slice,
                self.slice@.len() == len,
                count > 0 ==> self.cursor() == old(self).cursor() + count,
                count == 0 ==> self.index == old(self).index,
                count <= len,
                forall|x: &T| call_requires(func, (x,)),
                count > 0 ==> old(self).cursor() + count < old(self).slice@.len(),
                forall|i: int|
                    old(self).cursor() < i <= old(self).cursor() + count ==> call_ensures(
                        func,
                        (&#[trigger] old(self).slice@[i],),
                        true,
                    ),
            ensures
                match item_at(old(self).slice@, old(self).cursor() + count + 1) {
                    Some(x) => call_ensures(func, (&x,), false),
                    None => true,
                },
            decreases len - count,
        {
            match self.peek() {
                Some(x) => {
                    if func(x) {
                        self.next();
                        count += 1;
                    } else {
                        break ;
                    }
                },
                None => {
                    break ;
                },
            }
        }
        count
    }
}

} // verus!
