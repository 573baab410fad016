use vstd::prelude::*;

verus! {

/// A handle for an interned byte string. Handles are issued by an
/// [`Interner`] in sequence; equal bytes get equal handles.
#[derive(Copy, Clone, Debug, PartialEq, Eq, Hash, Structural)]
pub struct Sym(pub usize);

impl Sym {
    /// Interns `string` in `interner` and returns its handle.
    pub fn new(interner: &mut Interner, string: &[u8]) -> (sym: Sym)
        requires
            old(interner).wf(),
        ensures
            final(interner).wf(),
            final(interner)@ == interned(old(interner)@, string@),
            sym.0 == index_of(final(interner)@, string@),
            sym.0 < final(interner)@.len(),
            final(interner)@[sym.0 as int] == string@,
            final(interner).grown(*old(interner), string@),
    {
        interner.intern(string)
    }
}

/// Where an interned string lies: in which block, from which offset, and how
/// many bytes.
struct Slot {
    block: usize,
    start: usize,
    len: usize,
}

/// The table of interned strings. The bytes live in an arena of blocks: the
/// block being filled and the retired ones, which are never touched again,
/// so a slot stays valid for as long as the interner lives.
pub struct Interner {
    slots: Vec<Slot>,
    head: Vec<u8>,
    head_cap: usize,
    rest: Vec<Vec<u8>>,
}

/// Capacity of the first block.
pub const INIT_SIZE: usize = 4096;

/// Largest capacity that doubling alone leads to.
pub const MAX_SIZE: usize = 0x400_0000;

/// The first position at which `name` occurs in `names`, or the length of
/// `names` if it does not occur.
pub open spec fn index_of(names: Seq<Seq<u8>>, name: Seq<u8>) -> int
    decreases names.len(),
{
    if names.len() == 0 {
        0
    } else if names[0] == name {
        0
    } else {
        1 + index_of(names.drop_first(), name)
    }
}

/// The table after interning `name`: unchanged if `name` is in it, else with
/// `name` appended.
pub open spec fn interned(names: Seq<Seq<u8>>, name: Seq<u8>) -> Seq<Seq<u8>> {
    if names.contains(name) {
        names
    } else {
        names.push(name)
    }
}

/// No string occurs twice.
pub open spec fn distinct(names: Seq<Seq<u8>>) -> bool {
    forall|i: int, j: int|
        0 <= i < names.len() && 0 <= j < names.len() && #[trigger] names[i] == #[trigger] names[j]
            ==> i == j
}

/// `a` sorts before `b` byte by byte, a proper prefix before the longer string.
pub open spec fn bytes_less(a: Seq<u8>, b: Seq<u8>) -> bool
    decreases a.len(),
{
    if b.len() == 0 {
        false
    } else if a.len() == 0 {
        true
    } else if a[0] != b[0] {
        a[0] < b[0]
    } else {
        bytes_less(a.drop_first(), b.drop_first())
    }
}

pub proof fn lemma_index_of_range(names: Seq<Seq<u8>>, name: Seq<u8>)
    ensures
        0 <= index_of(names, name) <= names.len(),
        index_of(names, name) < names.len() <==> names.contains(name),
        index_of(names, name) < names.len() ==> names[index_of(names, name)] == name,
        forall|i: int| 0 <= i < index_of(names, name) ==> names[i] != name,
    decreases names.len(),
{
    if names.len() == 0 {
    } else if names[0] == name {
        assert(names.contains(name));
    } else {
        let tail = names.drop_first();
        lemma_index_of_range(tail, name);
        if tail.contains(name) {
            let k = choose|k: int| 0 <= k < tail.len() && tail[k] == name;
            assert(names[k + 1] == name);
        }
        if names.contains(name) {
            let k = choose|k: int| 0 <= k < names.len() && names[k] == name;
            assert(tail[k - 1] == name);
        }
        assert forall|i: int| 0 <= i < index_of(names, name) implies names[i] != name by {
            if i > 0 {
                assert(tail[i - 1] == names[i]);
            }
        }
    }
}

/// The position of a string that is in the table is the one place where it
/// stands.
pub proof fn lemma_index_of_at(names: Seq<Seq<u8>>, i: int)
    requires
        distinct(names),
        0 <= i < names.len(),
    ensures
        index_of(names, names[i]) == i,
{
    lemma_index_of_range(names, names[i]);
}

/// The position of a string that is not in the table is the table's length.
pub proof fn lemma_index_of_absent(names: Seq<Seq<u8>>, name: Seq<u8>)
    requires
        !names.contains(name),
    ensures
        index_of(names, name) == names.len(),
        index_of(names.push(name), name) == names.len(),
{
    lemma_index_of_range(names, name);
    let ext = names.push(name);
    lemma_index_of_range(ext, name);
    assert(ext[names.len() as int] == name);
    assert(ext.contains(name));
    if index_of(ext, name) < names.len() {
        assert(names[index_of(ext, name)] == name);
    }
}

impl Slot {
    spec fn bytes(&self, head: Seq<u8>, rest: Seq<Vec<u8>>) -> Seq<u8> {
        if self.block < rest.len() {
            rest[self.block as int]@.subrange(self.start as int, self.start + self.len)
        } else {
            head.subrange(self.start as int, self.start + self.len)
        }
    }

    spec fn fits(&self, head: Seq<u8>, rest: Seq<Vec<u8>>) -> bool {
        &&& self.block <= rest.len()
        &&& self.block < rest.len() ==> self.start + self.len <= rest[self.block as int]@.len()
        &&& self.block == rest.len() ==> self.start + self.len <= head.len()
    }
}

impl View for Interner {
    type V = Seq<Seq<u8>>;

    /// The interned strings, in the order of their handles.
    closed spec fn view(&self) -> Seq<Seq<u8>> {
        Seq::new(self.slots@.len(), |i: int| self.slots@[i].bytes(self.head@, self.rest@))
    }
}

impl Interner {
    /// Every slot lies within its block, the block being filled respects its
    /// capacity, and no string is stored twice.
    pub closed spec fn wf(&self) -> bool {
        &&& forall|i: int|
            0 <= i < self.slots@.len() ==> (#[trigger] self.slots@[i]).fits(self.head@, self.rest@)
        &&& self.head@.len() <= self.head_cap
        &&& distinct(self@)
    }

    /// The capacity of the block being filled.
    pub closed spec fn capacity(&self) -> nat {
        self.head_cap as nat
    }

    /// How many bytes of the block being filled are in use.
    pub closed spec fn used(&self) -> nat {
        self.head@.len()
    }

    /// How many blocks have been retired.
    pub closed spec fn retired(&self) -> nat {
        self.rest@.len()
    }

    /// How the arena of `self` has come from that of `before` by interning
    /// `name`. A name that was interned already leaves the arena as it was.
    /// A new name is stored in the block being filled if it fits; if not,
    /// that block is retired and the name starts a new one, whose capacity is
    /// [`block_size`].
    pub open spec fn grown(&self, before: Interner, name: Seq<u8>) -> bool {
        if before@.contains(name) {
            &&& self.capacity() == before.capacity()
            &&& self.retired() == before.retired()
            &&& self.used() == before.used()
        } else if before.capacity() - before.used() >= name.len() {
            &&& self.capacity() == before.capacity()
            &&& self.retired() == before.retired()
            &&& self.used() == before.used() + name.len()
        } else {
            &&& self.capacity() == block_size(before.capacity(), name.len())
            &&& self.retired() == before.retired() + 1
            &&& self.used() == name.len()
        }
    }

    pub proof fn lemma_distinct(&self)
        requires
            self.wf(),
        ensures
            distinct(self@),
            self.used() <= self.capacity(),
    {
    }

    pub fn new() -> (interner: Self)
        ensures
            interner.wf(),
            interner@ == Seq::<Seq<u8>>::empty(),
            interner.capacity() == INIT_SIZE,
            interner.used() == 0,
            interner.retired() == 0,
    {
        let interner = Interner {
            slots: Vec::new(),
            head: Vec::with_capacity(INIT_SIZE),
            head_cap: INIT_SIZE,
            rest: Vec::new(),
        };
        assert(interner@ =~= Seq::<Seq<u8>>::empty());
        interner
    }

    /// The number of strings interned so far.
    pub fn len(&self) -> (n: usize)
        ensures
            n == self@.len(),
    {
        self.slots.len()
    }

    /// The bytes that `id` stands for.
    pub fn lookup(&self, id: Sym) -> (bytes: &[u8])
        requires
            self.wf(),
            id.0 < self@.len(),
        ensures
            bytes@ == self@[id.0 as int],
    {
        let slot = &self.slots[id.0];
        assert(slot.fits(self.head@, self.rest@));
        let block = if slot.block < self.rest.len() {
            self.rest[slot.block].as_slice()
        } else {
            self.head.as_slice()
        };
        let size = block.len();
        vstd::slice::slice_subrange(block, slot.start, slot.start + slot.len)
    }

    /// Whether the string in slot `i` equals `name`.
    fn slot_is(&self, i: usize, name: &[u8]) -> (same: bool)
        requires
            self.wf(),
            i < self@.len(),
        ensures
            same == (self@[i as int] == name@),
    {
        let stored = self.lookup(Sym(i));
        if stored.len() != name.len() {
            return false;
        }
        let mut k: usize = 0;
        while k < name.len()
            invariant
                k <= name@.len(),
                i < self@.len(),
                stored@ == self@[i as int],
                stored@.len() == name@.len(),
                forall|j: int| 0 <= j < k ==> stored@[j] == name@[j],
            decreases name@.len() - k,
        {
            if stored[k] != name[k] {
                return false;
            }
            k += 1;
        }
        assert(stored@ =~= name@);
        true
    }

    /// The handle of `name` if it is interned already.
    fn find(&self, name: &[u8]) -> (found: Option<usize>)
        requires
            self.wf(),
        ensures
            match found {
                Some(i) => i < self@.len() && self@[i as int] == name@ && i == index_of(
                    self@,
                    name@,
                ),
                None => !self@.contains(name@),
            },
    {
        let mut i: usize = 0;
        while i < self.slots.len()
            invariant
                self.wf(),
                i <= self@.len(),
                self@.len() == self.slots@.len(),
                forall|j: int| 0 <= j < i ==> self@[j] != name@,
            decreases self@.len() - i,
        {
            if self.slot_is(i, name) {
                proof {
                    lemma_index_of_at(self@, i as int);
                }
                return Some(i);
            }
            i += 1;
        }
        None
    }

    /// Returns the handle of `name`: the one it has if it was interned
    /// before, else the next handle in sequence.
    pub fn intern(&mut self, name: &[u8]) -> (sym: Sym)
        requires
            old(self).wf(),
        ensures
            final(self).wf(),
            final(self)@ == interned(old(self)@, name@),
            sym.0 == index_of(final(self)@, name@),
            sym.0 < final(self)@.len(),
            final(self)@[sym.0 as int] == name@,
            final(self).grown(*old(self), name@),
    {
        if let Some(i) = self.find(name) {
            return Sym(i);
        }
        let ghost before = self@;
        let slot = self.allocate(name);
        let sym = Sym(self.slots.len());
        self.slots.push(slot);
        proof {
            assert(self@ =~= before.push(name@));
            lemma_index_of_absent(before, name@);
            assert forall|i: int, j: int|
                0 <= i < self@.len() && 0 <= j < self@.len() && #[trigger] self@[i]
                    == #[trigger] self@[j] implies i == j by {
                if i < before.len() && j < before.len() {
                    assert(before[i] == before[j]);
                } else if i < before.len() {
                    assert(before[i] == name@);
                } else if j < before.len() {
                    assert(before[j] == name@);
                }
            }
        }
        sym
    }

    /// Stores `name` in the arena and says where. If the block being filled
    /// lacks room, it is retired and a new one is started, with the least
    /// power of two as capacity that exceeds both the name's length and the
    /// old capacity (the latter counted up to half of `MAX_SIZE` only).
    fn allocate(&mut self, name: &[u8]) -> (slot: Slot)
        requires
            old(self).wf(),
        ensures
            final(self).wf(),
            final(self)@ == old(self)@,
            final(self).slots == old(self).slots,
            slot.fits(final(self).head@, final(self).rest@),
            slot.bytes(final(self).head@, final(self).rest@) == name@,
            old(self).capacity() - old(self).used() >= name@.len() ==> {
                &&& final(self).capacity() == old(self).capacity()
                &&& final(self).retired() == old(self).retired()
                &&& final(self).used() == old(self).used() + name@.len()
            },
            old(self).capacity() - old(self).used() < name@.len() ==> {
                &&& final(self).capacity() == block_size(old(self).capacity(), name@.len())
                &&& final(self).retired() == old(self).retired() + 1
                &&& final(self).used() == name@.len()
            },
            final(self).used() <= final(self).capacity(),
    {
        let ghost before = self@;
        let ghost old_head = self.head@;
        let ghost old_rest = self.rest@;
        let cap = self.head_cap;
        if name.len() > cap - self.head.len() {
            let new_cap = next_block_size(cap, name.len());
            let mut old = Vec::with_capacity(new_cap);
            core::mem::swap(&mut self.head, &mut old);
            self.rest.push(old);
            self.head_cap = new_cap;
            proof {
                assert forall|i: int| 0 <= i < self.slots@.len() implies (#[trigger] self.slots@[i]).fits(
                    self.head@,
                    self.rest@,
                ) && self.slots@[i].bytes(self.head@, self.rest@) == self.slots@[i].bytes(
                    old_head,
                    old_rest,
                ) by {
                    assert(self.slots@[i].fits(old_head, old_rest));
                }
                assert(self@ =~= before);
            }
        }
        let ghost mid_head = self.head@;
        let start = self.head.len();
        self.head.extend_from_slice(name);
        let slot = Slot { block: self.rest.len(), start, len: name.len() };
        proof {
            assert forall|i: int| 0 <= i < self.slots@.len() implies (#[trigger] self.slots@[i]).fits(
                self.head@,
                self.rest@,
            ) && self.slots@[i].bytes(self.head@, self.rest@) == self.slots@[i].bytes(
                mid_head,
                self.rest@,
            ) by {
                assert(self.slots@[i].fits(mid_head, self.rest@));
                if self.slots@[i].block == self.rest@.len() {
                    assert(self.head@.subrange(
                        self.slots@[i].start as int,
                        self.slots@[i].start + self.slots@[i].len,
                    ) =~= mid_head.subrange(
                        self.slots@[i].start as int,
                        self.slots@[i].start + self.slots@[i].len,
                    ));
                }
            }
            assert(self@ =~= before);
            assert(slot.bytes(self.head@, self.rest@) =~= name@);
        }
        slot
    }

    /// Whether the string of `a` sorts before that of `b`. The order is that
    /// of the bytes, not of the handles.
    pub fn less(&self, a: Sym, b: Sym) -> (r: bool)
        requires
            self.wf(),
            a.0 < self@.len(),
            b.0 < self@.len(),
        ensures
            r == bytes_less(self@[a.0 as int], self@[b.0 as int]),
    {
        if a.0 == b.0 {
            proof {
                lemma_bytes_less_connected(self@[a.0 as int], self@[b.0 as int]);
            }
            return false;
        }
        let x = self.lookup(a);
        let y = self.lookup(b);
        let mut k: usize = 0;
        assert(x@.skip(0) =~= x@ && y@.skip(0) =~= y@);
        loop
            invariant
                k <= x@.len(),
                k <= y@.len(),
                a.0 < self@.len(),
                b.0 < self@.len(),
                x@ == self@[a.0 as int],
                y@ == self@[b.0 as int],
                bytes_less(x@, y@) == bytes_less(x@.skip(k as int), y@.skip(k as int)),
            decreases x@.len() - k,
        {
            if k >= y.len() {
                assert(y@.skip(k as int).len() == 0);
                return false;
            }
            if k >= x.len() {
                assert(x@.skip(k as int).len() == 0);
                return true;
            }
            assert(x@.skip(k as int)[0] == x@[k as int]);
            assert(y@.skip(k as int)[0] == y@[k as int]);
            if x[k] != y[k] {
                return x[k] < y[k];
            }
            proof {
                assert(x@.skip(k as int).drop_first() =~= x@.skip(k + 1));
                assert(y@.skip(k as int).drop_first() =~= y@.skip(k + 1));
            }
            k += 1;
        }
    }
}

/// The capacity of the block that replaces one of capacity `cap` when a
/// name of `len` bytes does not fit: the least power of two above both `len`
/// and `cap`, the latter counted up to half of `MAX_SIZE` only; `usize::MAX`
/// where no such power fits the machine word.
pub open spec fn block_size(cap: nat, len: nat) -> nat {
    let floor = if cap < MAX_SIZE / 2 {
        cap
    } else {
        (MAX_SIZE / 2) as nat
    };
    let need = if floor < len {
        len
    } else {
        floor
    };
    power_above(1, need)
}

/// The least of `p`, `2p`, `4p`, ... that exceeds `need`, capped at
/// `usize::MAX`.
pub open spec fn power_above(p: nat, need: nat) -> nat
    decreases usize::MAX - p,
{
    if p > need {
        p
    } else if p == 0 || 2 * p > usize::MAX {
        usize::MAX as nat
    } else {
        power_above(2 * p, need)
    }
}

fn next_block_size(cap: usize, len: usize) -> (size: usize)
    ensures
        size == block_size(cap as nat, len as nat),
        size >= len,
{
    let floor = if cap < MAX_SIZE / 2 {
        cap
    } else {
        MAX_SIZE / 2
    };
    let need = if floor < len {
        len
    } else {
        floor
    };
    let mut p: usize = 1;
    while p <= need && p <= usize::MAX / 2
        invariant
            p >= 1,
            power_above(p as nat, need as nat) == power_above(1, need as nat),
        decreases usize::MAX - p,
    {
        p = 2 * p;
    }
    if p > need {
        p
    } else {
        usize::MAX
    }
}

/// Interning is idempotent, and a handle leads back to the string it was
/// issued for: interning `name` a second time changes nothing and yields the
/// same handle, and at that handle the table holds `name`.
pub proof fn lemma_intern_idempotent(names: Seq<Seq<u8>>, name: Seq<u8>)
    requires
        distinct(names),
    ensures
        distinct(interned(names, name)),
        interned(interned(names, name), name) == interned(names, name),
        index_of(interned(interned(names, name), name), name) == index_of(
            interned(names, name),
            name,
        ),
        0 <= index_of(interned(names, name), name) < interned(names, name).len(),
        interned(names, name)[index_of(interned(names, name), name)] == name,
{
    let once = interned(names, name);
    if names.contains(name) {
        lemma_index_of_range(names, name);
    } else {
        lemma_index_of_absent(names, name);
        assert(once[names.len() as int] == name);
        assert(once.contains(name));
        assert forall|i: int, j: int|
            0 <= i < once.len() && 0 <= j < once.len() && #[trigger] once[i]
                == #[trigger] once[j] implies i == j by {
            if i < names.len() && j < names.len() {
                assert(names[i] == names[j]);
            } else if i < names.len() {
                assert(names[i] == name);
            } else if j < names.len() {
                assert(names[j] == name);
            }
        }
    }
}

/// Interning never disturbs what was interned before: every handle issued
/// earlier still stands for the same string.
pub proof fn lemma_intern_keeps(names: Seq<Seq<u8>>, name: Seq<u8>, i: int)
    requires
        0 <= i < names.len(),
    ensures
        i < interned(names, name).len(),
        interned(names, name)[i] == names[i],
{
}

/// Of two different strings one sorts before the other, and not both ways.
pub proof fn lemma_bytes_less_connected(a: Seq<u8>, b: Seq<u8>)
    ensures
        a != b ==> bytes_less(a, b) != bytes_less(b, a),
        a == b ==> !bytes_less(a, b),
    decreases a.len(),
{
    if a.len() == 0 || b.len() == 0 {
        if a.len() == 0 && b.len() == 0 {
            assert(a =~= b);
        }
    } else if a[0] == b[0] {
        lemma_bytes_less_connected(a.drop_first(), b.drop_first());
        if a.drop_first() == b.drop_first() {
            assert(a =~= seq![a[0]] + a.drop_first());
            assert(b =~= seq![b[0]] + b.drop_first());
        }
    }
}

/// The order of the strings is transitive.
pub proof fn lemma_bytes_less_transitive(a: Seq<u8>, b: Seq<u8>, c: Seq<u8>)
    requires
        bytes_less(a, b),
        bytes_less(b, c),
    ensures
        bytes_less(a, c),
    decreases a.len(),
{
    if a.len() > 0 && a[0] == b[0] && b[0] == c[0] {
        lemma_bytes_less_transitive(a.drop_first(), b.drop_first(), c.drop_first());
    }
}

} // verus!
