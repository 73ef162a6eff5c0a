//! The builder: a byte buffer written from its end backward, a scratch
//! vtable for the object under construction, and a pool of emitted vtables.
use vstd::prelude::*;

use crate::codec::{
    le_bytes_u16, le_bytes_u32, lemma_u16_round_trip, lemma_u32_round_trip, Scalar,
};
use crate::table::{
    entry_at, i32_at, lemma_offset_of_entry, slot_entry, spec_child, spec_get, u16_at, u32_at,
    vtable_ok, vtable_pos, ReadError,
};

verus! {

/// Largest number of committed bytes a builder holds.
pub const MAX_SIZE: usize = 0x3fff_0000;

/// Largest number of field slots one object can have.
pub const MAX_FIELDS: u16 = 32765;

/// Why a build step was refused.
#[derive(Clone, Copy, Debug, PartialEq, Eq, Structural)]
pub enum BuildError {
    /// No object is open for field writes.
    NotOpen,
    /// An object is already under construction.
    AlreadyOpen,
    /// The field id is beyond the object's declared field count.
    SlotOutOfRange,
    /// More fields were declared than a vtable can describe.
    TooManyFields,
    /// The object's bytes exceed what a vtable offset can address.
    ObjectTooLarge,
    /// A referenced object has not been written to this buffer.
    BadReference,
    /// The buffer would outgrow its largest size.
    TooLarge,
}

/// The `n` bytes that start `dist` bytes before the end of `d`.
pub open spec fn at(d: Seq<u8>, dist: int, n: int) -> Seq<u8> {
    d.subrange(d.len() - dist, d.len() - dist + n)
}

/// `n` zero bytes.
fn zero_bytes(n: usize) -> (r: Vec<u8>)
    ensures
        r@ == Seq::new(n as nat, |i: int| 0u8),
{
    let mut v: Vec<u8> = Vec::with_capacity(n);
    while v.len() < n
        invariant
            v@.len() <= n,
            forall|i: int| 0 <= i < v@.len() ==> v@[i] == 0u8,
        decreases n - v@.len(),
    {
        v.push(0u8);
    }
    assert(v@ =~= Seq::new(n as nat, |i: int| 0u8));
    v
}

/// `f` is `d` with bytes put in front of it.
pub open spec fn extends(f: Seq<u8>, d: Seq<u8>) -> bool {
    &&& d.len() <= f.len()
    &&& f.subrange(f.len() - d.len(), f.len() as int) == d
}

/// Zero padding that brings `len + additional` to a multiple of `align`.
pub open spec fn pad_for(len: int, additional: int, align: int) -> int {
    (align - (len + additional) % align) % align
}

pub proof fn lemma_extends_at(f: Seq<u8>, d: Seq<u8>, dist: int, n: int)
    requires
        extends(f, d),
        0 <= n <= dist <= d.len(),
    ensures
        at(f, dist, n) == at(d, dist, n),
{
    assert(at(f, dist, n) =~= f.subrange(f.len() - d.len(), f.len() as int).subrange(
        d.len() - dist,
        d.len() - dist + n,
    ));
}

pub proof fn lemma_extends_refl(d: Seq<u8>)
    ensures
        extends(d, d),
{
    assert(d.subrange(0, d.len() as int) =~= d);
}

pub proof fn lemma_extends_trans(g: Seq<u8>, f: Seq<u8>, d: Seq<u8>)
    requires
        extends(g, f),
        extends(f, d),
    ensures
        extends(g, d),
{
    assert(g.subrange(g.len() - d.len(), g.len() as int) =~= g.subrange(
        g.len() - f.len(),
        g.len() as int,
    ).subrange(f.len() - d.len(), f.len() as int));
}

/// The vtable entry of a field written at distance `a`, for a table whose
/// header sits at distance `t`; zero for an unset slot.
pub open spec fn slot_rel(a: u32, t: int) -> int {
    if a == 0 {
        0
    } else {
        t - a
    }
}

/// The table header for a table at distance `t` whose vtable sits at
/// distance `vd`: the signed displacement `vd - t`, little-endian.
pub open spec fn header_bytes(vd: int, t: int) -> Seq<u8> {
    le_bytes_u32(((vd - t) as i32) as u32)
}

/// What finishing an object puts in front of `rest`: its vtable `cand` and
/// then a header pointing at it, where the pool holds no equal vtable; else
/// only a header pointing at the pooled one.
pub open spec fn finished_layout(
    data: Seq<u8>,
    rest: Seq<u8>,
    pool: Seq<Seq<u8>>,
    dists: Seq<int>,
    cand: Seq<u8>,
    t: int,
) -> bool {
    if forall|i: int| 0 <= i < pool.len() ==> pool[i] != cand {
        data == cand + header_bytes(t + cand.len(), t) + rest
    } else {
        exists|i: int|
            0 <= i < pool.len() && pool[i] == cand && data == header_bytes(dists[i], t) + rest
    }
}

/// The bytes of the vtable that describes `slots` for a table at distance
/// `t` whose object spans `obj_size` bytes.
pub open spec fn vtable_bytes(slots: Seq<u32>, t: int, obj_size: int) -> Seq<u8> {
    le_bytes_u16((4 + 2 * slots.len()) as u16) + le_bytes_u16(obj_size as u16) + Seq::new(
        2 * slots.len(),
        |k: int| le_bytes_u16(slot_rel(slots[k / 2], t) as u16)[k % 2],
    )
}

/// Reading the entries of a vtable laid down as `vtable_bytes` gives back
/// each slot's relative offset.
pub proof fn lemma_vtable_read(f: Seq<u8>, vt: int, slots: Seq<u32>, t: int, obj_size: int)
    requires
        slots.len() <= MAX_FIELDS,
        0 <= vt,
        vt + 4 + 2 * slots.len() <= f.len(),
        f.subrange(vt, vt + 4 + 2 * slots.len()) == vtable_bytes(slots, t, obj_size),
        forall|i: int| 0 <= i < slots.len() ==> 0 <= #[trigger] slot_rel(slots[i], t) <= 0xffff,
    ensures
        u16_at(f, vt) == 4 + 2 * slots.len(),
        forall|i: int|
            0 <= i < slots.len() ==> u16_at(f, vt + slot_entry(i)) == #[trigger] slot_rel(slots[i], t),
{
    let vb = vtable_bytes(slots, t, obj_size);
    let n = slots.len();
    lemma_u16_round_trip((4 + 2 * n) as u16);
    assert(f.subrange(vt, vt + 2) =~= vb.subrange(0, 2));
    assert(vb.subrange(0, 2) =~= le_bytes_u16((4 + 2 * n) as u16));
    assert forall|i: int| 0 <= i < slots.len() implies u16_at(f, vt + slot_entry(i))
        == #[trigger] slot_rel(slots[i], t) by {
        let rel = slot_rel(slots[i], t) as u16;
        lemma_u16_round_trip(rel);
        assert((2 * i) / 2 == i && (2 * i + 1) / 2 == i && (2 * i) % 2 == 0 && (2 * i + 1) % 2
            == 1);
        assert(vb[4 + 2 * i] == le_bytes_u16(rel)[0]);
        assert(vb[4 + 2 * i + 1] == le_bytes_u16(rel)[1]);
        assert(f.subrange(vt + 4 + 2 * i, vt + 4 + 2 * i + 2) =~= le_bytes_u16(rel));
    }
}

/// The table whose header sits `t` bytes before the end of `f` has a well
/// formed vtable whose entries are the relative offsets of `slots`, and no
/// entry for any later slot.
pub open spec fn table_matches(f: Seq<u8>, t: int, slots: Seq<u32>) -> bool {
    let pos = f.len() - t;
    &&& vtable_ok(f, pos)
    &&& forall|slot: int|
        0 <= slot < slots.len() ==> #[trigger] entry_at(f, pos, slot) == slot_rel(slots[slot], t)
    &&& forall|slot: int| slot >= slots.len() ==> #[trigger] entry_at(f, pos, slot) == 0
}

pub proof fn lemma_table_of_vtable(f: Seq<u8>, t: int, vd: int, slots: Seq<u32>, obj_size: int)
    requires
        slots.len() <= MAX_FIELDS,
        4 <= t <= f.len(),
        4 + 2 * slots.len() <= vd <= f.len(),
        i32_at(f, f.len() - t) == vd - t,
        at(f, vd, 4 + 2 * slots.len() as int) == vtable_bytes(slots, t, obj_size),
        forall|i: int| 0 <= i < slots.len() ==> 0 <= #[trigger] slot_rel(slots[i], t) <= 0xffff,
    ensures
        table_matches(f, t, slots),
{
    let pos = f.len() - t;
    let vt = f.len() - vd;
    assert(vtable_pos(f, pos) == vt);
    lemma_vtable_read(f, vt, slots, t, obj_size);
    assert forall|slot: int| 0 <= slot < slots.len() implies #[trigger] entry_at(f, pos, slot)
        == slot_rel(slots[slot], t) by {}
    assert forall|slot: int| slot >= slots.len() implies #[trigger] entry_at(f, pos, slot) == 0 by {}
}

/// Compares two byte vectors.
fn same_bytes(a: &Vec<u8>, b: &Vec<u8>) -> (r: bool)
    ensures
        r == (a@ == b@),
{
    if a.len() != b.len() {
        return false;
    }
    let mut i: usize = 0;
    while i < a.len()
        invariant
            a@.len() == b@.len(),
            i <= a@.len(),
            forall|k: int| 0 <= k < i ==> a@[k] == b@[k],
        decreases a@.len() - i,
    {
        if a[i] != b[i] {
            return false;
        }
        i = i + 1;
    }
    assert(a@ =~= b@);
    true
}

/// One build session: the backward-growing buffer, the slots of the object
/// under construction, and the vtables emitted so far.
pub struct Builder {
    buffer: Vec<u8>,
    head: usize,
    slots: Vec<u32>,
    vtables: Vec<(usize, Vec<u8>)>,
    min_align: usize,
    force_defaults: bool,
    open: bool,
    object_start: usize,
    written: Ghost<Map<int, Seq<u8>>>,
}

impl Builder {
    /// The committed bytes, from the write head to the end of the buffer.
    pub closed spec fn data(&self) -> Seq<u8> {
        self.buffer@.subrange(self.head as int, self.buffer@.len() as int)
    }

    /// Room left in front of the committed bytes before the buffer must grow.
    pub closed spec fn free_space(&self) -> nat {
        self.head as nat
    }

    /// Field distances of the object under construction; zero marks an unset slot.
    pub closed spec fn slots(&self) -> Seq<u32> {
        self.slots@
    }

    /// The encoded value of each set slot of the object under construction.
    pub closed spec fn written(&self) -> Map<int, Seq<u8>> {
        self.written@
    }

    /// Contents of the emitted vtables, in the order they were emitted.
    pub closed spec fn pool(&self) -> Seq<Seq<u8>> {
        self.vtables@.map_values(|e: (usize, Vec<u8>)| e.1@)
    }

    /// Distance from the buffer end of each emitted vtable.
    pub closed spec fn pool_dists(&self) -> Seq<int> {
        self.vtables@.map_values(|e: (usize, Vec<u8>)| e.0 as int)
    }

    /// The largest alignment any write has asked for so far.
    pub closed spec fn min_align(&self) -> nat {
        self.min_align as nat
    }

    /// Whether values equal to their default are written anyway.
    pub closed spec fn force_defaults(&self) -> bool {
        self.force_defaults
    }

    /// Whether an object is under construction.
    pub closed spec fn is_open(&self) -> bool {
        self.open
    }

    /// Size of the committed bytes when the current object was opened.
    pub closed spec fn object_start(&self) -> int {
        self.object_start as int
    }

    /// The committed bytes fit, every set slot and every pooled vtable lies
    /// inside them with the bytes recorded for it, and no vtable is pooled twice.
    pub closed spec fn wf(&self) -> bool {
        &&& self.head <= self.buffer@.len()
        &&& self.data().len() <= MAX_SIZE
        &&& (self.min_align == 1 || self.min_align == 2 || self.min_align == 4
            || self.min_align == 8)
        &&& self.slots@.len() <= MAX_FIELDS
        &&& self.open ==> self.object_start <= self.data().len()
        &&& self.open ==> forall|i: int|
            0 <= i < self.slots@.len() && self.slots@[i] != 0 ==> self.object_start
                < self.slots@[i] <= self.data().len()
        &&& forall|i: int|
            #![trigger self.written@.dom().contains(i)]
            self.written@.dom().contains(i) ==> {
                &&& 0 <= i < self.slots@.len()
                &&& self.slots@[i] != 0
                &&& self.written@[i].len() <= self.slots@[i] <= self.data().len()
                &&& at(self.data(), self.slots@[i] as int, self.written@[i].len() as int)
                    == self.written@[i]
            }
        &&& forall|i: int|
            #![trigger self.vtables@[i]]
            0 <= i < self.vtables@.len() ==> {
                &&& self.vtables@[i].1@.len() <= self.vtables@[i].0 <= self.data().len()
                &&& at(self.data(), self.vtables@[i].0 as int, self.vtables@[i].1@.len() as int)
                    == self.vtables@[i].1@
            }
        &&& forall|i: int, j: int|
            0 <= i < j < self.vtables@.len() ==> self.vtables@[i].1@ != self.vtables@[j].1@
    }

    /// An empty builder with room for 1024 bytes before it grows.
    pub fn new() -> (r: Builder)
        ensures
            r.wf(),
            r.data() == Seq::<u8>::empty(),
            r.free_space() == 1024,
            r.slots() == Seq::<u32>::empty(),
            r.written() == Map::<int, Seq<u8>>::empty(),
            r.pool() == Seq::<Seq<u8>>::empty(),
            !r.is_open(),
            !r.force_defaults(),
            r.min_align() == 1,
    {
        Builder::with_buffer_capacity(1024)
    }

    /// An empty builder with room for `capacity` bytes before it grows.
    pub fn with_buffer_capacity(capacity: usize) -> (r: Builder)
        ensures
            r.wf(),
            r.data() == Seq::<u8>::empty(),
            r.free_space() == capacity,
            r.slots() == Seq::<u32>::empty(),
            r.written() == Map::<int, Seq<u8>>::empty(),
            r.pool() == Seq::<Seq<u8>>::empty(),
            !r.is_open(),
            !r.force_defaults(),
            r.min_align() == 1,
    {
        let mut buffer: Vec<u8> = Vec::with_capacity(capacity);
        while buffer.len() < capacity
            invariant
                buffer@.len() <= capacity,
            decreases capacity - buffer@.len(),
        {
            buffer.push(0u8);
        }
        Builder::with_buffer(buffer)
    }

    /// A builder that writes into `buffer`, whose bytes all become free space.
    pub fn with_buffer(buffer: Vec<u8>) -> (r: Builder)
        ensures
            r.wf(),
            r.data() == Seq::<u8>::empty(),
            r.free_space() == buffer@.len(),
            r.slots() == Seq::<u32>::empty(),
            r.written() == Map::<int, Seq<u8>>::empty(),
            r.pool() == Seq::<Seq<u8>>::empty(),
            !r.is_open(),
            !r.force_defaults(),
            r.min_align() == 1,
    {
        let c = buffer.len();
        let r = Builder {
            buffer: buffer,
            head: c,
            slots: Vec::new(),
            vtables: Vec::new(),
            min_align: 1,
            force_defaults: false,
            open: false,
            object_start: 0,
            written: Ghost(Map::empty()),
        };
        assert(r.data() =~= Seq::<u8>::empty());
        assert(r.pool() =~= Seq::<Seq<u8>>::empty());
        r
    }

    /// Number of committed bytes.
    pub fn size(&self) -> (r: usize)
        requires
            self.wf(),
        ensures
            r == self.data().len(),
    {
        self.buffer.len() - self.head
    }

    /// Whether fields equal to their default are still written.
    pub fn set_force_defaults(&mut self, force: bool)
        requires
            old(self).wf(),
        ensures
            final(self).force_defaults() == force,
            final(self).data() == old(self).data(),
            final(self).wf(),
            final(self).pool() == old(self).pool(),
            final(self).slots() == old(self).slots(),
            final(self).written() == old(self).written(),
            final(self).is_open() == old(self).is_open(),
            final(self).min_align() == old(self).min_align(),
    {
        self.force_defaults = force;
    }

    /// Moves the committed bytes to the end of a larger buffer with at least
    /// `n` bytes free in front of them.
    fn grow(&mut self, n: usize)
        requires
            old(self).wf(),
            old(self).data().len() + n <= MAX_SIZE,
        ensures
            final(self).wf(),
            final(self).free_space() >= n,
            final(self).data() == old(self).data(),
            final(self).slots() == old(self).slots(),
            final(self).written() == old(self).written(),
            final(self).vtables == old(self).vtables,
            final(self).min_align == old(self).min_align,
            final(self).force_defaults == old(self).force_defaults,
            final(self).open == old(self).open,
            final(self).object_start == old(self).object_start,
    {
        let size = self.buffer.len() - self.head;
        let new_len = 2 * (size + n) + 64;
        let free = new_len - size;
        let mut nb: Vec<u8> = Vec::with_capacity(new_len);
        while nb.len() < free
            invariant
                nb@.len() <= free,
            decreases free - nb@.len(),
        {
            nb.push(0u8);
        }
        let mut i = self.head;
        while i < self.buffer.len()
            invariant
                self.head <= i <= self.buffer@.len(),
                nb@.len() == free + (i - self.head),
                nb@.subrange(free as int, nb@.len() as int) == self.buffer@.subrange(
                    self.head as int,
                    i as int,
                ),
            decreases self.buffer@.len() - i,
        {
            let ghost prev = nb@;
            nb.push(self.buffer[i]);
            assert(nb@.subrange(free as int, nb@.len() as int) =~= self.buffer@.subrange(
                self.head as int,
                i + 1,
            )) by {
                assert(prev.subrange(free as int, prev.len() as int) =~= self.buffer@.subrange(
                    self.head as int,
                    i as int,
                ));
            }
            i = i + 1;
        }
        let ghost old_data = self.data();
        self.buffer = nb;
        self.head = free;
        assert(self.data() =~= old_data);
    }

    /// Puts `bytes` in front of the committed bytes.
    fn push_bytes(&mut self, bytes: &Vec<u8>) -> (r: Result<(), BuildError>)
        requires
            old(self).wf(),
        ensures
            r is Ok <==> old(self).data().len() + bytes@.len() <= MAX_SIZE,
            r is Ok ==> final(self).data() == bytes@ + old(self).data(),
            r is Err ==> final(self).data() == old(self).data(),
            r is Err ==> r == Err::<(), BuildError>(BuildError::TooLarge),
            final(self).wf(),
            final(self).slots() == old(self).slots(),
            final(self).written() == old(self).written(),
            final(self).vtables == old(self).vtables,
            final(self).min_align == old(self).min_align,
            final(self).force_defaults == old(self).force_defaults,
            final(self).open == old(self).open,
            final(self).object_start == old(self).object_start,
    {
        let n = bytes.len();
        let size = self.buffer.len() - self.head;
        if n > MAX_SIZE - size {
            return Err(BuildError::TooLarge);
        }
        let ghost old_data = self.data();
        if self.head < n {
            self.grow(n);
        }
        let start = self.head - n;
        let ghost pre = *self;
        let mut i: usize = 0;
        while i < n
            invariant
                pre.wf(),
                self.slots == pre.slots,
                self.written == pre.written,
                self.vtables == pre.vtables,
                self.min_align == pre.min_align,
                self.force_defaults == pre.force_defaults,
                self.open == pre.open,
                self.object_start == pre.object_start,
                pre.data() == old_data,
                self.head >= n,
                start == self.head - n,
                i <= n,
                n == bytes@.len(),
                self.head <= self.buffer@.len(),
                self.data() == old_data,
                forall|j: int| 0 <= j < i ==> self.buffer@[start + j] == bytes@[j],
            decreases n - i,
        {
            let ghost prev = self.buffer@;
            self.buffer.set(start + i, bytes[i]);
            assert(self.data() =~= prev.subrange(self.head as int, prev.len() as int));
            i = i + 1;
        }
        proof {
            let whole = self.buffer@.subrange(start as int, self.buffer@.len() as int);
            assert(whole =~= bytes@ + old_data);
        }
        self.head = start;
        proof {
            let d = self.data();
            assert(extends(d, old_data)) by {
                assert(d.subrange(d.len() - old_data.len(), d.len() as int) =~= old_data);
            }
            assert forall|k: int| #![trigger self.written@.dom().contains(k)]
                self.written@.dom().contains(k) implies at(d, self.slots@[k] as int,
                self.written@[k].len() as int) == self.written@[k] by {
                lemma_extends_at(d, old_data, self.slots@[k] as int, self.written@[k].len() as int);
            }
            assert forall|k: int| #![trigger self.vtables@[k]]
                0 <= k < self.vtables@.len() implies at(d, self.vtables@[k].0 as int,
                self.vtables@[k].1@.len() as int) == self.vtables@[k].1@ by {
                lemma_extends_at(d, old_data, self.vtables@[k].0 as int,
                    self.vtables@[k].1@.len() as int);
            }
        }
        Ok(())
    }

    /// Pads with zeros so that, once `additional` more bytes are written, the
    /// committed size is a multiple of `size`; raises the buffer's alignment,
    /// and grows the buffer ahead so that `size + additional` bytes fit.
    pub fn prep(&mut self, size: u32, additional: u32) -> (r: Result<(), BuildError>)
        requires
            old(self).wf(),
            size == 1 || size == 2 || size == 4 || size == 8,
        ensures
            final(self).wf(),
            final(self).min_align() == if size > old(self).min_align() {
                size as nat
            } else {
                old(self).min_align()
            },
            ({
                let pad = pad_for(old(self).data().len() as int, additional as int, size as int);
                &&& r is Ok <==> old(self).data().len() + pad <= MAX_SIZE
                &&& r is Ok ==> final(self).data() == Seq::new(pad as nat, |i: int| 0u8) + old(self).data()
                &&& r is Ok ==> (final(self).data().len() + additional) % (size as int) == 0
                &&& r is Ok && final(self).data().len() + size + additional <= MAX_SIZE
                    ==> final(self).free_space() >= size + additional
                &&& r is Err ==> r == Err::<(), BuildError>(BuildError::TooLarge) && final(self).data() == old(self).data()
            }),
            final(self).slots() == old(self).slots(),
            final(self).written() == old(self).written(),
            final(self).pool() == old(self).pool(),
            final(self).pool_dists() == old(self).pool_dists(),
            final(self).force_defaults() == old(self).force_defaults(),
            final(self).is_open() == old(self).is_open(),
            final(self).object_start() == old(self).object_start(),
    {
        if size as usize > self.min_align {
            self.min_align = size as usize;
        }
        let len = (self.buffer.len() - self.head) as u64;
        let rem = (len + additional as u64) % (size as u64);
        let pad = ((size as u64 - rem) % (size as u64)) as usize;
        let zeros = zero_bytes(pad);
        let r = self.push_bytes(&zeros);
        let need: u64 = size as u64 + additional as u64;
        if r.is_ok() && (self.buffer.len() - self.head) as u64 + need <= MAX_SIZE as u64
            && (self.head as u64) < need {
            self.grow(need as usize);
        }
        proof {
            if r is Ok {
                let l = old(self).data().len() as int;
                let a = additional as int;
                let z = size as int;
                assert((l + pad + a) % z == 0) by (nonlinear_arith)
                    requires
                        pad == (z - (l + a) % z) % z,
                        z > 0,
                        l >= 0,
                        a >= 0,
                {
                    assert((l + a) % z + pad == z || (l + a) % z + pad == 0) by (nonlinear_arith)
                        requires
                            pad == (z - (l + a) % z) % z,
                            z > 0,
                            0 <= (l + a) % z < z,
                    ;
                }
            }
        }
        r
    }

    /// Opens an object with `num_fields` slots, all unset.
    pub fn object(&mut self, num_fields: u16) -> (r: Result<(), BuildError>)
        requires
            old(self).wf(),
        ensures
            final(self).wf(),
            final(self).data() == old(self).data(),
            final(self).free_space() == old(self).free_space(),
            final(self).pool() == old(self).pool(),
            final(self).pool_dists() == old(self).pool_dists(),
            final(self).force_defaults() == old(self).force_defaults(),
            final(self).min_align() == old(self).min_align(),
            old(self).is_open() ==> r == Err::<(), BuildError>(BuildError::AlreadyOpen),
            !old(self).is_open() && num_fields > MAX_FIELDS ==> r == Err::<(), BuildError>(
                BuildError::TooManyFields,
            ),
            r is Err ==> *final(self) == *old(self),
            !old(self).is_open() && num_fields <= MAX_FIELDS ==> {
                &&& r is Ok
                &&& final(self).is_open()
                &&& final(self).slots() == Seq::new(num_fields as nat, |i: int| 0u32)
                &&& final(self).written() == Map::<int, Seq<u8>>::empty()
                &&& final(self).object_start() == old(self).data().len()
            },
    {
        if self.open {
            return Err(BuildError::AlreadyOpen);
        }
        if num_fields > MAX_FIELDS {
            return Err(BuildError::TooManyFields);
        }
        let mut slots: Vec<u32> = Vec::with_capacity(num_fields as usize);
        while slots.len() < num_fields as usize
            invariant
                slots@.len() <= num_fields,
                forall|i: int| 0 <= i < slots@.len() ==> slots@[i] == 0u32,
            decreases num_fields - slots@.len(),
        {
            slots.push(0u32);
        }
        assert(slots@ =~= Seq::new(num_fields as nat, |i: int| 0u32));
        self.slots = slots;
        self.written = Ghost(Map::empty());
        self.object_start = self.buffer.len() - self.head;
        self.open = true;
        Ok(())
    }

    /// Prepends `bytes`, already aligned, as the value of `slot`.
    fn put_field(&mut self, slot: u16, bytes: &Vec<u8>) -> (r: Result<(), BuildError>)
        requires
            old(self).wf(),
            old(self).is_open(),
            slot < old(self).slots().len(),
            0 < bytes@.len(),
        ensures
            final(self).wf(),
            r is Ok <==> old(self).data().len() + bytes@.len() <= MAX_SIZE,
            r is Ok ==> {
                &&& final(self).data() == bytes@ + old(self).data()
                &&& final(self).slots() == old(self).slots().update(
                    slot as int,
                    final(self).data().len() as u32,
                )
                &&& final(self).written() == old(self).written().insert(slot as int, bytes@)
            },
            r is Err ==> r == Err::<(), BuildError>(BuildError::TooLarge) && final(self).data()
                == old(self).data() && final(self).slots() == old(self).slots() && final(self).written() == old(self).written(),
            final(self).pool() == old(self).pool(),
            final(self).pool_dists() == old(self).pool_dists(),
            final(self).force_defaults() == old(self).force_defaults(),
            final(self).min_align() == old(self).min_align(),
            final(self).is_open() == old(self).is_open(),
            final(self).object_start() == old(self).object_start(),
    {
        self.push_bytes(bytes)?;
        let a = self.buffer.len() - self.head;
        self.slots.set(slot as usize, a as u32);
        self.written = Ghost(self.written@.insert(slot as int, bytes@));
        proof {
            assert(at(self.data(), a as int, bytes@.len() as int) =~= bytes@);
        }
        Ok(())
    }

    /// Writes `value` into `slot`, aligned to its width; a value equal to
    /// `default` is left out, and the call changes nothing, unless defaults
    /// are forced.
    pub fn add<T: Scalar>(&mut self, slot: u16, value: T, default: T) -> (r: Result<(), BuildError>)
        requires
            old(self).wf(),
        ensures
            final(self).wf(),
            extends(final(self).data(), old(self).data()),
            final(self).pool() == old(self).pool(),
            final(self).pool_dists() == old(self).pool_dists(),
            final(self).force_defaults() == old(self).force_defaults(),
            final(self).is_open() == old(self).is_open(),
            final(self).object_start() == old(self).object_start(),
            !old(self).is_open() ==> r == Err::<(), BuildError>(BuildError::NotOpen),
            old(self).is_open() && slot >= old(self).slots().len() ==> r == Err::<(), BuildError>(
                BuildError::SlotOutOfRange,
            ),
            old(self).is_open() && slot < old(self).slots().len() && !old(self).force_defaults()
                && value == default ==> {
                &&& r is Ok
                &&& *final(self) == *old(self)
            },
            old(self).is_open() && slot < old(self).slots().len() && (old(self).force_defaults()
                || value != default) ==> {
                let pad = pad_for(old(self).data().len() as int, 0, T::width() as int);
                let end = old(self).data().len() + pad + T::width();
                &&& r is Ok <==> end <= MAX_SIZE
                &&& r is Err ==> r == Err::<(), BuildError>(BuildError::TooLarge)
                &&& r is Ok ==> {
                    &&& final(self).data() == value.encode() + Seq::new(pad as nat, |i: int| 0u8)
                        + old(self).data()
                    &&& final(self).data().len() == end
                    &&& end % (T::width() as int) == 0
                    &&& final(self).slots() == old(self).slots().update(slot as int, end as u32)
                    &&& final(self).written() == old(self).written().insert(
                        slot as int,
                        value.encode(),
                    )
                    &&& final(self).min_align() >= T::width()
                }
            },
    {
        proof {
            lemma_extends_refl(old(self).data());
        }
        if !self.open {
            return Err(BuildError::NotOpen);
        }
        if slot as usize >= self.slots.len() {
            return Err(BuildError::SlotOutOfRange);
        }
        if !self.force_defaults && value.same(&default) {
            return Ok(());
        }
        proof {
            T::lemma_codec(value);
        }
        let w = T::size();
        let r = self.prep(w as u32, 0);
        if r.is_err() {
            proof {
                assert(self.data().subrange(0, self.data().len() as int) =~= self.data());
            }
            return r;
        }
        let ghost padded = self.data();
        let bytes = value.to_le_vec();
        let r = self.put_field(slot, &bytes);
        proof {
            let d = self.data();
            if r is Ok {
                let z = Seq::new((padded.len() - old(self).data().len()) as nat, |i: int| 0u8);
                assert(d =~= value.encode() + z + old(self).data());
                let x = padded.len() as int;
                let ww = T::width() as int;
                assert((x + ww) % ww == 0) by (nonlinear_arith)
                    requires
                        x % ww == 0,
                        ww > 0,
                ;
                assert(d.subrange(d.len() - old(self).data().len(), d.len() as int)
                    =~= old(self).data());
            } else {
                assert(padded.subrange(padded.len() - old(self).data().len(), padded.len() as int)
                    =~= old(self).data());
            }
        }
        r
    }

    /// Writes into `slot` a reference to the finished object at distance
    /// `child` from the buffer end.
    pub fn add_offset(&mut self, slot: u16, child: u32) -> (r: Result<(), BuildError>)
        requires
            old(self).wf(),
        ensures
            final(self).wf(),
            extends(final(self).data(), old(self).data()),
            final(self).pool() == old(self).pool(),
            final(self).pool_dists() == old(self).pool_dists(),
            final(self).force_defaults() == old(self).force_defaults(),
            final(self).is_open() == old(self).is_open(),
            final(self).object_start() == old(self).object_start(),
            !old(self).is_open() ==> r == Err::<(), BuildError>(BuildError::NotOpen),
            old(self).is_open() && slot >= old(self).slots().len() ==> r == Err::<(), BuildError>(
                BuildError::SlotOutOfRange,
            ),
            old(self).is_open() && slot < old(self).slots().len() && (child == 0 || child > old(self).data().len()) ==> r == Err::<(), BuildError>(BuildError::BadReference),
            old(self).is_open() && slot < old(self).slots().len() && 0 < child <= old(self).data().len() ==> {
                let pad = pad_for(old(self).data().len() as int, 0, 4);
                let end = old(self).data().len() + pad + 4;
                &&& r is Ok <==> end <= MAX_SIZE
                &&& r is Err ==> r == Err::<(), BuildError>(BuildError::TooLarge)
                &&& r is Ok ==> {
                    &&& final(self).data() == le_bytes_u32((end - child) as u32) + Seq::new(
                        pad as nat,
                        |i: int| 0u8,
                    ) + old(self).data()
                    &&& final(self).data().len() == end
                    &&& end % 4 == 0
                    &&& final(self).slots() == old(self).slots().update(slot as int, end as u32)
                    &&& final(self).written() == old(self).written().insert(
                        slot as int,
                        crate::codec::le_bytes_u32((end - child) as u32),
                    )
                }
            },
    {
        proof {
            lemma_extends_refl(old(self).data());
        }
        if !self.open {
            return Err(BuildError::NotOpen);
        }
        if slot as usize >= self.slots.len() {
            return Err(BuildError::SlotOutOfRange);
        }
        if child == 0 || child as usize > self.buffer.len() - self.head {
            proof {
                assert(self.data().subrange(0, self.data().len() as int) =~= self.data());
            }
            return Err(BuildError::BadReference);
        }
        let r = self.prep(4, 0);
        if r.is_err() {
            proof {
                assert(self.data().subrange(0, self.data().len() as int) =~= self.data());
            }
            return r;
        }
        let ghost padded = self.data();
        let end = self.buffer.len() - self.head + 4;
        let rel: u32 = (end - child as usize) as u32;
        let bytes = rel.to_le_vec();
        let r = self.put_field(slot, &bytes);
        proof {
            let d = self.data();
            if r is Ok {
                let z = Seq::new((padded.len() - old(self).data().len()) as nat, |i: int| 0u8);
                assert(d =~= bytes@ + z + old(self).data());
                assert(d.subrange(d.len() - old(self).data().len(), d.len() as int)
                    =~= old(self).data());
            } else {
                assert(padded.subrange(padded.len() - old(self).data().len(), padded.len() as int)
                    =~= old(self).data());
            }
        }
        r
    }

    /// Number of vtables emitted so far.
    pub fn vtable_count(&self) -> (r: usize)
        ensures
            r == self.pool().len(),
    {
        self.vtables.len()
    }

    /// Where in the pool a vtable equal to `cand` was emitted, if any.
    fn find_vtable(&self, cand: &Vec<u8>) -> (r: Option<usize>)
        ensures
            r matches Some(i) ==> i < self.vtables@.len() && self.vtables@[i as int].1@ == cand@,
            r is None ==> forall|i: int| 0 <= i < self.vtables@.len() ==> self.vtables@[i].1@ != cand@,
    {
        let mut i: usize = 0;
        while i < self.vtables.len()
            invariant
                i <= self.vtables@.len(),
                forall|k: int| 0 <= k < i ==> self.vtables@[k].1@ != cand@,
            decreases self.vtables@.len() - i,
        {
            if same_bytes(&self.vtables[i].1, cand) {
                return Some(i);
            }
            i = i + 1;
        }
        None
    }

    /// The bytes of the vtable describing the open object's slots.
    fn build_vtable(&self, t: usize, obj_size: usize) -> (r: Vec<u8>)
        requires
            self.slots@.len() <= MAX_FIELDS,
            forall|i: int| 0 <= i < self.slots@.len() && self.slots@[i] != 0 ==> self.slots@[i] < t,
            t <= MAX_SIZE,
            obj_size <= 0xffff,
        ensures
            r@ == vtable_bytes(self.slots@, t as int, obj_size as int),
    {
        let n = self.slots.len();
        let ghost spec_bytes = vtable_bytes(self.slots@, t as int, obj_size as int);
        let vsize: u16 = (4 + 2 * n) as u16;
        let osize: u16 = obj_size as u16;
        let mut v: Vec<u8> = Vec::with_capacity(4 + 2 * n);
        v.push(vsize as u8);
        v.push((vsize >> 8u16) as u8);
        v.push(osize as u8);
        v.push((osize >> 8u16) as u8);
        let mut i: usize = 0;
        while i < n
            invariant
                n == self.slots@.len(),
                n <= MAX_FIELDS,
                i <= n,
                vsize == 4 + 2 * n,
                osize == obj_size,
                obj_size <= 0xffff,
                spec_bytes == vtable_bytes(self.slots@, t as int, obj_size as int),
                spec_bytes.len() == 4 + 2 * n,
                v@.len() == 4 + 2 * i,
                forall|k: int| 0 <= k < v@.len() ==> v@[k] == spec_bytes[k],
                forall|i: int| 0 <= i < self.slots@.len() && self.slots@[i] != 0 ==> self.slots@[i] < t,
            decreases n - i,
        {
            let a = self.slots[i];
            let rel: u16 = if a == 0 {
                0
            } else {
                (t - a as usize) as u16
            };
            assert(rel == slot_rel(self.slots@[i as int], t as int) as u16);
            assert((2 * i) / 2 == i && (2 * i + 1) / 2 == i && (2 * i) % 2 == 0 && (2 * i + 1) % 2
                == 1);
            proof {
                let head = le_bytes_u16(vsize) + le_bytes_u16(osize);
                let body = Seq::new(
                    2 * self.slots@.len(),
                    |k: int| le_bytes_u16(slot_rel(self.slots@[k / 2], t as int) as u16)[k % 2],
                );
                assert(spec_bytes =~= head + body);
                assert(body[2 * i as int] == rel as u8);
                assert(body[2 * i + 1] == (rel >> 8u16) as u8);
                assert(spec_bytes[4 + 2 * i] == body[2 * i as int]);
                assert(spec_bytes[4 + 2 * i + 1] == body[2 * i + 1]);
            }
            v.push(rel as u8);
            v.push((rel >> 8u16) as u8);
            i = i + 1;
        }
        assert(v@ =~= spec_bytes);
        v
    }

    /// Prepends the header of a table whose vtable sits `vd` bytes before
    /// the buffer end.
    fn put_header(&mut self, vd: usize) -> (t: usize)
        requires
            old(self).wf(),
            old(self).data().len() + 4 <= MAX_SIZE,
            vd <= MAX_SIZE,
        ensures
            final(self).wf(),
            t == old(self).data().len() + 4,
            final(self).data().len() == t,
            final(self).data() == header_bytes(vd as int, t as int) + old(self).data(),
            extends(final(self).data(), old(self).data()),
            i32_at(final(self).data(), 0) == vd - t,
            final(self).slots() == old(self).slots(),
            final(self).written() == old(self).written(),
            final(self).vtables == old(self).vtables,
            final(self).min_align == old(self).min_align,
            final(self).force_defaults == old(self).force_defaults,
            final(self).open == old(self).open,
            final(self).object_start == old(self).object_start,
    {
        let t = self.buffer.len() - self.head + 4;
        let disp: i32 = (vd as i32) - (t as i32);
        let header = disp.to_le_vec();
        proof {
            <i32 as Scalar>::lemma_codec(disp);
        }
        let ghost d0 = self.data();
        let _ = self.push_bytes(&header);
        proof {
            let f = self.data();
            assert(f.subrange(0, 4) =~= header@);
            assert(f.subrange(f.len() - d0.len(), f.len() as int) =~= d0);
        }
        t
    }

    /// Emits the vtable of the open object, or finds an equal one in the
    /// pool, then the table header at distance `t`.
    fn emit_table(&mut self, t: usize, obj_size: usize)
        requires
            old(self).wf(),
            old(self).is_open(),
            old(self).data().len() + 4 == t,
            t % 4 == 0,
            t + 4 + 2 * old(self).slots().len() <= MAX_SIZE,
            obj_size == t - old(self).object_start(),
            obj_size <= 0xffff,
        ensures
            final(self).wf(),
            extends(final(self).data(), old(self).data()),
            final(self).force_defaults() == old(self).force_defaults(),
            final(self).min_align() == old(self).min_align(),
            final(self).is_open(),
            final(self).object_start() == old(self).object_start(),
            final(self).slots() == old(self).slots(),
            table_matches(final(self).data(), t as int, old(self).slots()),
            ({
                let cand = vtable_bytes(old(self).slots(), t as int, obj_size as int);
                let fresh = forall|i: int|
                    0 <= i < old(self).pool().len() ==> old(self).pool()[i] != cand;
                &&& fresh ==> final(self).pool() == old(self).pool().push(cand)
                &&& !fresh ==> final(self).pool() == old(self).pool()
                &&& final(self).data().len() == t + if fresh {
                    cand.len()
                } else {
                    0
                }
                &&& cand.len() == 4 + 2 * old(self).slots().len()
                &&& finished_layout(
                    final(self).data(),
                    old(self).data(),
                    old(self).pool(),
                    old(self).pool_dists(),
                    cand,
                    t as int,
                )
            }),
    {
        let n = self.slots.len();
        let ghost d1 = self.data();
        let ghost slots0 = self.slots@;
        let cand = self.build_vtable(t, obj_size);
        let ghost vsize = 4 + 2 * n;
        proof {
            assert forall|i: int| 0 <= i < slots0.len() implies 0 <= #[trigger] slot_rel(
                slots0[i],
                t as int,
            ) <= 0xffff by {}
        }
        match self.find_vtable(&cand) {
            Some(i) => {
                let vd = self.vtables[i].0;
                let _ = self.put_header(vd);
                proof {
                    let f = self.data();
                    lemma_extends_at(f, d1, vd as int, vsize);
                    lemma_table_of_vtable(f, t as int, vd as int, slots0, obj_size as int);
                    assert(self.pool() =~= old(self).pool());
                    assert(old(self).pool()[i as int] == cand@);
                    assert(old(self).pool_dists()[i as int] == vd);
                    assert(0 <= i < old(self).pool().len() && old(self).pool()[i as int] == cand@
                        && f == header_bytes(old(self).pool_dists()[i as int], t as int) + d1);
                    assert(finished_layout(f, d1, old(self).pool(), old(self).pool_dists(), cand@, t as int));
                }
            },
            None => {
                let _ = self.put_header(t + 4 + 2 * n);
                let ghost d2 = self.data();
                let _ = self.push_bytes(&cand);
                self.vtables.push((t + 4 + 2 * n, cand));
                proof {
                    let f = self.data();
                    assert(f =~= cand@ + d2);
                    assert(cand@.len() == vsize);
                    assert(f =~= cand@ + header_bytes(t + vsize, t as int) + d1);
                    assert(f.subrange(vsize, f.len() as int) =~= d2);
                    assert(f.subrange(f.len() - d2.len(), f.len() as int) =~= d2);
                    assert(i32_at(f, vsize) == i32_at(d2, 0));
                    assert(at(f, t + vsize, vsize) =~= cand@);
                    lemma_extends_trans(f, d2, d1);
                    lemma_table_of_vtable(f, t as int, t + vsize, slots0, obj_size as int);
                    assert(self.pool() =~= old(self).pool().push(cand@));
                    assert forall|i: int| 0 <= i < old(self).pool().len() implies old(self).pool()[i]
                        != cand@ by {
                        assert(old(self).pool()[i] == old(self).vtables@[i].1@);
                    }
                }
            },
        }
    }

    /// Closes the open object: emits its vtable, or reuses an equal one
    /// emitted before, then the table header. Returns the table's distance
    /// from the buffer end.
    pub fn finish_object(&mut self) -> (r: Result<u32, BuildError>)
        requires
            old(self).wf(),
        ensures
            final(self).wf(),
            extends(final(self).data(), old(self).data()),
            final(self).force_defaults() == old(self).force_defaults(),
            r is Err ==> *final(self) == *old(self),
            !old(self).is_open() ==> r == Err::<u32, BuildError>(BuildError::NotOpen),
            old(self).is_open() ==> {
                let len = old(self).data().len() as int;
                let t = len + pad_for(len, 0, 4) + 4;
                let n = old(self).slots().len();
                let cand = vtable_bytes(old(self).slots(), t, t - old(self).object_start());
                let fresh = forall|i: int|
                    0 <= i < old(self).pool().len() ==> old(self).pool()[i] != cand;
                &&& t + 4 + 2 * n > MAX_SIZE ==> r == Err::<u32, BuildError>(BuildError::TooLarge)
                &&& t + 4 + 2 * n <= MAX_SIZE && t - old(self).object_start() > 0xffff ==> r
                    == Err::<u32, BuildError>(BuildError::ObjectTooLarge)
                &&& t + 4 + 2 * n <= MAX_SIZE && t - old(self).object_start() <= 0xffff ==> {
                    &&& r == Ok::<u32, BuildError>(t as u32)
                    &&& !final(self).is_open()
                    &&& t % 4 == 0
                    &&& final(self).min_align() >= 4
                    &&& table_matches(final(self).data(), t, old(self).slots())
                    &&& forall|slot: int|
                        #![trigger old(self).written().dom().contains(slot)]
                        old(self).written().dom().contains(slot) ==> 0 < slot_rel(
                            old(self).slots()[slot],
                            t,
                        )
                    &&& final(self).slots() == old(self).slots()
                    &&& fresh ==> final(self).pool() == old(self).pool().push(cand)
                    &&& !fresh ==> final(self).pool() == old(self).pool()
                    &&& final(self).data().len() == t + if fresh {
                        4 + 2 * n
                    } else {
                        0
                    }
                    &&& finished_layout(
                        final(self).data(),
                        Seq::new(pad_for(len, 0, 4) as nat, |i: int| 0u8) + old(self).data(),
                        old(self).pool(),
                        old(self).pool_dists(),
                        cand,
                        t,
                    )
                }
            },
    {
        proof {
            lemma_extends_refl(old(self).data());
        }
        if !self.open {
            return Err(BuildError::NotOpen);
        }
        let len = self.buffer.len() - self.head;
        let pad = (4 - len % 4) % 4;
        let n = self.slots.len();
        let t = len + pad + 4;
        if t + 4 + 2 * n > MAX_SIZE {
            return Err(BuildError::TooLarge);
        }
        if t - self.object_start > 0xffff {
            return Err(BuildError::ObjectTooLarge);
        }
        let obj_size = t - self.object_start;
        let ghost d0 = self.data();
        let _ = self.prep(4, 0);
        let ghost d1 = self.data();
        assert(d1.subrange(d1.len() - d0.len(), d1.len() as int) =~= d0);
        self.emit_table(t, obj_size);
        assert(pad == pad_for(d0.len() as int, 0, 4));
        self.open = false;
        self.written = Ghost(Map::empty());
        proof {
            lemma_extends_trans(self.data(), d1, d0);
        }
        Ok(t as u32)
    }

    /// Pads the front so the whole buffer meets the largest alignment any
    /// field asked for, writes the root reference first, and hands out the
    /// finished bytes.
    pub fn finish(&mut self, root: u32) -> (r: Result<Vec<u8>, BuildError>)
        requires
            old(self).wf(),
        ensures
            final(self).wf(),
            extends(final(self).data(), old(self).data()),
            r is Err ==> final(self).data() == old(self).data(),
            old(self).is_open() ==> r == Err::<Vec<u8>, BuildError>(BuildError::AlreadyOpen),
            !old(self).is_open() && (root == 0 || root > old(self).data().len()) ==> r == Err::<
                Vec<u8>,
                BuildError,
            >(BuildError::BadReference),
            !old(self).is_open() && 0 < root <= old(self).data().len() ==> {
                let len = old(self).data().len() as int;
                let align = if old(self).min_align() < 4 {
                    4
                } else {
                    old(self).min_align() as int
                };
                let end = len + pad_for(len, 4, align) + 4;
                &&& r is Ok <==> end <= MAX_SIZE
                &&& r is Err ==> r == Err::<Vec<u8>, BuildError>(BuildError::TooLarge)
                &&& r matches Ok(v) ==> {
                    &&& v@ == final(self).data()
                    &&& v@ == le_bytes_u32((end - root) as u32) + Seq::new(
                        pad_for(len, 4, align) as nat,
                        |i: int| 0u8,
                    ) + old(self).data()
                    &&& v@.len() == end
                    &&& end % align == 0
                    &&& u32_at(v@, 0) == end - root
                }
            },
    {
        proof {
            lemma_extends_refl(old(self).data());
        }
        if self.open {
            return Err(BuildError::AlreadyOpen);
        }
        let len = self.buffer.len() - self.head;
        if root == 0 || root as usize > len {
            return Err(BuildError::BadReference);
        }
        let align: usize = if self.min_align < 4 {
            4
        } else {
            self.min_align
        };
        let pad = (align - (len + 4) % align) % align;
        if len + pad + 4 > MAX_SIZE {
            return Err(BuildError::TooLarge);
        }
        let ghost d0 = self.data();
        let _ = self.prep(align as u32, 4);
        let ghost d1 = self.data();
        assert(d1.subrange(d1.len() - d0.len(), d1.len() as int) =~= d0);
        let end = self.buffer.len() - self.head + 4;
        let rel: u32 = (end - root as usize) as u32;
        let bytes = rel.to_le_vec();
        proof {
            lemma_u32_round_trip(rel);
        }
        let _ = self.push_bytes(&bytes);
        proof {
            let f = self.data();
            assert(f.subrange(0, 4) =~= bytes@);
            assert(f.subrange(f.len() - d1.len(), f.len() as int) =~= d1);
            lemma_extends_trans(f, d1, d0);
            assert(pad == pad_for(d0.len() as int, 4, align as int));
            assert(f =~= bytes@ + Seq::new(pad as nat, |i: int| 0u8) + d0);
        }
        let mut out: Vec<u8> = Vec::with_capacity(end);
        let mut i = self.head;
        while i < self.buffer.len()
            invariant
                self.head <= i <= self.buffer@.len(),
                out@ == self.buffer@.subrange(self.head as int, i as int),
            decreases self.buffer@.len() - i,
        {
            out.push(self.buffer[i]);
            assert(out@ =~= self.buffer@.subrange(self.head as int, i + 1));
            i = i + 1;
        }
        Ok(out)
    }
}

/// A table read after its buffer grew further at the front still has the
/// same vtable entries.
pub proof fn lemma_table_matches_extends(d: Seq<u8>, f: Seq<u8>, t: int, slots: Seq<u32>)
    requires
        table_matches(d, t, slots),
        extends(f, d),
    ensures
        table_matches(f, t, slots),
        forall|slot: int|
            slot >= 0 ==> #[trigger] entry_at(f, f.len() - t, slot) == entry_at(d, d.len() - t, slot),
{
    let pd = d.len() - t;
    let pf = f.len() - t;
    lemma_extends_at(f, d, t, 4);
    assert(f.subrange(pf, pf + 4) == at(f, t, 4));
    assert(d.subrange(pd, pd + 4) == at(d, t, 4));
    let vd = d.len() - vtable_pos(d, pd);
    assert(vtable_pos(f, pf) == f.len() - vd);
    lemma_extends_at(f, d, vd, 2);
    assert(f.subrange(f.len() - vd, f.len() - vd + 2) == at(f, vd, 2));
    assert(d.subrange(d.len() - vd, d.len() - vd + 2) == at(d, vd, 2));
    assert forall|slot: int| slot >= 0 implies #[trigger] entry_at(f, pf, slot) == entry_at(d, pd, slot) by {
        if slot_entry(slot) < u16_at(d, d.len() - vd) {
            let e = slot_entry(slot);
            lemma_extends_at(f, d, vd - e, 2);
            assert(f.subrange(f.len() - vd + e, f.len() - vd + e + 2) == at(f, vd - e, 2));
            assert(d.subrange(d.len() - vd + e, d.len() - vd + e + 2) == at(d, vd - e, 2));
        }
    }
}

/// A field that an open object wrote, read through the table that
/// `finish_object` made of it, in any buffer that ends with those bytes,
/// gives back the value written.
pub proof fn lemma_round_trip<T: Scalar>(
    b: Builder,
    done: Seq<u8>,
    t: int,
    f: Seq<u8>,
    slot: int,
    v: T,
    default: T,
)
    requires
        b.wf(),
        b.written().dom().contains(slot),
        b.written()[slot] == v.encode(),
        table_matches(done, t, b.slots()),
        0 < slot_rel(b.slots()[slot], t),
        extends(done, b.data()),
        extends(f, done),
    ensures
        spec_get(f, f.len() - t, slot, default) == Ok::<T, ReadError>(v),
{
    T::lemma_codec(v);
    lemma_table_matches_extends(done, f, t, b.slots());
    let a = b.slots()[slot] as int;
    let w = T::width() as int;
    let pos = f.len() - t;
    lemma_offset_of_entry(f, pos, slot);
    lemma_extends_trans(f, done, b.data());
    lemma_extends_at(f, b.data(), a, w);
    assert(f.subrange(pos + (t - a), pos + (t - a) + w) == at(f, a, w));
}

/// A slot left unset, or beyond those the writer knew of, reads as the
/// default through the table `finish_object` made.
pub proof fn lemma_absent_reads_default<T: Scalar>(
    done: Seq<u8>,
    t: int,
    slots: Seq<u32>,
    f: Seq<u8>,
    slot: int,
    default: T,
)
    requires
        table_matches(done, t, slots),
        extends(f, done),
        slot >= 0,
        slot >= slots.len() || slots[slot] == 0,
    ensures
        spec_get(f, f.len() - t, slot, default) == Ok::<T, ReadError>(default),
{
    lemma_table_matches_extends(done, f, t, slots);
    lemma_offset_of_entry(f, f.len() - t, slot);
}

/// A reference field that `add_offset` wrote, followed through the finished
/// table, leads to the start of the child object it names.
pub proof fn lemma_child_reference(
    b: Builder,
    done: Seq<u8>,
    t: int,
    f: Seq<u8>,
    slot: int,
    child: int,
)
    requires
        b.wf(),
        b.written().dom().contains(slot),
        0 <= child <= b.slots()[slot],
        b.written()[slot] == le_bytes_u32((b.slots()[slot] - child) as u32),
        table_matches(done, t, b.slots()),
        0 < slot_rel(b.slots()[slot], t),
        extends(done, b.data()),
        extends(f, done),
    ensures
        spec_child(f, f.len() - t, slot) == Ok::<Option<int>, ReadError>(Some(f.len() - child)),
{
    let a = b.slots()[slot] as int;
    lemma_u32_round_trip((a - child) as u32);
    lemma_table_matches_extends(done, f, t, b.slots());
    let pos = f.len() - t;
    lemma_offset_of_entry(f, pos, slot);
    lemma_extends_trans(f, done, b.data());
    lemma_extends_at(f, b.data(), a, 4);
    assert(f.subrange(pos + (t - a), pos + (t - a) + 4) == at(f, a, 4));
}

/// The pool never holds two equal vtables: each distinct layout is emitted
/// once and shared by every object that has it.
pub proof fn lemma_pool_distinct(b: Builder)
    requires
        b.wf(),
    ensures
        forall|i: int, j: int| 0 <= i < j < b.pool().len() ==> b.pool()[i] != b.pool()[j],
{
    assert forall|i: int, j: int| 0 <= i < j < b.pool().len() implies b.pool()[i] != b.pool()[j] by {
        assert(b.pool()[i] == b.vtables@[i].1@);
        assert(b.pool()[j] == b.vtables@[j].1@);
    }
}

} // verus!
