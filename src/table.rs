//! Read-only views over a finished buffer: tables resolve a field through
//! their vtable, structs read fields at fixed offsets.
use vstd::prelude::*;

use crate::codec::{le_u16, le_u32, read_u16, read_u32, Scalar};

verus! {

/// Why a read was refused.
#[derive(Clone, Copy, Debug, PartialEq, Eq, Structural)]
pub enum ReadError {
    /// An offset or size points past the end of the buffer.
    OutOfBounds,
    /// A vtable's recorded size is below its header or not a whole number of slots.
    MalformedVTable,
}

/// The `u16` stored at `p` in `f`.
pub open spec fn u16_at(f: Seq<u8>, p: int) -> int {
    le_u16(f.subrange(p, p + 2)) as int
}

/// The `u32` stored at `p` in `f`.
pub open spec fn u32_at(f: Seq<u8>, p: int) -> int {
    le_u32(f.subrange(p, p + 4)) as int
}

/// The signed vtable displacement stored at `p` in `f`.
pub open spec fn i32_at(f: Seq<u8>, p: int) -> int {
    le_u32(f.subrange(p, p + 4)) as i32 as int
}

/// Whether `n` bytes starting at `p` lie inside `f`.
pub open spec fn fits(f: Seq<u8>, p: int, n: int) -> bool {
    0 <= p && p + n <= f.len()
}

/// Where the vtable of the table at `pos` lies.
pub open spec fn vtable_pos(f: Seq<u8>, pos: int) -> int {
    pos - i32_at(f, pos)
}

/// Byte position of the entry of `slot` within a vtable.
pub open spec fn slot_entry(slot: int) -> int {
    4 + 2 * slot
}

/// What looking up `slot` in the table at `pos` yields: the field's offset
/// from the table start, `None` where the vtable has no entry for it or the
/// entry is zero.
pub open spec fn spec_offset(f: Seq<u8>, pos: int, slot: int) -> Result<Option<int>, ReadError> {
    let vt = vtable_pos(f, pos);
    if !fits(f, pos, 4) || !fits(f, vt, 2) {
        Err(ReadError::OutOfBounds)
    } else if u16_at(f, vt) < 4 || u16_at(f, vt) % 2 != 0 {
        Err(ReadError::MalformedVTable)
    } else if !fits(f, vt, u16_at(f, vt)) {
        Err(ReadError::OutOfBounds)
    } else if slot_entry(slot) >= u16_at(f, vt) {
        Ok(None)
    } else if u16_at(f, vt + slot_entry(slot)) == 0 {
        Ok(None)
    } else {
        Ok(Some(u16_at(f, vt + slot_entry(slot))))
    }
}

/// What reading `slot` of the table at `pos` as a `T` yields, with `default`
/// standing for an absent field.
pub open spec fn spec_get<T: Scalar>(f: Seq<u8>, pos: int, slot: int, default: T) -> Result<T, ReadError> {
    match spec_offset(f, pos, slot) {
        Err(e) => Err(e),
        Ok(None) => Ok(default),
        Ok(Some(o)) => if fits(f, pos + o, T::width() as int) {
            Ok(T::decode(f.subrange(pos + o, pos + o + T::width())))
        } else {
            Err(ReadError::OutOfBounds)
        },
    }
}

/// Where the object that `slot` of the table at `pos` refers to starts.
pub open spec fn spec_child(f: Seq<u8>, pos: int, slot: int) -> Result<Option<int>, ReadError> {
    match spec_offset(f, pos, slot) {
        Err(e) => Err(e),
        Ok(None) => Ok(None),
        Ok(Some(o)) => if fits(f, pos + o, 4) && pos + o + u32_at(f, pos + o) <= f.len() {
            Ok(Some(pos + o + u32_at(f, pos + o)))
        } else {
            Err(ReadError::OutOfBounds)
        },
    }
}

/// The vtable of the table at `pos` lies inside `f` and is well formed.
pub open spec fn vtable_ok(f: Seq<u8>, pos: int) -> bool {
    let vt = vtable_pos(f, pos);
    &&& fits(f, pos, 4)
    &&& fits(f, vt, 2)
    &&& u16_at(f, vt) >= 4
    &&& u16_at(f, vt) % 2 == 0
    &&& fits(f, vt, u16_at(f, vt))
}

/// The vtable entry of `slot` for the table at `pos`; zero where the vtable
/// is too short to hold one.
pub open spec fn entry_at(f: Seq<u8>, pos: int, slot: int) -> int {
    let vt = vtable_pos(f, pos);
    if slot_entry(slot) < u16_at(f, vt) {
        u16_at(f, vt + slot_entry(slot))
    } else {
        0
    }
}

pub proof fn lemma_offset_of_entry(f: Seq<u8>, pos: int, slot: int)
    requires
        vtable_ok(f, pos),
        slot >= 0,
    ensures
        spec_offset(f, pos, slot) == if entry_at(f, pos, slot) == 0 {
            Ok::<Option<int>, ReadError>(None)
        } else {
            Ok(Some(entry_at(f, pos, slot)))
        },
{
}

/// Where the root reference at the front of a finished buffer points.
pub open spec fn spec_root(f: Seq<u8>) -> Result<int, ReadError> {
    if fits(f, 0, 4) && u32_at(f, 0) <= f.len() {
        Ok(u32_at(f, 0))
    } else {
        Err(ReadError::OutOfBounds)
    }
}

/// The root table of a finished buffer, named by the reference at its front.
pub fn root_table<'a>(data: &'a [u8]) -> (r: Result<Table<'a>, ReadError>)
    ensures
        spec_root(data@) == match r {
            Ok(t) => Ok(t.1 as int),
            Err(e) => Err(e),
        },
        r matches Ok(t) ==> t.0@ == data@,
{
    if data.len() < 4 {
        return Err(ReadError::OutOfBounds);
    }
    let p = read_u32(data, 0) as usize;
    if p > data.len() {
        Err(ReadError::OutOfBounds)
    } else {
        Ok(Table(data, p))
    }
}

/// A table: `(bytes, start)`, the start of one object inside a finished buffer.
pub struct Table<'a>(pub &'a [u8], pub usize);

/// A struct: `(bytes, start)`, a fixed layout with every field present.
pub struct Struct<'a>(pub &'a [u8], pub usize);

impl<'a> Table<'a> {
    pub fn new(data: &'a [u8], pos: usize) -> (r: Table<'a>)
        ensures
            r.0@ == data@,
            r.1 == pos,
    {
        Table(data, pos)
    }

    pub fn pos(&self) -> (r: usize)
        ensures
            r == self.1,
    {
        self.1
    }

    /// Resolves `slot` through the vtable to the field's offset from the table start.
    pub fn offset(&self, slot: u16) -> (r: Result<Option<u16>, ReadError>)
        ensures
            r matches Ok(Some(o)) ==> o > 0 && self.1 + 4 <= self.0@.len(),
            spec_offset(self.0@, self.1 as int, slot as int) == match r {
                Ok(Some(o)) => Ok(Some(o as int)),
                Ok(None) => Ok(None),
                Err(e) => Err(e),
            },
    {
        let data = self.0;
        let pos = self.1;
        let len = data.len();
        let ghost f = data@;
        if pos > len || len - pos < 4 {
            return Err(ReadError::OutOfBounds);
        }
        let disp = read_u32(data, pos) as i32;
        assert(disp as int == i32_at(f, pos as int));
        let vt: usize;
        if disp >= 0 {
            if disp as usize > pos {
                return Err(ReadError::OutOfBounds);
            }
            vt = pos - disp as usize;
        } else {
            let back = (0i64 - disp as i64) as usize;
            if back > len - pos {
                return Err(ReadError::OutOfBounds);
            }
            vt = pos + back;
        }
        assert(vt as int == vtable_pos(f, pos as int));
        if vt > len || len - vt < 2 {
            return Err(ReadError::OutOfBounds);
        }
        let vsize = read_u16(data, vt) as usize;
        if vsize < 4 || vsize % 2 != 0 {
            return Err(ReadError::MalformedVTable);
        }
        if vsize > len - vt {
            return Err(ReadError::OutOfBounds);
        }
        let entry = 4 + 2 * slot as usize;
        if entry >= vsize {
            return Ok(None);
        }
        let o = read_u16(data, vt + entry);
        if o == 0 {
            Ok(None)
        } else {
            Ok(Some(o))
        }
    }

    /// Reads `slot` as a `T`, or `default` where the field is absent.
    pub fn get_with_default<T: Scalar>(&self, slot: u16, default: T) -> (r: Result<T, ReadError>)
        ensures
            r == spec_get(self.0@, self.1 as int, slot as int, default),
    {
        match self.offset(slot) {
            Err(e) => Err(e),
            Ok(None) => Ok(default),
            Ok(Some(o)) => {
                let w = T::size();
                let len = self.0.len();
                if o as usize > len - self.1 {
                    return Err(ReadError::OutOfBounds);
                }
                let p = self.1 + o as usize;
                if len - p < w {
                    Err(ReadError::OutOfBounds)
                } else {
                    Ok(T::read_le(self.0, p))
                }
            },
        }
    }

    /// Reads `slot` as a `T`, or the type's default where the field is absent.
    pub fn get<T: Scalar>(&self, slot: u16) -> (r: Result<T, ReadError>)
        ensures
            r == spec_get(self.0@, self.1 as int, slot as int, T::zero()),
    {
        self.get_with_default(slot, T::default_value())
    }

    /// Follows the reference stored in `slot` to the child table it names.
    pub fn get_table(&self, slot: u16) -> (r: Result<Option<Table<'a>>, ReadError>)
        ensures
            spec_child(self.0@, self.1 as int, slot as int) == match r {
                Ok(Some(t)) => Ok(Some(t.1 as int)),
                Ok(None) => Ok(None),
                Err(e) => Err(e),
            },
            r matches Ok(Some(t)) ==> t.0@ == self.0@,
    {
        match self.offset(slot) {
            Err(e) => Err(e),
            Ok(None) => Ok(None),
            Ok(Some(o)) => {
                let len = self.0.len();
                if o as usize > len - self.1 {
                    return Err(ReadError::OutOfBounds);
                }
                let p = self.1 + o as usize;
                if len - p < 4 {
                    Err(ReadError::OutOfBounds)
                } else {
                    let u = read_u32(self.0, p) as usize;
                    if u > len - p {
                        Err(ReadError::OutOfBounds)
                    } else {
                        Ok(Some(Table(self.0, p + u)))
                    }
                }
            },
        }
    }
}

impl<'a> Struct<'a> {
    pub fn new(data: &'a [u8], pos: usize) -> (r: Struct<'a>)
        ensures
            r.0@ == data@,
            r.1 == pos,
    {
        Struct(data, pos)
    }

    /// Reads the `T` at `field_offset` bytes from the struct's start.
    pub fn get<T: Scalar>(&self, field_offset: usize) -> (r: Result<T, ReadError>)
        ensures
            fits(self.0@, self.1 + field_offset, T::width() as int) ==> r == Ok::<T, ReadError>(
                T::decode(self.0@.subrange(self.1 + field_offset, self.1 + field_offset + T::width())),
            ),
            !fits(self.0@, self.1 + field_offset, T::width() as int) ==> r == Err::<T, ReadError>(
                ReadError::OutOfBounds,
            ),
    {
        let len = self.0.len();
        let w = T::size();
        if self.1 > len || field_offset > len - self.1 || len - self.1 - field_offset < w {
            Err(ReadError::OutOfBounds)
        } else {
            Ok(T::read_le(self.0, self.1 + field_offset))
        }
    }
}

} // verus!
