use flatbuf::{root_table, BuildError, Builder, ReadError, Struct, Table};

#[test]
fn single_byte_field_layout_is_exact() {
    let mut b = Builder::new();
    b.object(1).unwrap();
    b.add::<u8>(0, 7, 0).unwrap();
    let t = b.finish_object().unwrap();
    assert_eq!(t, 8);
    let buf = b.finish(t).unwrap();
    assert_eq!(
        buf,
        vec![12, 0, 0, 0, 0, 0, 6, 0, 8, 0, 7, 0, 6, 0, 0, 0, 0, 0, 0, 7]
    );
    let root = root_table(&buf).unwrap();
    assert_eq!(root.pos(), 12);
    assert_eq!(root.get::<u8>(0), Ok(7));
}

#[test]
fn three_field_scenario_skips_the_default() {
    let mut b = Builder::new();
    b.object(3).unwrap();
    b.add::<u8>(0, 7, 0).unwrap();
    b.add::<u32>(1, 0, 0).unwrap();
    b.add::<u16>(2, 42, 0).unwrap();
    let t = b.finish_object().unwrap();
    let buf = b.finish(t).unwrap();
    let root = root_table(&buf).unwrap();
    assert!(matches!(root.offset(0), Ok(Some(_))));
    assert_eq!(root.offset(1), Ok(None));
    assert!(matches!(root.offset(2), Ok(Some(_))));
    assert_eq!(root.get::<u8>(0), Ok(7));
    assert_eq!(root.get::<u32>(1), Ok(0));
    assert_eq!(root.get::<u16>(2), Ok(42));
    assert_eq!(b.vtable_count(), 1);
}

#[test]
fn every_scalar_type_round_trips() {
    let mut b = Builder::with_buffer_capacity(0);
    b.object(10).unwrap();
    b.add::<bool>(0, true, false).unwrap();
    b.add::<u8>(1, 200, 0).unwrap();
    b.add::<i8>(2, -5, 0).unwrap();
    b.add::<u16>(3, 60000, 0).unwrap();
    b.add::<i16>(4, -1234, 0).unwrap();
    b.add::<u32>(5, 4_000_000_000, 0).unwrap();
    b.add::<i32>(6, -2_000_000_000, 0).unwrap();
    b.add::<u64>(7, 0x0123_4567_89ab_cdef, 0).unwrap();
    b.add::<i64>(8, i64::MIN, 0).unwrap();
    b.add::<u32>(9, 0, 0).unwrap();
    let t = b.finish_object().unwrap();
    let buf = b.finish(t).unwrap();
    let r = root_table(&buf).unwrap();
    assert_eq!(r.get::<bool>(0), Ok(true));
    assert_eq!(r.get::<u8>(1), Ok(200));
    assert_eq!(r.get::<i8>(2), Ok(-5));
    assert_eq!(r.get::<u16>(3), Ok(60000));
    assert_eq!(r.get::<i16>(4), Ok(-1234));
    assert_eq!(r.get::<u32>(5), Ok(4_000_000_000));
    assert_eq!(r.get::<i32>(6), Ok(-2_000_000_000));
    assert_eq!(r.get::<u64>(7), Ok(0x0123_4567_89ab_cdef));
    assert_eq!(r.get::<i64>(8), Ok(i64::MIN));
    assert_eq!(r.get::<u32>(9), Ok(0));
    assert_eq!(r.offset(9), Ok(None));
    assert_eq!(buf.len() % 8, 0);
}

#[test]
fn non_zero_default_is_left_out() {
    let mut b = Builder::new();
    b.object(1).unwrap();
    b.add::<i32>(0, 17, 17).unwrap();
    let t = b.finish_object().unwrap();
    let buf = b.finish(t).unwrap();
    let r = root_table(&buf).unwrap();
    assert_eq!(r.offset(0), Ok(None));
    assert_eq!(r.get_with_default::<i32>(0, 17), Ok(17));
    assert_eq!(r.get::<i32>(0), Ok(0));
}

#[test]
fn forced_defaults_are_written() {
    let mut b = Builder::new();
    b.set_force_defaults(true);
    b.object(1).unwrap();
    b.add::<u32>(0, 0, 0).unwrap();
    let t = b.finish_object().unwrap();
    let buf = b.finish(t).unwrap();
    let r = root_table(&buf).unwrap();
    assert!(matches!(r.offset(0), Ok(Some(_))));
    assert_eq!(r.get_with_default::<u32>(0, 9), Ok(0));
}

#[test]
fn same_layout_shares_one_vtable() {
    let mut b = Builder::new();
    let mut last = 0;
    for k in 0..3u32 {
        b.object(2).unwrap();
        b.add::<u32>(0, k + 1, 0).unwrap();
        b.add::<u32>(1, k + 5, 0).unwrap();
        last = b.finish_object().unwrap();
    }
    assert_eq!(b.vtable_count(), 1);
    let buf = b.finish(last).unwrap();
    let r = root_table(&buf).unwrap();
    assert_eq!(r.get::<u32>(0), Ok(3));
    assert_eq!(r.get::<u32>(1), Ok(7));
}

#[test]
fn distinct_layouts_get_their_own_vtables() {
    let mut b = Builder::new();
    b.object(2).unwrap();
    b.add::<u32>(0, 1, 0).unwrap();
    b.finish_object().unwrap();
    b.object(2).unwrap();
    b.add::<u32>(1, 1, 0).unwrap();
    b.finish_object().unwrap();
    b.object(2).unwrap();
    b.add::<u32>(0, 1, 0).unwrap();
    b.add::<u32>(1, 1, 0).unwrap();
    b.finish_object().unwrap();
    assert_eq!(b.vtable_count(), 3);
}

#[test]
fn empty_object_gets_a_minimal_vtable() {
    let mut b = Builder::new();
    b.object(0).unwrap();
    let t = b.finish_object().unwrap();
    assert_eq!(b.vtable_count(), 1);
    let buf = b.finish(t).unwrap();
    let r = root_table(&buf).unwrap();
    assert_eq!(r.offset(0), Ok(None));
    assert_eq!(r.get_with_default::<u16>(0, 5), Ok(5));
}

#[test]
fn older_vtable_reads_unknown_field_as_default() {
    let mut b = Builder::new();
    b.object(3).unwrap();
    b.add::<u16>(1, 11, 0).unwrap();
    b.add::<u16>(2, 22, 0).unwrap();
    let t = b.finish_object().unwrap();
    let buf = b.finish(t).unwrap();
    let r = root_table(&buf).unwrap();
    assert_eq!(r.get::<u16>(1), Ok(11));
    assert_eq!(r.get::<u16>(2), Ok(22));
    assert_eq!(r.offset(3), Ok(None));
    assert_eq!(r.get::<u16>(3), Ok(0));
    assert_eq!(r.get_with_default::<u16>(3, 99), Ok(99));
    assert_eq!(r.get::<u16>(0), Ok(0));
}

#[test]
fn fields_are_aligned_from_the_buffer_end() {
    let mut b = Builder::with_buffer_capacity(2);
    b.object(6).unwrap();
    b.add::<u8>(0, 1, 0).unwrap();
    assert_eq!(b.size() % 1, 0);
    b.add::<u64>(1, 2, 0).unwrap();
    assert_eq!(b.size() % 8, 0);
    b.add::<u16>(2, 3, 0).unwrap();
    assert_eq!(b.size() % 2, 0);
    b.add::<i8>(3, 4, 0).unwrap();
    b.add::<u32>(4, 5, 0).unwrap();
    assert_eq!(b.size() % 4, 0);
    b.add::<i64>(5, 6, 0).unwrap();
    assert_eq!(b.size() % 8, 0);
    let t = b.finish_object().unwrap();
    let buf = b.finish(t).unwrap();
    assert_eq!(buf.len() % 8, 0);
    let r = root_table(&buf).unwrap();
    for slot in 1..6u16 {
        let off = r.offset(slot).unwrap().unwrap() as usize;
        let width = [1usize, 8, 2, 1, 4, 8][slot as usize];
        assert_eq!((r.pos() + off) % width, 0);
    }
    assert_eq!(r.get::<u64>(1), Ok(2));
    assert_eq!(r.get::<i64>(5), Ok(6));
}

#[test]
fn nested_reference_leads_to_the_child() {
    let mut b = Builder::new();
    b.object(1).unwrap();
    b.add::<u32>(0, 99, 0).unwrap();
    let c = b.finish_object().unwrap();
    b.object(3).unwrap();
    b.add_offset(0, c).unwrap();
    b.add::<u8>(1, 5, 0).unwrap();
    let p = b.finish_object().unwrap();
    let buf = b.finish(p).unwrap();
    let parent = root_table(&buf).unwrap();
    assert_eq!(parent.get::<u8>(1), Ok(5));
    let child = parent.get_table(0).unwrap().unwrap();
    assert_eq!(child.pos(), buf.len() - c as usize);
    assert_eq!(child.get::<u32>(0), Ok(99));
    assert_eq!(parent.offset(2), Ok(None));
    assert!(matches!(parent.get_table(2), Ok(None)));
}

#[test]
fn reused_buffer_grows_when_full() {
    let mut b = Builder::with_buffer(vec![0u8; 3]);
    b.object(1).unwrap();
    b.add::<u64>(0, 77, 0).unwrap();
    let t = b.finish_object().unwrap();
    let buf = b.finish(t).unwrap();
    assert_eq!(root_table(&buf).unwrap().get::<u64>(0), Ok(77));
}

#[test]
fn misuse_is_rejected() {
    let mut b = Builder::new();
    assert_eq!(b.add::<u8>(0, 1, 0), Err(BuildError::NotOpen));
    assert_eq!(b.add_offset(0, 4), Err(BuildError::NotOpen));
    assert_eq!(b.finish_object(), Err(BuildError::NotOpen));
    assert_eq!(b.object(40000), Err(BuildError::TooManyFields));
    b.object(1).unwrap();
    assert_eq!(b.object(1), Err(BuildError::AlreadyOpen));
    assert_eq!(b.add::<u8>(1, 1, 0), Err(BuildError::SlotOutOfRange));
    assert_eq!(b.add_offset(0, 0), Err(BuildError::BadReference));
    assert_eq!(b.add_offset(0, 1), Err(BuildError::BadReference));
    assert_eq!(b.finish(4), Err(BuildError::AlreadyOpen));
    let t = b.finish_object().unwrap();
    assert_eq!(b.finish(0), Err(BuildError::BadReference));
    assert_eq!(b.finish(t + 100), Err(BuildError::BadReference));
    assert_eq!(b.add::<u8>(0, 1, 0), Err(BuildError::NotOpen));
}

#[test]
fn oversized_object_is_rejected() {
    let mut b = Builder::new();
    b.object(1).unwrap();
    for _ in 0..16384 {
        b.add::<u32>(0, 1, 0).unwrap();
    }
    assert_eq!(b.size(), 65536);
    assert_eq!(b.finish_object(), Err(BuildError::ObjectTooLarge));
}

#[test]
fn corrupt_buffers_are_refused() {
    let short = [1u8, 2];
    assert_eq!(Table::new(&short, 0).offset(0), Err(ReadError::OutOfBounds));
    assert!(root_table(&short).is_err());
    let far = [100u8, 0, 0, 0];
    assert!(root_table(&far).is_err());
    let small_vtable = [2u8, 0, 0, 0, 4, 0, 0, 0];
    assert_eq!(
        Table::new(&small_vtable, 4).offset(0),
        Err(ReadError::MalformedVTable)
    );
    let vtable_outside = [8u8, 0, 0, 0, 0, 0, 0, 0];
    assert_eq!(
        Table::new(&vtable_outside, 0).offset(0),
        Err(ReadError::OutOfBounds)
    );
    let field_outside = [6u8, 0, 8, 0, 200, 0, 6, 0, 0, 0];
    assert_eq!(
        Table::new(&field_outside, 6).get::<u32>(0),
        Err(ReadError::OutOfBounds)
    );
}

#[test]
fn struct_fields_sit_at_fixed_offsets() {
    let data = [1u8, 0, 2, 0, 0, 0, 0xff];
    let s = Struct::new(&data, 0);
    assert_eq!(s.get::<u16>(0), Ok(1));
    assert_eq!(s.get::<u32>(2), Ok(2));
    assert_eq!(s.get::<i8>(6), Ok(-1));
    assert_eq!(s.get::<u32>(4), Err(ReadError::OutOfBounds));
    let inner = Struct::new(&data, 2);
    assert_eq!(inner.get::<u32>(0), Ok(2));
}

#[test]
fn default_add_changes_nothing() {
    let mut b = Builder::new();
    b.object(1).unwrap();
    b.add::<u32>(0, 5, 0).unwrap();
    let s0 = b.size();
    b.add::<u32>(0, 0, 0).unwrap();
    assert_eq!(b.size(), s0);
    let t = b.finish_object().unwrap();
    let buf = b.finish(t).unwrap();
    assert_eq!(root_table(&buf).unwrap().get::<u32>(0), Ok(5));
}

#[test]
fn reused_vtable_costs_no_bytes() {
    let mut b = Builder::new();
    b.object(2).unwrap();
    b.add::<u32>(0, 1, 0).unwrap();
    b.add::<u32>(1, 2, 0).unwrap();
    let first = b.finish_object().unwrap();
    assert_eq!(first, 12);
    assert_eq!(b.size(), 20);
    b.object(2).unwrap();
    b.add::<u32>(0, 3, 0).unwrap();
    b.add::<u32>(1, 4, 0).unwrap();
    let second = b.finish_object().unwrap();
    assert_eq!(second, 32);
    assert_eq!(b.size(), 32);
    let buf = b.finish(second).unwrap();
    assert_eq!(buf.len(), 36);
    let r = root_table(&buf).unwrap();
    assert_eq!(r.get::<u32>(0), Ok(3));
    assert_eq!(r.get::<u32>(1), Ok(4));
}
