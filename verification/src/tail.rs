//! Bytes after the data that the reader used change nothing it read: a file with a tail
//! that does not complete a further segment reads as the file without it.
use vstd::prelude::*;
use crate::datatypes::DataType;
use crate::encoding::{bytes_at, u16_at, u32_at, u64_at, u8_at};
use crate::index::{index_of, scan, FileModel};
use crate::segment::{
    initial_reader, lead_in_at, metadata_at, object_at, objects_at, properties_at, property_at, raw_index_at,
    segment_at, text_at, type_at, value_at, ReaderModel,
};

verus! {

/// The bytes and numbers read within `s` read the same from `s2`, which extends `s`.
pub proof fn lemma_prims_extend(s: Seq<u8>, s2: Seq<u8>)
    requires
        s.len() <= s2.len(),
        s2.subrange(0, s.len() as int) == s,
    ensures
        forall|pos: nat, n: nat| #[trigger] bytes_at(s, pos, n) is Ok ==> bytes_at(s2, pos, n) == bytes_at(s, pos, n),
        forall|pos: nat| #[trigger] u8_at(s, pos) is Ok ==> u8_at(s2, pos) == u8_at(s, pos),
        forall|pos: nat| #[trigger] u16_at(s, pos) is Ok ==> u16_at(s2, pos) == u16_at(s, pos),
        forall|pos: nat| #[trigger] u32_at(s, pos) is Ok ==> u32_at(s2, pos) == u32_at(s, pos),
        forall|pos: nat| #[trigger] u64_at(s, pos) is Ok ==> u64_at(s2, pos) == u64_at(s, pos),
{
    assert forall|pos: nat, n: nat| #[trigger] bytes_at(s, pos, n) is Ok implies bytes_at(s2, pos, n) == bytes_at(s, pos, n) by {
        assert forall|k: int| 0 <= k < n implies #[trigger] s2.subrange(pos as int, (pos + n) as int)[k] == s.subrange(pos as int, (pos + n) as int)[k] by {
            assert(s2.subrange(0, s.len() as int)[pos + k] == s[pos + k]);
        }
        assert(s2.subrange(pos as int, (pos + n) as int) =~= s.subrange(pos as int, (pos + n) as int));
    }
    assert forall|pos: nat| #[trigger] u8_at(s, pos) is Ok implies u8_at(s2, pos) == u8_at(s, pos) by {
        assert(s2.subrange(0, s.len() as int)[pos as int] == s[pos as int]);
    }
    assert forall|pos: nat| #[trigger] u16_at(s, pos) is Ok implies u16_at(s2, pos) == u16_at(s, pos) by {
        assert(bytes_at(s, pos, 2) is Ok);
    }
    assert forall|pos: nat| #[trigger] u32_at(s, pos) is Ok implies u32_at(s2, pos) == u32_at(s, pos) by {
        assert(bytes_at(s, pos, 4) is Ok);
    }
    assert forall|pos: nat| #[trigger] u64_at(s, pos) is Ok implies u64_at(s2, pos) == u64_at(s, pos) by {
        assert(bytes_at(s, pos, 8) is Ok);
    }
}

/// A property read within `s` reads the same from `s2`.
pub proof fn lemma_property_extend(s: Seq<u8>, s2: Seq<u8>, pos: nat)
    requires
        s.len() <= s2.len(),
        s2.subrange(0, s.len() as int) == s,
    ensures
        text_at(s, pos) is Ok ==> text_at(s2, pos) == text_at(s, pos),
        type_at(s, pos) is Ok ==> type_at(s2, pos) == type_at(s, pos),
        forall|t: DataType| #[trigger] value_at(s, pos, t) is Ok ==> value_at(s2, pos, t) == value_at(s, pos, t),
        property_at(s, pos) is Ok ==> property_at(s2, pos) == property_at(s, pos),
{
    lemma_prims_extend(s, s2);
    if let Ok((n, p)) = u32_at(s, pos) {
        assert(bytes_at(s, p, n as nat) is Ok ==> bytes_at(s2, p, n as nat) == bytes_at(s, p, n as nat));
    }
    assert forall|t: DataType| #[trigger] value_at(s, pos, t) is Ok implies value_at(s2, pos, t) == value_at(s, pos, t) by {
        if let Ok((n, p)) = u32_at(s, pos) {
            assert(bytes_at(s, p, n as nat) is Ok ==> bytes_at(s2, p, n as nat) == bytes_at(s, p, n as nat));
        }
        if let Ok((f, p)) = u64_at(s, pos) {
            assert(u64_at(s, p) is Ok ==> u64_at(s2, p) == u64_at(s, p));
        }
    }
    if let Ok((k, p)) = text_at(s, pos) {
        if let Ok((c, p2)) = u32_at(s, p) {
            assert(u32_at(s, p) is Ok);
        }
        if let Ok((t, p2)) = type_at(s, p) {
            assert(u32_at(s, p) is Ok);
            if let Ok((n, p3)) = u32_at(s, p2) {
                assert(bytes_at(s, p3, n as nat) is Ok ==> bytes_at(s2, p3, n as nat) == bytes_at(s, p3, n as nat));
            }
            if let Ok((f, p3)) = u64_at(s, p2) {
                assert(u64_at(s, p3) is Ok ==> u64_at(s2, p3) == u64_at(s, p3));
            }
            assert(value_at(s, p2, t) is Ok ==> value_at(s2, p2, t) == value_at(s, p2, t));
        }
    }
}

/// Properties read within `s` read the same from `s2`.
pub proof fn lemma_properties_extend(s: Seq<u8>, s2: Seq<u8>, pos: nat, n: nat)
    requires
        s.len() <= s2.len(),
        s2.subrange(0, s.len() as int) == s,
    ensures
        properties_at(s, pos, n) is Ok ==> properties_at(s2, pos, n) == properties_at(s, pos, n),
    decreases n,
{
    if n > 0 {
        lemma_properties_extend(s, s2, pos, (n - 1) as nat);
        if let Ok((ps, p)) = properties_at(s, pos, (n - 1) as nat) {
            lemma_property_extend(s, s2, p);
        }
    }
}

/// An object read within `s` reads the same from `s2`.
pub proof fn lemma_object_extend(s: Seq<u8>, s2: Seq<u8>, pos: nat)
    requires
        s.len() <= s2.len(),
        s2.subrange(0, s.len() as int) == s,
    ensures
        object_at(s, pos) is Ok ==> object_at(s2, pos) == object_at(s, pos),
{
    lemma_prims_extend(s, s2);
    lemma_property_extend(s, s2, pos);
    if let Ok((path, p)) = text_at(s, pos) {
        if let Ok((rdi, p2)) = u32_at(s, p) {
            lemma_property_extend(s, s2, p2);
            if let Ok((t, p3)) = type_at(s, p2) {
                if let Ok((_d, q)) = u32_at(s, p3) {
                    if let Ok((_c, q2)) = u64_at(s, q) {
                        if let Ok((_t, q3)) = u64_at(s, q2) {
                            assert(u32_at(s, q3) is Ok ==> u32_at(s2, q3) == u32_at(s, q3));
                        }
                    }
                }
                assert(raw_index_at(s, p3, rdi, t) is Ok ==> raw_index_at(s2, p3, rdi, t) == raw_index_at(s, p3, rdi, t));
                if let Ok((_m, pc, p4)) = raw_index_at(s, p3, rdi, t) {
                    lemma_properties_extend(s, s2, p4, pc as nat);
                }
            }
            if let Ok((pc, p3)) = u32_at(s, p2) {
                lemma_properties_extend(s, s2, p3, pc as nat);
            }
        }
    }
}

/// Objects read within `s` read the same from `s2`.
pub proof fn lemma_objects_extend(s: Seq<u8>, s2: Seq<u8>, pos: nat, n: nat)
    requires
        s.len() <= s2.len(),
        s2.subrange(0, s.len() as int) == s,
    ensures
        objects_at(s, pos, n) is Ok ==> objects_at(s2, pos, n) == objects_at(s, pos, n),
    decreases n,
{
    if n > 0 {
        lemma_objects_extend(s, s2, pos, (n - 1) as nat);
        if let Ok((os, p)) = objects_at(s, pos, (n - 1) as nat) {
            lemma_object_extend(s, s2, p);
        }
    }
}

/// A segment read within `s` reads the same from `s2`.
pub proof fn lemma_segment_extend(s: Seq<u8>, s2: Seq<u8>, start: u64, st: ReaderModel)
    requires
        s.len() <= s2.len(),
        s2.subrange(0, s.len() as int) == s,
    ensures
        segment_at(s, start, st) is Ok ==> segment_at(s2, start, st) == segment_at(s, start, st),
{
    lemma_prims_extend(s, s2);
    if let Ok(((mask, version, next, raw), p)) = lead_in_at(s, start as nat) {
        assert(bytes_at(s, start as nat, 4) is Ok);
        if let Ok((n, p2)) = u32_at(s, p) {
            lemma_objects_extend(s, s2, p2, n as nat);
        }
        assert(metadata_at(s, p, mask, st.object_order) is Ok ==> metadata_at(s2, p, mask, st.object_order) == metadata_at(s, p, mask, st.object_order));
    }
}

/// Where the reader stops reading `s` from `pos`: the position and the state of the reader
/// at the segment that it could not read, or that pointed back.
pub open spec fn scan_stop(s: Seq<u8>, pos: u64, st: ReaderModel) -> (u64, ReaderModel)
    decreases u64::MAX - pos,
{
    match segment_at(s, pos, st) {
        Ok((_seg, st2, next)) => if next > pos {
            scan_stop(s, next, st2)
        } else {
            (pos, st)
        },
        Err(_) => (pos, st),
    }
}

/// Bytes added after `s` that leave the segment where reading `s` stopped still unreadable
/// for want of data change nothing that the reader finds from `pos` on.
pub proof fn lemma_scan_extend(s: Seq<u8>, s2: Seq<u8>, pos: u64, st: ReaderModel, f: FileModel)
    requires
        s.len() <= s2.len(),
        s2.subrange(0, s.len() as int) == s,
        segment_at(s, scan_stop(s, pos, st).0, scan_stop(s, pos, st).1) is Err ==>
            segment_at(s2, scan_stop(s, pos, st).0, scan_stop(s, pos, st).1)
                == segment_at(s, scan_stop(s, pos, st).0, scan_stop(s, pos, st).1),
    ensures
        scan(s2, pos, st, f) == scan(s, pos, st, f),
    decreases u64::MAX - pos,
{
    lemma_segment_extend(s, s2, pos, st);
    match segment_at(s, pos, st) {
        Ok((seg, st2, next)) => {
            if next > pos {
                lemma_scan_extend(s, s2, next, st2, crate::index::apply_objects(f, seg.objects));
            }
        },
        Err(_) => {},
    }
}

} // verus!
