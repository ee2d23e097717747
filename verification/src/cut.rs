//! Reading from a file cut short: what `s2` holds within its first `s.len()` bytes reads
//! the same from `s`, and what runs past them fails in `s` for want of data.
use vstd::prelude::*;
use crate::datatypes::{DataType, PropertyModel};
use crate::encoding::{bytes_at, u16_at, u32_at, u64_at, u8_at};
use crate::error::ErrorModel;
use crate::segment::{
    has_new_obj_list, segment_at, ReaderModel, SegmentModel, lead_in_at, object_at, ObjectModel, objects_at, properties_at, property_at, raw_index_at, text_at, type_at, value_at,
};

verus! {

/// `short` is the read from a prefix of length `n` of the data that gave `long`, both
/// starting at `pos`: where `long` succeeds it ends at or after `pos`, and the read from the
/// prefix gives the same where it ends within the prefix, and the end of the data where it
/// starts within the prefix and ends past it.
pub open spec fn cut_read<A>(short: Result<(A, nat), ErrorModel>, long: Result<(A, nat), ErrorModel>, n: nat, pos: nat) -> bool {
    long matches Ok((_v, p)) ==> pos <= p && if p <= n {
        short == long
    } else {
        pos <= n ==> short == Err::<(A, nat), ErrorModel>(ErrorModel::UnexpectedEof)
    }
}

/// Bytes and numbers read from `s`, a prefix of `s2`.
pub proof fn lemma_prims_cut(s: Seq<u8>, s2: Seq<u8>)
    requires
        s.len() <= s2.len(),
        s2.subrange(0, s.len() as int) == s,
    ensures
        forall|pos: nat, k: nat| #[trigger] cut_read(bytes_at(s, pos, k), bytes_at(s2, pos, k), s.len(), pos),
        forall|pos: nat| #[trigger] cut_read(u8_at(s, pos), u8_at(s2, pos), s.len(), pos),
        forall|pos: nat| #[trigger] cut_read(u16_at(s, pos), u16_at(s2, pos), s.len(), pos),
        forall|pos: nat| #[trigger] cut_read(u32_at(s, pos), u32_at(s2, pos), s.len(), pos),
        forall|pos: nat| #[trigger] cut_read(u64_at(s, pos), u64_at(s2, pos), s.len(), pos),
{
    assert forall|pos: nat, k: nat| #[trigger] cut_read(bytes_at(s, pos, k), bytes_at(s2, pos, k), s.len(), pos) by {
        if pos + k <= s.len() {
            assert forall|j: int| 0 <= j < k implies #[trigger] s2.subrange(pos as int, (pos + k) as int)[j]
                == s.subrange(pos as int, (pos + k) as int)[j] by {
                assert(s2.subrange(0, s.len() as int)[pos + j] == s[pos + j]);
            }
            assert(s2.subrange(pos as int, (pos + k) as int) =~= s.subrange(pos as int, (pos + k) as int));
        }
    }
    assert forall|pos: nat| #[trigger] cut_read(u8_at(s, pos), u8_at(s2, pos), s.len(), pos) by {
        if pos < s.len() {
            assert(s2.subrange(0, s.len() as int)[pos as int] == s[pos as int]);
        }
    }
    assert forall|pos: nat| #[trigger] cut_read(u16_at(s, pos), u16_at(s2, pos), s.len(), pos) by {
        assert(cut_read(bytes_at(s, pos, 2), bytes_at(s2, pos, 2), s.len(), pos));
    }
    assert forall|pos: nat| #[trigger] cut_read(u32_at(s, pos), u32_at(s2, pos), s.len(), pos) by {
        assert(cut_read(bytes_at(s, pos, 4), bytes_at(s2, pos, 4), s.len(), pos));
    }
    assert forall|pos: nat| #[trigger] cut_read(u64_at(s, pos), u64_at(s2, pos), s.len(), pos) by {
        assert(cut_read(bytes_at(s, pos, 8), bytes_at(s2, pos, 8), s.len(), pos));
    }
}

/// Texts, type codes and property values read from `s`, a prefix of `s2`.
pub proof fn lemma_value_cut(s: Seq<u8>, s2: Seq<u8>, pos: nat)
    requires
        s.len() <= s2.len(),
        s2.subrange(0, s.len() as int) == s,
    ensures
        cut_read(text_at(s, pos), text_at(s2, pos), s.len(), pos),
        cut_read(type_at(s, pos), type_at(s2, pos), s.len(), pos),
        forall|t: DataType| #[trigger] cut_read(value_at(s, pos, t), value_at(s2, pos, t), s.len(), pos),
{
    lemma_prims_cut(s, s2);
    assert(cut_read(u32_at(s, pos), u32_at(s2, pos), s.len(), pos));
    assert(cut_read(u64_at(s, pos), u64_at(s2, pos), s.len(), pos));
    assert(cut_read(u16_at(s, pos), u16_at(s2, pos), s.len(), pos));
    assert(cut_read(u8_at(s, pos), u8_at(s2, pos), s.len(), pos));
    if let Ok((n, p)) = u32_at(s2, pos) {
        assert(cut_read(bytes_at(s, p, n as nat), bytes_at(s2, p, n as nat), s.len(), p));
    }
    if let Ok((f, p)) = u64_at(s2, pos) {
        assert(cut_read(u64_at(s, p), u64_at(s2, p), s.len(), p));
    }
    assert forall|t: DataType| #[trigger] cut_read(value_at(s, pos, t), value_at(s2, pos, t), s.len(), pos) by {
        match t {
            DataType::String => {},
            DataType::TimeStamp => {},
            _ => {},
        }
    }
}

/// A property read from `s`, a prefix of `s2`.
pub proof fn lemma_property_cut(s: Seq<u8>, s2: Seq<u8>, pos: nat)
    requires
        s.len() <= s2.len(),
        s2.subrange(0, s.len() as int) == s,
    ensures
        cut_read(property_at(s, pos), property_at(s2, pos), s.len(), pos),
{
    lemma_value_cut(s, s2, pos);
    if let Ok((k, p)) = text_at(s2, pos) {
        lemma_value_cut(s, s2, p);
        if let Ok((t, p2)) = type_at(s2, p) {
            lemma_value_cut(s, s2, p2);
            assert(cut_read(value_at(s, p2, t), value_at(s2, p2, t), s.len(), p2));
        }
    }
}

/// Properties read from `s`, a prefix of `s2`.
pub proof fn lemma_properties_cut(s: Seq<u8>, s2: Seq<u8>, pos: nat, n: nat)
    requires
        s.len() <= s2.len(),
        s2.subrange(0, s.len() as int) == s,
    ensures
        cut_read(properties_at(s, pos, n), properties_at(s2, pos, n), s.len(), pos),
    decreases n,
{
    if n > 0 {
        lemma_properties_cut(s, s2, pos, (n - 1) as nat);
        if let Ok((ps, p)) = properties_at(s2, pos, (n - 1) as nat) {
            lemma_property_cut(s, s2, p);
            if let Ok((kv, p2)) = property_at(s2, p) {
                if p2 <= s.len() {
                    assert(properties_at(s, pos, (n - 1) as nat) == Ok::<(Seq<(Seq<char>, PropertyModel)>, nat), ErrorModel>((ps, p)));
                    assert(property_at(s, p) == Ok::<((Seq<char>, PropertyModel), nat), ErrorModel>((kv, p2)));
                } else if p <= s.len() {
                    assert(properties_at(s, pos, (n - 1) as nat) == Ok::<(Seq<(Seq<char>, PropertyModel)>, nat), ErrorModel>((ps, p)));
                }
            }
        }
    }
}

/// `short` is the raw data index read from a prefix of length `n` of the data that gave
/// `long` (see [`cut_read`]).
pub open spec fn cut_read3<A, B>(short: Result<(A, B, nat), ErrorModel>, long: Result<(A, B, nat), ErrorModel>, n: nat, pos: nat) -> bool {
    long matches Ok((_a, _b, p)) ==> pos <= p && if p <= n {
        short == long
    } else {
        pos <= n ==> short == Err::<(A, B, nat), ErrorModel>(ErrorModel::UnexpectedEof)
    }
}

/// A raw data index read from `s`, a prefix of `s2`.
pub proof fn lemma_raw_index_cut(s: Seq<u8>, s2: Seq<u8>, pos: nat, rdi: u32, t: DataType)
    requires
        s.len() <= s2.len(),
        s2.subrange(0, s.len() as int) == s,
    ensures
        cut_read3(raw_index_at(s, pos, rdi, t), raw_index_at(s2, pos, rdi, t), s.len(), pos),
{
    lemma_prims_cut(s, s2);
    assert(cut_read(u32_at(s, pos), u32_at(s2, pos), s.len(), pos));
    if rdi >= 4 {
        assert(cut_read(bytes_at(s, pos, (rdi - 4) as nat), bytes_at(s2, pos, (rdi - 4) as nat), s.len(), pos));
    }
    if let Ok((_d, q)) = u32_at(s2, pos) {
        assert(cut_read(u64_at(s, q), u64_at(s2, q), s.len(), q));
        if let Ok((_c, q2)) = u64_at(s2, q) {
            assert(cut_read(u64_at(s, q2), u64_at(s2, q2), s.len(), q2));
            if let Ok((_t, q3)) = u64_at(s2, q2) {
                assert(cut_read(u32_at(s, q3), u32_at(s2, q3), s.len(), q3));
            }
        }
    }
}

/// An object read from `s`, a prefix of `s2`.
pub proof fn lemma_object_cut(s: Seq<u8>, s2: Seq<u8>, pos: nat)
    requires
        s.len() <= s2.len(),
        s2.subrange(0, s.len() as int) == s,
    ensures
        cut_read(object_at(s, pos), object_at(s2, pos), s.len(), pos),
{
    lemma_prims_cut(s, s2);
    lemma_value_cut(s, s2, pos);
    if let Ok((path, p)) = text_at(s2, pos) {
        assert(cut_read(u32_at(s, p), u32_at(s2, p), s.len(), p));
        if let Ok((rdi, p2)) = u32_at(s2, p) {
            lemma_value_cut(s, s2, p2);
            assert(cut_read(u32_at(s, p2), u32_at(s2, p2), s.len(), p2));
            if let Ok((t, p3)) = type_at(s2, p2) {
                lemma_raw_index_cut(s, s2, p3, rdi, t);
                if let Ok((_m, pc, p4)) = raw_index_at(s2, p3, rdi, t) {
                    lemma_properties_cut(s, s2, p4, pc as nat);
                }
            }
            if let Ok((pc, p3)) = u32_at(s2, p2) {
                lemma_properties_cut(s, s2, p3, pc as nat);
            }
        }
    }
}

/// Objects read from `s`, a prefix of `s2`.
pub proof fn lemma_objects_cut(s: Seq<u8>, s2: Seq<u8>, pos: nat, n: nat)
    requires
        s.len() <= s2.len(),
        s2.subrange(0, s.len() as int) == s,
    ensures
        cut_read(objects_at(s, pos, n), objects_at(s2, pos, n), s.len(), pos),
    decreases n,
{
    if n > 0 {
        lemma_objects_cut(s, s2, pos, (n - 1) as nat);
        if let Ok((os, p)) = objects_at(s2, pos, (n - 1) as nat) {
            lemma_object_cut(s, s2, p);
            if let Ok((o, p2)) = object_at(s2, p) {
                if p2 <= s.len() {
                    assert(objects_at(s, pos, (n - 1) as nat) == Ok::<(Seq<ObjectModel>, nat), ErrorModel>((os, p)));
                    assert(object_at(s, p) == Ok::<(ObjectModel, nat), ErrorModel>((o, p2)));
                } else if p <= s.len() {
                    assert(objects_at(s, pos, (n - 1) as nat) == Ok::<(Seq<ObjectModel>, nat), ErrorModel>((os, p)));
                }
            }
        }
    }
}

/// A segment's lead-in read from `s`, a prefix of `s2`.
pub proof fn lemma_lead_in_cut(s: Seq<u8>, s2: Seq<u8>, pos: nat)
    requires
        s.len() <= s2.len(),
        s2.subrange(0, s.len() as int) == s,
    ensures
        cut_read(lead_in_at(s, pos), lead_in_at(s2, pos), s.len(), pos),
{
    lemma_prims_cut(s, s2);
    assert(cut_read(bytes_at(s, pos, 4), bytes_at(s2, pos, 4), s.len(), pos));
    if let Ok((_t, p)) = bytes_at(s2, pos, 4) {
        assert(cut_read(u32_at(s, p), u32_at(s2, p), s.len(), p));
        if let Ok((_m, p2)) = u32_at(s2, p) {
            assert(cut_read(u32_at(s, p2), u32_at(s2, p2), s.len(), p2));
            if let Ok((_v, p3)) = u32_at(s2, p2) {
                assert(cut_read(u64_at(s, p3), u64_at(s2, p3), s.len(), p3));
                if let Ok((_n, p4)) = u64_at(s2, p3) {
                    assert(cut_read(u64_at(s, p4), u64_at(s2, p4), s.len(), p4));
                }
            }
        }
    }
}

/// Where the lead-in and metadata of the segment at `start` end, as read from `s` (0 where
/// they do not read).
pub open spec fn head_end(s: Seq<u8>, start: nat) -> nat {
    match lead_in_at(s, start) {
        Ok(((mask, _version, _next, _raw), p)) => if has_new_obj_list(mask) {
            match u32_at(s, p) {
                Ok((k, p1)) => match objects_at(s, p1, k as nat) {
                    Ok((_os, p2)) => p2,
                    Err(_) => 0,
                },
                Err(_) => 0,
            }
        } else {
            p
        },
        Err(_) => 0,
    }
}

/// A segment whose lead-in and metadata run past the end of `s`, a prefix of `s2` that
/// holds the segment's start, fails to read from `s` for want of data.
pub proof fn lemma_segment_cut(s: Seq<u8>, s2: Seq<u8>, start: u64, st: ReaderModel)
    requires
        s.len() <= s2.len(),
        s2.subrange(0, s.len() as int) == s,
        start <= s.len(),
        s.len() < head_end(s2, start as nat),
    ensures
        segment_at(s, start, st) == Err::<(SegmentModel, ReaderModel, u64), ErrorModel>(ErrorModel::UnexpectedEof),
{
    lemma_prims_cut(s, s2);
    lemma_lead_in_cut(s, s2, start as nat);
    if let Ok(((mask, _version, _next, _raw), p)) = lead_in_at(s2, start as nat) {
        if p <= s.len() {
            assert(has_new_obj_list(mask));
            assert(cut_read(u32_at(s, p), u32_at(s2, p), s.len(), p));
            if let Ok((k, p1)) = u32_at(s2, p) {
                if p1 <= s.len() {
                    lemma_objects_cut(s, s2, p1, k as nat);
                }
            }
        }
    }
}

} // verus!
