//! One segment of a TDMS file: its lead-in, its object metadata and where its raw data lies.
use vstd::prelude::*;
use vstd::bytes::*;
use vstd::slice::slice_subrange;
use crate::datatypes::{
    type_of_code, type_size, unsupported_code_text, DataType, PropertyModel, PropertyValue,
};
use crate::encoding::{
    agrees, agrees_view, bytes_at, decode_text, read_bytes, read_u16, read_u32, read_u64, read_u8, text_of, u16_at, u32_at,
    u64_at, u8_at,
};
use crate::error::{ErrorModel, TdmsError};
use crate::names::{insert_entry, lookup, NamedMap};

verus! {

/// The lead-in tag that starts every segment.
pub open spec fn tag() -> Seq<u8> {
    seq![0x54u8, 0x44u8, 0x53u8, 0x6du8]
}

/// The bit of the table of contents that announces a new list of objects.
pub open spec fn has_new_obj_list(mask: u32) -> bool {
    mask & 4 != 0
}

/// `a + b`, or `u64::MAX` where the sum does not fit.
pub open spec fn sat_add(a: u64, b: u64) -> u64 {
    if a + b <= u64::MAX {
        (a + b) as u64
    } else {
        u64::MAX
    }
}

/// `a * b`, or `u64::MAX` where the product does not fit.
pub open spec fn sat_mul(a: u64, b: u64) -> u64 {
    if a * b <= u64::MAX {
        (a * b) as u64
    } else {
        u64::MAX
    }
}

/// The description of an object's raw data.
#[derive(Clone, Copy, Debug, PartialEq, Eq, Structural)]
pub struct RawDataMeta {
    pub data_type: DataType,
    pub number_of_values: u64,
    /// For strings: the byte size of the offsets and the text together.
    pub total_size_bytes: Option<u64>,
}

impl View for RawDataMeta {
    type V = RawDataMeta;

    open spec fn view(&self) -> RawDataMeta {
        *self
    }
}

/// Where a run of a channel's values lies in the file.
#[derive(Clone, Copy, Debug, PartialEq, Eq, Structural)]
pub struct DataLocation {
    pub offset: u64,
    pub number_of_values: u64,
}

/// The byte size of the raw data that a description announces.
pub open spec fn raw_size(m: RawDataMeta) -> u64 {
    if m.data_type == DataType::String {
        match m.total_size_bytes {
            Some(t) => t,
            None => sat_mul(m.number_of_values, 4),
        }
    } else {
        sat_mul(type_size(m.data_type) as u64, m.number_of_values)
    }
}

/// An object of a segment as the reader sees it.
pub struct ParsedObject {
    pub path: String,
    pub raw_data_index: u32,
    pub properties: Vec<(String, PropertyValue)>,
    pub raw_data_meta: Option<RawDataMeta>,
    pub data_location: Option<DataLocation>,
}

/// The mathematical value of a [`ParsedObject`].
pub struct ObjectModel {
    pub path: Seq<char>,
    pub raw_data_index: u32,
    pub properties: Seq<(Seq<char>, PropertyModel)>,
    pub raw_data_meta: Option<RawDataMeta>,
    pub data_location: Option<DataLocation>,
}

/// The view of a list of named property values.
pub open spec fn props_view(v: Seq<(String, PropertyValue)>) -> Seq<(Seq<char>, PropertyModel)> {
    Seq::new(v.len(), |i: int| (v[i].0@, v[i].1@))
}

impl View for ParsedObject {
    type V = ObjectModel;

    open spec fn view(&self) -> ObjectModel {
        ObjectModel {
            path: self.path@,
            raw_data_index: self.raw_data_index,
            properties: props_view(self.properties@),
            raw_data_meta: self.raw_data_meta,
            data_location: self.data_location,
        }
    }
}

/// A parsed segment.
pub struct Segment {
    pub version: u32,
    pub next_segment_offset: u64,
    pub raw_data_offset: u64,
    pub toc_mask: u32,
    pub objects: Vec<ParsedObject>,
}

/// The mathematical value of a [`Segment`].
pub struct SegmentModel {
    pub version: u32,
    pub next_segment_offset: u64,
    pub raw_data_offset: u64,
    pub toc_mask: u32,
    pub objects: Seq<ObjectModel>,
}

impl View for Segment {
    type V = SegmentModel;

    open spec fn view(&self) -> SegmentModel {
        SegmentModel {
            version: self.version,
            next_segment_offset: self.next_segment_offset,
            raw_data_offset: self.raw_data_offset,
            toc_mask: self.toc_mask,
            objects: Seq::new(self.objects@.len(), |i: int| self.objects@[i]@),
        }
    }
}

/// What the reader carries from one segment to the next: the current list of object paths
/// and the last raw data description seen for each path.
pub struct ReaderModel {
    pub object_order: Seq<Seq<char>>,
    pub active_meta: Seq<(Seq<char>, RawDataMeta)>,
}

// ---------------------------------------------------------------------------------------
// The grammar, as functions from the bytes and a position to a value and the next position.
// ---------------------------------------------------------------------------------------

/// A property value of type `t` at `pos`.
pub open spec fn value_at(s: Seq<u8>, pos: nat, t: DataType) -> Result<(PropertyModel, nat), ErrorModel> {
    match t {
        DataType::I8 => match u8_at(s, pos) {
            Ok((v, p)) => Ok((PropertyModel::I8(v as i8), p)),
            Err(e) => Err(e),
        },
        DataType::I16 => match u16_at(s, pos) {
            Ok((v, p)) => Ok((PropertyModel::I16(v as i16), p)),
            Err(e) => Err(e),
        },
        DataType::I32 => match u32_at(s, pos) {
            Ok((v, p)) => Ok((PropertyModel::I32(v as i32), p)),
            Err(e) => Err(e),
        },
        DataType::I64 => match u64_at(s, pos) {
            Ok((v, p)) => Ok((PropertyModel::I64(v as i64), p)),
            Err(e) => Err(e),
        },
        DataType::U8 => match u8_at(s, pos) {
            Ok((v, p)) => Ok((PropertyModel::U8(v), p)),
            Err(e) => Err(e),
        },
        DataType::U16 => match u16_at(s, pos) {
            Ok((v, p)) => Ok((PropertyModel::U16(v), p)),
            Err(e) => Err(e),
        },
        DataType::U32 => match u32_at(s, pos) {
            Ok((v, p)) => Ok((PropertyModel::U32(v), p)),
            Err(e) => Err(e),
        },
        DataType::U64 => match u64_at(s, pos) {
            Ok((v, p)) => Ok((PropertyModel::U64(v), p)),
            Err(e) => Err(e),
        },
        DataType::Float => match u32_at(s, pos) {
            Ok((v, p)) => Ok((PropertyModel::Float(v), p)),
            Err(e) => Err(e),
        },
        DataType::Double => match u64_at(s, pos) {
            Ok((v, p)) => Ok((PropertyModel::Double(v), p)),
            Err(e) => Err(e),
        },
        DataType::Boolean => match u8_at(s, pos) {
            Ok((v, p)) => Ok((PropertyModel::Boolean(v != 0), p)),
            Err(e) => Err(e),
        },
        DataType::String => match u32_at(s, pos) {
            Ok((n, p)) => match bytes_at(s, p, n as nat) {
                Ok((b, p2)) => match text_of(b) {
                    Ok(t) => Ok((PropertyModel::String(t), p2)),
                    Err(e) => Err(e),
                },
                Err(e) => Err(e),
            },
            Err(e) => Err(e),
        },
        DataType::TimeStamp => match u64_at(s, pos) {
            Ok((f, p)) => match u64_at(s, p) {
                Ok((secs, p2)) => Ok((PropertyModel::TimeStamp((secs as i64, f)), p2)),
                Err(e) => Err(e),
            },
            Err(e) => Err(e),
        },
    }
}

/// A type code at `pos` and the data type it names.
pub open spec fn type_at(s: Seq<u8>, pos: nat) -> Result<(DataType, nat), ErrorModel> {
    match u32_at(s, pos) {
        Ok((c, p)) => match type_of_code(c) {
            Some(t) => Ok((t, p)),
            None => Err(ErrorModel::NotImplemented(unsupported_code_text(c))),
        },
        Err(e) => Err(e),
    }
}

/// A length-prefixed UTF-8 text at `pos`.
pub open spec fn text_at(s: Seq<u8>, pos: nat) -> Result<(Seq<char>, nat), ErrorModel> {
    match u32_at(s, pos) {
        Ok((n, p)) => match bytes_at(s, p, n as nat) {
            Ok((b, p2)) => match text_of(b) {
                Ok(t) => Ok((t, p2)),
                Err(e) => Err(e),
            },
            Err(e) => Err(e),
        },
        Err(e) => Err(e),
    }
}

/// One property: its name, its type code and its value.
pub open spec fn property_at(s: Seq<u8>, pos: nat) -> Result<((Seq<char>, PropertyModel), nat), ErrorModel> {
    match text_at(s, pos) {
        Ok((k, p)) => match type_at(s, p) {
            Ok((t, p2)) => match value_at(s, p2, t) {
                Ok((v, p3)) => Ok(((k, v), p3)),
                Err(e) => Err(e),
            },
            Err(e) => Err(e),
        },
        Err(e) => Err(e),
    }
}

/// `n` properties one after the other.
pub open spec fn properties_at(s: Seq<u8>, pos: nat, n: nat) -> Result<(Seq<(Seq<char>, PropertyModel)>, nat), ErrorModel>
    decreases n,
{
    if n == 0 {
        Ok((Seq::empty(), pos))
    } else {
        match properties_at(s, pos, (n - 1) as nat) {
            Ok((ps, p)) => match property_at(s, p) {
                Ok((kv, p2)) => Ok((ps.push(kv), p2)),
                Err(e) => Err(e),
            },
            Err(e) => Err(e),
        }
    }
}

/// The raw data index of an object, from just after its type code: the description of the
/// raw data, if any, and the number of properties that follow.
pub open spec fn raw_index_at(s: Seq<u8>, pos: nat, rdi: u32, t: DataType) -> Result<(Option<RawDataMeta>, u32, nat), ErrorModel> {
    if t == DataType::String {
        match u32_at(s, pos) {
            Ok((_dim, p)) => match u64_at(s, p) {
                Ok((count, p2)) => match u64_at(s, p2) {
                    Ok((total, p3)) => match u32_at(s, p3) {
                        Ok((pc, p4)) => Ok((
                            Some(RawDataMeta { data_type: t, number_of_values: count, total_size_bytes: Some(total) }),
                            pc,
                            p4,
                        )),
                        Err(e) => Err(e),
                    },
                    Err(e) => Err(e),
                },
                Err(e) => Err(e),
            },
            Err(e) => Err(e),
        }
    } else if rdi >= 4 {
        match bytes_at(s, pos, (rdi - 4) as nat) {
            Ok((skipped, p)) => {
                let count: u64 = if skipped.len() >= 12 {
                    spec_u64_from_le_bytes(skipped.subrange(4, 12))
                } else {
                    0
                };
                if skipped.len() >= 4 {
                    let pc = spec_u32_from_le_bytes(skipped.subrange(skipped.len() - 4, skipped.len() as int));
                    Ok((Some(RawDataMeta { data_type: t, number_of_values: count, total_size_bytes: None }), pc, p))
                } else {
                    Err(ErrorModel::UnexpectedEof)
                }
            },
            Err(e) => Err(e),
        }
    } else {
        Ok((None, 0, pos))
    }
}

/// The metadata of one object in a list of new objects.
pub open spec fn object_at(s: Seq<u8>, pos: nat) -> Result<(ObjectModel, nat), ErrorModel> {
    match text_at(s, pos) {
        Ok((path, p)) => match u32_at(s, p) {
            Ok((rdi, p2)) => {
                let head: Result<(Option<RawDataMeta>, u32, nat), ErrorModel> =
                    if rdi != 0 && rdi != 0xFFFF_FFFFu32 {
                        match type_at(s, p2) {
                            Ok((t, p3)) => raw_index_at(s, p3, rdi, t),
                            Err(e) => Err(e),
                        }
                    } else {
                        match u32_at(s, p2) {
                            Ok((pc, p3)) => Ok((None, pc, p3)),
                            Err(e) => Err(e),
                        }
                    };
                match head {
                    Ok((meta, pc, p3)) => match properties_at(s, p3, pc as nat) {
                        Ok((props, p4)) => Ok((
                            ObjectModel {
                                path,
                                raw_data_index: rdi,
                                properties: props,
                                raw_data_meta: meta,
                                data_location: None,
                            },
                            p4,
                        )),
                        Err(e) => Err(e),
                    },
                    Err(e) => Err(e),
                }
            },
            Err(e) => Err(e),
        },
        Err(e) => Err(e),
    }
}

/// `n` objects one after the other.
pub open spec fn objects_at(s: Seq<u8>, pos: nat, n: nat) -> Result<(Seq<ObjectModel>, nat), ErrorModel>
    decreases n,
{
    if n == 0 {
        Ok((Seq::empty(), pos))
    } else {
        match objects_at(s, pos, (n - 1) as nat) {
            Ok((os, p)) => match object_at(s, p) {
                Ok((o, p2)) => Ok((os.push(o), p2)),
                Err(e) => Err(e),
            },
            Err(e) => Err(e),
        }
    }
}

/// The objects of a segment that repeats the previous list: each path, with nothing new.
pub open spec fn repeated_objects(order: Seq<Seq<char>>) -> Seq<ObjectModel> {
    Seq::new(
        order.len(),
        |i: int|
            ObjectModel {
                path: order[i],
                raw_data_index: 0,
                properties: Seq::empty(),
                raw_data_meta: None,
                data_location: None,
            },
    )
}

/// The raw data of one object: a new description is remembered for its path; an object
/// that reuses the previous description (raw data index 0) takes the remembered one.
/// Values, if any, lie at `cur`. Gives the object, the next raw data position and the
/// remembered descriptions.
pub open spec fn place_object(o: ObjectModel, cur: u64, active: Seq<(Seq<char>, RawDataMeta)>) -> (ObjectModel, u64, Seq<(Seq<char>, RawDataMeta)>) {
    match o.raw_data_meta {
        Some(m) => {
            let active2 = insert_entry(active, o.path, m);
            if m.number_of_values > 0 {
                (
                    ObjectModel {
                        data_location: Some(DataLocation { offset: cur, number_of_values: m.number_of_values }),
                        ..o
                    },
                    sat_add(cur, raw_size(m)),
                    active2,
                )
            } else {
                (o, cur, active2)
            }
        },
        None => if o.raw_data_index == 0 {
            match lookup(active, o.path) {
                Some(m) => if m.number_of_values > 0 {
                    (
                        ObjectModel {
                            data_location: Some(DataLocation { offset: cur, number_of_values: m.number_of_values }),
                            ..o
                        },
                        sat_add(cur, raw_size(m)),
                        active,
                    )
                } else {
                    (o, cur, active)
                },
                None => (o, cur, active),
            }
        } else {
            (o, cur, active)
        },
    }
}

/// Places the raw data of each object in turn (see [`place_object`]).
pub open spec fn place_objects(os: Seq<ObjectModel>, cur: u64, active: Seq<(Seq<char>, RawDataMeta)>) -> (Seq<ObjectModel>, u64, Seq<(Seq<char>, RawDataMeta)>)
    decreases os.len(),
{
    if os.len() == 0 {
        (Seq::empty(), cur, active)
    } else {
        let (done, c, a) = place_objects(os.drop_last(), cur, active);
        let (o, c2, a2) = place_object(os.last(), c, a);
        (done.push(o), c2, a2)
    }
}

/// The lead-in at `pos`: table of contents, version, next segment offset, raw data offset.
pub open spec fn lead_in_at(s: Seq<u8>, pos: nat) -> Result<((u32, u32, u64, u64), nat), ErrorModel> {
    match bytes_at(s, pos, 4) {
        Ok((t, p)) => if t == tag() {
            match u32_at(s, p) {
                Ok((mask, p2)) => match u32_at(s, p2) {
                    Ok((version, p3)) => match u64_at(s, p3) {
                        Ok((next, p4)) => match u64_at(s, p4) {
                            Ok((raw, p5)) => Ok(((mask, version, next, raw), p5)),
                            Err(e) => Err(e),
                        },
                        Err(e) => Err(e),
                    },
                    Err(e) => Err(e),
                },
                Err(e) => Err(e),
            }
        } else {
            Err(ErrorModel::InvalidSignature)
        },
        Err(e) => Err(e),
    }
}

/// The objects of a segment's metadata, from just after its lead-in, and the list of paths
/// that later segments may repeat.
pub open spec fn metadata_at(s: Seq<u8>, pos: nat, mask: u32, order: Seq<Seq<char>>) -> Result<(Seq<ObjectModel>, Seq<Seq<char>>), ErrorModel> {
    if has_new_obj_list(mask) {
        match u32_at(s, pos) {
            Ok((n, p)) => match objects_at(s, p, n as nat) {
                Ok((os, _p2)) => Ok((os, Seq::new(os.len(), |i: int| os[i].path))),
                Err(e) => Err(e),
            },
            Err(e) => Err(e),
        }
    } else {
        Ok((repeated_objects(order), order))
    }
}

/// The segment that starts at `start`, the reader's state after it, and where the next
/// segment starts.
pub open spec fn segment_at(s: Seq<u8>, start: u64, st: ReaderModel) -> Result<(SegmentModel, ReaderModel, u64), ErrorModel> {
    match lead_in_at(s, start as nat) {
        Ok(((mask, version, next, raw), p)) => match metadata_at(s, p, mask, st.object_order) {
            Ok((os, order)) => {
                let (placed, cur, active) = place_objects(
                    os,
                    sat_add(sat_add(start, 28), raw),
                    st.active_meta,
                );
                let target = if next != u64::MAX {
                    sat_add(sat_add(start, 28), next)
                } else {
                    cur
                };
                Ok((
                    SegmentModel { version, next_segment_offset: next, raw_data_offset: raw, toc_mask: mask, objects: placed },
                    ReaderModel { object_order: order, active_meta: active },
                    target,
                ))
            },
            Err(e) => Err(e),
        },
        Err(e) => Err(e),
    }
}


// ---------------------------------------------------------------------------------------
// The readers.
// ---------------------------------------------------------------------------------------

/// `a * b`, saturating.
fn mul_sat(a: u64, b: u64) -> (r: u64)
    ensures
        r == sat_mul(a, b),
{
    match a.checked_mul(b) {
        Some(v) => v,
        None => u64::MAX,
    }
}

/// Reads a property value of type `t` (see [`value_at`]).
pub fn read_value(data: &[u8], pos: usize, t: DataType) -> (r: Result<(PropertyValue, usize), TdmsError>)
    ensures
        agrees_view(r, value_at(data@, pos as nat, t)),
{
    match t {
        DataType::I8 => {
            let (v, p) = read_u8(data, pos)?;
            Ok((PropertyValue::I8(v as i8), p))
        },
        DataType::I16 => {
            let (v, p) = read_u16(data, pos)?;
            Ok((PropertyValue::I16(v as i16), p))
        },
        DataType::I32 => {
            let (v, p) = read_u32(data, pos)?;
            Ok((PropertyValue::I32(v as i32), p))
        },
        DataType::I64 => {
            let (v, p) = read_u64(data, pos)?;
            Ok((PropertyValue::I64(v as i64), p))
        },
        DataType::U8 => {
            let (v, p) = read_u8(data, pos)?;
            Ok((PropertyValue::U8(v), p))
        },
        DataType::U16 => {
            let (v, p) = read_u16(data, pos)?;
            Ok((PropertyValue::U16(v), p))
        },
        DataType::U32 => {
            let (v, p) = read_u32(data, pos)?;
            Ok((PropertyValue::U32(v), p))
        },
        DataType::U64 => {
            let (v, p) = read_u64(data, pos)?;
            Ok((PropertyValue::U64(v), p))
        },
        DataType::Float => {
            let (v, p) = read_u32(data, pos)?;
            Ok((PropertyValue::Float(v), p))
        },
        DataType::Double => {
            let (v, p) = read_u64(data, pos)?;
            Ok((PropertyValue::Double(v), p))
        },
        DataType::Boolean => {
            let (v, p) = read_u8(data, pos)?;
            Ok((PropertyValue::Boolean(v != 0), p))
        },
        DataType::String => {
            let (s, p) = read_text(data, pos)?;
            Ok((PropertyValue::String(s), p))
        },
        DataType::TimeStamp => {
            let (fraction, p) = read_u64(data, pos)?;
            let (seconds, p2) = read_u64(data, p)?;
            Ok((PropertyValue::TimeStamp((seconds as i64, fraction)), p2))
        },
    }
}

/// Reads a type code and the data type it names (see [`type_at`]).
pub fn read_type(data: &[u8], pos: usize) -> (r: Result<(DataType, usize), TdmsError>)
    ensures
        agrees(r, type_at(data@, pos as nat)),
{
    let (c, p) = read_u32(data, pos)?;
    let t = DataType::from_u32(c)?;
    Ok((t, p))
}

/// Reads a length-prefixed UTF-8 text (see [`text_at`]).
pub fn read_text(data: &[u8], pos: usize) -> (r: Result<(String, usize), TdmsError>)
    ensures
        agrees_view(r, text_at(data@, pos as nat)),
{
    let (n, p) = read_u32(data, pos)?;
    let (b, p2) = read_bytes(data, p, n as usize)?;
    let s = decode_text(b)?;
    Ok((s, p2))
}

/// Reads one property (see [`property_at`]).
pub fn read_property(data: &[u8], pos: usize) -> (r: Result<((String, PropertyValue), usize), TdmsError>)
    ensures
        agrees_view(r, property_at(data@, pos as nat)),
{
    let (k, p) = read_text(data, pos)?;
    let (t, p2) = read_type(data, p)?;
    let (v, p3) = read_value(data, p2, t)?;
    Ok(((k, v), p3))
}

/// An error of the first `i` items stays the error of more items.
proof fn lemma_properties_err(s: Seq<u8>, pos: nat, i: nat, n: nat)
    requires
        i <= n,
        properties_at(s, pos, i) is Err,
    ensures
        properties_at(s, pos, n) == properties_at(s, pos, i),
    decreases n - i,
{
    if i < n {
        lemma_properties_err(s, pos, i, (n - 1) as nat);
    }
}

/// Reads `n` properties (see [`properties_at`]).
pub fn read_properties(data: &[u8], pos: usize, n: u32) -> (r: Result<(Vec<(String, PropertyValue)>, usize), TdmsError>)
    ensures
        match properties_at(data@, pos as nat, n as nat) {
            Ok((ps, p)) => r matches Ok((v, p2)) && props_view(v@) == ps && p2 == p,
            Err(e) => r matches Err(e2) && e2@ == e,
        },
{
    let mut v: Vec<(String, PropertyValue)> = Vec::new();
    let mut p: usize = pos;
    let mut i: u32 = 0;
    assert(props_view(v@) =~= Seq::<(Seq<char>, PropertyModel)>::empty());
    while i < n
        invariant
            i <= n,
            properties_at(data@, pos as nat, i as nat) == Ok::<_, ErrorModel>((props_view(v@), p as nat)),
        decreases n - i,
    {
        match read_property(data, p) {
            Ok((kv, p2)) => {
                let ghost old_v = v@;
                v.push(kv);
                assert(props_view(v@) =~= props_view(old_v).push((kv.0@, kv.1@)));
                p = p2;
                i = i + 1;
            },
            Err(e) => {
                proof {
                    lemma_properties_err(data@, pos as nat, (i + 1) as nat, n as nat);
                }
                return Err(e);
            },
        }
    }
    Ok((v, p))
}

/// Reads the raw data index that follows a type code (see [`raw_index_at`]).
pub fn read_raw_index(data: &[u8], pos: usize, rdi: u32, t: DataType) -> (r: Result<(Option<RawDataMeta>, u32, usize), TdmsError>)
    ensures
        match raw_index_at(data@, pos as nat, rdi, t) {
            Ok((m, pc, p)) => r matches Ok((m2, pc2, p2)) && m2 == m && pc2 == pc && p2 == p,
            Err(e) => r matches Err(e2) && e2@ == e,
        },
{
    if t == DataType::String {
        let (_dim, p) = read_u32(data, pos)?;
        let (count, p2) = read_u64(data, p)?;
        let (total, p3) = read_u64(data, p2)?;
        let (pc, p4) = read_u32(data, p3)?;
        Ok((Some(RawDataMeta { data_type: t, number_of_values: count, total_size_bytes: Some(total) }), pc, p4))
    } else if rdi >= 4 {
        let (skipped, p) = read_bytes(data, pos, (rdi - 4) as usize)?;
        let mut count: u64 = 0;
        if skipped.len() >= 12 {
            count = u64_from_le_bytes(slice_subrange(skipped, 4, 12));
        }
        if skipped.len() >= 4 {
            let pc = u32_from_le_bytes(slice_subrange(skipped, skipped.len() - 4, skipped.len()));
            Ok((Some(RawDataMeta { data_type: t, number_of_values: count, total_size_bytes: None }), pc, p))
        } else {
            Err(TdmsError::UnexpectedEof)
        }
    } else {
        Ok((None, 0, pos))
    }
}

/// Reads the metadata of one object (see [`object_at`]).
pub fn read_object(data: &[u8], pos: usize) -> (r: Result<(ParsedObject, usize), TdmsError>)
    ensures
        agrees_view(r, object_at(data@, pos as nat)),
{
    let (path, p) = read_text(data, pos)?;
    let (rdi, p2) = read_u32(data, p)?;
    let (meta, pc, p3) = if rdi != 0 && rdi != 0xFFFF_FFFFu32 {
        let (t, p3) = read_type(data, p2)?;
        read_raw_index(data, p3, rdi, t)?
    } else {
        let (pc, p3) = read_u32(data, p2)?;
        (None, pc, p3)
    };
    let (props, p4) = read_properties(data, p3, pc)?;
    Ok((ParsedObject { path, raw_data_index: rdi, properties: props, raw_data_meta: meta, data_location: None }, p4))
}


/// An error of the first `i` objects stays the error of more objects.
proof fn lemma_objects_err(s: Seq<u8>, pos: nat, i: nat, n: nat)
    requires
        i <= n,
        objects_at(s, pos, i) is Err,
    ensures
        objects_at(s, pos, n) == objects_at(s, pos, i),
    decreases n - i,
{
    if i < n {
        lemma_objects_err(s, pos, i, (n - 1) as nat);
    }
}

/// The view of a list of objects.
pub open spec fn objects_view(v: Seq<ParsedObject>) -> Seq<ObjectModel> {
    Seq::new(v.len(), |i: int| v[i]@)
}

/// Reads `n` objects (see [`objects_at`]).
pub fn read_objects(data: &[u8], pos: usize, n: u32) -> (r: Result<(Vec<ParsedObject>, usize), TdmsError>)
    ensures
        match objects_at(data@, pos as nat, n as nat) {
            Ok((os, p)) => r matches Ok((v, p2)) && objects_view(v@) == os && p2 == p,
            Err(e) => r matches Err(e2) && e2@ == e,
        },
{
    let mut v: Vec<ParsedObject> = Vec::new();
    let mut p: usize = pos;
    let mut i: u32 = 0;
    assert(objects_view(v@) =~= Seq::<ObjectModel>::empty());
    while i < n
        invariant
            i <= n,
            objects_at(data@, pos as nat, i as nat) == Ok::<_, ErrorModel>((objects_view(v@), p as nat)),
        decreases n - i,
    {
        match read_object(data, p) {
            Ok((o, p2)) => {
                let ghost old_v = v@;
                let ghost ov = o@;
                v.push(o);
                assert(objects_view(v@) =~= objects_view(old_v).push(ov));
                p = p2;
                i = i + 1;
            },
            Err(e) => {
                proof {
                    lemma_objects_err(data@, pos as nat, (i + 1) as nat, n as nat);
                }
                return Err(e);
            },
        }
    }
    Ok((v, p))
}

/// The state that the reader carries from one segment to the next.
pub struct TdmsReaderInternal {
    object_order: Vec<String>,
    active_meta: NamedMap<RawDataMeta>,
}

impl View for TdmsReaderInternal {
    type V = ReaderModel;

    closed spec fn view(&self) -> ReaderModel {
        ReaderModel {
            object_order: Seq::new(self.object_order@.len(), |i: int| self.object_order@[i]@),
            active_meta: self.active_meta@,
        }
    }
}

/// The reader's state before the first segment.
pub open spec fn initial_reader() -> ReaderModel {
    ReaderModel { object_order: Seq::empty(), active_meta: Seq::empty() }
}

/// The raw data size of a description.
fn raw_size_exec(m: &RawDataMeta) -> (r: u64)
    ensures
        r == raw_size(*m),
{
    if m.data_type == DataType::String {
        match m.total_size_bytes {
            Some(t) => t,
            None => mul_sat(m.number_of_values, 4),
        }
    } else {
        mul_sat(m.data_type.itemsize() as u64, m.number_of_values)
    }
}

impl TdmsReaderInternal {
    pub closed spec fn wf(&self) -> bool {
        self.active_meta.wf()
    }

    /// A reader that has seen no segment.
    pub fn new() -> (r: TdmsReaderInternal)
        ensures
            r.wf(),
            r@ == initial_reader(),
    {
        let r = TdmsReaderInternal { object_order: Vec::new(), active_meta: NamedMap::new() };
        assert(r@.object_order =~= Seq::<Seq<char>>::empty());
        r
    }

    /// Places the raw data of each object in turn (see [`place_objects`]), remembering new
    /// descriptions; gives the raw data position after the last object.
    fn place(&mut self, objects: &mut Vec<ParsedObject>, start: u64) -> (r: u64)
        requires
            old(self).wf(),
        ensures
            final(self).wf(),
            final(self).object_order == old(self).object_order,
            ({
                let (placed, cur, active) = place_objects(objects_view(old(objects)@), start, old(self)@.active_meta);
                &&& objects_view(final(objects)@) == placed
                &&& r == cur
                &&& final(self)@.active_meta == active
            }),
    {
        let ghost os = objects_view(objects@);
        let mut cur: u64 = start;
        let n = objects.len();
        let mut i: usize = 0;
        while i < n
            invariant
                self.wf(),
                self.object_order == old(self).object_order,
                n == objects@.len(),
                i <= n,
                os == objects_view(old(objects)@),
                os.len() == n,
                ({
                    let (placed, c, a) = place_objects(os.take(i as int), start, old(self)@.active_meta);
                    &&& objects_view(objects@).take(i as int) == placed
                    &&& cur == c
                    &&& self@.active_meta == a
                }),
                forall|k: int| i <= k < n ==> #[trigger] objects@[k]@ == os[k],
            decreases n - i,
        {
            assert(os.take(i + 1).drop_last() =~= os.take(i as int));
            assert(os.take(i + 1).last() == os[i as int]);
            let ghost before = objects_view(objects@);
            let ghost cur0 = cur;
            let ghost active0 = self@.active_meta;
            let o = &mut objects[i];
            let ghost o0 = o@;
            assert(o0 == os[i as int]);
            let mut location: Option<DataLocation> = None;
            match o.raw_data_meta {
                Some(m) => {
                    let path = o.path.clone();
                    self.active_meta.insert(path, m);
                    if m.number_of_values > 0 {
                        location = Some(DataLocation { offset: cur, number_of_values: m.number_of_values });
                        cur = cur.saturating_add(raw_size_exec(&m));
                    }
                },
                None => {
                    if o.raw_data_index == 0 {
                        match self.active_meta.get(o.path.as_str()) {
                            Some(m) => {
                                if m.number_of_values > 0 {
                                    location = Some(DataLocation { offset: cur, number_of_values: m.number_of_values });
                                    cur = cur.saturating_add(raw_size_exec(m));
                                }
                            },
                            None => {},
                        }
                    }
                },
            }
            if location.is_some() {
                o.data_location = location;
            }
            proof {
                let (po, pc, pa) = place_object(o0, cur0, active0);
                assert(o@ == po);
                assert(cur == pc);
                assert(self@.active_meta == pa);
                assert(objects_view(objects@).take(i + 1) =~= before.take(i as int).push(po));
            }
            i = i + 1;
        }
        assert(os.take(n as int) =~= os);
        assert(objects_view(objects@).take(n as int) =~= objects_view(objects@));
        cur
    }

    /// Reads the segment that starts at `start` (see [`segment_at`]) and gives it with the
    /// position where the next segment starts. On an error the state stays as it was.
    pub fn read_segment(&mut self, data: &[u8], start: u64) -> (r: Result<(Segment, u64), TdmsError>)
        requires
            old(self).wf(),
        ensures
            final(self).wf(),
            match segment_at(data@, start, old(self)@) {
                Ok((seg, st, next)) => r matches Ok((sg, n)) && sg@ == seg && n == next && final(self)@ == st,
                Err(e) => r matches Err(e2) && e2@ == e && final(self)@ == old(self)@,
            },
    {
        if start > data.len() as u64 {
            return Err(TdmsError::UnexpectedEof);
        }
        let pos = start as usize;
        let (t, p) = read_bytes(data, pos, 4)?;
        if !(t[0] == 0x54u8 && t[1] == 0x44u8 && t[2] == 0x53u8 && t[3] == 0x6du8) {
            assert(t@ != tag());
            return Err(TdmsError::InvalidSignature);
        }
        assert(t@ =~= tag());
        let (mask, p2) = read_u32(data, p)?;
        let (version, p3) = read_u32(data, p2)?;
        let (next, p4) = read_u64(data, p3)?;
        let (raw, p5) = read_u64(data, p4)?;
        let mut objects: Vec<ParsedObject>;
        let mut order: Vec<String>;
        if mask & 4 != 0 {
            let (n, p6) = read_u32(data, p5)?;
            let (os, _p7) = read_objects(data, p6, n)?;
            objects = os;
            order = Vec::new();
            let mut k: usize = 0;
            while k < objects.len()
                invariant
                    k <= objects@.len(),
                    order@.len() == k,
                    forall|j: int| 0 <= j < k ==> #[trigger] order@[j]@ == objects@[j].path@,
                decreases objects@.len() - k,
            {
                order.push(objects[k].path.clone());
                k = k + 1;
            }
        } else {
            objects = Vec::new();
            let mut k: usize = 0;
            while k < self.object_order.len()
                invariant
                    k <= self.object_order@.len(),
                    objects@.len() == k,
                    forall|j: int| 0 <= j < k ==> #[trigger] objects@[j]@ == repeated_objects(old(self)@.object_order)[j],
                    self == old(self),
                decreases self.object_order@.len() - k,
            {
                objects.push(ParsedObject {
                    path: self.object_order[k].clone(),
                    raw_data_index: 0,
                    properties: Vec::new(),
                    raw_data_meta: None,
                    data_location: None,
                });
                proof {
                    assert(props_view(Seq::<(String, PropertyValue)>::empty()) =~= Seq::<(Seq<char>, PropertyModel)>::empty());
                }
                k = k + 1;
            }
            order = Vec::new();
            let mut k: usize = 0;
            while k < self.object_order.len()
                invariant
                    k <= self.object_order@.len(),
                    order@.len() == k,
                    forall|j: int| 0 <= j < k ==> #[trigger] order@[j]@ == old(self)@.object_order[j],
                    self == old(self),
                decreases self.object_order@.len() - k,
            {
                order.push(self.object_order[k].clone());
                k = k + 1;
            }
            assert(objects_view(objects@) =~= repeated_objects(old(self)@.object_order));
        }
        let ghost os = objects_view(objects@);
        let ghost order_view = Seq::new(order@.len(), |i: int| order@[i]@);
        proof {
            if has_new_obj_list(mask) {
                assert(order_view =~= Seq::new(os.len(), |i: int| os[i].path));
            } else {
                assert(order_view =~= old(self)@.object_order);
            }
        }
        let base = start.saturating_add(28).saturating_add(raw);
        let cur = self.place(&mut objects, base);
        let target = if next != u64::MAX {
            start.saturating_add(28).saturating_add(next)
        } else {
            cur
        };
        self.object_order = order;
        Ok((Segment { version, next_segment_offset: next, raw_data_offset: raw, toc_mask: mask, objects }, target))
    }
}

} // verus!
