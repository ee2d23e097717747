//! What the reader finds in the bytes that the writer produces.
//!
//! The proofs follow the layout of [`crate::image::image_of`]: each piece that the writer
//! appends is read back by the matching piece of the reader's grammar in
//! [`crate::segment`], the raw data of each channel is placed where the writer put it, and
//! the index that [`crate::index::index_of`] builds holds the writer's groups, channels and
//! properties.
use vstd::prelude::*;
use vstd::bytes::*;
use vstd::utf8::{decode_utf8, encode_utf8, encode_utf8_decode_utf8, encode_utf8_valid_utf8, valid_utf8};
use crate::datatypes::{lemma_type_code_roundtrip, property_type, type_code, type_size, DataType, PropertyModel};
use crate::encoding::{bytes_at, lemma_le_roundtrip, le_u16, le_u32, le_u64, le_u8, text_of, u16_at, u32_at, u64_at, u8_at};
use crate::image::{
    channel_raw, channels_raw, groups_raw, channel_index_bytes, channel_meta, channel_path, channels_meta, each_property_bytes, group_meta, group_path,
    groups_meta, groups_object_count, image_of, lead_in_bytes, metadata_bytes, no_raw_index, object_bytes,
    object_count, payload_bytes, properties_bytes, root_meta, text_bytes, value_bytes, written_toc, written_version,
};
use crate::segment::{
    has_new_obj_list, initial_reader, lead_in_at, metadata_at, segment_at, tag, ReaderModel, SegmentModel,
    object_at, objects_at, place_object, place_objects, properties_at, property_at, raw_index_at, raw_size, sat_add,
    sat_mul, text_at, type_at, value_at, DataLocation, ObjectModel, RawDataMeta,
};
use crate::writer::{data_consistent, WChannelModel, WGroupModel, WriterModel};
use crate::element::ChannelValue;
use crate::values::Pod;
use crate::writable::{encode_each, ends_bytes, lemma_ends_bytes_len, WritableType};
use crate::reader::{concat, decode_all, ends_at, gather, piece_start, run_len, run_pieces, string_pieces};
use crate::names::{has_key, insert_all, insert_entry, key_pos, keys_distinct, lookup};
use crate::index::{
    index_of, scan, apply_object, apply_objects, apply_to_channel, channel_or_new, empty_file, group_or_new, new_channel, new_group,
    ChannelModel, FileModel, GroupModel,
};
use crate::path::{lemma_channel_path_target, lemma_group_path_target, lemma_root_path_target, no_quote, path_target, TargetModel};

verus! {

/// The bytes `b` stand in `s` from position `p` on.
pub open spec fn holds_at(s: Seq<u8>, p: nat, b: Seq<u8>) -> bool {
    p + b.len() <= s.len() && s.subrange(p as int, (p + b.len()) as int) == b
}

/// Whether a text's UTF-8 length fits the 32-bit length field that precedes it.
pub open spec fn text_fits(t: Seq<char>) -> bool {
    encode_utf8(t).len() <= u32::MAX
}

/// Whether a property value's texts fit their length fields.
pub open spec fn value_fits(v: PropertyModel) -> bool {
    match v {
        PropertyModel::String(t) => text_fits(t),
        _ => true,
    }
}

/// Whether a list of properties fits its count and length fields.
pub open spec fn props_fit(ps: Seq<(Seq<char>, PropertyModel)>) -> bool {
    &&& ps.len() <= u32::MAX
    &&& forall|i: int| 0 <= i < ps.len() ==> text_fits(#[trigger] ps[i].0) && value_fits(ps[i].1)
}

/// A piece that stands at `p` splits into its two parts.
pub proof fn lemma_holds_split(s: Seq<u8>, p: nat, b1: Seq<u8>, b2: Seq<u8>)
    requires
        holds_at(s, p, b1 + b2),
    ensures
        holds_at(s, p, b1),
        holds_at(s, p + b1.len(), b2),
{
    assert(s.subrange(p as int, (p + b1.len()) as int) =~= (b1 + b2).subrange(0, b1.len() as int)) by {
        assert forall|k: int| 0 <= k < b1.len() implies s.subrange(p as int, (p + b1.len()) as int)[k] == (b1 + b2)[k] by {
            assert(s.subrange(p as int, (p + (b1 + b2).len()) as int)[k] == (b1 + b2)[k]);
        }
    }
    assert((b1 + b2).subrange(0, b1.len() as int) =~= b1);
    assert(s.subrange((p + b1.len()) as int, (p + b1.len() + b2.len()) as int) =~= b2) by {
        assert forall|k: int| 0 <= k < b2.len() implies s.subrange((p + b1.len()) as int, (p + b1.len() + b2.len()) as int)[k] == b2[k] by {
            assert(s.subrange(p as int, (p + (b1 + b2).len()) as int)[b1.len() + k] == (b1 + b2)[b1.len() + k]);
        }
    }
}

/// A piece of three parts splits into them.
pub proof fn lemma_holds_split3(s: Seq<u8>, p: nat, b1: Seq<u8>, b2: Seq<u8>, b3: Seq<u8>)
    requires
        holds_at(s, p, b1 + b2 + b3),
    ensures
        holds_at(s, p, b1),
        holds_at(s, p + b1.len(), b2),
        holds_at(s, p + b1.len() + b2.len(), b3),
{
    lemma_holds_split(s, p, b1 + b2, b3);
    lemma_holds_split(s, p, b1, b2);
}

pub proof fn lemma_read_u8(s: Seq<u8>, p: nat, x: u8)
    requires
        holds_at(s, p, le_u8(x)),
    ensures
        u8_at(s, p) == Ok::<(u8, nat), crate::error::ErrorModel>((x, p + 1)),
{
    assert(s.subrange(p as int, (p + 1) as int)[0] == s[p as int]);
}

pub proof fn lemma_read_u16(s: Seq<u8>, p: nat, x: u16)
    requires
        holds_at(s, p, le_u16(x)),
    ensures
        u16_at(s, p) == Ok::<(u16, nat), crate::error::ErrorModel>((x, p + 2)),
{
    lemma_le_roundtrip();
    assert(le_u16(x).len() == 2);
}

pub proof fn lemma_read_u32(s: Seq<u8>, p: nat, x: u32)
    requires
        holds_at(s, p, le_u32(x)),
    ensures
        u32_at(s, p) == Ok::<(u32, nat), crate::error::ErrorModel>((x, p + 4)),
{
    lemma_le_roundtrip();
    assert(le_u32(x).len() == 4);
}

pub proof fn lemma_read_u64(s: Seq<u8>, p: nat, x: u64)
    requires
        holds_at(s, p, le_u64(x)),
    ensures
        u64_at(s, p) == Ok::<(u64, nat), crate::error::ErrorModel>((x, p + 8)),
{
    lemma_le_roundtrip();
    assert(le_u64(x).len() == 8);
}

/// The widths of the little-endian encodings.
pub proof fn lemma_le_lens()
    ensures
        forall|x: u8| #[trigger] le_u8(x).len() == 1,
        forall|x: u16| #[trigger] le_u16(x).len() == 2,
        forall|x: u32| #[trigger] le_u32(x).len() == 4,
        forall|x: u64| #[trigger] le_u64(x).len() == 8,
{
    lemma_le_roundtrip();
}

/// A length-prefixed text reads back as itself.
pub proof fn lemma_read_text(s: Seq<u8>, p: nat, t: Seq<char>)
    requires
        holds_at(s, p, text_bytes(t)),
        text_fits(t),
    ensures
        text_at(s, p) == Ok::<(Seq<char>, nat), crate::error::ErrorModel>((t, p + text_bytes(t).len())),
{
    let b = encode_utf8(t);
    lemma_le_lens();
    lemma_holds_split(s, p, le_u32(b.len() as u32), b);
    lemma_read_u32(s, p, b.len() as u32);
    encode_utf8_valid_utf8(t);
    encode_utf8_decode_utf8(t);
    assert(bytes_at(s, p + 4, b.len()) == Ok::<(Seq<u8>, nat), crate::error::ErrorModel>((b, p + 4 + b.len())));
    assert(text_of(b) == Ok::<Seq<char>, crate::error::ErrorModel>(t));
}

/// A property value's payload reads back as the value, under the value's data type.
pub proof fn lemma_read_payload(s: Seq<u8>, p: nat, v: PropertyModel)
    requires
        holds_at(s, p, payload_bytes(v)),
        value_fits(v),
    ensures
        value_at(s, p, property_type(v)) == Ok::<(PropertyModel, nat), crate::error::ErrorModel>((v, p + payload_bytes(v).len())),
{
    lemma_le_lens();
    match v {
        PropertyModel::I8(x) => {
            lemma_read_u8(s, p, x as u8);
            assert((x as u8) as i8 == x) by (bit_vector);
        },
        PropertyModel::I16(x) => {
            lemma_read_u16(s, p, x as u16);
            assert((x as u16) as i16 == x) by (bit_vector);
        },
        PropertyModel::I32(x) => {
            lemma_read_u32(s, p, x as u32);
            assert((x as u32) as i32 == x) by (bit_vector);
        },
        PropertyModel::I64(x) => {
            lemma_read_u64(s, p, x as u64);
            assert((x as u64) as i64 == x) by (bit_vector);
        },
        PropertyModel::U8(x) => {
            lemma_read_u8(s, p, x);
        },
        PropertyModel::U16(x) => {
            lemma_read_u16(s, p, x);
        },
        PropertyModel::U32(x) => {
            lemma_read_u32(s, p, x);
        },
        PropertyModel::U64(x) => {
            lemma_read_u64(s, p, x);
        },
        PropertyModel::Float(b) => {
            lemma_read_u32(s, p, b);
        },
        PropertyModel::Double(b) => {
            lemma_read_u64(s, p, b);
        },
        PropertyModel::String(t) => {
            let b = encode_utf8(t);
            lemma_holds_split(s, p, le_u32(b.len() as u32), b);
            lemma_read_u32(s, p, b.len() as u32);
            encode_utf8_valid_utf8(t);
            encode_utf8_decode_utf8(t);
            assert(bytes_at(s, p + 4, b.len()) == Ok::<(Seq<u8>, nat), crate::error::ErrorModel>((b, p + 4 + b.len())));
        },
        PropertyModel::Boolean(b) => {
            lemma_read_u8(s, p, if b { 1 } else { 0 });
        },
        PropertyModel::TimeStamp((secs, frac)) => {
            lemma_holds_split(s, p, le_u64(frac), le_u64(secs as u64));
            lemma_read_u64(s, p, frac);
            lemma_read_u64(s, p + 8, secs as u64);
            assert((secs as u64) as i64 == secs) by (bit_vector);
        },
    }
}

/// A property value, with its type code, reads back as itself.
pub proof fn lemma_read_value(s: Seq<u8>, p: nat, v: PropertyModel)
    requires
        holds_at(s, p, value_bytes(v)),
        value_fits(v),
    ensures
        type_at(s, p) == Ok::<(DataType, nat), crate::error::ErrorModel>((property_type(v), p + 4)),
        value_at(s, p + 4, property_type(v)) == Ok::<(PropertyModel, nat), crate::error::ErrorModel>((v, p + value_bytes(v).len())),
{
    lemma_le_lens();
    lemma_holds_split(s, p, le_u32(type_code(property_type(v))), payload_bytes(v));
    lemma_read_u32(s, p, type_code(property_type(v)));
    lemma_type_code_roundtrip(property_type(v), 0);
    lemma_read_payload(s, p + 4, v);
}

/// Each property in turn reads back as the list of properties.
pub proof fn lemma_read_each_property(s: Seq<u8>, p: nat, ps: Seq<(Seq<char>, PropertyModel)>)
    requires
        holds_at(s, p, each_property_bytes(ps)),
        props_fit(ps),
    ensures
        properties_at(s, p, ps.len()) == Ok::<(Seq<(Seq<char>, PropertyModel)>, nat), crate::error::ErrorModel>((ps, p + each_property_bytes(ps).len())),
    decreases ps.len(),
{
    if ps.len() > 0 {
        let init = ps.drop_last();
        let (k, v) = ps.last();
        let a = each_property_bytes(init);
        lemma_holds_split3(s, p, a, text_bytes(k), value_bytes(v));
        assert(props_fit(init)) by {
            assert forall|i: int| 0 <= i < init.len() implies text_fits(#[trigger] init[i].0) && value_fits(init[i].1) by {
                assert(init[i] == ps[i]);
            }
        }
        lemma_read_each_property(s, p, init);
        assert(ps[ps.len() - 1] == ps.last());
        lemma_read_text(s, p + a.len(), k);
        lemma_read_value(s, p + a.len() + text_bytes(k).len(), v);
        assert(property_at(s, p + a.len()) == Ok::<((Seq<char>, PropertyModel), nat), crate::error::ErrorModel>(((k, v), p + a.len() + text_bytes(k).len() + value_bytes(v).len())));
        assert(init.push((k, v)) =~= ps);
        assert((ps.len() - 1) as nat == init.len());
    } else {
        assert(ps =~= Seq::<(Seq<char>, PropertyModel)>::empty());
    }
}

/// Two pieces that stand one after the other stand as one.
pub proof fn lemma_holds_join(s: Seq<u8>, p: nat, b1: Seq<u8>, b2: Seq<u8>)
    requires
        holds_at(s, p, b1),
        holds_at(s, p + b1.len(), b2),
    ensures
        holds_at(s, p, b1 + b2),
{
    assert(s.subrange(p as int, (p + (b1 + b2).len()) as int) =~= b1 + b2) by {
        assert forall|k: int| 0 <= k < b1.len() + b2.len() implies s.subrange(p as int, (p + (b1 + b2).len()) as int)[k] == (b1 + b2)[k] by {
            if k < b1.len() {
                assert(s.subrange(p as int, (p + b1.len()) as int)[k] == b1[k]);
            } else {
                assert(s.subrange((p + b1.len()) as int, (p + b1.len() + b2.len()) as int)[k - b1.len()] == b2[k - b1.len()]);
            }
        }
    }
}

/// The object that the reader makes of an object without raw data.
pub open spec fn plain_object(path: Seq<char>, ps: Seq<(Seq<char>, PropertyModel)>) -> ObjectModel {
    ObjectModel { path, raw_data_index: 0xFFFF_FFFFu32, properties: ps, raw_data_meta: None, data_location: None }
}

/// The description of a channel's raw data that the writer records.
pub open spec fn channel_raw_meta(ch: WChannelModel) -> RawDataMeta {
    RawDataMeta {
        data_type: ch.data_type,
        number_of_values: ch.count as u64,
        total_size_bytes: if ch.data_type == DataType::String {
            Some(sat_add(ch.offsets.len() as u64, ch.data.len() as u64))
        } else {
            None
        },
    }
}

/// The object that the reader makes of a channel of the group `g`.
pub open spec fn channel_object(g: Seq<char>, ch: WChannelModel) -> ObjectModel {
    ObjectModel {
        path: channel_path(g, ch.name),
        raw_data_index: if ch.data_type == DataType::String { 28u32 } else { 20u32 },
        properties: ch.properties,
        raw_data_meta: Some(channel_raw_meta(ch)),
        data_location: None,
    }
}

/// A list of properties, with its count, reads back as itself.
pub proof fn lemma_read_properties(s: Seq<u8>, p: nat, ps: Seq<(Seq<char>, PropertyModel)>)
    requires
        holds_at(s, p, properties_bytes(ps)),
        props_fit(ps),
    ensures
        u32_at(s, p) == Ok::<(u32, nat), crate::error::ErrorModel>((ps.len() as u32, p + 4)),
        properties_at(s, p + 4, ps.len()) == Ok::<(Seq<(Seq<char>, PropertyModel)>, nat), crate::error::ErrorModel>((ps, p + properties_bytes(ps).len())),
{
    lemma_le_lens();
    lemma_holds_split(s, p, le_u32(ps.len() as u32), each_property_bytes(ps));
    lemma_read_u32(s, p, ps.len() as u32);
    lemma_read_each_property(s, p + 4, ps);
}

/// An object without raw data reads back as [`plain_object`].
pub proof fn lemma_read_plain_object(s: Seq<u8>, p: nat, path: Seq<char>, ps: Seq<(Seq<char>, PropertyModel)>)
    requires
        holds_at(s, p, object_bytes(path, no_raw_index(), ps)),
        text_fits(path),
        props_fit(ps),
    ensures
        object_at(s, p) == Ok::<(ObjectModel, nat), crate::error::ErrorModel>((plain_object(path, ps), p + object_bytes(path, no_raw_index(), ps).len())),
{
    lemma_le_lens();
    let a = text_bytes(path);
    lemma_holds_split3(s, p, a, no_raw_index(), properties_bytes(ps));
    lemma_read_text(s, p, path);
    lemma_read_u32(s, p + a.len(), 0xFFFF_FFFFu32);
    lemma_read_properties(s, p + a.len() + 4, ps);
    assert((ps.len() as u32) as nat == ps.len());
}

/// A channel's metadata reads back as [`channel_object`].
#[verifier::spinoff_prover]
pub proof fn lemma_read_channel_object(s: Seq<u8>, p: nat, g: Seq<char>, ch: WChannelModel)
    requires
        holds_at(s, p, channel_meta(g, ch)),
        text_fits(channel_path(g, ch.name)),
        props_fit(ch.properties),
        channel_raw(ch).len() <= u64::MAX,
    ensures
        object_at(s, p) == Ok::<(ObjectModel, nat), crate::error::ErrorModel>((channel_object(g, ch), p + channel_meta(g, ch).len())),
{
    lemma_le_lens();
    let path = channel_path(g, ch.name);
    let ps = ch.properties;
    let a = text_bytes(path);
    let idx = channel_index_bytes(ch);
    let code = type_code(ch.data_type);
    lemma_holds_split3(s, p, a, idx, properties_bytes(ps));
    lemma_read_text(s, p, path);
    lemma_type_code_roundtrip(ch.data_type, 0);
    let q = p + a.len();
    lemma_holds_split(s, p + a.len() + idx.len(), le_u32(ps.len() as u32), each_property_bytes(ps));
    lemma_read_u32(s, p + a.len() + idx.len(), ps.len() as u32);
    lemma_read_each_property(s, p + a.len() + idx.len() + 4, ps);
    if ch.data_type == DataType::String {
        lemma_holds_split(s, q, le_u32(28) + le_u32(code) + le_u32(1) + le_u64(ch.count as u64), le_u64(sat_add(ch.offsets.len() as u64, ch.data.len() as u64)));
        lemma_holds_split(s, q, le_u32(28) + le_u32(code) + le_u32(1), le_u64(ch.count as u64));
        lemma_holds_split3(s, q, le_u32(28), le_u32(code), le_u32(1));
        lemma_read_u32(s, q, 28);
        lemma_read_u32(s, q + 4, code);
        lemma_read_u32(s, q + 8, 1);
        lemma_read_u64(s, q + 12, ch.count as u64);
        lemma_read_u64(s, q + 20, sat_add(ch.offsets.len() as u64, ch.data.len() as u64));
        assert(raw_index_at(s, q + 8, 28, ch.data_type) == Ok::<(Option<RawDataMeta>, u32, nat), crate::error::ErrorModel>((Some(channel_raw_meta(ch)), ps.len() as u32, q + 32)));
    } else {
        lemma_holds_split(s, q, le_u32(20) + le_u32(code) + le_u32(1), le_u64(ch.count as u64));
        lemma_holds_split3(s, q, le_u32(20), le_u32(code), le_u32(1));
        lemma_read_u32(s, q, 20);
        lemma_read_u32(s, q + 4, code);
        let skipped = le_u32(1) + le_u64(ch.count as u64) + le_u32(ps.len() as u32);
        lemma_holds_join(s, q + 8, le_u32(1), le_u64(ch.count as u64));
        lemma_holds_join(s, q + 8, le_u32(1) + le_u64(ch.count as u64), le_u32(ps.len() as u32));
        assert(skipped.subrange(4, 12) =~= le_u64(ch.count as u64));
        assert(skipped.subrange(12, 16) =~= le_u32(ps.len() as u32));
        lemma_le_roundtrip();
        assert(bytes_at(s, q + 8, 16) == Ok::<(Seq<u8>, nat), crate::error::ErrorModel>((skipped, q + 24)));
        assert(raw_index_at(s, q + 8, 20, ch.data_type) == Ok::<(Option<RawDataMeta>, u32, nat), crate::error::ErrorModel>((Some(channel_raw_meta(ch)), ps.len() as u32, q + 24)));
    }
    assert((ps.len() as u32) as nat == ps.len());
}

/// The objects that the reader makes of a group's channels.
pub open spec fn channels_objects(g: Seq<char>, chs: Seq<WChannelModel>) -> Seq<ObjectModel>
    decreases chs.len(),
{
    if chs.len() == 0 {
        Seq::empty()
    } else {
        channels_objects(g, chs.drop_last()).push(channel_object(g, chs.last()))
    }
}

/// The objects that the reader makes of a group: the group, then its channels.
pub open spec fn group_objects(grp: WGroupModel) -> Seq<ObjectModel> {
    seq![plain_object(group_path(grp.name), grp.properties)] + channels_objects(grp.name, grp.channels)
}

/// The objects that the reader makes of each group in turn.
pub open spec fn groups_objects(gs: Seq<(Seq<char>, WGroupModel)>) -> Seq<ObjectModel>
    decreases gs.len(),
{
    if gs.len() == 0 {
        Seq::empty()
    } else {
        groups_objects(gs.drop_last()) + group_objects(gs.last().1)
    }
}

/// The object that the reader makes of the file's properties, if there are any.
pub open spec fn root_objects(ps: Seq<(Seq<char>, PropertyModel)>) -> Seq<ObjectModel> {
    if ps.len() == 0 {
        Seq::empty()
    } else {
        seq![plain_object(seq!['/'], ps)]
    }
}

/// The objects that the reader makes of a writer's file.
pub open spec fn written_objects(w: WriterModel) -> Seq<ObjectModel> {
    root_objects(w.properties) + groups_objects(w.groups)
}

/// Whether a channel's texts, properties and data fit the fields that record them.
pub open spec fn channel_fits(g: Seq<char>, ch: WChannelModel) -> bool {
    &&& text_fits(channel_path(g, ch.name))
    &&& props_fit(ch.properties)
    &&& channel_raw(ch).len() <= u64::MAX
}

/// Whether a group and its channels fit the fields that record them.
pub open spec fn group_fits(grp: WGroupModel) -> bool {
    &&& text_fits(group_path(grp.name))
    &&& props_fit(grp.properties)
    &&& forall|j: int| 0 <= j < grp.channels.len() ==> channel_fits(grp.name, #[trigger] grp.channels[j])
}

/// Whether all that a writer holds fits the fields that record it.
pub open spec fn groups_fit(gs: Seq<(Seq<char>, WGroupModel)>) -> bool {
    forall|i: int| 0 <= i < gs.len() ==> group_fits(#[trigger] gs[i].1)
}

/// Reading `n1` objects and then `n2` more reads `n1 + n2` objects.
pub proof fn lemma_objects_concat(
    s: Seq<u8>,
    p: nat,
    n1: nat,
    n2: nat,
    os1: Seq<ObjectModel>,
    os2: Seq<ObjectModel>,
    p1: nat,
    p2: nat,
)
    requires
        objects_at(s, p, n1) == Ok::<(Seq<ObjectModel>, nat), crate::error::ErrorModel>((os1, p1)),
        objects_at(s, p1, n2) == Ok::<(Seq<ObjectModel>, nat), crate::error::ErrorModel>((os2, p2)),
    ensures
        objects_at(s, p, n1 + n2) == Ok::<(Seq<ObjectModel>, nat), crate::error::ErrorModel>((os1 + os2, p2)),
    decreases n2,
{
    if n2 == 0 {
        assert(os1 + os2 =~= os1);
    } else {
        match objects_at(s, p1, (n2 - 1) as nat) {
            Ok((os2a, pm)) => {
                lemma_objects_concat(s, p, n1, (n2 - 1) as nat, os1, os2a, p1, pm);
                match object_at(s, pm) {
                    Ok((o, _)) => {
                        assert((os1 + os2a).push(o) =~= os1 + os2);
                        assert((n1 + n2 - 1) as nat == n1 + (n2 - 1) as nat);
                    },
                    Err(_) => {},
                }
            },
            Err(_) => {},
        }
    }
}

/// The metadata of a group's channels reads back as their objects.
pub proof fn lemma_read_channels(s: Seq<u8>, p: nat, g: Seq<char>, chs: Seq<WChannelModel>)
    requires
        holds_at(s, p, channels_meta(g, chs)),
        forall|j: int| 0 <= j < chs.len() ==> channel_fits(g, #[trigger] chs[j]),
    ensures
        objects_at(s, p, chs.len()) == Ok::<(Seq<ObjectModel>, nat), crate::error::ErrorModel>((channels_objects(g, chs), p + channels_meta(g, chs).len())),
    decreases chs.len(),
{
    if chs.len() > 0 {
        let init = chs.drop_last();
        let a = channels_meta(g, init);
        lemma_holds_split(s, p, a, channel_meta(g, chs.last()));
        assert forall|j: int| 0 <= j < init.len() implies channel_fits(g, #[trigger] init[j]) by {
            assert(init[j] == chs[j]);
        }
        lemma_read_channels(s, p, g, init);
        assert(chs[chs.len() - 1] == chs.last());
        lemma_read_channel_object(s, p + a.len(), g, chs.last());
        assert((chs.len() - 1) as nat == init.len());
    }
}

/// The metadata of a group reads back as its objects.
pub proof fn lemma_read_group(s: Seq<u8>, p: nat, grp: WGroupModel)
    requires
        holds_at(s, p, group_meta(grp)),
        group_fits(grp),
    ensures
        objects_at(s, p, 1 + grp.channels.len()) == Ok::<(Seq<ObjectModel>, nat), crate::error::ErrorModel>((group_objects(grp), p + group_meta(grp).len())),
{
    let a = object_bytes(group_path(grp.name), no_raw_index(), grp.properties);
    lemma_holds_split(s, p, a, channels_meta(grp.name, grp.channels));
    lemma_read_plain_object(s, p, group_path(grp.name), grp.properties);
    let o = plain_object(group_path(grp.name), grp.properties);
    assert(objects_at(s, p, 0) == Ok::<(Seq<ObjectModel>, nat), crate::error::ErrorModel>((Seq::<ObjectModel>::empty(), p)));
    assert(Seq::<ObjectModel>::empty().push(o) =~= seq![o]);
    assert(objects_at(s, p, 1) == Ok::<(Seq<ObjectModel>, nat), crate::error::ErrorModel>((seq![o], p + a.len())));
    lemma_read_channels(s, p + a.len(), grp.name, grp.channels);
    lemma_objects_concat(s, p, 1, grp.channels.len(), seq![o], channels_objects(grp.name, grp.channels), p + a.len(), p + a.len() + channels_meta(grp.name, grp.channels).len());
}

/// The metadata of the groups reads back as their objects.
pub proof fn lemma_read_groups(s: Seq<u8>, p: nat, gs: Seq<(Seq<char>, WGroupModel)>)
    requires
        holds_at(s, p, groups_meta(gs)),
        groups_fit(gs),
    ensures
        objects_at(s, p, groups_object_count(gs)) == Ok::<(Seq<ObjectModel>, nat), crate::error::ErrorModel>((groups_objects(gs), p + groups_meta(gs).len())),
    decreases gs.len(),
{
    if gs.len() == 0 {
        assert(objects_at(s, p, 0) == Ok::<(Seq<ObjectModel>, nat), crate::error::ErrorModel>((Seq::<ObjectModel>::empty(), p)));
    } else {
        let init = gs.drop_last();
        let a = groups_meta(init);
        lemma_holds_split(s, p, a, group_meta(gs.last().1));
        assert forall|i: int| 0 <= i < init.len() implies group_fits(#[trigger] init[i].1) by {
            assert(init[i] == gs[i]);
        }
        lemma_read_groups(s, p, init);
        assert(gs[gs.len() - 1] == gs.last());
        lemma_read_group(s, p + a.len(), gs.last().1);
        lemma_objects_concat(s, p, groups_object_count(init), 1 + gs.last().1.channels.len(), groups_objects(init), group_objects(gs.last().1), p + a.len(), p + a.len() + group_meta(gs.last().1).len());
    }
}

/// The metadata of the file object reads back as its object, if any.
pub proof fn lemma_read_root(s: Seq<u8>, p: nat, ps: Seq<(Seq<char>, PropertyModel)>)
    requires
        holds_at(s, p, root_meta(ps)),
        props_fit(ps),
    ensures
        objects_at(s, p, root_objects(ps).len()) == Ok::<(Seq<ObjectModel>, nat), crate::error::ErrorModel>((root_objects(ps), p + root_meta(ps).len())),
{
    assert(objects_at(s, p, 0) == Ok::<(Seq<ObjectModel>, nat), crate::error::ErrorModel>((Seq::<ObjectModel>::empty(), p)));
    if ps.len() > 0 {
        assert(encode_utf8(seq!['/']).len() == 1) by {
            assert(seq!['/'].drop_first() =~= Seq::<char>::empty());
            reveal_with_fuel(encode_utf8, 2);
        }
        lemma_read_plain_object(s, p, seq!['/'], ps);
        assert(Seq::<ObjectModel>::empty().push(plain_object(seq!['/'], ps)) =~= seq![plain_object(seq!['/'], ps)]);
    } else {
        assert(root_objects(ps) =~= Seq::<ObjectModel>::empty());
    }
}


/// A channel's object once the reader has placed its values at `cur`.
pub open spec fn placed_channel(g: Seq<char>, ch: WChannelModel, cur: u64) -> ObjectModel {
    if ch.count > 0 {
        ObjectModel {
            data_location: Some(DataLocation { offset: cur, number_of_values: ch.count as u64 }),
            ..channel_object(g, ch)
        }
    } else {
        channel_object(g, ch)
    }
}

/// The placed objects of a group's channels whose raw data starts at `cur`.
pub open spec fn placed_channels(g: Seq<char>, chs: Seq<WChannelModel>, cur: nat) -> Seq<ObjectModel>
    decreases chs.len(),
{
    if chs.len() == 0 {
        Seq::empty()
    } else {
        placed_channels(g, chs.drop_last(), cur).push(
            placed_channel(g, chs.last(), (cur + channels_raw(chs.drop_last()).len()) as u64),
        )
    }
}

/// The placed objects of a group whose raw data starts at `cur`.
pub open spec fn placed_group(grp: WGroupModel, cur: nat) -> Seq<ObjectModel> {
    seq![plain_object(group_path(grp.name), grp.properties)] + placed_channels(grp.name, grp.channels, cur)
}

/// The placed objects of the groups whose raw data starts at `cur`.
pub open spec fn placed_groups(gs: Seq<(Seq<char>, WGroupModel)>, cur: nat) -> Seq<ObjectModel>
    decreases gs.len(),
{
    if gs.len() == 0 {
        Seq::empty()
    } else {
        placed_groups(gs.drop_last(), cur) + placed_group(gs.last().1, cur + groups_raw(gs.drop_last()).len())
    }
}

/// Placing two lists one after the other places their concatenation.
pub proof fn lemma_place_concat(os1: Seq<ObjectModel>, os2: Seq<ObjectModel>, cur: u64, a: Seq<(Seq<char>, RawDataMeta)>)
    ensures
        place_objects(os1 + os2, cur, a) == ({
            let (d1, c1, a1) = place_objects(os1, cur, a);
            let (d2, c2, a2) = place_objects(os2, c1, a1);
            (d1 + d2, c2, a2)
        }),
    decreases os2.len(),
{
    if os2.len() == 0 {
        assert(os1 + os2 =~= os1);
        let (d1, c1, a1) = place_objects(os1, cur, a);
        assert(d1 + Seq::<ObjectModel>::empty() =~= d1);
    } else {
        assert((os1 + os2).drop_last() =~= os1 + os2.drop_last());
        assert((os1 + os2).last() == os2.last());
        lemma_place_concat(os1, os2.drop_last(), cur, a);
        let (d1, c1, a1) = place_objects(os1, cur, a);
        let (d2, c2, a2) = place_objects(os2.drop_last(), c1, a1);
        let (o, c3, a3) = place_object(os2.last(), c2, a2);
        assert((d1 + d2).push(o) =~= d1 + d2.push(o));
    }
}

/// The reader places a channel's values where the writer put them.
pub proof fn lemma_place_channel(g: Seq<char>, ch: WChannelModel, cur: nat, a: Seq<(Seq<char>, RawDataMeta)>)
    requires
        data_consistent(ch),
        cur + channel_raw(ch).len() <= u64::MAX,
    ensures
        place_object(channel_object(g, ch), cur as u64, a).0 == placed_channel(g, ch, cur as u64),
        place_object(channel_object(g, ch), cur as u64, a).1 == cur + channel_raw(ch).len(),
{
    let m = channel_raw_meta(ch);
    if ch.count > 0 {
        if ch.data_type != DataType::String {
            assert(type_size(ch.data_type) * ch.count <= u64::MAX);
            assert(raw_size(m) == channel_raw(ch).len());
        }
    }
}

/// The reader places the values of a group's channels where the writer put them.
pub proof fn lemma_place_channels(g: Seq<char>, chs: Seq<WChannelModel>, cur: nat, a: Seq<(Seq<char>, RawDataMeta)>)
    requires
        forall|j: int| 0 <= j < chs.len() ==> data_consistent(#[trigger] chs[j]),
        cur + channels_raw(chs).len() <= u64::MAX,
    ensures
        place_objects(channels_objects(g, chs), cur as u64, a).0 == placed_channels(g, chs, cur),
        place_objects(channels_objects(g, chs), cur as u64, a).1 == cur + channels_raw(chs).len(),
    decreases chs.len(),
{
    if chs.len() > 0 {
        let init = chs.drop_last();
        assert forall|j: int| 0 <= j < init.len() implies data_consistent(#[trigger] init[j]) by {
            assert(init[j] == chs[j]);
        }
        lemma_place_channels(g, init, cur, a);
        let os = channels_objects(g, chs);
        assert(os.drop_last() =~= channels_objects(g, init));
        let (d, c, a2) = place_objects(channels_objects(g, init), cur as u64, a);
        assert(chs[chs.len() - 1] == chs.last());
        lemma_place_channel(g, chs.last(), cur + channels_raw(init).len(), a2);
    }
}

/// The reader places the values of a group's channels where the writer put them, and the
/// group's own object takes none.
pub proof fn lemma_place_group(grp: WGroupModel, cur: nat, a: Seq<(Seq<char>, RawDataMeta)>)
    requires
        forall|j: int| 0 <= j < grp.channels.len() ==> data_consistent(#[trigger] grp.channels[j]),
        cur + channels_raw(grp.channels).len() <= u64::MAX,
    ensures
        place_objects(group_objects(grp), cur as u64, a).0 == placed_group(grp, cur),
        place_objects(group_objects(grp), cur as u64, a).1 == cur + channels_raw(grp.channels).len(),
{
    let o = plain_object(group_path(grp.name), grp.properties);
    lemma_place_concat(seq![o], channels_objects(grp.name, grp.channels), cur as u64, a);
    assert(seq![o].drop_last() =~= Seq::<ObjectModel>::empty());
    assert(Seq::<ObjectModel>::empty().push(o) =~= seq![o]);
    assert(place_objects(Seq::<ObjectModel>::empty(), cur as u64, a) == (Seq::<ObjectModel>::empty(), cur as u64, a));
    assert(seq![o].last() == o);
    assert(place_object(o, cur as u64, a) == (o, cur as u64, a));
    let (d1, c1, a1) = place_objects(seq![o], cur as u64, a);
    assert(d1 == seq![o]);
    assert(c1 == cur);
    lemma_place_channels(grp.name, grp.channels, cur, a1);
}

/// The reader places the values of each group's channels where the writer put them.
pub proof fn lemma_place_groups(gs: Seq<(Seq<char>, WGroupModel)>, cur: nat, a: Seq<(Seq<char>, RawDataMeta)>)
    requires
        forall|i: int, j: int| 0 <= i < gs.len() && 0 <= j < gs[i].1.channels.len() ==> data_consistent(#[trigger] gs[i].1.channels[j]),
        cur + groups_raw(gs).len() <= u64::MAX,
    ensures
        place_objects(groups_objects(gs), cur as u64, a).0 == placed_groups(gs, cur),
        place_objects(groups_objects(gs), cur as u64, a).1 == cur + groups_raw(gs).len(),
    decreases gs.len(),
{
    if gs.len() > 0 {
        let init = gs.drop_last();
        assert forall|i: int, j: int| 0 <= i < init.len() && 0 <= j < init[i].1.channels.len() implies data_consistent(#[trigger] init[i].1.channels[j]) by {
            assert(init[i] == gs[i]);
        }
        lemma_place_groups(init, cur, a);
        lemma_place_concat(groups_objects(init), group_objects(gs.last().1), cur as u64, a);
        let (d1, c1, a1) = place_objects(groups_objects(init), cur as u64, a);
        let last = gs.last().1;
        assert(gs[gs.len() - 1] == gs.last());
        assert forall|j: int| 0 <= j < last.channels.len() implies data_consistent(#[trigger] last.channels[j]) by {
            assert(gs[gs.len() - 1].1.channels[j] == last.channels[j]);
        }
        lemma_place_group(last, cur + groups_raw(init).len(), a1);
    } else {
        assert(placed_groups(gs, cur) =~= Seq::<ObjectModel>::empty());
    }
}

/// What the reader's index holds of a channel whose values the writer put at `off`.
pub open spec fn read_channel(ch: WChannelModel, off: nat) -> ChannelModel {
    ChannelModel {
        name: ch.name,
        dtype: ch.data_type,
        len: ch.count as u64,
        locations: if ch.count > 0 {
            seq![DataLocation { offset: off as u64, number_of_values: ch.count as u64 }]
        } else {
            Seq::empty()
        },
        properties: ch.properties,
    }
}

/// What the index holds of a group's channels whose raw data starts at `off`.
pub open spec fn read_channels(chs: Seq<WChannelModel>, off: nat) -> Seq<(Seq<char>, ChannelModel)>
    decreases chs.len(),
{
    if chs.len() == 0 {
        Seq::empty()
    } else {
        read_channels(chs.drop_last(), off).push(
            (chs.last().name, read_channel(chs.last(), off + channels_raw(chs.drop_last()).len())),
        )
    }
}

/// What the index holds of a group whose raw data starts at `off`.
pub open spec fn read_group(grp: WGroupModel, off: nat) -> GroupModel {
    GroupModel { name: grp.name, channels: read_channels(grp.channels, off), properties: grp.properties }
}

/// What the index holds of the groups whose raw data starts at `off`.
pub open spec fn read_groups(gs: Seq<(Seq<char>, WGroupModel)>, off: nat) -> Seq<(Seq<char>, GroupModel)>
    decreases gs.len(),
{
    if gs.len() == 0 {
        Seq::empty()
    } else {
        read_groups(gs.drop_last(), off).push((gs.last().0, read_group(gs.last().1, off + groups_raw(gs.drop_last()).len())))
    }
}

/// No two channels share a name.
pub open spec fn names_distinct(chs: Seq<WChannelModel>) -> bool {
    forall|i: int, j: int| 0 <= i < chs.len() && 0 <= j < chs.len() && i != j ==> #[trigger] chs[i].name != #[trigger] chs[j].name
}

/// Applying two lists of objects one after the other applies their concatenation.
pub proof fn lemma_apply_concat(f: FileModel, os1: Seq<ObjectModel>, os2: Seq<ObjectModel>)
    ensures
        apply_objects(f, os1 + os2) == apply_objects(apply_objects(f, os1), os2),
    decreases os2.len(),
{
    if os2.len() == 0 {
        assert(os1 + os2 =~= os1);
    } else {
        assert((os1 + os2).drop_last() =~= os1 + os2.drop_last());
        assert((os1 + os2).last() == os2.last());
        lemma_apply_concat(f, os1, os2.drop_last());
    }
}

/// Filing entries with distinct names into nothing gives the entries themselves.
pub proof fn lemma_insert_all_fresh<W>(ps: Seq<(Seq<char>, W)>)
    requires
        keys_distinct(ps),
    ensures
        insert_all(Seq::<(Seq<char>, W)>::empty(), ps) == ps,
    decreases ps.len(),
{
    if ps.len() > 0 {
        let init = ps.drop_last();
        assert(keys_distinct(init)) by {
            assert forall|i: int, j: int| 0 <= i < init.len() && 0 <= j < init.len() && i != j implies #[trigger] init[i].0 != #[trigger] init[j].0 by {
                assert(init[i] == ps[i]);
                assert(init[j] == ps[j]);
            }
        }
        lemma_insert_all_fresh(init);
        assert(!has_key(init, ps.last().0)) by {
            if has_key(init, ps.last().0) {
                let i = choose|i: int| 0 <= i < init.len() && #[trigger] init[i].0 == ps.last().0;
                assert(init[i] == ps[i]);
                assert(ps[ps.len() - 1] == ps.last());
            }
        }
        assert(init.push(ps.last()) =~= ps);
    } else {
        assert(ps =~= Seq::<(Seq<char>, W)>::empty());
    }
}

/// The index's channels of a group carry the names of the writer's channels.
pub proof fn lemma_read_channels_names(chs: Seq<WChannelModel>, off: nat)
    ensures
        read_channels(chs, off).len() == chs.len(),
        forall|j: int| 0 <= j < chs.len() ==> #[trigger] read_channels(chs, off)[j].0 == chs[j].name,
    decreases chs.len(),
{
    if chs.len() > 0 {
        lemma_read_channels_names(chs.drop_last(), off);
        assert forall|j: int| 0 <= j < chs.len() implies #[trigger] read_channels(chs, off)[j].0 == chs[j].name by {
            if j < chs.len() - 1 {
                assert(chs.drop_last()[j] == chs[j]);
            }
        }
    }
}

/// The index's groups carry the names of the writer's groups.
pub proof fn lemma_read_groups_names(gs: Seq<(Seq<char>, WGroupModel)>, off: nat)
    ensures
        read_groups(gs, off).len() == gs.len(),
        forall|i: int| 0 <= i < gs.len() ==> #[trigger] read_groups(gs, off)[i].0 == gs[i].0,
    decreases gs.len(),
{
    if gs.len() > 0 {
        lemma_read_groups_names(gs.drop_last(), off);
        assert forall|i: int| 0 <= i < gs.len() implies #[trigger] read_groups(gs, off)[i].0 == gs[i].0 by {
            if i < gs.len() - 1 {
                assert(gs.drop_last()[i] == gs[i]);
            }
        }
    }
}

/// The index files a group's channels under their names, in order, with their values where
/// the writer put them.
#[verifier::spinoff_prover]
pub proof fn lemma_apply_channels(
    groups: Seq<(Seq<char>, GroupModel)>,
    g: Seq<char>,
    gm: GroupModel,
    props: Seq<(Seq<char>, PropertyModel)>,
    chs: Seq<WChannelModel>,
    off: nat,
)
    requires
        !has_key(groups, g),
        gm.channels == Seq::<(Seq<char>, ChannelModel)>::empty(),
        no_quote(g),
        names_distinct(chs),
        forall|j: int| 0 <= j < chs.len() ==> no_quote(#[trigger] chs[j].name),
        forall|j: int| 0 <= j < chs.len() ==> keys_distinct(#[trigger] chs[j].properties),
    ensures
        apply_objects(FileModel { groups: groups.push((g, gm)), properties: props }, placed_channels(g, chs, off))
            == (FileModel { groups: groups.push((g, GroupModel { channels: read_channels(chs, off), ..gm })), properties: props }),
    decreases chs.len(),
{
    let f0 = FileModel { groups: groups.push((g, gm)), properties: props };
    if chs.len() == 0 {
        assert(read_channels(chs, off) =~= Seq::<(Seq<char>, ChannelModel)>::empty());
        assert(GroupModel { channels: read_channels(chs, off), ..gm } == gm);
    } else {
        let init = chs.drop_last();
        let last = chs.last();
        assert(chs[chs.len() - 1] == last);
        assert(names_distinct(init)) by {
            assert forall|i: int, j: int| 0 <= i < init.len() && 0 <= j < init.len() && i != j implies #[trigger] init[i].name != #[trigger] init[j].name by {
                assert(init[i] == chs[i]);
                assert(init[j] == chs[j]);
            }
        }
        assert forall|j: int| 0 <= j < init.len() implies no_quote(#[trigger] init[j].name) && keys_distinct(init[j].properties) by {
            assert(init[j] == chs[j]);
        }
        lemma_apply_channels(groups, g, gm, props, init, off);
        let rc = read_channels(init, off);
        let gm1 = GroupModel { channels: rc, ..gm };
        let f1 = FileModel { groups: groups.push((g, gm1)), properties: props };
        let off2 = off + channels_raw(init).len();
        let pc = placed_channel(g, last, off2 as u64);
        assert(placed_channels(g, chs, off).drop_last() =~= placed_channels(g, init, off));
        assert(apply_objects(f0, placed_channels(g, chs, off)) == apply_object(f1, pc));
        lemma_channel_path_target(g, last.name);
        assert(path_target(pc.path) == TargetModel::Channel(g, last.name));
        assert(f1.groups[groups.len() as int].0 == g);
        assert(key_pos(f1.groups, g) == groups.len()) by {
            let k = key_pos(f1.groups, g);
            if k != groups.len() {
                assert(f1.groups[k] == groups[k]);
            }
        }
        assert(group_or_new(f1, g) == gm1);
        lemma_read_channels_names(init, off);
        assert(!has_key(rc, last.name)) by {
            if has_key(rc, last.name) {
                let j = choose|j: int| 0 <= j < rc.len() && #[trigger] rc[j].0 == last.name;
                assert(init[j] == chs[j]);
            }
        }
        assert(channel_or_new(gm1, last.name) == new_channel(last.name));
        lemma_insert_all_fresh(last.properties);
        let chm = apply_to_channel(new_channel(last.name), pc);
        assert(chm == read_channel(last, off2));
        assert(insert_entry(rc, last.name, chm) =~= read_channels(chs, off));
        assert(insert_entry(f1.groups, g, GroupModel { channels: insert_entry(rc, last.name, chm), ..gm1 })
            =~= groups.push((g, GroupModel { channels: read_channels(chs, off), ..gm })));
    }
}

/// Whether a group's name and channels are as the reader can file them: no quotes in the
/// names, distinct channel names and distinct property names.
pub open spec fn group_fileable(grp: WGroupModel) -> bool {
    &&& no_quote(grp.name)
    &&& keys_distinct(grp.properties)
    &&& names_distinct(grp.channels)
    &&& forall|j: int| 0 <= j < grp.channels.len() ==> no_quote(#[trigger] grp.channels[j].name)
    &&& forall|j: int| 0 <= j < grp.channels.len() ==> keys_distinct(#[trigger] grp.channels[j].properties)
}

/// The index files a group, then its channels.
pub proof fn lemma_apply_group(groups: Seq<(Seq<char>, GroupModel)>, props: Seq<(Seq<char>, PropertyModel)>, grp: WGroupModel, off: nat)
    requires
        !has_key(groups, grp.name),
        group_fileable(grp),
    ensures
        apply_objects(FileModel { groups, properties: props }, placed_group(grp, off))
            == (FileModel { groups: groups.push((grp.name, read_group(grp, off))), properties: props }),
{
    let g = grp.name;
    let f = FileModel { groups, properties: props };
    let o = plain_object(group_path(g), grp.properties);
    lemma_apply_concat(f, seq![o], placed_channels(g, grp.channels, off));
    assert(seq![o].drop_last() =~= Seq::<ObjectModel>::empty());
    assert(seq![o].last() == o);
    assert(apply_objects(f, Seq::<ObjectModel>::empty()) == f);
    assert(apply_objects(f, seq![o]) == apply_object(f, o));
    lemma_group_path_target(g);
    assert(group_or_new(f, g) == new_group(g));
    lemma_insert_all_fresh(grp.properties);
    let gm = GroupModel { name: g, channels: Seq::empty(), properties: grp.properties };
    assert(apply_object(f, o) == (FileModel { groups: groups.push((g, gm)), properties: props }));
    lemma_apply_channels(groups, g, gm, props, grp.channels, off);
}

/// The index files each group in turn.
pub proof fn lemma_apply_groups(gs: Seq<(Seq<char>, WGroupModel)>, props: Seq<(Seq<char>, PropertyModel)>, off: nat)
    requires
        keys_distinct(gs),
        forall|i: int| 0 <= i < gs.len() ==> (#[trigger] gs[i]).1.name == gs[i].0,
        forall|i: int| 0 <= i < gs.len() ==> group_fileable(#[trigger] gs[i].1),
    ensures
        apply_objects(FileModel { groups: Seq::empty(), properties: props }, placed_groups(gs, off))
            == (FileModel { groups: read_groups(gs, off), properties: props }),
    decreases gs.len(),
{
    if gs.len() == 0 {
        assert(placed_groups(gs, off) =~= Seq::<ObjectModel>::empty());
        assert(read_groups(gs, off) =~= Seq::<(Seq<char>, GroupModel)>::empty());
    } else {
        let init = gs.drop_last();
        let last = gs.last();
        assert(gs[gs.len() - 1] == last);
        assert(keys_distinct(init)) by {
            assert forall|i: int, j: int| 0 <= i < init.len() && 0 <= j < init.len() && i != j implies #[trigger] init[i].0 != #[trigger] init[j].0 by {
                assert(init[i] == gs[i]);
                assert(init[j] == gs[j]);
            }
        }
        assert forall|i: int| 0 <= i < init.len() implies (#[trigger] init[i]).1.name == init[i].0 && group_fileable(init[i].1) by {
            assert(init[i] == gs[i]);
        }
        lemma_apply_groups(init, props, off);
        let f0 = FileModel { groups: Seq::empty(), properties: props };
        lemma_apply_concat(f0, placed_groups(init, off), placed_group(last.1, off + groups_raw(init).len()));
        let rg = read_groups(init, off);
        lemma_read_groups_names(init, off);
        assert(!has_key(rg, last.1.name)) by {
            if has_key(rg, last.1.name) {
                let i = choose|i: int| 0 <= i < rg.len() && #[trigger] rg[i].0 == last.1.name;
                assert(init[i] == gs[i]);
            }
        }
        lemma_apply_group(rg, props, last.1, off + groups_raw(init).len());
    }
}

/// The index files the file's properties.
pub proof fn lemma_apply_root(ps: Seq<(Seq<char>, PropertyModel)>)
    requires
        keys_distinct(ps),
    ensures
        apply_objects(empty_file(), root_objects(ps)) == (FileModel { groups: Seq::empty(), properties: ps }),
{
    if ps.len() == 0 {
        assert(root_objects(ps) =~= Seq::<ObjectModel>::empty());
        assert(ps =~= Seq::<(Seq<char>, PropertyModel)>::empty());
    } else {
        let o = plain_object(seq!['/'], ps);
        assert(root_objects(ps).drop_last() =~= Seq::<ObjectModel>::empty());
        assert(root_objects(ps).last() == o);
        lemma_root_path_target();
        lemma_insert_all_fresh(ps);
        assert(apply_objects(empty_file(), Seq::<ObjectModel>::empty()) == empty_file());
        assert(apply_objects(empty_file(), root_objects(ps)) == apply_object(empty_file(), o));
        assert(path_target(o.path) == TargetModel::Root);
    }
}

/// What the reader's index holds of a writer's file: the writer's groups, channels and
/// properties, each channel's values where the writer put them.
pub open spec fn read_back(w: WriterModel) -> FileModel {
    FileModel { groups: read_groups(w.groups, 28 + metadata_bytes(w).len()), properties: w.properties }
}

/// What a well-formed writer keeps: distinct names everywhere, each group filed under its
/// own name, and each channel's buffers as large as its count of values announces.
pub open spec fn model_wf(w: WriterModel) -> bool {
    &&& keys_distinct(w.properties)
    &&& keys_distinct(w.groups)
    &&& forall|i: int| 0 <= i < w.groups.len() ==> (#[trigger] w.groups[i]).1.name == w.groups[i].0
    &&& forall|i: int| 0 <= i < w.groups.len() ==> keys_distinct((#[trigger] w.groups[i]).1.properties)
    &&& forall|i: int| 0 <= i < w.groups.len() ==> names_distinct((#[trigger] w.groups[i]).1.channels)
    &&& forall|i: int, j: int| 0 <= i < w.groups.len() && 0 <= j < w.groups[i].1.channels.len()
        ==> keys_distinct((#[trigger] w.groups[i].1.channels[j]).properties)
    &&& forall|i: int, j: int| 0 <= i < w.groups.len() && 0 <= j < w.groups[i].1.channels.len()
        ==> data_consistent(#[trigger] w.groups[i].1.channels[j])
}

/// Whether the reader can read a writer's file back: no quote in any group or channel name,
/// and every text, count and size fits the field that records it.
pub open spec fn readable(w: WriterModel) -> bool {
    &&& props_fit(w.properties)
    &&& groups_fit(w.groups)
    &&& object_count(w) <= u32::MAX
    &&& image_of(w).len() <= u64::MAX
    &&& forall|i: int| 0 <= i < w.groups.len() ==> no_quote((#[trigger] w.groups[i]).1.name)
    &&& forall|i: int, j: int| 0 <= i < w.groups.len() && 0 <= j < w.groups[i].1.channels.len()
        ==> no_quote((#[trigger] w.groups[i].1.channels[j]).name)
}

/// The file object takes no raw data.
pub proof fn lemma_place_root(ps: Seq<(Seq<char>, PropertyModel)>, cur: u64, a: Seq<(Seq<char>, RawDataMeta)>)
    ensures
        place_objects(root_objects(ps), cur, a) == (root_objects(ps), cur, a),
{
    if ps.len() > 0 {
        let o = plain_object(seq!['/'], ps);
        assert(root_objects(ps).drop_last() =~= Seq::<ObjectModel>::empty());
        assert(root_objects(ps).last() == o);
        assert(place_objects(Seq::<ObjectModel>::empty(), cur, a) == (Seq::<ObjectModel>::empty(), cur, a));
        assert(Seq::<ObjectModel>::empty().push(o) =~= root_objects(ps));
    } else {
        assert(root_objects(ps) =~= Seq::<ObjectModel>::empty());
    }
}

/// The lead-in of the writer's file reads back as written.
pub proof fn lemma_read_lead_in(s: Seq<u8>, len: nat)
    requires
        holds_at(s, 0, lead_in_bytes(len)),
        len <= u64::MAX,
    ensures
        lead_in_at(s, 0) == Ok::<((u32, u32, u64, u64), nat), crate::error::ErrorModel>(((written_toc(), written_version(), u64::MAX, len as u64), 28)),
{
    lemma_le_lens();
    let b = lead_in_bytes(len);
    lemma_holds_split(s, 0, tag() + le_u32(written_toc()) + le_u32(written_version()) + le_u64(u64::MAX), le_u64(len as u64));
    lemma_holds_split(s, 0, tag() + le_u32(written_toc()) + le_u32(written_version()), le_u64(u64::MAX));
    lemma_holds_split3(s, 0, tag(), le_u32(written_toc()), le_u32(written_version()));
    lemma_read_u32(s, 4, written_toc());
    lemma_read_u32(s, 8, written_version());
    lemma_read_u64(s, 12, u64::MAX);
    lemma_read_u64(s, 20, len as u64);
    assert(bytes_at(s, 0, 4) == Ok::<(Seq<u8>, nat), crate::error::ErrorModel>((tag(), 4)));
}

/// The reader's index of the writer's file holds what the writer held.
#[verifier::spinoff_prover]
pub proof fn lemma_index_of_image(w: WriterModel)
    requires
        model_wf(w),
        readable(w),
    ensures
        index_of(image_of(w)) == Ok::<FileModel, crate::error::ErrorModel>(read_back(w)),
{
    let s = image_of(w);
    let meta = metadata_bytes(w);
    let raw = crate::image::groups_raw(w.groups);
    let len = meta.len();
    lemma_le_lens();
    assert(lead_in_bytes(len).len() == 28);
    assert(holds_at(s, 0, s)) by {
        assert(s.subrange(0, s.len() as int) =~= s);
    }
    lemma_holds_split3(s, 0, lead_in_bytes(len), meta, raw);
    lemma_read_lead_in(s, len);
    // The metadata: the number of objects, then the objects.
    let count = object_count(w);
    let rm = root_meta(w.properties);
    let gm = groups_meta(w.groups);
    lemma_holds_split3(s, 28, le_u32(count as u32), rm, gm);
    lemma_read_u32(s, 28, count as u32);
    lemma_read_root(s, 32, w.properties);
    lemma_read_groups(s, 32 + rm.len(), w.groups);
    let ro = root_objects(w.properties);
    let go = groups_objects(w.groups);
    lemma_objects_concat(s, 32, ro.len(), groups_object_count(w.groups), ro, go, 32 + rm.len(), 32 + rm.len() + gm.len());
    assert(ro.len() + groups_object_count(w.groups) == count);
    assert(has_new_obj_list(written_toc())) by {
        assert(0x0Eu32 & 4u32 != 0) by (bit_vector);
    }
    let os = written_objects(w);
    assert(metadata_at(s, 28, written_toc(), Seq::<Seq<char>>::empty()) == Ok::<(Seq<ObjectModel>, Seq<Seq<char>>), crate::error::ErrorModel>((os, Seq::new(os.len(), |i: int| os[i].path))));
    // The raw data of each channel, where the writer put it.
    let start: nat = 28 + len;
    assert(crate::segment::sat_add(crate::segment::sat_add(0, 28), len as u64) == start);
    let a0 = Seq::<(Seq<char>, RawDataMeta)>::empty();
    lemma_place_concat(ro, go, start as u64, a0);
    lemma_place_root(w.properties, start as u64, a0);
    assert forall|i: int, j: int| 0 <= i < w.groups.len() && 0 <= j < w.groups[i].1.channels.len() implies data_consistent(#[trigger] w.groups[i].1.channels[j]) by {}
    lemma_place_groups(w.groups, start, a0);
    let placed = ro + placed_groups(w.groups, start);
    let (d, cur, act) = place_objects(os, start as u64, initial_reader().active_meta);
    assert(d == placed);
    assert(cur == s.len());
    let st2 = ReaderModel { object_order: Seq::new(os.len(), |i: int| os[i].path), active_meta: act };
    let seg = SegmentModel {
        version: written_version(),
        next_segment_offset: u64::MAX,
        raw_data_offset: len as u64,
        toc_mask: written_toc(),
        objects: placed,
    };
    assert(segment_at(s, 0, initial_reader()) == Ok::<(SegmentModel, ReaderModel, u64), crate::error::ErrorModel>((seg, st2, s.len() as u64)));
    // Filing the objects.
    lemma_apply_concat(empty_file(), ro, placed_groups(w.groups, start));
    lemma_apply_root(w.properties);
    assert forall|i: int| 0 <= i < w.groups.len() implies group_fileable(#[trigger] w.groups[i].1) by {
        assert forall|j: int| 0 <= j < w.groups[i].1.channels.len() implies no_quote(#[trigger] w.groups[i].1.channels[j].name)
            && keys_distinct(w.groups[i].1.channels[j].properties) by {}
    }
    lemma_apply_groups(w.groups, w.properties, start);
    let f2 = apply_objects(empty_file(), placed);
    assert(f2 == read_back(w));
    // The end of the data ends the file.
    assert(bytes_at(s, s.len(), 4) is Err);
    assert(segment_at(s, s.len() as u64, st2) == Err::<(SegmentModel, ReaderModel, u64), crate::error::ErrorModel>(crate::error::ErrorModel::UnexpectedEof));
    assert(scan(s, s.len() as u64, st2, f2) == Ok::<FileModel, crate::error::ErrorModel>(f2));
}

/// The bytes of each value have the value's size, and the bytes of value `k` stand at
/// `k` times that size.
pub proof fn lemma_encode_each_at<T: ChannelValue>(data: Seq<T>, k: int)
    ensures
        encode_each(data, T::spec_encoder()).len() == data.len() * T::spec_size(),
        0 <= k < data.len() ==> encode_each(data, T::spec_encoder()).subrange(k * T::spec_size(), (k + 1) * T::spec_size())
            == (T::spec_encoder())(data[k]),
    decreases data.len(),
{
    let sz = T::spec_size();
    if data.len() > 0 {
        let init = data.drop_last();
        let e0 = encode_each(init, T::spec_encoder());
        let last = (T::spec_encoder())(data.last());
        T::lemma_value_encoding(data.last());
        lemma_encode_each_at(init, k);
        let n = data.len();
        assert(e0.len() + sz == n * sz) by (nonlinear_arith)
            requires e0.len() == (n - 1) * sz;
        if 0 <= k < data.len() {
            if k < n - 1 {
                assert((k + 1) * sz <= (n - 1) * sz && 0 <= k * sz && k * sz <= (k + 1) * sz) by (nonlinear_arith)
                    requires 0 <= k < n - 1, sz >= 0;
                assert(init[k] == data[k]);
                assert((e0 + last).subrange(k * sz, (k + 1) * sz) =~= e0.subrange(k * sz, (k + 1) * sz));
            } else {
                assert(k * sz == e0.len() && (k + 1) * sz == e0.len() + sz) by (nonlinear_arith)
                    requires k == n - 1, e0.len() == (n - 1) * sz;
                assert((e0 + last).subrange(k * sz, (k + 1) * sz) =~= last);
            }
        }
    }
}

/// The bytes of values `start .. start + n` read back as those values.
pub proof fn lemma_decode_written<T: ChannelValue>(values: Seq<T>, start: nat, n: nat)
    requires
        start + n <= values.len(),
    ensures
        decode_all::<T>(encode_each(values, T::spec_encoder()).subrange((start * T::spec_size()) as int, ((start + n) * T::spec_size()) as int))
            == values.subrange(start as int, (start + n) as int),
{
    let sz = T::spec_size();
    let e = encode_each(values, T::spec_encoder());
    lemma_encode_each_at(values, 0);
    T::lemma_value_encoding(values[0]);
    T::lemma_write_encodes(values, 0);
    assert(start * sz <= (start + n) * sz && (start + n) * sz <= values.len() * sz) by (nonlinear_arith)
        requires start + n <= values.len(), sz > 0;
    let b = e.subrange((start * sz) as int, ((start + n) * sz) as int);
    assert(b.len() == n * sz) by (nonlinear_arith)
        requires b.len() == (start + n) * sz - start * sz;
    assert(b.len() / sz == n) by (nonlinear_arith)
        requires b.len() == n * sz, sz > 0;
    assert forall|j: int| 0 <= j < n implies #[trigger] decode_all::<T>(b)[j] == values[start + j] by {
        lemma_encode_each_at(values, start + j);
        T::lemma_value_encoding(values[start + j]);
        assert(j * sz + sz == (j + 1) * sz && (start + j) * sz == start * sz + j * sz && 0 <= j * sz
            && (j + 1) * sz <= n * sz && (start + j + 1) * sz == start * sz + (j + 1) * sz
            && (start + j + 1) * sz <= values.len() * sz) by (nonlinear_arith)
            requires 0 <= j < n, sz > 0, start + n <= values.len();
        assert(b.subrange(j * sz, (j + 1) * sz) =~= e.subrange((start + j) * sz, (start + j + 1) * sz));
    }
    assert(decode_all::<T>(b) =~= values.subrange(start as int, (start + n) as int));
}

/// The raw data of the first `k` groups stands at the start of the raw data of all groups.
pub proof fn lemma_groups_raw_prefix(s: Seq<u8>, off: nat, gs: Seq<(Seq<char>, WGroupModel)>, k: int)
    requires
        holds_at(s, off, groups_raw(gs)),
        0 <= k <= gs.len(),
    ensures
        holds_at(s, off, groups_raw(gs.take(k))),
    decreases gs.len(),
{
    if k == gs.len() {
        assert(gs.take(k) =~= gs);
    } else {
        lemma_holds_split(s, off, groups_raw(gs.drop_last()), channels_raw(gs.last().1.channels));
        lemma_groups_raw_prefix(s, off, gs.drop_last(), k);
        assert(gs.drop_last().take(k) =~= gs.take(k));
    }
}

/// The raw data of the first `k` channels stands at the start of the raw data of all of them.
pub proof fn lemma_channels_raw_prefix(s: Seq<u8>, off: nat, chs: Seq<WChannelModel>, k: int)
    requires
        holds_at(s, off, channels_raw(chs)),
        0 <= k <= chs.len(),
    ensures
        holds_at(s, off, channels_raw(chs.take(k))),
    decreases chs.len(),
{
    if k == chs.len() {
        assert(chs.take(k) =~= chs);
    } else {
        lemma_holds_split(s, off, channels_raw(chs.drop_last()), channel_raw(chs.last()));
        lemma_channels_raw_prefix(s, off, chs.drop_last(), k);
        assert(chs.drop_last().take(k) =~= chs.take(k));
    }
}

/// The raw data of group `i` stands after that of the groups before it.
pub proof fn lemma_group_raw_at(s: Seq<u8>, off: nat, gs: Seq<(Seq<char>, WGroupModel)>, i: int)
    requires
        holds_at(s, off, groups_raw(gs)),
        0 <= i < gs.len(),
    ensures
        holds_at(s, off + groups_raw(gs.take(i)).len(), channels_raw(gs[i].1.channels)),
{
    lemma_groups_raw_prefix(s, off, gs, i + 1);
    let t = gs.take(i + 1);
    assert(t.drop_last() =~= gs.take(i));
    assert(t.last() == gs[i]);
    lemma_holds_split(s, off, groups_raw(gs.take(i)), channels_raw(gs[i].1.channels));
}

/// The data of channel `j` stands after that of the channels before it.
pub proof fn lemma_channel_raw_at(s: Seq<u8>, off: nat, chs: Seq<WChannelModel>, j: int)
    requires
        holds_at(s, off, channels_raw(chs)),
        0 <= j < chs.len(),
    ensures
        holds_at(s, off + channels_raw(chs.take(j)).len(), channel_raw(chs[j])),
{
    lemma_channels_raw_prefix(s, off, chs, j + 1);
    let t = chs.take(j + 1);
    assert(t.drop_last() =~= chs.take(j));
    assert(t.last() == chs[j]);
    lemma_holds_split(s, off, channels_raw(chs.take(j)), channel_raw(chs[j]));
}

/// Group `i` of the index is the writer's group `i`, its raw data after that of the groups
/// before it.
pub proof fn lemma_read_groups_at(gs: Seq<(Seq<char>, WGroupModel)>, off: nat, i: int)
    requires
        0 <= i < gs.len(),
    ensures
        read_groups(gs, off)[i] == (gs[i].0, read_group(gs[i].1, off + groups_raw(gs.take(i)).len())),
    decreases gs.len(),
{
    lemma_read_groups_names(gs.drop_last(), off);
    if i < gs.len() - 1 {
        lemma_read_groups_at(gs.drop_last(), off, i);
        assert(gs.drop_last().take(i) =~= gs.take(i));
        assert(gs.drop_last()[i] == gs[i]);
    } else {
        assert(gs.drop_last() =~= gs.take(i));
    }
}

/// Channel `j` of a group of the index is the writer's channel `j`, its values after those
/// of the channels before it.
pub proof fn lemma_read_channels_at(chs: Seq<WChannelModel>, off: nat, j: int)
    requires
        0 <= j < chs.len(),
    ensures
        read_channels(chs, off)[j] == (chs[j].name, read_channel(chs[j], off + channels_raw(chs.take(j)).len())),
    decreases chs.len(),
{
    lemma_read_channels_names(chs.drop_last(), off);
    if j < chs.len() - 1 {
        lemma_read_channels_at(chs.drop_last(), off, j);
        assert(chs.drop_last().take(j) =~= chs.take(j));
        assert(chs.drop_last()[j] == chs[j]);
    } else {
        assert(chs.drop_last() =~= chs.take(j));
    }
}

/// Gathering values `start .. start + n` of a channel whose data stands at `o` gives the
/// bytes of those values.
pub proof fn lemma_gather_channel(s: Seq<u8>, ch: WChannelModel, o: nat, start: nat, n: nat, sz: nat)
    requires
        holds_at(s, o, ch.data),
        s.len() <= u64::MAX,
        ch.data.len() == ch.count * sz,
        start + n <= ch.count,
        sz > 0,
    ensures
        gather(s, read_channel(ch, o).locations, 0, start, n, sz)
            == Ok::<Seq<u8>, crate::error::ErrorModel>(ch.data.subrange((start * sz) as int, ((start + n) * sz) as int)),
{
    let locs = read_channel(ch, o).locations;
    if n == 0 {
        assert(start * sz <= ch.count * sz) by (nonlinear_arith)
            requires start <= ch.count, sz > 0;
        assert(ch.data.subrange((start * sz) as int, ((start + n) * sz) as int) =~= Seq::<u8>::empty());
    } else {
        let loc = locs[0];
        assert(loc.number_of_values == ch.count as u64);
        assert(run_len(loc) == ch.count) by {
            let c = ch.count;
            assert((c as u64) as usize == c) by (bit_vector);
        }
        assert(o + ch.data.len() <= s.len());
        assert(loc.offset == o);
        assert(start * sz + n * sz == (start + n) * sz && (start + n) * sz <= ch.count * sz && 0 <= start * sz) by (nonlinear_arith)
            requires start + n <= ch.count, sz > 0;
        let from = loc.offset + start * sz;
        assert(gather(s, locs, 1, 0, 0, sz) == Ok::<Seq<u8>, crate::error::ErrorModel>(Seq::<u8>::empty()));
        assert(s.subrange(from, from + n * sz) + Seq::<u8>::empty() =~= ch.data.subrange((start * sz) as int, ((start + n) * sz) as int)) by {
            assert forall|k: int| 0 <= k < n * sz implies #[trigger] s.subrange(from, from + n * sz)[k] == ch.data[start * sz + k] by {
                assert(s.subrange(o as int, (o + ch.data.len()) as int)[start * sz + k] == ch.data[start * sz + k]);
            }
        }
    }
}

/// The values of a channel that the writer wrote read back from its file as written.
#[verifier::spinoff_prover]
pub proof fn lemma_written_values<T: ChannelValue>(w: WriterModel, i: int, j: int, values: Seq<T>, start: nat, n: nat)
    requires
        model_wf(w),
        readable(w),
        0 <= i < w.groups.len(),
        0 <= j < w.groups[i].1.channels.len(),
        w.groups[i].1.channels[j].data_type == T::spec_data_type(),
        w.groups[i].1.channels[j].data == T::spec_write(values, 0).1,
        w.groups[i].1.channels[j].count == values.len(),
        start + n <= values.len(),
    ensures
        read_back(w).groups[i].1.channels[j].1.dtype == T::spec_data_type(),
        read_back(w).groups[i].1.channels[j].1.len == values.len(),
        gather(image_of(w), read_back(w).groups[i].1.channels[j].1.locations, 0, start, n, T::spec_size()) matches Ok(b)
            && decode_all::<T>(b) == values.subrange(start as int, (start + n) as int),
{
    let s = image_of(w);
    let meta = metadata_bytes(w);
    let raw = crate::image::groups_raw(w.groups);
    let off: nat = 28 + meta.len();
    let ch = w.groups[i].1.channels[j];
    let chs = w.groups[i].1.channels;
    lemma_le_lens();
    assert(lead_in_bytes(meta.len()).len() == 28);
    assert(holds_at(s, 0, s)) by {
        assert(s.subrange(0, s.len() as int) =~= s);
    }
    lemma_holds_split3(s, 0, lead_in_bytes(meta.len()), meta, raw);
    lemma_group_raw_at(s, off, w.groups, i);
    let goff: nat = off + groups_raw(w.groups.take(i)).len();
    lemma_channel_raw_at(s, goff, chs, j);
    let o: nat = goff + channels_raw(chs.take(j)).len();
    lemma_read_groups_at(w.groups, off, i);
    lemma_read_channels_at(chs, goff, j);
    assert(read_back(w).groups[i].1.channels[j].1 == read_channel(ch, o));
    T::lemma_write_encodes(values, 0);
    lemma_encode_each_at(values, 0);
    assert(ch.offsets.len() == 0);
    assert(channel_raw(ch) =~= ch.data);
    let sz = T::spec_size();
    assert(sz > 0);
    lemma_gather_channel(s, ch, o, start, n, sz);
    lemma_decode_written(values, start, n);
}

/// The bytes of the first `m` strings stand at the start of the bytes of all of them.
pub proof fn lemma_concat_prefix(bs: Seq<Seq<u8>>, m: int)
    requires
        0 <= m <= bs.len(),
    ensures
        concat(bs.take(m)).len() <= concat(bs).len(),
        concat(bs).subrange(0, concat(bs.take(m)).len() as int) == concat(bs.take(m)),
    decreases bs.len(),
{
    if m == bs.len() {
        assert(bs.take(m) =~= bs);
        assert(concat(bs).subrange(0, concat(bs).len() as int) =~= concat(bs));
    } else {
        let init = bs.drop_last();
        lemma_concat_prefix(init, m);
        assert(init.take(m) =~= bs.take(m));
        let c = concat(init.take(m));
        assert(concat(bs).subrange(0, c.len() as int) =~= concat(init).subrange(0, c.len() as int));
    }
}

/// String `k` stands between the end of the strings before it and its own end.
pub proof fn lemma_concat_piece(bs: Seq<Seq<u8>>, k: int)
    requires
        0 <= k < bs.len(),
    ensures
        concat(bs.take(k + 1)) == concat(bs.take(k)) + bs[k],
        concat(bs.take(k + 1)).len() <= concat(bs).len(),
        concat(bs).subrange(concat(bs.take(k)).len() as int, concat(bs.take(k + 1)).len() as int) == bs[k],
{
    assert(bs.take(k + 1).drop_last() =~= bs.take(k));
    assert(bs.take(k + 1).last() == bs[k]);
    lemma_concat_prefix(bs, k + 1);
    let a = concat(bs.take(k)).len();
    let b = concat(bs.take(k + 1)).len();
    assert(concat(bs).subrange(a as int, b as int) =~= concat(bs.take(k + 1)).subrange(a as int, b as int)) by {
        assert forall|x: int| 0 <= x < b - a implies #[trigger] concat(bs).subrange(a as int, b as int)[x] == concat(bs.take(k + 1)).subrange(a as int, b as int)[x] by {
            assert(concat(bs).subrange(0, b as int)[a + x] == concat(bs.take(k + 1))[a + x]);
        }
    }
    assert(concat(bs.take(k + 1)).subrange(a as int, b as int) =~= bs[k]);
}

/// End offset `k` that the writer records is the end of string `k`, counted from `base`.
pub proof fn lemma_ends_bytes_at(bs: Seq<Seq<u8>>, base: nat, k: int)
    requires
        0 <= k < bs.len(),
    ensures
        ends_bytes(bs, base).subrange(4 * k, 4 * k + 4) == le_u32((base + concat(bs.take(k + 1)).len()) as u32),
    decreases bs.len(),
{
    lemma_le_lens();
    let init = bs.drop_last();
    lemma_ends_bytes_len(init, base);
    let e0 = ends_bytes(init, base);
    let last = le_u32((base + concat(bs).len()) as u32);
    if k < bs.len() - 1 {
        lemma_ends_bytes_at(init, base, k);
        assert(init.take(k + 1) =~= bs.take(k + 1));
        assert((e0 + last).subrange(4 * k, 4 * k + 4) =~= e0.subrange(4 * k, 4 * k + 4));
    } else {
        assert(bs.take(k + 1) =~= bs);
        assert((e0 + last).subrange(4 * k, 4 * k + 4) =~= last);
    }
}

/// Reading strings `start .. start + n` of the block of the writer's strings gives them.
pub proof fn lemma_run_pieces_written(bs: Seq<Seq<u8>>, ends: Seq<u32>, start: nat, n: nat)
    requires
        start + n <= bs.len(),
        ends.len() == bs.len(),
        forall|k: int| 0 <= k < bs.len() ==> #[trigger] ends[k] as nat == concat(bs.take(k + 1)).len(),
        forall|k: int| 0 <= k < bs.len() ==> valid_utf8(#[trigger] bs[k]),
    ensures
        run_pieces(concat(bs), ends, start, n, true) == Ok::<Seq<Seq<u8>>, crate::error::ErrorModel>(bs.subrange(start as int, (start + n) as int)),
    decreases n,
{
    if n == 0 {
        assert(bs.subrange(start as int, start as int) =~= Seq::<Seq<u8>>::empty());
    } else {
        lemma_run_pieces_written(bs, ends, start, (n - 1) as nat);
        let k = start + n - 1;
        lemma_concat_piece(bs, k);
        assert(piece_start(ends, k) == concat(bs.take(k)).len()) by {
            if k == 0 {
                assert(bs.take(0) =~= Seq::<Seq<u8>>::empty());
            } else {
                assert(ends[k - 1] as nat == concat(bs.take(k - 1 + 1)).len());
            }
        }
        assert(ends[k] as nat == concat(bs.take(k + 1)).len());
        assert(bs.subrange(start as int, (start + n - 1) as int).push(bs[k]) =~= bs.subrange(start as int, (start + n) as int));
    }
}

/// Reading strings `start .. start + n` of a string channel whose data (its end offsets,
/// then the bytes of its strings) stands at `o` gives those strings.
#[verifier::spinoff_prover]
pub proof fn lemma_string_pieces_channel(s: Seq<u8>, ch: WChannelModel, o: nat, bs: Seq<Seq<u8>>, start: nat, n: nat)
    requires
        holds_at(s, o, channel_raw(ch)),
        s.len() <= u64::MAX,
        ch.offsets == ends_bytes(bs, 0),
        ch.data == concat(bs),
        concat(bs).len() <= u32::MAX,
        ch.count == bs.len(),
        start + n <= bs.len(),
        forall|k: int| 0 <= k < bs.len() ==> valid_utf8(#[trigger] bs[k]),
    ensures
        string_pieces(s, read_channel(ch, o).locations, 0, start, n, true)
            == Ok::<Seq<Seq<u8>>, crate::error::ErrorModel>(bs.subrange(start as int, (start + n) as int)),
{
    let locs = read_channel(ch, o).locations;
    let count = bs.len();
    if n == 0 {
        assert(bs.subrange(start as int, start as int) =~= Seq::<Seq<u8>>::empty());
    } else {
        lemma_le_roundtrip();
        assert(bs.take(0) =~= Seq::<Seq<u8>>::empty());
        let offs = ends_bytes(bs, 0);
        lemma_ends_bytes_len(bs, 0);
        let raw = channel_raw(ch);
        assert(raw == offs + concat(bs));
        let loc = locs[0];
        assert(run_len(loc) == count) by {
            let c = ch.count;
            assert((c as u64) as usize == c) by (bit_vector);
        }
        assert(loc.offset == o);
        let ends = Seq::new(count, |k: int| spec_u32_from_le_bytes(s.subrange(o + 4 * k, o + 4 * k + 4)));
        assert(ends_at(s, o, count) == Ok::<Seq<u32>, crate::error::ErrorModel>(ends));
        assert forall|k: int| 0 <= k < bs.len() implies #[trigger] ends[k] as nat == concat(bs.take(k + 1)).len() by {
            lemma_ends_bytes_at(bs, 0, k);
            lemma_concat_prefix(bs, k + 1);
            assert(s.subrange(o + 4 * k, o + 4 * k + 4) =~= offs.subrange(4 * k, 4 * k + 4)) by {
                assert forall|x: int| 0 <= x < 4 implies #[trigger] s.subrange(o + 4 * k, o + 4 * k + 4)[x] == offs.subrange(4 * k, 4 * k + 4)[x] by {
                    assert(s.subrange(o as int, (o + raw.len()) as int)[4 * k + x] == raw[4 * k + x]);
                }
            }
        }
        lemma_concat_prefix(bs, count as int);
        assert(bs.take(count as int) =~= bs);
        let c = concat(bs);
        assert(ends[count - 1] as nat == c.len());
        let from = o + 4 * count;
        assert(s.subrange(from as int, (from + c.len()) as int) =~= c) by {
            assert forall|x: int| 0 <= x < c.len() implies #[trigger] s.subrange(from as int, (from + c.len()) as int)[x] == c[x] by {
                assert(s.subrange(o as int, (o + raw.len()) as int)[4 * count + x] == raw[4 * count + x]);
            }
        }
        assert(crate::encoding::bytes_at(s, from, ends[count - 1] as nat) == Ok::<(Seq<u8>, nat), crate::error::ErrorModel>((c, from + c.len())));
        lemma_run_pieces_written(bs, ends, start, n);
        assert(string_pieces(s, locs, 1, 0, 0, true) == Ok::<Seq<Seq<u8>>, crate::error::ErrorModel>(Seq::<Seq<u8>>::empty()));
        assert(bs.subrange(start as int, (start + n) as int) + Seq::<Seq<u8>>::empty() =~= bs.subrange(start as int, (start + n) as int));
    }
}

/// The strings of a string channel that the writer wrote read back from its file.
#[verifier::spinoff_prover]
pub proof fn lemma_written_strings(w: WriterModel, i: int, j: int, bs: Seq<Seq<u8>>, start: nat, n: nat)
    requires
        model_wf(w),
        readable(w),
        0 <= i < w.groups.len(),
        0 <= j < w.groups[i].1.channels.len(),
        w.groups[i].1.channels[j].data_type == DataType::String,
        w.groups[i].1.channels[j].offsets == ends_bytes(bs, 0),
        w.groups[i].1.channels[j].data == concat(bs),
        concat(bs).len() <= u32::MAX,
        w.groups[i].1.channels[j].count == bs.len(),
        forall|k: int| 0 <= k < bs.len() ==> valid_utf8(#[trigger] bs[k]),
        start + n <= bs.len(),
    ensures
        read_back(w).groups[i].1.channels[j].1.dtype == DataType::String,
        read_back(w).groups[i].1.channels[j].1.len == bs.len(),
        string_pieces(image_of(w), read_back(w).groups[i].1.channels[j].1.locations, 0, start, n, true)
            == Ok::<Seq<Seq<u8>>, crate::error::ErrorModel>(bs.subrange(start as int, (start + n) as int)),
{
    let s = image_of(w);
    let meta = metadata_bytes(w);
    let raw = crate::image::groups_raw(w.groups);
    let off: nat = 28 + meta.len();
    let ch = w.groups[i].1.channels[j];
    let chs = w.groups[i].1.channels;
    lemma_le_lens();
    assert(lead_in_bytes(meta.len()).len() == 28);
    assert(holds_at(s, 0, s)) by {
        assert(s.subrange(0, s.len() as int) =~= s);
    }
    lemma_holds_split3(s, 0, lead_in_bytes(meta.len()), meta, raw);
    lemma_group_raw_at(s, off, w.groups, i);
    let goff: nat = off + groups_raw(w.groups.take(i)).len();
    lemma_channel_raw_at(s, goff, chs, j);
    let o: nat = goff + channels_raw(chs.take(j)).len();
    lemma_read_groups_at(w.groups, off, i);
    lemma_read_channels_at(chs, goff, j);
    assert(read_back(w).groups[i].1.channels[j].1 == read_channel(ch, o));
    lemma_string_pieces_channel(s, ch, o, bs, start, n);
}

} // verus!
