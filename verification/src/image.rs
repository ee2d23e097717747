//! The bytes of the file that a writer produces: one segment whose lead-in announces
//! metadata, a new list of objects and raw data, then the objects, then the raw data of each
//! channel in turn.
use vstd::prelude::*;
use vstd::utf8::encode_utf8;
use vstd::string::StringSliceAdditionalSpecFns;
use crate::datatypes::{property_type, type_code, DataType, PropertyModel, PropertyValue};
use crate::encoding::{le_u16, le_u32, le_u64, le_u8, push_bytes, push_u16, push_u32, push_u64, push_u8};
use crate::names::NamedMap;
use crate::segment::{sat_add, tag};
use crate::writer::{WChannelModel, WGroupModel, WriterChannelData, WriterGroupData, WriterModel};

verus! {

/// A length-prefixed UTF-8 text: its byte length as a 32-bit number, then its bytes.
pub open spec fn text_bytes(t: Seq<char>) -> Seq<u8> {
    le_u32(encode_utf8(t).len() as u32) + encode_utf8(t)
}

/// The bytes of a property value after its type code.
pub open spec fn payload_bytes(v: PropertyModel) -> Seq<u8> {
    match v {
        PropertyModel::I8(x) => le_u8(x as u8),
        PropertyModel::I16(x) => le_u16(x as u16),
        PropertyModel::I32(x) => le_u32(x as u32),
        PropertyModel::I64(x) => le_u64(x as u64),
        PropertyModel::U8(x) => le_u8(x),
        PropertyModel::U16(x) => le_u16(x),
        PropertyModel::U32(x) => le_u32(x),
        PropertyModel::U64(x) => le_u64(x),
        PropertyModel::Float(b) => le_u32(b),
        PropertyModel::Double(b) => le_u64(b),
        PropertyModel::String(s) => text_bytes(s),
        PropertyModel::Boolean(b) => le_u8(if b { 1 } else { 0 }),
        PropertyModel::TimeStamp((secs, frac)) => le_u64(frac) + le_u64(secs as u64),
    }
}

/// A property value: its type code, then its payload.
pub open spec fn value_bytes(v: PropertyModel) -> Seq<u8> {
    le_u32(type_code(property_type(v))) + payload_bytes(v)
}

/// Each property in turn: its name, then its value.
pub open spec fn each_property_bytes(ps: Seq<(Seq<char>, PropertyModel)>) -> Seq<u8>
    decreases ps.len(),
{
    if ps.len() == 0 {
        Seq::empty()
    } else {
        each_property_bytes(ps.drop_last()) + text_bytes(ps.last().0) + value_bytes(ps.last().1)
    }
}

/// A list of properties: their number, then each of them.
pub open spec fn properties_bytes(ps: Seq<(Seq<char>, PropertyModel)>) -> Seq<u8> {
    le_u32(ps.len() as u32) + each_property_bytes(ps)
}

/// The raw data index of an object without raw data.
pub open spec fn no_raw_index() -> Seq<u8> {
    le_u32(0xFFFF_FFFFu32)
}

/// The raw data of a channel: the end offsets of its strings, if any, then the bytes of its
/// values.
pub open spec fn channel_raw(ch: WChannelModel) -> Seq<u8> {
    ch.offsets + ch.data
}

/// The raw data index of a channel: its length, type code, dimension and number of values,
/// and for strings the byte size of the offsets and the text.
pub open spec fn channel_index_bytes(ch: WChannelModel) -> Seq<u8> {
    if ch.data_type == DataType::String {
        le_u32(28) + le_u32(type_code(ch.data_type)) + le_u32(1) + le_u64(ch.count as u64)
            + le_u64(sat_add(ch.offsets.len() as u64, ch.data.len() as u64))
    } else {
        le_u32(20) + le_u32(type_code(ch.data_type)) + le_u32(1) + le_u64(ch.count as u64)
    }
}

/// One component of a path: a slash and a name in quotes.
pub open spec fn quoted(n: Seq<char>) -> Seq<char> {
    seq!['/', '\''] + n + seq!['\'']
}

/// The path of a group.
pub open spec fn group_path(g: Seq<char>) -> Seq<char> {
    quoted(g)
}

/// The path of a channel of a group.
pub open spec fn channel_path(g: Seq<char>, c: Seq<char>) -> Seq<char> {
    quoted(g) + quoted(c)
}

/// The metadata of one object: its path, its raw data index and its properties.
pub open spec fn object_bytes(path: Seq<char>, index: Seq<u8>, ps: Seq<(Seq<char>, PropertyModel)>) -> Seq<u8> {
    text_bytes(path) + index + properties_bytes(ps)
}

/// The metadata of a channel of the group `g`.
pub open spec fn channel_meta(g: Seq<char>, ch: WChannelModel) -> Seq<u8> {
    object_bytes(channel_path(g, ch.name), channel_index_bytes(ch), ch.properties)
}

/// The metadata of each channel of the group `g` in turn.
pub open spec fn channels_meta(g: Seq<char>, chs: Seq<WChannelModel>) -> Seq<u8>
    decreases chs.len(),
{
    if chs.len() == 0 {
        Seq::empty()
    } else {
        channels_meta(g, chs.drop_last()) + channel_meta(g, chs.last())
    }
}

/// The metadata of a group, then of its channels.
pub open spec fn group_meta(grp: WGroupModel) -> Seq<u8> {
    object_bytes(group_path(grp.name), no_raw_index(), grp.properties) + channels_meta(grp.name, grp.channels)
}

/// The metadata of each group in turn.
pub open spec fn groups_meta(gs: Seq<(Seq<char>, WGroupModel)>) -> Seq<u8>
    decreases gs.len(),
{
    if gs.len() == 0 {
        Seq::empty()
    } else {
        groups_meta(gs.drop_last()) + group_meta(gs.last().1)
    }
}

/// The metadata of the file object, present only where the file has properties.
pub open spec fn root_meta(ps: Seq<(Seq<char>, PropertyModel)>) -> Seq<u8> {
    if ps.len() == 0 {
        Seq::empty()
    } else {
        object_bytes(seq!['/'], no_raw_index(), ps)
    }
}

/// The number of objects of the groups: each group and each of its channels.
pub open spec fn groups_object_count(gs: Seq<(Seq<char>, WGroupModel)>) -> nat
    decreases gs.len(),
{
    if gs.len() == 0 {
        0
    } else {
        groups_object_count(gs.drop_last()) + 1 + gs.last().1.channels.len()
    }
}

/// The number of objects that a writer's file lists.
pub open spec fn object_count(w: WriterModel) -> nat {
    (if w.properties.len() == 0 { 0nat } else { 1nat }) + groups_object_count(w.groups)
}

/// The metadata of a writer's file: the number of objects, then each object.
pub open spec fn metadata_bytes(w: WriterModel) -> Seq<u8> {
    le_u32(object_count(w) as u32) + root_meta(w.properties) + groups_meta(w.groups)
}

/// The raw data of each channel in turn.
pub open spec fn channels_raw(chs: Seq<WChannelModel>) -> Seq<u8>
    decreases chs.len(),
{
    if chs.len() == 0 {
        Seq::empty()
    } else {
        channels_raw(chs.drop_last()) + channel_raw(chs.last())
    }
}

/// The raw data of each group's channels in turn.
pub open spec fn groups_raw(gs: Seq<(Seq<char>, WGroupModel)>) -> Seq<u8>
    decreases gs.len(),
{
    if gs.len() == 0 {
        Seq::empty()
    } else {
        groups_raw(gs.drop_last()) + channels_raw(gs.last().1.channels)
    }
}

/// The table of contents of the segment: metadata, a new list of objects, raw data.
pub open spec fn written_toc() -> u32 {
    0x0E
}

/// The format version that the writer records.
pub open spec fn written_version() -> u32 {
    4712
}

/// The lead-in of a segment with `meta_len` bytes of metadata, the last segment of its file.
pub open spec fn lead_in_bytes(meta_len: nat) -> Seq<u8> {
    tag() + le_u32(written_toc()) + le_u32(written_version()) + le_u64(u64::MAX) + le_u64(meta_len as u64)
}

/// The bytes of the file that a writer produces.
pub open spec fn image_of(w: WriterModel) -> Seq<u8> {
    lead_in_bytes(metadata_bytes(w).len()) + metadata_bytes(w) + groups_raw(w.groups)
}

/// The objects of the first `i` groups are no more than those of all groups.
pub proof fn lemma_count_prefix(gs: Seq<(Seq<char>, WGroupModel)>, i: int)
    requires
        0 <= i <= gs.len(),
    ensures
        groups_object_count(gs.take(i)) <= groups_object_count(gs),
    decreases gs.len(),
{
    if i < gs.len() {
        lemma_count_prefix(gs.drop_last(), i);
        assert(gs.drop_last().take(i) =~= gs.take(i));
    } else {
        assert(gs.take(i) =~= gs);
    }
}

/// Appends a length-prefixed text.
pub fn push_text(buf: &mut Vec<u8>, t: &str)
    ensures
        final(buf)@ == old(buf)@ + text_bytes(t@),
{
    let b = t.as_bytes();
    push_u32(buf, b.len() as u32);
    push_bytes(buf, b);
    assert(final(buf)@ =~= old(buf)@ + text_bytes(t@));
}

/// Appends a property value: its type code and its payload.
pub fn push_value(buf: &mut Vec<u8>, v: &PropertyValue)
    ensures
        final(buf)@ == old(buf)@ + value_bytes(v@),
{
    let ghost b0 = buf@;
    match v {
        PropertyValue::I8(x) => {
            push_u32(buf, DataType::I8.to_u32());
            push_u8(buf, *x as u8);
        },
        PropertyValue::I16(x) => {
            push_u32(buf, DataType::I16.to_u32());
            push_u16(buf, *x as u16);
        },
        PropertyValue::I32(x) => {
            push_u32(buf, DataType::I32.to_u32());
            push_u32(buf, *x as u32);
        },
        PropertyValue::I64(x) => {
            push_u32(buf, DataType::I64.to_u32());
            push_u64(buf, *x as u64);
        },
        PropertyValue::U8(x) => {
            push_u32(buf, DataType::U8.to_u32());
            push_u8(buf, *x);
        },
        PropertyValue::U16(x) => {
            push_u32(buf, DataType::U16.to_u32());
            push_u16(buf, *x);
        },
        PropertyValue::U32(x) => {
            push_u32(buf, DataType::U32.to_u32());
            push_u32(buf, *x);
        },
        PropertyValue::U64(x) => {
            push_u32(buf, DataType::U64.to_u32());
            push_u64(buf, *x);
        },
        PropertyValue::Float(x) => {
            push_u32(buf, DataType::Float.to_u32());
            push_u32(buf, *x);
        },
        PropertyValue::Double(x) => {
            push_u32(buf, DataType::Double.to_u32());
            push_u64(buf, *x);
        },
        PropertyValue::String(s) => {
            push_u32(buf, DataType::String.to_u32());
            push_text(buf, s.as_str());
        },
        PropertyValue::Boolean(b) => {
            push_u32(buf, DataType::Boolean.to_u32());
            push_u8(buf, if *b { 1 } else { 0 });
        },
        PropertyValue::TimeStamp((secs, frac)) => {
            push_u32(buf, DataType::TimeStamp.to_u32());
            push_u64(buf, *frac);
            push_u64(buf, *secs as u64);
        },
    }
    assert(buf@ =~= b0 + value_bytes(v@));
}

/// Appends a list of properties: their number, then each name and value.
pub fn push_properties(buf: &mut Vec<u8>, props: &NamedMap<PropertyValue>)
    requires
        props.wf(),
    ensures
        final(buf)@ == old(buf)@ + properties_bytes(props@),
{
    let ghost b0 = buf@;
    let ghost ps = props@;
    let n = props.len();
    push_u32(buf, n as u32);
    let mut i: usize = 0;
    while i < n
        invariant
            props.wf(),
            ps == props@,
            n == ps.len(),
            i <= n,
            buf@ == b0 + le_u32(n as u32) + each_property_bytes(ps.take(i as int)),
        decreases n - i,
    {
        proof {
            props.lemma_view_value(i as int);
            assert(ps.take(i + 1).drop_last() =~= ps.take(i as int));
        }
        push_text(buf, props.name_at(i).as_str());
        push_value(buf, props.value_at(i));
        i = i + 1;
        assert(buf@ =~= b0 + le_u32(n as u32) + each_property_bytes(ps.take(i as int)));
    }
    assert(ps.take(n as int) =~= ps);
    assert(buf@ =~= b0 + properties_bytes(ps));
}

/// Appends the raw data index of a channel.
pub fn push_channel_index(buf: &mut Vec<u8>, ch: &WriterChannelData)
    ensures
        final(buf)@ == old(buf)@ + channel_index_bytes(ch@),
{
    let ghost b0 = buf@;
    if ch.data_type == DataType::String {
        push_u32(buf, 28);
        push_u32(buf, ch.data_type.to_u32());
        push_u32(buf, 1);
        push_u64(buf, ch.count as u64);
        push_u64(buf, (ch.offsets.len() as u64).saturating_add(ch.data.len() as u64));
    } else {
        push_u32(buf, 20);
        push_u32(buf, ch.data_type.to_u32());
        push_u32(buf, 1);
        push_u64(buf, ch.count as u64);
    }
    assert(buf@ =~= b0 + channel_index_bytes(ch@));
}

/// Appends a slash and a name in quotes to a path.
fn push_quoted(path: &mut String, n: &str)
    ensures
        final(path)@ == old(path)@ + quoted(n@),
{
    path.append("/'");
    path.append(n);
    path.append("'");
    proof {
        reveal_strlit("/'");
        reveal_strlit("'");
    }
    assert(final(path)@ =~= old(path)@ + quoted(n@));
}

/// Appends the metadata of a group's channels.
pub fn push_channels_meta(buf: &mut Vec<u8>, g: &str, chs: &Vec<WriterChannelData>)
    requires
        forall|i: int| 0 <= i < chs@.len() ==> (#[trigger] chs@[i]).properties.wf(),
    ensures
        final(buf)@ == old(buf)@ + channels_meta(g@, crate::writer::wchannels_view(chs@)),
{
    let ghost b0 = buf@;
    let ghost v = crate::writer::wchannels_view(chs@);
    let mut i: usize = 0;
    while i < chs.len()
        invariant
            i <= chs@.len(),
            v == crate::writer::wchannels_view(chs@),
            forall|k: int| 0 <= k < chs@.len() ==> (#[trigger] chs@[k]).properties.wf(),
            buf@ == b0 + channels_meta(g@, v.take(i as int)),
        decreases chs@.len() - i,
    {
        let ch = &chs[i];
        assert(v[i as int] == ch@);
        let mut path = String::new();
        push_quoted(&mut path, g);
        push_quoted(&mut path, ch.name.as_str());
        push_text(buf, path.as_str());
        push_channel_index(buf, ch);
        push_properties(buf, &ch.properties);
        proof {
            assert(v.take(i + 1).drop_last() =~= v.take(i as int));
            assert(path@ =~= channel_path(g@, ch@.name));
        }
        i = i + 1;
        assert(buf@ =~= b0 + channels_meta(g@, v.take(i as int)));
    }
    assert(v.take(chs@.len() as int) =~= v);
}

/// Appends the metadata of a group and of its channels.
pub fn push_group_meta(buf: &mut Vec<u8>, grp: &WriterGroupData)
    requires
        grp.wf(),
    ensures
        final(buf)@ == old(buf)@ + group_meta(grp@),
{
    let ghost b0 = buf@;
    let mut path = String::new();
    push_quoted(&mut path, grp.name.as_str());
    assert(path@ =~= group_path(grp@.name));
    push_text(buf, path.as_str());
    push_u32(buf, 0xFFFF_FFFF);
    push_properties(buf, &grp.properties);
    push_channels_meta(buf, grp.name.as_str(), &grp.channels);
    assert(buf@ =~= b0 + group_meta(grp@));
}

/// Appends the raw data of a group's channels.
pub fn push_group_raw(buf: &mut Vec<u8>, grp: &WriterGroupData)
    ensures
        final(buf)@ == old(buf)@ + channels_raw(grp@.channels),
{
    let ghost b0 = buf@;
    let ghost v = grp@.channels;
    let mut i: usize = 0;
    while i < grp.channels.len()
        invariant
            i <= grp.channels@.len(),
            v == crate::writer::wchannels_view(grp.channels@),
            buf@ == b0 + channels_raw(v.take(i as int)),
        decreases grp.channels@.len() - i,
    {
        assert(v[i as int] == grp.channels@[i as int]@);
        push_bytes(buf, grp.channels[i].offsets.as_slice());
        push_bytes(buf, grp.channels[i].data.as_slice());
        proof {
            assert(v.take(i + 1).drop_last() =~= v.take(i as int));
        }
        i = i + 1;
        assert(buf@ =~= b0 + channels_raw(v.take(i as int)));
    }
    assert(v.take(grp.channels@.len() as int) =~= v);
}

} // verus!
