//! What holds of the library as a whole, across its functions.
use vstd::prelude::*;
use crate::image::image_of;
use crate::index::{empty_file, file_wf, index_of, lemma_index_of_wf, FileModel};
use crate::segment::{
    has_new_obj_list, initial_reader, lead_in_at, place_objects, repeated_objects, sat_add, segment_at, tag, ObjectModel,
    RawDataMeta, ReaderModel, SegmentModel,
};
use crate::datatypes::PropertyModel;
use crate::error::ErrorModel;
use crate::tail::{lemma_scan_extend, scan_stop};
use crate::image::{payload_bytes, properties_bytes, text_bytes};
use crate::encoding::le_u32;
use crate::roundtrip::{holds_at, lemma_holds_split3, lemma_le_lens, lemma_read_properties, lemma_read_text, lemma_read_u32, props_fit, text_fits};
use crate::segment::{object_at, place_object, raw_index_at, value_at, DataLocation};
use vstd::bytes::{spec_u16_from_le_bytes, spec_u32_from_le_bytes, spec_u16_to_le_bytes, spec_u32_to_le_bytes, spec_u64_from_le_bytes, spec_u64_to_le_bytes};
use crate::text::{all_digits, lemma_padded_chars, lemma_signed_chars, padded_chars, signed_chars, value_text, writes_integer};
use crate::bench::{digits_value, is_digit};
use crate::runs::{lemma_gather_runs, lemma_runs_strings_len, lemma_string_pieces_runs, runs_bytes, runs_in, runs_strings, strings_in, values_from};
use crate::cut::{head_end, lemma_segment_cut};
use crate::roundtrip::{lemma_index_of_image, lemma_written_strings, lemma_written_values, read_back, readable};
use crate::datatypes::{type_size, DataType};
use crate::reader::TdmsChannel;
use crate::reader::string_pieces;
use crate::writable::{ends_bytes, write_strings};
use crate::reader::concat;
use vstd::utf8::{decode_utf8, encode_utf8, encode_utf8_decode_utf8, encode_utf8_valid_utf8};
use crate::element::ChannelValue;
use crate::reader::{decode_all, gather};
use crate::writable::{encode_each, WritableType};
use crate::writer::{channel_of, channel_pos, channel_present, group_of, group_with_channels, with_channel, WriterChannel, WriterModel, add_channel_to, add_group_to, channel_written, channels_sorted, has_channel, TdmsWriter, WChannelModel, WGroupModel};
use crate::names::{has_key, insert_entry, key_pos, keys_distinct, lemma_insert_entry_distinct, lemma_insert_then_update, lemma_key_pos_unique, lookup};
use crate::roundtrip::{model_wf, names_distinct};

verus! {

/// A file that a writer produces reads back with what the writer held: the reader's index
/// of [`TdmsWriter::file_image`] lists the writer's groups in the order in which they were
/// added, each with its properties and with its channels in the order of their names; each
/// channel has its data type, its number of values, its properties, and its values in one
/// run at the place where the writer put them; and the file has the writer's file-level
/// properties. This holds where no group or channel name holds a quote, every name, text,
/// count and size fits the field that records it, and each channel's data holds as many
/// bytes as its values take (see [`readable`]).
pub proof fn law_written_file_reads_back(w: TdmsWriter)
    requires
        w.wf(),
        readable(w@),
    ensures
        index_of(image_of(w@)) == Ok::<FileModel, crate::error::ErrorModel>(read_back(w@)),
{
    w.lemma_model_wf();
    lemma_index_of_image(w@);
}

/// Values written to a channel read back as written: where a channel of the writer holds
/// the values `values` of an element type `T` (its data is what writing them appends and
/// its count is their number), the reader's index of the writer's file gives the channel
/// `T`'s data type and that many values, and the bytes gathered for the values
/// `start .. start + n` decode as `T` to exactly those values.
pub proof fn law_written_values_read_back<T: ChannelValue>(
    w: TdmsWriter,
    i: int,
    j: int,
    values: Seq<T>,
    start: nat,
    n: nat,
)
    requires
        w.wf(),
        readable(w@),
        0 <= i < w@.groups.len(),
        0 <= j < w@.groups[i].1.channels.len(),
        w@.groups[i].1.channels[j].data_type == T::spec_data_type(),
        w@.groups[i].1.channels[j].data == T::spec_write(values, 0).1,
        w@.groups[i].1.channels[j].count == values.len(),
        start + n <= values.len(),
    ensures
        read_back(w@).groups[i].1.channels[j].1.dtype == T::spec_data_type(),
        read_back(w@).groups[i].1.channels[j].1.len == values.len(),
        gather(image_of(w@), read_back(w@).groups[i].1.channels[j].1.locations, 0, start, n, T::spec_size()) matches Ok(b)
            && decode_all::<T>(b) == values.subrange(start as int, (start + n) as int),
{
    w.lemma_model_wf();
    lemma_written_values(w@, i, j, values, start, n);
}

/// Two writes of fixed-size values append what one write of all of them appends, to a
/// channel that holds any number of bytes before each.
pub proof fn law_writes_append<T: ChannelValue>(a: Seq<T>, b: Seq<T>, base: nat, base2: nat)
    ensures
        T::spec_write(a + b, base).1 == T::spec_write(a, base).1 + T::spec_write(b, base2).1,
        T::spec_write(a + b, base).0 == Seq::<u8>::empty(),
        T::spec_write(a + b, base).2,
{
    T::lemma_write_encodes(a, base);
    T::lemma_write_encodes(b, base2);
    T::lemma_write_encodes(a + b, base);
    lemma_encode_each_concat(a, b, T::spec_encoder());
}

/// Two writes of fixed-size values leave a channel as one write of all of them does.
pub proof fn law_two_writes_one_write<T: ChannelValue>(ch: WChannelModel, a: Seq<T>, b: Seq<T>)
    requires
        ch.count + a.len() + b.len() <= usize::MAX,
    ensures
        ({
            let (o1, b1, _ok1) = T::spec_write(a, ch.data.len());
            let c1 = channel_written(ch, o1, b1, a.len() as int);
            let (o2, b2, _ok2) = T::spec_write(b, c1.data.len());
            let (o, bb, _ok) = T::spec_write(a + b, ch.data.len());
            channel_written(c1, o2, b2, b.len() as int) == channel_written(ch, o, bb, (a.len() + b.len()) as int)
        }),
{
    let (o1, b1, _ok1) = T::spec_write(a, ch.data.len());
    let c1 = channel_written(ch, o1, b1, a.len() as int);
    law_writes_append(a, b, ch.data.len(), c1.data.len());
    T::lemma_write_encodes(a, ch.data.len());
    T::lemma_write_encodes(b, c1.data.len());
    let (o2, b2, _ok2) = T::spec_write(b, c1.data.len());
    let (o, bb, _ok) = T::spec_write(a + b, ch.data.len());
    assert(ch.offsets + o1 + o2 =~= ch.offsets + o);
    assert(ch.data + b1 + b2 =~= ch.data + bb);
}

/// The bytes of two lists of strings are those of the first, then of the second.
pub proof fn lemma_concat_append(a: Seq<Seq<u8>>, b: Seq<Seq<u8>>)
    ensures
        concat(a + b) == concat(a) + concat(b),
    decreases b.len(),
{
    if b.len() == 0 {
        assert(a + b =~= a);
        assert(concat(a) + Seq::<u8>::empty() =~= concat(a));
    } else {
        assert((a + b).drop_last() =~= a + b.drop_last());
        assert((a + b).last() == b.last());
        lemma_concat_append(a, b.drop_last());
        assert(concat(a) + concat(b.drop_last()) + b.last() =~= concat(a) + (concat(b.drop_last()) + b.last()));
    }
}

/// The end offsets of two lists of strings are those of the first, then those of the
/// second counted on from the end of the first.
pub proof fn lemma_ends_bytes_append(a: Seq<Seq<u8>>, b: Seq<Seq<u8>>, base: nat)
    ensures
        ends_bytes(a + b, base) == ends_bytes(a, base) + ends_bytes(b, base + concat(a).len()),
    decreases b.len(),
{
    if b.len() == 0 {
        assert(a + b =~= a);
        assert(ends_bytes(a, base) + Seq::<u8>::empty() =~= ends_bytes(a, base));
    } else {
        assert((a + b).drop_last() =~= a + b.drop_last());
        lemma_ends_bytes_append(a, b.drop_last(), base);
        lemma_concat_append(a, b);
        let last = crate::encoding::le_u32((base + concat(a + b).len()) as u32);
        assert(ends_bytes(a, base) + ends_bytes(b.drop_last(), base + concat(a).len()) + last
            =~= ends_bytes(a, base) + (ends_bytes(b.drop_last(), base + concat(a).len()) + last));
    }
}

/// Two writes of strings append what one write of all of them appends: their end offsets
/// form one table, counted on across the writes, and their bytes follow one another; the
/// two writes succeed exactly when the one write does. (The second write starts where the
/// first left the channel's bytes.)
pub proof fn law_string_writes_append(a: Seq<Seq<u8>>, b: Seq<Seq<u8>>, base: nat)
    ensures
        (write_strings(a, base).2 && write_strings(b, base + concat(a).len()).2) == write_strings(a + b, base).2,
        write_strings(a + b, base).2 ==> {
            &&& write_strings(a + b, base).0 == write_strings(a, base).0 + write_strings(b, base + concat(a).len()).0
            &&& write_strings(a + b, base).1 == write_strings(a, base).1 + write_strings(b, base + concat(a).len()).1
        },
{
    lemma_concat_append(a, b);
    lemma_ends_bytes_append(a, b, base);
    if a.len() == 0 {
        assert(a + b =~= b);
        assert(concat(a) =~= Seq::<u8>::empty());
    }
    if b.len() == 0 {
        assert(a + b =~= a);
        assert(concat(b) =~= Seq::<u8>::empty());
    }
}

/// Two writes of strings leave a channel as one write of all of them does, where both
/// succeed.
pub proof fn law_two_string_writes_one_write(ch: WChannelModel, a: Seq<String>, b: Seq<String>)
    requires
        ch.count + a.len() + b.len() <= usize::MAX,
        <String as WritableType>::spec_write(a, ch.data.len()).2,
        <String as WritableType>::spec_write(b, ch.data.len() + <String as WritableType>::spec_write(a, ch.data.len()).1.len()).2,
    ensures
        ({
            let (o1, b1, _ok1) = <String as WritableType>::spec_write(a, ch.data.len());
            let c1 = channel_written(ch, o1, b1, a.len() as int);
            let (o2, b2, _ok2) = <String as WritableType>::spec_write(b, c1.data.len());
            let (o, bb, ok) = <String as WritableType>::spec_write(a + b, ch.data.len());
            &&& ok
            &&& channel_written(c1, o2, b2, b.len() as int) == channel_written(ch, o, bb, (a.len() + b.len()) as int)
        }),
{
    let ua = Seq::new(a.len(), |k: int| encode_utf8(a[k]@));
    let ub = Seq::new(b.len(), |k: int| encode_utf8(b[k]@));
    let uab = Seq::new((a + b).len(), |k: int| encode_utf8((a + b)[k]@));
    assert(uab =~= ua + ub);
    law_string_writes_append(ua, ub, ch.data.len());
    let (o1, b1, _ok1) = <String as WritableType>::spec_write(a, ch.data.len());
    let (o2, b2, _ok2) = <String as WritableType>::spec_write(b, ch.data.len() + b1.len());
    let (o, bb, _ok) = <String as WritableType>::spec_write(a + b, ch.data.len());
    assert(ch.offsets + o1 + o2 =~= ch.offsets + o);
    assert(ch.data + b1 + b2 =~= ch.data + bb);
}

/// Encoding two lists one after the other encodes their concatenation.
proof fn lemma_encode_each_concat<T>(a: Seq<T>, b: Seq<T>, enc: spec_fn(T) -> Seq<u8>)
    ensures
        encode_each(a + b, enc) == encode_each(a, enc) + encode_each(b, enc),
    decreases b.len(),
{
    if b.len() == 0 {
        assert(a + b =~= a);
        assert(encode_each(a, enc) + Seq::<u8>::empty() =~= encode_each(a, enc));
    } else {
        assert((a + b).drop_last() =~= a + b.drop_last());
        assert((a + b).last() == b.last());
        lemma_encode_each_concat(a, b.drop_last(), enc);
        assert(encode_each(a, enc) + encode_each(b.drop_last(), enc) + enc(b.last())
            =~= encode_each(a, enc) + (encode_each(b.drop_last(), enc) + enc(b.last())));
    }
}

/// The UTF-8 bytes of each text.
pub open spec fn utf8_of(texts: Seq<Seq<char>>) -> Seq<Seq<u8>> {
    Seq::new(texts.len(), |k: int| encode_utf8(texts[k]))
}

/// Strings written to a channel read back as written: where a string channel of the writer
/// holds the texts `texts` (what one write of them, or several writes that together wrote
/// them in order, leave: one table of their end offsets, their bytes, and their number;
/// see [`law_two_string_writes_one_write`]), the reader's index of the writer's file gives
/// the channel the string data type and that many values, and the strings read for
/// `start .. start + n` decode to exactly those texts.
pub proof fn law_written_strings_read_back(
    w: TdmsWriter,
    i: int,
    j: int,
    texts: Seq<Seq<char>>,
    start: nat,
    n: nat,
)
    requires
        w.wf(),
        readable(w@),
        0 <= i < w@.groups.len(),
        0 <= j < w@.groups[i].1.channels.len(),
        w@.groups[i].1.channels[j].data_type == DataType::String,
        w@.groups[i].1.channels[j].offsets == ends_bytes(utf8_of(texts), 0),
        w@.groups[i].1.channels[j].data == concat(utf8_of(texts)),
        concat(utf8_of(texts)).len() <= u32::MAX,
        w@.groups[i].1.channels[j].count == texts.len(),
        start + n <= texts.len(),
    ensures
        read_back(w@).groups[i].1.channels[j].1.dtype == DataType::String,
        read_back(w@).groups[i].1.channels[j].1.len == texts.len(),
        string_pieces(image_of(w@), read_back(w@).groups[i].1.channels[j].1.locations, 0, start, n, true) matches Ok(ps)
            && ps.len() == n
            && forall|k: int| 0 <= k < n ==> #[trigger] decode_utf8(ps[k]) == texts[start + k],
{
    w.lemma_model_wf();
    let bs = utf8_of(texts);
    assert forall|k: int| 0 <= k < bs.len() implies vstd::utf8::valid_utf8(#[trigger] bs[k]) by {
        encode_utf8_valid_utf8(texts[k]);
    }
    lemma_written_strings(w@, i, j, bs, start, n);
    assert forall|k: int| 0 <= k < n implies #[trigger] decode_utf8(bs.subrange(start as int, (start + n) as int)[k]) == texts[start + k] by {
        encode_utf8_decode_utf8(texts[start + k]);
    }
}

/// Adding a group that the writer already holds changes nothing: adding a name twice is
/// adding it once.
pub proof fn law_add_group_twice(gs: Seq<(Seq<char>, WGroupModel)>, g: Seq<char>)
    ensures
        add_group_to(add_group_to(gs, g), g) == add_group_to(gs, g),
        has_key(add_group_to(gs, g), g),
{
    if !has_key(gs, g) {
        assert(add_group_to(gs, g)[gs.len() as int].0 == g);
    }
}

/// Adding a channel that the group already holds changes nothing, whatever element type
/// the second addition names.
pub proof fn law_add_channel_twice(chs: Seq<WChannelModel>, c: Seq<char>, t1: DataType, t2: DataType)
    requires
        channels_sorted(chs),
    ensures
        add_channel_to(add_channel_to(chs, c, t1), c, t2) == add_channel_to(chs, c, t1),
        has_channel(add_channel_to(chs, c, t1), c),
{
    if !has_channel(chs, c) {
        let p = crate::writer::sorted_pos(chs, c);
        crate::writer::lemma_sorted_pos_exists(chs, c);
        assert(add_channel_to(chs, c, t1)[p].name == c);
    }
}

/// Filing a property under a name replaces the value filed under it, where there is one,
/// keeping its place, and leaves every other name's value as it was; names stay distinct.
pub proof fn law_property_replaces<W>(e: Seq<(Seq<char>, W)>, k: Seq<char>, v: W, other: Seq<char>)
    requires
        keys_distinct(e),
    ensures
        keys_distinct(insert_entry(e, k, v)),
        lookup(insert_entry(e, k, v), k) == Some(v),
        other != k ==> lookup(insert_entry(e, k, v), other) == lookup(e, other),
        has_key(e, k) ==> insert_entry(e, k, v).len() == e.len(),
        !has_key(e, k) ==> insert_entry(e, k, v).len() == e.len() + 1,
{
    lemma_insert_entry_distinct(e, k, v);
    let r = insert_entry(e, k, v);
    if other != k {
        if has_key(e, other) {
            let p = crate::names::key_pos(e, other);
            assert(r[p].0 == other);
            crate::names::lemma_key_pos_unique(r, p);
        } else {
            assert(!has_key(r, other)) by {
                if has_key(r, other) {
                    let q = crate::names::key_pos(r, other);
                    if q < e.len() {
                        assert(r[q] == e[q] || r[q].0 == k);
                    }
                }
            }
        }
    }
}

/// Every file that the reader indexes files each group under its own name and each channel
/// of a group under its own name, and no file, group or channel property name, group name
/// or channel name of a group occurs twice. So a group (or channel) found by name is the one
/// of that name among all the groups (or channels), and the properties listed are each
/// name's value once.
pub proof fn law_index_names_filed_once(data: Seq<u8>)
    ensures
        index_of(data) matches Ok(f) ==> file_wf(f),
{
    lemma_index_of_wf(data);
}

/// A tail that does not complete a further segment changes nothing: where the reader,
/// reading `s`, stopped at a segment that it could not read, and the bytes `t` added after
/// `s` leave that segment unreadable in the same way (as a `t` shorter than that segment's
/// lead-in and metadata does), the file `s + t` indexes as `s` does.
pub proof fn law_truncated_tail_ignored(s: Seq<u8>, t: Seq<u8>)
    requires
        segment_at(s, scan_stop(s, 0, initial_reader()).0, scan_stop(s, 0, initial_reader()).1) is Err ==>
            segment_at(s + t, scan_stop(s, 0, initial_reader()).0, scan_stop(s, 0, initial_reader()).1)
                == segment_at(s, scan_stop(s, 0, initial_reader()).0, scan_stop(s, 0, initial_reader()).1),
    ensures
        index_of(s + t) == index_of(s),
{
    assert((s + t).subrange(0, s.len() as int) =~= s);
    lemma_scan_extend(s, s + t, 0, initial_reader(), empty_file());
}

/// An element type that a channel can be both written from and read into has the size of
/// its channel's data type, which is not the string type: so a read of a channel written
/// through `WriterChannel<T>` as `T` passes the element-size check of [`TdmsChannel::read`].
pub proof fn law_element_size_matches<T: ChannelValue>()
    ensures
        T::spec_size() == type_size(T::spec_data_type()),
        T::spec_data_type() != DataType::String,
        T::spec_size() > 0,
{
    T::lemma_write_encodes(Seq::<T>::empty(), 0);
}

/// Replacing a channel of a well-formed writer by one of the same name, then by another,
/// replaces it once by the other; in between, the channel found under that name is the one
/// put there.
pub proof fn lemma_with_channel_twice(w: WriterModel, g: Seq<char>, c: Seq<char>, x: WChannelModel, y: WChannelModel)
    requires
        model_wf(w),
        channel_present(w, g, c),
        x.name == c,
    ensures
        channel_present(with_channel(w, g, c, x), g, c),
        channel_of(with_channel(w, g, c, x), g, c) == x,
        with_channel(with_channel(w, g, c, x), g, c, y) == with_channel(w, g, c, y),
{
    let kp = key_pos(w.groups, g);
    assert(w.groups[kp].0 == g);
    let grp = group_of(w, g);
    assert(names_distinct(w.groups[kp].1.channels));
    let p = channel_pos(grp.channels, c);
    assert(grp.channels[p].name == c);
    let chs1 = grp.channels.update(p, x);
    let grp1 = group_with_channels(grp, chs1);
    lemma_insert_entry_distinct(w.groups, g, grp1);
    let g1 = insert_entry(w.groups, g, grp1);
    assert(g1[kp].0 == g);
    lemma_key_pos_unique(g1, kp);
    let w1 = with_channel(w, g, c, x);
    assert(w1.groups == g1);
    assert(group_of(w1, g) == grp1);
    assert(chs1[p].name == c);
    assert(channel_pos(chs1, c) == p) by {
        let q = channel_pos(chs1, c);
        if q != p {
            assert(chs1[q] == grp.channels[q]);
        }
    }
    assert(channel_of(w1, g, c) == x);
    let grp2 = group_with_channels(grp, grp.channels.update(p, y));
    assert(group_with_channels(grp1, chs1.update(p, y)) == grp2) by {
        assert(chs1.update(p, y) =~= grp.channels.update(p, y));
    }
    lemma_insert_then_update(w.groups, g, grp1, grp2, kp);
}

/// Two writes of fixed-size values to a channel leave the writer as one write of all of
/// them does: both writes succeed, the channel keeps its data type, and the writer reaches
/// the state that one write of `a` followed by `b` reaches (see [`WriterChannel::write`]).
pub proof fn law_two_writes_one_write_writer<T: ChannelValue>(w: TdmsWriter, g: Seq<char>, c: Seq<char>, a: Seq<T>, b: Seq<T>)
    requires
        w.wf(),
        channel_present(w@, g, c),
        channel_of(w@, g, c).data_type == T::spec_data_type(),
        channel_of(w@, g, c).count + a.len() + b.len() <= usize::MAX,
    ensures
        ({
            let ch = channel_of(w@, g, c);
            let (o1, b1, ok1) = T::spec_write(a, ch.data.len());
            let w1 = with_channel(w@, g, c, channel_written(ch, o1, b1, a.len() as int));
            let ch1 = channel_of(w1, g, c);
            let (o2, b2, ok2) = T::spec_write(b, ch1.data.len());
            let (o, bb, ok) = T::spec_write(a + b, ch.data.len());
            &&& ok1 && ok2 && ok
            &&& channel_present(w1, g, c)
            &&& ch1 == channel_written(ch, o1, b1, a.len() as int)
            &&& with_channel(w1, g, c, channel_written(ch1, o2, b2, b.len() as int))
                == with_channel(w@, g, c, channel_written(ch, o, bb, (a.len() + b.len()) as int))
        }),
{
    w.lemma_model_wf();
    let ch = channel_of(w@, g, c);
    let grp = group_of(w@, g);
    assert(grp.channels[channel_pos(grp.channels, c)].name == c);
    let (o1, b1, ok1) = T::spec_write(a, ch.data.len());
    let x = channel_written(ch, o1, b1, a.len() as int);
    let ch1 = x;
    let (o2, b2, ok2) = T::spec_write(b, ch1.data.len());
    let y = channel_written(ch1, o2, b2, b.len() as int);
    lemma_with_channel_twice(w@, g, c, x, y);
    law_two_writes_one_write(ch, a, b);
    T::lemma_write_encodes(a, ch.data.len());
    T::lemma_write_encodes(b, ch1.data.len());
    T::lemma_write_encodes(a + b, ch.data.len());
}

/// A file of complete segments, read to its last byte, reads the same with a tail that holds
/// less than a further segment's lead-in (and begins with the lead-in's tag, where it holds
/// that much): the reader stops at the tail for want of data.
pub proof fn law_short_tail_ignored(s: Seq<u8>, t: Seq<u8>)
    requires
        scan_stop(s, 0, initial_reader()).0 == s.len(),
        t.len() < 28,
        t.len() >= 4 ==> t.subrange(0, 4) == tag(),
    ensures
        index_of(s + t) == index_of(s),
{
    let q = scan_stop(s, 0, initial_reader()).0;
    let st = scan_stop(s, 0, initial_reader()).1;
    let s2 = s + t;
    assert(segment_at(s, q, st) == Err::<(SegmentModel, ReaderModel, u64), ErrorModel>(ErrorModel::UnexpectedEof));
    if t.len() >= 4 {
        assert(s2.subrange(s.len() as int, (s.len() + 4) as int) =~= t.subrange(0, 4));
    }
    assert(segment_at(s2, q, st) == Err::<(SegmentModel, ReaderModel, u64), ErrorModel>(ErrorModel::UnexpectedEof));
    law_truncated_tail_ignored(s, t);
}

/// A file of complete segments, read to its last byte, reads the same with a tail that is
/// the beginning of a further segment, cut before the end of that segment's lead-in and
/// metadata: the reader stops at the tail for want of data.
pub proof fn law_cut_segment_ignored(s: Seq<u8>, u: Seq<u8>, k: nat)
    requires
        scan_stop(s, 0, initial_reader()).0 == s.len(),
        segment_at(s + u, s.len() as u64, scan_stop(s, 0, initial_reader()).1) is Ok,
        k <= u.len(),
        s.len() + k < head_end(s + u, s.len()),
    ensures
        index_of(s + u.subrange(0, k as int)) == index_of(s),
{
    let q = scan_stop(s, 0, initial_reader()).0;
    let st = scan_stop(s, 0, initial_reader()).1;
    let t = u.subrange(0, k as int);
    let x = s + t;
    let y = s + u;
    assert(y.subrange(0, x.len() as int) =~= x);
    lemma_segment_cut(x, y, q, st);
    assert(segment_at(s, q, st) == Err::<(SegmentModel, ReaderModel, u64), ErrorModel>(ErrorModel::UnexpectedEof));
    law_truncated_tail_ignored(s, t);
}

/// Placing objects keeps each object's path, properties, raw data index and raw data
/// description; it only gives objects their data locations.
pub proof fn lemma_place_keeps(os: Seq<ObjectModel>, cur: u64, a: Seq<(Seq<char>, RawDataMeta)>)
    ensures
        place_objects(os, cur, a).0.len() == os.len(),
        forall|i: int| 0 <= i < os.len() ==> {
            let p = #[trigger] place_objects(os, cur, a).0[i];
            &&& p.path == os[i].path
            &&& p.properties == os[i].properties
            &&& p.raw_data_index == os[i].raw_data_index
            &&& p.raw_data_meta == os[i].raw_data_meta
        },
    decreases os.len(),
{
    if os.len() > 0 {
        lemma_place_keeps(os.drop_last(), cur, a);
        let (d, c, a2) = place_objects(os.drop_last(), cur, a);
        assert forall|i: int| 0 <= i < os.len() implies {
            let p = #[trigger] place_objects(os, cur, a).0[i];
            &&& p.path == os[i].path
            &&& p.properties == os[i].properties
            &&& p.raw_data_index == os[i].raw_data_index
            &&& p.raw_data_meta == os[i].raw_data_meta
        } by {
            if i < os.len() - 1 {
                assert(place_objects(os, cur, a).0[i] == d[i]);
                assert(os.drop_last()[i] == os[i]);
            }
        }
    }
}

/// A segment that announces no new object list repeats the reader's current list: its
/// objects are the listed paths in order, each with no properties, raw data index 0 and no
/// description of its own, placed one after the other from the segment's raw data by the
/// descriptions remembered for their paths; the list stays as it was.
pub proof fn law_repeated_object_list(s: Seq<u8>, start: u64, st: ReaderModel)
    requires
        lead_in_at(s, start as nat) is Ok,
        !has_new_obj_list(lead_in_at(s, start as nat)->Ok_0.0.0),
    ensures
        segment_at(s, start, st) matches Ok((seg, st2, _next)) && {
            &&& seg.objects == place_objects(repeated_objects(st.object_order),
                    sat_add(sat_add(start, 28), lead_in_at(s, start as nat)->Ok_0.0.3), st.active_meta).0
            &&& seg.objects.len() == st.object_order.len()
            &&& st2.object_order == st.object_order
            &&& forall|i: int| 0 <= i < seg.objects.len() ==> {
                &&& (#[trigger] seg.objects[i]).path == st.object_order[i]
                &&& seg.objects[i].properties == Seq::<(Seq<char>, PropertyModel)>::empty()
                &&& seg.objects[i].raw_data_index == 0
                &&& seg.objects[i].raw_data_meta is None
            }
        },
{
    let ((mask, version, next, raw), p) = lead_in_at(s, start as nat)->Ok_0;
    let os = repeated_objects(st.object_order);
    lemma_place_keeps(os, sat_add(sat_add(start, 28), raw), st.active_meta);
}

/// A time stamp property value is written as its fraction and then its seconds, each as
/// eight little-endian bytes.
pub proof fn law_time_stamp_written_fraction_first(secs: i64, frac: u64)
    ensures
        payload_bytes(PropertyModel::TimeStamp((secs, frac)))
            == spec_u64_to_le_bytes(frac) + spec_u64_to_le_bytes(secs as u64),
{
}

/// Sixteen bytes read as a time stamp give the fraction from the first eight and the
/// seconds from the next eight, each little-endian.
pub proof fn law_time_stamp_read_fraction_first(s: Seq<u8>, pos: nat)
    requires
        pos + 16 <= s.len(),
    ensures
        value_at(s, pos, DataType::TimeStamp) == Ok::<(PropertyModel, nat), ErrorModel>((
            PropertyModel::TimeStamp((
                spec_u64_from_le_bytes(s.subrange((pos + 8) as int, (pos + 16) as int)) as i64,
                spec_u64_from_le_bytes(s.subrange(pos as int, (pos + 8) as int)),
            )),
            pos + 16,
        )),
{
}

/// An object of a new object list whose raw data index is 0 (the description of its raw
/// data is the one remembered for its path) is its path, the index 0, the number of its
/// properties and the properties: no type code or description follows the index.
pub proof fn law_object_reusing_description_read(
    s: Seq<u8>,
    p: nat,
    path: Seq<char>,
    ps: Seq<(Seq<char>, PropertyModel)>,
)
    requires
        holds_at(s, p, text_bytes(path) + le_u32(0) + properties_bytes(ps)),
        text_fits(path),
        props_fit(ps),
    ensures
        object_at(s, p) == Ok::<(ObjectModel, nat), ErrorModel>((
            ObjectModel { path, raw_data_index: 0, properties: ps, raw_data_meta: None, data_location: None },
            p + text_bytes(path).len() + 4 + properties_bytes(ps).len(),
        )),
{
    lemma_le_lens();
    let a = text_bytes(path);
    lemma_holds_split3(s, p, a, le_u32(0), properties_bytes(ps));
    lemma_read_text(s, p, path);
    lemma_read_u32(s, p + a.len(), 0);
    lemma_read_properties(s, p + a.len() + 4, ps);
    assert((ps.len() as u32) as nat == ps.len());
}

/// An object that has no description of its own and raw data index 0 takes the
/// description remembered for its path: its values, if that description counts any, lie
/// at the current raw data position, as many as it counts; else it has none.
pub proof fn law_object_reusing_description_placed(o: ObjectModel, cur: u64, active: Seq<(Seq<char>, RawDataMeta)>)
    requires
        o.raw_data_index == 0,
        o.raw_data_meta is None,
    ensures
        place_object(o, cur, active).0.data_location == (match lookup(active, o.path) {
            Some(m) => if m.number_of_values > 0 {
                Some(DataLocation { offset: cur, number_of_values: m.number_of_values })
            } else {
                o.data_location
            },
            None => o.data_location,
        }),
        place_object(o, cur, active).2 == active,
{
}

/// The text of an integer property value is the standard decimal text of the integer it
/// holds: a minus sign exactly when it is negative, then the digits of its magnitude
/// without leading zeros. A time stamp's text is its seconds so written, a dot, and at
/// least nineteen digits whose value is its fraction (see [`law_time_stamp_text`]). A text is shown between double
/// quotes; a boolean as `true` or `false`; the floating-point values have no text here.
pub proof fn law_property_value_text(v: PropertyModel)
    ensures
        v matches PropertyModel::I8(x) ==> value_text(v) matches Some(t) && writes_integer(t, x as int),
        v matches PropertyModel::I16(x) ==> value_text(v) matches Some(t) && writes_integer(t, x as int),
        v matches PropertyModel::I32(x) ==> value_text(v) matches Some(t) && writes_integer(t, x as int),
        v matches PropertyModel::I64(x) ==> value_text(v) matches Some(t) && writes_integer(t, x as int),
        v matches PropertyModel::U8(x) ==> value_text(v) matches Some(t) && writes_integer(t, x as int),
        v matches PropertyModel::U16(x) ==> value_text(v) matches Some(t) && writes_integer(t, x as int),
        v matches PropertyModel::U32(x) ==> value_text(v) matches Some(t) && writes_integer(t, x as int),
        v matches PropertyModel::U64(x) ==> value_text(v) matches Some(t) && writes_integer(t, x as int),
        v is Float ==> value_text(v) is None,
        v is Double ==> value_text(v) is None,
        v matches PropertyModel::String(x) ==> value_text(v) == Some(seq!['"'] + x + seq!['"']),
        v matches PropertyModel::Boolean(b) ==> value_text(v)
            == Some(if b { seq!['t', 'r', 'u', 'e'] } else { seq!['f', 'a', 'l', 's', 'e'] }),
{
    match v {
        PropertyModel::I8(x) => {
            lemma_signed_chars(x as int);
            assert(value_text(v) == Some(signed_chars(x as int)));
        },
        PropertyModel::I16(x) => lemma_signed_chars(x as int),
        PropertyModel::I32(x) => lemma_signed_chars(x as int),
        PropertyModel::I64(x) => lemma_signed_chars(x as int),
        PropertyModel::U8(x) => lemma_signed_chars(x as int),
        PropertyModel::U16(x) => lemma_signed_chars(x as int),
        PropertyModel::U32(x) => lemma_signed_chars(x as int),
        PropertyModel::U64(x) => lemma_signed_chars(x as int),
        PropertyModel::Boolean(b) => {
            reveal_strlit("true");
            reveal_strlit("false");
            assert("true"@ =~= seq!['t', 'r', 'u', 'e']);
            assert("false"@ =~= seq!['f', 'a', 'l', 's', 'e']);
        },
        _ => {},
    }
}

/// Whether `t` is the seconds `secs` in standard decimal text, a dot, and at least
/// nineteen decimal digits whose value is `frac`.
pub open spec fn writes_time_stamp(t: Seq<char>, secs: int, frac: nat) -> bool {
    exists|k: int| {
        &&& 0 <= k < t.len()
        &&& #[trigger] t[k] == '.'
        &&& writes_integer(t.take(k), secs)
        &&& t.skip(k + 1).len() >= 19
        &&& all_digits(t.skip(k + 1))
        &&& digits_value(t.skip(k + 1)) == frac
    }
}

/// A time stamp's text is its seconds in standard decimal text, a dot, and at least
/// nineteen decimal digits whose value is its fraction.
pub proof fn law_time_stamp_text(secs: i64, frac: u64)
    ensures
        value_text(PropertyModel::TimeStamp((secs, frac))) matches Some(t)
            && writes_time_stamp(t, secs as int, frac as nat),
{
    let v = PropertyModel::TimeStamp((secs, frac));
    let a = signed_chars(secs as int);
    let b = padded_chars(frac as nat, 19);
    let t = a + seq!['.'] + b;
    lemma_signed_chars(secs as int);
    lemma_padded_chars(frac as nat, 19);
    let k = a.len() as int;
    assert(t[k] == '.');
    assert(t.take(k) =~= a);
    assert(t.skip(k + 1) =~= b);
    assert(value_text(v) == Some(t));
    assert(writes_time_stamp(t, secs as int, frac as nat));
}

/// Reading values `start .. start + count` of a channel, `size` bytes each, gives exactly
/// those values of its runs taken one after the other: the bytes at `start * size ..
/// (start + count) * size` of the concatenated runs, for any start, however many runs
/// it lies past. This holds wherever the data holds every run and the range lies within
/// the channel's values.
pub proof fn law_read_range_of_runs(data: Seq<u8>, locs: Seq<DataLocation>, start: nat, count: nat, size: nat)
    requires
        size > 0,
        runs_in(data, locs, size),
        start + count <= values_from(locs, 0),
    ensures
        gather(data, locs, 0, start, count, size) == Ok::<Seq<u8>, ErrorModel>(
            runs_bytes(data, locs, 0, size).subrange((start * size) as int, ((start + count) * size) as int),
        ),
{
    lemma_gather_runs(data, locs, 0, start, count, size);
}

/// Reading strings `start .. start + count` of a string channel gives exactly those
/// strings of its runs taken one after the other, for any start, however many runs it
/// lies past; so as many strings as were asked for. This holds wherever every run holds
/// its strings (as UTF-8, where `check`) and the range lies within the channel's values.
pub proof fn law_read_strings_range_of_runs(data: Seq<u8>, locs: Seq<DataLocation>, start: nat, count: nat, check: bool)
    requires
        strings_in(data, locs, check),
        start + count <= values_from(locs, 0),
    ensures
        string_pieces(data, locs, 0, start, count, check) == Ok::<Seq<Seq<u8>>, ErrorModel>(
            runs_strings(data, locs, 0).subrange(start as int, (start + count) as int),
        ),
        string_pieces(data, locs, 0, start, count, check) matches Ok(ps) && ps.len() == count,
{
    lemma_string_pieces_runs(data, locs, 0, start, count, check);
    lemma_runs_strings_len(data, locs, 0);
}

/// Each property value is written after its type code as fixed little-endian bytes: the
/// integer types in their own width (signed ones as their two's complement), a single
/// precision value as the four bytes of its bits, a double precision one as the eight of
/// its bits, a boolean as one byte 1 or 0, and a text as its UTF-8 length in four bytes
/// followed by its UTF-8 bytes.
pub proof fn law_property_payload_layout(v: PropertyModel)
    ensures
        v matches PropertyModel::I8(x) ==> payload_bytes(v) == seq![x as u8],
        v matches PropertyModel::I16(x) ==> payload_bytes(v) == spec_u16_to_le_bytes(x as u16),
        v matches PropertyModel::I32(x) ==> payload_bytes(v) == spec_u32_to_le_bytes(x as u32),
        v matches PropertyModel::I64(x) ==> payload_bytes(v) == spec_u64_to_le_bytes(x as u64),
        v matches PropertyModel::U8(x) ==> payload_bytes(v) == seq![x],
        v matches PropertyModel::U16(x) ==> payload_bytes(v) == spec_u16_to_le_bytes(x),
        v matches PropertyModel::U32(x) ==> payload_bytes(v) == spec_u32_to_le_bytes(x),
        v matches PropertyModel::U64(x) ==> payload_bytes(v) == spec_u64_to_le_bytes(x),
        v matches PropertyModel::Float(b) ==> payload_bytes(v) == spec_u32_to_le_bytes(b),
        v matches PropertyModel::Double(b) ==> payload_bytes(v) == spec_u64_to_le_bytes(b),
        v matches PropertyModel::Boolean(b) ==> payload_bytes(v) == seq![if b { 1u8 } else { 0u8 }],
        v matches PropertyModel::String(t) ==> payload_bytes(v)
            == spec_u32_to_le_bytes(encode_utf8(t).len() as u32) + encode_utf8(t),
{
}

/// A property value of a fixed-width type is read from the little-endian bytes at its
/// position: one byte for the 8-bit types and booleans (true when not 0), two, four or
/// eight for the wider ones; a signed value as its two's complement, a floating-point one
/// as its bits.
pub proof fn law_property_value_read_layout(s: Seq<u8>, pos: nat)
    requires
        pos + 8 <= s.len(),
    ensures
        value_at(s, pos, DataType::I8) == Ok::<(PropertyModel, nat), ErrorModel>((PropertyModel::I8(s[pos as int] as i8), pos + 1)),
        value_at(s, pos, DataType::U8) == Ok::<(PropertyModel, nat), ErrorModel>((PropertyModel::U8(s[pos as int]), pos + 1)),
        value_at(s, pos, DataType::Boolean) == Ok::<(PropertyModel, nat), ErrorModel>((PropertyModel::Boolean(s[pos as int] != 0), pos + 1)),
        value_at(s, pos, DataType::I16) == Ok::<(PropertyModel, nat), ErrorModel>((
            PropertyModel::I16(spec_u16_from_le_bytes(s.subrange(pos as int, (pos + 2) as int)) as i16), pos + 2)),
        value_at(s, pos, DataType::U16) == Ok::<(PropertyModel, nat), ErrorModel>((
            PropertyModel::U16(spec_u16_from_le_bytes(s.subrange(pos as int, (pos + 2) as int))), pos + 2)),
        value_at(s, pos, DataType::I32) == Ok::<(PropertyModel, nat), ErrorModel>((
            PropertyModel::I32(spec_u32_from_le_bytes(s.subrange(pos as int, (pos + 4) as int)) as i32), pos + 4)),
        value_at(s, pos, DataType::U32) == Ok::<(PropertyModel, nat), ErrorModel>((
            PropertyModel::U32(spec_u32_from_le_bytes(s.subrange(pos as int, (pos + 4) as int))), pos + 4)),
        value_at(s, pos, DataType::Float) == Ok::<(PropertyModel, nat), ErrorModel>((
            PropertyModel::Float(spec_u32_from_le_bytes(s.subrange(pos as int, (pos + 4) as int))), pos + 4)),
        value_at(s, pos, DataType::I64) == Ok::<(PropertyModel, nat), ErrorModel>((
            PropertyModel::I64(spec_u64_from_le_bytes(s.subrange(pos as int, (pos + 8) as int)) as i64), pos + 8)),
        value_at(s, pos, DataType::U64) == Ok::<(PropertyModel, nat), ErrorModel>((
            PropertyModel::U64(spec_u64_from_le_bytes(s.subrange(pos as int, (pos + 8) as int))), pos + 8)),
        value_at(s, pos, DataType::Double) == Ok::<(PropertyModel, nat), ErrorModel>((
            PropertyModel::Double(spec_u64_from_le_bytes(s.subrange(pos as int, (pos + 8) as int))), pos + 8)),
{
}

/// A raw data index of length 20 (after its type code: the dimension, the number of values
/// in eight bytes, then the object's property count) describes that many values of its
/// type; a string one (dimension, number of values, total size in bytes, property count)
/// also records the total size. All fields are little-endian.
pub proof fn law_raw_index_read_layout(s: Seq<u8>, pos: nat, t: DataType)
    requires
        pos + 24 <= s.len(),
    ensures
        t != DataType::String ==> raw_index_at(s, pos, 20, t) == Ok::<(Option<RawDataMeta>, u32, nat), ErrorModel>((
            Some(RawDataMeta {
                data_type: t,
                number_of_values: spec_u64_from_le_bytes(s.subrange((pos + 4) as int, (pos + 12) as int)),
                total_size_bytes: None,
            }),
            spec_u32_from_le_bytes(s.subrange((pos + 12) as int, (pos + 16) as int)),
            pos + 16,
        )),
        raw_index_at(s, pos, 28, DataType::String) == Ok::<(Option<RawDataMeta>, u32, nat), ErrorModel>((
            Some(RawDataMeta {
                data_type: DataType::String,
                number_of_values: spec_u64_from_le_bytes(s.subrange((pos + 4) as int, (pos + 12) as int)),
                total_size_bytes: Some(spec_u64_from_le_bytes(s.subrange((pos + 12) as int, (pos + 20) as int))),
            }),
            spec_u32_from_le_bytes(s.subrange((pos + 20) as int, (pos + 24) as int)),
            pos + 24,
        )),
{
    let skipped = s.subrange(pos as int, (pos + 16) as int);
    assert(skipped.subrange(4, 12) =~= s.subrange((pos + 4) as int, (pos + 12) as int));
    assert(skipped.subrange(12, 16) =~= s.subrange((pos + 12) as int, (pos + 16) as int));
}

/// A segment's lead-in is the tag `TDSm`, then, little-endian, its table of contents and
/// version in four bytes each and its next segment offset and raw data offset in eight
/// bytes each; other leading bytes are no segment.
pub proof fn law_lead_in_read_layout(s: Seq<u8>, pos: nat)
    requires
        pos + 28 <= s.len(),
    ensures
        s.subrange(pos as int, (pos + 4) as int) == seq![0x54u8, 0x44u8, 0x53u8, 0x6du8] ==> lead_in_at(s, pos)
            == Ok::<((u32, u32, u64, u64), nat), ErrorModel>((
                (
                    spec_u32_from_le_bytes(s.subrange((pos + 4) as int, (pos + 8) as int)),
                    spec_u32_from_le_bytes(s.subrange((pos + 8) as int, (pos + 12) as int)),
                    spec_u64_from_le_bytes(s.subrange((pos + 12) as int, (pos + 20) as int)),
                    spec_u64_from_le_bytes(s.subrange((pos + 20) as int, (pos + 28) as int)),
                ),
                pos + 28,
            )),
        s.subrange(pos as int, (pos + 4) as int) != seq![0x54u8, 0x44u8, 0x53u8, 0x6du8]
            ==> lead_in_at(s, pos) == Err::<((u32, u32, u64, u64), nat), ErrorModel>(ErrorModel::InvalidSignature),
{
    assert(tag() =~= seq![0x54u8, 0x44u8, 0x53u8, 0x6du8]);
}

} // verus!
