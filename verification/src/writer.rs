//! The writer: groups, channels and properties gathered in memory.
use vstd::prelude::*;
use vstd::utf8::encode_utf8;
use vstd::string::StringSliceAdditionalSpecFns;
use core::marker::PhantomData;
use crate::datatypes::{type_size, DataType, PropertyModel, PropertyValue};
use crate::error::{ErrorModel, TdmsError};
use crate::names::{has_key, insert_entry, key_pos, keys_distinct, lookup, NamedMap};
use crate::roundtrip::{model_wf, names_distinct};
use crate::order::{bytes_less, str_equal, bytes_lt, lemma_bytes_lt_irreflexive, lemma_bytes_lt_total, lemma_bytes_lt_transitive};
use crate::writable::{string_overflow_text, WritableType};
use crate::encoding::{le_u32, push_bytes, push_u32, push_u64, push_u8};
use crate::image::{
    groups_meta, groups_object_count, groups_raw, image_of, lead_in_bytes, lemma_count_prefix, metadata_bytes, object_count,
    push_group_meta, push_group_raw, push_properties, push_text, root_meta,
};

verus! {

/// What the writer holds of a channel.
pub struct WChannelModel {
    pub name: Seq<char>,
    pub data_type: DataType,
    /// The end offsets of the string values, 4 bytes each (empty for fixed-size values).
    pub offsets: Seq<u8>,
    /// The bytes of the values.
    pub data: Seq<u8>,
    pub count: usize,
    pub properties: Seq<(Seq<char>, PropertyModel)>,
}

/// What the writer holds of a group: its channels in the order of their names.
pub struct WGroupModel {
    pub name: Seq<char>,
    pub channels: Seq<WChannelModel>,
    pub properties: Seq<(Seq<char>, PropertyModel)>,
}

/// What the writer holds.
pub struct WriterModel {
    pub path: Seq<char>,
    pub groups: Seq<(Seq<char>, WGroupModel)>,
    pub properties: Seq<(Seq<char>, PropertyModel)>,
}

/// The bytes by which names are ordered.
pub open spec fn name_key(c: Seq<char>) -> Seq<u8> {
    encode_utf8(c)
}

/// The channels are in strictly increasing order of their names.
pub open spec fn channels_sorted(chs: Seq<WChannelModel>) -> bool {
    forall|i: int, j: int| 0 <= i < j < chs.len() ==> bytes_lt(#[trigger] name_key(chs[i].name), #[trigger] name_key(chs[j].name))
}

/// Whether a channel of that name is present.
pub open spec fn has_channel(chs: Seq<WChannelModel>, c: Seq<char>) -> bool {
    exists|i: int| 0 <= i < chs.len() && #[trigger] chs[i].name == c
}

/// The position of the channel of that name, where there is one.
pub open spec fn channel_pos(chs: Seq<WChannelModel>, c: Seq<char>) -> int {
    choose|i: int| 0 <= i < chs.len() && #[trigger] chs[i].name == c
}

/// Inserting a channel of that name at `p` keeps the order.
pub open spec fn is_sorted_pos(chs: Seq<WChannelModel>, c: Seq<char>, p: int) -> bool {
    &&& 0 <= p <= chs.len()
    &&& forall|i: int| 0 <= i < p ==> bytes_lt(#[trigger] name_key(chs[i].name), name_key(c))
    &&& forall|i: int| p <= i < chs.len() ==> bytes_lt(name_key(c), #[trigger] name_key(chs[i].name))
}

/// The position at which a channel of that name keeps the order.
pub open spec fn sorted_pos(chs: Seq<WChannelModel>, c: Seq<char>) -> int {
    choose|p: int| #[trigger] is_sorted_pos(chs, c, p)
}

/// A channel that the writer has just created.
pub open spec fn new_wchannel(c: Seq<char>, t: DataType) -> WChannelModel {
    WChannelModel { name: c, data_type: t, offsets: Seq::empty(), data: Seq::empty(), count: 0, properties: Seq::empty() }
}

/// The channels with a channel of that name added, in its place, unless one is present.
pub open spec fn add_channel_to(chs: Seq<WChannelModel>, c: Seq<char>, t: DataType) -> Seq<WChannelModel> {
    if has_channel(chs, c) {
        chs
    } else {
        chs.insert(sorted_pos(chs, c), new_wchannel(c, t))
    }
}

/// A group that the writer has just created.
pub open spec fn new_wgroup(g: Seq<char>) -> WGroupModel {
    WGroupModel { name: g, channels: Seq::empty(), properties: Seq::empty() }
}

/// The groups with a group of that name added at the end, unless one is present.
pub open spec fn add_group_to(groups: Seq<(Seq<char>, WGroupModel)>, g: Seq<char>) -> Seq<(Seq<char>, WGroupModel)> {
    if has_key(groups, g) {
        groups
    } else {
        groups.push((g, new_wgroup(g)))
    }
}

/// Whether a channel's buffers hold as much as its count of values announces: for
/// strings one end offset per value and no byte where there is no value; for fixed-size
/// values no offset and the size of each value.
pub open spec fn data_consistent(ch: WChannelModel) -> bool {
    if ch.data_type == DataType::String {
        &&& ch.offsets.len() == 4 * ch.count
        &&& ch.count == 0 ==> ch.data.len() == 0
    } else {
        &&& ch.offsets.len() == 0
        &&& ch.data.len() == type_size(ch.data_type) * ch.count
    }
}

/// A channel of the writer.
pub struct WriterChannelData {
    pub name: String,
    pub data_type: DataType,
    pub offsets: Vec<u8>,
    pub data: Vec<u8>,
    pub count: usize,
    pub properties: NamedMap<PropertyValue>,
}

impl View for WriterChannelData {
    type V = WChannelModel;

    open spec fn view(&self) -> WChannelModel {
        WChannelModel {
            name: self.name@,
            data_type: self.data_type,
            offsets: self.offsets@,
            data: self.data@,
            count: self.count,
            properties: self.properties@,
        }
    }
}

/// A group of the writer.
pub struct WriterGroupData {
    pub name: String,
    pub channels: Vec<WriterChannelData>,
    pub properties: NamedMap<PropertyValue>,
}

impl View for WriterGroupData {
    type V = WGroupModel;

    open spec fn view(&self) -> WGroupModel {
        WGroupModel {
            name: self.name@,
            channels: wchannels_view(self.channels@),
            properties: self.properties@,
        }
    }
}

impl WriterGroupData {
    pub open spec fn wf(&self) -> bool {
        &&& self.properties.wf()
        &&& forall|i: int| 0 <= i < self.channels@.len() ==> (#[trigger] self.channels@[i]).properties.wf()
        &&& forall|i: int| 0 <= i < self.channels@.len() ==> data_consistent((#[trigger] self.channels@[i])@)
        &&& channels_sorted(self@.channels)
    }
}

/// A TDMS file being written. Its data is gathered in memory; [`TdmsWriter::file_image`]
/// gives the bytes of the file.
pub struct TdmsWriter {
    pub(crate) path: String,
    pub(crate) groups: NamedMap<WriterGroupData>,
    pub(crate) properties: NamedMap<PropertyValue>,
}

impl View for TdmsWriter {
    type V = WriterModel;

    closed spec fn view(&self) -> WriterModel {
        WriterModel { path: self.path@, groups: self.groups@, properties: self.properties@ }
    }
}

impl TdmsWriter {
    pub closed spec fn wf(&self) -> bool {
        &&& self.groups.wf()
        &&& self.properties.wf()
        &&& forall|i: int| 0 <= i < self.groups@.len() ==> #[trigger] self.groups.value(i).wf()
        &&& forall|i: int| 0 <= i < self.groups@.len() ==> (#[trigger] self.groups@[i]).1.name == self.groups@[i].0
    }
}


/// The views of a list of channels.
pub open spec fn wchannels_view(v: Seq<WriterChannelData>) -> Seq<WChannelModel> {
    Seq::new(v.len(), |i: int| v[i]@)
}

/// In sorted channels, the channel at a position holding a name is the channel of that name.
proof fn lemma_channel_pos_unique(chs: Seq<WChannelModel>, i: int)
    requires
        channels_sorted(chs),
        0 <= i < chs.len(),
    ensures
        has_channel(chs, chs[i].name),
        channel_pos(chs, chs[i].name) == i,
{
    let c = chs[i].name;
    assert(chs[i].name == c);
    let p = channel_pos(chs, c);
    if p != i {
        if p < i {
            assert(bytes_lt(name_key(chs[p].name), name_key(chs[i].name)));
        } else {
            assert(bytes_lt(name_key(chs[i].name), name_key(chs[p].name)));
        }
        lemma_bytes_lt_irreflexive(name_key(c));
    }
}

/// Where no channel has the name `c`, there is a place for it that keeps the order.
pub proof fn lemma_sorted_pos_exists(chs: Seq<WChannelModel>, c: Seq<char>)
    requires
        channels_sorted(chs),
        !has_channel(chs, c),
    ensures
        is_sorted_pos(chs, c, sorted_pos(chs, c)),
    decreases chs.len(),
{
    if chs.len() == 0 {
        assert(is_sorted_pos(chs, c, 0));
    } else {
        let init = chs.drop_last();
        let last = chs.last();
        assert(chs[chs.len() - 1] == last);
        assert(channels_sorted(init)) by {
            assert forall|i: int, j: int| 0 <= i < j < init.len() implies bytes_lt(#[trigger] name_key(init[i].name), #[trigger] name_key(init[j].name)) by {
                assert(init[i] == chs[i]);
                assert(init[j] == chs[j]);
            }
        }
        assert(!has_channel(init, c)) by {
            if has_channel(init, c) {
                let i = choose|i: int| 0 <= i < init.len() && #[trigger] init[i].name == c;
                assert(init[i] == chs[i]);
            }
        }
        lemma_sorted_pos_exists(init, c);
        let q = sorted_pos(init, c);
        let kl = name_key(last.name);
        let kc = name_key(c);
        assert(last.name != c);
        lemma_bytes_lt_total(kl, kc);
        if kl == kc {
            vstd::utf8::encode_utf8_decode_utf8(last.name);
            vstd::utf8::encode_utf8_decode_utf8(c);
        }
        if bytes_lt(kl, kc) {
            assert forall|i: int| 0 <= i < chs.len() implies bytes_lt(#[trigger] name_key(chs[i].name), kc) by {
                if i < chs.len() - 1 {
                    assert(bytes_lt(name_key(chs[i].name), kl));
                    lemma_bytes_lt_transitive(name_key(chs[i].name), kl, kc);
                }
            }
            assert(is_sorted_pos(chs, c, chs.len() as int));
        } else {
            assert(bytes_lt(kc, kl));
            assert forall|i: int| 0 <= i < q implies bytes_lt(#[trigger] name_key(chs[i].name), kc) by {
                assert(init[i] == chs[i]);
            }
            assert forall|i: int| q <= i < chs.len() implies bytes_lt(kc, #[trigger] name_key(chs[i].name)) by {
                if i < chs.len() - 1 {
                    assert(init[i] == chs[i]);
                }
            }
            assert(is_sorted_pos(chs, c, q));
        }
    }
}

/// The position of the channel named `name`, if any.
fn find_channel(chs: &Vec<WriterChannelData>, name: &str) -> (r: Option<usize>)
    requires
        channels_sorted(wchannels_view(chs@)),
    ensures
        match r {
            Some(i) => i < chs@.len() && has_channel(wchannels_view(chs@), name@)
                && channel_pos(wchannels_view(chs@), name@) == i,
            None => !has_channel(wchannels_view(chs@), name@),
        },
{
    let ghost v = wchannels_view(chs@);
    let mut i: usize = 0;
    while i < chs.len()
        invariant
            i <= chs@.len(),
            v == wchannels_view(chs@),
            channels_sorted(v),
            forall|k: int| 0 <= k < i ==> #[trigger] v[k].name != name@,
        decreases chs@.len() - i,
    {
        if str_equal(chs[i].name.as_str(), name) {
            assert(v[i as int].name == name@);
            proof {
                lemma_channel_pos_unique(v, i as int);
            }
            return Some(i);
        }
        i = i + 1;
    }
    None
}

/// Puts a channel whose name is absent at its place in the order.
fn insert_channel(chs: &mut Vec<WriterChannelData>, ch: WriterChannelData) -> (r: usize)
    requires
        channels_sorted(wchannels_view(old(chs)@)),
        !has_channel(wchannels_view(old(chs)@), ch@.name),
    ensures
        channels_sorted(wchannels_view(final(chs)@)),
        wchannels_view(final(chs)@) == wchannels_view(old(chs)@).insert(sorted_pos(wchannels_view(old(chs)@), ch@.name), ch@),
        r == sorted_pos(wchannels_view(old(chs)@), ch@.name),
        r <= old(chs)@.len(),
        final(chs)@ == old(chs)@.insert(r as int, ch),
{
    let ghost v = wchannels_view(chs@);
    let ghost c = ch@.name;
    let key = ch.name.as_str().as_bytes();
    let mut p: usize = 0;
    while p < chs.len() && bytes_less(chs[p].name.as_str().as_bytes(), key)
        invariant
            p <= chs@.len(),
            v == wchannels_view(chs@),
            key@ == name_key(c),
            forall|i: int| 0 <= i < p ==> bytes_lt(#[trigger] name_key(v[i].name), name_key(c)),
        decreases chs@.len() - p,
    {
        p = p + 1;
    }
    proof {
        if p < v.len() {
            let kp = name_key(v[p as int].name);
            assert(!bytes_lt(kp, name_key(c)));
            assert(v[p as int].name != c);
            lemma_bytes_lt_total(kp, name_key(c));
            if kp == name_key(c) {
                vstd::utf8::encode_utf8_decode_utf8(v[p as int].name);
                vstd::utf8::encode_utf8_decode_utf8(c);
            }
            assert forall|i: int| p <= i < v.len() implies bytes_lt(name_key(c), #[trigger] name_key(v[i].name)) by {
                if i > p {
                    lemma_bytes_lt_transitive(name_key(c), kp, name_key(v[i].name));
                }
            }
        }
        assert(is_sorted_pos(v, c, p as int));
        assert forall|q: int| #[trigger] is_sorted_pos(v, c, q) implies q == p by {
            if q < p {
                assert(bytes_lt(name_key(v[q].name), name_key(c)));
                assert(bytes_lt(name_key(c), name_key(v[q].name)));
                lemma_bytes_lt_total(name_key(v[q].name), name_key(c));
            } else if q > p {
                assert(bytes_lt(name_key(v[p as int].name), name_key(c)));
                assert(bytes_lt(name_key(c), name_key(v[p as int].name)));
                lemma_bytes_lt_total(name_key(v[p as int].name), name_key(c));
            }
        }
    }
    let ghost chv = ch@;
    chs.insert(p, ch);
    proof {
        let w = wchannels_view(chs@);
        assert(w =~= v.insert(p as int, chv));
        assert forall|i: int, j: int| 0 <= i < j < w.len() implies bytes_lt(#[trigger] name_key(w[i].name), #[trigger] name_key(w[j].name)) by {
            if i < p && j < p {
            } else if i < p && j == p {
            } else if i < p && j > p {
                assert(w[j] == v[j - 1]);
            } else if i == p {
                assert(w[j] == v[j - 1]);
            } else {
                assert(w[i] == v[i - 1]);
                assert(w[j] == v[j - 1]);
            }
        }
    }
    p
}

/// A writer that holds nothing yet.
pub open spec fn empty_writer(path: Seq<char>) -> WriterModel {
    WriterModel { path, groups: Seq::empty(), properties: Seq::empty() }
}

/// The writer with other file-level properties.
pub open spec fn with_properties(w: WriterModel, p: Seq<(Seq<char>, PropertyModel)>) -> WriterModel {
    WriterModel { properties: p, ..w }
}

/// The writer with other groups.
pub open spec fn with_groups(w: WriterModel, g: Seq<(Seq<char>, WGroupModel)>) -> WriterModel {
    WriterModel { groups: g, ..w }
}

/// The message for an empty group name.
pub open spec fn empty_group_text() -> Seq<char> {
    "Group name cannot be empty"@
}

/// The message for an empty channel name.
pub open spec fn empty_channel_text() -> Seq<char> {
    "Channel name cannot be empty"@
}

/// The message for an empty property name.
pub open spec fn empty_property_text() -> Seq<char> {
    "Property name cannot be empty"@
}

impl TdmsWriter {
    /// A writer for a file at `path`, holding nothing yet.
    pub fn create(path: &str) -> (r: Result<TdmsWriter, TdmsError>)
        ensures
            r matches Ok(w) && w.wf() && w@ == empty_writer(path@),
    {
        Ok(TdmsWriter { path: path.to_owned(), groups: NamedMap::new(), properties: NamedMap::new() })
    }

    /// The path that the writer was created for.
    pub fn path(&self) -> (r: &str)
        ensures
            r@ == self@.path,
    {
        self.path.as_str()
    }

    /// Files a file-level property (an empty name is refused).
    pub fn add_property(&mut self, name: &str, value: PropertyValue) -> (r: Result<&mut TdmsWriter, TdmsError>)
        requires
            old(self).wf(),
        ensures
            name@.len() == 0 ==> (r matches Err(e) && e@ == ErrorModel::InvalidName(empty_property_text())
                && *final(self) == *old(self)),
            name@.len() != 0 ==> (r matches Ok(w) && w.wf()
                && (*w)@ == with_properties(old(self)@, insert_entry(old(self)@.properties, name@, value@))
                && *final(self) == *final(w)),
    {
        if name.is_empty() {
            return Err(TdmsError::InvalidName("Property name cannot be empty".to_owned()));
        }
        self.properties.insert(name.to_owned(), value);
        Ok(self)
    }

    /// Adds a group (or finds the group of that name) and gives a handle to it.
    pub fn add_group(&mut self, name: &str) -> (r: Result<WriterGroup<'_>, TdmsError>)
        requires
            old(self).wf(),
        ensures
            name@.len() == 0 ==> (r matches Err(e) && e@ == ErrorModel::InvalidName(empty_group_text())
                && *final(self) == *old(self)),
            name@.len() != 0 ==> (r matches Ok(g) && g.writer.wf()
                && (*g.writer)@ == with_groups(old(self)@, add_group_to(old(self)@.groups, name@))
                && g.group_name@ == name@
                && *final(self) == *final(g.writer)),
    {
        if name.is_empty() {
            return Err(TdmsError::InvalidName("Group name cannot be empty".to_owned()));
        }
        match self.groups.find(name) {
            Some(_) => {},
            None => {
                let data = WriterGroupData {
                    name: name.to_owned(),
                    channels: Vec::new(),
                    properties: NamedMap::new(),
                };
                proof {
                    assert(wchannels_view(data.channels@) =~= Seq::<WChannelModel>::empty());
                }
                let i = self.groups.insert(name.to_owned(), data);
                proof {
                    assert(self.groups.value(i as int).wf());
                }
            },
        }
        Ok(WriterGroup { writer: self, group_name: name.to_owned() })
    }
}

/// A handle to a group of a writer.
pub struct WriterGroup<'w> {
    pub writer: &'w mut TdmsWriter,
    pub group_name: String,
}

/// The writer with the group filed under `g` replaced by `grp`.
pub open spec fn with_group(w: WriterModel, g: Seq<char>, grp: WGroupModel) -> WriterModel {
    with_groups(w, insert_entry(w.groups, g, grp))
}

/// The group with other channels.
pub open spec fn group_with_channels(grp: WGroupModel, chs: Seq<WChannelModel>) -> WGroupModel {
    WGroupModel { channels: chs, ..grp }
}

/// The group with other properties.
pub open spec fn group_with_properties(grp: WGroupModel, p: Seq<(Seq<char>, PropertyModel)>) -> WGroupModel {
    WGroupModel { properties: p, ..grp }
}

/// The group filed under `g` (where there is one).
pub open spec fn group_of(w: WriterModel, g: Seq<char>) -> WGroupModel {
    w.groups[key_pos(w.groups, g)].1
}

impl<'w> WriterGroup<'w> {
    /// Adds a channel of element type `T` to the group (or finds the channel of that name)
    /// and gives a handle to it.
    pub fn add_channel<T: WritableType>(&mut self, name: &str) -> (r: Result<WriterChannel<'_, T>, TdmsError>)
        requires
            old(self).writer.wf(),
        ensures
            name@.len() == 0 ==> (r matches Err(e) && e@ == ErrorModel::InvalidName(empty_channel_text())
                && *final(self) == *old(self)),
            name@.len() != 0 && !has_key(old(self).writer@.groups, old(self).group_name@) ==> (r matches Err(e)
                && e@ == ErrorModel::GroupNotFound(old(self).group_name@) && *final(self) == *old(self)),
            name@.len() != 0 && has_key(old(self).writer@.groups, old(self).group_name@) ==> (r matches Ok(c)
                && c.writer.wf()
                && (*c.writer)@ == with_group(old(self).writer@, old(self).group_name@, group_with_channels(
                    group_of(old(self).writer@, old(self).group_name@),
                    add_channel_to(group_of(old(self).writer@, old(self).group_name@).channels, name@, T::spec_data_type()),
                ))
                && c.group_name@ == old(self).group_name@
                && c.channel_name@ == name@
                && *final(self).writer == *final(c.writer)
                && *final(final(self).writer) == *final(old(self).writer)
                && final(self).group_name == old(self).group_name),
    {
        if name.is_empty() {
            return Err(TdmsError::InvalidName("Channel name cannot be empty".to_owned()));
        }
        let gi = match self.writer.groups.find(self.group_name.as_str()) {
            Some(i) => i,
            None => {
                return Err(TdmsError::GroupNotFound(self.group_name.clone()));
            },
        };
        assert(self.writer.groups.value(gi as int).wf());
        let ghost w0 = self.writer@;
        let grp = self.writer.groups.value_mut(gi);
        match find_channel(&grp.channels, name) {
            Some(_) => {},
            None => {
                let ch = WriterChannelData {
                    name: name.to_owned(),
                    data_type: T::data_type(),
                    offsets: Vec::new(),
                    data: Vec::new(),
                    count: 0,
                    properties: NamedMap::new(),
                };
                let ghost old_chs = grp.channels@;
                let ghost chv = ch;
                assert(chv.properties.wf());
                assert(data_consistent(chv@));
                let p = insert_channel(&mut grp.channels, ch);
                assert(grp.channels@ == old_chs.insert(p as int, chv));
                assert forall|i: int| 0 <= i < grp.channels@.len() implies (#[trigger] grp.channels@[i]).properties.wf() && data_consistent(grp.channels@[i]@) by {
                    if i < p {
                        assert(grp.channels@[i] == old_chs[i]);
                    } else if i > p {
                        assert(grp.channels@[i] == old_chs[i - 1]);
                    }
                }
            },
        }
        proof {
            self.writer.groups.lemma_wf_distinct();
            let g = self.group_name@;
            let grp0 = group_of(w0, g);
            assert(self.writer@.groups =~= w0.groups.update(gi as int, (g, group_with_channels(grp0, add_channel_to(grp0.channels, name@, T::spec_data_type())))));
        }
        Ok(WriterChannel { writer: &mut *self.writer, group_name: self.group_name.clone(), channel_name: name.to_owned(), _phantom: PhantomData })
    }
}

impl<'w> WriterGroup<'w> {
    /// Files a group-level property (an empty name is refused).
    pub fn add_property(&mut self, name: &str, value: PropertyValue) -> (r: Result<&mut WriterGroup<'w>, TdmsError>)
        requires
            old(self).writer.wf(),
        ensures
            name@.len() == 0 ==> (r matches Err(e) && e@ == ErrorModel::InvalidName(empty_property_text())
                && *final(self) == *old(self)),
            name@.len() != 0 && !has_key(old(self).writer@.groups, old(self).group_name@) ==> (r matches Err(e)
                && e@ == ErrorModel::GroupNotFound(old(self).group_name@) && *final(self) == *old(self)),
            name@.len() != 0 && has_key(old(self).writer@.groups, old(self).group_name@) ==> (r matches Ok(s)
                && s.writer.wf()
                && (*s.writer)@ == with_group(old(self).writer@, old(self).group_name@, group_with_properties(
                    group_of(old(self).writer@, old(self).group_name@),
                    insert_entry(group_of(old(self).writer@, old(self).group_name@).properties, name@, value@),
                ))
                && s.group_name == old(self).group_name
                && *final(s.writer) == *final(old(self).writer)
                && *final(self) == *final(s)),
    {
        if name.is_empty() {
            return Err(TdmsError::InvalidName("Property name cannot be empty".to_owned()));
        }
        let gi = match self.writer.groups.find(self.group_name.as_str()) {
            Some(i) => i,
            None => {
                return Err(TdmsError::GroupNotFound(self.group_name.clone()));
            },
        };
        assert(self.writer.groups.value(gi as int).wf());
        let ghost w0 = self.writer@;
        let grp = self.writer.groups.value_mut(gi);
        grp.properties.insert(name.to_owned(), value);
        proof {
            self.writer.groups.lemma_wf_distinct();
            let g = self.group_name@;
            let grp0 = group_of(w0, g);
            assert(self.writer@.groups =~= w0.groups.update(gi as int, (g, group_with_properties(grp0, insert_entry(grp0.properties, name@, value@)))));
        }
        Ok(self)
    }
}

/// Whether the writer holds a channel `c` in a group `g`.
pub open spec fn channel_present(w: WriterModel, g: Seq<char>, c: Seq<char>) -> bool {
    has_key(w.groups, g) && has_channel(group_of(w, g).channels, c)
}

/// The channel `c` of the group `g` (where there is one).
pub open spec fn channel_of(w: WriterModel, g: Seq<char>, c: Seq<char>) -> WChannelModel {
    group_of(w, g).channels[channel_pos(group_of(w, g).channels, c)]
}

/// The writer with the channel `c` of the group `g` replaced by `ch`.
pub open spec fn with_channel(w: WriterModel, g: Seq<char>, c: Seq<char>, ch: WChannelModel) -> WriterModel {
    let grp = group_of(w, g);
    with_group(w, g, group_with_channels(grp, grp.channels.update(channel_pos(grp.channels, c), ch)))
}

/// The channel with `offs` appended to its end offsets, `bytes` to its data, and `n` more
/// values counted.
pub open spec fn channel_written(ch: WChannelModel, offs: Seq<u8>, bytes: Seq<u8>, n: int) -> WChannelModel {
    WChannelModel { offsets: ch.offsets + offs, data: ch.data + bytes, count: (ch.count + n) as usize, ..ch }
}

/// The channel with other properties.
pub open spec fn channel_with_properties(ch: WChannelModel, p: Seq<(Seq<char>, PropertyModel)>) -> WChannelModel {
    WChannelModel { properties: p, ..ch }
}

/// A handle to a channel of a writer, for values of type `T`.
pub struct WriterChannel<'w, T> {
    pub writer: &'w mut TdmsWriter,
    pub group_name: String,
    pub channel_name: String,
    pub _phantom: PhantomData<T>,
}

impl TdmsWriter {
    /// The positions of the group `g` and of its channel `c`.
    fn locate_channel(&self, g: &str, c: &str) -> (r: Result<(usize, usize), TdmsError>)
        requires
            self.wf(),
        ensures
            match r {
                Ok((gi, ci)) => {
                    &&& channel_present(self@, g@, c@)
                    &&& gi < self@.groups.len()
                    &&& gi == key_pos(self@.groups, g@)
                    &&& self@.groups[gi as int].0 == g@
                    &&& ci < group_of(self@, g@).channels.len()
                    &&& ci == channel_pos(group_of(self@, g@).channels, c@)
                },
                Err(e) => {
                    &&& !channel_present(self@, g@, c@)
                    &&& !has_key(self@.groups, g@) ==> e@ == ErrorModel::GroupNotFound(g@)
                    &&& has_key(self@.groups, g@) ==> e@ == ErrorModel::ChannelNotFound(c@, g@)
                },
            },
    {
        let gi = match self.groups.find(g) {
            Some(i) => i,
            None => {
                return Err(TdmsError::GroupNotFound(g.to_owned()));
            },
        };
        proof {
            self.groups.lemma_view_value(gi as int);
        }
        let grp = self.groups.value_at(gi);
        assert(grp.wf());
        match find_channel(&grp.channels, c) {
            Some(ci) => Ok((gi, ci)),
            None => Err(TdmsError::ChannelNotFound(c.to_owned(), g.to_owned())),
        }
    }
}

impl<'w, T: WritableType> WriterChannel<'w, T> {
    /// Appends the values of `data` to the channel.
    ///
    /// Values of another element type than the channel's are refused, and so is a write of
    /// strings whose end offsets would not fit 32 bits; a refused write changes nothing.
    pub fn write(&mut self, data: &[T]) -> (r: Result<(), TdmsError>)
        requires
            old(self).writer.wf(),
            channel_present(old(self).writer@, old(self).group_name@, old(self).channel_name@) ==>
                channel_of(old(self).writer@, old(self).group_name@, old(self).channel_name@).count + data@.len() <= usize::MAX,
        ensures
            final(self).writer.wf(),
            final(self).group_name == old(self).group_name,
            final(self).channel_name == old(self).channel_name,
            *final(final(self).writer) == *final(old(self).writer),
            !has_key(old(self).writer@.groups, old(self).group_name@) ==> (r matches Err(e)
                && e@ == ErrorModel::GroupNotFound(old(self).group_name@)
                && (*final(self).writer)@ == old(self).writer@),
            has_key(old(self).writer@.groups, old(self).group_name@)
                && !channel_present(old(self).writer@, old(self).group_name@, old(self).channel_name@) ==> (r matches Err(e)
                && e@ == ErrorModel::ChannelNotFound(old(self).channel_name@, old(self).group_name@)
                && (*final(self).writer)@ == old(self).writer@),
            channel_present(old(self).writer@, old(self).group_name@, old(self).channel_name@) ==> ({
                let ch = channel_of(old(self).writer@, old(self).group_name@, old(self).channel_name@);
                let (offs, bytes, ok) = T::spec_write(data@, ch.data.len());
                if ch.data_type != T::spec_data_type() {
                    &&& r matches Err(e) && e@ == ErrorModel::TypeMismatch
                    &&& (*final(self).writer)@ == old(self).writer@
                } else if ok {
                    &&& r is Ok
                    &&& (*final(self).writer)@ == with_channel(old(self).writer@, old(self).group_name@,
                        old(self).channel_name@, channel_written(ch, offs, bytes, data@.len() as int))
                } else {
                    &&& r matches Err(e) && e@ == ErrorModel::InvalidFormat(string_overflow_text())
                    &&& (*final(self).writer)@ == old(self).writer@
                }
            }),
    {
        let (gi, ci) = match self.writer.locate_channel(self.group_name.as_str(), self.channel_name.as_str()) {
            Ok(p) => p,
            Err(e) => {
                return Err(e);
            },
        };
        let ghost w0 = self.writer@;
        let ghost g = self.group_name@;
        let ghost c = self.channel_name@;
        proof {
            self.writer.groups.lemma_view_value(gi as int);
        }
        assert(self.writer.groups.value(gi as int).wf());
        let grp = self.writer.groups.value_mut(gi);
        let ghost chs0 = grp.channels@;
        let ghost ch0 = chs0[ci as int];
        assert(wchannels_view(chs0)[ci as int] == ch0@);
        assert(data_consistent(ch0@));
        let n = T::count(data);
        if grp.channels[ci].data_type != T::data_type() {
            proof {
                assert(channel_of(w0, g, c) == ch0@);
                assert(grp.channels@ == chs0);
                assert(self.writer@.groups =~= w0.groups);
            }
            return Err(TdmsError::TypeMismatch);
        }
        let ch = &mut grp.channels[ci];
        let ghost base = ch.data@.len();
        proof {
            T::lemma_write_shape(data@, base);
        }
        let res = T::write_to_buffer(data, &mut ch.offsets, &mut ch.data);
        match res {
            Ok(()) => {
                ch.count = ch.count + n;
            },
            Err(_) => {},
        }
        proof {
            let (offs, bytes, ok) = T::spec_write(data@, base);
            if ok {
                let chv = channel_written(ch0@, offs, bytes, data@.len() as int);
                assert(grp.channels@[ci as int]@ == chv);
                assert(data_consistent(chv)) by {
                    let sz = type_size(chv.data_type);
                    if chv.data_type != DataType::String {
                        assert(sz * ch0.count + sz * data@.len() == sz * (ch0.count + data@.len())) by (nonlinear_arith);
                    }
                }
                assert(wchannels_view(grp.channels@) =~= wchannels_view(chs0).update(ci as int, chv));
                assert forall|i: int| 0 <= i < grp.channels@.len() implies (#[trigger] grp.channels@[i]).properties.wf() && data_consistent(grp.channels@[i]@) by {
                    if i != ci {
                        assert(grp.channels@[i] == chs0[i]);
                    }
                }
                self.writer.groups.lemma_wf_distinct();
                let grp0 = group_of(w0, g);
                assert(self.writer@.groups =~= w0.groups.update(gi as int, (g, group_with_channels(grp0, grp0.channels.update(ci as int, chv)))));
            } else {
                assert(grp.channels@[ci as int]@ == ch0@);
                assert(wchannels_view(grp.channels@) =~= wchannels_view(chs0));
                assert forall|i: int| 0 <= i < grp.channels@.len() implies (#[trigger] grp.channels@[i]).properties.wf() && data_consistent(grp.channels@[i]@) by {
                    if i != ci {
                        assert(grp.channels@[i] == chs0[i]);
                    }
                }
                assert(self.writer@.groups =~= w0.groups);
            }
        }
        res
    }

    /// Files a channel-level property (an empty name is refused).
    pub fn add_property(&mut self, name: &str, value: PropertyValue) -> (r: Result<&mut WriterChannel<'w, T>, TdmsError>)
        requires
            old(self).writer.wf(),
        ensures
            name@.len() == 0 ==> (r matches Err(e) && e@ == ErrorModel::InvalidName(empty_property_text())
                && *final(self) == *old(self)),
            name@.len() != 0 && !has_key(old(self).writer@.groups, old(self).group_name@) ==> (r matches Err(e)
                && e@ == ErrorModel::GroupNotFound(old(self).group_name@) && *final(self) == *old(self)),
            name@.len() != 0 && has_key(old(self).writer@.groups, old(self).group_name@)
                && !channel_present(old(self).writer@, old(self).group_name@, old(self).channel_name@) ==> (r matches Err(e)
                && e@ == ErrorModel::ChannelNotFound(old(self).channel_name@, old(self).group_name@)
                && *final(self) == *old(self)),
            name@.len() != 0 && channel_present(old(self).writer@, old(self).group_name@, old(self).channel_name@) ==> (r matches Ok(s)
                && s.writer.wf()
                && (*s.writer)@ == with_channel(old(self).writer@, old(self).group_name@, old(self).channel_name@,
                    channel_with_properties(channel_of(old(self).writer@, old(self).group_name@, old(self).channel_name@),
                        insert_entry(channel_of(old(self).writer@, old(self).group_name@, old(self).channel_name@).properties, name@, value@)))
                && s.group_name == old(self).group_name
                && s.channel_name == old(self).channel_name
                && *final(s.writer) == *final(old(self).writer)
                && *final(self) == *final(s)),
    {
        if name.is_empty() {
            return Err(TdmsError::InvalidName("Property name cannot be empty".to_owned()));
        }
        let (gi, ci) = match self.writer.locate_channel(self.group_name.as_str(), self.channel_name.as_str()) {
            Ok(p) => p,
            Err(e) => {
                return Err(e);
            },
        };
        let ghost w0 = self.writer@;
        let ghost g = self.group_name@;
        proof {
            self.writer.groups.lemma_view_value(gi as int);
        }
        assert(self.writer.groups.value(gi as int).wf());
        let grp = self.writer.groups.value_mut(gi);
        let ghost chs0 = grp.channels@;
        let ghost ch0 = chs0[ci as int];
        assert(wchannels_view(chs0)[ci as int] == ch0@);
        assert(ch0.properties.wf());
        let ch = &mut grp.channels[ci];
        ch.properties.insert(name.to_owned(), value);
        proof {
            let chv = channel_with_properties(ch0@, insert_entry(ch0@.properties, name@, value@));
            assert(grp.channels@ == chs0.update(ci as int, grp.channels@[ci as int]));
            assert(grp.channels@[ci as int]@ == chv);
            assert(wchannels_view(grp.channels@) =~= wchannels_view(chs0).update(ci as int, chv));
            assert forall|i: int| 0 <= i < grp.channels@.len() implies (#[trigger] grp.channels@[i]).properties.wf() && data_consistent(grp.channels@[i]@) by {
                if i != ci {
                    assert(grp.channels@[i] == chs0[i]);
                }
            }
            self.writer.groups.lemma_wf_distinct();
            let grp0 = group_of(w0, g);
            assert(self.writer@.groups =~= w0.groups.update(gi as int, (g, group_with_channels(grp0, grp0.channels.update(ci as int, chv)))));
        }
        Ok(self)
    }
}

impl TdmsWriter {
    /// The number of objects that the file lists, where it fits 32 bits.
    pub fn object_count(&self) -> (r: Option<u32>)
        requires
            self.wf(),
        ensures
            match r {
                Some(n) => n == object_count(self@),
                None => object_count(self@) > u32::MAX,
            },
    {
        let ghost w = self@;
        let ghost gs = self@.groups;
        let ng = self.groups.len();
        let mut count: u32 = if self.properties.len() > 0 { 1 } else { 0 };
        let mut i: usize = 0;
        while i < ng
            invariant
                self.wf(),
                w == self@,
                gs == w.groups,
                ng == gs.len(),
                i <= ng,
                count == (if w.properties.len() == 0 { 0nat } else { 1nat }) + groups_object_count(gs.take(i as int)),
            decreases ng - i,
        {
            proof {
                lemma_count_prefix(gs, i + 1);
                assert(gs.take(i + 1).drop_last() =~= gs.take(i as int));
                self.groups.lemma_view_value(i as int);
            }
            let grp = self.groups.value_at(i);
            let n = grp.channels.len();
            if n > u32::MAX as usize {
                return None;
            }
            let step = match count.checked_add(1) {
                Some(c) => c.checked_add(n as u32),
                None => None,
            };
            match step {
                Some(c) => {
                    count = c;
                },
                None => {
                    return None;
                },
            }
            i = i + 1;
        }
        assert(gs.take(ng as int) =~= gs);
        Some(count)
    }

    /// The bytes of the file: the lead-in, the metadata of the file object (where the file has
    /// properties), of each group and of each of its channels, then the raw data of each
    /// channel.
    pub fn file_image(&self) -> (r: Vec<u8>)
        requires
            self.wf(),
            object_count(self@) <= u32::MAX,
        ensures
            r@ == image_of(self@),
    {
        let ghost w = self@;
        let ghost gs = self@.groups;
        let ng = self.groups.len();
        let has_props = self.properties.len() > 0;
        let count = match self.object_count() {
            Some(n) => n,
            None => 0,
        };
        assert(count == object_count(w));
        assert(le_u32(count) == le_u32(object_count(w) as u32));
        let mut meta: Vec<u8> = Vec::new();
        push_u32(&mut meta, count);
        if has_props {
            proof {
                reveal_strlit("/");
            }
            push_text(&mut meta, "/");
            push_u32(&mut meta, 0xFFFF_FFFF);
            push_properties(&mut meta, &self.properties);
            assert("/"@ =~= seq!['/']);
            assert(meta@ =~= le_u32(count) + root_meta(w.properties));
        } else {
            assert(meta@ =~= le_u32(count) + root_meta(w.properties));
        }
        let mut i: usize = 0;
        while i < ng
            invariant
                self.wf(),
                w == self@,
                gs == w.groups,
                ng == gs.len(),
                i <= ng,
                meta@ == le_u32(count) + root_meta(w.properties) + groups_meta(gs.take(i as int)),
            decreases ng - i,
        {
            proof {
                assert(gs.take(i + 1).drop_last() =~= gs.take(i as int));
                self.groups.lemma_view_value(i as int);
            }
            push_group_meta(&mut meta, self.groups.value_at(i));
            i = i + 1;
            assert(meta@ =~= le_u32(count) + root_meta(w.properties) + groups_meta(gs.take(i as int)));
        }
        assert(gs.take(ng as int) =~= gs);
        assert(meta@ =~= metadata_bytes(w));
        let mut out: Vec<u8> = Vec::new();
        push_u8(&mut out, 0x54);
        push_u8(&mut out, 0x44);
        push_u8(&mut out, 0x53);
        push_u8(&mut out, 0x6d);
        push_u32(&mut out, 0x0E);
        push_u32(&mut out, 4712);
        push_u64(&mut out, u64::MAX);
        push_u64(&mut out, meta.len() as u64);
        push_bytes(&mut out, meta.as_slice());
        assert(out@ =~= lead_in_bytes(metadata_bytes(w).len()) + metadata_bytes(w));
        let ghost head = out@;
        let mut i: usize = 0;
        while i < ng
            invariant
                self.wf(),
                w == self@,
                gs == w.groups,
                ng == gs.len(),
                i <= ng,
                out@ == head + groups_raw(gs.take(i as int)),
            decreases ng - i,
        {
            proof {
                assert(gs.take(i + 1).drop_last() =~= gs.take(i as int));
                self.groups.lemma_view_value(i as int);
            }
            push_group_raw(&mut out, self.groups.value_at(i));
            i = i + 1;
            assert(out@ =~= head + groups_raw(gs.take(i as int)));
        }
        out
    }
}

impl TdmsWriter {
    /// A well-formed writer keeps distinct names everywhere, files each group under its own
    /// name, and keeps each channel's buffers as large as its count announces.
    pub proof fn lemma_model_wf(&self)
        requires
            self.wf(),
        ensures
            model_wf(self@),
    {
        self.properties.lemma_wf_distinct();
        self.groups.lemma_wf_distinct();
        let w = self@;
        assert forall|i: int| 0 <= i < w.groups.len() implies keys_distinct((#[trigger] w.groups[i]).1.properties)
            && names_distinct(w.groups[i].1.channels) by {
            self.groups.lemma_view_value(i);
            let grp = self.groups.value(i);
            assert(grp.wf());
            grp.properties.lemma_wf_distinct();
            let chs = w.groups[i].1.channels;
            assert forall|a: int, b: int| 0 <= a < chs.len() && 0 <= b < chs.len() && a != b implies #[trigger] chs[a].name != #[trigger] chs[b].name by {
                if chs[a].name == chs[b].name {
                    if a < b {
                        assert(bytes_lt(name_key(chs[a].name), name_key(chs[b].name)));
                    } else {
                        assert(bytes_lt(name_key(chs[b].name), name_key(chs[a].name)));
                    }
                    lemma_bytes_lt_irreflexive(name_key(chs[a].name));
                }
            }
        }
        assert forall|i: int, j: int| 0 <= i < w.groups.len() && 0 <= j < w.groups[i].1.channels.len()
            implies keys_distinct((#[trigger] w.groups[i].1.channels[j]).properties)
                && data_consistent(w.groups[i].1.channels[j]) by {
            self.groups.lemma_view_value(i);
            let grp = self.groups.value(i);
            assert(grp.wf());
            assert(grp.channels@[j].properties.wf());
            grp.channels@[j].properties.lemma_wf_distinct();
            assert(data_consistent(grp.channels@[j]@));
            assert(w.groups[i].1.channels[j] == grp.channels@[j]@);
        }
    }
}

} // verus!
