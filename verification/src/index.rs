//! Reading a TDMS image: the index of its groups, channels and properties, and the values
//! of its channels.
use vstd::prelude::*;
use crate::datatypes::{type_size, DataType, PropertyModel, PropertyValue};
use crate::error::{ErrorModel, TdmsError};
use crate::names::{
    has_key, insert_all, insert_entry, key_pos, keys_distinct, lemma_insert_entry_distinct, lemma_insert_then_update,
    lookup, NamedMap,
};
use crate::path::{parse_path, path_target, PathTarget, TargetModel};
use crate::segment::{
    initial_reader, objects_view, props_view, sat_add, segment_at, DataLocation, ObjectModel,
    ParsedObject, ReaderModel, TdmsReaderInternal,
};

verus! {

/// What the index holds of a channel.
pub struct ChannelModel {
    pub name: Seq<char>,
    pub dtype: DataType,
    pub len: u64,
    pub locations: Seq<DataLocation>,
    pub properties: Seq<(Seq<char>, PropertyModel)>,
}

/// What the index holds of a group.
pub struct GroupModel {
    pub name: Seq<char>,
    pub channels: Seq<(Seq<char>, ChannelModel)>,
    pub properties: Seq<(Seq<char>, PropertyModel)>,
}

/// What the index holds of a file.
pub struct FileModel {
    pub groups: Seq<(Seq<char>, GroupModel)>,
    pub properties: Seq<(Seq<char>, PropertyModel)>,
}

/// The index before any segment.
pub open spec fn empty_file() -> FileModel {
    FileModel { groups: Seq::empty(), properties: Seq::empty() }
}

/// A group that the index meets for the first time.
pub open spec fn new_group(g: Seq<char>) -> GroupModel {
    GroupModel { name: g, channels: Seq::empty(), properties: Seq::empty() }
}

/// A channel that the index meets for the first time.
pub open spec fn new_channel(c: Seq<char>) -> ChannelModel {
    ChannelModel { name: c, dtype: DataType::Double, len: 0, locations: Seq::empty(), properties: Seq::empty() }
}

/// A channel after one more object of its path: its properties are filed, its run of
/// values (if any) appended, and a new raw data description sets its data type.
pub open spec fn apply_to_channel(ch: ChannelModel, o: ObjectModel) -> ChannelModel {
    let ch1 = ChannelModel { properties: insert_all(ch.properties, o.properties), ..ch };
    let ch2 = match o.data_location {
        Some(l) => ChannelModel {
            len: sat_add(ch1.len, l.number_of_values),
            locations: ch1.locations.push(l),
            ..ch1
        },
        None => ch1,
    };
    match o.raw_data_meta {
        Some(m) => ChannelModel { dtype: m.data_type, ..ch2 },
        None => ch2,
    }
}

/// The group filed under `g`, or a new one.
pub open spec fn group_or_new(f: FileModel, g: Seq<char>) -> GroupModel {
    match lookup(f.groups, g) {
        Some(x) => x,
        None => new_group(g),
    }
}

/// The channel filed under `c`, or a new one.
pub open spec fn channel_or_new(grp: GroupModel, c: Seq<char>) -> ChannelModel {
    match lookup(grp.channels, c) {
        Some(x) => x,
        None => new_channel(c),
    }
}

/// The index after one more object: a group path files its properties on the group, a
/// channel path on the channel (creating either as needed), the root path on the file.
pub open spec fn apply_object(f: FileModel, o: ObjectModel) -> FileModel {
    match path_target(o.path) {
        TargetModel::Group(g) => {
            let grp = group_or_new(f, g);
            FileModel {
                groups: insert_entry(f.groups, g, GroupModel { properties: insert_all(grp.properties, o.properties), ..grp }),
                ..f
            }
        },
        TargetModel::Channel(g, c) => {
            let grp = group_or_new(f, g);
            let ch = channel_or_new(grp, c);
            FileModel {
                groups: insert_entry(f.groups, g, GroupModel { channels: insert_entry(grp.channels, c, apply_to_channel(ch, o)), ..grp }),
                ..f
            }
        },
        TargetModel::Root => FileModel { properties: insert_all(f.properties, o.properties), ..f },
        TargetModel::Other => f,
    }
}

/// The index after each object in turn.
pub open spec fn apply_objects(f: FileModel, os: Seq<ObjectModel>) -> FileModel
    decreases os.len(),
{
    if os.len() == 0 {
        f
    } else {
        apply_object(apply_objects(f, os.drop_last()), os.last())
    }
}

/// The index of the segments from `pos` on, added to `f`. The end of the data, even in the
/// middle of a segment, ends the file; any other error is the file's error.
pub open spec fn scan(s: Seq<u8>, pos: u64, st: ReaderModel, f: FileModel) -> Result<FileModel, ErrorModel>
    decreases u64::MAX - pos,
{
    match segment_at(s, pos, st) {
        Ok((seg, st2, next)) => {
            let f2 = apply_objects(f, seg.objects);
            if next > pos {
                scan(s, next, st2, f2)
            } else {
                Ok(f2)
            }
        },
        Err(ErrorModel::UnexpectedEof) => Ok(f),
        Err(e) => Err(e),
    }
}

/// The index of a whole file image.
pub open spec fn index_of(s: Seq<u8>) -> Result<FileModel, ErrorModel> {
    scan(s, 0, initial_reader(), empty_file())
}

/// A channel of an index is filed under its own name, and its properties under distinct
/// names.
pub open spec fn channel_entry_wf(e: (Seq<char>, ChannelModel)) -> bool {
    &&& e.1.name == e.0
    &&& keys_distinct(e.1.properties)
}

/// A group of an index is filed under its own name, and its properties and channels under
/// distinct names.
pub open spec fn group_entry_wf(e: (Seq<char>, GroupModel)) -> bool {
    &&& e.1.name == e.0
    &&& keys_distinct(e.1.properties)
    &&& keys_distinct(e.1.channels)
    &&& forall|j: int| 0 <= j < e.1.channels.len() ==> channel_entry_wf(#[trigger] e.1.channels[j])
}

/// An index files every group and channel under its own name and every name once.
pub open spec fn file_wf(f: FileModel) -> bool {
    &&& keys_distinct(f.properties)
    &&& keys_distinct(f.groups)
    &&& forall|i: int| 0 <= i < f.groups.len() ==> group_entry_wf(#[trigger] f.groups[i])
}

/// Filing entries keeps names distinct.
pub proof fn lemma_insert_all_distinct<W>(e: Seq<(Seq<char>, W)>, more: Seq<(Seq<char>, W)>)
    requires
        keys_distinct(e),
    ensures
        keys_distinct(insert_all(e, more)),
    decreases more.len(),
{
    if more.len() > 0 {
        lemma_insert_all_distinct(e, more.drop_last());
        lemma_insert_entry_distinct(insert_all(e, more.drop_last()), more.last().0, more.last().1);
    }
}

/// Each entry after filing is an entry from before or the one filed.
pub proof fn lemma_insert_entry_from<W>(e: Seq<(Seq<char>, W)>, k: Seq<char>, w: W, i: int)
    requires
        0 <= i < insert_entry(e, k, w).len(),
    ensures
        insert_entry(e, k, w)[i] == (k, w) || (i < e.len() && insert_entry(e, k, w)[i] == e[i]),
{
}

/// The group filed under `g`, or a new one, is filed under `g` in a well-formed index.
proof fn lemma_group_or_new_wf(f: FileModel, g: Seq<char>)
    requires
        file_wf(f),
    ensures
        group_entry_wf((g, group_or_new(f, g))),
{
    if has_key(f.groups, g) {
        let p = key_pos(f.groups, g);
        assert(group_entry_wf(f.groups[p]));
    } else {
        assert(keys_distinct(Seq::<(Seq<char>, PropertyModel)>::empty()));
        assert(keys_distinct(Seq::<(Seq<char>, ChannelModel)>::empty()));
    }
}

/// One more object keeps an index well formed.
pub proof fn lemma_apply_object_wf(f: FileModel, o: ObjectModel)
    requires
        file_wf(f),
    ensures
        file_wf(apply_object(f, o)),
{
    match path_target(o.path) {
        TargetModel::Group(g) => {
            let grp = group_or_new(f, g);
            lemma_group_or_new_wf(f, g);
            lemma_insert_all_distinct(grp.properties, o.properties);
            let ng = GroupModel { properties: insert_all(grp.properties, o.properties), ..grp };
            lemma_insert_entry_distinct(f.groups, g, ng);
            let r = insert_entry(f.groups, g, ng);
            assert forall|i: int| 0 <= i < r.len() implies group_entry_wf(#[trigger] r[i]) by {
                lemma_insert_entry_from(f.groups, g, ng, i);
            }
        },
        TargetModel::Channel(g, c) => {
            let grp = group_or_new(f, g);
            lemma_group_or_new_wf(f, g);
            let ch = channel_or_new(grp, c);
            assert(channel_entry_wf((c, ch))) by {
                if has_key(grp.channels, c) {
                    let p = key_pos(grp.channels, c);
                    assert(channel_entry_wf(grp.channels[p]));
                } else {
                    assert(keys_distinct(Seq::<(Seq<char>, PropertyModel)>::empty()));
                }
            }
            let nch = apply_to_channel(ch, o);
            lemma_insert_all_distinct(ch.properties, o.properties);
            assert(channel_entry_wf((c, nch)));
            let chs = insert_entry(grp.channels, c, nch);
            lemma_insert_entry_distinct(grp.channels, c, nch);
            assert forall|j: int| 0 <= j < chs.len() implies channel_entry_wf(#[trigger] chs[j]) by {
                lemma_insert_entry_from(grp.channels, c, nch, j);
            }
            let ng = GroupModel { channels: chs, ..grp };
            assert(group_entry_wf((g, ng)));
            lemma_insert_entry_distinct(f.groups, g, ng);
            let r = insert_entry(f.groups, g, ng);
            assert forall|i: int| 0 <= i < r.len() implies group_entry_wf(#[trigger] r[i]) by {
                lemma_insert_entry_from(f.groups, g, ng, i);
            }
        },
        TargetModel::Root => {
            lemma_insert_all_distinct(f.properties, o.properties);
        },
        TargetModel::Other => {},
    }
}

/// Each object in turn keeps an index well formed.
pub proof fn lemma_apply_objects_wf(f: FileModel, os: Seq<ObjectModel>)
    requires
        file_wf(f),
    ensures
        file_wf(apply_objects(f, os)),
    decreases os.len(),
{
    if os.len() > 0 {
        lemma_apply_objects_wf(f, os.drop_last());
        lemma_apply_object_wf(apply_objects(f, os.drop_last()), os.last());
    }
}

/// The segments from `pos` on keep an index well formed.
pub proof fn lemma_scan_wf(s: Seq<u8>, pos: u64, st: ReaderModel, f: FileModel)
    requires
        file_wf(f),
    ensures
        scan(s, pos, st, f) matches Ok(f2) ==> file_wf(f2),
    decreases u64::MAX - pos,
{
    match segment_at(s, pos, st) {
        Ok((seg, st2, next)) => {
            lemma_apply_objects_wf(f, seg.objects);
            if next > pos {
                lemma_scan_wf(s, next, st2, apply_objects(f, seg.objects));
            }
        },
        Err(_) => {},
    }
}

/// Every index that the reader builds files each group and channel under its own name and
/// every group, channel and property name once.
pub proof fn lemma_index_of_wf(s: Seq<u8>)
    ensures
        index_of(s) matches Ok(f) ==> file_wf(f),
{
    assert(file_wf(empty_file())) by {
        assert(keys_distinct(Seq::<(Seq<char>, PropertyModel)>::empty()));
        assert(keys_distinct(Seq::<(Seq<char>, GroupModel)>::empty()));
    }
    lemma_scan_wf(s, 0, initial_reader(), empty_file());
}

/// A channel of the index.
pub struct TdmsChannelData {
    pub name: String,
    pub dtype: DataType,
    pub len: u64,
    pub data_locations: Vec<DataLocation>,
    pub properties: NamedMap<PropertyValue>,
}

impl View for TdmsChannelData {
    type V = ChannelModel;

    open spec fn view(&self) -> ChannelModel {
        ChannelModel {
            name: self.name@,
            dtype: self.dtype,
            len: self.len,
            locations: self.data_locations@,
            properties: self.properties@,
        }
    }
}

impl TdmsChannelData {
    pub open spec fn wf(&self) -> bool {
        self.properties.wf()
    }
}

/// A group of the index.
pub struct TdmsGroupData {
    pub name: String,
    pub channels: NamedMap<TdmsChannelData>,
    pub properties: NamedMap<PropertyValue>,
}

impl View for TdmsGroupData {
    type V = GroupModel;

    open spec fn view(&self) -> GroupModel {
        GroupModel { name: self.name@, channels: self.channels@, properties: self.properties@ }
    }
}

impl TdmsGroupData {
    pub open spec fn wf(&self) -> bool {
        &&& self.channels.wf()
        &&& self.properties.wf()
        &&& forall|i: int| 0 <= i < self.channels@.len() ==> #[trigger] self.channels.value(i).wf()
    }
}

/// Files each property of `more` in `map`, in order.
fn extend_properties(map: &mut NamedMap<PropertyValue>, more: &Vec<(String, PropertyValue)>)
    requires
        old(map).wf(),
    ensures
        final(map).wf(),
        final(map)@ == insert_all(old(map)@, props_view(more@)),
{
    let ghost ps = props_view(more@);
    let mut i: usize = 0;
    while i < more.len()
        invariant
            map.wf(),
            i <= more@.len(),
            ps == props_view(more@),
            map@ == insert_all(old(map)@, ps.take(i as int)),
        decreases more@.len() - i,
    {
        assert(ps.take(i + 1).drop_last() =~= ps.take(i as int));
        let (k, v) = &more[i];
        map.insert(k.clone(), v.duplicate());
        i = i + 1;
    }
    assert(ps.take(more@.len() as int) =~= ps);
}

/// The position of the group filed under `g`, filing a new group there first if needed.
fn group_index(groups: &mut NamedMap<TdmsGroupData>, g: String) -> (r: usize)
    requires
        old(groups).wf(),
        forall|i: int| 0 <= i < old(groups)@.len() ==> #[trigger] old(groups).value(i).wf(),
    ensures
        final(groups).wf(),
        forall|i: int| 0 <= i < final(groups)@.len() ==> #[trigger] final(groups).value(i).wf(),
        r < final(groups)@.len(),
        final(groups)@[r as int] == (g@, group_or_new_in(old(groups)@, g@)),
        final(groups)@ == insert_entry(old(groups)@, g@, group_or_new_in(old(groups)@, g@)),
{
    match groups.find(g.as_str()) {
        Some(i) => {
            proof {
                groups.lemma_wf_distinct();
                assert(old(groups)@.update(i as int, (g@, old(groups)@[i as int].1)) =~= old(groups)@);
            }
            i
        },
        None => {
            let data = TdmsGroupData { name: g.clone(), channels: NamedMap::new(), properties: NamedMap::new() };
            proof {
                assert(data@ == new_group(g@));
            }
            groups.insert(g, data)
        },
    }
}

/// The group filed under `g` in `e`, or a new one.
pub open spec fn group_or_new_in(e: Seq<(Seq<char>, GroupModel)>, g: Seq<char>) -> GroupModel {
    match lookup(e, g) {
        Some(x) => x,
        None => new_group(g),
    }
}

/// The channel filed under `c` in `e`, or a new one.
pub open spec fn channel_or_new_in(e: Seq<(Seq<char>, ChannelModel)>, c: Seq<char>) -> ChannelModel {
    match lookup(e, c) {
        Some(x) => x,
        None => new_channel(c),
    }
}

/// The position of the channel filed under `c`, filing a new channel there first if needed.
fn channel_index(channels: &mut NamedMap<TdmsChannelData>, c: String) -> (r: usize)
    requires
        old(channels).wf(),
        forall|i: int| 0 <= i < old(channels)@.len() ==> #[trigger] old(channels).value(i).wf(),
    ensures
        final(channels).wf(),
        forall|i: int| 0 <= i < final(channels)@.len() ==> #[trigger] final(channels).value(i).wf(),
        r < final(channels)@.len(),
        final(channels)@[r as int] == (c@, channel_or_new_in(old(channels)@, c@)),
        final(channels)@ == insert_entry(old(channels)@, c@, channel_or_new_in(old(channels)@, c@)),
{
    match channels.find(c.as_str()) {
        Some(i) => {
            proof {
                channels.lemma_wf_distinct();
                assert(old(channels)@.update(i as int, (c@, old(channels)@[i as int].1)) =~= old(channels)@);
            }
            i
        },
        None => {
            let data = TdmsChannelData {
                name: c.clone(),
                dtype: DataType::Double,
                len: 0,
                data_locations: Vec::new(),
                properties: NamedMap::new(),
            };
            proof {
                assert(data@ == new_channel(c@));
            }
            channels.insert(c, data)
        },
    }
}


/// An index being built: the groups and the file's properties.
pub struct Index {
    pub groups: NamedMap<TdmsGroupData>,
    pub properties: NamedMap<PropertyValue>,
}

impl View for Index {
    type V = FileModel;

    open spec fn view(&self) -> FileModel {
        FileModel { groups: self.groups@, properties: self.properties@ }
    }
}

impl Index {
    pub open spec fn wf(&self) -> bool {
        &&& self.groups.wf()
        &&& self.properties.wf()
        &&& forall|i: int| 0 <= i < self.groups@.len() ==> #[trigger] self.groups.value(i).wf()
    }

    /// An index with nothing in it.
    pub fn new() -> (r: Index)
        ensures
            r.wf(),
            r@ == empty_file(),
    {
        Index { groups: NamedMap::new(), properties: NamedMap::new() }
    }

    /// Adds one object (see [`apply_object`]).
    pub fn apply(&mut self, o: &ParsedObject)
        requires
            old(self).wf(),
        ensures
            final(self).wf(),
            final(self)@ == apply_object(old(self)@, o@),
    {
        match parse_path(o.path.as_str()) {
            PathTarget::Group(g) => {
                let ghost gv = g@;
                proof {
                    self.groups.lemma_wf_distinct();
                }
                let gi = group_index(&mut self.groups, g);
                assert(self.groups.value(gi as int).wf());
                let grp = self.groups.value_mut(gi);
                extend_properties(&mut grp.properties, &o.properties);
                proof {
                    let old_grp = group_or_new_in(old(self)@.groups, gv);
                    lemma_insert_then_update(old(self)@.groups, gv, old_grp,
                        GroupModel { properties: insert_all(old_grp.properties, o@.properties), ..old_grp }, gi as int);
                    assert(self.groups@ =~= insert_entry(old(self)@.groups, gv,
                        GroupModel { properties: insert_all(old_grp.properties, o@.properties), ..old_grp }));
                }
            },
            PathTarget::Channel(g, c) => {
                let ghost gv = g@;
                let ghost cv = c@;
                proof {
                    self.groups.lemma_wf_distinct();
                }
                let gi = group_index(&mut self.groups, g);
                assert(self.groups.value(gi as int).wf());
                let grp = self.groups.value_mut(gi);
                proof {
                    grp.channels.lemma_wf_distinct();
                }
                let ghost old_channels = grp.channels@;
                let ci = channel_index(&mut grp.channels, c);
                assert(grp.channels.value(ci as int).wf());
                let ch = grp.channels.value_mut(ci);
                extend_properties(&mut ch.properties, &o.properties);
                match o.data_location {
                    Some(loc) => {
                        ch.len = ch.len.saturating_add(loc.number_of_values);
                        ch.data_locations.push(loc);
                    },
                    None => {},
                }
                match o.raw_data_meta {
                    Some(m) => {
                        ch.dtype = m.data_type;
                    },
                    None => {},
                }
                proof {
                    let old_grp = group_or_new_in(old(self)@.groups, gv);
                    let old_ch = channel_or_new_in(old_grp.channels, cv);
                    assert(old_channels == old_grp.channels);
                    lemma_insert_then_update(old_grp.channels, cv, old_ch, apply_to_channel(old_ch, o@), ci as int);
                    lemma_insert_then_update(old(self)@.groups, gv, old_grp,
                        GroupModel { channels: insert_entry(old_grp.channels, cv, apply_to_channel(old_ch, o@)), ..old_grp }, gi as int);
                    assert(self.groups@ =~= insert_entry(old(self)@.groups, gv,
                        GroupModel { channels: insert_entry(old_grp.channels, cv, apply_to_channel(old_ch, o@)), ..old_grp }));
                }
            },
            PathTarget::Root => {
                extend_properties(&mut self.properties, &o.properties);
            },
            PathTarget::Other => {},
        }
    }
}


impl Index {
    /// Adds each object in turn (see [`apply_objects`]).
    pub fn apply_all(&mut self, objects: &Vec<ParsedObject>)
        requires
            old(self).wf(),
        ensures
            final(self).wf(),
            final(self)@ == apply_objects(old(self)@, objects_view(objects@)),
    {
        let ghost os = objects_view(objects@);
        let mut i: usize = 0;
        while i < objects.len()
            invariant
                self.wf(),
                i <= objects@.len(),
                os == objects_view(objects@),
                self@ == apply_objects(old(self)@, os.take(i as int)),
            decreases objects@.len() - i,
        {
            assert(os.take(i + 1).drop_last() =~= os.take(i as int));
            self.apply(&objects[i]);
            i = i + 1;
        }
        assert(os.take(objects@.len() as int) =~= os);
    }

    /// Indexes a whole file image (see [`index_of`]).
    pub fn build(data: &[u8]) -> (r: Result<Index, TdmsError>)
        ensures
            match index_of(data@) {
                Ok(f) => r matches Ok(ix) && ix.wf() && ix@ == f,
                Err(e) => r matches Err(e2) && e2@ == e,
            },
    {
        let mut reader = TdmsReaderInternal::new();
        let mut index = Index::new();
        let mut pos: u64 = 0;
        loop
            invariant
                reader.wf(),
                index.wf(),
                index_of(data@) == scan(data@, pos, reader@, index@),
            decreases u64::MAX - pos,
        {
            match reader.read_segment(data, pos) {
                Ok((seg, next)) => {
                    index.apply_all(&seg.objects);
                    if next > pos {
                        pos = next;
                    } else {
                        return Ok(index);
                    }
                },
                Err(TdmsError::UnexpectedEof) => {
                    return Ok(index);
                },
                Err(e) => {
                    return Err(e);
                },
            }
        }
    }
}

} // verus!
