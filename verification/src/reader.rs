//! The reader's public face: a file image with its index, its groups and its channels.
use vstd::prelude::*;
use vstd::slice::{slice_subrange, slice_to_vec};
use vstd::bytes::spec_u32_from_le_bytes;
use vstd::utf8::{decode_utf8, valid_utf8};
use core::ops::Range;
use crate::datatypes::{type_size, DataType, PropertyModel, PropertyValue};
use crate::encoding::{bytes_at, decode_text, push_bytes, read_u32, text_of, u32_at};
use crate::error::{ErrorModel, TdmsError};
use crate::index::{index_of, ChannelModel, FileModel, GroupModel, Index, TdmsChannelData, TdmsGroupData};
use crate::names::{lookup, NamedMap};
use crate::segment::DataLocation;
use crate::values::Pod;

verus! {

/// The number of values of a run, as the reader counts them.
pub open spec fn run_len(l: DataLocation) -> nat {
    (l.number_of_values as usize) as nat
}

/// The bytes of the values `cur .. cur + remaining` of the runs `locs[i..]`, `size` bytes
/// each, where `cur` counts from the start of run `i`. Runs that end before `cur` are
/// skipped; a run that the data does not hold ends the read with the end of the data.
pub open spec fn gather(data: Seq<u8>, locs: Seq<DataLocation>, i: nat, cur: nat, remaining: nat, size: nat) -> Result<Seq<u8>, ErrorModel>
    decreases locs.len() - i,
{
    if i >= locs.len() || remaining == 0 {
        Ok(Seq::empty())
    } else {
        let n = run_len(locs[i as int]);
        if cur >= n {
            gather(data, locs, i + 1, (cur - n) as nat, remaining, size)
        } else {
            let count: nat = if cur + remaining <= n { remaining } else { (n - cur) as nat };
            let from = locs[i as int].offset + cur * size;
            if from + count * size <= data.len() {
                match gather(data, locs, i + 1, 0, (remaining - count) as nat, size) {
                    Ok(rest) => Ok(data.subrange(from, from + count * size) + rest),
                    Err(e) => Err(e),
                }
            } else {
                Err(ErrorModel::UnexpectedEof)
            }
        }
    }
}

/// The values that consecutive runs of `T::spec_size()` bytes hold.
pub open spec fn decode_all<T: Pod>(b: Seq<u8>) -> Seq<T> {
    Seq::new(
        b.len() / T::spec_size(),
        |j: int| T::spec_decode(b.subrange(j * T::spec_size() as int, (j + 1) * T::spec_size() as int)),
    )
}

/// A TDMS file image with the index of its groups, channels and properties.
pub struct TdmsFile {
    pub(crate) index: Index,
    pub(crate) data: Vec<u8>,
}

impl View for TdmsFile {
    type V = FileModel;

    closed spec fn view(&self) -> FileModel {
        self.index@
    }
}

impl TdmsFile {
    #[verifier::type_invariant]
    closed spec fn inv(&self) -> bool {
        self.index.wf()
    }

    /// The bytes of the image.
    pub closed spec fn bytes(&self) -> Seq<u8> {
        self.data@
    }

    /// Indexes a file image: every segment, in order, until the data ends (see [`index_of`]).
    pub fn from_bytes(data: Vec<u8>) -> (r: Result<TdmsFile, TdmsError>)
        ensures
            match index_of(data@) {
                Ok(f) => r matches Ok(t) && t@ == f && t.bytes() == data@,
                Err(e) => r matches Err(e2) && e2@ == e,
            },
    {
        let index = Index::build(data.as_slice())?;
        Ok(TdmsFile { index, data })
    }

    /// The group filed under `name`.
    pub fn group(&self, name: &str) -> (r: Option<TdmsGroup<'_>>)
        ensures
            match lookup(self@.groups, name@) {
                Some(g) => r matches Some(h) && h@ == g && h.bytes() == self.bytes(),
                None => r is None,
            },
    {
        proof {
            use_type_invariant(self);
        }
        match self.index.groups.find(name) {
            Some(i) => {
                let data = self.index.groups.value_at(i);
                proof {
                    self.index.groups.lemma_wf_distinct();
                }
                assert(data.wf());
                Some(TdmsGroup { file: self, data })
            },
            None => None,
        }
    }

    /// The file-level property filed under `name`.
    pub fn property(&self, name: &str) -> (r: Option<&PropertyValue>)
        ensures
            match lookup(self@.properties, name@) {
                Some(w) => r matches Some(v) && v@ == w,
                None => r is None,
            },
    {
        proof {
            use_type_invariant(self);
        }
        self.index.properties.get(name)
    }

    /// The file-level properties, in order.
    pub fn properties(&self) -> (r: Vec<(&str, &PropertyValue)>)
        ensures
            r@.len() == self@.properties.len(),
            forall|i: int| 0 <= i < r@.len() ==> (#[trigger] r@[i]).0@ == self@.properties[i].0 && r@[i].1@ == self@.properties[i].1,
    {
        proof {
            use_type_invariant(self);
        }
        property_list(&self.index.properties)
    }

    /// The groups, in order.
    pub fn groups(&self) -> (r: Vec<TdmsGroup<'_>>)
        ensures
            r@.len() == self@.groups.len(),
            forall|i: int| 0 <= i < r@.len() ==> (#[trigger] r@[i])@ == self@.groups[i].1 && r@[i].bytes() == self.bytes(),
    {
        proof {
            use_type_invariant(self);
        }
        let mut v: Vec<TdmsGroup<'_>> = Vec::new();
        let n = self.index.groups.len();
        let mut i: usize = 0;
        while i < n
            invariant
                self.index.wf(),
                n == self@.groups.len(),
                i <= n,
                v@.len() == i,
                forall|k: int| 0 <= k < i ==> (#[trigger] v@[k])@ == self@.groups[k].1 && v@[k].bytes() == self.bytes(),
            decreases n - i,
        {
            let data = self.index.groups.value_at(i);
            assert(data.wf());
            v.push(TdmsGroup { file: self, data });
            i = i + 1;
        }
        v
    }
}

/// The properties of a map as pairs of name and value.
fn property_list(map: &NamedMap<PropertyValue>) -> (r: Vec<(&str, &PropertyValue)>)
    requires
        map.wf(),
    ensures
        r@.len() == map@.len(),
        forall|i: int| 0 <= i < r@.len() ==> (#[trigger] r@[i]).0@ == map@[i].0 && r@[i].1@ == map@[i].1,
{
    let mut v: Vec<(&str, &PropertyValue)> = Vec::new();
    let n = map.len();
    let mut i: usize = 0;
    while i < n
        invariant
            map.wf(),
            n == map@.len(),
            i <= n,
            v@.len() == i,
            forall|k: int| 0 <= k < i ==> (#[trigger] v@[k]).0@ == map@[k].0 && v@[k].1@ == map@[k].1,
        decreases n - i,
    {
        v.push((map.name_at(i).as_str(), map.value_at(i)));
        i = i + 1;
    }
    v
}

/// A group of a file.
pub struct TdmsGroup<'a> {
    pub(crate) file: &'a TdmsFile,
    pub(crate) data: &'a TdmsGroupData,
}

impl<'a> View for TdmsGroup<'a> {
    type V = GroupModel;

    closed spec fn view(&self) -> GroupModel {
        self.data@
    }
}

impl<'a> TdmsGroup<'a> {
    #[verifier::type_invariant]
    closed spec fn inv(&self) -> bool {
        self.data.wf()
    }

    /// The bytes of the file that the group belongs to.
    pub closed spec fn bytes(&self) -> Seq<u8> {
        self.file.bytes()
    }

    /// The group's name.
    pub fn name(&self) -> (r: &str)
        ensures
            r@ == self@.name,
    {
        self.data.name.as_str()
    }

    /// The group-level property filed under `name`.
    pub fn property(&self, name: &str) -> (r: Option<&PropertyValue>)
        ensures
            match lookup(self@.properties, name@) {
                Some(w) => r matches Some(v) && v@ == w,
                None => r is None,
            },
    {
        proof {
            use_type_invariant(self);
        }
        self.data.properties.get(name)
    }

    /// The group-level properties, in order.
    pub fn properties(&self) -> (r: Vec<(&str, &PropertyValue)>)
        ensures
            r@.len() == self@.properties.len(),
            forall|i: int| 0 <= i < r@.len() ==> (#[trigger] r@[i]).0@ == self@.properties[i].0 && r@[i].1@ == self@.properties[i].1,
    {
        proof {
            use_type_invariant(self);
        }
        property_list(&self.data.properties)
    }

    /// The channel filed under `name`.
    pub fn channel(&self, name: &str) -> (r: Option<TdmsChannel<'a>>)
        ensures
            match lookup(self@.channels, name@) {
                Some(c) => r matches Some(h) && h@ == c && h.bytes() == self.bytes(),
                None => r is None,
            },
    {
        proof {
            use_type_invariant(self);
        }
        match self.data.channels.find(name) {
            Some(i) => {
                let data = self.data.channels.value_at(i);
                assert(data.wf());
                Some(TdmsChannel { file: self.file, data })
            },
            None => None,
        }
    }

    /// The channels, in order.
    pub fn channels(&self) -> (r: Vec<TdmsChannel<'a>>)
        ensures
            r@.len() == self@.channels.len(),
            forall|i: int| 0 <= i < r@.len() ==> (#[trigger] r@[i])@ == self@.channels[i].1 && r@[i].bytes() == self.bytes(),
    {
        proof {
            use_type_invariant(self);
        }
        let mut v: Vec<TdmsChannel<'a>> = Vec::new();
        let n = self.data.channels.len();
        let mut i: usize = 0;
        while i < n
            invariant
                self.data.wf(),
                n == self@.channels.len(),
                i <= n,
                v@.len() == i,
                forall|k: int| 0 <= k < i ==> (#[trigger] v@[k])@ == self@.channels[k].1 && v@[k].bytes() == self.bytes(),
            decreases n - i,
        {
            let data = self.data.channels.value_at(i);
            assert(data.wf());
            v.push(TdmsChannel { file: self.file, data });
            i = i + 1;
        }
        v
    }
}

/// A channel of a file.
pub struct TdmsChannel<'a> {
    pub(crate) file: &'a TdmsFile,
    pub(crate) data: &'a TdmsChannelData,
}

impl<'a> View for TdmsChannel<'a> {
    type V = ChannelModel;

    closed spec fn view(&self) -> ChannelModel {
        self.data@
    }
}

impl<'a> TdmsChannel<'a> {
    #[verifier::type_invariant]
    closed spec fn inv(&self) -> bool {
        self.data.wf()
    }

    /// The bytes of the file that the channel belongs to.
    pub closed spec fn bytes(&self) -> Seq<u8> {
        self.file.bytes()
    }

    /// The channel's name.
    pub fn name(&self) -> (r: &str)
        ensures
            r@ == self@.name,
    {
        self.data.name.as_str()
    }

    /// The channel's data type.
    pub fn dtype(&self) -> (r: DataType)
        ensures
            r == self@.dtype,
    {
        self.data.dtype
    }

    /// The number of values of the channel.
    pub fn len(&self) -> (r: usize)
        ensures
            r == self@.len as usize,
    {
        self.data.len as usize
    }

    /// Whether the channel holds no value.
    pub fn is_empty(&self) -> (r: bool)
        ensures
            r == (self@.len == 0),
    {
        self.data.len == 0
    }

    /// The channel-level property filed under `name`.
    pub fn property(&self, name: &str) -> (r: Option<&PropertyValue>)
        ensures
            match lookup(self@.properties, name@) {
                Some(w) => r matches Some(v) && v@ == w,
                None => r is None,
            },
    {
        proof {
            use_type_invariant(self);
        }
        self.data.properties.get(name)
    }

    /// The channel-level properties, in order.
    pub fn properties(&self) -> (r: Vec<(&str, &PropertyValue)>)
        ensures
            r@.len() == self@.properties.len(),
            forall|i: int| 0 <= i < r@.len() ==> (#[trigger] r@[i]).0@ == self@.properties[i].0 && r@[i].1@ == self@.properties[i].1,
    {
        proof {
            use_type_invariant(self);
        }
        property_list(&self.data.properties)
    }
}


/// The bytes gathered for a read hold whole values, no more than were asked for.
proof fn lemma_gather_len(data: Seq<u8>, locs: Seq<DataLocation>, i: nat, cur: nat, remaining: nat, size: nat)
    requires
        size > 0,
    ensures
        gather(data, locs, i, cur, remaining, size) matches Ok(b) ==> b.len() % size == 0
            && b.len() / size <= remaining,
    decreases locs.len() - i,
{
    if i >= locs.len() || remaining == 0 {
    } else {
        let n = run_len(locs[i as int]);
        if cur >= n {
            lemma_gather_len(data, locs, i + 1, (cur - n) as nat, remaining, size);
        } else {
            let count: nat = if cur + remaining <= n { remaining } else { (n - cur) as nat };
            lemma_gather_len(data, locs, i + 1, 0, (remaining - count) as nat, size);
            let from = locs[i as int].offset + cur * size;
            if from + count * size <= data.len() {
                match gather(data, locs, i + 1, 0, (remaining - count) as nat, size) {
                    Ok(rest) => {
                        let b = data.subrange(from, from + count * size) + rest;
                        let q = rest.len() / size;
                        assert(rest.len() == q * size) by (nonlinear_arith)
                            requires rest.len() % size == 0, size > 0, q == rest.len() / size;
                        assert(b.len() == (count + q) * size) by (nonlinear_arith)
                            requires b.len() == count * size + rest.len(), rest.len() == q * size;
                        assert(b.len() % size == 0 && b.len() / size == count + q) by (nonlinear_arith)
                            requires b.len() == (count + q) * size, size > 0, q >= 0, count >= 0;
                    },
                    Err(_) => {},
                }
            }
        }
    }
}

/// The value at position `k` of the values that `b` holds.
pub open spec fn value_in<T: Pod>(b: Seq<u8>, k: int) -> T {
    T::spec_decode(b.subrange(k * T::spec_size() as int, (k + 1) * T::spec_size() as int))
}

/// The message for an output buffer whose length is not the number of values asked for.
pub open spec fn exact_buffer_text() -> Seq<char> {
    "output buffer length must exactly match requested byte length"@
}

/// Reads the values `start .. start + requested` of the runs `locs` into `out`, which must
/// hold exactly that many values (see [`gather`]). Values that the runs do not reach are
/// left as they were.
fn gather_into<T: Pod>(data: &[u8], locs: &Vec<DataLocation>, start: usize, requested: usize, out: &mut [T]) -> (r: Result<(), TdmsError>)
    requires
        T::spec_size() > 0,
        start + requested <= usize::MAX,
    ensures
        final(out)@.len() == old(out)@.len(),
        old(out)@.len() != requested ==> (r matches Err(e) && e@ == ErrorModel::InvalidFormat(exact_buffer_text())
            && final(out)@ == old(out)@),
        old(out)@.len() == requested ==> match gather(data@, locs@, 0, start as nat, requested as nat, T::spec_size()) {
            Ok(b) => r is Ok && final(out)@ == decode_all::<T>(b) + old(out)@.skip((b.len() / T::spec_size()) as int),
            Err(e) => r matches Err(e2) && e2@ == e,
        },
{
    if out.len() != requested {
        proof {
            reveal_strlit("output buffer length must exactly match requested byte length");
        }
        return Err(TdmsError::InvalidFormat("output buffer length must exactly match requested byte length".to_owned()));
    }
    let ghost sz = T::spec_size();
    let ghost total = gather(data@, locs@, 0, start as nat, requested as nat, sz);
    let size = T::size();
    let dlen = data.len();
    let olen = out.len();
    let mut i: usize = 0;
    let mut cur: usize = start;
    let mut remaining: usize = requested;
    let mut cursor: usize = 0;
    let ghost mut got: Seq<u8> = Seq::empty();
    assert(got + Seq::<u8>::empty() =~= got);
    while i < locs.len() && remaining > 0
        invariant
            sz == T::spec_size(),
            size == sz,
            sz > 0,
            i <= locs@.len(),
            cursor + remaining == requested,
            cur + remaining <= usize::MAX,
            got.len() == cursor * sz,
            out@.len() == old(out)@.len(),
            out@.len() == olen,
            data@.len() == dlen,
            old(out)@.len() == requested,
            total == gather(data@, locs@, 0, start as nat, requested as nat, sz),
            match gather(data@, locs@, i as nat, cur as nat, remaining as nat, sz) {
                Ok(rest) => total == Ok::<Seq<u8>, ErrorModel>(got + rest),
                Err(e) => total == Err::<Seq<u8>, ErrorModel>(e),
            },
            forall|k: int| 0 <= k < cursor ==> #[trigger] out@[k] == value_in::<T>(got, k),
            forall|k: int| cursor <= k < out@.len() ==> #[trigger] out@[k] == old(out)@[k],
        decreases locs@.len() - i,
    {
        let n = locs[i].number_of_values as usize;
        if cur >= n {
            cur = cur - n;
            i = i + 1;
        } else {
            let count: usize = if cur + remaining <= n { remaining } else { n - cur };
            let offset = locs[i].offset;
            let ghost from = offset + cur * sz;
            let skip = match cur.checked_mul(size) {
                Some(a) => a,
                None => {
                    assert(from > data@.len()) by (nonlinear_arith)
                        requires
                            cur * sz > usize::MAX,
                            data@.len() <= usize::MAX,
                            offset >= 0,
                            from == offset + cur * sz;
                    return Err(TdmsError::UnexpectedEof);
                },
            };
            let len = match count.checked_mul(size) {
                Some(b) => b,
                None => {
                    assert(from + count * sz > data@.len()) by (nonlinear_arith)
                        requires
                            count * sz > usize::MAX,
                            data@.len() <= usize::MAX,
                            from >= 0;
                    return Err(TdmsError::UnexpectedEof);
                },
            };
            let first = match offset.checked_add(skip as u64) {
                Some(f) => f,
                None => {
                    assert(data@.len() <= usize::MAX);
                    assert(from > data@.len());
                    return Err(TdmsError::UnexpectedEof);
                },
            };
            if first > data.len() as u64 || len > data.len() - (first as usize) {
                return Err(TdmsError::UnexpectedEof);
            }
            let a = first as usize;
            let chunk = slice_subrange(data, a, a + len);
            assert(chunk@.len() == len);
            assert(chunk@ == data@.subrange(from, from + count * sz));
            let ghost got2 = got + chunk@;
            assert(got2.len() == (cursor + count) * sz) by (nonlinear_arith)
                requires got2.len() == got.len() + count * sz, got.len() == cursor * sz;
            assert forall|k: int| 0 <= k < cursor implies #[trigger] value_in::<T>(got2, k) == value_in::<T>(got, k) by {
                assert(0 <= k * sz && k * sz <= (k + 1) * sz && (k + 1) * sz <= cursor * sz) by (nonlinear_arith)
                    requires 0 <= k < cursor, sz > 0;
                assert(got2.subrange(k * sz, (k + 1) * sz) =~= got.subrange(k * sz, (k + 1) * sz));
            }
            let mut j: usize = 0;
            while j < count
                invariant
                    sz == T::spec_size(),
                    size == sz,
                    sz > 0,
                    j <= count,
                    chunk@.len() == count * sz,
                    chunk@.len() <= usize::MAX,
                    got.len() == cursor * sz,
                    got2 == got + chunk@,
                    cursor + count <= out@.len(),
                    out@.len() == old(out)@.len(),
                    out@.len() == olen,
                    forall|k: int| 0 <= k < cursor + j ==> #[trigger] out@[k] == value_in::<T>(got2, k),
                    forall|k: int| cursor + j <= k < out@.len() ==> #[trigger] out@[k] == old(out)@[k],
                decreases count - j,
            {
                assert((j + 1) * sz <= count * sz && j * sz + sz == (j + 1) * sz) by (nonlinear_arith)
                    requires j < count, sz > 0;
                let v = T::decode(slice_subrange(chunk, j * size, (j + 1) * size));
                proof {
                    let k = cursor + j;
                    assert(k * sz == got.len() + j * sz && (k + 1) * sz == got.len() + (j + 1) * sz) by (nonlinear_arith)
                        requires k == cursor + j, got.len() == cursor * sz;
                    assert(got2.subrange(k * sz, (k + 1) * sz) =~= chunk@.subrange(j * sz, (j + 1) * sz));
                }
                out[cursor + j] = v;
                j = j + 1;
            }
            proof {
                match gather(data@, locs@, (i + 1) as nat, 0, (remaining - count) as nat, sz) {
                    Ok(rest) => {
                        assert(got + (chunk@ + rest) =~= got2 + rest);
                    },
                    Err(_) => {},
                }
                got = got2;
            }
            cursor = cursor + count;
            remaining = remaining - count;
            cur = 0;
            i = i + 1;
        }
    }
    proof {
        assert(got + Seq::<u8>::empty() =~= got);
        assert(got.len() / sz == cursor) by (nonlinear_arith)
            requires got.len() == cursor * sz, sz > 0;
        assert(out@ =~= decode_all::<T>(got) + old(out)@.skip(cursor as int));
    }
    Ok(())
}


impl<'a> TdmsChannel<'a> {
    /// Reads the values `range` into the front of `out`, as `T` (which must have the size
    /// of the channel's values). Gives the number of values asked for.
    pub fn read<T: Pod>(&self, range: Range<usize>, out: &mut [T]) -> (r: Result<usize, TdmsError>)
        requires
            range.start <= range.end || range.end > self@.len
                || T::spec_size() != type_size(self@.dtype),
        ensures
            if range.end > self@.len {
                &&& r matches Err(e) && e@ == ErrorModel::InvalidRange(range.start, range.end, self@.len as usize)
                &&& final(out)@ == old(out)@
            } else if T::spec_size() != type_size(self@.dtype) {
                &&& r matches Err(e) && e@ == ErrorModel::TypeMismatch
                &&& final(out)@ == old(out)@
            } else if old(out)@.len() < range.end - range.start {
                &&& r matches Err(e) && e@ == ErrorModel::InvalidFormat(short_buffer_text())
                &&& final(out)@ == old(out)@
            } else {
                match gather(self.bytes(), self@.locations, 0, range.start as nat, (range.end - range.start) as nat, T::spec_size()) {
                    Ok(b) => r == Ok::<usize, TdmsError>((range.end - range.start) as usize)
                        && final(out)@ == decode_all::<T>(b) + old(out)@.skip((b.len() / T::spec_size()) as int),
                    Err(e) => r matches Err(e2) && e2@ == e && final(out)@.len() == old(out)@.len(),
                }
            },
    {
        proof {
            use_type_invariant(self);
        }
        if range.end as u64 > self.data.len {
            return Err(TdmsError::InvalidRange(range.start, range.end, self.data.len as usize));
        }
        let size = T::size();
        if size != self.data.dtype.itemsize() {
            return Err(TdmsError::TypeMismatch);
        }
        let requested = range.end - range.start;
        if out.len() < requested {
            return Err(TdmsError::InvalidFormat("output buffer too small for requested range".to_owned()));
        }
        let ghost out0 = out@;
        let (front, _rest) = out.split_at_mut(requested);
        let res = gather_into(self.file.data.as_slice(), &self.data.data_locations, range.start, requested, front);
        proof {
            let sz = T::spec_size();
            assert(out0 =~= out0.subrange(0, requested as int) + out0.subrange(requested as int, out0.len() as int));
            match gather(self.bytes(), self@.locations, 0, range.start as nat, requested as nat, sz) {
                Ok(b) => {
                    lemma_gather_len(self.bytes(), self@.locations, 0, range.start as nat, requested as nat, sz);
                    let k = (b.len() / sz) as int;
                    assert(out0.subrange(0, requested as int).skip(k) + out0.subrange(requested as int, out0.len() as int)
                        =~= out0.skip(k));
                },
                Err(_) => {},
            }
        }
        res?;
        Ok(requested)
    }
}

/// The message for an output buffer that cannot hold the values asked for.
pub open spec fn short_buffer_text() -> Seq<char> {
    "output buffer too small for requested range"@
}


/// The bytes of consecutive strings, one after the other.
pub open spec fn concat(ps: Seq<Seq<u8>>) -> Seq<u8>
    decreases ps.len(),
{
    if ps.len() == 0 {
        Seq::empty()
    } else {
        concat(ps.drop_last()) + ps.last()
    }
}

/// Where each string of `ps` ends in [`concat`]`(ps)`, after a leading 0.
pub open spec fn piece_offsets(ps: Seq<Seq<u8>>) -> Seq<u64> {
    Seq::new(ps.len() + 1, |k: int| concat(ps.take(k)).len() as u64)
}

/// Appending a string appends its end.
proof fn lemma_piece_offsets_push(ps: Seq<Seq<u8>>, b: Seq<u8>)
    ensures
        piece_offsets(ps.push(b)) == piece_offsets(ps).push(concat(ps.push(b)).len() as u64),
        concat(ps.push(b)) == concat(ps) + b,
{
    let qs = ps.push(b);
    assert(qs.drop_last() =~= ps);
    assert forall|k: int| 0 <= k <= ps.len() implies #[trigger] qs.take(k) == ps.take(k) by {
        assert(qs.take(k) =~= ps.take(k));
    }
    assert(qs.take(qs.len() as int) =~= qs);
    assert(piece_offsets(qs) =~= piece_offsets(ps).push(concat(qs).len() as u64));
}

/// The message for string offsets that do not delimit the strings of their block.
pub open spec fn bad_offsets_text() -> Seq<char> {
    "string offsets out of order"@
}

/// The `n` string end offsets of a run of strings at `off`.
pub open spec fn ends_at(data: Seq<u8>, off: nat, n: nat) -> Result<Seq<u32>, ErrorModel> {
    if off + 4 * n <= data.len() {
        Ok(Seq::new(n, |k: int| spec_u32_from_le_bytes(data.subrange(off + 4 * k, off + 4 * k + 4))))
    } else {
        Err(ErrorModel::UnexpectedEof)
    }
}

/// Where string `k` of a block starts.
pub open spec fn piece_start(ends: Seq<u32>, k: int) -> nat {
    if k == 0 {
        0
    } else {
        ends[k - 1] as nat
    }
}

/// The bytes of the strings `from .. from + count` of a block, checked as UTF-8 when `check`.
pub open spec fn run_pieces(block: Seq<u8>, ends: Seq<u32>, from: nat, count: nat, check: bool) -> Result<Seq<Seq<u8>>, ErrorModel>
    decreases count,
{
    if count == 0 {
        Ok(Seq::empty())
    } else {
        match run_pieces(block, ends, from, (count - 1) as nat, check) {
            Ok(ps) => {
                let k = from + count - 1;
                let lo = piece_start(ends, k);
                let hi = ends[k] as nat;
                if lo <= hi && hi <= block.len() {
                    let piece = block.subrange(lo as int, hi as int);
                    if check && !valid_utf8(piece) {
                        Err(ErrorModel::StringEncoding)
                    } else {
                        Ok(ps.push(piece))
                    }
                } else {
                    Err(ErrorModel::InvalidFormat(bad_offsets_text()))
                }
            },
            Err(e) => Err(e),
        }
    }
}

/// The bytes of the strings `cur .. cur + remaining` of the runs `locs[i..]`. A run of
/// strings is its `n` end offsets followed by the block of their bytes.
pub open spec fn string_pieces(data: Seq<u8>, locs: Seq<DataLocation>, i: nat, cur: nat, remaining: nat, check: bool) -> Result<Seq<Seq<u8>>, ErrorModel>
    decreases locs.len() - i,
{
    if i >= locs.len() || remaining == 0 {
        Ok(Seq::empty())
    } else {
        let n = run_len(locs[i as int]);
        if cur >= n {
            string_pieces(data, locs, i + 1, (cur - n) as nat, remaining, check)
        } else {
            let count: nat = if cur + remaining <= n { remaining } else { (n - cur) as nat };
            let off = locs[i as int].offset as nat;
            match ends_at(data, off, n) {
                Ok(ends) => match bytes_at(data, off + 4 * n, ends[n - 1] as nat) {
                    Ok((block, _)) => match run_pieces(block, ends, cur, count, check) {
                        Ok(ps) => match string_pieces(data, locs, i + 1, 0, (remaining - count) as nat, check) {
                            Ok(rest) => Ok(ps + rest),
                            Err(e) => Err(e),
                        },
                        Err(e) => Err(e),
                    },
                    Err(e) => Err(e),
                },
                Err(e) => Err(e),
            }
        }
    }
}

/// Reads the end offsets and the block of a run of `n` strings at `offset`.
fn read_run(data: &[u8], offset: u64, n: usize) -> (r: Result<(Vec<u32>, &[u8]), TdmsError>)
    requires
        n > 0,
    ensures
        match ends_at(data@, offset as nat, n as nat) {
            Ok(ends) => match bytes_at(data@, (offset + 4 * n) as nat, ends[n - 1] as nat) {
                Ok((block, _)) => r matches Ok((e, b)) && e@ == ends && b@ == block,
                Err(e) => r matches Err(e2) && e2@ == e,
            },
            Err(e) => r matches Err(e2) && e2@ == e,
        },
{
    let dlen = data.len();
    if offset > dlen as u64 {
        return Err(TdmsError::UnexpectedEof);
    }
    let start = offset as usize;
    if n > (dlen - start) / 4 {
        return Err(TdmsError::UnexpectedEof);
    }
    let ghost ends = ends_at(data@, offset as nat, n as nat)->Ok_0;
    let mut e: Vec<u32> = Vec::new();
    let mut k: usize = 0;
    while k < n
        invariant
            start == offset,
            dlen == data@.len(),
            start + 4 * n <= dlen,
            k <= n,
            e@.len() == k,
            ends == ends_at(data@, offset as nat, n as nat)->Ok_0,
            forall|j: int| 0 <= j < k ==> #[trigger] e@[j] == ends[j],
        decreases n - k,
    {
        let (v, _p) = read_u32(data, start + 4 * k)?;
        e.push(v);
        k = k + 1;
    }
    assert(e@ =~= ends);
    let block_len = e[n - 1] as usize;
    let from = start + 4 * n;
    if block_len > dlen - from {
        return Err(TdmsError::UnexpectedEof);
    }
    Ok((e, slice_subrange(data, from, from + block_len)))
}

/// The bytes of string `k` of a block, or the error for offsets that do not delimit it.
fn piece<'b>(block: &'b [u8], ends: &Vec<u32>, k: usize) -> (r: Result<&'b [u8], TdmsError>)
    requires
        k < ends@.len(),
    ensures
        ({
            let lo = piece_start(ends@, k as int);
            let hi = ends@[k as int] as nat;
            if lo <= hi && hi <= block@.len() {
                r matches Ok(b) && b@ == block@.subrange(lo as int, hi as int)
            } else {
                r matches Err(e) && e@ == ErrorModel::InvalidFormat(bad_offsets_text())
            }
        }),
{
    let lo: usize = if k == 0 { 0 } else { ends[k - 1] as usize };
    let hi: usize = ends[k] as usize;
    if lo <= hi && hi <= block.len() {
        Ok(slice_subrange(block, lo, hi))
    } else {
        Err(TdmsError::InvalidFormat("string offsets out of order".to_owned()))
    }
}


/// An error of the first `j` strings of a block stays the error of more strings.
proof fn lemma_run_pieces_err(block: Seq<u8>, ends: Seq<u32>, from: nat, j: nat, count: nat, check: bool)
    requires
        j <= count,
        run_pieces(block, ends, from, j, check) is Err,
    ensures
        run_pieces(block, ends, from, count, check) == run_pieces(block, ends, from, j, check),
    decreases count - j,
{
    if j < count {
        lemma_run_pieces_err(block, ends, from, j, (count - 1) as nat, check);
    }
}

/// The strings gathered for a read are no more than were asked for.
proof fn lemma_string_pieces_len(data: Seq<u8>, locs: Seq<DataLocation>, i: nat, cur: nat, remaining: nat, check: bool)
    ensures
        string_pieces(data, locs, i, cur, remaining, check) matches Ok(ps) ==> ps.len() <= remaining,
    decreases locs.len() - i,
{
    if i >= locs.len() || remaining == 0 {
    } else {
        let n = run_len(locs[i as int]);
        if cur >= n {
            lemma_string_pieces_len(data, locs, i + 1, (cur - n) as nat, remaining, check);
        } else {
            let count: nat = if cur + remaining <= n { remaining } else { (n - cur) as nat };
            lemma_string_pieces_len(data, locs, i + 1, 0, (remaining - count) as nat, check);
            let off = locs[i as int].offset as nat;
            match ends_at(data, off, n) {
                Ok(ends) => match bytes_at(data, off + 4 * n, ends[n - 1] as nat) {
                    Ok((block, _)) => {
                        lemma_run_pieces_len(block, ends, cur, count, check);
                    },
                    Err(_) => {},
                },
                Err(_) => {},
            }
        }
    }
}

/// A block gives as many strings as were asked for.
proof fn lemma_run_pieces_len(block: Seq<u8>, ends: Seq<u32>, from: nat, count: nat, check: bool)
    ensures
        run_pieces(block, ends, from, count, check) matches Ok(ps) ==> ps.len() == count,
    decreases count,
{
    if count > 0 {
        lemma_run_pieces_len(block, ends, from, (count - 1) as nat, check);
    }
}

impl<'a> TdmsChannel<'a> {
    /// Reads the strings `range` of a string channel into the front of `out`. Gives the
    /// number of strings asked for.
    pub fn read_strings(&self, range: Range<usize>, out: &mut [String]) -> (r: Result<usize, TdmsError>)
        requires
            range.start <= range.end || range.end > self@.len
                || self@.dtype != DataType::String,
        ensures
            if range.end > self@.len {
                &&& r matches Err(e) && e@ == ErrorModel::InvalidRange(range.start, range.end, self@.len as usize)
                &&& final(out)@ == old(out)@
            } else if self@.dtype != DataType::String {
                &&& r matches Err(e) && e@ == ErrorModel::TypeMismatch
                &&& final(out)@ == old(out)@
            } else if old(out)@.len() < range.end - range.start {
                &&& r matches Err(e) && e@ == ErrorModel::InvalidFormat(short_buffer_text())
                &&& final(out)@ == old(out)@
            } else {
                match string_pieces(self.bytes(), self@.locations, 0, range.start as nat, (range.end - range.start) as nat, true) {
                    Ok(ps) => {
                        &&& r == Ok::<usize, TdmsError>((range.end - range.start) as usize)
                        &&& final(out)@.len() == old(out)@.len()
                        &&& forall|k: int| 0 <= k < ps.len() ==> (#[trigger] final(out)@[k])@ == decode_utf8(ps[k])
                        &&& forall|k: int| ps.len() <= k < old(out)@.len() ==> #[trigger] final(out)@[k] == old(out)@[k]
                    },
                    Err(e) => r matches Err(e2) && e2@ == e && final(out)@.len() == old(out)@.len(),
                }
            },
    {
        proof {
            use_type_invariant(self);
        }
        if range.end as u64 > self.data.len {
            return Err(TdmsError::InvalidRange(range.start, range.end, self.data.len as usize));
        }
        if self.data.dtype != DataType::String {
            return Err(TdmsError::TypeMismatch);
        }
        let requested = range.end - range.start;
        if out.len() < requested {
            return Err(TdmsError::InvalidFormat("output buffer too small for requested range".to_owned()));
        }
        strings_into(self.file.data.as_slice(), &self.data.data_locations, range.start, requested, out)?;
        Ok(requested)
    }
}


/// Reads the strings `start .. start + requested` of the runs `locs` into the front of
/// `out` (see [`string_pieces`]).
fn strings_into(data: &[u8], locs: &Vec<DataLocation>, start: usize, requested: usize, out: &mut [String]) -> (r: Result<(), TdmsError>)
    requires
        old(out)@.len() >= requested,
        start + requested <= usize::MAX,
    ensures
        final(out)@.len() == old(out)@.len(),
        match string_pieces(data@, locs@, 0, start as nat, requested as nat, true) {
            Ok(ps) => {
                &&& r is Ok
                &&& forall|k: int| 0 <= k < ps.len() ==> (#[trigger] final(out)@[k])@ == decode_utf8(ps[k])
                &&& forall|k: int| ps.len() <= k < old(out)@.len() ==> #[trigger] final(out)@[k] == old(out)@[k]
            },
            Err(e) => r matches Err(e2) && e2@ == e,
        },
{
    let ghost total = string_pieces(data@, locs@, 0, start as nat, requested as nat, true);
    let olen = out.len();
    let mut i: usize = 0;
    let mut cur: usize = start;
    let mut remaining: usize = requested;
    let mut cursor: usize = 0;
    let ghost mut got: Seq<Seq<u8>> = Seq::empty();
    assert(got + Seq::<Seq<u8>>::empty() =~= got);
    while i < locs.len() && remaining > 0
        invariant
            i <= locs@.len(),
            cursor + remaining == requested,
            cur + remaining <= usize::MAX,
            got.len() == cursor,
            out@.len() == olen,
            olen == old(out)@.len(),
            olen >= requested,
            total == string_pieces(data@, locs@, 0, start as nat, requested as nat, true),
            match string_pieces(data@, locs@, i as nat, cur as nat, remaining as nat, true) {
                Ok(rest) => total == Ok::<Seq<Seq<u8>>, ErrorModel>(got + rest),
                Err(e) => total == Err::<Seq<Seq<u8>>, ErrorModel>(e),
            },
            forall|k: int| 0 <= k < cursor ==> (#[trigger] out@[k])@ == decode_utf8(got[k]),
            forall|k: int| cursor <= k < olen ==> #[trigger] out@[k] == old(out)@[k],
        decreases locs@.len() - i,
    {
        let n = locs[i].number_of_values as usize;
        if cur >= n {
            cur = cur - n;
            i = i + 1;
        } else {
            let count: usize = if cur + remaining <= n { remaining } else { n - cur };
            let ghost here = string_pieces(data@, locs@, i as nat, cur as nat, remaining as nat, true);
            let (ends, block) = match read_run(data, locs[i].offset, n) {
                Ok(eb) => eb,
                Err(e) => {
                    assert(here == Err::<Seq<Seq<u8>>, ErrorModel>(e@));
                    return Err(e);
                },
            };
            let ghost base = got;
            let ghost after = string_pieces(data@, locs@, (i + 1) as nat, 0, (remaining - count) as nat, true);
            assert(here == match run_pieces(block@, ends@, cur as nat, count as nat, true) {
                Ok(ps) => match after {
                    Ok(rest) => Ok(ps + rest),
                    Err(e) => Err(e),
                },
                Err(e) => Err(e),
            });
            assert(got.take(got.len() as int) =~= got);
            assert(got.skip(got.len() as int) =~= Seq::<Seq<u8>>::empty());
            let mut j: usize = 0;
            while j < count
                invariant
                    here == match run_pieces(block@, ends@, cur as nat, count as nat, true) {
                        Ok(ps) => match after {
                            Ok(rest) => Ok(ps + rest),
                            Err(e) => Err(e),
                        },
                        Err(e) => Err::<Seq<Seq<u8>>, ErrorModel>(e),
                    },
                    match here {
                        Ok(rest) => total == Ok::<Seq<Seq<u8>>, ErrorModel>(base + rest),
                        Err(e) => total == Err::<Seq<Seq<u8>>, ErrorModel>(e),
                    },
                    total == string_pieces(data@, locs@, 0, start as nat, requested as nat, true),
                    j <= count,
                    count <= remaining,
                    cur + count <= n,
                    ends@.len() == n,
                    cursor + remaining == requested,
                    cursor + count <= olen,
                    out@.len() == olen,
                    olen == old(out)@.len(),
                    base.len() + j == got.len(),
                    base.len() == cursor,
                    run_pieces(block@, ends@, cur as nat, j as nat, true) == Ok::<Seq<Seq<u8>>, ErrorModel>(got.skip(base.len() as int)),
                    got.take(base.len() as int) == base,
                    forall|k: int| 0 <= k < cursor + j ==> (#[trigger] out@[k])@ == decode_utf8(got[k]),
                    forall|k: int| cursor + j <= k < olen ==> #[trigger] out@[k] == old(out)@[k],
                decreases count - j,
            {
                let b = match piece(block, &ends, cur + j) {
                    Ok(b) => b,
                    Err(e) => {
                        proof {
                            lemma_run_pieces_err(block@, ends@, cur as nat, (j + 1) as nat, count as nat, true);
                        }
                        return Err(e);
                    },
                };
                let text = match decode_text(b) {
                    Ok(t) => t,
                    Err(e) => {
                        proof {
                            lemma_run_pieces_err(block@, ends@, cur as nat, (j + 1) as nat, count as nat, true);
                        }
                        return Err(e);
                    },
                };
                out[cursor + j] = text;
                proof {
                    let old_got = got;
                    got = got.push(b@);
                    assert(got.skip(base.len() as int) =~= old_got.skip(base.len() as int).push(b@));
                    assert(got.take(base.len() as int) =~= old_got.take(base.len() as int));
                }
                j = j + 1;
            }
            proof {
                let ps = got.skip(base.len() as int);
                assert(got =~= base + ps);
                match after {
                    Ok(rest) => {
                        assert(base + (ps + rest) =~= got + rest);
                    },
                    Err(_) => {},
                }
            }
            cursor = cursor + count;
            remaining = remaining - count;
            cur = 0;
            i = i + 1;
        }
    }
    proof {
        assert(got + Seq::<Seq<u8>>::empty() =~= got);
    }
    Ok(())
}

/// Appends the bytes of the strings `start .. start + requested` of the runs `locs` to
/// `bytes`, and the end of each to `offsets` (see [`string_pieces`]).
fn pieces_into(data: &[u8], locs: &Vec<DataLocation>, start: usize, requested: usize, offsets: &mut Vec<u64>, bytes: &mut Vec<u8>) -> (r: Result<(), TdmsError>)
    requires
        start + requested <= usize::MAX,
        old(bytes)@ == Seq::<u8>::empty(),
        old(offsets)@ == seq![0u64],
    ensures
        match string_pieces(data@, locs@, 0, start as nat, requested as nat, false) {
            Ok(ps) => {
                &&& r is Ok
                &&& final(bytes)@ == concat(ps)
                &&& final(offsets)@ == piece_offsets(ps)
            },
            Err(e) => r matches Err(e2) && e2@ == e,
        },
{
    let ghost total = string_pieces(data@, locs@, 0, start as nat, requested as nat, false);
    let mut i: usize = 0;
    let mut cur: usize = start;
    let mut remaining: usize = requested;
    let mut cursor: usize = 0;
    let ghost mut got: Seq<Seq<u8>> = Seq::empty();
    assert(got + Seq::<Seq<u8>>::empty() =~= got);
    while i < locs.len() && remaining > 0
        invariant
            i <= locs@.len(),
            cursor + remaining == requested,
            cur + remaining <= usize::MAX,
            got.len() == cursor,
            bytes@ == concat(got),
            offsets@ == piece_offsets(got),
            total == string_pieces(data@, locs@, 0, start as nat, requested as nat, false),
            match string_pieces(data@, locs@, i as nat, cur as nat, remaining as nat, false) {
                Ok(rest) => total == Ok::<Seq<Seq<u8>>, ErrorModel>(got + rest),
                Err(e) => total == Err::<Seq<Seq<u8>>, ErrorModel>(e),
            },
        decreases locs@.len() - i,
    {
        let n = locs[i].number_of_values as usize;
        if cur >= n {
            cur = cur - n;
            i = i + 1;
        } else {
            let count: usize = if cur + remaining <= n { remaining } else { n - cur };
            let ghost here = string_pieces(data@, locs@, i as nat, cur as nat, remaining as nat, false);
            let (ends, block) = match read_run(data, locs[i].offset, n) {
                Ok(eb) => eb,
                Err(e) => {
                    assert(here == Err::<Seq<Seq<u8>>, ErrorModel>(e@));
                    return Err(e);
                },
            };
            let ghost base = got;
            let ghost after = string_pieces(data@, locs@, (i + 1) as nat, 0, (remaining - count) as nat, false);
            assert(here == match run_pieces(block@, ends@, cur as nat, count as nat, false) {
                Ok(ps) => match after {
                    Ok(rest) => Ok(ps + rest),
                    Err(e) => Err(e),
                },
                Err(e) => Err(e),
            });
            assert(got.take(got.len() as int) =~= got);
            assert(got.skip(got.len() as int) =~= Seq::<Seq<u8>>::empty());
            let mut j: usize = 0;
            while j < count
                invariant
                    here == match run_pieces(block@, ends@, cur as nat, count as nat, false) {
                        Ok(ps) => match after {
                            Ok(rest) => Ok(ps + rest),
                            Err(e) => Err(e),
                        },
                        Err(e) => Err::<Seq<Seq<u8>>, ErrorModel>(e),
                    },
                    match here {
                        Ok(rest) => total == Ok::<Seq<Seq<u8>>, ErrorModel>(base + rest),
                        Err(e) => total == Err::<Seq<Seq<u8>>, ErrorModel>(e),
                    },
                    total == string_pieces(data@, locs@, 0, start as nat, requested as nat, false),
                    j <= count,
                    count <= remaining,
                    cur + count <= n,
                    ends@.len() == n,
                    cursor + remaining == requested,
                    bytes@ == concat(got),
                    offsets@ == piece_offsets(got),
                    base.len() + j == got.len(),
                    base.len() == cursor,
                    run_pieces(block@, ends@, cur as nat, j as nat, false) == Ok::<Seq<Seq<u8>>, ErrorModel>(got.skip(base.len() as int)),
                    got.take(base.len() as int) == base,
                decreases count - j,
            {
                let b = match piece(block, &ends, cur + j) {
                    Ok(b) => b,
                    Err(e) => {
                        proof {
                            lemma_run_pieces_err(block@, ends@, cur as nat, (j + 1) as nat, count as nat, false);
                        }
                        return Err(e);
                    },
                };
                let ghost old_bytes = bytes@;
                push_bytes(bytes, b);
                offsets.push(bytes.len() as u64);
                proof {
                    let old_got = got;
                    got = got.push(b@);
                    lemma_piece_offsets_push(old_got, b@);
                    assert(got.skip(base.len() as int) =~= old_got.skip(base.len() as int).push(b@));
                    assert(got.take(base.len() as int) =~= old_got.take(base.len() as int));
                }
                j = j + 1;
            }
            proof {
                let ps = got.skip(base.len() as int);
                assert(got =~= base + ps);
                match after {
                    Ok(rest) => {
                        assert(base + (ps + rest) =~= got + rest);
                    },
                    Err(_) => {},
                }
            }
            cursor = cursor + count;
            remaining = remaining - count;
            cur = 0;
            i = i + 1;
        }
    }
    proof {
        assert(got + Seq::<Seq<u8>>::empty() =~= got);
    }
    Ok(())
}


impl<'a> TdmsChannel<'a> {
    /// Reads the strings `range` of a string channel as raw bytes: `bytes` becomes the bytes
    /// of the strings one after the other, and `offsets` the position where each string
    /// starts, followed by the total length. Gives the number of strings asked for.
    pub fn read_string_buffers(&self, range: Range<usize>, offsets: &mut Vec<u64>, bytes: &mut Vec<u8>) -> (r: Result<usize, TdmsError>)
        requires
            range.start <= range.end || range.end > self@.len
                || self@.dtype != DataType::String,
        ensures
            if range.end > self@.len {
                r matches Err(e) && e@ == ErrorModel::InvalidRange(range.start, range.end, self@.len as usize)
            } else if self@.dtype != DataType::String {
                r matches Err(e) && e@ == ErrorModel::TypeMismatch
            } else {
                match string_pieces(self.bytes(), self@.locations, 0, range.start as nat, (range.end - range.start) as nat, false) {
                    Ok(ps) => {
                        &&& r == Ok::<usize, TdmsError>((range.end - range.start) as usize)
                        &&& final(bytes)@ == concat(ps)
                        &&& final(offsets)@ == piece_offsets(ps)
                    },
                    Err(e) => r matches Err(e2) && e2@ == e,
                }
            },
    {
        proof {
            use_type_invariant(self);
        }
        if range.end as u64 > self.data.len {
            return Err(TdmsError::InvalidRange(range.start, range.end, self.data.len as usize));
        }
        if self.data.dtype != DataType::String {
            return Err(TdmsError::TypeMismatch);
        }
        let requested = range.end - range.start;
        offsets.clear();
        bytes.clear();
        offsets.push(0);
        pieces_into(self.file.data.as_slice(), &self.data.data_locations, range.start, requested, offsets, bytes)?;
        Ok(requested)
    }
}

} // verus!
