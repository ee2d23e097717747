//! Little-endian numbers and UTF-8 text as the format lays them out, and their readers
//! and writers over byte buffers.
use vstd::prelude::*;
use vstd::bytes::*;
use vstd::slice::{slice_subrange, slice_to_vec};
use vstd::utf8::{decode_utf8, valid_utf8};
use crate::error::{ErrorModel, TdmsError};

verus! {

/// The bytes `s[pos .. pos + n]` and the position after them, or the end of the data.
pub open spec fn bytes_at(s: Seq<u8>, pos: nat, n: nat) -> Result<(Seq<u8>, nat), ErrorModel> {
    if pos + n <= s.len() {
        Ok((s.subrange(pos as int, (pos + n) as int), pos + n))
    } else {
        Err(ErrorModel::UnexpectedEof)
    }
}

pub open spec fn u8_at(s: Seq<u8>, pos: nat) -> Result<(u8, nat), ErrorModel> {
    if pos < s.len() {
        Ok((s[pos as int], pos + 1))
    } else {
        Err(ErrorModel::UnexpectedEof)
    }
}

pub open spec fn u16_at(s: Seq<u8>, pos: nat) -> Result<(u16, nat), ErrorModel> {
    match bytes_at(s, pos, 2) {
        Ok((b, p)) => Ok((spec_u16_from_le_bytes(b), p)),
        Err(e) => Err(e),
    }
}

pub open spec fn u32_at(s: Seq<u8>, pos: nat) -> Result<(u32, nat), ErrorModel> {
    match bytes_at(s, pos, 4) {
        Ok((b, p)) => Ok((spec_u32_from_le_bytes(b), p)),
        Err(e) => Err(e),
    }
}

pub open spec fn u64_at(s: Seq<u8>, pos: nat) -> Result<(u64, nat), ErrorModel> {
    match bytes_at(s, pos, 8) {
        Ok((b, p)) => Ok((spec_u64_from_le_bytes(b), p)),
        Err(e) => Err(e),
    }
}

/// The little-endian bytes of each width.
pub open spec fn le_u8(x: u8) -> Seq<u8> {
    seq![x]
}

pub open spec fn le_u16(x: u16) -> Seq<u8> {
    spec_u16_to_le_bytes(x)
}

pub open spec fn le_u32(x: u32) -> Seq<u8> {
    spec_u32_to_le_bytes(x)
}

pub open spec fn le_u64(x: u64) -> Seq<u8> {
    spec_u64_to_le_bytes(x)
}

/// An exec result of a read at a position agrees with its specification.
pub open spec fn agrees<T>(r: Result<(T, usize), TdmsError>, s: Result<(T, nat), ErrorModel>) -> bool {
    match s {
        Ok((v, p)) => r matches Ok((v2, p2)) && v2 == v && p2 == p,
        Err(e) => r matches Err(e2) && e2@ == e,
    }
}

/// An exec result of a read at a position agrees with its specification, by views.
pub open spec fn agrees_view<T: View>(r: Result<(T, usize), TdmsError>, s: Result<(T::V, nat), ErrorModel>) -> bool {
    match s {
        Ok((v, p)) => r matches Ok((v2, p2)) && v2@ == v && p2 == p,
        Err(e) => r matches Err(e2) && e2@ == e,
    }
}

/// Decoding little-endian bytes undoes encoding them, and the encodings have their widths.
pub proof fn lemma_le_roundtrip()
    ensures
        forall|x: u16| #[trigger] le_u16(x).len() == 2 && spec_u16_from_le_bytes(le_u16(x)) == x,
        forall|x: u32| #[trigger] le_u32(x).len() == 4 && spec_u32_from_le_bytes(le_u32(x)) == x,
        forall|x: u64| #[trigger] le_u64(x).len() == 8 && spec_u64_from_le_bytes(le_u64(x)) == x,
{
    lemma_auto_spec_u16_to_from_le_bytes();
    lemma_auto_spec_u32_to_from_le_bytes();
    lemma_auto_spec_u64_to_from_le_bytes();
    assert forall|x: u16| #[trigger] le_u16(x).len() == 2 && spec_u16_from_le_bytes(le_u16(x)) == x by {
        assert(spec_u16_to_le_bytes(x).len() == 2);
    }
    assert forall|x: u32| #[trigger] le_u32(x).len() == 4 && spec_u32_from_le_bytes(le_u32(x)) == x by {
        assert(spec_u32_to_le_bytes(x).len() == 4);
    }
    assert forall|x: u64| #[trigger] le_u64(x).len() == 8 && spec_u64_from_le_bytes(le_u64(x)) == x by {
        assert(spec_u64_to_le_bytes(x).len() == 8);
    }
}

pub fn read_bytes(data: &[u8], pos: usize, n: usize) -> (r: Result<(&[u8], usize), TdmsError>)
    ensures
        match bytes_at(data@, pos as nat, n as nat) {
            Ok((b, p)) => r matches Ok((b2, p2)) && b2@ == b && p2 == p,
            Err(e) => r matches Err(e2) && e2@ == e,
        },
{
    if pos <= data.len() && n <= data.len() - pos {
        Ok((slice_subrange(data, pos, pos + n), pos + n))
    } else {
        Err(TdmsError::UnexpectedEof)
    }
}

pub fn read_u8(data: &[u8], pos: usize) -> (r: Result<(u8, usize), TdmsError>)
    ensures
        agrees(r, u8_at(data@, pos as nat)),
{
    if pos < data.len() {
        Ok((data[pos], pos + 1))
    } else {
        Err(TdmsError::UnexpectedEof)
    }
}

pub fn read_u16(data: &[u8], pos: usize) -> (r: Result<(u16, usize), TdmsError>)
    ensures
        agrees(r, u16_at(data@, pos as nat)),
{
    let (b, p) = read_bytes(data, pos, 2)?;
    Ok((u16_from_le_bytes(b), p))
}

pub fn read_u32(data: &[u8], pos: usize) -> (r: Result<(u32, usize), TdmsError>)
    ensures
        agrees(r, u32_at(data@, pos as nat)),
{
    let (b, p) = read_bytes(data, pos, 4)?;
    Ok((u32_from_le_bytes(b), p))
}

pub fn read_u64(data: &[u8], pos: usize) -> (r: Result<(u64, usize), TdmsError>)
    ensures
        agrees(r, u64_at(data@, pos as nat)),
{
    let (b, p) = read_bytes(data, pos, 8)?;
    Ok((u64_from_le_bytes(b), p))
}

pub fn push_u8(buf: &mut Vec<u8>, x: u8)
    ensures
        final(buf)@ == old(buf)@ + le_u8(x),
{
    buf.push(x);
}

pub fn push_u16(buf: &mut Vec<u8>, x: u16)
    ensures
        final(buf)@ == old(buf)@ + le_u16(x),
{
    let mut b = u16_to_le_bytes(x);
    buf.append(&mut b);
}

pub fn push_u32(buf: &mut Vec<u8>, x: u32)
    ensures
        final(buf)@ == old(buf)@ + le_u32(x),
{
    let mut b = u32_to_le_bytes(x);
    buf.append(&mut b);
}

pub fn push_u64(buf: &mut Vec<u8>, x: u64)
    ensures
        final(buf)@ == old(buf)@ + le_u64(x),
{
    let mut b = u64_to_le_bytes(x);
    buf.append(&mut b);
}

pub fn push_bytes(buf: &mut Vec<u8>, b: &[u8])
    ensures
        final(buf)@ == old(buf)@ + b@,
{
    let mut v = slice_to_vec(b);
    buf.append(&mut v);
}

/// Decodes UTF-8 text with `String::from_utf8`.
#[verifier::external_body]
fn string_from_utf8(bytes: Vec<u8>) -> (r: Option<String>)
    ensures
        r is Some <==> valid_utf8(bytes@),
        r matches Some(s) ==> s@ == decode_utf8(bytes@),
{
    String::from_utf8(bytes).ok()
}

/// The text that UTF-8 bytes hold, or the encoding error.
pub open spec fn text_of(b: Seq<u8>) -> Result<Seq<char>, ErrorModel> {
    if valid_utf8(b) {
        Ok(decode_utf8(b))
    } else {
        Err(ErrorModel::StringEncoding)
    }
}

/// Decodes UTF-8 bytes into a `String`, or reports `StringEncoding`.
pub fn decode_text(b: &[u8]) -> (r: Result<String, TdmsError>)
    ensures
        match text_of(b@) {
            Ok(t) => r matches Ok(s) && s@ == t,
            Err(e) => r matches Err(e2) && e2@ == e,
        },
{
    match string_from_utf8(slice_to_vec(b)) {
        Some(s) => Ok(s),
        None => Err(TdmsError::StringEncoding),
    }
}

} // verus!
