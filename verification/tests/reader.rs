//! Reading file images: segments, objects, errors.

use tdms_rs::{DataType, TdmsError, TdmsFile, TdmsWriter};

fn lead_in(toc: u32, next: u64, raw: u64) -> Vec<u8> {
    let mut v = b"TDSm".to_vec();
    v.extend_from_slice(&toc.to_le_bytes());
    v.extend_from_slice(&4713u32.to_le_bytes());
    v.extend_from_slice(&next.to_le_bytes());
    v.extend_from_slice(&raw.to_le_bytes());
    v
}

fn text(s: &[u8]) -> Vec<u8> {
    let mut v = (s.len() as u32).to_le_bytes().to_vec();
    v.extend_from_slice(s);
    v
}

#[test]
fn reader_empty_image_has_nothing() {
    let file = TdmsFile::from_bytes(Vec::new()).unwrap();
    assert!(file.groups().is_empty());
}

#[test]
fn reader_bad_signature() {
    let mut image = lead_in(0x0E, u64::MAX, 4);
    image[0] = b'X';
    image.extend_from_slice(&0u32.to_le_bytes());
    assert!(matches!(TdmsFile::from_bytes(image), Err(TdmsError::InvalidSignature)));
}

#[test]
fn reader_truncated_segment_ends_file() {
    let mut writer = TdmsWriter::create("t.tdms").unwrap();
    writer.add_group("G").unwrap();
    let mut image = writer.file_image();
    let good = image.len();
    image.extend_from_slice(b"TDSm\x0e\x00");
    let file = TdmsFile::from_bytes(image).unwrap();
    assert_eq!(file.groups().len(), 1);
    assert!(good > 28);
}

#[test]
fn reader_segment_cut_in_its_metadata_ends_file() {
    let mut first = TdmsWriter::create("a.tdms").unwrap();
    first.add_group("G").unwrap();
    let image = first.file_image();
    let mut second = TdmsWriter::create("b.tdms").unwrap();
    {
        let mut group = second.add_group("H").unwrap();
        let mut channel = group.add_channel::<u16>("C").unwrap();
        channel.write(&[7, 8, 9]).unwrap();
    }
    let further = second.file_image();
    let mut raw = [0u8; 8];
    raw.copy_from_slice(&further[20..28]);
    let head = 28 + u64::from_le_bytes(raw) as usize;
    assert!(head > 28 && head < further.len());
    for k in [0, 3, 4, 12, 27, 28, 29, 40, head - 1] {
        let mut cut = image.clone();
        cut.extend_from_slice(&further[..k]);
        let file = TdmsFile::from_bytes(cut).unwrap();
        let groups = file.groups();
        let names: Vec<&str> = groups.iter().map(|g| g.name()).collect();
        assert_eq!(names, vec!["G"], "cut after {} bytes", k);
    }
    let mut whole = image.clone();
    whole.extend_from_slice(&further[..head]);
    let file = TdmsFile::from_bytes(whole).unwrap();
    assert_eq!(file.groups().len(), 2);
}

#[test]
fn reader_unknown_property_type() {
    let mut meta = 1u32.to_le_bytes().to_vec();
    meta.extend(text(b"/'G'"));
    meta.extend_from_slice(&0xFFFF_FFFFu32.to_le_bytes());
    meta.extend_from_slice(&1u32.to_le_bytes());
    meta.extend(text(b"p"));
    meta.extend_from_slice(&99u32.to_le_bytes());
    let mut image = lead_in(0x0E, u64::MAX, meta.len() as u64);
    image.extend(meta);
    match TdmsFile::from_bytes(image) {
        Err(TdmsError::NotImplemented(m)) => assert_eq!(m, "DataType 99"),
        _ => panic!("unknown type accepted"),
    }
}

#[test]
fn reader_invalid_utf8_name() {
    let mut meta = 1u32.to_le_bytes().to_vec();
    meta.extend(text(&[b'/', b'\'', 0xFF, b'\'']));
    meta.extend_from_slice(&0xFFFF_FFFFu32.to_le_bytes());
    meta.extend_from_slice(&0u32.to_le_bytes());
    let mut image = lead_in(0x0E, u64::MAX, meta.len() as u64);
    image.extend(meta);
    assert!(matches!(TdmsFile::from_bytes(image), Err(TdmsError::StringEncoding)));
}

#[test]
fn reader_quoted_names() {
    let mut meta = 2u32.to_le_bytes().to_vec();
    meta.extend(text(b"/'it''s'"));
    meta.extend_from_slice(&0xFFFF_FFFFu32.to_le_bytes());
    meta.extend_from_slice(&0u32.to_le_bytes());
    meta.extend(text(b"/'it''s'/'x'"));
    meta.extend_from_slice(&20u32.to_le_bytes());
    meta.extend_from_slice(&DataType::U8.to_u32().to_le_bytes());
    meta.extend_from_slice(&1u32.to_le_bytes());
    meta.extend_from_slice(&3u64.to_le_bytes());
    meta.extend_from_slice(&0u32.to_le_bytes());
    let mut image = lead_in(0x0E, u64::MAX, meta.len() as u64);
    image.extend(meta);
    image.extend_from_slice(&[4, 5, 6]);
    let file = TdmsFile::from_bytes(image).unwrap();
    let ch = file.group("it's").unwrap().channel("x").unwrap();
    assert_eq!(ch.dtype(), DataType::U8);
    let mut out = [0u8; 3];
    assert_eq!(ch.read(0..3, &mut out).unwrap(), 3);
    assert_eq!(out, [4, 5, 6]);
}

#[test]
fn reader_second_segment_repeats_objects() {
    // A first segment with a new object list, then a segment that repeats it (no new list)
    // and carries more values of the same channel under the remembered description.
    let mut meta = 1u32.to_le_bytes().to_vec();
    meta.extend(text(b"/'G'/'C'"));
    meta.extend_from_slice(&20u32.to_le_bytes());
    meta.extend_from_slice(&DataType::U16.to_u32().to_le_bytes());
    meta.extend_from_slice(&1u32.to_le_bytes());
    meta.extend_from_slice(&2u64.to_le_bytes());
    meta.extend_from_slice(&0u32.to_le_bytes());
    let raw1: Vec<u8> = [1u16, 2].iter().flat_map(|v| v.to_le_bytes()).collect();
    let mut image = lead_in(0x0E, (meta.len() + raw1.len()) as u64, meta.len() as u64);
    image.extend(meta);
    image.extend(raw1);
    let raw2: Vec<u8> = [3u16, 4].iter().flat_map(|v| v.to_le_bytes()).collect();
    image.extend(lead_in(0x08, raw2.len() as u64, 0));
    image.extend(raw2);
    let file = TdmsFile::from_bytes(image).unwrap();
    let ch = file.group("G").unwrap().channel("C").unwrap();
    assert_eq!(ch.len(), 4);
    let mut out = [0u16; 4];
    ch.read(0..4, &mut out).unwrap();
    assert_eq!(out, [1, 2, 3, 4]);
    let mut mid = [0u16; 2];
    ch.read(1..3, &mut mid).unwrap();
    assert_eq!(mid, [2, 3]);
}

#[test]
fn reader_bad_string_offsets() {
    let mut meta = 1u32.to_le_bytes().to_vec();
    meta.extend(text(b"/'G'/'S'"));
    meta.extend_from_slice(&28u32.to_le_bytes());
    meta.extend_from_slice(&DataType::String.to_u32().to_le_bytes());
    meta.extend_from_slice(&1u32.to_le_bytes());
    meta.extend_from_slice(&2u64.to_le_bytes());
    meta.extend_from_slice(&11u64.to_le_bytes());
    meta.extend_from_slice(&0u32.to_le_bytes());
    let mut image = lead_in(0x0E, u64::MAX, meta.len() as u64);
    image.extend(meta);
    image.extend_from_slice(&3u32.to_le_bytes());
    image.extend_from_slice(&1u32.to_le_bytes());
    image.extend_from_slice(b"abc");
    let file = TdmsFile::from_bytes(image).unwrap();
    let ch = file.group("G").unwrap().channel("S").unwrap();
    let mut out = vec![String::new(); 2];
    match ch.read_strings(0..2, &mut out) {
        Err(TdmsError::InvalidFormat(m)) => assert_eq!(m, "string offsets out of order"),
        other => panic!("unexpected {:?}", other),
    }
    // The block holds as many bytes as the last end offset says: one, so the first string
    // (ending at 3) does not fit either.
    let mut first = vec![String::new(); 1];
    assert!(matches!(ch.read_strings(0..1, &mut first), Err(TdmsError::InvalidFormat(_))));
}

#[test]
fn reader_string_errors() {
    let mut writer = TdmsWriter::create("s.tdms").unwrap();
    writer.add_group("G").unwrap().add_channel::<&str>("S").unwrap().write(&["x", "y"]).unwrap();
    writer.add_group("G").unwrap().add_channel::<u8>("N").unwrap().write(&[1]).unwrap();
    let file = TdmsFile::from_bytes(writer.file_image()).unwrap();
    let g = file.group("G").unwrap();
    let s = g.channel("S").unwrap();
    let mut out = vec![String::new(); 1];
    assert!(matches!(s.read_strings(0..3, &mut out), Err(TdmsError::InvalidRange(0, 3, 2))));
    match s.read_strings(0..2, &mut out) {
        Err(TdmsError::InvalidFormat(m)) => assert_eq!(m, "output buffer too small for requested range"),
        other => panic!("unexpected {:?}", other),
    }
    let n = g.channel("N").unwrap();
    assert!(matches!(n.read_strings(0..1, &mut out), Err(TdmsError::TypeMismatch)));
    let mut offsets = vec![7u64];
    let mut bytes = vec![1u8];
    assert!(matches!(n.read_string_buffers(0..1, &mut offsets, &mut bytes), Err(TdmsError::TypeMismatch)));
}
