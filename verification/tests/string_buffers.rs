//! Reading string channels as one buffer of bytes with offsets.

use tdms_rs::{DataType, TdmsFile, TdmsWriter};

fn decode(offsets: &[u64], bytes: &[u8], n: usize) -> Vec<String> {
    (0..n)
        .map(|i| {
            std::str::from_utf8(&bytes[offsets[i] as usize..offsets[i + 1] as usize])
                .unwrap()
                .to_string()
        })
        .collect()
}

/// The bytes of a file with one string channel `channel` in group `group`.
fn string_file(group: &str, channel: &str, values: &[&str]) -> Vec<u8> {
    let mut writer = TdmsWriter::create("strings.tdms").unwrap();
    {
        let mut g = writer.add_group(group).unwrap();
        let mut c = g.add_channel::<&str>(channel).unwrap();
        c.write(values).unwrap();
    }
    writer.file_image()
}

#[test]
fn string_buffers_roundtrip() {
    let image = string_file("Strings", "Basic", &["Hello", "World", "", "TDMS", "File Format"]);
    let tdms = TdmsFile::from_bytes(image).unwrap();
    let ch = tdms.group("Strings").unwrap().channel("Basic").unwrap();
    assert_eq!(ch.dtype(), DataType::String);
    assert_eq!(ch.len(), 5);

    let mut offsets = Vec::new();
    let mut bytes = Vec::new();
    let n = ch.read_string_buffers(0..5, &mut offsets, &mut bytes).unwrap();
    assert_eq!(n, 5);
    assert_eq!(offsets.len(), 6);
    assert_eq!(offsets[0], 0);
    assert_eq!(offsets[5] as usize, bytes.len());
    assert_eq!(decode(&offsets, &bytes, 5), vec!["Hello", "World", "", "TDMS", "File Format"]);

    let mut sub_offsets = Vec::new();
    let mut sub_bytes = Vec::new();
    let sub = ch.read_string_buffers(1..4, &mut sub_offsets, &mut sub_bytes).unwrap();
    assert_eq!(sub, 3);
    assert_eq!(sub_offsets, vec![0, 5, 5, 9]);
    assert_eq!(&sub_bytes, b"WorldTDMS");

    let mut empty_offsets = Vec::new();
    let mut empty_bytes = Vec::new();
    let empty = ch.read_string_buffers(3..3, &mut empty_offsets, &mut empty_bytes).unwrap();
    assert_eq!(empty, 0);
    assert_eq!(empty_offsets, vec![0]);
    assert!(empty_bytes.is_empty());
}

#[test]
fn string_buffers_multisegment() {
    // Two segments, each a complete writer image; the second continues the same channel.
    let mut image = string_file("Strings", "Detailed", &["plain", "Null\u{0}Byte"]);
    image.extend(string_file("Strings", "Detailed", &["smile \u{1F600}", "last"]));
    let tdms = TdmsFile::from_bytes(image).unwrap();
    let ch = tdms.group("Strings").unwrap().channel("Detailed").unwrap();
    assert_eq!(ch.len(), 4);

    let mut offsets = Vec::new();
    let mut bytes = Vec::new();
    let n = ch.read_string_buffers(0..ch.len(), &mut offsets, &mut bytes).unwrap();
    assert_eq!(n, ch.len());
    assert_eq!(offsets.len(), n + 1);
    assert_eq!(offsets[n] as usize, bytes.len());
    let decoded = decode(&offsets, &bytes, n);
    assert_eq!(decoded[1], "Null\u{0}Byte");
    assert!(decoded[2].contains("\u{1F600}"));
    assert_eq!(decoded, vec!["plain", "Null\u{0}Byte", "smile \u{1F600}", "last"]);
}
