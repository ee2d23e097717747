//! The writer: names, handles, properties and the bytes of its file.

use std::marker::PhantomData;
use tdms_rs::{DataType, F64Bits, PropertyValue, TdmsError, TdmsFile, TdmsWriter, WriterChannel, WriterGroup};

#[test]
fn writer_refuses_empty_names() {
    let mut writer = TdmsWriter::create("names.tdms").unwrap();
    match writer.add_group("") {
        Err(TdmsError::InvalidName(m)) => assert_eq!(m, "Group name cannot be empty"),
        _ => panic!("empty group name accepted"),
    }
    match writer.add_property("", PropertyValue::U8(1)) {
        Err(TdmsError::InvalidName(m)) => assert_eq!(m, "Property name cannot be empty"),
        _ => panic!("empty property name accepted"),
    }
    let mut group = writer.add_group("G").unwrap();
    match group.add_channel::<u8>("") {
        Err(TdmsError::InvalidName(m)) => assert_eq!(m, "Channel name cannot be empty"),
        _ => panic!("empty channel name accepted"),
    }
    match group.add_property("", PropertyValue::U8(1)) {
        Err(TdmsError::InvalidName(m)) => assert_eq!(m, "Property name cannot be empty"),
        _ => panic!("empty property name accepted"),
    }
    let mut channel = group.add_channel::<u8>("C").unwrap();
    match channel.add_property("", PropertyValue::U8(1)) {
        Err(TdmsError::InvalidName(m)) => assert_eq!(m, "Property name cannot be empty"),
        _ => panic!("empty property name accepted"),
    }
}

#[test]
fn writer_handles_of_missing_group_and_channel() {
    let mut writer = TdmsWriter::create("missing.tdms").unwrap();
    writer.add_group("G").unwrap().add_channel::<u8>("C").unwrap();
    {
        let mut group = WriterGroup { writer: &mut writer, group_name: "Other".to_string() };
        match group.add_channel::<u8>("C") {
            Err(TdmsError::GroupNotFound(g)) => assert_eq!(g, "Other"),
            _ => panic!("missing group found"),
        }
        match group.add_property("p", PropertyValue::U8(1)) {
            Err(TdmsError::GroupNotFound(g)) => assert_eq!(g, "Other"),
            _ => panic!("missing group found"),
        }
    }
    {
        let mut channel: WriterChannel<'_, u8> = WriterChannel {
            writer: &mut writer,
            group_name: "G".to_string(),
            channel_name: "Nope".to_string(),
            _phantom: PhantomData,
        };
        match channel.write(&[1, 2]) {
            Err(TdmsError::ChannelNotFound(c, g)) => {
                assert_eq!(c, "Nope");
                assert_eq!(g, "G");
            }
            _ => panic!("missing channel found"),
        }
        match channel.add_property("p", PropertyValue::U8(1)) {
            Err(TdmsError::ChannelNotFound(c, g)) => {
                assert_eq!(c, "Nope");
                assert_eq!(g, "G");
            }
            _ => panic!("missing channel found"),
        }
    }
    {
        let mut channel: WriterChannel<'_, u8> = WriterChannel {
            writer: &mut writer,
            group_name: "Gone".to_string(),
            channel_name: "C".to_string(),
            _phantom: PhantomData,
        };
        match channel.write(&[1]) {
            Err(TdmsError::GroupNotFound(g)) => assert_eq!(g, "Gone"),
            _ => panic!("missing group found"),
        }
    }
}

#[test]
fn writer_empty_file_bytes() {
    let writer = TdmsWriter::create("empty.tdms").unwrap();
    assert_eq!(writer.path(), "empty.tdms");
    assert_eq!(writer.object_count(), Some(0));
    let image = writer.file_image();
    let mut expected = b"TDSm".to_vec();
    expected.extend_from_slice(&0x0Eu32.to_le_bytes());
    expected.extend_from_slice(&4712u32.to_le_bytes());
    expected.extend_from_slice(&u64::MAX.to_le_bytes());
    expected.extend_from_slice(&4u64.to_le_bytes());
    expected.extend_from_slice(&0u32.to_le_bytes());
    assert_eq!(image, expected);
    let file = TdmsFile::from_bytes(image).unwrap();
    assert!(file.groups().is_empty());
    assert!(file.properties().is_empty());
}

#[test]
fn writer_group_object_bytes() {
    let mut writer = TdmsWriter::create("group.tdms").unwrap();
    writer.add_group("G").unwrap();
    assert_eq!(writer.object_count(), Some(1));
    let image = writer.file_image();
    let mut meta = 1u32.to_le_bytes().to_vec();
    meta.extend_from_slice(&4u32.to_le_bytes());
    meta.extend_from_slice(b"/'G'");
    meta.extend_from_slice(&0xFFFF_FFFFu32.to_le_bytes());
    meta.extend_from_slice(&0u32.to_le_bytes());
    assert_eq!(&image[20..28], &(meta.len() as u64).to_le_bytes());
    assert_eq!(&image[28..], &meta[..]);
}

#[test]
fn writer_properties_read_back() {
    let mut writer = TdmsWriter::create("props.tdms").unwrap();
    writer.add_property("title", PropertyValue::String("Run 1".to_string())).unwrap();
    writer.add_property("when", PropertyValue::TimeStamp((-5, 123))).unwrap();
    writer.add_property("title", PropertyValue::String("Run 2".to_string())).unwrap();
    {
        let mut group = writer.add_group("G").unwrap();
        group.add_property("gain", PropertyValue::Double(1.5f64.to_bits())).unwrap();
        group.add_property("ok", PropertyValue::Boolean(true)).unwrap();
        let mut channel = group.add_channel::<i16>("C").unwrap();
        channel.add_property("unit", PropertyValue::String("V".to_string())).unwrap();
        channel.add_property("i8", PropertyValue::I8(-8)).unwrap();
        channel.add_property("u64", PropertyValue::U64(u64::MAX)).unwrap();
        channel.add_property("f", PropertyValue::Float(0.25f32.to_bits())).unwrap();
        channel.add_property("i64", PropertyValue::I64(i64::MIN)).unwrap();
        channel.add_property("u16", PropertyValue::U16(65535)).unwrap();
        channel.add_property("i32", PropertyValue::I32(-1)).unwrap();
        channel.add_property("u32", PropertyValue::U32(7)).unwrap();
        channel.add_property("u8", PropertyValue::U8(200)).unwrap();
        channel.add_property("i16", PropertyValue::I16(-300)).unwrap();
    }
    let file = TdmsFile::from_bytes(writer.file_image()).unwrap();
    let props = file.properties();
    assert_eq!(props.len(), 2);
    assert_eq!(props[0].0, "title");
    assert_eq!(*props[0].1, PropertyValue::String("Run 2".to_string()));
    assert_eq!(props[1].0, "when");
    assert_eq!(file.property("when"), Some(&PropertyValue::TimeStamp((-5, 123))));
    assert_eq!(file.property("missing"), None);
    let group = file.group("G").unwrap();
    assert_eq!(group.name(), "G");
    assert_eq!(group.property("gain"), Some(&PropertyValue::Double(1.5f64.to_bits())));
    assert_eq!(group.property("ok"), Some(&PropertyValue::Boolean(true)));
    assert_eq!(group.properties().len(), 2);
    let channel = group.channel("C").unwrap();
    assert_eq!(channel.name(), "C");
    assert_eq!(channel.dtype(), DataType::I16);
    assert!(channel.is_empty());
    assert_eq!(channel.len(), 0);
    let cp = channel.properties();
    let names: Vec<&str> = cp.iter().map(|(k, _)| *k).collect();
    assert_eq!(names, vec!["unit", "i8", "u64", "f", "i64", "u16", "i32", "u32", "u8", "i16"]);
    assert_eq!(channel.property("unit"), Some(&PropertyValue::String("V".to_string())));
    assert_eq!(channel.property("i8"), Some(&PropertyValue::I8(-8)));
    assert_eq!(channel.property("u64"), Some(&PropertyValue::U64(u64::MAX)));
    assert_eq!(channel.property("f"), Some(&PropertyValue::Float(0.25f32.to_bits())));
    assert_eq!(channel.property("i64"), Some(&PropertyValue::I64(i64::MIN)));
    assert_eq!(channel.property("u16"), Some(&PropertyValue::U16(65535)));
    assert_eq!(channel.property("i32"), Some(&PropertyValue::I32(-1)));
    assert_eq!(channel.property("u32"), Some(&PropertyValue::U32(7)));
    assert_eq!(channel.property("u8"), Some(&PropertyValue::U8(200)));
    assert_eq!(channel.property("i16"), Some(&PropertyValue::I16(-300)));
}

#[test]
fn writer_groups_keep_order_channels_sorted() {
    let mut writer = TdmsWriter::create("order.tdms").unwrap();
    {
        let mut g = writer.add_group("zeta").unwrap();
        g.add_channel::<u8>("b").unwrap();
        g.add_channel::<u8>("a").unwrap();
        g.add_channel::<u8>("B").unwrap();
    }
    writer.add_group("alpha").unwrap();
    writer.add_group("zeta").unwrap();
    assert_eq!(writer.object_count(), Some(5));
    let file = TdmsFile::from_bytes(writer.file_image()).unwrap();
    let groups: Vec<String> = file.groups().iter().map(|g| g.name().to_string()).collect();
    assert_eq!(groups, vec!["zeta", "alpha"]);
    let channels: Vec<String> = file.group("zeta").unwrap().channels().iter().map(|c| c.name().to_string()).collect();
    assert_eq!(channels, vec!["B", "a", "b"]);
}

#[test]
fn writer_add_channel_twice_keeps_first_type() {
    let mut writer = TdmsWriter::create("twice.tdms").unwrap();
    {
        let mut g = writer.add_group("G").unwrap();
        g.add_channel::<u8>("C").unwrap().write(&[1, 2]).unwrap();
        g.add_channel::<F64Bits>("C").unwrap();
    }
    let file = TdmsFile::from_bytes(writer.file_image()).unwrap();
    let c = file.group("G").unwrap().channel("C").unwrap();
    assert_eq!(c.dtype(), DataType::U8);
    assert_eq!(c.len(), 2);
}

#[test]
fn writer_file_image_is_repeatable() {
    let mut writer = TdmsWriter::create("again.tdms").unwrap();
    writer.add_group("G").unwrap().add_channel::<u32>("C").unwrap().write(&[9, 8, 7]).unwrap();
    let first = writer.file_image();
    let second = writer.file_image();
    assert_eq!(first, second);
}
