//! Writing a channel of each supported element type and reading it back.

use tdms_rs::{DataType, F32Bits, F64Bits, Pod, TdmsError, TdmsFile, TdmsWriter, WritableType};

/// Writes `data` to channel `C` of group `G` and indexes the bytes of the file.
fn written<T: WritableType>(data: &[T]) -> TdmsFile {
    let mut writer = TdmsWriter::create("channel.tdms").unwrap();
    {
        let mut group = writer.add_group("G").unwrap();
        let mut channel = group.add_channel::<T>("C").unwrap();
        channel.write(data).unwrap();
    }
    TdmsFile::from_bytes(writer.file_image()).unwrap()
}

/// Writes `data`, reads the whole channel back as `T` and compares.
fn roundtrip<T: WritableType + Pod + Default + PartialEq + std::fmt::Debug>(data: &[T], dtype: DataType) {
    let file = written(data);
    let channel = file.group("G").unwrap().channel("C").unwrap();
    assert_eq!(channel.len(), data.len());
    assert_eq!(channel.dtype(), dtype);
    let mut read_back = vec![T::default(); data.len()];
    let n = channel.read(0..data.len(), &mut read_back).unwrap();
    assert_eq!(n, data.len());
    assert_eq!(read_back, data);
}

#[test]
fn channel_i8() {
    roundtrip::<i8>(&[-128, -1, 0, 1, 127], DataType::I8);
}

#[test]
fn channel_i16() {
    roundtrip::<i16>(&[-32768, -1, 0, 1, 32767], DataType::I16);
}

#[test]
fn channel_i32() {
    roundtrip::<i32>(&[-2147483648, -1, 0, 1, 2147483647], DataType::I32);
}

#[test]
fn channel_i64() {
    roundtrip::<i64>(&[-9223372036854775808_i64, -1, 0, 1, 9223372036854775807_i64], DataType::I64);
}

#[test]
fn channel_u8() {
    roundtrip::<u8>(&[0, 1, 255], DataType::U8);
}

#[test]
fn channel_u16() {
    roundtrip::<u16>(&[0, 1, 65535], DataType::U16);
}

#[test]
fn channel_u32() {
    roundtrip::<u32>(&[0, 1, 4294967295_u32], DataType::U32);
}

#[test]
fn channel_u64() {
    roundtrip::<u64>(&[0, 1, 18446744073709551615_u64], DataType::U64);
}

#[test]
fn channel_f32() {
    let data = [-std::f32::consts::PI, 0.0, std::f32::consts::PI];
    let bits: Vec<F32Bits> = data.iter().map(|v| F32Bits(v.to_bits())).collect();
    roundtrip::<F32Bits>(&bits, DataType::Float);
    let file = written(&bits);
    let channel = file.group("G").unwrap().channel("C").unwrap();
    let mut read_back = vec![F32Bits::default(); 3];
    channel.read(0..3, &mut read_back).unwrap();
    let floats: Vec<f32> = read_back.iter().map(|b| f32::from_bits(b.0)).collect();
    assert_eq!(floats, data);
}

#[test]
fn channel_f64() {
    let data = [-std::f64::consts::E, 0.0, std::f64::consts::E];
    let bits: Vec<F64Bits> = data.iter().map(|v| F64Bits(v.to_bits())).collect();
    roundtrip::<F64Bits>(&bits, DataType::Double);
    let file = written(&bits);
    let channel = file.group("G").unwrap().channel("C").unwrap();
    let mut read_back = vec![F64Bits::default(); 3];
    channel.read(0..3, &mut read_back).unwrap();
    let floats: Vec<f64> = read_back.iter().map(|b| f64::from_bits(b.0)).collect();
    assert_eq!(floats, data);
}

#[test]
fn channel_bool() {
    roundtrip::<bool>(&[true, false, true, false, true], DataType::Boolean);
}

#[test]
fn channel_string_roundtrip() {
    let data = vec![
        "Hello".to_string(),
        "".to_string(),
        "World".to_string(),
        "TDMS".to_string(),
        "File Format".to_string(),
        "unicode: café".to_string(),
    ];
    let file = written(&data);
    let channel = file.group("G").unwrap().channel("C").unwrap();
    assert_eq!(channel.len(), data.len());
    assert_eq!(channel.dtype(), DataType::String);

    let mut read_back = vec![String::new(); data.len()];
    channel.read_strings(0..data.len(), &mut read_back).unwrap();
    assert_eq!(read_back, data);

    // Partial read across the middle
    let mut sub = vec![String::new(); 3];
    channel.read_strings(2..5, &mut sub).unwrap();
    assert_eq!(sub, data[2..5]);
}

#[test]
fn channel_str_slices_roundtrip() {
    let data: Vec<&str> = vec!["alpha", "", "γάμμα"];
    let file = written(&data);
    let channel = file.group("G").unwrap().channel("C").unwrap();
    assert_eq!(channel.dtype(), DataType::String);
    let mut read_back = vec![String::new(); 3];
    assert_eq!(channel.read_strings(0..3, &mut read_back).unwrap(), 3);
    assert_eq!(read_back, vec!["alpha".to_string(), "".to_string(), "γάμμα".to_string()]);
}

#[test]
fn channel_unsupported_types_error() {
    let data = [F64Bits(1.0f64.to_bits()), F64Bits(2.0f64.to_bits()), F64Bits(3.0f64.to_bits())];
    let mut writer = TdmsWriter::create("channel_unsupported.tdms").unwrap();
    {
        let mut group = writer.add_group("G").unwrap();
        let mut ch = group.add_channel::<F64Bits>("Data").unwrap();
        ch.write(&data).unwrap();
    }
    let file = TdmsFile::from_bytes(writer.file_image()).unwrap();
    let channel = file.group("G").unwrap().channel("Data").unwrap();

    // Verify the type is correct
    assert_eq!(channel.dtype(), DataType::Double);

    // Attempting to read f64 data into i32 buffer should fail
    let mut buf = [0i32; 3];
    assert!(matches!(channel.read(0..3, &mut buf), Err(TdmsError::TypeMismatch)));
}

#[test]
fn channel_partial_read_and_range_errors() {
    let file = written(&[10u32, 20, 30, 40]);
    let channel = file.group("G").unwrap().channel("C").unwrap();
    let mut buf = [0u32; 4];
    assert_eq!(channel.read(1..3, &mut buf).unwrap(), 2);
    assert_eq!(buf, [20, 30, 0, 0]);
    assert!(matches!(channel.read(2..5, &mut buf), Err(TdmsError::InvalidRange(2, 5, 4))));
    let mut small = [0u32; 1];
    assert!(matches!(channel.read(0..2, &mut small), Err(TdmsError::InvalidFormat(_))));
    assert_eq!(channel.read(2..2, &mut small).unwrap(), 0);
}

#[test]
fn channel_written_in_two_calls() {
    let mut writer = TdmsWriter::create("two.tdms").unwrap();
    {
        let mut group = writer.add_group("G").unwrap();
        let mut channel = group.add_channel::<u16>("C").unwrap();
        channel.write(&[1, 2]).unwrap();
        channel.write(&[3]).unwrap();
    }
    let file = TdmsFile::from_bytes(writer.file_image()).unwrap();
    let channel = file.group("G").unwrap().channel("C").unwrap();
    assert_eq!(channel.len(), 3);
    let mut buf = [0u16; 3];
    channel.read(0..3, &mut buf).unwrap();
    assert_eq!(buf, [1, 2, 3]);
}

#[test]
fn channel_strings_written_in_two_calls() {
    let mut writer = TdmsWriter::create("two_strings.tdms").unwrap();
    {
        let mut group = writer.add_group("G").unwrap();
        let mut channel = group.add_channel::<String>("C").unwrap();
        channel.write(&["a".to_string()]).unwrap();
        channel.write(&["b".to_string(), "".to_string(), "cd".to_string()]).unwrap();
    }
    let file = TdmsFile::from_bytes(writer.file_image()).unwrap();
    let channel = file.group("G").unwrap().channel("C").unwrap();
    assert_eq!(channel.len(), 4);
    let mut out = vec![String::new(); 4];
    assert_eq!(channel.read_strings(0..4, &mut out).unwrap(), 4);
    assert_eq!(out, vec!["a", "b", "", "cd"]);
    let mut offsets = Vec::new();
    let mut bytes = Vec::new();
    channel.read_string_buffers(1..4, &mut offsets, &mut bytes).unwrap();
    assert_eq!(offsets, vec![0, 1, 1, 3]);
    assert_eq!(&bytes, b"bcd");
}

#[test]
fn channel_write_of_another_type_is_refused() {
    let mut writer = TdmsWriter::create("types.tdms").unwrap();
    {
        let mut group = writer.add_group("G").unwrap();
        group.add_channel::<u8>("C").unwrap().write(&[7]).unwrap();
        let mut other = group.add_channel::<u32>("C").unwrap();
        assert!(matches!(other.write(&[1, 2]), Err(TdmsError::TypeMismatch)));
    }
    let file = TdmsFile::from_bytes(writer.file_image()).unwrap();
    let channel = file.group("G").unwrap().channel("C").unwrap();
    assert_eq!(channel.dtype(), DataType::U8);
    assert_eq!(channel.len(), 1);
    let mut out = [0u8; 1];
    channel.read(0..1, &mut out).unwrap();
    assert_eq!(out, [7]);
}

#[test]
fn channel_read_reversed_range_of_another_type() {
    let file = written(&[1u16, 2, 3]);
    let channel = file.group("G").unwrap().channel("C").unwrap();
    let mut buf = [0u32; 2];
    assert!(matches!(channel.read(2..1, &mut buf), Err(TdmsError::TypeMismatch)));
    let mut strs = vec![String::new(); 1];
    assert!(matches!(channel.read_strings(2..1, &mut strs), Err(TdmsError::TypeMismatch)));
}
