use multipart_backup::channel::read_to_end;
use multipart_backup::channel::MemoryReader;
use multipart_backup::multipart::MultipartReader;
use multipart_backup::multipart::MultipartWriter;
use multipart_backup::operation::StorageOperation;
use multipart_backup::struct_stream::StreamError;
use multipart_backup::struct_stream::StructReader;
use multipart_backup::struct_stream::StructWriter;

#[test]
fn test_struct() {
    // write to a buffer in memory
    let mut writer = StructWriter::new(Vec::new());

    let s1 = ("s1".to_string(), 1u32, 2u32);

    writer.write(&bincode::serialize(&s1).unwrap()).unwrap();

    // read from the buffer
    let mut reader = StructReader::new(MemoryReader::new(writer.into_inner()));

    let s2: (String, u32, u32) = bincode::deserialize(&reader.next().unwrap()).unwrap();

    assert_eq!(s1, s2);
}

#[test]
fn test_bytes() {
    // write to a buffer in memory
    let mut writer = StructWriter::new(Vec::new());

    let bytes = vec![1, 2, 3, 4, 5];

    writer.write_bytes(&bytes);

    // read from the buffer
    let mut reader = StructReader::new(MemoryReader::new(writer.into_inner()));

    let bytes2 = reader.next_bytes(5).unwrap();

    assert_eq!(bytes, bytes2);
}

#[test]
fn test_mix() {
    // write to a buffer in memory
    let mut writer = StructWriter::new(Vec::new());

    let s1 = ("s1".to_string(), 1u32, 2u32);

    writer.write(&bincode::serialize(&s1).unwrap()).unwrap();

    let bytes = vec![1, 2, 3, 4, 5];

    writer.write_bytes(&bytes);

    // read from the buffer
    let mut reader = StructReader::new(MemoryReader::new(writer.into_inner()));

    let s2: (String, u32, u32) = bincode::deserialize(&reader.next().unwrap()).unwrap();

    assert_eq!(s1, s2);

    let bytes2 = reader.next_bytes(5).unwrap();

    assert_eq!(bytes, bytes2);
}

#[test]
fn record_is_length_then_payload() {
    let mut writer = StructWriter::new(Vec::new());
    assert_eq!(writer.write(&[7, 8, 9]), Ok(()));
    assert_eq!(writer.write(&[]), Ok(()));
    let payload = vec![1u8; 258];
    assert_eq!(writer.write(&payload), Ok(()));
    let mut expected = vec![3, 0, 0, 0, 7, 8, 9, 0, 0, 0, 0, 2, 1, 0, 0];
    expected.extend_from_slice(&payload);
    assert_eq!(writer.into_inner(), expected);
}

#[test]
fn records_straddle_parts() {
    for max in 1..10u64 {
        let mut writer = StructWriter::new(MultipartWriter::new(max));
        writer.write(b"first").unwrap();
        writer.write_bytes(b"span");
        writer.write(b"").unwrap();
        writer.write(b"second record").unwrap();
        let parts = writer.into_inner().into_parts();
        assert_eq!(parts.concat().len(), 9 + 4 + 4 + 17);
        let mut reader = StructReader::new(MultipartReader::new(parts));
        assert_eq!(reader.next(), Ok(b"first".to_vec()));
        assert_eq!(reader.next_bytes(4), Ok(b"span".to_vec()));
        assert_eq!(reader.next(), Ok(Vec::new()));
        assert_eq!(reader.next(), Ok(b"second record".to_vec()));
        assert_eq!(reader.next(), Err(StreamError::EndOfStream));
    }
}

#[test]
fn next_reads_the_declared_length() {
    let stream = vec![2, 0, 0, 0, 10, 11, 12, 13];
    let mut reader = StructReader::new(MemoryReader::new(stream));
    assert_eq!(reader.next(), Ok(vec![10, 11]));
    assert_eq!(reader.next_bytes(2), Ok(vec![12, 13]));
}

#[test]
fn next_at_the_end_is_end_of_stream() {
    let mut reader = StructReader::new(MultipartReader::new(Vec::new()));
    assert_eq!(reader.next(), Err(StreamError::EndOfStream));
    assert_eq!(reader.next(), Err(StreamError::EndOfStream));
}

#[test]
fn short_prefix_is_truncated() {
    let mut reader = StructReader::new(MultipartReader::new(vec![vec![5, 0], vec![0]]));
    assert_eq!(reader.next(), Err(StreamError::Truncated));
    assert_eq!(reader.next(), Err(StreamError::EndOfStream));
}

#[test]
fn short_payload_is_truncated() {
    let mut reader = StructReader::new(MultipartReader::new(vec![vec![5, 0, 0, 0, 1, 2, 3, 4]]));
    assert_eq!(reader.next(), Err(StreamError::Truncated));
    let mut source = reader.into_inner();
    assert!(read_to_end(&mut source).is_empty());
}

#[test]
fn short_span_is_truncated() {
    let mut reader = StructReader::new(MultipartReader::new(vec![vec![1, 2], vec![3]]));
    assert_eq!(reader.next_bytes(4), Err(StreamError::Truncated));
    assert_eq!(reader.next_bytes(1), Err(StreamError::Truncated));
    assert_eq!(reader.next_bytes(0), Ok(Vec::new()));
}

#[test]
fn spans_read_in_any_sizes_give_the_same_bytes() {
    let data: Vec<u8> = (0..200u8).collect();
    let mut writer = StructWriter::new(MultipartWriter::new(7));
    writer.write_bytes(&data[..150]);
    writer.write_bytes(&data[150..]);
    let parts = writer.into_inner().into_parts();
    for size in [1usize, 2, 3, 7, 8, 50, 199, 200] {
        let mut reader = StructReader::new(MultipartReader::new(parts.clone()));
        let mut got = Vec::new();
        while got.len() < data.len() {
            let want = size.min(data.len() - got.len());
            got.extend_from_slice(&reader.next_bytes(want).unwrap());
        }
        assert_eq!(got, data);
    }
}

#[test]
fn operations_as_records() {
    let enter = StorageOperation::EnterDirectory("dir".to_string());
    let create = StorageOperation::CreateFile("f".to_string(), 2);
    let mut writer = StructWriter::new(MultipartWriter::new(6));
    assert_eq!(writer.write_operation(&enter), Ok(()));
    assert_eq!(writer.write_operation(&create), Ok(()));
    writer.write_bytes(b"ab");
    assert_eq!(writer.write_operation(&StorageOperation::LeaveDirectory), Ok(()));
    writer.write(&[7, 7, 7, 7]).unwrap();
    writer.write_bytes(&[1, 0]);
    let parts = writer.into_inner().into_parts();
    assert_eq!(parts[0], vec![15, 0, 0, 0, 0, 0]);

    let mut reader = StructReader::new(MultipartReader::new(parts));
    assert_eq!(reader.next_operation(), Ok(enter));
    assert_eq!(reader.next_operation(), Ok(create));
    assert_eq!(reader.next_bytes(2), Ok(b"ab".to_vec()));
    assert_eq!(reader.next_operation(), Ok(StorageOperation::LeaveDirectory));
    assert_eq!(reader.next_operation(), Err(StreamError::Malformed));
    assert_eq!(reader.next_operation(), Err(StreamError::Truncated));
    assert_eq!(reader.next_operation(), Err(StreamError::EndOfStream));
}
