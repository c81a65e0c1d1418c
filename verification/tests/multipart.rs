use multipart_backup::channel::read_exact;
use multipart_backup::channel::read_to_end;
use multipart_backup::channel::write_all;
use multipart_backup::channel::ByteSink;
use multipart_backup::channel::ByteSource;
use multipart_backup::channel::MemoryReader;
use multipart_backup::multipart::MultipartReader;
use multipart_backup::multipart::MultipartWriter;

#[test]
fn test_multipart() {
    let mut writer = MultipartWriter::new(5);
    write_all(&mut writer, b"hello");
    write_all(&mut writer, b"world");
    write_all(&mut writer, b"!");

    // Check that the parts were created and their contents are correct.
    let parts = writer.into_parts();
    assert_eq!(parts.len(), 3);
    assert_eq!(String::from_utf8(parts[0].clone()).unwrap(), "hello");
    assert_eq!(String::from_utf8(parts[1].clone()).unwrap(), "world");
    assert_eq!(String::from_utf8(parts[2].clone()).unwrap(), "!");

    // Check that the parts read back as one stream.
    let mut reader = MultipartReader::new(parts);
    let bytes = read_to_end(&mut reader);
    assert_eq!(String::from_utf8(bytes).unwrap(), "helloworld!");
}

#[test]
fn writer_starts_without_parts() {
    let writer = MultipartWriter::new(3);
    assert_eq!(writer.file_number(), 0);
    assert_eq!(writer.file_size(), 0);
    assert_eq!(writer.max_file_size(), 3);
    assert!(writer.into_parts().is_empty());
}

#[test]
fn write_is_short_at_a_part_boundary() {
    let mut writer = MultipartWriter::new(4);
    assert_eq!(writer.write(b"abcdef"), 4);
    assert_eq!(writer.file_number(), 0);
    assert_eq!(writer.file_size(), 4);
    assert_eq!(writer.write(b"ef"), 2);
    assert_eq!(writer.file_number(), 1);
    assert_eq!(writer.file_size(), 2);
    assert_eq!(writer.write(b"ghijkl"), 2);
    assert_eq!(writer.write(b"ijkl"), 4);
    assert_eq!(writer.into_parts(), vec![b"abcd".to_vec(), b"efgh".to_vec(), b"ijkl".to_vec()]);
}

#[test]
fn empty_write_changes_nothing() {
    let mut writer = MultipartWriter::new(2);
    assert_eq!(writer.write(b""), 0);
    assert_eq!(writer.write(b"ab"), 2);
    assert_eq!(writer.write(b""), 0);
    assert_eq!(writer.file_number(), 0);
    assert_eq!(writer.file_size(), 2);
    assert_eq!(writer.into_parts(), vec![b"ab".to_vec()]);
}

#[test]
fn every_part_but_the_last_is_full() {
    for max in 1..12u64 {
        let mut writer = MultipartWriter::new(max);
        let data: Vec<u8> = (0..50u8).collect();
        write_all(&mut writer, &data[..7]);
        write_all(&mut writer, &data[7..8]);
        write_all(&mut writer, &data[8..50]);
        let parts = writer.into_parts();
        let count = (50 + max as usize - 1) / max as usize;
        assert_eq!(parts.len(), count);
        for (i, part) in parts.iter().enumerate() {
            if i + 1 < parts.len() {
                assert_eq!(part.len() as u64, max);
            } else {
                assert!(!part.is_empty());
                assert!(part.len() as u64 <= max);
            }
        }
        assert_eq!(parts.concat(), data);
    }
}

#[test]
fn one_byte_parts() {
    let mut writer = MultipartWriter::new(1);
    write_all(&mut writer, b"abc");
    assert_eq!(writer.into_parts(), vec![b"a".to_vec(), b"b".to_vec(), b"c".to_vec()]);
}

#[test]
fn read_stops_at_a_part_boundary() {
    let mut reader = MultipartReader::new(vec![b"abc".to_vec(), b"de".to_vec()]);
    assert_eq!(reader.read(2), b"ab".to_vec());
    assert_eq!(reader.read(10), b"c".to_vec());
    assert_eq!(reader.read(10), b"de".to_vec());
    assert_eq!(reader.read(10), Vec::<u8>::new());
}

#[test]
fn read_past_the_last_part_is_empty_again_and_again() {
    let mut reader = MultipartReader::new(vec![b"x".to_vec()]);
    assert_eq!(reader.read(1), b"x".to_vec());
    assert!(reader.read(1).is_empty());
    assert!(reader.read(1).is_empty());
    assert!(reader.read(100).is_empty());
}

#[test]
fn read_of_no_bytes_moves_nothing() {
    let mut reader = MultipartReader::new(vec![b"abc".to_vec()]);
    assert!(reader.read(0).is_empty());
    assert_eq!(reader.read(3), b"abc".to_vec());
}

#[test]
fn reader_skips_empty_parts() {
    let mut reader =
        MultipartReader::new(vec![Vec::new(), b"ab".to_vec(), Vec::new(), b"c".to_vec()]);
    assert_eq!(reader.read(5), b"ab".to_vec());
    assert_eq!(reader.read(5), b"c".to_vec());
    assert!(reader.read(5).is_empty());
}

#[test]
fn reader_without_parts_is_at_the_end() {
    let mut reader = MultipartReader::new(Vec::new());
    assert!(reader.read(4).is_empty());
    assert!(read_to_end(&mut reader).is_empty());
}

#[test]
fn read_exact_crosses_parts() {
    let mut reader = MultipartReader::new(vec![b"ab".to_vec(), b"cd".to_vec(), b"ef".to_vec()]);
    assert_eq!(read_exact(&mut reader, 5), Ok(b"abcde".to_vec()));
    assert_eq!(read_exact(&mut reader, 0), Ok(Vec::new()));
    assert_eq!(read_exact(&mut reader, 2), Err(b"f".to_vec()));
    assert_eq!(read_exact(&mut reader, 1), Err(Vec::new()));
}

#[test]
fn vector_takes_every_write_whole() {
    let mut sink: Vec<u8> = vec![1];
    assert_eq!(sink.write(&[2, 3]), 2);
    assert_eq!(sink.write(&[]), 0);
    write_all(&mut sink, &[4]);
    assert_eq!(sink, vec![1, 2, 3, 4]);
}

#[test]
fn memory_reader_reads_front_to_back() {
    let mut reader = MemoryReader::new(vec![1, 2, 3, 4, 5]);
    assert_eq!(reader.read(2), vec![1, 2]);
    assert_eq!(reader.read(0), Vec::<u8>::new());
    assert_eq!(reader.read(9), vec![3, 4, 5]);
    assert_eq!(reader.read(9), Vec::<u8>::new());
    let mut reader = MemoryReader::new(vec![1, 2, 3]);
    assert_eq!(read_exact(&mut reader, 2), Ok(vec![1, 2]));
    assert_eq!(read_to_end(&mut reader), vec![3]);
}
