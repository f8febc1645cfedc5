use deflate::codec::decode;
use deflate::codec::encode;
use deflate::zip::build_archive;
use deflate::zip::build_central_header;
use deflate::zip::build_end_record;
use deflate::zip::build_local_header;
use deflate::zip::find_eocd;
use deflate::zip::read_archive;
use deflate::zip::read_u16_le;
use deflate::zip::read_u32_le;
use deflate::zip::ZipError;

#[test]
fn numbers_are_read_low_byte_first() {
    let buffer = [0x50u8, 0x4B, 0x03, 0x04, 0xFF];
    assert_eq!(read_u16_le(&buffer, 0), Ok(0x4B50));
    assert_eq!(read_u16_le(&buffer, 3), Ok(0xFF04));
    assert_eq!(read_u16_le(&buffer, 4), Err(ZipError::Truncated));
    assert_eq!(read_u16_le(&buffer, usize::MAX), Err(ZipError::Truncated));
    assert_eq!(read_u32_le(&buffer, 0), Ok(0x04034B50));
    assert_eq!(read_u32_le(&buffer, 1), Ok(0xFF04034B));
    assert_eq!(read_u32_le(&buffer, 2), Err(ZipError::Truncated));
    assert_eq!(read_u32_le(&[], 0), Err(ZipError::Truncated));
}

#[test]
fn the_last_end_signature_is_found() {
    assert_eq!(find_eocd(&[]), None);
    assert_eq!(find_eocd(&[0x50, 0x4B, 0x05]), None);
    assert_eq!(find_eocd(&[0x50, 0x4B, 0x05, 0x06]), Some(0));
    assert_eq!(find_eocd(&[0, 0x50, 0x4B, 0x05, 0x06, 0]), Some(1));
    assert_eq!(find_eocd(&[0x50, 0x4B, 0x05, 0x06, 0x50, 0x4B, 0x05, 0x06, 9]), Some(4));
    assert_eq!(find_eocd(&[0x50, 0x4B, 0x01, 0x02, 0x50, 0x4B, 0x03, 0x04]), None);
}

#[test]
fn local_header_has_its_fields() {
    let header = build_local_header(b"a.txt", 0x01020304, 0x0A0B0C0D);
    let expected: Vec<u8> = vec![
        0x50, 0x4B, 0x03, 0x04, 20, 0, 0, 0, 8, 0, 0, 0, 0, 0, 0xEF, 0xBE, 0xAD, 0xDE, 0x04, 0x03,
        0x02, 0x01, 0x0D, 0x0C, 0x0B, 0x0A, 5, 0, 0, 0, b'a', b'.', b't', b'x', b't',
    ];
    assert_eq!(header, expected);
}

#[test]
fn central_header_has_its_fields() {
    let header = build_central_header(b"a.txt", 7, 9);
    let expected: Vec<u8> = vec![
        0x50, 0x4B, 0x01, 0x02, 30, 65, 20, 0, 0, 0, 8, 0, 0, 0, 0, 0, 0xEF, 0xBE, 0xAD, 0xDE, 7,
        0, 0, 0, 9, 0, 0, 0, 5, 0, 0, 0, 0, 0, 0, 0, 1, 0, 1, 0, 0, 0, 0, 0, 0, 0, b'a', b'.',
        b't', b'x', b't',
    ];
    assert_eq!(header, expected);
}

#[test]
fn end_record_has_its_fields() {
    let record = build_end_record(51, 42);
    let expected: Vec<u8> =
        vec![0x50, 0x4B, 0x05, 0x06, 0, 0, 0, 0, 1, 0, 1, 0, 51, 0, 0, 0, 42, 0, 0, 0, 0, 0];
    assert_eq!(record, expected);
}

#[test]
fn archive_is_header_data_directory_and_end() {
    let data = b"Hello, World!\n".to_vec();
    let packed = encode(&data);
    let archive = build_archive(b"hello.txt", data.len(), &packed);
    let local = build_local_header(b"hello.txt", packed.len() as u32, 14);
    let central = build_central_header(b"hello.txt", packed.len() as u32, 14);
    let end = build_end_record(central.len() as u32, (local.len() + packed.len()) as u32);
    let mut expected = local.clone();
    expected.extend_from_slice(&packed);
    expected.extend_from_slice(&central);
    expected.extend_from_slice(&end);
    assert_eq!(archive, expected);
}

#[test]
fn archive_is_read_back() {
    let data = b"Hello, World!\n".to_vec();
    let packed = encode(&data);
    let archive = build_archive(b"hello.txt", data.len(), &packed);
    let entry = read_archive(&archive).unwrap();
    assert_eq!(entry.method, 8);
    assert_eq!(entry.file_name, b"hello.txt".to_vec());
    assert_eq!(entry.data, packed);
    assert_eq!(decode(&entry.data), Ok(data));
}

#[test]
fn name_bytes_that_are_not_ascii_become_question_marks() {
    let archive = build_archive(&[b'a', 0xC3, 0xA9, b'z'], 0, &[3, 0]);
    let entry = read_archive(&archive).unwrap();
    assert_eq!(entry.file_name, b"a??z".to_vec());
    assert_eq!(entry.data, vec![3, 0]);
}

#[test]
fn archive_errors() {
    let archive = build_archive(b"n", 1, &[0x4B, 0x04, 0x00]);
    assert_eq!(read_archive(&[]).unwrap_err(), ZipError::Truncated);
    assert_eq!(read_archive(&archive[..3]).unwrap_err(), ZipError::Truncated);
    assert_eq!(read_archive(&archive[..9]).unwrap_err(), ZipError::Truncated);
    assert_eq!(read_archive(&archive[..29]).unwrap_err(), ZipError::Truncated);
    assert_eq!(read_archive(&archive[..30]).unwrap_err(), ZipError::Truncated);
    let mut other = archive.clone();
    other[0] = 0x51;
    assert_eq!(read_archive(&other).unwrap_err(), ZipError::NotAZipFile);
    let mut other = archive.clone();
    other[8] = 9;
    assert_eq!(read_archive(&other).unwrap_err(), ZipError::UnsupportedMethod);
    // without the end record
    let cut = archive.len() - 22;
    assert_eq!(read_archive(&archive[..cut]).unwrap_err(), ZipError::MissingEndRecord);
    // the end record broken off
    assert_eq!(
        read_archive(&archive[..archive.len() - 3]).unwrap_err(),
        ZipError::Truncated
    );
    // the directory before the data, and behind the end of the archive
    let mut other = archive.clone();
    other[cut + 16] = 5;
    assert_eq!(read_archive(&other).unwrap_err(), ZipError::InvalidRange);
    let mut other = archive.clone();
    other[cut + 18] = 1;
    assert_eq!(read_archive(&other).unwrap_err(), ZipError::InvalidRange);
    // a stored entry is read as well
    let mut other = archive.clone();
    other[8] = 0;
    assert_eq!(read_archive(&other).unwrap().method, 0);
}
