//! The ZIP container around one compressed file: the records of an archive
//! with a single entry, and the reading of such an archive.

use vstd::prelude::*;

verus! {

/// Why an archive cannot be read.
#[derive(Clone, Copy, Debug, PartialEq, Eq, Structural)]
pub enum ZipError {
    /// The archive ends within a field.
    Truncated,
    /// The archive does not start with the signature of a local file header.
    NotAZipFile,
    /// The entry is neither stored nor deflated.
    UnsupportedMethod,
    /// The archive holds no end of central directory record.
    MissingEndRecord,
    /// The entry's data does not lie between the local file header and the
    /// central directory.
    InvalidRange,
}

/// The single entry of an archive.
#[derive(Debug)]
pub struct ZipEntry {
    /// The compression method: 0 for stored, 8 for deflated.
    pub method: u16,
    /// The file name, each byte that is not ASCII replaced by `?`.
    pub file_name: Vec<u8>,
    /// The entry's data as the archive holds it.
    pub data: Vec<u8>,
}

/// The signature of a local file header.
pub open spec fn local_signature() -> Seq<u8> {
    seq![0x50u8, 0x4Bu8, 0x03u8, 0x04u8]
}

/// The signature of a central directory header.
pub open spec fn central_signature() -> Seq<u8> {
    seq![0x50u8, 0x4Bu8, 0x01u8, 0x02u8]
}

/// The signature of the end of central directory record.
pub open spec fn end_signature() -> Seq<u8> {
    seq![0x50u8, 0x4Bu8, 0x05u8, 0x06u8]
}

/// The two bytes of `v`, the low byte first.
pub open spec fn le16(v: u16) -> Seq<u8> {
    seq![(v % 256) as u8, (v / 256) as u8]
}

/// The four bytes of `v`, the lowest byte first.
pub open spec fn le32(v: u32) -> Seq<u8> {
    seq![
        (v % 256) as u8,
        (v / 256 % 256) as u8,
        (v / 65536 % 256) as u8,
        (v / 16777216) as u8,
    ]
}

/// The number that the two bytes at `p` hold, the low byte first.
pub open spec fn le16_at(buffer: Seq<u8>, p: int) -> int {
    buffer[p] as int + 256 * (buffer[p + 1] as int)
}

/// The number that the four bytes at `p` hold, the lowest byte first.
pub open spec fn le32_at(buffer: Seq<u8>, p: int) -> int {
    buffer[p] as int + 256 * (buffer[p + 1] as int) + 65536 * (buffer[p + 2] as int) + 16777216 * (
    buffer[p + 3] as int)
}

/// The end of central directory signature stands at `p`.
pub open spec fn end_signature_at(buffer: Seq<u8>, p: int) -> bool {
    0 <= p && p + 4 <= buffer.len() && buffer[p] == 0x50 && buffer[p + 1] == 0x4B && buffer[p + 2]
        == 0x05 && buffer[p + 3] == 0x06
}

/// A file name as it is handed out: each byte that is not ASCII is `?`.
pub open spec fn clean_name(name: Seq<u8>) -> Seq<u8> {
    Seq::new(
        name.len(),
        |k: int|
            if name[k] < 128 {
                name[k]
            } else {
                63u8
            },
    )
}

/// The local file header of a deflated entry.
#[verifier::opaque]
pub open spec fn local_header(name: Seq<u8>, compressed_size: u32, uncompressed_size: u32) -> Seq<
    u8,
> {
    local_signature() + le16(20) + le16(0) + le16(8) + le16(0) + le16(0) + le32(0xdeadbeef) + le32(
        compressed_size,
    ) + le32(uncompressed_size) + le16(name.len() as u16) + le16(0) + name
}

/// The central directory header of a deflated entry whose local file header
/// stands at offset 0.
#[verifier::opaque]
pub open spec fn central_header(name: Seq<u8>, compressed_size: u32, uncompressed_size: u32) -> Seq<
    u8,
> {
    central_signature() + seq![30u8, 65u8] + le16(20) + le16(0) + le16(8) + le16(0) + le16(0)
        + le32(0xdeadbeef) + le32(compressed_size) + le32(uncompressed_size) + le16(
        name.len() as u16,
    ) + le16(0) + le16(0) + le16(0) + le16(1) + le32(1) + le32(0) + name
}

/// The end of central directory record of an archive with one entry.
#[verifier::opaque]
pub open spec fn end_record(directory_size: u32, directory_offset: u32) -> Seq<u8> {
    end_signature() + le16(0) + le16(0) + le16(1) + le16(1) + le32(directory_size) + le32(
        directory_offset,
    ) + le16(0)
}

/// The archive with the single deflated entry `name`, whose data is
/// `compressed` and was `uncompressed_len` bytes long before compression.
/// Sizes and offsets are held modulo `2^32`, the length of the name modulo
/// `2^16`.
pub open spec fn archive(name: Seq<u8>, uncompressed_len: nat, compressed: Seq<u8>) -> Seq<u8> {
    let compressed_size = compressed.len() as u32;
    let uncompressed_size = uncompressed_len as u32;
    let local = local_header(name, compressed_size, uncompressed_size);
    let central = central_header(name, compressed_size, uncompressed_size);
    local + compressed + central + end_record(
        central.len() as u32,
        (local.len() as u32 + compressed_size) as u32,
    )
}

/// What an archive holds: the method, the name and the data of its entry, or
/// the error that reading it fails with.
pub open spec fn archive_entry(buffer: Seq<u8>) -> Result<(u16, Seq<u8>, Seq<u8>), ZipError> {
    if buffer.len() < 4 {
        Err(ZipError::Truncated)
    } else if le32_at(buffer, 0) != 0x04034b50 {
        Err(ZipError::NotAZipFile)
    } else if buffer.len() < 10 {
        Err(ZipError::Truncated)
    } else if le16_at(buffer, 8) != 0 && le16_at(buffer, 8) != 8 {
        Err(ZipError::UnsupportedMethod)
    } else if buffer.len() < 30 || buffer.len() < 30 + le16_at(buffer, 26) {
        Err(ZipError::Truncated)
    } else if !exists|p: int| end_signature_at(buffer, p) {
        Err(ZipError::MissingEndRecord)
    } else {
        let name_len = le16_at(buffer, 26);
        let start = 30 + name_len + le16_at(buffer, 28);
        let end = last_end_signature(buffer);
        if buffer.len() < end + 20 {
            Err(ZipError::Truncated)
        } else {
            let directory = le32_at(buffer, end + 16);
            if start > directory || directory > buffer.len() {
                Err(ZipError::InvalidRange)
            } else {
                Ok(
                    (
                        le16_at(buffer, 8) as u16,
                        clean_name(buffer.subrange(30, 30 + name_len)),
                        buffer.subrange(start, directory),
                    ),
                )
            }
        }
    }
}

/// The last position at which the end of central directory signature stands.
pub open spec fn last_end_signature(buffer: Seq<u8>) -> int {
    choose|p: int| is_last_end_signature(buffer, p)
}

/// The end of central directory signature stands at `p` and nowhere behind it.
pub open spec fn is_last_end_signature(buffer: Seq<u8>, p: int) -> bool {
    end_signature_at(buffer, p) && forall|q: int| p < q ==> !end_signature_at(buffer, q)
}

/// The two bytes at `position` as a number, the low byte first, or
/// `Truncated` where the buffer ends before them.
pub fn read_u16_le(buffer: &[u8], position: usize) -> (r: Result<u16, ZipError>)
    ensures
        position + 2 <= buffer@.len() ==> r == Ok::<u16, ZipError>(
            le16_at(buffer@, position as int) as u16,
        ),
        position + 2 > buffer@.len() ==> r == Err::<u16, ZipError>(ZipError::Truncated),
{
    if buffer.len() < 2 || position > buffer.len() - 2 {
        return Err(ZipError::Truncated);
    }
    Ok(buffer[position] as u16 + 256 * (buffer[position + 1] as u16))
}

/// The four bytes at `position` as a number, the lowest byte first, or
/// `Truncated` where the buffer ends before them.
pub fn read_u32_le(buffer: &[u8], position: usize) -> (r: Result<u32, ZipError>)
    ensures
        position + 4 <= buffer@.len() ==> r == Ok::<u32, ZipError>(
            le32_at(buffer@, position as int) as u32,
        ),
        position + 4 > buffer@.len() ==> r == Err::<u32, ZipError>(ZipError::Truncated),
{
    if buffer.len() < 4 || position > buffer.len() - 4 {
        return Err(ZipError::Truncated);
    }
    Ok(
        buffer[position] as u32 + 256 * (buffer[position + 1] as u32) + 65536 * (buffer[position
            + 2] as u32) + 16777216 * (buffer[position + 3] as u32),
    )
}

/// The last position at which the end of central directory signature
/// stands, or `None` where it stands nowhere.
pub fn find_eocd(buffer: &[u8]) -> (r: Option<usize>)
    ensures
        match r {
            Some(p) => is_last_end_signature(buffer@, p as int),
            None => forall|q: int| !end_signature_at(buffer@, q),
        },
{
    if buffer.len() < 4 {
        return None;
    }
    let mut p: usize = buffer.len() - 3;
    while p > 0
        invariant
            p <= buffer@.len() - 3,
            buffer@.len() >= 4,
            forall|q: int| p <= q ==> !end_signature_at(buffer@, q),
        decreases p,
    {
        p = p - 1;
        if buffer[p] == 0x50 && buffer[p + 1] == 0x4B && buffer[p + 2] == 0x05 && buffer[p + 3]
            == 0x06 {
            return Some(p);
        }
    }
    None
}

/// Reads an archive: it checks the local file header at the start, finds the
/// end of central directory record from the end, and takes the entry's data
/// from behind the local file header up to where the central directory starts.
pub fn read_archive(buffer: &[u8]) -> (r: Result<ZipEntry, ZipError>)
    ensures
        match archive_entry(buffer@) {
            Ok((method, name, data)) => r is Ok && r->Ok_0.method == method && r->Ok_0.file_name@
                == name && r->Ok_0.data@ == data,
            Err(e) => r is Err && r->Err_0 == e,
        },
{
    let signature = read_u32_le(buffer, 0)?;
    if signature != 0x04034b50 {
        return Err(ZipError::NotAZipFile);
    }
    let method = read_u16_le(buffer, 8)?;
    if method != 0 && method != 8 {
        return Err(ZipError::UnsupportedMethod);
    }
    let name_len = read_u16_le(buffer, 26)? as usize;
    let extra_len = read_u16_le(buffer, 28)? as usize;
    if buffer.len() - 30 < name_len {
        return Err(ZipError::Truncated);
    }
    let mut file_name: Vec<u8> = Vec::new();
    let mut k: usize = 0;
    while k < name_len
        invariant
            k <= name_len,
            30 + name_len <= buffer@.len() <= usize::MAX,
            file_name@ == clean_name(buffer@.subrange(30, 30 + name_len)).take(k as int),
        decreases name_len - k,
    {
        let byte = buffer[30 + k];
        file_name.push(
            if byte < 128 {
                byte
            } else {
                63
            },
        );
        k = k + 1;
        assert(file_name@ =~= clean_name(buffer@.subrange(30, 30 + name_len)).take(k as int));
    }
    assert(file_name@ =~= clean_name(buffer@.subrange(30, 30 + name_len)));
    let start: usize = 30 + name_len + extra_len;
    let end = match find_eocd(buffer) {
        Some(end) => end,
        None => {
            return Err(ZipError::MissingEndRecord);
        },
    };
    proof {
        assert(is_last_end_signature(buffer@, end as int));
        let chosen = last_end_signature(buffer@);
        assert(is_last_end_signature(buffer@, chosen));
        assert(chosen == end);
    }
    if buffer.len() - end < 20 {
        return Err(ZipError::Truncated);
    }
    let directory = read_u32_le(buffer, end + 16)? as usize;
    if start > directory || directory > buffer.len() {
        return Err(ZipError::InvalidRange);
    }
    let mut data: Vec<u8> = Vec::new();
    let mut k: usize = start;
    while k < directory
        invariant
            start <= k <= directory <= buffer@.len(),
            data@ == buffer@.subrange(start as int, k as int),
        decreases directory - k,
    {
        data.push(buffer[k]);
        k = k + 1;
        assert(data@ =~= buffer@.subrange(start as int, k as int));
    }
    Ok(ZipEntry { method, file_name, data })
}

/// Appends the two bytes of `v`, the low byte first.
fn push_u16_le(out: &mut Vec<u8>, v: u16)
    ensures
        final(out)@ == old(out)@ + le16(v),
{
    out.push((v % 256) as u8);
    out.push((v / 256) as u8);
    assert(out@ =~= old(out)@ + le16(v));
}

/// Appends the four bytes of `v`, the lowest byte first.
fn push_u32_le(out: &mut Vec<u8>, v: u32)
    ensures
        final(out)@ == old(out)@ + le32(v),
{
    out.push((v % 256) as u8);
    out.push((v / 256 % 256) as u8);
    out.push((v / 65536 % 256) as u8);
    out.push((v / 16777216) as u8);
    assert(out@ =~= old(out)@ + le32(v));
}

/// Appends the bytes of `bytes`.
fn push_all(out: &mut Vec<u8>, bytes: &[u8])
    ensures
        final(out)@ == old(out)@ + bytes@,
{
    let mut k: usize = 0;
    while k < bytes.len()
        invariant
            k <= bytes@.len(),
            out@ == old(out)@ + bytes@.take(k as int),
        decreases bytes.len() - k,
    {
        out.push(bytes[k]);
        k = k + 1;
        assert(out@ =~= old(out)@ + bytes@.take(k as int));
    }
    assert(bytes@.take(bytes@.len() as int) =~= bytes@);
}

/// The local file header of a deflated entry.
pub fn build_local_header(file_name: &[u8], compressed_size: u32, uncompressed_size: u32) -> (out:
    Vec<u8>)
    ensures
        out@ == local_header(file_name@, compressed_size, uncompressed_size),
{
    reveal(local_header);
    let mut out: Vec<u8> = Vec::new();
    out.push(0x50);
    out.push(0x4B);
    out.push(0x03);
    out.push(0x04);
    assert(out@ =~= local_signature());
    push_u16_le(&mut out, 20);
    push_u16_le(&mut out, 0);
    push_u16_le(&mut out, 8);
    push_u16_le(&mut out, 0);
    push_u16_le(&mut out, 0);
    push_u32_le(&mut out, 0xdeadbeef);
    push_u32_le(&mut out, compressed_size);
    push_u32_le(&mut out, uncompressed_size);
    push_u16_le(&mut out, #[verifier::truncate] (file_name.len() as u16));
    push_u16_le(&mut out, 0);
    push_all(&mut out, file_name);
    out
}

/// The central directory header of a deflated entry whose local file header
/// stands at offset 0.
pub fn build_central_header(file_name: &[u8], compressed_size: u32, uncompressed_size: u32) -> (out:
    Vec<u8>)
    ensures
        out@ == central_header(file_name@, compressed_size, uncompressed_size),
{
    reveal(central_header);
    let mut out: Vec<u8> = Vec::new();
    out.push(0x50);
    out.push(0x4B);
    out.push(0x01);
    out.push(0x02);
    assert(out@ =~= central_signature());
    out.push(30);
    out.push(65);
    assert(out@ =~= central_signature() + seq![30u8, 65u8]);
    push_u16_le(&mut out, 20);
    push_u16_le(&mut out, 0);
    push_u16_le(&mut out, 8);
    push_u16_le(&mut out, 0);
    push_u16_le(&mut out, 0);
    push_u32_le(&mut out, 0xdeadbeef);
    push_u32_le(&mut out, compressed_size);
    push_u32_le(&mut out, uncompressed_size);
    push_u16_le(&mut out, #[verifier::truncate] (file_name.len() as u16));
    push_u16_le(&mut out, 0);
    push_u16_le(&mut out, 0);
    push_u16_le(&mut out, 0);
    push_u16_le(&mut out, 1);
    push_u32_le(&mut out, 1);
    push_u32_le(&mut out, 0);
    push_all(&mut out, file_name);
    out
}

/// The end of central directory record of an archive with one entry.
pub fn build_end_record(directory_size: u32, directory_offset: u32) -> (out: Vec<u8>)
    ensures
        out@ == end_record(directory_size, directory_offset),
{
    reveal(end_record);
    let mut out: Vec<u8> = Vec::new();
    out.push(0x50);
    out.push(0x4B);
    out.push(0x05);
    out.push(0x06);
    assert(out@ =~= end_signature());
    push_u16_le(&mut out, 0);
    push_u16_le(&mut out, 0);
    push_u16_le(&mut out, 1);
    push_u16_le(&mut out, 1);
    push_u32_le(&mut out, directory_size);
    push_u32_le(&mut out, directory_offset);
    push_u16_le(&mut out, 0);
    out
}

/// The archive with the single deflated entry `file_name`, whose data is
/// `compressed` and was `uncompressed_len` bytes long before compression.
pub fn build_archive(file_name: &[u8], uncompressed_len: usize, compressed: &[u8]) -> (out: Vec<u8>)
    ensures
        out@ == archive(file_name@, uncompressed_len as nat, compressed@),
{
    let compressed_size: u32 = #[verifier::truncate] (compressed.len() as u32);
    let uncompressed_size: u32 = #[verifier::truncate] (uncompressed_len as u32);
    let mut out = build_local_header(file_name, compressed_size, uncompressed_size);
    let local_len: u32 = #[verifier::truncate] (out.len() as u32);
    let central = build_central_header(file_name, compressed_size, uncompressed_size);
    let central_len: u32 = #[verifier::truncate] (central.len() as u32);
    let offset: u32 = #[verifier::truncate] ((local_len as u64 + compressed_size as u64) as u32);
    let end = build_end_record(central_len, offset);
    push_all(&mut out, compressed);
    push_all(&mut out, central.as_slice());
    push_all(&mut out, end.as_slice());
    out
}

} // verus!
