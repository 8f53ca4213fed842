//! The raw-subtraction strategy for uncompressed textures, and the gzip
//! pass that shrinks what it produces.
//!
//! A texture file starts with the four bytes `DDS ` and a header that states
//! its own length. Two such files of the same layout hold their pixels at
//! the same offsets, so the byte-wise difference of their pixel regions is
//! mostly zero and compresses well.

use vstd::prelude::*;
use crate::bytes::{append_bytes, copy_range};

verus! {

/// Bytes that one gzip member is made from.
pub const CHUNK_SIZE: usize = 4096;

/// Offset of the pixel-format flags, the last header field that is read.
pub const PIXEL_FLAGS_OFFSET: usize = 80;

/// The least header that reaches past the pixel-format flags.
pub const MIN_HEADER_LEN: usize = 84;

/// The smaller of two lengths.
pub open spec fn shorter(a: int, b: int) -> int {
    if a <= b {
        a
    } else {
        b
    }
}

/// Byte-wise `new - old` modulo 256, as far as both buffers reach.
pub open spec fn sub_bytes(new: Seq<u8>, old: Seq<u8>) -> Seq<u8> {
    Seq::new(
        shorter(new.len() as int, old.len() as int) as nat,
        |i: int| ((new[i] - old[i]) % 256) as u8,
    )
}

/// Byte-wise `base + delta` modulo 256, as far as both buffers reach.
pub open spec fn add_bytes(base: Seq<u8>, delta: Seq<u8>) -> Seq<u8> {
    Seq::new(
        shorter(base.len() as int, delta.len() as int) as nat,
        |i: int| ((base[i] + delta[i]) % 256) as u8,
    )
}

/// Adding back what was subtracted restores the new buffer: for buffers of
/// equal length, `add_bytes(old, sub_bytes(new, old)) == new`. This covers
/// the empty buffers and the buffers of zeros.
pub proof fn lemma_subtract_add_round_trip(old: Seq<u8>, new: Seq<u8>)
    requires
        old.len() == new.len(),
    ensures
        sub_bytes(new, old).len() == new.len(),
        add_bytes(old, sub_bytes(new, old)) == new,
{
    assert(add_bytes(old, sub_bytes(new, old)) =~= new);
}

/// The little-endian number held by the four bytes of `file` from `at` on.
pub open spec fn le32_at(file: Seq<u8>, at: int) -> int {
    file[at] + 256 * file[at + 1] + 65536 * file[at + 2] + 16777216 * file[at + 3]
}

/// The header length of a recognized texture file: the magic `DDS `, then a
/// header whose first field is its own length, which lies within the file
/// and reaches past the pixel-format flags, and whose flags do not announce
/// a compressed pixel format. `None` for any other file.
pub open spec fn texture_header_len(file: Seq<u8>) -> Option<int> {
    if file.len() >= 8 && file[0] == 0x44 && file[1] == 0x44 && file[2] == 0x53 && file[3]
        == 0x20 {
        let len = 4 + le32_at(file, 4);
        if MIN_HEADER_LEN <= len <= file.len() && (file[PIXEL_FLAGS_OFFSET as int] / 4) % 2 == 0 {
            Some(len)
        } else {
            None
        }
    } else {
        None
    }
}

/// Raw subtraction applies to a pair of files when both are recognized
/// textures with headers of one length and pixel regions of one length.
/// A pair that fails this test is left to the generic strategy.
pub open spec fn raw_subtract_applies(old: Seq<u8>, new: Seq<u8>) -> bool {
    &&& texture_header_len(old) is Some
    &&& texture_header_len(new) == texture_header_len(old)
    &&& old.len() == new.len()
}

/// The header length of `file` where it is a recognized texture.
pub fn header_len(file: &[u8]) -> (len: Option<usize>)
    ensures
        match len {
            Some(n) => texture_header_len(file@) == Some(n as int),
            None => texture_header_len(file@) is None,
        },
{
    if file.len() < 8 {
        return None;
    }
    if file[0] != 0x44 || file[1] != 0x44 || file[2] != 0x53 || file[3] != 0x20 {
        return None;
    }
    let len: u64 = 4 + (file[4] as u64) + 256 * (file[5] as u64) + 65536 * (file[6] as u64)
        + 16777216 * (file[7] as u64);
    if len < MIN_HEADER_LEN as u64 || len > file.len() as u64 {
        return None;
    }
    if (file[PIXEL_FLAGS_OFFSET] / 4) % 2 != 0 {
        return None;
    }
    Some(len as usize)
}

/// Parts a texture file into its header and its pixel region. `None` where
/// the file is not a recognized texture.
pub fn read_dds(file: &[u8]) -> (parts: Option<(Vec<u8>, Vec<u8>)>)
    ensures
        match parts {
            Some((header, data)) => {
                &&& texture_header_len(file@) == Some(header@.len() as int)
                &&& header@ == file@.take(header@.len() as int)
                &&& data@ == file@.skip(header@.len() as int)
            },
            None => texture_header_len(file@) is None,
        },
{
    match header_len(file) {
        Some(n) => {
            let header = copy_range(file, 0, n);
            let data = copy_range(file, n, file.len());
            Some((header, data))
        },
        None => None,
    }
}

/// The texture file made of `header` and `data`.
pub fn save_dds(header: &[u8], data: &[u8]) -> (file: Vec<u8>)
    ensures
        file@ == header@ + data@,
{
    let mut file: Vec<u8> = Vec::new();
    append_bytes(&mut file, header);
    append_bytes(&mut file, data);
    file
}

/// The byte-wise difference `image2 - image1` modulo 256, as long as the
/// shorter of the two.
pub fn compute_diff(image1: &[u8], image2: &[u8]) -> (diff: Vec<u8>)
    ensures
        diff@ == sub_bytes(image2@, image1@),
{
    let n = if image1.len() <= image2.len() {
        image1.len()
    } else {
        image2.len()
    };
    let mut diff: Vec<u8> = Vec::new();
    let mut i: usize = 0;
    while i < n
        invariant
            i <= n,
            n == shorter(image2@.len() as int, image1@.len() as int),
            diff@ == sub_bytes(image2@, image1@).take(i as int),
        decreases n - i,
    {
        let b: u8 = ((image2[i] as u16 + 256 - image1[i] as u16) % 256) as u8;
        diff.push(b);
        assert(diff@ =~= sub_bytes(image2@, image1@).take(i + 1));
        i += 1;
    }
    assert(sub_bytes(image2@, image1@).take(n as int) =~= sub_bytes(image2@, image1@));
    diff
}

/// The raw-subtraction delta of a pair of texture files: the header of the
/// new file, kept verbatim, and the difference of the two pixel regions.
/// `None` exactly where raw subtraction does not apply to the pair.
pub fn create_diff(old_file: &[u8], new_file: &[u8]) -> (delta: Option<(Vec<u8>, Vec<u8>)>)
    ensures
        delta is Some <==> raw_subtract_applies(old_file@, new_file@),
        delta matches Some((header, diff)) ==> {
            let h = texture_header_len(new_file@)->0;
            &&& header@ == new_file@.take(h)
            &&& diff@ == sub_bytes(new_file@.skip(h), old_file@.skip(h))
            &&& diff@.len() == new_file@.len() - h
        },
{
    if old_file.len() != new_file.len() {
        return None;
    }
    match (read_dds(old_file), read_dds(new_file)) {
        (Some((old_header, old_data)), Some((new_header, new_data))) => {
            if old_header.len() != new_header.len() {
                return None;
            }
            let diff = compute_diff(old_data.as_slice(), new_data.as_slice());
            Some((new_header, diff))
        },
        _ => None,
    }
}

/// Rebuilds a texture file: `header`, followed by `original_image + diff`
/// modulo 256, as long as the shorter of the two.
pub fn patch_image(header: &[u8], original_image: &[u8], diff: &[u8]) -> (file: Vec<u8>)
    ensures
        file@ == header@ + add_bytes(original_image@, diff@),
{
    let n = if original_image.len() <= diff.len() {
        original_image.len()
    } else {
        diff.len()
    };
    let mut patched: Vec<u8> = Vec::new();
    let mut i: usize = 0;
    while i < n
        invariant
            i <= n,
            n == shorter(original_image@.len() as int, diff@.len() as int),
            patched@ == add_bytes(original_image@, diff@).take(i as int),
        decreases n - i,
    {
        let b: u8 = ((original_image[i] as u16 + diff[i] as u16) % 256) as u8;
        patched.push(b);
        assert(patched@ =~= add_bytes(original_image@, diff@).take(i + 1));
        i += 1;
    }
    assert(add_bytes(original_image@, diff@).take(n as int) =~= add_bytes(
        original_image@,
        diff@,
    ));
    save_dds(header, patched.as_slice())
}

/// The gzip member that the compressor makes of one chunk at its default
/// level.
pub uninterp spec fn gzip_of(chunk: Seq<u8>) -> Seq<u8>;

/// What the decompressor reads out of a stream of gzip members, `None`
/// where it rejects the stream.
pub uninterp spec fn gunzip_of(stream: Seq<u8>) -> Option<Seq<u8>>;

/// `flate2::write::GzEncoder` at the default level, fed `chunk` and
/// finished: one gzip member. The member depends on the chunk alone; the
/// header that the encoder writes holds no time stamp and no file name.
#[verifier::external_body]
fn gzip_chunk(chunk: &[u8]) -> (member: Vec<u8>)
    ensures
        member@ == gzip_of(chunk@),
{
    let mut encoder = flate2::write::GzEncoder::new(Vec::new(), flate2::Compression::default());
    let _ = std::io::Write::write_all(&mut encoder, chunk);
    encoder.finish().unwrap_or_default()
}

/// `flate2::read::MultiGzDecoder`, read to its end: the bytes of all the
/// members of `stream`, or `None` where the decoder reports an error.
#[verifier::external_body]
fn gunzip_stream(stream: &[u8]) -> (data: Option<Vec<u8>>)
    ensures
        match data {
            Some(d) => gunzip_of(stream@) == Some(d@),
            None => gunzip_of(stream@) is None,
        },
{
    let mut out: Vec<u8> = Vec::new();
    match std::io::Read::read_to_end(&mut flate2::read::MultiGzDecoder::new(stream), &mut out) {
        Ok(_) => Some(out),
        Err(_) => None,
    }
}

/// The gzip members of the chunks of `data`, one after the other: every
/// chunk holds [`CHUNK_SIZE`] bytes but the last, which holds the rest.
pub open spec fn gzip_chunks(data: Seq<u8>) -> Seq<u8>
    decreases data.len(),
{
    if data.len() == 0 {
        Seq::empty()
    } else if data.len() <= CHUNK_SIZE {
        gzip_of(data)
    } else {
        gzip_of(data.take(CHUNK_SIZE as int)) + gzip_chunks(data.skip(CHUNK_SIZE as int))
    }
}

/// Compresses `diff` for storage: the buffer is cut into chunks of
/// [`CHUNK_SIZE`] bytes, each chunk becomes one gzip member, and the
/// members follow each other in the order of the chunks. An empty buffer
/// gives an empty stream.
pub fn save_diff(diff: &[u8]) -> (stream: Vec<u8>)
    ensures
        stream@ == gzip_chunks(diff@),
{
    let mut stream: Vec<u8> = Vec::new();
    let mut at: usize = 0;
    assert(diff@.skip(0) =~= diff@);
    while diff.len() - at > CHUNK_SIZE
        invariant
            at <= diff.len(),
            gzip_chunks(diff@) == stream@ + gzip_chunks(diff@.skip(at as int)),
        decreases diff.len() - at,
    {
        let ghost rest = diff@.skip(at as int);
        let chunk = vstd::slice::slice_subrange(diff, at, at + CHUNK_SIZE);
        let member = gzip_chunk(chunk);
        assert(chunk@ =~= rest.take(CHUNK_SIZE as int));
        assert(rest.skip(CHUNK_SIZE as int) =~= diff@.skip(at + CHUNK_SIZE));
        let ghost before = stream@;
        append_bytes(&mut stream, member.as_slice());
        assert(stream@ + gzip_chunks(rest.skip(CHUNK_SIZE as int)) =~= before + gzip_chunks(rest));
        at += CHUNK_SIZE;
    }
    if at < diff.len() {
        let chunk = vstd::slice::slice_subrange(diff, at, diff.len());
        assert(chunk@ =~= diff@.skip(at as int));
        let member = gzip_chunk(chunk);
        append_bytes(&mut stream, member.as_slice());
    }
    stream
}

/// What a stream that [`save_diff`] wrote is read as: nothing for the
/// empty stream, which holds no member, and for any other stream what the
/// decompressor makes of it.
pub open spec fn unpacked(stream: Seq<u8>) -> Option<Seq<u8>> {
    if stream.len() == 0 {
        Some(Seq::empty())
    } else {
        gunzip_of(stream)
    }
}

/// The stream of an empty buffer is empty, and is read back as an empty
/// buffer.
pub proof fn lemma_nothing_round_trip()
    ensures
        gzip_chunks(Seq::<u8>::empty()) == Seq::<u8>::empty(),
        unpacked(gzip_chunks(Seq::<u8>::empty())) == Some(Seq::<u8>::empty()),
{
}

/// Reads a stream of gzip members back. The empty stream gives the empty
/// buffer; any other stream is handed to the decompressor, and is `None`
/// where the decompressor rejects it.
pub fn load_diff(stream: &[u8]) -> (diff: Option<Vec<u8>>)
    ensures
        match diff {
            Some(d) => unpacked(stream@) == Some(d@),
            None => unpacked(stream@) is None,
        },
{
    if stream.len() == 0 {
        return Some(Vec::new());
    }
    gunzip_stream(stream)
}

} // verus!
