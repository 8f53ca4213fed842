use std::io::Write;

use asset_delta::dds_differ::{
    compute_diff, create_diff, header_len, load_diff, patch_image, read_dds, save_dds, save_diff,
};

fn sample(len: usize, seed: u32) -> Vec<u8> {
    let mut state = seed;
    (0..len)
        .map(|_| {
            state = state.wrapping_mul(1664525).wrapping_add(1013904223);
            (state >> 24) as u8
        })
        .collect()
}

fn texture(header_size: u32, flags: u8, pixels: &[u8]) -> Vec<u8> {
    let mut file = b"DDS ".to_vec();
    file.extend_from_slice(&header_size.to_le_bytes());
    file.resize(4 + header_size as usize, 0);
    file[80] = flags;
    file.extend_from_slice(pixels);
    file
}

#[test]
fn difference_is_taken_modulo_256() {
    assert_eq!(compute_diff(&[10, 250, 0], &[12, 4, 255]), vec![2, 10, 255]);
}

#[test]
fn difference_is_as_long_as_the_shorter_buffer() {
    assert_eq!(compute_diff(&[1, 2, 3], &[5]), vec![4]);
    assert_eq!(compute_diff(&[1], &[5, 6, 7]), vec![4]);
}

#[test]
fn adding_back_restores_the_new_buffer() {
    let b1 = sample(5_000, 11);
    let b2 = sample(5_000, 12);
    let diff = compute_diff(&b1, &b2);
    assert_eq!(patch_image(&[], &b1, &diff), b2);
}

#[test]
fn round_trip_of_empty_buffers() {
    let diff = compute_diff(&[], &[]);
    assert!(diff.is_empty());
    assert!(patch_image(&[], &[], &diff).is_empty());
}

#[test]
fn round_trip_of_zero_buffers() {
    let zeros = vec![0u8; 64];
    let diff = compute_diff(&zeros, &zeros);
    assert_eq!(diff, zeros);
    assert_eq!(patch_image(&[], &zeros, &diff), zeros);
}

#[test]
fn equal_buffers_differ_by_zeros() {
    let b = sample(300, 5);
    assert_eq!(compute_diff(&b, &b), vec![0u8; 300]);
}

#[test]
fn patched_image_follows_the_header() {
    assert_eq!(patch_image(&[9, 9], &[250, 1], &[10, 1]), vec![9, 9, 4, 2]);
}

#[test]
fn header_length_is_read_from_the_file() {
    assert_eq!(header_len(&texture(124, 0x40, &[1, 2, 3])), Some(128));
    assert_eq!(header_len(&texture(144, 0x40, &[1, 2, 3])), Some(148));
}

#[test]
fn files_that_are_no_textures_have_no_header() {
    assert_eq!(header_len(b""), None);
    assert_eq!(header_len(b"DDS "), None);
    assert_eq!(header_len(b"plain text, long enough to hold a header of any kind ......................................................................"), None);
    let mut wrong_magic = texture(124, 0x40, &[1]);
    wrong_magic[0] = b'X';
    assert_eq!(header_len(&wrong_magic), None);
}

#[test]
fn a_header_that_leaves_the_file_is_refused() {
    let mut file = texture(124, 0x40, &[]);
    file.truncate(100);
    assert_eq!(header_len(&file), None);
}

#[test]
fn a_header_too_short_for_the_pixel_flags_is_refused() {
    let mut file = b"DDS ".to_vec();
    file.extend_from_slice(&60u32.to_le_bytes());
    file.resize(200, 0);
    assert_eq!(header_len(&file), None);
}

#[test]
fn a_compressed_texture_is_not_recognized() {
    assert_eq!(header_len(&texture(124, 0x04, &[1, 2, 3])), None);
}

#[test]
fn a_texture_parts_into_header_and_pixels() {
    let file = texture(124, 0x40, &[7, 8, 9]);
    let (header, data) = read_dds(&file).unwrap();
    assert_eq!(header, file[..128].to_vec());
    assert_eq!(data, vec![7, 8, 9]);
    assert_eq!(save_dds(&header, &data), file);
    assert_eq!(read_dds(b"nothing"), None);
}

#[test]
fn raw_delta_of_two_textures_of_one_layout() {
    let old = texture(124, 0x40, &[10, 20, 30, 40]);
    let mut new = texture(124, 0x41, &[11, 20, 29, 40]);
    new[12] = 3;
    let (header, diff) = create_diff(&old, &new).unwrap();
    assert_eq!(header, new[..128].to_vec());
    assert_eq!(diff, vec![1, 0, 255, 0]);
    assert_eq!(patch_image(&header, &old[128..], &diff), new);
}

#[test]
fn raw_delta_needs_equal_header_lengths() {
    let old = texture(124, 0x40, &[0; 40]);
    let new = texture(144, 0x40, &[0; 20]);
    assert_eq!(old.len(), new.len());
    assert_eq!(create_diff(&old, &new), None);
}

#[test]
fn raw_delta_needs_equal_pixel_lengths() {
    let old = texture(124, 0x40, &[0; 40]);
    let new = texture(124, 0x40, &[0; 44]);
    assert_eq!(create_diff(&old, &new), None);
}

#[test]
fn raw_delta_needs_two_textures() {
    let old = texture(124, 0x40, &[0; 40]);
    let new = vec![1u8; old.len()];
    assert_eq!(create_diff(&old, &new), None);
    assert_eq!(create_diff(&new, &old), None);
}

#[test]
fn compressed_stream_is_made_of_gzip_members() {
    let data = sample(10_000, 21);
    let stream = save_diff(&data);
    assert_eq!(&stream[..2], &[0x1f, 0x8b]);
    assert_ne!(stream, data);
    let members = stream.windows(3).filter(|w| *w == [0x1f, 0x8b, 0x08]).count();
    assert!(members >= 3);
}

#[test]
fn compressed_stream_reads_back() {
    for len in [0usize, 1, 4_095, 4_096, 4_097, 8_192, 10_000] {
        let data = sample(len, len as u32);
        assert_eq!(load_diff(&save_diff(&data)), Some(data));
    }
}

#[test]
fn zeros_compress_well() {
    let stream = save_diff(&vec![0u8; 40_960]);
    assert!(stream.len() < 1_000);
}

#[test]
fn nothing_compresses_to_nothing() {
    assert!(save_diff(&[]).is_empty());
}

#[test]
fn nothing_reads_back_as_nothing() {
    assert_eq!(load_diff(&save_diff(&[])), Some(Vec::new()));
    assert_eq!(load_diff(&[]), Some(Vec::new()));
}

#[test]
fn a_stream_that_is_no_gzip_is_refused() {
    assert_eq!(load_diff(b"certainly not gzip"), None);
}

#[test]
fn one_chunk_is_one_member_of_the_encoder() {
    let data = sample(100, 3);
    let mut encoder = flate2::write::GzEncoder::new(Vec::new(), flate2::Compression::default());
    encoder.write_all(&data).unwrap();
    assert_eq!(save_diff(&data), encoder.finish().unwrap());
}
