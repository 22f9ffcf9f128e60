use reparador_videos::bytes::{be32, read_be32, read_be64};
use reparador_videos::mp4::{bx, dinf, ftyp, full, hdlr, matrix, mdhd, mvhd, tkhd};

const MATRIX: [u8; 36] = [
    0, 1, 0, 0, 0, 0, 0, 0, 0, 0, 0, 0, 0, 0, 0, 0, 0, 1, 0, 0, 0, 0, 0, 0, 0, 0, 0, 0, 0, 0, 0, 0,
    0x40, 0, 0, 0,
];

#[test]
fn numbers_are_big_endian() {
    assert_eq!(be32(0x0102_03ff), [1, 2, 3, 0xff]);
}

#[test]
fn numbers_read_back() {
    for v in [0u32, 1, 0x80, 0x1234_5678, u32::MAX] {
        let mut d = vec![7u8, 7];
        d.extend(be32(v));
        d.push(9);
        assert_eq!(read_be32(&d, 2), v);
    }
    assert_eq!(read_be64(&[0, 1, 2, 3, 4, 5, 6, 7, 8], 1), 0x0102_0304_0506_0708);
}

#[test]
fn a_box_has_size_type_and_contents() {
    assert_eq!(bx(b"free", &[]), *b"\0\0\0\x08free");
    assert_eq!(bx(b"abcd", &[b"12", b"", b"345"]), *b"\0\0\0\x0dabcd12345");
}

#[test]
fn a_full_box_has_version_and_flags() {
    assert_eq!(full(b"abcd", 1, 0x0203, &[b"x", b"y"]), *b"\0\0\0\x0eabcd\x01\x00\x02\x03xy");
}

#[test]
fn the_matrix_changes_nothing() {
    assert_eq!(matrix(), MATRIX);
}

#[test]
fn brands() {
    assert_eq!(ftyp(), *b"\0\0\0\x20ftypisom\0\0\x02\0isomiso2avc1mp41");
}

#[test]
fn data_is_in_the_file() {
    assert_eq!(dinf(), *b"\0\0\0\x24dinf\0\0\0\x1cdref\0\0\0\0\0\0\0\x01\0\0\0\x0curl \0\0\0\x01");
}

#[test]
fn a_media_header() {
    assert_eq!(
        mdhd(30000, 5005),
        *b"\0\0\0\x20mdhd\0\0\0\0\0\0\0\0\0\0\0\0\0\0\x75\x30\0\0\x13\x8d\x55\xc4\0\0"
    );
}

#[test]
fn a_handler() {
    assert_eq!(
        hdlr(b"vide", b"v\0"),
        *b"\0\0\0\x22hdlr\0\0\0\0\0\0\0\0vide\0\0\0\0\0\0\0\0\0\0\0\0v\0"
    );
}

#[test]
fn a_movie_header() {
    let mut o: Vec<u8> = b"\0\0\0\x6cmvhd\0\0\0\0\0\0\0\0\0\0\0\0\0\0\x03\xe8\0\0\x04\xd2".to_vec();
    o.extend([0, 1, 0, 0, 1, 0, 0, 0]);
    o.extend([0u8; 8]);
    o.extend(MATRIX);
    o.extend([0u8; 24]);
    o.extend([0, 0, 0, 2]);
    assert_eq!(mvhd(1234), o);
}

#[test]
fn a_track_header() {
    let track = |ms: [u8; 4], volume: u8, size: [u8; 8]| {
        let mut o: Vec<u8> = b"\0\0\0\x5ctkhd\0\0\0\x03\0\0\0\0\0\0\0\0\0\0\0\x01\0\0\0\0".to_vec();
        o.extend(ms);
        o.extend([0u8; 12]);
        o.extend([volume, 0, 0, 0]);
        o.extend(MATRIX);
        o.extend(size);
        o
    };
    assert_eq!(tkhd(1234, 1280, 720, false), track([0, 0, 4, 0xd2], 0, [5, 0, 0, 0, 2, 0xd0, 0, 0]));
    assert_eq!(tkhd(1, 0, 0, true), track([0, 0, 0, 1], 1, [0; 8]));
    assert_eq!(tkhd(0, 0x1_0002, 0, false), track([0; 4], 0, [0, 2, 0, 0, 0, 0, 0, 0]));
}
