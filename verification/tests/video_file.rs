use reparador_videos::bits::BitW;
use reparador_videos::fault::Fault;
use reparador_videos::frames::{scan, Frame};
use reparador_videos::geometry::Found;
use reparador_videos::mdat::find_mdat;
use reparador_videos::nal::escape;
use reparador_videos::order::display_order;
use reparador_videos::probe::Geo;
use reparador_videos::rebuild::assemble;
use reparador_videos::sps::{make_pps, make_sps};
use reparador_videos::video::{write_video_mp4, VideoOut};
use reparador_videos::x264::{Params, X264};

const P: Params =
    Params { profile: 100, num_ref: 4, log2_fn: 4, poc_type: 0, log2_poc: 6, reorder: 2 };

const X: X264 = X264 {
    cabac: true,
    bframes: 3,
    pyramid: 2,
    refs: 3,
    t8x8: true,
    weightp: 2,
    weightb: true,
    cqo: 0,
    constrained: false,
    keyint: 250,
};

/// A slice with an order count, behind its length.
fn slice(hdr: u8, number: u32, count: u32, filler: usize) -> Vec<u8> {
    let mut w = BitW::default();
    w.ue(0);
    w.ue(7);
    w.ue(0);
    w.u(4, number as u64);
    if hdr & 0x1f == 5 {
        w.ue(3);
    }
    w.u(6, count as u64);
    let mut unit = vec![hdr];
    unit.extend(escape(&w.finish()));
    unit.extend(vec![0xaa; filler]);
    let mut o = (unit.len() as u32).to_be_bytes().to_vec();
    o.extend(unit);
    o
}

/// Frames one behind the other, from header byte, frame number and order count.
fn stream(parts: &[(u8, u32, u32)]) -> (Vec<u8>, Vec<Frame>) {
    let mut d = vec![0x21u8; 3];
    let mut frames = Vec::new();
    for (i, (hdr, number, count)) in parts.iter().enumerate() {
        let s = slice(*hdr, *number, *count, i);
        frames.push(Frame { pos: d.len(), len: s.len() - 4, hdr: *hdr });
        d.extend(s);
    }
    (d, frames)
}

/// The contents of the first box of this type in `b`.
fn child<'a>(b: &'a [u8], t: &[u8; 4]) -> &'a [u8] {
    let mut off = 0;
    while off + 8 <= b.len() {
        let size = u32::from_be_bytes([b[off], b[off + 1], b[off + 2], b[off + 3]]) as usize;
        if b[off + 4..off + 8] == *t {
            return &b[off + 8..off + size];
        }
        off += size;
    }
    panic!("no box {t:?}")
}

fn has_child(b: &[u8], t: &[u8; 4]) -> bool {
    let mut off = 0;
    while off + 8 <= b.len() {
        if b[off + 4..off + 8] == *t {
            return true;
        }
        off += u32::from_be_bytes([b[off], b[off + 1], b[off + 2], b[off + 3]]) as usize;
    }
    false
}

fn numbers(b: &[u8]) -> Vec<u32> {
    b.chunks(4).map(|c| u32::from_be_bytes([c[0], c[1], c[2], c[3]])).collect()
}

fn file_of(d: &[u8], head: &[u8], ranges: &[(usize, usize)], moov: &[u8]) -> Vec<u8> {
    let mut o = head.to_vec();
    for (a, b) in ranges {
        o.extend(&d[*a..*b]);
    }
    o.extend(moov);
    o
}

#[test]
fn frames_are_shown_by_their_counts() {
    let (d, frames) =
        stream(&[(0x65, 0, 0), (0x41, 1, 8), (0x41, 2, 4), (0x01, 3, 2), (0x01, 3, 6)]);
    assert_eq!(display_order(&d, &frames, &P), Ok(vec![0, 4, 2, 1, 3]));
}

#[test]
fn groups_stay_apart() {
    let (d, frames) = stream(&[
        (0x65, 0, 0),
        (0x41, 1, 4),
        (0x01, 2, 2),
        (0x65, 0, 0),
        (0x41, 1, 2),
        (0x65, 0, 0),
    ]);
    assert_eq!(display_order(&d, &frames, &P), Ok(vec![0, 2, 1, 3, 4, 5]));
}

#[test]
fn counts_wrap_around() {
    let mut parts = vec![(0x65u8, 0u32, 0u32)];
    for i in 1..60u32 {
        parts.push((0x41, i % 16, (i * 4) % 64));
        parts.push((0x01, (i + 1) % 16, (i * 4 - 2) % 64));
    }
    let (d, frames) = stream(&parts);
    let disp = display_order(&d, &frames, &P).unwrap();
    assert_eq!(disp[0], 0);
    for i in 1..60usize {
        assert_eq!(disp[2 * i - 1], 2 * i);
        assert_eq!(disp[2 * i], 2 * i - 1);
    }
    let mut seen = disp.clone();
    seen.sort();
    assert_eq!(seen, (0..119).collect::<Vec<usize>>());
}

#[test]
fn counts_may_fall_below_the_key_frame() {
    let (d, frames) = stream(&[(0x65, 0, 0), (0x41, 1, 4), (0x01, 2, 62), (0x01, 2, 60)]);
    assert_eq!(display_order(&d, &frames, &P), Ok(vec![2, 3, 1, 0]));
}

#[test]
fn equal_counts_keep_their_order() {
    let (d, frames) = stream(&[(0x65, 0, 0), (0x41, 1, 4), (0x01, 2, 4), (0x01, 2, 2)]);
    assert_eq!(display_order(&d, &frames, &P), Ok(vec![0, 2, 3, 1]));
}

#[test]
fn without_counts_frames_are_shown_as_stored() {
    let p = Params { poc_type: 2, ..P };
    let (d, frames) = stream(&[(0x65, 0, 0), (0x41, 1, 9), (0x41, 2, 4)]);
    assert_eq!(display_order(&d, &frames, &p), Ok(vec![0, 1, 2]));
    assert_eq!(display_order(&d, &[], &P), Ok(vec![]));
}

#[test]
fn a_header_that_ends_early_is_told() {
    let d = [0u8, 0, 0, 2, 0x41, 0x80];
    let frames = [Frame { pos: 0, len: 2, hdr: 0x41 }];
    assert_eq!(display_order(&d, &frames, &P), Err(Fault::NoOrder));
    let v = VideoOut {
        sps: &[0x67, 100, 0, 31],
        pps: &[0x68],
        depth: 8,
        width: 16,
        height: 16,
        fps: (25, 1),
    };
    assert_eq!(write_video_mp4(&d, &frames, &P, &v).err(), Some(Fault::NoOrder));
}

#[test]
fn a_video_file_is_laid_out() {
    let (d, frames) = stream(&[(0x65, 0, 0), (0x41, 1, 6), (0x01, 2, 2), (0x01, 2, 4)]);
    let sps = make_sps(&P, 8, 80, 45, 31, (0, 0), Some((30000, 1001)));
    let pps = make_pps(&X, 23);
    let v = VideoOut {
        sps: &sps,
        pps: &pps,
        depth: 8,
        width: 1280,
        height: 720,
        fps: (30000, 1001),
    };
    let f = write_video_mp4(&d, &frames, &P, &v).unwrap();
    let payload = d.len() - 3;
    let mut head = b"\0\0\0\x20ftypisom\0\0\x02\0isomiso2avc1mp41\0\0\0".to_vec();
    head.push((payload + 8) as u8);
    head.extend(b"mdat");
    assert_eq!(f.head, head);
    let ranges: Vec<(usize, usize)> = frames.iter().map(|f| (f.pos, f.pos + 4 + f.len)).collect();
    assert_eq!(f.ranges, ranges);

    let moov = child(&f.moov, b"moov");
    assert_eq!(numbers(&child(moov, b"mvhd")[4..20]), [0, 0, 1000, 100]);
    let trak = child(moov, b"trak");
    assert_eq!(numbers(&child(trak, b"tkhd")[20..24]), [100]);
    assert_eq!(numbers(&child(trak, b"tkhd")[76..84]), [1280 << 16, 720 << 16]);
    assert_eq!(
        numbers(&child(child(trak, b"edts"), b"elst")[4..20]),
        [1, 100, 1001, 0x10000]
    );
    let mdia = child(trak, b"mdia");
    assert_eq!(numbers(&child(mdia, b"mdhd")[12..20]), [30000, 4 * 1001]);
    assert_eq!(&child(mdia, b"hdlr")[8..12], b"vide");
    let minf = child(mdia, b"minf");
    assert_eq!(child(minf, b"vmhd"), [0, 0, 0, 1, 0, 0, 0, 0, 0, 0, 0, 0]);
    let stbl = child(minf, b"stbl");
    assert_eq!(numbers(child(stbl, b"stts")), [0, 1, 4, 1001]);
    assert_eq!(
        numbers(child(stbl, b"ctts")),
        [0, 3, 1, 1001, 1, 3 * 1001, 2, 0]
    );
    assert_eq!(numbers(child(stbl, b"stss")), [0, 1, 1]);
    assert_eq!(numbers(child(stbl, b"stsc")), [0, 1, 1, 4, 1]);
    let mut sizes = vec![0u32, 0, 4];
    sizes.extend(frames.iter().map(|f| 4 + f.len as u32));
    assert_eq!(numbers(child(stbl, b"stsz")), sizes);
    assert_eq!(numbers(child(stbl, b"stco")), [0, 1, 40]);
    let entry = child(&child(stbl, b"stsd")[8..], b"avc1");
    assert_eq!(entry[24..28], [5, 0, 2, 0xd0]);
    let mut config = vec![1u8, 100, 0, 31, 0xff, 0xe1, 0, sps.len() as u8];
    config.extend(&sps);
    config.extend([1, 0, pps.len() as u8]);
    config.extend(&pps);
    config.extend([0xfd, 0xf8, 0xf8, 0]);
    assert_eq!(child(&entry[78..], b"avcC"), config);
}

#[test]
fn nothing_is_shifted_where_nothing_is_held_back() {
    let p = Params { profile: 66, num_ref: 1, poc_type: 2, ..P };
    let (d, frames) = stream(&[(0x65, 0, 0), (0x41, 1, 0), (0x65, 0, 0)]);
    let v = VideoOut {
        sps: &[0x67, 66, 0, 12],
        pps: &[0x68, 1],
        depth: 8,
        width: 320,
        height: 240,
        fps: (25, 1),
    };
    let f = write_video_mp4(&d, &frames, &p, &v).unwrap();
    let trak = child(child(&f.moov, b"moov"), b"trak");
    let stbl = child(child(child(trak, b"mdia"), b"minf"), b"stbl");
    assert!(!has_child(stbl, b"ctts"));
    assert_eq!(numbers(child(stbl, b"stss")), [0, 2, 1, 3]);
    assert_eq!(numbers(&child(child(trak, b"edts"), b"elst")[8..16]), [120, 0]);
    let entry = child(&child(stbl, b"stsd")[8..], b"avc1");
    assert_eq!(
        child(&entry[78..], b"avcC"),
        [1, 66, 0, 12, 0xff, 0xe1, 0, 4, 0x67, 66, 0, 12, 1, 0, 2, 0x68, 1]
    );
}

#[test]
fn the_index_shows_frames_in_their_order() {
    let (d, frames) = stream(&[
        (0x65, 0, 0),
        (0x41, 1, 8),
        (0x41, 2, 4),
        (0x01, 3, 2),
        (0x01, 3, 6),
        (0x41, 3, 10),
    ]);
    let disp = display_order(&d, &frames, &P).unwrap();
    let sps = make_sps(&P, 8, 80, 45, 31, (0, 0), Some((25, 1)));
    let v = VideoOut { sps: &sps, pps: &[0x68], depth: 8, width: 8, height: 8, fps: (25, 1) };
    let f = write_video_mp4(&d, &frames, &P, &v).unwrap();
    let trak = child(child(&f.moov, b"moov"), b"trak");
    let stbl = child(child(child(trak, b"mdia"), b"minf"), b"stbl");
    let hold = numbers(&child(child(trak, b"edts"), b"elst")[12..16])[0];
    let runs = numbers(&child(stbl, b"ctts")[8..]);
    let mut shifts = Vec::new();
    for r in runs.chunks(2) {
        shifts.extend(vec![r[1]; r[0] as usize]);
    }
    assert_eq!(shifts.len(), frames.len());
    for i in 0..frames.len() {
        assert_eq!((i as u32 + shifts[i] - hold) as usize, disp[i]);
    }
}

#[test]
fn a_stream_that_is_too_long_is_told() {
    let (d, frames) = stream(&[(0x65, 0, 0), (0x41, 1, 2)]);
    let v = VideoOut {
        sps: &[0x67, 66, 0, 12],
        pps: &[],
        depth: 8,
        width: 0,
        height: 0,
        fps: (1, 0x8000_0000),
    };
    assert_eq!(write_video_mp4(&d, &frames, &P, &v).err(), Some(Fault::TooLong));
    assert_eq!(Fault::TooLong.message(), "El video es demasiado largo para su indice.");
    let v = VideoOut { fps: (1, 0x7fff_ffff), ..v };
    assert!(write_video_mp4(&d, &frames, &P, &v).is_ok());
    let (d, frames) = stream(&[(0x65, 0, 0), (0x41, 1, 4), (0x01, 2, 2)]);
    let v = VideoOut { fps: (1, 0x5555_5555), ..v };
    assert!(write_video_mp4(&d, &frames, &P, &v).is_ok());
}

#[test]
fn a_written_file_is_found_again() {
    let (d, frames) = stream(&[(0x65, 0, 0), (0x41, 1, 4), (0x01, 2, 2), (0x41, 2, 8)]);
    let (scanned, gaps) = scan(&d, 0, d.len(), 4, usize::MAX);
    assert_eq!(scanned, frames);
    assert_eq!(gaps, vec![(0, 3)]);
    let sps = make_sps(&P, 8, 80, 45, 31, (0, 0), Some((25, 1)));
    let v = VideoOut { sps: &sps, pps: &[0x68], depth: 8, width: 8, height: 8, fps: (25, 1) };
    let f = write_video_mp4(&d, &frames, &P, &v).unwrap();
    let file = file_of(&d, &f.head, &f.ranges, &f.moov);
    assert_eq!(find_mdat(&file), Some(40));
    let end = 40 + d.len() - 3;
    assert_eq!(&file[end + 4..end + 8], b"moov");
    let (again, gaps) = scan(&file, 40, end, 4, usize::MAX);
    assert!(gaps.is_empty());
    let moved: Vec<Frame> = frames.iter().map(|f| Frame { pos: f.pos + 37, ..*f }).collect();
    assert_eq!(again, moved);
}

#[test]
fn a_find_is_assembled() {
    let (d, frames) = stream(&[(0x65, 0, 0), (0x41, 1, 2)]);
    let found = Found {
        geo: Geo { depth: 8, qp: 23, w_mb: 120, h_mb: 68 },
        params: P,
        roughness: 0,
    };
    let f = assemble(&d, &frames, &X, &found, (0, 8), (30000, 1001)).unwrap();
    let sps = make_sps(&P, 8, 120, 68, 40, (0, 4), Some((30000, 1001)));
    let pps = make_pps(&X, 23);
    let v = VideoOut {
        sps: &sps,
        pps: &pps,
        depth: 8,
        width: 1920,
        height: 1080,
        fps: (30000, 1001),
    };
    let whole = write_video_mp4(&d, &frames, &P, &v).unwrap();
    assert_eq!(f.moov, whole.moov);
    assert_eq!(f.head, whole.head);
    assert_eq!(f.ranges, whole.ranges);
}
