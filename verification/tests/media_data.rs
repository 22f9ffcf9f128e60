use reparador_videos::bits::BitW;
use reparador_videos::fault::Fault;
use reparador_videos::frames::{annexb, frame_num, scan, video_at, Frame};
use reparador_videos::mdat::{find_mdat, find_x264_sei};
use reparador_videos::nal::escape;
use reparador_videos::options::parse_x264;
use reparador_videos::rebuild::{locate, split_stream, user_data, Located};

fn whole(t: &str) -> Option<i64> {
    t.parse::<f64>().ok().map(|v| v as i64)
}

/// A slice behind its length. `hdr` is its header byte.
fn slice(hdr: u8, number: u32, filler: usize) -> Vec<u8> {
    let mut w = BitW::default();
    w.ue(0);
    w.ue(7);
    w.ue(0);
    w.u(4, number as u64);
    if hdr & 0x1f == 5 {
        w.ue(0);
    }
    w.u(6, 0);
    let mut unit = vec![hdr];
    unit.extend(escape(&w.finish()));
    unit.extend(vec![0xaa; filler]);
    let mut o = (unit.len() as u32).to_be_bytes().to_vec();
    o.extend(unit);
    o
}

/// User data that x264 signs, behind its length.
fn sei() -> Vec<u8> {
    let mut unit = vec![0x06, 0x05, 0x40];
    unit.extend(b"x264 - core 164 - options: cabac=1 ref=3 bframes=3 b_pyramid=2 keyint=250\0");
    unit.push(0x80);
    let mut o = (unit.len() as u32).to_be_bytes().to_vec();
    o.extend(unit);
    o
}

#[test]
fn media_data_is_found() {
    assert_eq!(find_mdat(b"\0\0\0\x08free\0\0\0\0mdatxx"), Some(16));
    assert_eq!(find_mdat(b"\0\0\0\x00mdat"), Some(8));
    assert_eq!(find_mdat(b"\0\0\0\x01mdat\0\0\0\0\0\0\0\x20zz"), Some(16));
    assert_eq!(find_mdat(b"\0\0\0\x01free\0\0\0\0\0\0\0\x10\0\0\0\x09mdat!"), Some(24));
}

#[test]
fn media_data_may_be_missing() {
    assert_eq!(find_mdat(b""), None);
    assert_eq!(find_mdat(b"\0\0\0\x08free"), None);
    assert_eq!(find_mdat(b"\0\0\0\x04free\0\0\0\x08mdat"), None);
    assert_eq!(find_mdat(b"\0\0\0\x00free\0\0\0\x08mdat"), None);
    assert_eq!(find_mdat(b"\0\0\0\x01mdat\0\0\0\0"), None);
    assert_eq!(find_mdat(b"\0\0\x10\0free\0\0\0\x08mdat"), None);
    assert_eq!(find_mdat(b"\0\0\0\x01free\xff\xff\xff\xff\xff\xff\xff\xff"), None);
}

#[test]
fn user_data_is_found_behind_audio() {
    let mut d = vec![0x21u8; 37];
    let s = sei();
    d.extend(&s);
    d.extend([1, 2, 3]);
    assert_eq!(find_x264_sei(&d, 0, d.len()), Some((37, s.len() - 4)));
    assert_eq!(find_x264_sei(&d, 37, d.len()), Some((37, s.len() - 4)));
    assert_eq!(find_x264_sei(&d, 38, d.len()), None);
    assert_eq!(find_x264_sei(&d, 0, 37 + s.len() - 1), None);
    assert_eq!(find_x264_sei(&vec![0u8; 400], 0, 400), None);
}

#[test]
fn a_slice_is_told_from_audio() {
    let d = slice(0x65, 0, 8);
    assert_eq!(video_at(&d, 0, d.len()), Some(d.len() - 4));
    assert_eq!(video_at(&d, 0, d.len() - 1), None);
    assert_eq!(video_at(&d, 1, d.len()), None);
    assert_eq!(video_at(&d, d.len(), d.len()), None);
    assert_eq!(video_at(&d, d.len() + 5, d.len()), None);
    for hdr in [0xe5u8, 0x05, 0x66, 0x67, 0xc1] {
        let mut other = d.clone();
        other[4] = hdr;
        assert_eq!(video_at(&other, 0, other.len()), None);
    }
    let mut other = d.clone();
    other[4] = 0x41;
    assert_eq!(video_at(&other, 0, other.len()), Some(d.len() - 4));
    other[0] = 1;
    assert_eq!(video_at(&other, 0, other.len()), None);
}

#[test]
fn slice_types_are_those_of_x264() {
    for t in 0u32..10 {
        let mut w = BitW::default();
        w.ue(0);
        w.ue(t);
        w.ue(0);
        w.u(16, 0);
        let mut d = vec![0, 0, 0, 6, 0x41];
        d.extend(w.finish());
        d.resize(10, 0x55);
        assert_eq!(video_at(&d, 0, d.len()).is_some(), (5..=7).contains(&t));
        d[4] = 0x65;
        assert_eq!(video_at(&d, 0, d.len()).is_some(), t == 7);
    }
}

#[test]
fn another_parameter_set_is_not_x264() {
    let mut w = BitW::default();
    w.ue(0);
    w.ue(5);
    w.ue(1);
    w.u(16, 0);
    let mut d = vec![0, 0, 0, 6, 0x41];
    d.extend(w.finish());
    d.resize(10, 0x55);
    assert_eq!(video_at(&d, 0, d.len()), None);
}

#[test]
fn frame_numbers_are_read() {
    let d = slice(0x41, 11, 20);
    assert_eq!(frame_num(&d, 0, d.len() - 4, 4), Some(11));
    assert_eq!(frame_num(&d, 0, 2, 4), None);
    assert_eq!(frame_num(&d, 0, 1, 4), None);
}

#[test]
fn frames_and_gaps_are_split() {
    let mut d = Vec::new();
    let parts: Vec<(u8, u32)> =
        vec![(0x65, 0), (0x41, 1), (0x01, 2), (0x01, 2), (0x41, 2), (0x65, 0), (0x41, 1)];
    let mut places = Vec::new();
    for (i, (hdr, number)) in parts.iter().enumerate() {
        if i == 2 || i == 5 {
            d.extend(vec![0x21; 9 + i]);
        }
        let s = slice(*hdr, *number, i);
        places.push((d.len(), s.len() - 4, *hdr));
        d.extend(s);
    }
    let video_end = d.len();
    d.extend([0x21, 0, 0]);
    let (frames, gaps) = scan(&d, 0, d.len(), 4, usize::MAX);
    let found: Vec<(usize, usize, u8)> = frames.iter().map(|f| (f.pos, f.len, f.hdr)).collect();
    assert_eq!(found, places);
    assert_eq!(
        gaps,
        vec![(places[2].0 - 11, 11), (places[5].0 - 14, 14), (video_end, 3)]
    );
    let kept: usize =
        frames.iter().map(|f| 4 + f.len).sum::<usize>() + gaps.iter().map(|g| g.1).sum::<usize>();
    assert_eq!(kept, d.len());
}

#[test]
fn a_frame_out_of_turn_is_a_gap() {
    let mut d = slice(0x65, 0, 3);
    let first = d.len();
    d.extend(slice(0x41, 5, 3));
    let (frames, gaps) = scan(&d, 0, d.len(), 4, usize::MAX);
    assert_eq!(frames.len(), 1);
    assert_eq!(gaps, vec![(first, d.len() - first)]);
}

#[test]
fn a_gap_holds_no_frame_that_is_due() {
    let mut d = slice(0x65, 0, 3);
    let at = d.len();
    d.extend([0x21; 7]);
    let foreign = d.len();
    d.extend(slice(0x41, 5, 3));
    let next = d.len();
    d.extend(slice(0x41, 1, 4));
    let (frames, gaps) = scan(&d, 0, d.len(), 4, usize::MAX);
    assert_eq!(frames.iter().map(|f| f.pos).collect::<Vec<usize>>(), [0, next]);
    assert_eq!(gaps, vec![(at, next - at)]);
    let slices: Vec<usize> =
        (at..next).filter(|q| video_at(&d, *q, d.len()).is_some()).collect();
    assert_eq!(slices, [foreign]);
    let len = video_at(&d, foreign, d.len()).unwrap();
    assert_eq!(frame_num(&d, foreign, len, 4), Some(5));
}

#[test]
fn frame_numbers_wrap() {
    let mut d = slice(0x65, 0, 0);
    for i in 1..40u32 {
        d.extend(slice(0x41, i % 16, 0));
    }
    let (frames, gaps) = scan(&d, 0, d.len(), 4, usize::MAX);
    assert_eq!(frames.len(), 40);
    assert!(gaps.is_empty());
}

#[test]
fn splitting_stops_at_its_limit() {
    let mut d = slice(0x65, 0, 0);
    d.extend(slice(0x41, 1, 0));
    d.extend(slice(0x41, 2, 0));
    let (frames, gaps) = scan(&d, 0, d.len(), 4, 2);
    assert_eq!((frames.len(), gaps.len()), (2, 0));
    let (frames, gaps) = scan(&d, 0, d.len(), 4, 0);
    assert_eq!((frames.len(), gaps.len()), (0, 0));
    let (frames, gaps) = scan(&d, d.len(), d.len(), 4, 9);
    assert_eq!((frames.len(), gaps.len()), (0, 0));
}

#[test]
fn a_byte_stream_has_start_codes() {
    let d = [9u8, 0, 0, 0, 2, 0x65, 1, 0, 0, 0, 1, 0x41];
    let frames = [Frame { pos: 1, len: 2, hdr: 0x65 }, Frame { pos: 7, len: 1, hdr: 0x41 }];
    assert_eq!(annexb(&d, &frames), [0, 0, 0, 1, 0x65, 1, 0, 0, 0, 1, 0x41]);
    assert!(annexb(&d, &[]).is_empty());
}

/// A file without an index: audio, user data, two frames with audio between them,
/// and the zeros of a download that was cut off.
fn damaged() -> (Vec<u8>, Located) {
    let mut d = b"\0\0\0\x08free\0\0\0\0mdat".to_vec();
    let start = d.len();
    d.extend([0x21; 30]);
    let sei_start = d.len();
    let s = sei();
    d.extend(&s);
    d.extend(slice(0x65, 0, 5));
    d.extend([0x21; 12]);
    d.extend(slice(0x41, 1, 6));
    let end = d.len();
    d.extend([0u8; 50]);
    (d, Located { start, end, sei_start, sei_len: s.len() - 4 })
}

#[test]
fn the_parts_of_a_damaged_file_are_located() {
    let (d, l) = damaged();
    assert_eq!(locate(&d), Ok(l));
    assert!(user_data(&d, &l).starts_with(&[0x05, 0x40]));
    assert_eq!(user_data(&d, &l).len(), l.sei_len - 1);
}

#[test]
fn what_a_file_lacks_is_told() {
    assert_eq!(locate(b"not a video").err(), Some(Fault::NoMediaData));
    let mut d = b"\0\0\0\0mdat".to_vec();
    d.extend([0u8; 500]);
    assert_eq!(locate(&d).err(), Some(Fault::NoUsefulData));
    d[22] = 7;
    assert_eq!(locate(&d).err(), Some(Fault::NoUsefulData));
    d[23] = 7;
    assert_eq!(locate(&d).err(), Some(Fault::NoEncoderData));
}

#[test]
fn a_damaged_file_is_split() {
    let (d, l) = damaged();
    let x = parse_x264(user_data(&d, &l), whole).unwrap();
    let s = split_stream(&d, &l, &x).unwrap();
    assert_eq!(s.frames.len(), 2);
    assert_eq!(s.frames[0].pos, l.sei_start + 4 + l.sei_len);
    assert_eq!(s.gaps, vec![(l.start, 30), (s.frames[0].pos + 4 + s.frames[0].len, 12)]);
    assert_eq!(s.frames[1].pos + 4 + s.frames[1].len, l.end);
    let kept = 4
        + l.sei_len
        + s.frames.iter().map(|f| 4 + f.len).sum::<usize>()
        + s.gaps.iter().map(|g| g.1).sum::<usize>();
    assert_eq!(kept, l.end - l.start);
}

#[test]
fn a_stream_that_cannot_be_decoded_is_refused() {
    let (mut d, l) = damaged();
    let x = parse_x264(user_data(&d, &l), whole).unwrap();
    let first = l.sei_start + 4 + l.sei_len;
    d[first + 4] = 0x41;
    assert_eq!(split_stream(&d, &l, &x).err(), Some(Fault::NoFrames));
}
