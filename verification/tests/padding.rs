use reparador_videos::frames::Frame;
use reparador_videos::pad::{pad_picks, shown_size, trailing_pad, Edges};
use reparador_videos::probe::Geo;

fn frames(keys: &[usize], n: usize) -> Vec<Frame> {
    (0..n)
        .map(|i| Frame { pos: i, len: 1, hdr: if keys.contains(&i) { 0x65 } else { 0x41 } })
        .collect()
}

#[test]
fn key_frames_are_picked_all_over_the_stream() {
    assert!(pad_picks(&frames(&[], 9)).is_empty());
    assert_eq!(pad_picks(&frames(&[0, 4], 9)), vec![0, 4]);
    let keys: Vec<usize> = (0..12).map(|i| i * 10).collect();
    assert_eq!(pad_picks(&frames(&keys, 120)), vec![0, 20, 40, 70, 90]);
}

#[test]
fn quiet_lines_at_the_end_are_padding() {
    let mut v = vec![50u128; 100];
    assert_eq!(trailing_pad(&v), 0);
    for i in 92..100 {
        v[i] = 0;
    }
    assert_eq!(trailing_pad(&v), 8);
    v[92] = 1;
    assert_eq!(trailing_pad(&v), 6);
    for i in 60..100 {
        v[i] = 0;
    }
    assert_eq!(trailing_pad(&v), 14);
}

#[test]
fn too_little_tells_nothing() {
    let mut v = vec![50u128; 63];
    v[62] = 0;
    v[61] = 0;
    assert_eq!(trailing_pad(&v), 0);
    let mut v = vec![0u128; 100];
    v[5] = 98;
    assert_eq!(trailing_pad(&v), 0);
    v[5] = 99;
    assert_eq!(trailing_pad(&v), 14);
    v[0] = 1000;
    v[5] = 98;
    assert_eq!(trailing_pad(&v), 0);
    assert_eq!(trailing_pad(&[u128::MAX; 70]), 0);
}

/// A picture with a pattern that is repeated in its last columns and rows.
fn picture(w: usize, h: usize, right: usize, bottom: usize) -> Vec<u8> {
    let mut o = Vec::new();
    for y in 0..h {
        for x in 0..w {
            let sx = x.min(w - 1 - right);
            let sy = y.min(h - 1 - bottom);
            o.push(((sx * 37 + sy * 91) % 251) as u8);
        }
    }
    o
}

#[test]
fn padding_is_found_in_pictures() {
    let mut e = Edges::new(96, 80);
    assert_eq!(e.pad(), (0, 0));
    e.take_picture(&[1, 2, 3]);
    assert_eq!(e.pad(), (0, 0));
    e.take_picture(&picture(96, 80, 6, 8));
    assert_eq!(e.pad(), (6, 8));
    e.take_picture(&picture(96, 80, 4, 8));
    assert_eq!(e.pad(), (4, 8));
}

#[test]
fn small_pictures_have_no_padding() {
    let mut e = Edges::new(48, 80);
    e.take_picture(&picture(48, 80, 6, 8));
    assert_eq!(e.pad(), (0, 8));
}

#[test]
fn what_is_left_is_shown() {
    let g = Geo { depth: 8, qp: 20, w_mb: 120, h_mb: 68 };
    let s = shown_size(&g, (0, 8));
    assert_eq!((s.width, s.height, s.crop), (1920, 1080, (0, 4)));
    let s = shown_size(&g, (14, 2));
    assert_eq!((s.width, s.height, s.crop), (1906, 1086, (7, 1)));
}
