use reparador_videos::audio::{
    aac_wrapper, audio_channels, best_timing, timings, DEFAULT_FPS, RATES, STD_FPS,
};
use reparador_videos::fault::Fault;
use reparador_videos::mdat::find_mdat;
use reparador_videos::progress::{out_time, out_times};

fn child<'a>(b: &'a [u8], t: &[u8; 4]) -> &'a [u8] {
    let mut off = 0;
    while off + 8 <= b.len() {
        let size = u32::from_be_bytes([b[off], b[off + 1], b[off + 2], b[off + 3]]) as usize;
        if b[off + 4..off + 8] == *t {
            return &b[off + 8..off + size];
        }
        off += size;
    }
    panic!("no box {t:?}")
}

fn numbers(b: &[u8]) -> Vec<u32> {
    b.chunks(4).map(|c| u32::from_be_bytes([c[0], c[1], c[2], c[3]])).collect()
}

#[test]
fn audio_is_wrapped() {
    let f = aac_wrapper(&[(5, 60), (100, 0), (200, 40)], 48000, 2).unwrap();
    assert_eq!(f.head, *b"\0\0\0\x20ftypisom\0\0\x02\0isomiso2avc1mp41\0\0\0\x6cmdat");
    assert_eq!(f.ranges, vec![(5, 65), (100, 100), (200, 240)]);
    assert_eq!(find_mdat(&f.head), Some(40));
    assert_eq!(f.moov.len(), 541);
    let moov = child(&f.moov, b"moov");
    assert_eq!(numbers(&child(moov, b"mvhd")[12..20]), [1000, 20833]);
    let trak = child(moov, b"trak");
    assert_eq!(child(trak, b"tkhd")[36..38], [1, 0]);
    let mdia = child(trak, b"mdia");
    assert_eq!(numbers(&child(mdia, b"mdhd")[12..20]), [48000, 1_000_000]);
    assert_eq!(&child(mdia, b"hdlr")[8..12], b"soun");
    assert_eq!(&child(mdia, b"hdlr")[24..], b"a\0");
    let minf = child(mdia, b"minf");
    assert_eq!(child(minf, b"smhd"), [0u8; 8]);
    let stbl = child(minf, b"stbl");
    assert_eq!(numbers(child(stbl, b"stts")), [0, 1, 1, 1_000_000]);
    assert_eq!(numbers(child(stbl, b"stsc")), [0, 1, 1, 1, 1]);
    assert_eq!(numbers(child(stbl, b"stsz")), [0, 100, 1]);
    assert_eq!(numbers(child(stbl, b"stco")), [0, 1, 40]);
    let entry = child(&child(stbl, b"stsd")[8..], b"mp4a");
    assert_eq!(entry[16..18], [0, 2]);
    assert_eq!(entry[24..28], [0xbb, 0x80, 0, 0]);
    assert_eq!(
        child(&entry[28..], b"esds"),
        [
            0, 0, 0, 0, 3, 25, 0, 0, 0, 4, 17, 0x40, 0x15, 0, 0, 0, 0, 0, 0, 0, 0, 0, 0, 0, 5, 2,
            0x11, 0x90, 6, 1, 2
        ]
    );
}

#[test]
fn every_rate_has_its_index() {
    for (i, rate) in RATES.iter().enumerate() {
        let f = aac_wrapper(&[], *rate, 1).unwrap();
        let at = f.moov.windows(2).position(|w| w == [5, 2]).unwrap();
        let config = u16::from_be_bytes([f.moov[at + 2], f.moov[at + 3]]);
        assert_eq!(config, 0x1000 + 0x80 * i as u16 + 8);
    }
}

#[test]
fn a_rate_without_an_index_is_refused() {
    assert_eq!(aac_wrapper(&[], 47999, 2).err(), Some(Fault::BadSampleRate));
    assert_eq!(aac_wrapper(&[(0, usize::MAX)], 7, 2).err(), Some(Fault::BadSampleRate));
}

#[test]
fn too_much_audio_is_refused() {
    let most = 0xffff_0000 - 8;
    assert!(aac_wrapper(&[(0, most - 5), (0, 5)], 48000, 2).is_ok());
    assert_eq!(aac_wrapper(&[(0, most), (0, 1)], 48000, 2).err(), Some(Fault::AudioTooLarge));
    assert_eq!(
        aac_wrapper(&[(0, usize::MAX), (0, usize::MAX)], 48000, 2).err(),
        Some(Fault::AudioTooLarge)
    );
}

#[test]
fn channels_are_voted_on() {
    let d = [0x21u8, 0x01, 0x41, 0xff];
    assert_eq!(audio_channels(&d, &[(0, 4000), (0, 97)]), Some(2));
    assert_eq!(audio_channels(&d, &[(1, 4000), (1, 97)]), Some(1));
    assert_eq!(audio_channels(&d, &[(2, 5000), (0, 1), (0, 1)]), Some(2));
    assert_eq!(audio_channels(&d, &[(0, 5000), (1, 1)]), Some(2));
    assert_eq!(audio_channels(&d, &[(0, 5000), (1, 1), (1, 1)]), Some(1));
}

#[test]
fn there_may_be_no_audio() {
    let d = [0x21u8, 0x01, 0x41, 0xff];
    assert_eq!(audio_channels(&d, &[]), None);
    assert_eq!(audio_channels(&d, &[(0, 4096)]), None);
    assert_eq!(audio_channels(&d, &[(2, 5000)]), None);
    assert_eq!(audio_channels(&d, &[(0, 5000), (3, 1)]), None);
    assert_eq!(audio_channels(&d, &[(0, 5000), (0, 1), (1, 1), (2, 1), (3, 1)]), None);
    assert_eq!(audio_channels(&d, &[(9, 0), (1000, 0)]), None);
}

#[test]
fn the_timing_that_fits_best_is_taken() {
    let limit = f64::MAX.to_bits();
    let mut m = [f64::NAN.to_bits(); 20];
    let t = best_timing(&m, limit);
    assert_eq!((t.rate, t.fps), (48000, DEFAULT_FPS));
    m[14] = 0.5f64.to_bits();
    let t = best_timing(&m, limit);
    assert_eq!((t.rate, t.fps), (44100, (30, 1)));
    m[2] = 0.25f64.to_bits();
    m[3] = 0.25f64.to_bits();
    let t = best_timing(&m, limit);
    assert_eq!((t.rate, t.fps), (48000, (25, 1)));
    let t = best_timing(&[f64::MAX.to_bits(); 20], limit);
    assert_eq!((t.rate, t.fps), (48000, DEFAULT_FPS));
}

#[test]
fn every_rate_is_tried_with_every_frame_rate() {
    let all = timings();
    assert_eq!(all.len(), 20);
    for (i, t) in all.iter().enumerate() {
        assert_eq!(t.rate, if i < 10 { 48000 } else { 44100 });
        assert_eq!(t.fps, STD_FPS[i % 10]);
    }
}

#[test]
fn times_are_found_in_what_ffmpeg_says() {
    assert_eq!(out_time("out_time_us=123"), Some("123"));
    assert_eq!(out_time("out_time_us="), Some(""));
    assert_eq!(out_time(" out_time_us=1"), None);
    assert_eq!(out_time("out_time_ms=5"), None);
    assert_eq!(
        out_times("frame=1\nout_time_us=10\r\nspeed=2\nout_time_us=N/A\nout_time_us=30"),
        vec!["10", "N/A", "30"]
    );
    assert!(out_times("").is_empty());
}
