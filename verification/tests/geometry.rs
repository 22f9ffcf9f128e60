use reparador_videos::fault::Fault;
use reparador_videos::frames::Frame;
use reparador_videos::geometry::{Ask, Search};
use reparador_videos::probe::{
    first_error_mb, probe_qp, qp_guess, temporal_roughness, test_width, validates,
    validation_stream, width_guess, write_guess, Geo, Roughness,
};
use reparador_videos::sps::{make_pps, make_sps};
use reparador_videos::x264::{Params, X264};

const X: X264 = X264 {
    cabac: true,
    bframes: 3,
    pyramid: 2,
    refs: 3,
    t8x8: true,
    weightp: 2,
    weightb: true,
    cqo: 0,
    constrained: false,
    keyint: 250,
};

#[test]
fn the_first_error_is_found() {
    assert_eq!(first_error_mb("x error while decoding MB 17 3, bytestream -5"), Some(17));
    assert_eq!(
        first_error_mb("error while decoding MB 4 0\nerror while decoding MB 9 0"),
        Some(4)
    );
    assert_eq!(first_error_mb("error while decoding MB error while decoding MB 9"), None);
    assert_eq!(first_error_mb("error while decoding MB x"), None);
    assert_eq!(first_error_mb("all is well"), None);
}

#[test]
fn a_quantiser_is_scored() {
    assert_eq!(probe_qp(" \n"), Some(u32::MAX));
    assert_eq!(probe_qp("error while decoding MB 120 0"), Some(120));
    assert_eq!(probe_qp("something else"), None);
}

#[test]
fn a_width_tells_the_height() {
    assert_eq!(test_width("frame=1", 80), Some(136));
    assert_eq!(test_width("[h264] concealing 7280 DC, 7280 AC, 7280 MV errors", 80), Some(45));
    assert_eq!(test_width("concealing 7281 DC", 80), None);
    assert_eq!(test_width("concealing 10880 DC", 80), None);
    assert_eq!(test_width("concealing 99999920 DC", 80), None);
    assert_eq!(test_width("error while decoding MB 1 1", 80), None);
    assert_eq!(test_width("Nothing was written", 80), None);
    assert_eq!(test_width("concealing \nconcealing 80 DC", 80), Some(136));
    assert_eq!(test_width("a\nconcealing 80 DC\nconcealing 160 DC", 80), Some(135));
    assert_eq!(test_width("concealing concealing 80 DC", 80), Some(136));
}

#[test]
fn a_guess_is_written_in_front_of_the_frames() {
    let p = reparador_videos::x264::derive(&X, 8);
    let g = width_guess(8, 30, 80);
    assert_eq!(g, Geo { depth: 8, qp: 30, w_mb: 80, h_mb: 136 });
    assert_eq!(qp_guess(10, 3), Geo { depth: 10, qp: 3, w_mb: 240, h_mb: 1 });
    let mut o = vec![0u8, 0, 0, 1];
    o.extend(make_sps(&p, 8, 80, 136, 52, (0, 0), None));
    o.extend([0, 0, 0, 1]);
    o.extend(make_pps(&X, 30));
    o.extend([9, 8, 7]);
    assert_eq!(write_guess(&X, &p, &g, &[9, 8, 7]), o);
}

#[test]
fn a_guess_is_validated_on_the_first_frames() {
    let p = reparador_videos::x264::derive(&X, 8);
    let g = Geo { depth: 8, qp: 30, w_mb: 2, h_mb: 2 };
    let d = [0u8, 0, 0, 1, 0x41];
    let frames = vec![Frame { pos: 0, len: 1, hdr: 0x41 }; 50];
    let (o, n) = validation_stream(&X, &p, &g, &d, &frames);
    assert_eq!(n, 48);
    let head = write_guess(&X, &p, &g, &[]);
    assert_eq!(o.len(), head.len() + 48 * 5);
    assert!(o.ends_with(&[0, 0, 0, 1, 0x41]));
    let (_, n) = validation_stream(&X, &p, &g, &d, &frames[..7]);
    assert_eq!(n, 7);
}

#[test]
fn pictures_of_the_right_size_validate() {
    let g = Geo { depth: 8, qp: 0, w_mb: 1, h_mb: 1 };
    let len = 16 * 16 * 3 / 2;
    let out = vec![7u8; len * 10];
    assert!(validates("", &out, 10, &g).is_some());
    assert!(validates("", &out, 18, &g).is_some());
    assert!(validates("", &out, 19, &g).is_none());
    assert!(validates("", &out, 9, &g).is_none());
    assert!(validates("bad", &out, 10, &g).is_none());
    assert!(validates("", &out[1..], 10, &g).is_none());
    assert!(validates("", &[], 8, &g).is_some());
    assert_eq!(validates("", &[], 8, &g), Some(Roughness::Unknown));
    assert!(validates("", &out, 10, &Geo { w_mb: 0, ..g }).is_none());
    let deep = Geo { depth: 10, ..g };
    assert!(validates("", &out, 5, &deep).is_some());
    assert!(validates("", &out, 4, &deep).is_none());
}

#[test]
fn roughness_sums_differences() {
    let mut out = vec![10u8; 200];
    out.extend(vec![13u8; 200]);
    out.extend(vec![9u8; 200]);
    assert_eq!(
        temporal_roughness(&out, 200, 3, 8),
        Roughness::Sampled { total: 3 * 3 + 3 * 4, samples: 6 }
    );
    assert_eq!(
        temporal_roughness(&out, 200, 3, 10),
        Roughness::Sampled { total: 2 * 3 * 257 + 2 * 4 * 257, samples: 4 }
    );
    assert_eq!(temporal_roughness(&out, 200, 1, 8), Roughness::Unknown);
    assert_eq!(temporal_roughness(&out, 0, 3, 8), Roughness::Unknown);
    assert_eq!(
        temporal_roughness(&out, 1, 3, 8),
        Roughness::Sampled { total: 0, samples: 0 }
    );
}

fn sampled(r: Roughness) -> (u128, u128) {
    match r {
        Roughness::Sampled { total, samples } => (total, samples),
        Roughness::Unknown => panic!("no pictures"),
    }
}

#[test]
fn roughness_stays_within_the_range_of_samples() {
    let out: Vec<u8> = (0..3000u32).map(|i| (i * i % 251) as u8).collect();
    let (total, samples) = sampled(temporal_roughness(&out, 600, 5, 8));
    assert_eq!(samples, 4 * 7);
    assert!(total > 0 && total <= 250 * samples);
    let deep: Vec<u8> = (0..3000u32)
        .map(|i| if i % 2 == 0 { (i * 7 % 256) as u8 } else { (i % 4) as u8 })
        .collect();
    let (total, samples) = sampled(temporal_roughness(&deep, 600, 5, 10));
    assert_eq!(samples, 4 * 4);
    assert!(total > 0 && total <= 1023 * samples);
}

#[test]
fn still_pictures_are_smooth() {
    let one: Vec<u8> = (0..400u32).map(|i| (i * 31 % 256) as u8).collect();
    let out = [&one[..], &one, &one, &one].concat();
    assert_eq!(sampled(temporal_roughness(&out, 400, 4, 8)), (0, 3 * 5));
    assert_eq!(sampled(temporal_roughness(&out, 400, 4, 10)), (0, 3 * 3));
}

#[test]
fn flashing_pictures_are_as_rough_as_can_be() {
    let dark = vec![0u8; 300];
    let bright = vec![255u8; 300];
    let out = [&dark[..], &bright, &dark, &bright].concat();
    assert_eq!(sampled(temporal_roughness(&out, 300, 4, 8)), (255 * 12, 12));
    let deep: Vec<u8> = [0xffu8, 0x03].repeat(150);
    let out = [&deep[..], &dark, &deep].concat();
    assert_eq!(sampled(temporal_roughness(&out, 300, 3, 10)), (1023 * 4, 4));
}

#[test]
fn roughness_has_no_direction() {
    let out: Vec<u8> = (0..2000u32).map(|i| (i * i * i % 241) as u8).collect();
    let back: Vec<u8> = out.chunks(400).rev().flatten().copied().collect();
    for depth in [8, 10] {
        let there = temporal_roughness(&out, 400, 5, depth);
        assert_eq!(there, temporal_roughness(&back, 400, 5, depth));
        assert!(sampled(there).0 > 0);
    }
}

/// Runs a search against a decoder for which only `good` decodes cleanly.
fn run(
    scores: &[(u32, i32)],
    sizes: &dyn Fn(u32, i32) -> Vec<(u32, u32)>,
    verdict: &dyn Fn(&Geo, &Params) -> Option<u64>,
) -> (Result<(Geo, u32), Fault>, Vec<String>) {
    let mut s = Search::start(&X);
    let mut log = Vec::new();
    loop {
        match s.ask() {
            Ask::Quantisers { depth } => {
                log.push(format!("q{depth}"));
                s.take_scores(&scores.to_vec());
            }
            Ask::Widths { depth, qp } => {
                log.push(format!("w{depth}/{qp}"));
                s.take_sizes(&sizes(depth, qp));
            }
            Ask::Validate { geo, params } => {
                log.push(format!("v{}x{}/{}", geo.w_mb, geo.h_mb, params.num_ref));
                s.take_verdict(verdict(&geo, &params));
            }
            Ask::Nothing => break,
        }
    }
    (s.finish().map(|f| (f.geo, f.params.num_ref)), log)
}

#[test]
fn the_best_quantisers_are_tried_first() {
    let scores = [(3, 0), (9, 1), (9, 2), (u32::MAX, 3), (1, 4), (5, 5), (4, 6)];
    let (r, log) = run(&scores, &|_, _| vec![], &|_, _| None);
    assert_eq!(r, Err(Fault::NoGeometry));
    assert_eq!(
        log,
        vec![
            "q8", "w8/3", "w8/2", "w8/1", "w8/5", "w8/6", "q10", "w10/3", "w10/2", "w10/1",
            "w10/5", "w10/6"
        ]
    );
}

#[test]
fn the_largest_size_that_validates_is_found() {
    let (r, log) = run(
        &[(9, 20)],
        &|_, _| vec![(80, 45), (40, 20), (100, 9), (60, 50)],
        &|g, p| if g.depth == 8 && p.num_ref == 8 { Some(g.w_mb as u64) } else { None },
    );
    assert_eq!(r, Ok((Geo { depth: 8, qp: 20, w_mb: 80, h_mb: 45 }, 8)));
    assert_eq!(
        log[..10],
        [
            "q8", "w8/20", "v40x20/4", "v40x20/8", "v60x50/4", "v60x50/8", "v80x45/4", "v80x45/8",
            "v100x9/4", "v100x9/8"
        ]
    );
    assert_eq!(
        log[10..],
        [
            "q10", "w10/20", "v40x20/4", "v40x20/8", "v40x20/16", "v60x50/4", "v60x50/8",
            "v60x50/16", "v80x45/4", "v80x45/8", "v80x45/16", "v100x9/4", "v100x9/8", "v100x9/16"
        ]
    );
}

#[test]
fn equally_large_sizes_keep_the_first() {
    let (r, _) = run(&[(9, 20)], &|_, _| vec![(20, 10), (10, 20)], &|_, _| Some(1));
    assert_eq!(r.map(|(g, _)| (g.w_mb, g.h_mb)), Ok((10, 20)));
}

#[test]
fn the_smoother_depth_is_taken() {
    let rough = |eight: u64, ten: u64| {
        run(&[(9, 20)], &|_, _| vec![(20, 10)], &|g, _| {
            Some(if g.depth == 8 { eight } else { ten })
        })
        .0
        .map(|(g, _)| g.depth)
    };
    assert_eq!(rough(0.1f64.to_bits(), 0.2f64.to_bits()), Ok(8));
    assert_eq!(rough(0.3f64.to_bits(), 0.2f64.to_bits()), Ok(10));
    assert_eq!(rough(5, 5), Ok(8));
}

#[test]
fn a_later_quantiser_may_be_the_right_one() {
    let (r, log) = run(
        &[(5, 11), (9, 20)],
        &|_, qp| if qp == 11 { vec![(20, 10)] } else { vec![(3, 3)] },
        &|g, _| if g.w_mb == 20 && g.depth == 10 { Some(1) } else { None },
    );
    assert_eq!(r, Ok((Geo { depth: 10, qp: 11, w_mb: 20, h_mb: 10 }, 4)));
    assert_eq!(log.last().map(|s| s.as_str()), Some("v20x10/4"));
}

#[test]
fn arrival_does_not_matter() {
    let sizes = |_: u32, _: i32| vec![(9, 9), (20, 10), (20, 11)];
    let back = |_: u32, _: i32| vec![(20, 11), (20, 10), (9, 9)];
    let verdict = |g: &Geo, _: &Params| Some((g.qp + g.w_mb as i32) as u64);
    let a = run(&[(1, 2), (7, 3), (7, 9)], &sizes, &verdict);
    let b = run(&[(7, 9), (1, 2), (7, 3)], &back, &verdict);
    assert_eq!(a, b);
}

#[test]
fn eight_references_are_claimed_once() {
    let x = X264 { refs: 8, ..X };
    let mut s = Search::start(&x);
    s.take_scores(&vec![(1, 1)]);
    s.take_sizes(&vec![(2, 2)]);
    let mut claims = Vec::new();
    while let Ask::Validate { params, .. } = s.ask() {
        claims.push(params.num_ref);
        s.take_verdict(None);
    }
    assert_eq!(claims, vec![8, 16]);
}

#[test]
fn guesses_are_tried_in_turn() {
    let mut s = Search::start(&X);
    let mut asked = Vec::new();
    loop {
        match s.ask() {
            Ask::Quantisers { depth } => {
                asked.push(format!("d{depth}"));
                s.take_scores(&if depth == 8 { vec![(3, 20), (9, 30), (1, 40)] } else { vec![] });
            }
            Ask::Widths { depth, qp } => {
                asked.push(format!("d{depth} q{qp}"));
                s.take_sizes(&if qp == 20 { vec![(7, 5), (6, 9)] } else { vec![] });
            }
            Ask::Validate { geo, params } => {
                asked.push(format!("{}x{} r{}", geo.w_mb, geo.h_mb, params.num_ref));
                s.take_verdict(if params.num_ref == 8 && geo.w_mb == 7 { Some(5) } else { None });
            }
            Ask::Nothing => break,
        }
    }
    let refs = reparador_videos::x264::derive(&X, 8).num_ref;
    assert_eq!(
        asked,
        [
            "d8".to_string(),
            "d8 q30".to_string(),
            "d8 q20".to_string(),
            format!("6x9 r{refs}"),
            "6x9 r8".to_string(),
            "6x9 r16".to_string(),
            format!("7x5 r{refs}"),
            "7x5 r8".to_string(),
            "d10".to_string(),
        ]
    );
    let f = s.finish().unwrap();
    assert_eq!((f.geo.w_mb, f.geo.h_mb, f.geo.qp, f.params.num_ref, f.roughness), (7, 5, 20, 8, 5));
}
