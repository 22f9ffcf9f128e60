use reparador_videos::bits::Bits;
use reparador_videos::nal::unescape;
use reparador_videos::sps::{make_pps, make_sps, pick_level};
use reparador_videos::x264::{Params, X264};

fn options() -> X264 {
    X264 {
        cabac: true,
        bframes: 3,
        pyramid: 2,
        refs: 3,
        t8x8: true,
        weightp: 2,
        weightb: true,
        cqo: 0,
        constrained: false,
        keyint: 250,
    }
}

#[test]
fn pps_matches_x264() {
    let x = X264 {
        cabac: true,
        bframes: 3,
        pyramid: 2,
        refs: 1,
        t8x8: true,
        weightp: 1,
        weightb: true,
        cqo: 0,
        constrained: false,
        keyint: 250,
    };
    assert_eq!(make_pps(&x, 23), [0x68, 0xef, 0x8f, 0xcb]);
    let p = reparador_videos::x264::derive(&x, 10);
    assert_eq!((p.num_ref, p.log2_fn, p.poc_type, p.log2_poc, p.profile), (4, 4, 0, 6, 110));
}

#[test]
fn sps_declares_a_size() {
    let p = reparador_videos::x264::derive(&options(), 8);
    assert_eq!(
        make_sps(&p, 8, 80, 45, 31, (0, 0), None),
        [0x67, 0x64, 0x00, 0x1f, 0xac, 0xd9, 0x40, 0x50, 0x05, 0xb9]
    );
}

#[test]
fn sps_declares_cropping_and_timing() {
    let p = reparador_videos::x264::derive(&options(), 10);
    assert_eq!(
        make_sps(&p, 10, 120, 68, 40, (0, 4), Some((30000, 1001))),
        [
            0x67, 0x6e, 0x00, 0x28, 0xa6, 0xcd, 0x94, 0x07, 0x80, 0x22, 0x7e, 0x58, 0x40, 0x00,
            0x00, 0xfa, 0x40, 0x00, 0x3a, 0x98, 0x03, 0xc2, 0x01, 0x06, 0x58
        ]
    );
}

#[test]
fn a_simple_stream_has_a_simple_sps() {
    let p = Params { profile: 66, num_ref: 1, log2_fn: 4, poc_type: 2, log2_poc: 4, reorder: 0 };
    assert_eq!(
        make_sps(&p, 8, 20, 15, 12, (0, 0), Some((25, 1))),
        [
            0x67, 0x42, 0x00, 0x0c, 0xda, 0x05, 0x07, 0xe8, 0x40, 0x00, 0x00, 0x03, 0x00, 0x40,
            0x00, 0x00, 0x0c, 0x83, 0xc2, 0x01, 0x0a, 0x80
        ]
    );
}

#[test]
fn parameters_follow_the_options() {
    let of = |x: &X264, depth: u32| {
        let p = reparador_videos::x264::derive(x, depth);
        (p.profile, p.num_ref, p.log2_fn, p.poc_type, p.log2_poc, p.reorder)
    };
    let x = options();
    assert_eq!(of(&x, 8), (100, 4, 4, 0, 6, 2));
    assert_eq!(of(&x, 10), (110, 4, 4, 0, 6, 2));
    assert_eq!(of(&X264 { pyramid: 1, ..x }, 8), (100, 3, 4, 0, 6, 2));
    assert_eq!(of(&X264 { pyramid: 0, ..x }, 8), (100, 3, 4, 0, 5, 1));
    assert_eq!(of(&X264 { refs: 16, ..x }, 8), (100, 16, 6, 0, 6, 2));
    assert_eq!(of(&X264 { keyint: 1, ..x }, 8), (100, 0, 4, 0, 6, 2));
    let none = X264 { bframes: 0, t8x8: false, ..x };
    assert_eq!(of(&none, 8), (77, 3, 4, 2, 4, 0));
    let plain = X264 { cabac: false, weightp: 0, refs: 1, ..none };
    assert_eq!(of(&plain, 8), (66, 1, 4, 2, 4, 0));
}

#[test]
fn options_beyond_the_counters_are_told() {
    assert!(options().derivable());
    assert!(X264 { refs: 0x3fff_ffff, ..options() }.derivable());
    assert!(!X264 { refs: 0x4000_0000, ..options() }.derivable());
    assert!(!X264 { bframes: 0x1000_0000, ..options() }.derivable());
}

#[test]
fn the_lowest_level_that_fits_is_picked() {
    assert_eq!(pick_level(11, 9, 1, (15, 1)), 10);
    assert_eq!(pick_level(80, 45, 4, (30, 1)), 31);
    assert_eq!(pick_level(80, 45, 5, (60, 1)), 32);
    assert_eq!(pick_level(120, 68, 4, (30000, 1001)), 40);
    assert_eq!(pick_level(120, 68, 4, (60, 1)), 42);
    assert_eq!(pick_level(240, 135, 4, (60, 1)), 52);
    assert_eq!(pick_level(10_000, 10_000, 16, (60, 1)), 60);
    assert_eq!(pick_level(11, 9, 0, (15, 1)), 10);
    assert_eq!(pick_level(11, 9, 1, (15, 0)), 60);
}

#[test]
fn a_decoder_reads_the_size_back() {
    let p = reparador_videos::x264::derive(&options(), 10);
    let nal = make_sps(&p, 10, 120, 68, 40, (3, 4), Some((25, 1)));
    let raw = unescape(&nal[1..]);
    let mut r = Bits::new(&raw);
    assert_eq!((r.u(8), r.u(8), r.u(8), r.ue()), (Some(110), Some(0), Some(40), Some(0)));
    assert_eq!((r.ue(), r.ue(), r.ue(), r.u(2)), (Some(1), Some(2), Some(2), Some(0)));
    assert_eq!((r.ue(), r.ue(), r.ue()), (Some(0), Some(0), Some(2)));
    assert_eq!((r.ue(), r.bit()), (Some(4), Some(0)));
    assert_eq!((r.ue(), r.ue()), (Some(119), Some(67)));
    assert_eq!((r.u(2), r.bit()), (Some(3), Some(1)));
    assert_eq!((r.ue(), r.ue(), r.ue(), r.ue()), (Some(0), Some(3), Some(0), Some(4)));
}

#[test]
fn a_decoder_reads_the_quantiser_back() {
    let x = X264 { cqo: -2, refs: 5, weightb: false, ..options() };
    for (qp, code) in [(26, 0), (27, 1), (25, 2), (51, 49), (0, 52)] {
        let nal = make_pps(&x, qp);
        let raw = unescape(&nal[1..]);
        let mut r = Bits::new(&raw);
        assert_eq!((r.ue(), r.ue(), r.bit(), r.bit()), (Some(0), Some(0), Some(1), Some(0)));
        assert_eq!((r.ue(), r.ue(), r.ue()), (Some(0), Some(4), Some(0)));
        assert_eq!((r.bit(), r.u(2)), (Some(1), Some(0)));
        assert_eq!((r.ue(), r.ue(), r.ue()), (Some(code), Some(0), Some(4)));
    }
}

#[test]
fn a_decoder_reads_the_timing_back() {
    let p = Params { profile: 77, num_ref: 4, log2_fn: 7, poc_type: 0, log2_poc: 9, reorder: 2 };
    let nal = make_sps(&p, 8, 40, 30, 30, (0, 0), Some((30000, 1001)));
    let raw = unescape(&nal[1..]);
    let mut r = Bits::new(&raw);
    assert_eq!((r.u(8), r.u(8), r.u(8), r.ue()), (Some(77), Some(0), Some(30), Some(0)));
    assert_eq!((r.ue(), r.ue(), r.ue()), (Some(3), Some(0), Some(5)));
    assert_eq!((r.ue(), r.bit(), r.ue(), r.ue()), (Some(4), Some(0), Some(39), Some(29)));
    assert_eq!((r.u(2), r.bit()), (Some(3), Some(0)));
    assert_eq!((r.bit(), r.u(5), r.u(32), r.u(32)), (Some(1), Some(1), Some(1001), Some(60000)));
    assert_eq!((r.u(6), r.ue(), r.ue()), (Some(3), Some(0), Some(0)));
    assert_eq!((r.ue(), r.ue()), (Some(15), Some(15)));
    assert_eq!((r.ue(), r.ue()), (Some(2), Some(4)));
    assert_eq!(r.bit(), Some(1));
}

#[test]
fn a_decoder_reads_the_transforms_back() {
    for (constrained, flags) in [(false, 4), (true, 6)] {
        for t8x8 in [false, true] {
            let x = X264 { cqo: 3, constrained, t8x8, ..options() };
            let raw = unescape(&make_pps(&x, 23)[1..]);
            let mut r = Bits::new(&raw);
            assert_eq!((r.ue(), r.ue(), r.u(2), r.ue()), (Some(0), Some(0), Some(2), Some(0)));
            assert_eq!((r.ue(), r.ue(), r.u(3)), (Some(2), Some(0), Some(6)));
            assert_eq!((r.ue(), r.ue(), r.ue()), (Some(6), Some(0), Some(5)));
            assert_eq!(r.u(3), Some(flags));
            if t8x8 {
                assert_eq!((r.u(2), r.ue()), (Some(2), Some(5)));
            }
            assert_eq!(r.bit(), Some(1));
            while let Some(b) = r.bit() {
                assert_eq!(b, 0);
            }
        }
    }
}

#[test]
fn units_hold_no_start_code_and_do_not_end_in_zero() {
    for n in 1..200u32 {
        let p = Params { num_ref: n % 17, ..reparador_videos::x264::derive(&options(), 8) };
        for nal in [
            make_sps(&p, 8, n, 45, 31, (0, n), Some((n << 20, 1))),
            make_pps(&options(), n as i32 % 52),
        ] {
            assert_ne!(nal.last(), Some(&0));
            assert!(!nal.windows(3).any(|w| w[0] == 0 && w[1] == 0 && w[2] <= 2));
        }
    }
}

#[test]
fn a_larger_picture_needs_no_lower_level() {
    let mut last = 0;
    for i in 1..120u32 {
        let level = pick_level(2 * i, i, 1 + i / 20, (5 + i, 1));
        assert!(level >= last);
        last = level;
    }
    assert_eq!(last, 60);
    assert!(pick_level(80, 45, 4, (30, 1)) <= pick_level(80, 45, 5, (30, 1)));
    assert!(pick_level(80, 45, 4, (30000, 1001)) <= pick_level(80, 45, 4, (30, 1)));
}
