use reparador_videos::bits::{BitW, Bits};
use reparador_videos::nal::{escape, unescape};

#[test]
fn fields_are_read_most_significant_bit_first() {
    let d = [0b1010_0110u8, 0b0100_0010];
    let mut r = Bits::new(&d);
    assert_eq!(r.bit(), Some(1));
    assert_eq!(r.bit(), Some(0));
    assert_eq!(r.u(3), Some(0b100));
    assert_eq!(r.u(11), Some(0b110_0100_0010));
    assert_eq!(r.bit(), None);
}

#[test]
fn a_field_of_no_bits_is_zero() {
    let mut r = Bits::new(&[]);
    assert_eq!(r.u(0), Some(0));
    assert_eq!(r.u(1), None);
    assert_eq!(r.ue(), None);
}

#[test]
fn a_wide_field_keeps_its_low_bits() {
    let d = [0x12u8, 0x34, 0x56, 0x78, 0x9a];
    let mut r = Bits::new(&d);
    assert_eq!(r.u(40), Some(0x3456_789a));
}

#[test]
fn exp_golomb_codes_are_written() {
    let mut w = BitW::default();
    for v in [0u32, 1, 2, 3, 4, 7, 8, 254, 255] {
        w.ue(v);
    }
    assert_eq!(w.finish(), [0xa6, 0x42, 0x88, 0x12, 0x03, 0xfc, 0x02, 0x01]);
}

#[test]
fn signed_codes_are_written() {
    let mut w = BitW::default();
    for v in [0i32, 1, -1, 2, -2, -26, 25] {
        w.se(v);
    }
    assert_eq!(w.finish(), [0xa6, 0x42, 0x83, 0x50, 0x65]);
}

#[test]
fn finishing_closes_with_a_one() {
    let w = BitW::default();
    assert_eq!(w.finish(), [0x80]);
    let mut w = BitW::default();
    w.u(8, 0xab);
    assert_eq!(w.finish(), [0xab, 0x80]);
    let mut w = BitW::default();
    w.u(7, 0x7f);
    assert_eq!(w.finish(), [0xff]);
}

#[test]
fn what_is_written_reads_back() {
    let numbers = [0u32, 1, 5, 63, 64, 1000, 65535, 0x7fff_fffe, 0xffff_fffe];
    let mut w = BitW::default();
    for v in numbers {
        w.ue(v);
        w.u(20, (v & 0xf_ffff) as u64);
        w.bit(v & 1);
    }
    let d = w.finish();
    let mut r = Bits::new(&d);
    for v in numbers {
        assert_eq!(r.ue(), Some(v));
        assert_eq!(r.u(20), Some(v & 0xf_ffff));
        assert_eq!(r.bit(), Some(v & 1));
    }
}

#[test]
fn the_greatest_number_is_too_long_to_read() {
    let mut w = BitW::default();
    w.ue(u32::MAX);
    let d = w.finish();
    assert_eq!(Bits::new(&d).ue(), None);
}

#[test]
fn a_code_that_is_cut_off_is_not_read() {
    assert_eq!(Bits::new(&[0x04]).ue(), None);
    assert_eq!(Bits::new(&[0x00, 0x00]).ue(), None);
    assert_eq!(Bits::new(&[0x40]).ue(), Some(1));
}

#[test]
fn escape_inserts_threes() {
    assert_eq!(escape(&[0, 0, 0]), [0, 0, 3, 0]);
    assert_eq!(escape(&[0, 0, 1]), [0, 0, 3, 1]);
    assert_eq!(escape(&[0, 0, 3]), [0, 0, 3, 3]);
    assert_eq!(escape(&[0, 0, 4]), [0, 0, 4]);
    assert_eq!(escape(&[0, 0, 0, 0, 0, 0]), [0, 0, 3, 0, 0, 3, 0, 0]);
    assert_eq!(escape(&[1, 0, 0]), [1, 0, 0]);
    assert!(escape(&[]).is_empty());
}

#[test]
fn unescape_drops_threes() {
    assert_eq!(unescape(&[0, 0, 3, 0]), [0, 0, 0]);
    assert_eq!(unescape(&[0, 0, 3]), [0, 0]);
    assert_eq!(unescape(&[0, 3, 0, 0, 2, 3]), [0, 3, 0, 0, 2, 3]);
    assert_eq!(unescape(&[0, 0, 0, 3, 7]), [0, 0, 0, 7]);
}

#[test]
fn escaping_is_undone_and_leaves_no_start_code() {
    for seed in 0u32..200 {
        let mut x: u32 = seed * 7919 + 1;
        let mut b: Vec<u8> = Vec::new();
        for _ in 0..40 {
            x = x.wrapping_mul(1_103_515_245).wrapping_add(12345);
            b.push(((x >> 16) % 5) as u8);
        }
        let e = escape(&b);
        assert_eq!(unescape(&e), b);
        for w in e.windows(3) {
            assert!(!(w[0] == 0 && w[1] == 0 && w[2] <= 2));
        }
    }
}

#[test]
fn a_reader_stands_behind_what_it_read() {
    for (v, bits) in [(0u32, 1usize), (1, 3), (2, 3), (3, 5), (254, 15), (255, 17), (0xffff_fffe, 63)]
    {
        let mut w = BitW::default();
        w.ue(v);
        let d = w.finish();
        let mut r = Bits::new(&d);
        assert_eq!(r.p, 0);
        assert_eq!(r.ue(), Some(v));
        assert_eq!((r.p, r.d), (bits, d.as_slice()));
        assert_eq!(r.bit(), Some(1));
        assert_eq!((r.p, r.d), (bits + 1, d.as_slice()));
    }
    let d = [0xffu8, 0];
    let mut r = Bits::new(&d);
    assert_eq!(r.u(11), Some(0b111_1111_1000));
    assert_eq!((r.p, r.d), (11, &d[..]));
}
