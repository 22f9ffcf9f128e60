use reparador_videos::fault::Fault;
use reparador_videos::options::{parse_x264, parse_x264_text};

fn whole(t: &str) -> Option<i64> {
    t.parse::<f64>().ok().map(|v| v as i64)
}

#[test]
fn options_are_read() {
    let text = b"\x05\xff x264 - core 164 - options: cabac=1 ref=5 deblock=1:0:0 8x8dct=0 bframes=2 \
b_pyramid=1 weightb=0 weightp=1 keyint=300 chroma_qp_offset=-2 constrained_intra=1 crf=23.0\0 ref=9";
    let x = parse_x264(text, whole).unwrap();
    assert!(x.cabac);
    assert_eq!(x.refs, 5);
    assert_eq!(x.bframes, 2);
    assert_eq!(x.pyramid, 1);
    assert!(!x.t8x8);
    assert_eq!(x.weightp, 1);
    assert!(!x.weightb);
    assert_eq!(x.cqo, -2);
    assert!(x.constrained);
    assert_eq!(x.keyint, 300);
}

#[test]
fn options_that_are_missing_have_defaults() {
    let x = parse_x264_text("options:", whole).unwrap();
    assert_eq!((x.cabac, x.bframes, x.pyramid, x.refs, x.t8x8), (true, 3, 2, 3, true));
    assert_eq!((x.weightp, x.weightb, x.cqo, x.constrained, x.keyint), (2, true, 0, false, 250));
}

#[test]
fn the_last_setting_counts() {
    let x = parse_x264_text("options: ref=1 ref=7", whole).unwrap();
    assert_eq!(x.refs, 7);
}

#[test]
fn a_value_ends_at_a_colon() {
    let x = parse_x264_text("options: ref=4:9 keyint=infinite bframes=2.9", whole).unwrap();
    assert_eq!((x.refs, x.keyint, x.bframes), (4, 250, 2));
}

#[test]
fn a_text_without_options_is_refused() {
    assert_eq!(parse_x264(b"x264 core", whole).err(), Some(Fault::NoOptions));
}

#[test]
fn coding_that_is_not_supported_is_refused() {
    for o in ["interlaced=1", "cqm=1", "open_gop=1"] {
        let t = format!("options: {o}");
        assert_eq!(parse_x264_text(&t, whole).err(), Some(Fault::UnsupportedCoding));
    }
    for o in ["sliced_threads=1", "slices=4"] {
        let t = format!("options: {o}");
        assert_eq!(parse_x264_text(&t, whole).err(), Some(Fault::UnsupportedSlices));
    }
    assert!(parse_x264_text("options: slices=1", whole).is_ok());
}

#[test]
fn bytes_that_are_no_text_do_not_hide_the_options() {
    let x = parse_x264(b"\xff\xfe\x80options: ref=2 \xc3", whole).unwrap();
    assert_eq!(x.refs, 2);
}

#[test]
fn accents_before_the_options_do_no_harm() {
    let x = parse_x264("cámara — options: ref=6".as_bytes(), whole).unwrap();
    assert_eq!(x.refs, 6);
}

#[test]
fn every_fault_is_told() {
    let told = [
        (Fault::NoMediaData, "El archivo no tiene datos de video (mdat)."),
        (Fault::NoUsefulData, "El archivo esta vacio o sin datos utiles."),
        (
            Fault::NoEncoderData,
            "Solo se pueden reconstruir videos codificados con x264 (no se encontro su firma).",
        ),
        (
            Fault::NoOptions,
            "Solo se pueden reconstruir videos codificados con x264 (no se encontro su firma en el archivo).",
        ),
        (
            Fault::UnsupportedCoding,
            "Video entrelazado, con matrices CQM u open-GOP: no soportado.",
        ),
        (Fault::UnsupportedSlices, "Video con varios slices por frame: no soportado."),
        (Fault::NoFrames, "No se encontraron frames de video recuperables."),
        (
            Fault::NoGeometry,
            "No se pudo deducir el tamano ni la profundidad de color del video.",
        ),
        (Fault::NoOrder, "No se pudo leer el orden de los frames (slice header)."),
        (Fault::BadSampleRate, "frecuencia de audio invalida"),
        (Fault::AudioTooLarge, "Audio demasiado grande para reconstruir."),
        (
            Fault::EmptyOutput,
            "El archivo reparado quedo vacio. Los datos originales pueden faltar.",
        ),
    ];
    for (fault, text) in told {
        assert_eq!(fault.message(), text);
    }
}
