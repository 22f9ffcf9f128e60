use reparador_videos::fault::Fault;
use reparador_videos::folder::{
    results_dir, Event, Happening, Tried, Watch, Watched, RESULTS_NAME,
};
use reparador_videos::repair::{
    asked_dir, check_output, is_own_output, mux_failure, output_name, path_argument,
    rebuild_failure, remux_failure, Failure,
};
use reparador_videos::report::{describe, mux_args};
use reparador_videos::shell::{close_window, second_start, Action};
use reparador_videos::watch::{
    copy_path, job_id, lies_below, result_tooltip, watching_tooltip, Queue, Settling,
};

fn told(err: &str) -> Option<String> {
    match remux_failure(err) {
        Failure::NoIndex => None,
        Failure::Told { text } => Some(text),
    }
}

#[test]
fn a_repaired_file_has_a_name() {
    assert_eq!(output_name("video", Some("mkv")), "video_reparado.mkv");
    assert_eq!(output_name("vídeo 1", None), "vídeo 1_reparado.mp4");
    assert_eq!(output_name("", Some("")), "_reparado.");
}

#[test]
fn own_outputs_are_known() {
    assert!(is_own_output(Some("video_reparado")));
    assert!(is_own_output(Some("_reparado")));
    assert!(!is_own_output(Some("video_reparado2")));
    assert!(!is_own_output(Some("reparado")));
    assert!(!is_own_output(Some("")));
    assert!(!is_own_output(None));
    for stem in ["a", "b.c", "ñ_reparado"] {
        let name = output_name(stem, None);
        assert!(is_own_output(name.strip_suffix(".mp4")));
    }
}

#[test]
fn an_empty_folder_name_asks_for_none() {
    assert_eq!(asked_dir(Some("/tmp")), Some("/tmp"));
    assert_eq!(asked_dir(Some("")), None);
    assert_eq!(asked_dir(None), None);
}

#[test]
fn a_missing_index_is_recognised() {
    assert_eq!(told("[mov] moov atom not found\nInvalid data"), None);
    assert!(told("moov atom not foun").is_some());
}

#[test]
fn the_end_of_what_ffmpeg_said_is_told() {
    assert_eq!(
        told("1\n2\n3\n4\n5\n6\n7\r\n8\n").as_deref(),
        Some("ffmpeg no pudo reparar el video:\n3\n4\n5\n6\n7\n8")
    );
    assert_eq!(told("one").as_deref(), Some("ffmpeg no pudo reparar el video:\none"));
    let nothing = "ffmpeg no pudo reparar el video:\n(sin detalles, revisa que el archivo no este completamente vacio)";
    assert_eq!(told("").as_deref(), Some(nothing));
    assert_eq!(told("\n").as_deref(), Some(nothing));
    assert_eq!(told("\n\n").as_deref(), Some("ffmpeg no pudo reparar el video:\n\n"));
}

#[test]
fn failures_say_why() {
    assert_eq!(
        rebuild_failure("porque no"),
        "El video no tiene indice (moov) y la reconstruccion fallo:\nporque no"
    );
    assert_eq!(mux_failure("a\nb\n"), "No se pudo armar el MP4 final: b");
    assert_eq!(mux_failure(""), "No se pudo armar el MP4 final: ");
}

#[test]
fn an_empty_output_is_refused() {
    assert_eq!(check_output(0), Err(Fault::EmptyOutput));
    assert_eq!(check_output(7), Ok(7));
}

#[test]
fn the_file_to_open_is_the_first_that_is_no_option() {
    let args = |a: &[&str]| a.iter().map(|s| s.to_string()).collect::<Vec<String>>();
    assert_eq!(path_argument(&args(&["app", "--flag", "-x", "a.mp4", "b.mp4"])), Some(3));
    assert_eq!(path_argument(&args(&["app", ""])), Some(1));
    assert_eq!(path_argument(&args(&["a.mp4", "-"])), None);
    assert_eq!(path_argument(&args(&[])), None);
}

#[test]
fn a_rebuilt_file_is_described() {
    assert_eq!(
        describe(1234, 1920, 1080, (30000, 1001), true).note,
        "Reconstruido desde cero (faltaba el indice): 1234 frames, 1920x1080 a 29.970 fps, audio recodificado a AAC."
    );
    assert_eq!(
        describe(2, 320, 0, (25, 1), false).note,
        "Reconstruido desde cero (faltaba el indice): 2 frames, 320x0 a 25.000 fps, sin audio."
    );
}

#[test]
fn every_frame_rate_is_told_as_a_float_would_be() {
    for fps in reparador_videos::audio::STD_FPS {
        let text = format!(" a {:.3} fps,", fps.0 as f64 / fps.1 as f64);
        assert!(describe(1, 1, 1, fps, false).note.contains(&text));
    }
}

#[test]
fn parts_are_muxed() {
    assert_eq!(
        mux_args("v.mp4", Some("a.m4a"), "o.mp4"),
        [
            "-v", "error", "-i", "v.mp4", "-i", "a.m4a", "-map", "0:v:0", "-map", "1:a:0", "-c",
            "copy", "-movflags", "+faststart", "o.mp4"
        ]
    );
    assert_eq!(
        mux_args("v.mp4", None, "o.mp4"),
        ["-v", "error", "-i", "v.mp4", "-c", "copy", "-movflags", "+faststart", "o.mp4"]
    );
}

#[test]
fn a_file_settles_when_its_size_stays() {
    let mut s = Settling::new();
    assert_eq!(s.poll(Some(5)), None);
    assert_eq!(s.poll(Some(9)), None);
    assert_eq!(s.poll(Some(9)), Some(true));
}

#[test]
fn a_file_that_is_gone_is_left() {
    let mut s = Settling::new();
    assert_eq!(s.poll(Some(5)), None);
    assert_eq!(s.poll(None), Some(false));
}

#[test]
fn waiting_ends_after_ten_looks() {
    let mut s = Settling::new();
    for i in 0..9u64 {
        assert_eq!(s.poll(Some(i + 1)), None);
    }
    assert_eq!(s.poll(Some(100)), Some(true));
    let mut s = Settling::new();
    for _ in 0..9 {
        assert_eq!(s.poll(Some(0)), None);
    }
    assert_eq!(s.poll(Some(0)), Some(false));
}

fn parts(path: &str) -> Vec<Vec<u8>> {
    std::path::Path::new(path)
        .components()
        .map(|c| c.as_os_str().as_encoded_bytes().to_vec())
        .collect()
}

fn event(happening: Happening, path: &str) -> Event {
    let stem = std::path::Path::new(path).file_stem().and_then(|s| s.to_str());
    Event { happening, path: parts(path), is_file: true, stem: stem.map(|s| s.to_string()) }
}

#[test]
fn a_file_is_repaired_once_at_a_time() {
    let mut q = Queue::new();
    assert!(q.admit_file(&parts("/a")));
    assert!(!q.admit_file(&parts("/a")));
    assert!(!q.admit_file(&parts("//a/")));
    assert!(q.admit_file(&parts("/b")));
    q.finish(&parts("/c"));
    q.finish(&parts("/a"));
    assert!(q.admit_file(&parts("/a")));
    assert!(!q.admit_file(&parts("/b")));
}

#[test]
fn paths_are_told_by_their_parts() {
    assert!(lies_below(&parts("/a/b"), &parts("/a/b/c")));
    assert!(lies_below(&parts("/a/b"), &parts("/a//b")));
    assert!(!lies_below(&parts("/a/b"), &parts("/a/bc")));
    assert!(!lies_below(&parts("/a/b"), &parts("/a")));
    assert_eq!(copy_path(&parts("/a/b")), parts("/a/b"));
}

#[test]
fn what_falls_into_a_folder_is_repaired() {
    let mut w = Watch::new("/in", parts("/in"));
    let dir = Some("/in/reparados".to_string());
    assert_eq!(w.take_event(&event(Happening::Created, "/in/a.mp4")), dir);
    assert_eq!(w.take_event(&event(Happening::Modified, "/in/a.mp4")), None);
    assert_eq!(w.take_event(&event(Happening::Modified, "/in/b")), dir);
    w.take_end(&parts("/in/a.mp4"));
    assert_eq!(w.take_event(&event(Happening::Modified, "/in/b")), None);
    assert_eq!(w.take_event(&event(Happening::Modified, "/in/a.mp4")), dir);
}

#[test]
fn only_foreign_files_are_repaired() {
    let mut w = Watch::new("/in/", parts("/in/"));
    let file = || event(Happening::Created, "/in/a.mp4");
    assert_eq!(w.take_event(&Event { happening: Happening::Other, ..file() }), None);
    assert_eq!(w.take_event(&Event { is_file: false, ..file() }), None);
    assert_eq!(w.take_event(&event(Happening::Created, "/in/a_reparado.mp4")), None);
    assert_eq!(w.take_event(&event(Happening::Created, "/in/reparados/a.mp4")), None);
    assert_eq!(w.take_event(&event(Happening::Created, "/in/reparados")), None);
    let nameless = Event { stem: None, ..file() };
    assert_eq!(w.take_event(&nameless), Some("/in/reparados".to_string()));
    assert!(w.take_event(&event(Happening::Created, "/in/reparados2")).is_some());
}

#[test]
fn results_go_below_the_folder() {
    for folder in ["/in", "/in/", "in", "./in//x", "/", "/ñandú"] {
        let dir = results_dir(folder);
        assert_eq!(std::path::Path::new(&dir), std::path::Path::new(folder).join("reparados"));
        assert_eq!(dir, std::path::Path::new(folder).join("reparados").to_string_lossy());
    }
    assert_eq!(results_dir(""), "reparados");
    assert_eq!(RESULTS_NAME, *b"reparados");
}

#[test]
fn a_folder_that_cannot_be_watched_changes_nothing() {
    let mut w = Watched::new();
    let told = |e: &str| Err::<String, String>(e.to_string());
    assert_eq!(w.start("/x", &Tried::NoFolder), told("La carpeta no existe."));
    assert_eq!(
        w.start("/x", &Tried::NoWatcher("no".to_string())),
        told("No se pudo iniciar el vigilante: no")
    );
    assert_eq!(
        w.start("/x", &Tried::NotWatched("lleno".to_string())),
        told("No se pudo vigilar la carpeta: lleno")
    );
    assert_eq!(w.start("/in", &Tried::Watching), Ok("Vigilando: /in".to_string()));
    let before = format!("{w:?}");
    assert!(w.start("/x", &Tried::NoFolder).is_err());
    assert_eq!(format!("{w:?}"), before);
    assert_eq!(w.stop(), "Reparador de Videos");
}

#[test]
fn a_second_start_passes_its_file_on() {
    let args = |a: &[&str]| a.iter().map(|s| s.to_string()).collect::<Vec<String>>();
    let show = || vec![Action::Show("main".to_string()), Action::Focus("main".to_string())];
    let mut open = vec![Action::Emit {
        event: "open-file".to_string(),
        payload: "/b.mp4".to_string(),
    }];
    open.extend(show());
    assert_eq!(second_start(&args(&["gui", "-x", "/b.mp4", "/c"])), open);
    assert_eq!(second_start(&args(&["gui", "-x"])), show());
    assert_eq!(second_start(&args(&["gui"])), show());
    assert_eq!(second_start(&[].to_vec()), show());
}

#[test]
fn closing_hides_the_main_window() {
    assert_eq!(close_window("main"), [Action::KeepOpen, Action::Hide("main".to_string())]);
    assert!(close_window("other").is_empty());
}

#[test]
fn the_tray_tells_what_happened() {
    assert_eq!(result_tooltip(true, "a.mp4"), "Reparador de Videos — reparado: a.mp4");
    assert_eq!(result_tooltip(false, "a.mp4"), "Reparador de Videos — error: a.mp4");
    assert_eq!(watching_tooltip("/tmp"), "Vigilando: /tmp");
    assert_eq!(job_id("a.mp4"), "watch-a.mp4");
}
