//! What the user is told of a rebuild, and how its parts are put together.

use crate::audio::{is_std_fps, STD_FPS};
use crate::text::{
    append_digit, append_number, decimal, digit, law_digits_count_in_tens, law_number_reads_back,
    number_text, texts,
};
use vstd::prelude::*;

verus! {

/// A file that was rebuilt.
#[derive(Debug)]
pub struct Recovered {
    /// What the user is told of it.
    pub note: String,
}

/// The frame rate in thousandths, to the nearest.
pub open spec fn milli_fps(fps: (u32, u32)) -> nat {
    ((2000 * fps.0 + fps.1) / (2 * fps.1)) as nat
}

/// A number of thousandths, with three decimals.
pub open spec fn with_decimals(m: nat) -> Seq<char> {
    number_text(m / 1000) + "."@ + seq![
        digit((m / 100 % 10) as int),
        digit((m / 10 % 10) as int),
        digit((m % 10) as int),
    ]
}

fn append_decimals(s: &mut String, m: u64)
    ensures
        final(s)@ == old(s)@ + with_decimals(m as nat),
{
    let ghost start = s@;
    append_number(s, m / 1000);
    s.append(".");
    append_digit(s, m / 100 % 10);
    append_digit(s, m / 10 % 10);
    append_digit(s, m % 10);
    assert(s@ =~= start + with_decimals(m as nat));
}

/// What is told of the audio.
pub open spec fn audio_note(audio: bool) -> Seq<char> {
    if audio {
        "audio recodificado a AAC"@
    } else {
        "sin audio"@
    }
}

/// What is told of a file of `n` frames of `w` by `h` pixels.
pub open spec fn note_text(n: nat, w: nat, h: nat, fps: (u32, u32), audio: bool) -> Seq<char> {
    "Reconstruido desde cero (faltaba el indice): "@ + number_text(n) + " frames, "@ + number_text(
        w,
    ) + "x"@ + number_text(h) + " a "@ + with_decimals(milli_fps(fps)) + " fps, "@ + audio_note(
        audio,
    ) + "."@
}

/// Describes a file of `n` frames of `w` by `h` pixels.
pub fn describe(n: usize, w: u32, h: u32, fps: (u32, u32), audio: bool) -> (r: Recovered)
    requires
        is_std_fps(fps),
    ensures
        r.note@ == note_text(n as nat, w as nat, h as nat, fps, audio),
{
    proof {
        let i = choose|i: int| 0 <= i < 10 && #[trigger] STD_FPS[i] == fps;
        assert(fps.1 == 1 || fps.1 == 1001);
    }
    let mut s: String = String::new();
    s.append("Reconstruido desde cero (faltaba el indice): ");
    assert(s@ =~= "Reconstruido desde cero (faltaba el indice): "@);
    append_number(&mut s, n as u64);
    s.append(" frames, ");
    append_number(&mut s, w as u64);
    s.append("x");
    append_number(&mut s, h as u64);
    s.append(" a ");
    let m: u64 = (2000 * fps.0 as u64 + fps.1 as u64) / (2 * fps.1 as u64);
    append_decimals(&mut s, m);
    s.append(" fps, ");
    if audio {
        s.append("audio recodificado a AAC");
    } else {
        s.append("sin audio");
    }
    s.append(".");
    Recovered { note: s }
}

/// The arguments that make a muxer put video and audio together.
pub open spec fn mux_arguments(
    video: Seq<char>,
    audio: Option<Seq<char>>,
    out: Seq<char>,
) -> Seq<Seq<char>> {
    seq!["-v"@, "error"@, "-i"@, video] + (match audio {
        Some(a) => seq!["-i"@, a, "-map"@, "0:v:0"@, "-map"@, "1:a:0"@],
        None => Seq::empty(),
    }) + seq!["-c"@, "copy"@, "-movflags"@, "+faststart"@, out]
}

fn push_text(v: &mut Vec<String>, s: &str)
    ensures
        texts(final(v)@) == texts(old(v)@).push(s@),
{
    let ghost start = texts(v@);
    v.push(String::from_str(s));
    assert(texts(v@) =~= start.push(s@));
}

/// The arguments that make a muxer put video and audio together.
pub fn mux_args(video: &str, audio: Option<&str>, out: &str) -> (r: Vec<String>)
    ensures
        texts(r@) == mux_arguments(
            video@,
            match audio {
                Some(a) => Some(a@),
                None => None,
            },
            out@,
        ),
{
    let mut r: Vec<String> = Vec::new();
    assert(texts(r@) =~= Seq::<Seq<char>>::empty());
    push_text(&mut r, "-v");
    push_text(&mut r, "error");
    push_text(&mut r, "-i");
    push_text(&mut r, video);
    if let Some(a) = audio {
        push_text(&mut r, "-i");
        push_text(&mut r, a);
        push_text(&mut r, "-map");
        push_text(&mut r, "0:v:0");
        push_text(&mut r, "-map");
        push_text(&mut r, "1:a:0");
    }
    push_text(&mut r, "-c");
    push_text(&mut r, "copy");
    push_text(&mut r, "-movflags");
    push_text(&mut r, "+faststart");
    push_text(&mut r, out);
    assert(texts(r@) =~= mux_arguments(
        video@,
        match audio {
            Some(a) => Some(a@),
            None => None,
        },
        out@,
    ));
    r
}

/// The frame rate is told to the nearest thousandth: no other is nearer.
pub proof fn law_frame_rate_is_rounded(fps: (u32, u32))
    requires
        fps.1 > 0,
    ensures
        ({
            let m = milli_fps(fps) as int;
            -(fps.1 as int) < 2 * (m * fps.1 - 1000 * fps.0) <= fps.1
        }),
{
    let den = fps.1 as int;
    let top = 2000 * fps.0 + fps.1;
    let m = milli_fps(fps) as int;
    vstd::arithmetic::div_mod::lemma_fundamental_div_mod(top, 2 * den);
    vstd::arithmetic::div_mod::lemma_mod_bound(top, 2 * den);
    vstd::arithmetic::div_mod::lemma_div_pos_is_pos(top, 2 * den);
    assert(2 * (m * den) == (2 * den) * m) by (nonlinear_arith);
}

/// A number of thousandths is told with three decimals: the digits, without the point,
/// are the number, and the point stands before the last three.
pub proof fn law_thousandths_read_back(m: nat)
    ensures
        ({
            let t = with_decimals(m);
            let n = t.len() as int;
            &&& n >= 5
            &&& t[n - 4] == '.'
            &&& decimal(t.take(n - 4) + t.skip(n - 3)) == m
        }),
{
    let whole = number_text(m / 1000);
    let a = digit((m / 100 % 10) as int);
    let b = digit((m / 10 % 10) as int);
    let c = digit((m % 10) as int);
    let t = with_decimals(m);
    let n = t.len() as int;
    reveal_strlit(".");
    law_number_reads_back(m / 1000);
    assert(t.take(n - 4) =~= whole);
    assert(t.skip(n - 3) =~= seq![a, b, c]);
    law_digits_count_in_tens(whole, a);
    law_digits_count_in_tens(whole.push(a), b);
    law_digits_count_in_tens(whole.push(a).push(b), c);
    assert(whole + seq![a, b, c] =~= whole.push(a).push(b).push(c));
}

/// What is put together goes to where it was asked to, as the last argument; each input
/// follows its own mark, the video before the audio; and of two inputs one stream of
/// each is taken.
pub proof fn law_inputs_follow_their_marks(video: Seq<char>, audio: Seq<char>, out: Seq<char>)
    ensures
        ({
            let a = mux_arguments(video, None, out);
            let b = mux_arguments(video, Some(audio), out);
            &&& a.last() == out && b.last() == out
            &&& a[2] == "-i"@ && a[3] == video && b[2] == "-i"@ && b[3] == video
            &&& b[4] == "-i"@ && b[5] == audio
            &&& b.subrange(6, 10) == seq!["-map"@, "0:v:0"@, "-map"@, "1:a:0"@]
            &&& b.take(4) == a.take(4)
            &&& b.skip(10) == a.skip(4)
            &&& a.subrange(4, 6) == seq!["-c"@, "copy"@]
            &&& a.len() == 9
        }),
{
    let a = mux_arguments(video, None, out);
    let b = mux_arguments(video, Some(audio), out);
    assert(b.take(4) =~= a.take(4));
    assert(b.skip(10) =~= a.skip(4));
    assert(a.subrange(4, 6) =~= seq!["-c"@, "copy"@]);
    assert(b.subrange(6, 10) =~= seq!["-map"@, "0:v:0"@, "-map"@, "1:a:0"@]);
}

} // verus!
