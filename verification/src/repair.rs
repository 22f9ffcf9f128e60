//! Repairing a file: names, places and what to do when the plain way fails.

use crate::fault::Fault;
use crate::text::{
    chars_of, contains, has, is_at, joined_by, line_ranges, lines, parts, stands_at,
};
use vstd::prelude::*;

verus! {

/// What the stem of a repaired file ends with.
pub open spec fn repaired_suffix() -> Seq<char> {
    "_reparado"@
}

/// The name of a repaired file: the stem of the damaged one, the suffix, and its
/// extension, or `mp4` where it has none.
pub open spec fn output_name_text(stem: Seq<char>, ext: Option<Seq<char>>) -> Seq<char> {
    stem + repaired_suffix() + "."@ + (match ext {
        Some(e) => e,
        None => "mp4"@,
    })
}

/// The name of a repaired file.
pub fn output_name(stem: &str, ext: Option<&str>) -> (r: String)
    ensures
        r@ == output_name_text(
            stem@,
            match ext {
                Some(e) => Some(e@),
                None => None,
            },
        ),
{
    let mut r: String = String::from_str(stem);
    r.append("_reparado");
    r.append(".");
    match ext {
        Some(e) => {
            r.append(e);
        },
        None => {
            r.append("mp4");
        },
    }
    r
}

/// A stem that ends with the suffix of repaired files.
pub open spec fn is_repaired_stem(stem: Seq<char>) -> bool {
    stands_at(stem, repaired_suffix(), stem.len() - repaired_suffix().len())
}

/// Whether a file with this stem is one that was repaired. A file whose name has
/// no text for a stem is not.
pub fn is_own_output(stem: Option<&str>) -> (r: bool)
    ensures
        r == (stem matches Some(s) && is_repaired_stem(s@)),
{
    match stem {
        Some(s) => {
            let c: Vec<char> = chars_of(s);
            let suffix: Vec<char> = chars_of("_reparado");
            if c.len() < suffix.len() {
                return false;
            }
            is_at(c.as_slice(), suffix.as_slice(), c.len() - suffix.len())
        },
        None => false,
    }
}

/// A repaired file is known again by its name, so that watching a folder does not
/// repair it once more. The name starts with a stem that ends with the suffix.
pub proof fn law_repaired_files_are_known(stem: Seq<char>, ext: Option<Seq<char>>)
    ensures
        is_repaired_stem(stem + repaired_suffix()),
        output_name_text(stem, ext).take((stem + repaired_suffix()).len() as int) == stem
            + repaired_suffix(),
        output_name_text(stem, ext)[(stem + repaired_suffix()).len() as int] == '.',
{
    let s = stem + repaired_suffix();
    assert(s.subrange(s.len() - repaired_suffix().len(), s.len() as int) =~= repaired_suffix());
    reveal_strlit(".");
    assert(output_name_text(stem, ext).take(s.len() as int) =~= s);
}

/// The folder that was asked for: an empty name asks for none.
pub fn asked_dir(dir: Option<&str>) -> (r: Option<&str>)
    ensures
        r == (match dir {
            Some(d) => if d@.len() > 0 {
                Some(d)
            } else {
                None
            },
            None => None,
        }),
{
    match dir {
        Some(d) => if d.unicode_len() > 0 {
            Some(d)
        } else {
            None
        },
        None => None,
    }
}

/// What a failed remux calls for.
pub enum Failure {
    /// The file has no index, and one has to be rebuilt.
    NoIndex,
    /// Nothing can be done; the user is told why.
    Told {
        /// What the user is told.
        text: String,
    },
}

/// The last `n` of `ls`, or all of them.
pub open spec fn last_lines(ls: Seq<Seq<char>>, n: int) -> Seq<Seq<char>> {
    if ls.len() <= n {
        ls
    } else {
        ls.skip(ls.len() - n)
    }
}

/// The end of what ffmpeg said.
pub open spec fn tail_of(err: Seq<char>) -> Seq<char> {
    joined_by(last_lines(lines(err), 6), "\n"@)
}

/// What the user is told when ffmpeg fails.
pub open spec fn failure_text(err: Seq<char>) -> Seq<char> {
    "ffmpeg no pudo reparar el video:\n"@ + if tail_of(err).len() == 0 {
        "(sin detalles, revisa que el archivo no este completamente vacio)"@
    } else {
        tail_of(err)
    }
}

/// ffmpeg found no index.
pub open spec fn lacks_index(err: Seq<char>) -> bool {
    has(err, "moov atom not found"@)
}

/// The end of what ffmpeg said.
fn tail(err: &str) -> (r: String)
    ensures
        r@ == tail_of(err@),
{
    let c: Vec<char> = chars_of(err);
    let ranges: Vec<(usize, usize)> = line_ranges(c.as_slice());
    let n: usize = ranges.len();
    let from: usize = if n > 6 {
        n - 6
    } else {
        0
    };
    let ghost all = lines(err@);
    let ghost last = last_lines(all, 6);
    let mut r: String = String::new();
    let mut i: usize = from;
    assert(r@ =~= joined_by(last.take(0), "\n"@));
    while i < n
        invariant
            from <= i <= n == ranges@.len() == all.len(),
            c@ == err@,
            all == parts(err@, ranges@),
            last.len() == n - from,
            forall|k: int| 0 <= k < last.len() ==> #[trigger] last[k] == all[k + from],
            forall|k: int|
                0 <= k < ranges@.len() ==> (#[trigger] ranges@[k]).0 <= ranges@[k].1 <= err@.len(),
            r@ == joined_by(last.take(i - from), "\n"@),
        decreases n - i,
    {
        let ghost k = i - from;
        if i > from {
            r.append("\n");
        }
        let (a, b): (usize, usize) = ranges[i];
        r.append(err.substring_char(a, b));
        proof {
            let t = last.take(k + 1);
            assert(t.drop_last() =~= last.take(k));
            assert(t.last() == parts(err@, ranges@)[i as int]);
            if k == 0 {
                assert(joined_by(last.take(0), "\n"@) =~= Seq::<char>::empty());
                assert(r@ =~= t[0]);
            } else {
                assert(r@ =~= joined_by(last.take(k), "\n"@) + "\n"@ + t.last());
            }
        }
        i = i + 1;
    }
    assert(last.take(n - from) =~= last);
    r
}

/// What a failed remux calls for, by what ffmpeg said.
pub fn remux_failure(err: &str) -> (r: Failure)
    ensures
        r is NoIndex <==> lacks_index(err@),
        r matches Failure::Told { text } ==> text@ == failure_text(err@),
{
    let c: Vec<char> = chars_of(err);
    if contains(c.as_slice(), chars_of("moov atom not found").as_slice()) {
        return Failure::NoIndex;
    }
    let t: String = tail(err);
    let mut text: String = String::from_str("ffmpeg no pudo reparar el video:\n");
    if t.as_str().unicode_len() == 0 {
        text.append("(sin detalles, revisa que el archivo no este completamente vacio)");
    } else {
        text.append(t.as_str());
    }
    Failure::Told { text }
}

/// What the user is told when the index cannot be rebuilt.
pub fn rebuild_failure(why: &str) -> (r: String)
    ensures
        r@ == "El video no tiene indice (moov) y la reconstruccion fallo:\n"@ + why@,
{
    let mut r: String = String::from_str(
        "El video no tiene indice (moov) y la reconstruccion fallo:\n",
    );
    r.append(why);
    r
}

/// The last of `ls`, or nothing.
pub open spec fn last_line(ls: Seq<Seq<char>>) -> Seq<char> {
    if ls.len() == 0 {
        Seq::empty()
    } else {
        ls.last()
    }
}

/// What the user is told when the parts cannot be put together.
pub fn mux_failure(err: &str) -> (r: String)
    ensures
        r@ == "No se pudo armar el MP4 final: "@ + last_line(lines(err@)),
{
    let c: Vec<char> = chars_of(err);
    let ranges: Vec<(usize, usize)> = line_ranges(c.as_slice());
    let mut r: String = String::from_str("No se pudo armar el MP4 final: ");
    let n: usize = ranges.len();
    assert(parts(err@, ranges@).len() == n);
    if n > 0 {
        let (a, b): (usize, usize) = ranges[n - 1];
        assert(lines(err@).last() == parts(err@, ranges@)[n - 1]);
        r.append(err.substring_char(a, b));
    } else {
        assert(r@ =~= "No se pudo armar el MP4 final: "@ + Seq::<char>::empty());
    }
    r
}

/// A repaired file has to hold something.
pub fn check_output(size: u64) -> (r: Result<u64, Fault>)
    ensures
        size > 0 ==> r == Ok::<u64, Fault>(size),
        size == 0 ==> r == Err::<u64, Fault>(Fault::EmptyOutput),
{
    if size == 0 {
        Err(Fault::EmptyOutput)
    } else {
        Ok(size)
    }
}

/// The first of `args`, from number `i` on, that is no option.
pub open spec fn path_from(args: Seq<String>, i: int) -> Option<int>
    decreases args.len() - i,
{
    if i < 0 || i >= args.len() {
        None
    } else if !stands_at(args[i]@, "-"@, 0) {
        Some(i)
    } else {
        path_from(args, i + 1)
    }
}

/// Which of a program's arguments is the file to open: the first behind the
/// program's name that does not start with a hyphen.
pub fn path_argument(args: &Vec<String>) -> (r: Option<usize>)
    ensures
        r is Some <==> path_from(args@, 1) is Some,
        r matches Some(i) ==> path_from(args@, 1) == Some(i as int) && i < args@.len(),
{
    let hyphen: Vec<char> = chars_of("-");
    proof {
        reveal_strlit("-");
    }
    let n: usize = args.len();
    let mut i: usize = 1;
    while i < n
        invariant
            1 <= i,
            i <= n || i == 1,
            n == args@.len(),
            hyphen@ == "-"@,
            hyphen@.len() == 1,
            path_from(args@, 1) == path_from(args@, i as int),
        decreases n - i,
    {
        let c: Vec<char> = chars_of(args[i].as_str());
        if c.len() == 0 || !is_at(c.as_slice(), hyphen.as_slice(), 0) {
            return Some(i);
        }
        i = i + 1;
    }
    None
}

/// A stem is that of a repaired file if its last nine letters are the suffix.
pub proof fn law_repaired_stems_end_alike(stem: Seq<char>)
    ensures
        is_repaired_stem(stem) <==> stem.len() >= 9 && stem.skip(stem.len() - 9) == "_reparado"@,
{
    reveal_strlit("_reparado");
    if stem.len() >= 9 {
        assert(stem.subrange(stem.len() - 9, stem.len() as int) =~= stem.skip(stem.len() - 9));
    }
}

/// The name of a repaired file is read apart again: the damaged one's stem stands before
/// the suffix and the dot, and behind them its extension, or `mp4`.
pub proof fn law_names_read_apart(stem: Seq<char>, ext: Option<Seq<char>>)
    ensures
        ({
            let name = output_name_text(stem, ext);
            let n = stem.len() as int;
            &&& name.take(n) == stem
            &&& name.subrange(n, n + 10) == "_reparado."@
            &&& name.skip(n + 10) == match ext {
                Some(e) => e,
                None => "mp4"@,
            }
        }),
{
    reveal_strlit("_reparado");
    reveal_strlit(".");
    reveal_strlit("_reparado.");
    let name = output_name_text(stem, ext);
    let n = stem.len() as int;
    assert(name.take(n) =~= stem);
    assert(name.subrange(n, n + 10) =~= "_reparado."@);
    assert(name.skip(n + 10) =~= match ext {
        Some(e) => e,
        None => "mp4"@,
    });
}

/// The end of what ffmpeg said is made of its lines, the last six or all of them, in
/// order.
pub proof fn law_last_six_lines_are_told(err: Seq<char>) -> (told: Seq<Seq<char>>)
    ensures
        tail_of(err) == joined_by(told, "\n"@),
        told.len() == if lines(err).len() < 6 {
            lines(err).len()
        } else {
            6
        },
        forall|k: int|
            0 <= k < told.len() ==> #[trigger] told[k] == lines(err)[lines(err).len() - told.len()
                + k],
{
    last_lines(lines(err), 6)
}

/// Whatever ffmpeg said, the user is told something behind the colon, and it is the end
/// of what ffmpeg said where there is one.
pub proof fn law_the_user_is_told_something(err: Seq<char>)
    ensures
        ({
            let t = failure_text(err);
            let n = "ffmpeg no pudo reparar el video:\n"@.len() as int;
            &&& n == 33
            &&& t.len() > n
            &&& t.take(n) == "ffmpeg no pudo reparar el video:\n"@
            &&& tail_of(err).len() > 0 ==> t.skip(n) == tail_of(err)
        }),
{
    reveal_strlit("ffmpeg no pudo reparar el video:\n");
    reveal_strlit("(sin detalles, revisa que el archivo no este completamente vacio)");
    let t = failure_text(err);
    let n = "ffmpeg no pudo reparar el video:\n"@.len() as int;
    assert(t.take(n) =~= "ffmpeg no pudo reparar el video:\n"@);
    if tail_of(err).len() > 0 {
        assert(t.skip(n) =~= tail_of(err));
    }
}

/// A file lacks its index wherever in its words ffmpeg says so, and not where it says
/// nothing of it.
pub proof fn law_missing_index_is_read_anywhere(a: Seq<char>, b: Seq<char>, err: Seq<char>)
    ensures
        lacks_index(a + "moov atom not found"@ + b),
        err.len() < 19 ==> !lacks_index(err),
{
    reveal_strlit("moov atom not found");
    let pat = "moov atom not found"@;
    let s = a + pat + b;
    assert(s.subrange(a.len() as int, (a.len() + pat.len()) as int) =~= pat);
    assert(stands_at(s, pat, a.len() as int));
}

} // verus!
