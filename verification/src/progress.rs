//! How far ffmpeg says it got.

use crate::text::{chars_of, is_at, line_ranges, lines, parts, stands_at, texts};
use vstd::prelude::*;

verus! {

/// What a line that tells a time starts with.
pub open spec fn time_prefix() -> Seq<char> {
    "out_time_us="@
}

/// The time that a line tells, in the text that stands for it.
pub open spec fn time_text(line: Seq<char>) -> Option<Seq<char>> {
    if stands_at(line, time_prefix(), 0) {
        Some(line.skip(time_prefix().len() as int))
    } else {
        None
    }
}

/// The text of the time that a line tells, in microseconds.
pub fn out_time(line: &str) -> (r: Option<&str>)
    ensures
        r is Some <==> time_text(line@) is Some,
        r matches Some(t) ==> time_text(line@) == Some(t@),
{
    let c: Vec<char> = chars_of(line);
    let prefix: Vec<char> = chars_of("out_time_us=");
    if c.len() < prefix.len() || !is_at(c.as_slice(), prefix.as_slice(), 0) {
        return None;
    }
    let t: &str = line.substring_char(prefix.len(), c.len());
    assert(t@ =~= line@.skip(prefix@.len() as int));
    Some(t)
}

/// The times that `ls` tell.
pub open spec fn times_of(ls: Seq<Seq<char>>) -> Seq<Seq<char>>
    decreases ls.len(),
{
    if ls.len() == 0 {
        Seq::empty()
    } else {
        let r = times_of(ls.drop_last());
        match time_text(ls.last()) {
            Some(t) => r.push(t),
            None => r,
        }
    }
}

/// The texts of all times that ffmpeg told.
pub fn out_times(out: &str) -> (r: Vec<String>)
    ensures
        texts(r@) == times_of(lines(out@)),
{
    let c: Vec<char> = chars_of(out);
    let ranges: Vec<(usize, usize)> = line_ranges(c.as_slice());
    let ghost all = lines(out@);
    let mut r: Vec<String> = Vec::new();
    let mut i: usize = 0;
    assert(texts(r@) =~= times_of(all.take(0)));
    while i < ranges.len()
        invariant
            i <= ranges@.len() == all.len(),
            all == parts(out@, ranges@),
            forall|k: int|
                0 <= k < ranges@.len() ==> (#[trigger] ranges@[k]).0 <= ranges@[k].1 <= out@.len(),
            texts(r@) == times_of(all.take(i as int)),
        decreases ranges@.len() - i,
    {
        let (a, b): (usize, usize) = ranges[i];
        let line: &str = out.substring_char(a, b);
        proof {
            assert(line@ == parts(out@, ranges@)[i as int]);
            let t = all.take(i + 1);
            assert(t.drop_last() =~= all.take(i as int));
            assert(t.last() == line@);
        }
        let ghost before = texts(r@);
        match out_time(line) {
            Some(t) => {
                r.push(String::from_str(t));
                assert(texts(r@) =~= before.push(t@));
            },
            None => {},
        }
        i = i + 1;
    }
    assert(all.take(i as int) =~= all);
    r
}

/// A line tells a time if and only if it is the prefix and the time's text.
pub proof fn law_time_follows_the_prefix(line: Seq<char>, t: Seq<char>)
    ensures
        time_text(line) == Some(t) <==> line == "out_time_us="@ + t,
{
    reveal_strlit("out_time_us=");
    let p = "out_time_us="@;
    if line == p + t {
        assert(line.subrange(0, p.len() as int) =~= p);
        assert(line.skip(p.len() as int) =~= t);
    }
    if time_text(line) == Some(t) {
        assert(line =~= line.subrange(0, p.len() as int) + line.skip(p.len() as int));
    }
}

/// The times are told in the order of the lines: those of what comes first, then those
/// of what follows. One line tells its own.
pub proof fn law_times_follow_the_lines(a: Seq<Seq<char>>, b: Seq<Seq<char>>, line: Seq<char>)
    ensures
        times_of(a + b) == times_of(a) + times_of(b),
        times_of(seq![line]) == match time_text(line) {
            Some(t) => seq![t],
            None => Seq::empty(),
        },
    decreases b.len(),
{
    assert(seq![line].drop_last() =~= Seq::<Seq<char>>::empty());
    assert(times_of(Seq::<Seq<char>>::empty()) =~= Seq::<Seq<char>>::empty());
    assert(times_of(seq![line]) =~= match time_text(line) {
        Some(t) => seq![t],
        None => Seq::empty(),
    });
    if b.len() == 0 {
        assert(a + b =~= a);
        assert(times_of(a) + times_of(b) =~= times_of(a));
    } else {
        law_times_follow_the_lines(a, b.drop_last(), line);
        assert((a + b).drop_last() =~= a + b.drop_last());
        assert((a + b).last() == b.last());
        assert(times_of(a + b) =~= times_of(a) + times_of(b));
    }
}

} // verus!
