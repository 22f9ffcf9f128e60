//! Finding x264's options in the user data that it writes into the stream.
//!
//! x264 leaves a line such as `options: cabac=1 ref=3 deblock=1:0:0` in its
//! first frame. Values are decimal numbers, some with a fraction; turning such
//! a text into a whole number is left to the caller.

use crate::fault::Fault;
use crate::text::{
    before, char_from, chars_of, find, find_char, find_from, has, is_at, is_space,
    law_a_word_is_one_word, law_before_the_first, law_white_space_separates_words,
    lemma_char_from_is, lemma_find_from, next_word, stands_at, words, words_from,
};
use crate::x264::X264;
use vstd::prelude::*;
use vstd::slice::slice_subrange;
use vstd::utf8::{decode_utf8, valid_utf8};

verus! {

/// The text that [`String::from_utf8_lossy`] makes of a byte string.
pub uninterp spec fn lossy_text(b: Seq<u8>) -> Seq<char>;

/// Calls [`String::from_utf8_lossy`]. The result depends on the bytes alone;
/// bytes that are UTF-8 are decoded, and what stands for those that are not is
/// left unsaid.
#[verifier::external_body]
pub(crate) fn from_utf8_lossy(b: &[u8]) -> (r: String)
    ensures
        r@ == lossy_text(b@),
        valid_utf8(b@) ==> r@ == decode_utf8(b@),
{
    String::from_utf8_lossy(b).into_owned()
}

/// The option list: what follows the signature, up to a NUL.
pub open spec fn option_list(text: Seq<char>) -> Option<Seq<char>> {
    match find_from(text, "options:"@, 0) {
        Some(i) => Some(before(text.skip(i + 8), '\0')),
        None => None,
    }
}

/// The value that the last of the words `key=value` gives `key`.
pub open spec fn setting(ws: Seq<Seq<char>>, key: Seq<char>) -> Option<Seq<char>>
    decreases ws.len(),
{
    if ws.len() == 0 {
        None
    } else {
        let w = ws.last();
        let e = char_from(w, '=', 0);
        if e < w.len() && w.take(e) == key {
            Some(w.skip(e + 1))
        } else {
            setting(ws.drop_last(), key)
        }
    }
}

/// The text of the number that `key` is set to, up to a colon.
pub open spec fn number_text(list: Seq<char>, key: Seq<char>) -> Option<Seq<char>> {
    match setting(words(list), key) {
        Some(v) => Some(before(v, ':')),
        None => None,
    }
}

/// The options that are looked at.
pub open spec fn option_keys() -> Seq<Seq<char>> {
    seq![
        "interlaced"@,
        "cqm"@,
        "open_gop"@,
        "sliced_threads"@,
        "slices"@,
        "cabac"@,
        "bframes"@,
        "b_pyramid"@,
        "ref"@,
        "8x8dct"@,
        "weightp"@,
        "weightb"@,
        "chroma_qp_offset"@,
        "constrained_intra"@,
        "keyint"@,
    ]
}

/// The number of an option, or the one that x264 uses where it is not set.
pub open spec fn or_default(n: Option<i64>, default: i64) -> i64 {
    match n {
        Some(v) => v,
        None => default,
    }
}

/// The settings that the numbers of the options, in the order of
/// [`option_keys`], stand for.
pub open spec fn settings_of(n: Seq<Option<i64>>) -> Result<X264, Fault> {
    if or_default(n[0], 0) != 0 || or_default(n[1], 0) != 0 || or_default(n[2], 0) != 0 {
        Err(Fault::UnsupportedCoding)
    } else if or_default(n[3], 0) != 0 || or_default(n[4], 1) > 1 {
        Err(Fault::UnsupportedSlices)
    } else {
        Ok(
            X264 {
                cabac: or_default(n[5], 1) != 0,
                bframes: or_default(n[6], 3) as u32,
                pyramid: or_default(n[7], 2) as u32,
                refs: or_default(n[8], 3) as u32,
                t8x8: or_default(n[9], 1) != 0,
                weightp: or_default(n[10], 2) as u32,
                weightb: or_default(n[11], 1) != 0,
                cqo: or_default(n[12], 0) as i32,
                constrained: or_default(n[13], 0) != 0,
                keyint: or_default(n[14], 250) as u32,
            },
        )
    }
}

/// `n` is what `number` made of the text, and nothing where there is no text.
pub open spec fn reads_as<F: Fn(&str) -> Option<i64>>(
    number: F,
    text: Option<Seq<char>>,
    n: Option<i64>,
) -> bool {
    match text {
        Some(t) => exists|s: &str| #[trigger] s@ == t && call_ensures(number, (s,), n),
        None => n is None,
    }
}

/// `r` are the settings that an option list stands for, where `number` turns
/// the texts of its numbers into whole numbers.
pub open spec fn settings_read<F: Fn(&str) -> Option<i64>>(
    text: Seq<char>,
    number: F,
    r: Result<X264, Fault>,
) -> bool {
    match option_list(text) {
        None => r == Err::<X264, Fault>(Fault::NoOptions),
        Some(list) => exists|n: Seq<Option<i64>>|
            #![trigger settings_of(n)]
            {
                &&& n.len() == option_keys().len()
                &&& forall|k: int|
                    0 <= k < n.len() ==> reads_as(
                        number,
                        number_text(list, option_keys()[k]),
                        #[trigger] n[k],
                    )
                &&& r == settings_of(n)
            },
    }
}

/// Where in `list` the text of the number of `key` stands.
pub fn find_number(list: &[char], key: &[char]) -> (r: Option<(usize, usize)>)
    ensures
        r is Some <==> number_text(list@, key@) is Some,
        r matches Some((a, b)) ==> a <= b <= list@.len() && number_text(list@, key@) == Some(
            list@.subrange(a as int, b as int),
        ),
{
    let mut found: Option<(usize, usize)> = None;
    let ghost mut ws: Seq<Seq<char>> = Seq::empty();
    let mut pos: usize = 0;
    assert(ws + words_from(list@, 0) =~= words(list@));
    loop
        invariant
            pos <= list@.len(),
            words(list@) == ws + words_from(list@, pos as int),
            found is Some <==> setting(ws, key@) is Some,
            found matches Some((a, b)) ==> a <= b <= list@.len() && setting(ws, key@) == Some(
                list@.subrange(a as int, b as int),
            ),
        ensures
            words(list@) == ws,
        decreases list@.len() - pos,
    {
        let (a, b) = next_word(list, pos);
        if a == list.len() {
            assert(words_from(list@, pos as int) =~= Seq::<Seq<char>>::empty());
            assert(ws + words_from(list@, pos as int) =~= ws);
            break;
        }
        let ghost w = list@.subrange(a as int, b as int);
        let word: &[char] = slice_subrange(list, a, b);
        let e: usize = find_char(word, '=', 0);
        if e < word.len() && e == key.len() && is_at(word, key, 0) {
            assert(w.subrange(0, e as int) =~= w.take(e as int));
            assert(w.skip(e + 1) =~= list@.subrange(a + e + 1, b as int));
            found = Some((a + e + 1, b));
        } else {
            proof {
                if e < w.len() && w.take(e as int) == key@ {
                    assert(w.subrange(0, e as int) =~= w.take(e as int));
                }
            }
        }
        proof {
            assert(ws.push(w).drop_last() =~= ws);
            assert(ws + words_from(list@, pos as int) =~= ws.push(w) + words_from(list@, b as int));
            ws = ws.push(w);
        }
        pos = b;
    }
    match found {
        None => None,
        Some((a, b)) => {
            let v: &[char] = slice_subrange(list, a, b);
            let e: usize = find_char(v, ':', 0);
            assert(v@.take(e as int) =~= list@.subrange(a as int, a + e));
            Some((a, a + e))
        },
    }
}

/// The settings that the numbers of the options, in the order of
/// [`option_keys`], stand for.
pub fn settings(n: &Vec<Option<i64>>) -> (r: Result<X264, Fault>)
    requires
        n@.len() == option_keys().len(),
    ensures
        r == settings_of(n@),
{
    if value_or(n[0], 0) != 0 || value_or(n[1], 0) != 0 || value_or(n[2], 0) != 0 {
        return Err(Fault::UnsupportedCoding);
    }
    if value_or(n[3], 0) != 0 || value_or(n[4], 1) > 1 {
        return Err(Fault::UnsupportedSlices);
    }
    Ok(
        X264 {
            cabac: value_or(n[5], 1) != 0,
            bframes: value_or(n[6], 3) as u32,
            pyramid: value_or(n[7], 2) as u32,
            refs: value_or(n[8], 3) as u32,
            t8x8: value_or(n[9], 1) != 0,
            weightp: value_or(n[10], 2) as u32,
            weightb: value_or(n[11], 1) != 0,
            cqo: value_or(n[12], 0) as i32,
            constrained: value_or(n[13], 0) != 0,
            keyint: value_or(n[14], 250) as u32,
        },
    )
}

fn value_or(n: Option<i64>, default: i64) -> (r: i64)
    ensures
        r == or_default(n, default),
{
    match n {
        Some(v) => v,
        None => default,
    }
}

/// The settings that an option list in `text` stands for. `number` turns the
/// text of an option's value into a whole number.
pub fn parse_x264_text<F: Fn(&str) -> Option<i64>>(text: &str, number: F) -> (r: Result<
    X264,
    Fault,
>)
    requires
        forall|t: &str| call_requires(number, (t,)),
    ensures
        settings_read(text@, number, r),
{
    let chars: Vec<char> = chars_of(text);
    let from: usize = match find(chars.as_slice(), chars_of("options:").as_slice(), 0) {
        Some(i) => i,
        None => {
            return Err(Fault::NoOptions);
        },
    };
    proof {
        reveal_strlit("options:");
        lemma_find_from(text@, "options:"@, 0);
    }
    let total: usize = chars.len();
    assert(from + 8 <= total);
    let rest: &[char] = slice_subrange(chars.as_slice(), from + 8, total);
    assert(rest@ =~= text@.skip(from + 8));
    let len: usize = find_char(rest, '\0', 0);
    let list: &[char] = slice_subrange(rest, 0, len);
    assert(list@ =~= before(text@.skip(from + 8), '\0'));
    assert(option_list(text@) == Some(list@));
    let keys: [&str; 15] = [
        "interlaced",
        "cqm",
        "open_gop",
        "sliced_threads",
        "slices",
        "cabac",
        "bframes",
        "b_pyramid",
        "ref",
        "8x8dct",
        "weightp",
        "weightb",
        "chroma_qp_offset",
        "constrained_intra",
        "keyint",
    ];
    assert(forall|k: int| 0 <= k < 15 ==> (#[trigger] keys@[k])@ == option_keys()[k]);
    let mut n: Vec<Option<i64>> = Vec::new();
    let mut k: usize = 0;
    while k < 15
        invariant
            k <= 15,
            n@.len() == k,
            forall|t: &str| call_requires(number, (t,)),
            from + 8 + len <= total,
            total == text@.len(),
            len == list@.len(),
            list@ == text@.subrange(from + 8, from + 8 + len),
            forall|j: int| 0 <= j < 15 ==> (#[trigger] keys@[j])@ == option_keys()[j],
            forall|j: int|
                0 <= j < k ==> reads_as(
                    number,
                    number_text(list@, option_keys()[j]),
                    #[trigger] n@[j],
                ),
        decreases 15 - k,
    {
        let key: &str = keys[k];
        assert(keys@[k as int]@ == option_keys()[k as int]);
        let v: Option<i64> = match find_number(list, chars_of(key).as_slice()) {
            None => None,
            Some((a, b)) => {
                let t: &str = text.substring_char(from + 8 + a, from + 8 + b);
                assert(t@ =~= list@.subrange(a as int, b as int));
                number(t)
            },
        };
        assert(reads_as(number, number_text(list@, option_keys()[k as int]), v));
        n.push(v);
        k = k + 1;
    }
    settings(&n)
}

/// The settings in the user data that x264 leaves in its first frame. `number`
/// turns the text of an option's value into a whole number.
pub fn parse_x264<F: Fn(&str) -> Option<i64>>(sei: &[u8], number: F) -> (r: Result<X264, Fault>)
    requires
        forall|t: &str| call_requires(number, (t,)),
    ensures
        settings_read(lossy_text(sei@), number, r),
        valid_utf8(sei@) ==> lossy_text(sei@) == decode_utf8(sei@),
        valid_utf8(sei@) ==> settings_read(decode_utf8(sei@), number, r),
{
    let text: String = from_utf8_lossy(sei);
    parse_x264_text(text.as_str(), number)
}

/// The number that x264 uses for an option that is not set, in the order of
/// [`option_keys`].
pub open spec fn usual_number(k: int) -> i64 {
    if k == 4 || k == 5 || k == 9 || k == 11 {
        1
    } else if k == 6 || k == 8 {
        3
    } else if k == 7 || k == 10 {
        2
    } else if k == 14 {
        250
    } else {
        0
    }
}

/// An option that is set to its usual number reads like one that is left out.
pub proof fn law_usual_numbers_may_be_left_out(n: Seq<Option<i64>>, k: int)
    requires
        n.len() == 15,
        0 <= k < 15,
        n[k] is None,
    ensures
        settings_of(n.update(k, Some(usual_number(k)))) == settings_of(n),
{
}

/// A video is refused for its coding exactly if `interlaced`, `cqm` or `open_gop` is
/// set to a number other than 0; else, for its slices, exactly if `sliced_threads` is
/// set to a number other than 0 or `slices` to more than 1. All others are accepted.
pub proof fn law_refusals(n: Seq<Option<i64>>)
    requires
        n.len() == 15,
    ensures
        ({
            let coding = exists|k: int| 0 <= k < 3 && (#[trigger] n[k] matches Some(v) && v != 0);
            let slices = (n[3] matches Some(v) && v != 0) || (n[4] matches Some(v) && v > 1);
            &&& settings_of(n) == Err::<X264, Fault>(Fault::UnsupportedCoding) <==> coding
            &&& settings_of(n) == Err::<X264, Fault>(Fault::UnsupportedSlices) <==> !coding
                && slices
            &&& settings_of(n) is Ok <==> !coding && !slices
        }),
{
    if n[0] matches Some(v) && v != 0 {
        assert(n[0] is Some);
    }
    if n[1] matches Some(v) && v != 0 {
        assert(n[1] is Some);
    }
    if n[2] matches Some(v) && v != 0 {
        assert(n[2] is Some);
    }
}

/// The settings of a video that is accepted are the numbers of their options, and a
/// flag is on unless its number is 0.
pub proof fn law_settings_are_the_numbers(n: Seq<Option<i64>>)
    requires
        n.len() == 15,
    ensures
        settings_of(n) matches Ok(x) ==> {
            &&& n[5] matches Some(v) ==> x.cabac == (v != 0)
            &&& n[6] matches Some(v) ==> (0 <= v <= u32::MAX ==> x.bframes == v)
            &&& n[7] matches Some(v) ==> (0 <= v <= u32::MAX ==> x.pyramid == v)
            &&& n[8] matches Some(v) ==> (0 <= v <= u32::MAX ==> x.refs == v)
            &&& n[9] matches Some(v) ==> x.t8x8 == (v != 0)
            &&& n[10] matches Some(v) ==> (0 <= v <= u32::MAX ==> x.weightp == v)
            &&& n[11] matches Some(v) ==> x.weightb == (v != 0)
            &&& n[12] matches Some(v) ==> (i32::MIN <= v <= i32::MAX ==> x.cqo == v)
            &&& n[13] matches Some(v) ==> x.constrained == (v != 0)
            &&& n[14] matches Some(v) ==> (0 <= v <= u32::MAX ==> x.keyint == v)
        },
{
}

/// The names of the options.
pub proof fn law_option_names()
    ensures
        option_keys().len() == 15,
        option_keys()[0] == "interlaced"@,
        option_keys()[1] == "cqm"@,
        option_keys()[2] == "open_gop"@,
        option_keys()[3] == "sliced_threads"@,
        option_keys()[4] == "slices"@,
        option_keys()[5] == "cabac"@,
        option_keys()[6] == "bframes"@,
        option_keys()[7] == "b_pyramid"@,
        option_keys()[8] == "ref"@,
        option_keys()[9] == "8x8dct"@,
        option_keys()[10] == "weightp"@,
        option_keys()[11] == "weightb"@,
        option_keys()[12] == "chroma_qp_offset"@,
        option_keys()[13] == "constrained_intra"@,
        option_keys()[14] == "keyint"@,
{
}

proof fn lemma_setting_behind(a: Seq<Seq<char>>, b: Seq<Seq<char>>, key: Seq<char>)
    ensures
        setting(a + b, key) == if setting(b, key) is Some {
            setting(b, key)
        } else {
            setting(a, key)
        },
    decreases b.len(),
{
    if b.len() == 0 {
        assert(a + b =~= a);
    } else {
        assert((a + b).drop_last() =~= a + b.drop_last());
        assert((a + b).last() == b.last());
        lemma_setting_behind(a, b.drop_last(), key);
    }
}

proof fn lemma_word_sets(key: Seq<char>, value: Seq<char>)
    requires
        !key.contains('='),
    ensures
        setting(seq![key.push('=') + value], key) == Some(value),
{
    let w = key.push('=') + value;
    law_before_the_first(key, '=', value);
    let e = char_from(w, '=', 0);
    assert(w.take(e) == key);
    assert(e == key.len()) by {
        lemma_char_from_place(key, '=', value);
    }
    assert(w.skip(e + 1) =~= value);
    assert(seq![w].last() == w);
}

proof fn lemma_char_from_place(a: Seq<char>, c: char, b: Seq<char>)
    requires
        !a.contains(c),
    ensures
        char_from(a.push(c) + b, c, 0) == a.len(),
{
    let s = a.push(c) + b;
    assert forall|k: int| 0 <= k < a.len() implies #[trigger] s[k] != c by {
        assert(a.contains(a[k]));
    }
    lemma_char_from_is(s, c, 0, a.len() as int);
}

proof fn lemma_not_set(ws: Seq<Seq<char>>, key: Seq<char>)
    requires
        forall|i: int, v: Seq<char>|
            0 <= i < ws.len() ==> #[trigger] ws[i] != #[trigger] (key.push('=') + v),
    ensures
        setting(ws, key) is None,
    decreases ws.len(),
{
    if ws.len() > 0 {
        let w = ws.last();
        let e = char_from(w, '=', 0);
        lemma_char_from_found(w, '=', 0);
        if e < w.len() && w.take(e) == key {
            let v = w.skip(e + 1);
            assert(w =~= key.push('=') + v);
            assert(ws[ws.len() - 1] != key.push('=') + v);
        }
        assert forall|i: int, v: Seq<char>| 0 <= i < ws.drop_last().len() implies
            #[trigger] ws.drop_last()[i] != #[trigger] (key.push('=') + v) by {
            assert(ws[i] != key.push('=') + v);
        }
        lemma_not_set(ws.drop_last(), key);
    }
}

proof fn lemma_char_from_found(s: Seq<char>, c: char, i: int)
    requires
        0 <= i <= s.len(),
    ensures
        i <= char_from(s, c, i) <= s.len(),
        char_from(s, c, i) < s.len() ==> s[char_from(s, c, i)] == c,
    decreases s.len() - i,
{
    if i < s.len() && s[i] != c {
        lemma_char_from_found(s, c, i + 1);
    }
}

/// The number of an option is what stands behind its name and an equals sign, in a
/// word of its own, up to a colon. Of several such words the last counts.
pub proof fn law_last_setting_is_read(
    a: Seq<char>,
    key: Seq<char>,
    value: Seq<char>,
    more: Seq<char>,
    b: Seq<char>,
    before_word: char,
    behind_word: char,
)
    requires
        is_space(before_word),
        is_space(behind_word),
        !key.contains('='),
        forall|k: int| 0 <= k < key.len() ==> !is_space(#[trigger] key[k]),
        forall|k: int| 0 <= k < value.len() ==> !is_space(#[trigger] value[k]),
        forall|k: int| 0 <= k < more.len() ==> !is_space(#[trigger] more[k]),
        !value.contains(':'),
        forall|i: int, v: Seq<char>|
            0 <= i < words(b).len() ==> #[trigger] words(b)[i] != #[trigger] (key.push('=') + v),
    ensures
        number_text(
            a.push(before_word) + ((key.push('=') + value).push(behind_word) + b),
            key,
        ) == Some(value),
        number_text(
            a.push(before_word) + ((key.push('=') + (value.push(':') + more)).push(behind_word)
                + b),
            key,
        ) == Some(value),
{
    lemma_last_setting(a, key, value, b, before_word, behind_word);
    let long = value.push(':') + more;
    lemma_last_setting(a, key, long, b, before_word, behind_word);
    law_before_the_first(value, ':', more);
}

proof fn lemma_last_setting(
    a: Seq<char>,
    key: Seq<char>,
    value: Seq<char>,
    b: Seq<char>,
    before_word: char,
    behind_word: char,
)
    requires
        is_space(before_word),
        is_space(behind_word),
        !key.contains('='),
        forall|k: int| 0 <= k < key.len() ==> !is_space(#[trigger] key[k]),
        forall|k: int| 0 <= k < value.len() ==> !is_space(#[trigger] value[k]),
        forall|i: int, v: Seq<char>|
            0 <= i < words(b).len() ==> #[trigger] words(b)[i] != #[trigger] (key.push('=') + v),
    ensures
        setting(
            words(a.push(before_word) + ((key.push('=') + value).push(behind_word) + b)),
            key,
        ) == Some(value),
{
    let w = key.push('=') + value;
    assert forall|k: int| 0 <= k < w.len() implies !is_space(#[trigger] w[k]) by {
        if k < key.len() {
            assert(!is_space(key[k]));
        } else if k > key.len() {
            assert(!is_space(value[k - key.len() - 1]));
        }
    }
    law_white_space_separates_words(a, before_word, w.push(behind_word) + b);
    law_white_space_separates_words(w, behind_word, b);
    law_a_word_is_one_word(w);
    lemma_setting_behind(words(a), seq![w] + words(b), key);
    lemma_setting_behind(seq![w], words(b), key);
    lemma_word_sets(key, value);
    lemma_not_set(words(b), key);
}

/// An option that no word sets has no number.
pub proof fn law_unset_option_has_no_number(list: Seq<char>, key: Seq<char>)
    requires
        forall|i: int, v: Seq<char>|
            0 <= i < words(list).len() ==> #[trigger] words(list)[i] != #[trigger] (key.push('=')
                + v),
    ensures
        number_text(list, key) is None,
{
    lemma_not_set(words(list), key);
}

/// The option list is what follows the first `options:`, up to the first NUL or the end.
pub proof fn law_options_follow_the_signature(
    a: Seq<char>,
    list: Seq<char>,
    rest: Seq<char>,
)
    requires
        !list.contains('\0'),
        forall|i: int|
            0 <= i < a.len() ==> !#[trigger] stands_at(
                a + "options:"@ + (list.push('\0') + rest),
                "options:"@,
                i,
            ),
    ensures
        option_list(a + "options:"@ + (list.push('\0') + rest)) == Some(list),
{
    reveal_strlit("options:");
    let pat = "options:"@;
    let tail = list.push('\0') + rest;
    let text = a + pat + tail;
    let n = a.len() as int;
    lemma_find_from(text, pat, 0);
    assert(text.subrange(n, n + 8) =~= pat);
    assert(stands_at(text, pat, n));
    assert(find_from(text, pat, 0) == Some(n));
    assert(text.skip(n + 8) =~= tail);
    law_before_the_first(list, '\0', rest);
}

/// A text without `options:` has no options; a list without a NUL goes to the end.
pub proof fn law_options_may_end_the_text(a: Seq<char>, list: Seq<char>)
    requires
        !list.contains('\0'),
        forall|i: int|
            0 <= i < a.len() ==> !#[trigger] stands_at(a + "options:"@ + list, "options:"@, i),
    ensures
        option_list(a + "options:"@ + list) == Some(list),
        has(a, "options:"@) == false ==> option_list(a) is None,
{
    reveal_strlit("options:");
    let pat = "options:"@;
    let text = a + pat + list;
    let n = a.len() as int;
    lemma_find_from(text, pat, 0);
    assert(text.subrange(n, n + 8) =~= pat);
    assert(stands_at(text, pat, n));
    assert(find_from(text, pat, 0) == Some(n));
    assert(text.skip(n + 8) =~= list);
    law_before_the_first(list, '\0', Seq::empty());
    lemma_find_from(a, pat, 0);
    if let Some(i) = find_from(a, pat, 0) {
        assert(stands_at(a, pat, i));
    }
}

/// Each setting of a video that is accepted is the number of the option of that name,
/// or its usual number where `number` makes none of the text or no text is there.
pub proof fn law_settings_come_from_their_options<F: Fn(&str) -> Option<i64>>(
    text: Seq<char>,
    number: F,
    r: Result<X264, Fault>,
    list: Seq<char>,
)
    requires
        settings_read(text, number, r),
        option_list(text) == Some(list),
    ensures
        r matches Ok(x) ==> {
            &&& exists|v: Option<i64>| #[trigger]
                reads_as(number, number_text(list, "cabac"@), v) && x.cabac == ((match v { Some(v) => v, None => 1i64 }) != 0)
            &&& exists|v: Option<i64>| #[trigger]
                reads_as(number, number_text(list, "bframes"@), v) && (v is None ==> x.bframes == 3) && (v matches Some(v) ==> (0 <= v <= u32::MAX ==> x.bframes == v))
            &&& exists|v: Option<i64>| #[trigger]
                reads_as(number, number_text(list, "b_pyramid"@), v) && (v is None ==> x.pyramid == 2) && (v matches Some(v) ==> (0 <= v <= u32::MAX ==> x.pyramid == v))
            &&& exists|v: Option<i64>| #[trigger]
                reads_as(number, number_text(list, "ref"@), v) && (v is None ==> x.refs == 3) && (v matches Some(v) ==> (0 <= v <= u32::MAX ==> x.refs == v))
            &&& exists|v: Option<i64>| #[trigger]
                reads_as(number, number_text(list, "8x8dct"@), v) && x.t8x8 == ((match v { Some(v) => v, None => 1i64 }) != 0)
            &&& exists|v: Option<i64>| #[trigger]
                reads_as(number, number_text(list, "weightp"@), v) && (v is None ==> x.weightp == 2) && (v matches Some(v) ==> (0 <= v <= u32::MAX ==> x.weightp == v))
            &&& exists|v: Option<i64>| #[trigger]
                reads_as(number, number_text(list, "weightb"@), v) && x.weightb == ((match v { Some(v) => v, None => 1i64 }) != 0)
            &&& exists|v: Option<i64>| #[trigger]
                reads_as(number, number_text(list, "chroma_qp_offset"@), v) && (v is None ==> x.cqo == 0) && (v matches Some(v) ==> (i32::MIN <= v <= i32::MAX ==> x.cqo == v))
            &&& exists|v: Option<i64>| #[trigger]
                reads_as(number, number_text(list, "constrained_intra"@), v) && x.constrained == ((match v { Some(v) => v, None => 0i64 }) != 0)
            &&& exists|v: Option<i64>| #[trigger]
                reads_as(number, number_text(list, "keyint"@), v) && (v is None ==> x.keyint == 250) && (v matches Some(v) ==> (0 <= v <= u32::MAX ==> x.keyint == v))
        },
{
    if let Ok(x) = r {
        let n = choose|n: Seq<Option<i64>>|
            #![trigger settings_of(n)]
            {
                &&& n.len() == option_keys().len()
                &&& forall|k: int|
                    0 <= k < n.len() ==> reads_as(
                        number,
                        number_text(list, option_keys()[k]),
                        #[trigger] n[k],
                    )
                &&& r == settings_of(n)
            };
        law_option_names();
        law_settings_are_the_numbers(n);
        assert(reads_as(number, number_text(list, option_keys()[5]), n[5]));
        assert(reads_as(number, number_text(list, option_keys()[6]), n[6]));
        assert(reads_as(number, number_text(list, option_keys()[7]), n[7]));
        assert(reads_as(number, number_text(list, option_keys()[8]), n[8]));
        assert(reads_as(number, number_text(list, option_keys()[9]), n[9]));
        assert(reads_as(number, number_text(list, option_keys()[10]), n[10]));
        assert(reads_as(number, number_text(list, option_keys()[11]), n[11]));
        assert(reads_as(number, number_text(list, option_keys()[12]), n[12]));
        assert(reads_as(number, number_text(list, option_keys()[13]), n[13]));
        assert(reads_as(number, number_text(list, option_keys()[14]), n[14]));
    }
}

/// A video is refused for its coding only if the option `interlaced`, `cqm` or
/// `open_gop` has a number other than 0, and for its slices only if `sliced_threads`
/// has one or `slices` one above 1. Without options, and only then, that is told.
pub proof fn law_refusal_comes_from_its_options<F: Fn(&str) -> Option<i64>>(
    text: Seq<char>,
    number: F,
    r: Result<X264, Fault>,
)
    requires
        settings_read(text, number, r),
    ensures
        r == Err::<X264, Fault>(Fault::NoOptions) <==> option_list(text) is None,
        r == Err::<X264, Fault>(Fault::UnsupportedCoding) ==> exists|v: i64|
            v != 0 && (#[trigger] reads_as(
                number,
                number_text(option_list(text)->0, "interlaced"@),
                Some(v),
            ) || reads_as(number, number_text(option_list(text)->0, "cqm"@), Some(v)) || reads_as(
                number,
                number_text(option_list(text)->0, "open_gop"@),
                Some(v),
            )),
        r == Err::<X264, Fault>(Fault::UnsupportedSlices) ==> exists|v: i64|
            (v != 0 && #[trigger] reads_as(
                number,
                number_text(option_list(text)->0, "sliced_threads"@),
                Some(v),
            )) || (v > 1 && reads_as(
                number,
                number_text(option_list(text)->0, "slices"@),
                Some(v),
            )),
{
    if let Some(list) = option_list(text) {
        let n = choose|n: Seq<Option<i64>>|
            #![trigger settings_of(n)]
            {
                &&& n.len() == option_keys().len()
                &&& forall|k: int|
                    0 <= k < n.len() ==> reads_as(
                        number,
                        number_text(list, option_keys()[k]),
                        #[trigger] n[k],
                    )
                &&& r == settings_of(n)
            };
        law_option_names();
        law_refusals(n);
        assert(reads_as(number, number_text(list, option_keys()[0]), n[0]));
        assert(reads_as(number, number_text(list, option_keys()[1]), n[1]));
        assert(reads_as(number, number_text(list, option_keys()[2]), n[2]));
        assert(reads_as(number, number_text(list, option_keys()[3]), n[3]));
        assert(reads_as(number, number_text(list, option_keys()[4]), n[4]));
        if r == Err::<X264, Fault>(Fault::UnsupportedCoding) {
            let k = choose|k: int| 0 <= k < 3 && (#[trigger] n[k] matches Some(v) && v != 0);
            let v = n[k]->0;
            let w = reads_as(number, number_text(list, "interlaced"@), Some(v));
            assert(k == 0 || k == 1 || k == 2);
            assert(v != 0 && (w || reads_as(number, number_text(list, "cqm"@), Some(v))
                || reads_as(number, number_text(list, "open_gop"@), Some(v))));
        }
        if r == Err::<X264, Fault>(Fault::UnsupportedSlices) {
            let v = if n[3] matches Some(v) && v != 0 {
                n[3]->0
            } else {
                n[4]->0
            };
            let w = reads_as(number, number_text(list, "sliced_threads"@), Some(v));
            assert((v != 0 && w) || (v > 1 && reads_as(
                number,
                number_text(list, "slices"@),
                Some(v),
            )));
        }
    }
}

} // verus!
