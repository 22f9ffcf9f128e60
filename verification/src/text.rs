//! Searching and splitting text, as sequences of characters.

use vstd::prelude::*;

verus! {

/// The characters of a string.
pub fn chars_of(s: &str) -> (r: Vec<char>)
    ensures
        r@ == s@,
{
    let mut r: Vec<char> = Vec::new();
    for c in it: s.chars()
        invariant
            r@ == s@.take(it.index()),
            it.seq() == s@,
    {
        r.push(c);
        assert(s@.take(it.index() + 1) =~= s@.take(it.index()).push(c));
    }
    assert(s@.take(s@.len() as int) =~= s@);
    r
}

/// `pat` stands in `s` at position `i`.
pub open spec fn stands_at(s: Seq<char>, pat: Seq<char>, i: int) -> bool {
    &&& 0 <= i
    &&& i + pat.len() <= s.len()
    &&& s.subrange(i, i + pat.len()) == pat
}

/// The first position from `i` on at which `pat` stands in `s`.
pub open spec fn find_from(s: Seq<char>, pat: Seq<char>, i: int) -> Option<int>
    decreases s.len() - i + 1,
{
    if i + pat.len() > s.len() || i > s.len() {
        None
    } else if stands_at(s, pat, i) {
        Some(i)
    } else {
        find_from(s, pat, i + 1)
    }
}

/// `pat` stands somewhere in `s`.
pub open spec fn has(s: Seq<char>, pat: Seq<char>) -> bool {
    exists|i: int| stands_at(s, pat, i)
}

/// White space, as the Unicode property of that name has it.
pub open spec fn is_space(c: char) -> bool {
    let u = c as u32;
    ||| 0x09 <= u <= 0x0d
    ||| u == 0x20
    ||| u == 0x85
    ||| u == 0xa0
    ||| u == 0x1680
    ||| 0x2000 <= u <= 0x200a
    ||| u == 0x2028
    ||| u == 0x2029
    ||| u == 0x202f
    ||| u == 0x205f
    ||| u == 0x3000
}

/// The first position from `i` on that does not hold white space.
pub open spec fn space_end(s: Seq<char>, i: int) -> int
    decreases s.len() - i,
{
    if 0 <= i < s.len() && is_space(s[i]) {
        space_end(s, i + 1)
    } else {
        i
    }
}

/// The first position from `i` on that holds white space, or the end.
pub open spec fn word_end(s: Seq<char>, i: int) -> int
    decreases s.len() - i,
{
    if 0 <= i < s.len() && !is_space(s[i]) {
        word_end(s, i + 1)
    } else {
        i
    }
}

/// The words of `s` from position `i` on: what white space separates.
pub open spec fn words_from(s: Seq<char>, i: int) -> Seq<Seq<char>>
    decreases s.len() - i,
{
    let a = space_end(s, i);
    let b = word_end(s, a);
    if 0 <= i <= a < b <= s.len() {
        seq![s.subrange(a, b)] + words_from(s, b)
    } else {
        Seq::empty()
    }
}

/// The words of `s`: what white space separates.
pub open spec fn words(s: Seq<char>) -> Seq<Seq<char>> {
    words_from(s, 0)
}

/// The first word of `s`, if it has one.
pub open spec fn first_word(s: Seq<char>) -> Option<Seq<char>> {
    let a = space_end(s, 0);
    if a < s.len() {
        Some(s.subrange(a, word_end(s, a)))
    } else {
        None
    }
}

/// The first position from `i` on that holds `c`, or the end.
pub open spec fn char_from(s: Seq<char>, c: char, i: int) -> int
    decreases s.len() - i,
{
    if 0 <= i < s.len() && s[i] != c {
        char_from(s, c, i + 1)
    } else {
        i
    }
}

/// What comes before the first `c`, or all of `s`.
pub open spec fn before(s: Seq<char>, c: char) -> Seq<char> {
    s.take(char_from(s, c, 0))
}

/// The number that decimal digits denote.
pub open spec fn decimal(s: Seq<char>) -> nat
    decreases s.len(),
{
    if s.len() == 0 {
        0
    } else {
        10 * decimal(s.drop_last()) + (s.last() as u32 - '0' as u32) as nat
    }
}

/// A decimal digit.
pub open spec fn is_digit(c: char) -> bool {
    '0' <= c <= '9'
}

/// The digits of a number that may start with a plus sign.
pub open spec fn unsigned_digits(s: Seq<char>) -> Seq<char> {
    if s.len() > 0 && s[0] == '+' {
        s.skip(1)
    } else {
        s
    }
}

/// The number below 2^32 that `s` denotes in decimal, if it does.
pub open spec fn parsed_u32(s: Seq<char>) -> Option<u32> {
    let d = unsigned_digits(s);
    if d.len() > 0 && (forall|i: int| 0 <= i < d.len() ==> is_digit(#[trigger] d[i])) && decimal(d)
        <= u32::MAX {
        Some(decimal(d) as u32)
    } else {
        None
    }
}

/// `s` without a carriage return at its end.
pub open spec fn without_cr(s: Seq<char>) -> Seq<char> {
    if s.len() > 0 && s.last() == '\r' {
        s.drop_last()
    } else {
        s
    }
}

/// The lines of `s`: what line feeds close, each without a carriage return
/// before its line feed, and what is left behind the last of them.
pub open spec fn lines(s: Seq<char>) -> Seq<Seq<char>>
    decreases s.len(),
{
    let e = char_from(s, '\n', 0);
    if s.len() == 0 {
        Seq::empty()
    } else if e < s.len() && e >= 0 {
        seq![without_cr(s.take(e))] + lines(s.skip(e + 1))
    } else {
        seq![s]
    }
}

/// The text between the first `pat` and the next one, or the end.
pub open spec fn second_piece(s: Seq<char>, pat: Seq<char>) -> Option<Seq<char>> {
    match find_from(s, pat, 0) {
        None => None,
        Some(i) => {
            let from = i + pat.len();
            match find_from(s, pat, from) {
                None => Some(s.subrange(from, s.len() as int)),
                Some(j) => Some(s.subrange(from, j)),
            }
        },
    }
}

/// The parts of `s` that `ranges` delimit.
pub open spec fn parts(s: Seq<char>, ranges: Seq<(usize, usize)>) -> Seq<Seq<char>> {
    Seq::new(ranges.len(), |i: int| s.subrange(ranges[i].0 as int, ranges[i].1 as int))
}

/// Nothing but white space.
pub open spec fn is_blank(s: Seq<char>) -> bool {
    forall|i: int| 0 <= i < s.len() ==> is_space(#[trigger] s[i])
}

/// What a search that starts at `i` finds is the first occurrence from there on.
pub proof fn lemma_find_from(s: Seq<char>, pat: Seq<char>, i: int)
    requires
        0 <= i,
    ensures
        find_from(s, pat, i) matches Some(k) ==> k >= i && stands_at(s, pat, k) && forall|j: int|
            i <= j < k ==> !stands_at(s, pat, j),
        find_from(s, pat, i) is None ==> forall|j: int| i <= j ==> !stands_at(s, pat, j),
    decreases s.len() - i + 1,
{
    if i + pat.len() > s.len() || i > s.len() {
    } else if stands_at(s, pat, i) {
    } else {
        lemma_find_from(s, pat, i + 1);
    }
}

pub proof fn lemma_word_end(s: Seq<char>, i: int)
    requires
        0 <= i <= s.len(),
    ensures
        i <= word_end(s, i) <= s.len(),
        i < s.len() && !is_space(s[i]) ==> i < word_end(s, i),
    decreases s.len() - i,
{
    if i < s.len() && !is_space(s[i]) {
        lemma_word_end(s, i + 1);
    }
}

/// Whether `pat` stands in `s` at position `i`.
pub fn is_at(s: &[char], pat: &[char], i: usize) -> (r: bool)
    requires
        i + pat@.len() <= s@.len(),
    ensures
        r == stands_at(s@, pat@, i as int),
{
    let mut k: usize = 0;
    while k < pat.len()
        invariant
            k <= pat.len(),
            i + pat.len() <= s.len(),
            forall|j: int| 0 <= j < k ==> s@[i + j] == pat@[j],
        decreases pat.len() - k,
    {
        if s[i + k] != pat[k] {
            assert(s@.subrange(i as int, i + pat@.len())[k as int] != pat@[k as int]);
            return false;
        }
        k = k + 1;
    }
    assert(s@.subrange(i as int, i + pat@.len()) =~= pat@);
    true
}

/// The first position from `from` on at which `pat` stands in `s`.
pub fn find(s: &[char], pat: &[char], from: usize) -> (r: Option<usize>)
    requires
        from <= s@.len(),
    ensures
        r is Some <==> find_from(s@, pat@, from as int) is Some,
        r is Some ==> find_from(s@, pat@, from as int) == Some(r->0 as int),
{
    if pat.len() > s.len() {
        return None;
    }
    let last: usize = s.len() - pat.len();
    let mut i: usize = from;
    while i <= last
        invariant
            from <= i <= s@.len(),
            last == s@.len() - pat@.len(),
            find_from(s@, pat@, from as int) == find_from(s@, pat@, i as int),
        decreases s@.len() + 1 - i,
    {
        if is_at(s, pat, i) {
            return Some(i);
        }
        if i == last {
            assert(find_from(s@, pat@, i + 1) is None);
            return None;
        }
        i = i + 1;
    }
    None
}

/// Whether `pat` stands anywhere in `s`.
pub fn contains(s: &[char], pat: &[char]) -> (r: bool)
    ensures
        r == has(s@, pat@),
{
    proof {
        lemma_find_from(s@, pat@, 0);
    }
    find(s, pat, 0).is_some()
}

/// Whether `c` is white space.
pub fn is_whitespace(c: char) -> (r: bool)
    ensures
        r == is_space(c),
{
    let u: u32 = c as u32;
    (0x09 <= u && u <= 0x0d) || u == 0x20 || u == 0x85 || u == 0xa0 || u == 0x1680 || (0x2000 <= u
        && u <= 0x200a) || u == 0x2028 || u == 0x2029 || u == 0x202f || u == 0x205f || u == 0x3000
}

/// Where the first word from `from` on starts and ends; the two are the same
/// where there is none.
pub fn next_word(s: &[char], from: usize) -> (r: (usize, usize))
    requires
        from <= s@.len(),
    ensures
        r.0 == space_end(s@, from as int),
        r.1 == word_end(s@, r.0 as int),
        from <= r.0 <= r.1 <= s@.len(),
        r.0 < s@.len() ==> r.0 < r.1,
{
    let mut a: usize = from;
    while a < s.len() && is_whitespace(s[a])
        invariant
            from <= a <= s@.len(),
            space_end(s@, from as int) == space_end(s@, a as int),
        decreases s@.len() - a,
    {
        a = a + 1;
    }
    let mut b: usize = a;
    while b < s.len() && !is_whitespace(s[b])
        invariant
            a <= b <= s@.len(),
            word_end(s@, a as int) == word_end(s@, b as int),
        decreases s@.len() - b,
    {
        b = b + 1;
    }
    proof {
        lemma_word_end(s@, a as int);
    }
    (a, b)
}

/// The first position from `from` on that holds `c`, or the end.
pub fn find_char(s: &[char], c: char, from: usize) -> (r: usize)
    requires
        from <= s@.len(),
    ensures
        r == char_from(s@, c, from as int),
        from <= r <= s@.len(),
{
    let mut i: usize = from;
    while i < s.len() && s[i] != c
        invariant
            from <= i <= s@.len(),
            char_from(s@, c, from as int) == char_from(s@, c, i as int),
        decreases s@.len() - i,
    {
        i = i + 1;
    }
    i
}

/// The number below 2^32 that `s` denotes in decimal, if it does.
pub fn parse_u32(s: &[char]) -> (r: Option<u32>)
    ensures
        r == parsed_u32(s@),
{
    let from: usize = if s.len() > 0 && s[0] == '+' {
        1
    } else {
        0
    };
    let ghost d = unsigned_digits(s@);
    assert(d =~= s@.skip(from as int));
    if from == s.len() {
        return None;
    }
    let mut v: u64 = 0;
    let mut i: usize = from;
    assert(d.take(0) =~= Seq::<char>::empty());
    while i < s.len()
        invariant
            from <= i <= s@.len(),
            d == s@.skip(from as int),
            d == unsigned_digits(s@),
            v <= u32::MAX,
            v == decimal(d.take(i - from)),
            forall|j: int| 0 <= j < i - from ==> is_digit(#[trigger] d[j]),
        decreases s@.len() - i,
    {
        let c: char = s[i];
        let ghost k = i - from;
        assert(d[k] == c);
        if c < '0' || c > '9' {
            assert(!is_digit(d[k]));
            return None;
        }
        assert(d.take(k + 1).drop_last() =~= d.take(k));
        assert(d.take(k + 1).last() == c);
        v = v * 10 + (c as u32 - '0' as u32) as u64;
        i = i + 1;
        if v > u32::MAX as u64 {
            proof {
                lemma_decimal_grows(d, k + 1);
            }
            return None;
        }
    }
    assert(d.take(d.len() as int) =~= d);
    Some(v as u32)
}

/// More digits never make a number smaller.
proof fn lemma_decimal_grows(d: Seq<char>, k: int)
    requires
        0 <= k <= d.len(),
    ensures
        decimal(d.take(k)) <= decimal(d),
    decreases d.len() - k,
{
    if k < d.len() {
        lemma_decimal_grows(d, k + 1);
        assert(d.take(k + 1).drop_last() =~= d.take(k));
    } else {
        assert(d.take(k) =~= d);
    }
}

/// Whether `s` holds nothing but white space.
pub fn blank(s: &[char]) -> (r: bool)
    ensures
        r == is_blank(s@),
{
    let mut i: usize = 0;
    while i < s.len()
        invariant
            i <= s@.len(),
            forall|j: int| 0 <= j < i ==> is_space(#[trigger] s@[j]),
        decreases s@.len() - i,
    {
        if !is_whitespace(s[i]) {
            assert(!is_space(s@[i as int]));
            return false;
        }
        i = i + 1;
    }
    true
}

/// Where the text between the first `pat` and the next one starts and ends.
pub fn find_second_piece(s: &[char], pat: &[char]) -> (r: Option<(usize, usize)>)
    ensures
        r is Some <==> second_piece(s@, pat@) is Some,
        r matches Some((a, b)) ==> a <= b <= s@.len() && second_piece(s@, pat@) == Some(
            s@.subrange(a as int, b as int),
        ),
{
    proof {
        lemma_find_from(s@, pat@, 0);
    }
    match find(s, pat, 0) {
        None => None,
        Some(i) => {
            let n: usize = s.len();
            assert(i + pat@.len() <= n);
            let from: usize = i + pat.len();
            proof {
                lemma_find_from(s@, pat@, from as int);
            }
            match find(s, pat, from) {
                None => Some((from, n)),
                Some(j) => Some((from, j)),
            }
        },
    }
}

proof fn lemma_char_from_skip(s: Seq<char>, c: char, at: int, i: int)
    requires
        0 <= at <= i <= s.len(),
    ensures
        char_from(s.skip(at), c, i - at) == char_from(s, c, i) - at,
    decreases s.len() - i,
{
    if i < s.len() {
        assert(s.skip(at)[i - at] == s[i]);
        if s[i] != c {
            lemma_char_from_skip(s, c, at, i + 1);
        }
    }
}

/// Where the lines of `s` start and end.
pub fn line_ranges(s: &[char]) -> (r: Vec<(usize, usize)>)
    ensures
        parts(s@, r@) == lines(s@),
        forall|i: int| 0 <= i < r@.len() ==> (#[trigger] r@[i]).0 <= r@[i].1 <= s@.len(),
{
    let n: usize = s.len();
    let mut r: Vec<(usize, usize)> = Vec::new();
    let mut at: usize = 0;
    proof {
        assert(s@.skip(0) =~= s@);
        assert(parts(s@, r@) + lines(s@) =~= lines(s@));
    }
    while at < n
        invariant
            at <= n == s@.len(),
            parts(s@, r@) + lines(s@.skip(at as int)) == lines(s@),
            forall|i: int| 0 <= i < r@.len() ==> (#[trigger] r@[i]).0 <= r@[i].1 <= s@.len(),
        decreases n - at,
    {
        let e: usize = find_char(s, '\n', at);
        let ghost rest = s@.skip(at as int);
        let ghost done = r@;
        proof {
            lemma_char_from_skip(s@, '\n', at as int, at as int);
        }
        if e < n {
            let b: usize = if e > at && s[e - 1] == '\r' {
                e - 1
            } else {
                e
            };
            r.push((at, b));
            proof {
                let line = s@.subrange(at as int, b as int);
                let t = rest.take(e - at);
                if e > at {
                    assert(t.last() == s@[e - 1]);
                }
                assert(line =~= without_cr(t));
                assert(rest.skip(e - at + 1) =~= s@.skip(e + 1));
                assert(lines(rest) == seq![line] + lines(s@.skip(e + 1)));
                assert(parts(s@, done) + (seq![line] + lines(s@.skip(e + 1))) =~= parts(s@, r@)
                    + lines(s@.skip(e + 1)));
            }
            at = e + 1;
        } else {
            r.push((at, n));
            proof {
                assert(s@.subrange(at as int, n as int) =~= rest);
                assert(lines(rest) == seq![rest]);
                assert(s@.skip(n as int) =~= Seq::<char>::empty());
                assert(parts(s@, done) + seq![rest] =~= parts(s@, r@) + lines(s@.skip(n as int)));
            }
            at = n;
        }
    }
    proof {
        assert(s@.skip(at as int) =~= Seq::<char>::empty());
        assert(parts(s@, r@) + lines(s@.skip(at as int)) =~= parts(s@, r@));
    }
    r
}

/// The digit for `n`.
pub open spec fn digit(n: int) -> char {
    (0x30 + n) as char
}

/// `n` in decimal.
pub open spec fn number_text(n: nat) -> Seq<char>
    decreases n,
{
    if n < 10 {
        seq![digit(n as int)]
    } else {
        number_text(n / 10).push(digit((n % 10) as int))
    }
}

/// Appends a digit.
pub fn append_digit(s: &mut String, n: u64)
    requires
        n < 10,
    ensures
        final(s)@ == old(s)@.push(digit(n as int)),
{
    let digits: [&str; 10] = ["0", "1", "2", "3", "4", "5", "6", "7", "8", "9"];
    proof {
        reveal_strlit("0");
        reveal_strlit("1");
        reveal_strlit("2");
        reveal_strlit("3");
        reveal_strlit("4");
        reveal_strlit("5");
        reveal_strlit("6");
        reveal_strlit("7");
        reveal_strlit("8");
        reveal_strlit("9");
        assert(digits@[n as int]@ =~= seq![digit(n as int)]);
    }
    let ghost start = s@;
    s.append(digits[n as usize]);
    assert(s@ =~= start.push(digit(n as int)));
}

/// Appends `n` in decimal.
pub fn append_number(s: &mut String, n: u64)
    ensures
        final(s)@ == old(s)@ + number_text(n as nat),
    decreases n,
{
    let ghost start = s@;
    if n >= 10 {
        append_number(s, n / 10);
        append_digit(s, n % 10);
        assert(s@ =~= start + number_text(n as nat));
    } else {
        append_digit(s, n);
        assert(s@ =~= start + number_text(n as nat));
    }
}

/// A number that was written in decimal reads back.
pub proof fn law_number_reads_back(n: nat)
    ensures
        decimal(number_text(n)) == n,
        number_text(n).len() > 0,
        forall|i: int| 0 <= i < number_text(n).len() ==> is_digit(#[trigger] number_text(n)[i]),
    decreases n,
{
    let t = number_text(n);
    if n < 10 {
        assert(t.drop_last() =~= Seq::<char>::empty());
        assert(t.last() == digit(n as int));
        assert(decimal(t.drop_last()) == 0);
    } else {
        law_number_reads_back(n / 10);
        assert(t.drop_last() =~= number_text(n / 10));
        assert(t.last() == digit((n % 10) as int));
    }
}

/// The texts of `v`.
pub open spec fn texts(v: Seq<String>) -> Seq<Seq<char>> {
    Seq::new(v.len(), |i: int| v[i]@)
}

/// `parts` with `between` between them.
pub open spec fn joined_by(parts: Seq<Seq<char>>, between: Seq<char>) -> Seq<char>
    decreases parts.len(),
{
    if parts.len() == 0 {
        Seq::empty()
    } else if parts.len() == 1 {
        parts[0]
    } else {
        joined_by(parts.drop_last(), between) + between + parts.last()
    }
}

/// White space is what the Unicode property of that name says.
pub proof fn law_white_space(c: char)
    ensures
        is_space(c) <==> c == '\u{9}' || c == '\u{a}' || c == '\u{b}' || c == '\u{c}' || c == '\u{d}'
            || c == ' ' || c == '\u{85}' || c == '\u{a0}' || c == '\u{1680}' || '\u{2000}' <= c
            <= '\u{200a}' || c == '\u{2028}' || c == '\u{2029}' || c == '\u{202f}' || c == '\u{205f}'
            || c == '\u{3000}',
{
}

proof fn lemma_space_end(s: Seq<char>, i: int)
    requires
        0 <= i <= s.len(),
    ensures
        i <= space_end(s, i) <= s.len(),
        forall|k: int| i <= k < space_end(s, i) ==> is_space(#[trigger] s[k]),
        space_end(s, i) < s.len() ==> !is_space(s[space_end(s, i)]),
    decreases s.len() - i,
{
    if i < s.len() && is_space(s[i]) {
        lemma_space_end(s, i + 1);
    }
}

proof fn lemma_word_end_is(s: Seq<char>, i: int, e: int)
    requires
        0 <= i <= e <= s.len(),
        forall|k: int| i <= k < e ==> !is_space(#[trigger] s[k]),
        e < s.len() ==> is_space(s[e]),
    ensures
        word_end(s, i) == e,
    decreases e - i,
{
    if i < e {
        lemma_word_end_is(s, i + 1, e);
    }
}

proof fn lemma_space_end_is(s: Seq<char>, i: int, e: int)
    requires
        0 <= i <= e <= s.len(),
        forall|k: int| i <= k < e ==> is_space(#[trigger] s[k]),
        e < s.len() ==> !is_space(s[e]),
    ensures
        space_end(s, i) == e,
    decreases e - i,
{
    if i < e {
        lemma_space_end_is(s, i + 1, e);
    }
}

proof fn lemma_word_end_stops(s: Seq<char>, i: int)
    requires
        0 <= i <= s.len(),
    ensures
        i <= word_end(s, i) <= s.len(),
        forall|k: int| i <= k < word_end(s, i) ==> !is_space(#[trigger] s[k]),
        word_end(s, i) < s.len() ==> is_space(s[word_end(s, i)]),
    decreases s.len() - i,
{
    if i < s.len() && !is_space(s[i]) {
        lemma_word_end_stops(s, i + 1);
    }
}

proof fn lemma_words_skip(s: Seq<char>, at: int, i: int)
    requires
        0 <= at <= i <= s.len(),
    ensures
        words_from(s.skip(at), i - at) == words_from(s, i),
    decreases s.len() - i,
{
    let t = s.skip(at);
    lemma_space_end(s, i);
    let a = space_end(s, i);
    lemma_space_end_is(t, i - at, a - at);
    lemma_word_end_stops(s, a);
    let b = word_end(s, a);
    lemma_word_end_is(t, a - at, b - at);
    if a < b {
        lemma_words_skip(s, at, b);
        assert(t.subrange(a - at, b - at) =~= s.subrange(a, b));
    }
}

proof fn lemma_words_before(a: Seq<char>, c: char, b: Seq<char>, i: int)
    requires
        is_space(c),
        0 <= i <= a.len(),
    ensures
        words_from(a.push(c) + b, i) == words_from(a, i) + words_from(
            a.push(c) + b,
            a.len() as int + 1,
        ),
    decreases a.len() - i,
{
    let s = a.push(c) + b;
    let n = a.len() as int;
    lemma_space_end(a, i);
    let x = space_end(a, i);
    if x < n {
        lemma_space_end_is(s, i, x);
        lemma_word_end_stops(a, x);
        let y = word_end(a, x);
        lemma_word_end_is(s, x, y);
        lemma_words_before(a, c, b, y);
        assert(x < y) by {
            lemma_word_end(a, x);
        }
        assert(s.subrange(x, y) =~= a.subrange(x, y));
        assert(words_from(s, i) =~= words_from(a, i) + words_from(s, n + 1));
    } else {
        assert(words_from(a, i) =~= Seq::<Seq<char>>::empty());
        lemma_space_end(s, n + 1);
        let e = space_end(s, n + 1);
        assert forall|k: int| i <= k < e implies is_space(#[trigger] s[k]) by {
            if k < n {
                assert(is_space(a[k]));
            }
        }
        lemma_space_end_is(s, i, e);
        lemma_words_unfold(s, i);
        lemma_words_unfold(s, n + 1);
        assert(words_from(s, i) =~= words_from(a, i) + words_from(s, n + 1));
    }
}

proof fn lemma_words_unfold(s: Seq<char>, i: int)
    requires
        0 <= i <= s.len(),
    ensures
        ({
            let a = space_end(s, i);
            let b = word_end(s, a);
            words_from(s, i) == if a < b {
                seq![s.subrange(a, b)] + words_from(s, b)
            } else {
                Seq::empty()
            }
        }),
{
    lemma_space_end(s, i);
    lemma_word_end_stops(s, space_end(s, i));
}

/// White space separates words: those of two texts with white space between them are
/// those of the one, then those of the other.
pub proof fn law_white_space_separates_words(a: Seq<char>, c: char, b: Seq<char>)
    requires
        is_space(c),
    ensures
        words(a.push(c) + b) == words(a) + words(b),
{
    let s = a.push(c) + b;
    lemma_words_before(a, c, b, 0);
    lemma_words_skip(s, a.len() as int + 1, a.len() as int + 1);
    assert(s.skip(a.len() as int + 1) =~= b);
}

/// What holds no white space is one word, unless it is nothing.
pub proof fn law_a_word_is_one_word(w: Seq<char>)
    requires
        forall|k: int| 0 <= k < w.len() ==> !is_space(#[trigger] w[k]),
    ensures
        words(w) == if w.len() > 0 {
            seq![w]
        } else {
            Seq::empty()
        },
{
    lemma_space_end_is(w, 0, 0);
    lemma_word_end_is(w, 0, w.len() as int);
    lemma_words_unfold(w, 0);
    lemma_words_unfold(w, w.len() as int);
    lemma_space_end_is(w, w.len() as int, w.len() as int);
    lemma_word_end_is(w, w.len() as int, w.len() as int);
    assert(w.subrange(0, w.len() as int) =~= w);
    if w.len() > 0 {
        assert(words(w) =~= seq![w]);
    }
}

/// The first word is the first of the words.
pub proof fn law_first_word_is_first(s: Seq<char>)
    ensures
        first_word(s) == if words(s).len() > 0 {
            Some(words(s)[0])
        } else {
            None
        },
{
    lemma_words_unfold(s, 0);
    lemma_space_end(s, 0);
    lemma_word_end(s, space_end(s, 0));
    lemma_word_end_stops(s, space_end(s, 0));
}

pub proof fn lemma_char_from_is(s: Seq<char>, c: char, i: int, e: int)
    requires
        0 <= i <= e <= s.len(),
        forall|k: int| i <= k < e ==> #[trigger] s[k] != c,
        e < s.len() ==> s[e] == c,
    ensures
        char_from(s, c, i) == e,
    decreases e - i,
{
    if i < e {
        lemma_char_from_is(s, c, i + 1, e);
    }
}

/// What comes before a character is all up to its first place.
pub proof fn law_before_the_first(a: Seq<char>, c: char, b: Seq<char>)
    requires
        !a.contains(c),
    ensures
        before(a.push(c) + b, c) == a,
        before(a, c) == a,
{
    let s = a.push(c) + b;
    assert forall|k: int| 0 <= k < a.len() implies #[trigger] s[k] != c by {
        assert(a.contains(a[k]));
    }
    assert forall|k: int| 0 <= k < a.len() implies #[trigger] a[k] != c by {
        assert(a.contains(a[k]));
    }
    lemma_char_from_is(s, c, 0, a.len() as int);
    lemma_char_from_is(a, c, 0, a.len() as int);
    assert(s.take(a.len() as int) =~= a);
    assert(a.take(a.len() as int) =~= a);
}

/// A line feed closes a line: behind it, the others follow. A carriage return before
/// the line feed is no part of the line. What no line feed closes is a line too,
/// unless it is nothing.
pub proof fn law_line_feeds_close_lines(line: Seq<char>, rest: Seq<char>)
    requires
        !line.contains('\n'),
    ensures
        line.len() == 0 || line.last() != '\r' ==> lines(line.push('\n') + rest) == seq![line]
            + lines(rest),
        lines(line.push('\r').push('\n') + rest) == seq![line] + lines(rest),
        lines(line) == if line.len() > 0 {
            seq![line]
        } else {
            Seq::empty()
        },
{
    let s = line.push('\n') + rest;
    let n = line.len() as int;
    assert forall|k: int| 0 <= k < n implies #[trigger] line[k] != '\n' by {
        assert(line.contains(line[k]));
    }
    lemma_char_from_is(s, '\n', 0, n);
    assert(s.take(n) =~= line);
    assert(s.skip(n + 1) =~= rest);
    lemma_char_from_is(line, '\n', 0, n);
    let t = line.push('\r').push('\n') + rest;
    lemma_char_from_is(t, '\n', 0, n + 1);
    assert(t.take(n + 1) =~= line.push('\r'));
    assert(line.push('\r').drop_last() =~= line);
    assert(t.skip(n + 2) =~= rest);
}

/// A number in decimal, with or without a plus sign, is read back.
pub proof fn law_decimal_number_is_parsed(n: u32)
    ensures
        parsed_u32(number_text(n as nat)) == Some(n),
        parsed_u32(seq!['+'] + number_text(n as nat)) == Some(n),
{
    law_number_reads_back(n as nat);
    let t = number_text(n as nat);
    assert(is_digit(t[0]));
    assert((seq!['+'] + t).skip(1) =~= t);
}

/// What is parsed is a number in decimal below 2^32, with or without a plus sign, and
/// possibly with zeros before it.
pub proof fn law_parsed_is_decimal(s: Seq<char>)
    ensures
        parsed_u32(s) matches Some(n) ==> {
            let d = if s[0] == '+' {
                s.skip(1)
            } else {
                s
            };
            &&& s.len() > 0
            &&& d.len() > 0
            &&& forall|i: int| 0 <= i < d.len() ==> '0' <= #[trigger] d[i] <= '9'
            &&& decimal(d) == n
        },
{
}

/// Each digit that is added makes a number ten times as large and adds its own value.
pub proof fn law_digits_count_in_tens(s: Seq<char>, c: char)
    requires
        '0' <= c <= '9',
    ensures
        decimal(s.push(c)) == 10 * decimal(s) + (c as u32 - 0x30),
        decimal(Seq::empty()) == 0,
{
    assert(s.push(c).drop_last() =~= s);
}

/// The text between the first `pat` and the next, or the end.
pub proof fn law_text_between(a: Seq<char>, pat: Seq<char>, b: Seq<char>)
    requires
        pat.len() > 0,
        forall|i: int| 0 <= i < a.len() ==> !#[trigger] stands_at(a + pat + b, pat, i),
        forall|i: int| a.len() + pat.len() <= i ==> !#[trigger] stands_at(a + pat + b, pat, i),
    ensures
        second_piece(a + pat + b, pat) == Some(b),
{
    let s = a + pat + b;
    let n = a.len() as int;
    let m = n + pat.len();
    lemma_find_from(s, pat, 0);
    assert(s.subrange(n, n + pat.len()) =~= pat);
    assert(stands_at(s, pat, n));
    assert(find_from(s, pat, 0) == Some(n));
    lemma_find_from(s, pat, m);
    assert(find_from(s, pat, m) is None);
    assert(s.subrange(m, s.len() as int) =~= b);
}

/// Where `pat` does not stand, there is no text behind it.
pub proof fn law_no_text_between(s: Seq<char>, pat: Seq<char>)
    requires
        has(s, pat) == false,
    ensures
        second_piece(s, pat) is None,
{
    lemma_find_from(s, pat, 0);
    if let Some(i) = find_from(s, pat, 0) {
        assert(stands_at(s, pat, i));
    }
}

/// What is joined is joined one by one: nothing stands before the first part or behind
/// the last, and `between` stands between each two.
pub proof fn law_joining(s: Seq<Seq<char>>, x: Seq<char>, between: Seq<char>)
    ensures
        joined_by(seq![x], between) == x,
        s.len() > 0 ==> joined_by(s.push(x), between) == joined_by(s, between) + between + x,
        joined_by(Seq::empty(), between) == Seq::<char>::empty(),
{
    assert(s.push(x).drop_last() =~= s);
}

} // verus!
