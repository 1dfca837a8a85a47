//! Text as sequences of characters: trimming, splitting and number parsing.

use vstd::prelude::*;
use vstd::slice::slice_subrange;

verus! {

/// `String::push` appends one character.
pub assume_specification[ String::push ](s: &mut String, c: char)
    ensures
        final(s)@ == old(s)@.push(c),
;

// ---------------------------------------------------------------------------
// Whitespace

/// The characters with the Unicode property `White_Space`.
pub open spec fn is_space(c: char) -> bool {
    ||| '\u{9}' <= c <= '\u{d}'
    ||| c == ' '
    ||| c == '\u{85}'
    ||| c == '\u{a0}'
    ||| c == '\u{1680}'
    ||| '\u{2000}' <= c <= '\u{200a}'
    ||| c == '\u{2028}'
    ||| c == '\u{2029}'
    ||| c == '\u{202f}'
    ||| c == '\u{205f}'
    ||| c == '\u{3000}'
}

/// Whether `c` is whitespace.
pub fn space(c: char) -> (r: bool)
    ensures
        r == is_space(c),
{
    ('\u{9}' <= c && c <= '\u{d}') || c == ' ' || c == '\u{85}' || c == '\u{a0}' || c == '\u{1680}'
        || ('\u{2000}' <= c && c <= '\u{200a}') || c == '\u{2028}' || c == '\u{2029}' || c
        == '\u{202f}' || c == '\u{205f}' || c == '\u{3000}'
}

/// `s` without its leading whitespace.
pub open spec fn trim_start(s: Seq<char>) -> Seq<char>
    decreases s.len(),
{
    if s.len() > 0 && is_space(s[0]) {
        trim_start(s.drop_first())
    } else {
        s
    }
}

/// `s` without its trailing whitespace.
pub open spec fn trim_end(s: Seq<char>) -> Seq<char>
    decreases s.len(),
{
    if s.len() > 0 && is_space(s.last()) {
        trim_end(s.drop_last())
    } else {
        s
    }
}

/// `s` without leading and trailing whitespace.
pub open spec fn trimmed(s: Seq<char>) -> Seq<char> {
    trim_end(trim_start(s))
}

/// `s` without leading and trailing whitespace.
pub fn trim(s: &[char]) -> (r: &[char])
    ensures
        r@ == trimmed(s@),
{
    let mut i: usize = 0;
    assert(s@.subrange(0, s@.len() as int) == s@);
    while i < s.len() && space(s[i])
        invariant
            i <= s@.len(),
            trim_start(s@) == trim_start(s@.subrange(i as int, s@.len() as int)),
        decreases s@.len() - i,
    {
        assert(s@.subrange(i as int, s@.len() as int).drop_first() == s@.subrange(
            i + 1,
            s@.len() as int,
        ));
        i += 1;
    }
    let mut j: usize = s.len();
    assert(trim_start(s@) == s@.subrange(i as int, j as int));
    while i < j && space(s[j - 1])
        invariant
            i <= j <= s@.len(),
            trimmed(s@) == trim_end(s@.subrange(i as int, j as int)),
        decreases j,
    {
        assert(s@.subrange(i as int, j as int).drop_last() == s@.subrange(i as int, j - 1));
        j -= 1;
    }
    slice_subrange(s, i, j)
}


// ---------------------------------------------------------------------------
// Conversions

/// The characters of `s`.
pub fn to_chars(s: &str) -> (r: Vec<char>)
    ensures
        r@ == s@,
{
    let mut r: Vec<char> = Vec::new();
    for c in it: s.chars()
        invariant
            r@ == it.seq().take(it.index() as int),
            it.seq() == s@,
    {
        r.push(c);
    }
    r
}

/// The string with the characters `s`.
pub fn to_text(s: &[char]) -> (r: String)
    ensures
        r@ == s@,
{
    let mut r = String::new();
    let mut i: usize = 0;
    while i < s.len()
        invariant
            i <= s@.len(),
            r@ == s@.take(i as int),
        decreases s@.len() - i,
    {
        r.push(s[i]);
        i += 1;
    }
    assert(s@.take(s@.len() as int) == s@);
    r
}

/// Whether two slices hold the same characters.
pub fn same(a: &[char], b: &[char]) -> (r: bool)
    ensures
        r == (a@ == b@),
{
    if a.len() != b.len() {
        return false;
    }
    let mut i: usize = 0;
    while i < a.len()
        invariant
            i <= a@.len(),
            a@.len() == b@.len(),
            forall|j: int| 0 <= j < i ==> a@[j] == b@[j],
        decreases a@.len() - i,
    {
        if a[i] != b[i] {
            return false;
        }
        i += 1;
    }
    assert(a@ =~= b@);
    true
}

/// Whether the slice holds the characters of the string.
pub fn same_text(a: &[char], b: &str) -> (r: bool)
    ensures
        r == (a@ == b@),
{
    let b = to_chars(b);
    same(a, b.as_slice())
}

/// The views of a sequence of slices.
pub open spec fn slices(v: Seq<&[char]>) -> Seq<Seq<char>> {
    v.map_values(|p: &[char]| p@)
}

/// The views of a sequence of string slices.
pub open spec fn strs(v: Seq<&str>) -> Seq<Seq<char>> {
    v.map_values(|p: &str| p@)
}

/// The views of a sequence of strings.
pub open spec fn strings(v: Seq<String>) -> Seq<Seq<char>> {
    v.map_values(|p: String| p@)
}

/// The strings as string slices.
pub fn borrowed<'a>(v: &'a [String]) -> (r: Vec<&'a str>)
    ensures
        strs(r@) == strings(v@),
{
    let mut r: Vec<&'a str> = Vec::new();
    let mut i: usize = 0;
    while i < v.len()
        invariant
            i <= v@.len(),
            r@.len() == i,
            forall|j: int| 0 <= j < i ==> (#[trigger] r@[j])@ == v@[j]@,
        decreases v@.len() - i,
    {
        r.push(v[i].as_str());
        i += 1;
    }
    assert(strs(r@) =~= strings(v@));
    r
}

// ---------------------------------------------------------------------------
// Splitting

/// Where a text is cut.
#[derive(Clone, Copy)]
pub enum Cut {
    /// At every occurrence of one character.
    At(char),
    /// At every whitespace character.
    Space,
}

impl Cut {
    /// Whether the text is cut at `c`.
    pub open spec fn at(self, c: char) -> bool {
        match self {
            Cut::At(d) => c == d,
            Cut::Space => is_space(c),
        }
    }

    fn is_at(self, c: char) -> (r: bool)
        ensures
            r == self.at(c),
    {
        match self {
            Cut::At(d) => c == d,
            Cut::Space => space(c),
        }
    }
}

/// The pieces of `s` between the characters that it is cut at. A text with `n` cuts has `n + 1`
/// pieces, some of which may be empty.
pub open spec fn pieces_of(s: Seq<char>, cut: Cut) -> Seq<Seq<char>>
    decreases s.len(),
{
    if s.len() == 0 {
        seq![Seq::empty()]
    } else {
        let before = pieces_of(s.drop_last(), cut);
        if cut.at(s.last()) {
            before.push(Seq::empty())
        } else {
            before.drop_last().push(before.last().push(s.last()))
        }
    }
}

/// The pieces of `s` between the characters that it is cut at.
pub fn pieces<'a>(s: &'a [char], cut: Cut) -> (r: Vec<&'a [char]>)
    ensures
        slices(r@) == pieces_of(s@, cut),
        r@.len() > 0,
{
    let mut r: Vec<&'a [char]> = Vec::new();
    let mut start: usize = 0;
    let mut i: usize = 0;
    assert(s@.take(0) == Seq::<char>::empty());
    assert(slices(r@).push(s@.subrange(0, 0)) == pieces_of(s@.take(0), cut));
    while i < s.len()
        invariant
            start <= i <= s@.len(),
            slices(r@).push(s@.subrange(start as int, i as int)) == pieces_of(s@.take(i as int), cut),
        decreases s@.len() - i,
    {
        proof {
            assert(s@.take(i + 1).drop_last() == s@.take(i as int));
            assert(s@.take(i + 1).last() == s@[i as int]);
        }
        let ghost before = slices(r@);
        let ghost piece = s@.subrange(start as int, i as int);
        if cut.is_at(s[i]) {
            r.push(slice_subrange(s, start, i));
            start = i + 1;
            assert(slices(r@) == before.push(piece));
            assert(s@.subrange(i + 1, i + 1) == Seq::<char>::empty());
        } else {
            assert(before.push(piece).drop_last() == before);
            assert(s@.subrange(start as int, i + 1) == piece.push(s@[i as int]));
        }
        i += 1;
    }
    assert(s@.take(s@.len() as int) == s@);
    let ghost before = slices(r@);
    let ghost piece = s@.subrange(start as int, i as int);
    r.push(slice_subrange(s, start, i));
    assert(slices(r@) == before.push(piece));
    r
}

/// The words of `s`: its maximal runs of characters that are not whitespace.
pub open spec fn words_of(s: Seq<char>) -> Seq<Seq<char>> {
    pieces_of(s, Cut::Space).filter(|w: Seq<char>| w.len() > 0)
}

/// The words of `s`.
pub fn words<'a>(s: &'a [char]) -> (r: Vec<&'a [char]>)
    ensures
        slices(r@) == words_of(s@),
{
    let all = pieces(s, Cut::Space);
    let mut r: Vec<&'a [char]> = Vec::new();
    let mut i: usize = 0;
    let ghost keep = |w: Seq<char>| w.len() > 0;
    let ghost ps = pieces_of(s@, Cut::Space);
    assert(ps.take(0).filter(keep) == Seq::<Seq<char>>::empty()) by {
        reveal(Seq::filter);
    }
    while i < all.len()
        invariant
            i <= all@.len(),
            ps == slices(all@),
            keep == (|w: Seq<char>| w.len() > 0),
            slices(r@) == ps.take(i as int).filter(keep),
        decreases all@.len() - i,
    {
        let ghost before = slices(r@);
        proof {
            assert(ps.take(i + 1) == ps.take(i as int).push(ps[i as int]));
            ps.take(i as int).lemma_filter_push(ps[i as int], keep);
        }
        if all[i].len() > 0 {
            r.push(all[i]);
            assert(slices(r@) == before.push(ps[i as int]));
        }
        i += 1;
    }
    assert(ps.take(ps.len() as int) == ps);
    r
}

/// `s` without one trailing carriage return, if it has any.
pub open spec fn strip_return(s: Seq<char>) -> Seq<char> {
    if s.len() > 0 && s.last() == '\r' {
        s.drop_last()
    } else {
        s
    }
}

/// The lines of `s`. A line ends with a line feed, or a carriage return followed by a line feed;
/// neither is part of it. The final line need not be ended.
pub open spec fn lines_of(s: Seq<char>) -> Seq<Seq<char>> {
    let all = pieces_of(s, Cut::At('\n'));
    let ended = all.drop_last().map_values(|l: Seq<char>| strip_return(l));
    if all.last().len() == 0 {
        ended
    } else {
        ended.push(all.last())
    }
}

/// The lines of `s`.
pub fn lines<'a>(s: &'a [char]) -> (r: Vec<&'a [char]>)
    ensures
        slices(r@) == lines_of(s@),
{
    let all = pieces(s, Cut::At('\n'));
    let n = all.len() - 1;
    let mut r: Vec<&'a [char]> = Vec::new();
    let mut i: usize = 0;
    let ghost ps = pieces_of(s@, Cut::At('\n'));
    let ghost ended = ps.drop_last().map_values(|l: Seq<char>| strip_return(l));
    while i < n
        invariant
            i <= n,
            n + 1 == all@.len(),
            ps == slices(all@),
            ended == ps.drop_last().map_values(|l: Seq<char>| strip_return(l)),
            slices(r@) == ended.take(i as int),
        decreases n - i,
    {
        let ghost before = slices(r@);
        let line = all[i];
        let line = if line.len() > 0 && line[line.len() - 1] == '\r' {
            slice_subrange(line, 0, line.len() - 1)
        } else {
            line
        };
        r.push(line);
        proof {
            assert(ps[i as int] == all@[i as int]@);
            assert(ended[i as int] == strip_return(ps[i as int]));
            assert(line@ =~= ended[i as int]);
            assert(slices(r@) == before.push(line@));
            assert(ended.take(i + 1) == ended.take(i as int).push(ended[i as int]));
        }
        i += 1;
    }
    assert(ended.take(n as int) == ended);
    let ghost before = slices(r@);
    assert(ps.last() == all@[n as int]@);
    if all[n].len() > 0 {
        r.push(all[n]);
        assert(slices(r@) == before.push(ps.last()));
    }
    r
}


// ---------------------------------------------------------------------------
// Searching

/// The index of the first `c` in `s`, or the length of `s` where there is none.
pub open spec fn first_of(s: Seq<char>, c: char) -> int
    decreases s.len(),
{
    if s.len() == 0 || s[0] == c {
        0
    } else {
        1 + first_of(s.drop_first(), c)
    }
}

/// The index of the last `c` in `s`, or -1 where there is none.
pub open spec fn last_of(s: Seq<char>, c: char) -> int
    decreases s.len(),
{
    if s.len() == 0 {
        -1
    } else if s.last() == c {
        s.len() - 1
    } else {
        last_of(s.drop_last(), c)
    }
}

/// `first_of` is the least index that holds `c`.
pub proof fn lemma_first_of(s: Seq<char>, c: char, i: int)
    requires
        0 <= i <= s.len(),
        forall|j: int| 0 <= j < i ==> s[j] != c,
        i < s.len() ==> s[i] == c,
    ensures
        first_of(s, c) == i,
    decreases s.len(),
{
    if i > 0 {
        assert(s[0] != c);
        assert forall|j: int| 0 <= j < i - 1 implies s.drop_first()[j] != c by {
            assert(s[j + 1] != c);
        }
        lemma_first_of(s.drop_first(), c, i - 1);
    }
}

/// `last_of` is the greatest index that holds `c`.
pub proof fn lemma_last_of(s: Seq<char>, c: char, i: int)
    requires
        -1 <= i < s.len(),
        forall|j: int| i < j < s.len() ==> s[j] != c,
        i >= 0 ==> s[i] == c,
    ensures
        last_of(s, c) == i,
    decreases s.len(),
{
    if i < s.len() - 1 {
        lemma_last_of(s.drop_last(), c, i);
    }
}

/// The parts of `s` before and after the first `c`, if it has one.
pub open spec fn split_once_of(s: Seq<char>, c: char) -> Option<(Seq<char>, Seq<char>)> {
    let i = first_of(s, c);
    if i < s.len() {
        Some((s.take(i), s.skip(i + 1)))
    } else {
        None
    }
}

/// The parts of `s` before and after the first `c`, if it has one.
pub fn split_once<'a>(s: &'a [char], c: char) -> (r: Option<(&'a [char], &'a [char])>)
    ensures
        match r {
            Some((a, b)) => split_once_of(s@, c) == Some((a@, b@)),
            None => split_once_of(s@, c) is None,
        },
{
    let mut i: usize = 0;
    while i < s.len() && s[i] != c
        invariant
            i <= s@.len(),
            forall|j: int| 0 <= j < i ==> s@[j] != c,
        decreases s@.len() - i,
    {
        i += 1;
    }
    proof {
        lemma_first_of(s@, c, i as int);
    }
    if i < s.len() {
        Some((slice_subrange(s, 0, i), slice_subrange(s, i + 1, s.len())))
    } else {
        None
    }
}

/// The part of `s` after the last `c`, if it has one.
pub open spec fn after_last_of(s: Seq<char>, c: char) -> Option<Seq<char>> {
    let i = last_of(s, c);
    if i >= 0 {
        Some(s.skip(i + 1))
    } else {
        None
    }
}

/// The part of `s` after the last `c`, if it has one.
pub fn after_last<'a>(s: &'a [char], c: char) -> (r: Option<&'a [char]>)
    ensures
        match r {
            Some(a) => after_last_of(s@, c) == Some(a@),
            None => after_last_of(s@, c) is None,
        },
{
    let mut i: usize = s.len();
    while i > 0 && s[i - 1] != c
        invariant
            i <= s@.len(),
            forall|j: int| i <= j < s@.len() ==> s@[j] != c,
        decreases i,
    {
        i -= 1;
    }
    proof {
        lemma_last_of(s@, c, i - 1);
    }
    if i > 0 {
        Some(slice_subrange(s, i, s.len()))
    } else {
        None
    }
}

/// Whether `p` stands in `s` from index `i` on.
pub open spec fn stands_at(s: Seq<char>, p: Seq<char>, i: int) -> bool {
    0 <= i && i + p.len() <= s.len() && s.subrange(i, i + p.len()) == p
}

/// Whether `s` starts with `p`.
pub open spec fn starts_with(s: Seq<char>, p: Seq<char>) -> bool {
    stands_at(s, p, 0)
}

/// Whether `s` ends with `p`.
pub open spec fn ends_with(s: Seq<char>, p: Seq<char>) -> bool {
    stands_at(s, p, s.len() - p.len())
}

/// Whether `p` stands somewhere in `s`.
pub open spec fn holds(s: Seq<char>, p: Seq<char>) -> bool {
    exists|i: int| stands_at(s, p, i)
}

/// `s` without the prefix `p`, if it starts with `p`.
pub open spec fn without_prefix(s: Seq<char>, p: Seq<char>) -> Option<Seq<char>> {
    if starts_with(s, p) {
        Some(s.skip(p.len() as int))
    } else {
        None
    }
}

/// `s` without the prefix `p`, if it starts with `p`.
pub fn strip_prefix<'a>(s: &'a [char], p: &str) -> (r: Option<&'a [char]>)
    ensures
        match r {
            Some(rest) => without_prefix(s@, p@) == Some(rest@),
            None => without_prefix(s@, p@) is None,
        },
{
    let n = p.unicode_len();
    if n <= s.len() && same_text(slice_subrange(s, 0, n), p) {
        Some(slice_subrange(s, n, s.len()))
    } else {
        None
    }
}

/// Whether `s` starts with `p`.
pub fn has_prefix(s: &[char], p: &str) -> (r: bool)
    ensures
        r == starts_with(s@, p@),
{
    let n = p.unicode_len();
    n <= s.len() && same_text(slice_subrange(s, 0, n), p)
}

/// Whether `s` ends with `p`.
pub fn has_suffix(s: &[char], p: &str) -> (r: bool)
    ensures
        r == ends_with(s@, p@),
{
    let n = p.unicode_len();
    n <= s.len() && same_text(slice_subrange(s, s.len() - n, s.len()), p)
}

/// Whether `p` stands somewhere in `s`.
pub fn has_part(s: &[char], p: &str) -> (r: bool)
    ensures
        r == holds(s@, p@),
{
    let part = to_chars(p);
    let n = part.len();
    let mut i: usize = 0;
    while i < s.len() && n <= s.len() - i
        invariant
            i <= s@.len(),
            n == p@.len(),
            part@ == p@,
            forall|j: int| 0 <= j < i ==> !stands_at(s@, p@, j),
        decreases s@.len() - i,
    {
        if same(slice_subrange(s, i, i + n), part.as_slice()) {
            assert(stands_at(s@, p@, i as int));
            return true;
        }
        i += 1;
    }
    if n == 0 {
        assert(s@.subrange(0, 0) == p@);
        assert(stands_at(s@, p@, 0));
        return true;
    }
    false
}

/// The lower case of an ASCII letter; any other character as it is.
pub open spec fn lower(c: char) -> char {
    if 'A' <= c <= 'Z' {
        (c as u8 + 32) as u8 as char
    } else {
        c
    }
}

/// `s` with its ASCII letters in lower case.
pub open spec fn lowered(s: Seq<char>) -> Seq<char> {
    s.map_values(|c: char| lower(c))
}

/// The characters of `s`, the ASCII letters among them in lower case.
pub fn to_lower(s: &str) -> (r: Vec<char>)
    ensures
        r@ == lowered(s@),
{
    let s = to_chars(s);
    let mut r: Vec<char> = Vec::new();
    let mut i: usize = 0;
    while i < s.len()
        invariant
            i <= s@.len(),
            r@ == lowered(s@).take(i as int),
        decreases s@.len() - i,
    {
        let c = s[i];
        let d = if 'A' <= c && c <= 'Z' {
            (c as u8 + 32) as char
        } else {
            c
        };
        r.push(d);
        assert(lowered(s@).take(i + 1) == lowered(s@).take(i as int).push(lower(c)));
        i += 1;
    }
    assert(lowered(s@).take(s@.len() as int) == lowered(s@));
    r
}

// ---------------------------------------------------------------------------
// Numbers

/// Whether `c` is a decimal digit.
pub open spec fn is_digit(c: char) -> bool {
    '0' <= c <= '9'
}

/// The number that a sequence of decimal digits denotes.
pub open spec fn decimal_value(s: Seq<char>) -> nat
    decreases s.len(),
{
    if s.len() == 0 {
        0
    } else {
        decimal_value(s.drop_last()) * 10 + (s.last() as u32 - '0' as u32) as nat
    }
}

/// The digits of a number as it may be written: an optional plus sign stands before them.
pub open spec fn unsigned_part(s: Seq<char>) -> Seq<char> {
    if s.len() > 0 && s[0] == '+' {
        s.drop_first()
    } else {
        s
    }
}

/// The number not above `max` that `s` denotes: an optional plus sign and one or more digits.
pub open spec fn number_of(s: Seq<char>, max: nat) -> Option<nat> {
    let d = unsigned_part(s);
    if d.len() > 0 && (forall|i: int| 0 <= i < d.len() ==> is_digit(d[i])) && decimal_value(d) <= max {
        Some(decimal_value(d))
    } else {
        None
    }
}

/// The number not above `max` that `s` denotes.
pub fn parse_number(s: &[char], max: u64) -> (r: Option<u64>)
    ensures
        match r {
            Some(n) => number_of(s@, max as nat) == Some(n as nat),
            None => number_of(s@, max as nat) is None,
        },
{
    let d = if s.len() > 0 && s[0] == '+' {
        slice_subrange(s, 1, s.len())
    } else {
        s
    };
    assert(d@ == unsigned_part(s@));
    if d.len() == 0 {
        return None;
    }
    let mut n: u64 = 0;
    let mut i: usize = 0;
    let mut over = false;
    while i < d.len()
        invariant
            i <= d@.len(),
            d@ == unsigned_part(s@),
            forall|j: int| 0 <= j < i ==> is_digit(d@[j]),
            !over ==> n == decimal_value(d@.take(i as int)) && n <= max,
            over ==> decimal_value(d@.take(i as int)) > max,
        decreases d@.len() - i,
    {
        let c = d[i];
        if !('0' <= c && c <= '9') {
            assert(!is_digit(d@[i as int]));
            return None;
        }
        proof {
            assert(d@.take(i + 1).drop_last() == d@.take(i as int));
            assert(d@.take(i + 1).last() == c);
        }
        if !over {
            let wide: u128 = n as u128 * 10 + (c as u32 - '0' as u32) as u128;
            if wide > max as u128 {
                over = true;
            } else {
                n = wide as u64;
            }
        }
        i += 1;
    }
    assert(d@.take(d@.len() as int) == d@);
    if over {
        None
    } else {
        Some(n)
    }
}

/// The `u32` that `s` denotes.
pub open spec fn u32_of(s: Seq<char>) -> Option<u32> {
    match number_of(s, u32::MAX as nat) {
        Some(n) => Some(n as u32),
        None => None,
    }
}

/// The `u64` that `s` denotes.
pub open spec fn u64_of(s: Seq<char>) -> Option<u64> {
    match number_of(s, u64::MAX as nat) {
        Some(n) => Some(n as u64),
        None => None,
    }
}

/// The `u32` that `s` denotes.
pub fn parse_u32(s: &[char]) -> (r: Option<u32>)
    ensures
        r == u32_of(s@),
{
    match parse_number(s, u32::MAX as u64) {
        Some(n) => Some(n as u32),
        None => None,
    }
}

/// The `u64` that `s` denotes.
pub fn parse_u64(s: &[char]) -> (r: Option<u64>)
    ensures
        r == u64_of(s@),
{
    parse_number(s, u64::MAX)
}

// ---------------------------------------------------------------------------
// Facts on trimming and splitting

/// Whether all characters are whitespace.
pub open spec fn is_blank(s: Seq<char>) -> bool {
    forall|i: int| 0 <= i < s.len() ==> is_space(#[trigger] s[i])
}

/// Whether a text is not empty and neither starts nor ends with whitespace.
pub open spec fn is_clean(s: Seq<char>) -> bool {
    s.len() > 0 && !is_space(s[0]) && !is_space(s.last())
}

/// Whitespace around a clean text is trimmed, and nothing else.
pub proof fn lemma_trim(before: Seq<char>, s: Seq<char>, after: Seq<char>)
    requires
        is_blank(before),
        is_blank(after),
        is_clean(s),
    ensures
        trimmed(before + s + after) == s,
    decreases before.len() + after.len(),
{
    let all = before + s + after;
    if before.len() > 0 {
        assert(all[0] == before[0]);
        assert(all.drop_first() =~= before.drop_first() + s + after);
        assert forall|i: int| 0 <= i < before.drop_first().len() implies is_space(
            #[trigger] before.drop_first()[i],
        ) by {
            assert(before.drop_first()[i] == before[i + 1]);
        }
        lemma_trim(before.drop_first(), s, after);
    } else {
        assert(all =~= s + after);
        assert(all[0] == s[0]);
        assert(trim_start(all) == all);
        lemma_trim_end(s, after);
    }
}

proof fn lemma_trim_end(s: Seq<char>, after: Seq<char>)
    requires
        is_blank(after),
        is_clean(s),
    ensures
        trim_end(s + after) == s,
    decreases after.len(),
{
    let all = s + after;
    if after.len() > 0 {
        assert(all.last() == after[after.len() - 1]);
        assert(all.drop_last() =~= s + after.drop_last());
        assert forall|i: int| 0 <= i < after.drop_last().len() implies is_space(
            #[trigger] after.drop_last()[i],
        ) by {
            assert(after.drop_last()[i] == after[i]);
        }
        lemma_trim_end(s, after.drop_last());
    } else {
        assert(all =~= s);
    }
}

/// Nothing is left of a blank text.
pub proof fn lemma_blank_trims(s: Seq<char>)
    requires
        is_blank(s),
    ensures
        trimmed(s).len() == 0,
    decreases s.len(),
{
    if s.len() > 0 {
        let rest = s.drop_first();
        assert forall|i: int| 0 <= i < rest.len() implies is_space(#[trigger] rest[i]) by {
            assert(rest[i] == s[i + 1]);
        }
        assert(is_space(s[0]));
        lemma_blank_trims(rest);
    }
}

/// The pieces before and after a cut are those of the two sides.
pub proof fn lemma_pieces_at_cut(a: Seq<char>, c: char, b: Seq<char>, cut: Cut)
    requires
        cut.at(c),
    ensures
        pieces_of(a.push(c) + b, cut) == pieces_of(a, cut) + pieces_of(b, cut),
        pieces_of(b, cut).len() > 0,
    decreases b.len(),
{
    let all = a.push(c) + b;
    if b.len() == 0 {
        assert(all =~= a.push(c));
        assert(all.drop_last() =~= a);
        assert(pieces_of(a, cut).push(Seq::empty()) =~= pieces_of(a, cut) + seq![
            Seq::<char>::empty(),
        ]);
    } else {
        lemma_pieces_at_cut(a, c, b.drop_last(), cut);
        assert(all.drop_last() =~= a.push(c) + b.drop_last());
        assert(all.last() == b.last());
        let p = pieces_of(a, cut);
        let q = pieces_of(b.drop_last(), cut);
        if cut.at(b.last()) {
            assert((p + q).push(Seq::empty()) =~= p + q.push(Seq::empty()));
        } else {
            let x = q.last().push(b.last());
            assert((p + q).last() == q.last());
            assert((p + q).drop_last().push(x) =~= p + q.drop_last().push(x));
        }
    }
}

/// A text that is not cut is one piece.
pub proof fn lemma_one_piece(s: Seq<char>, cut: Cut)
    requires
        forall|i: int| 0 <= i < s.len() ==> !cut.at(#[trigger] s[i]),
    ensures
        pieces_of(s, cut) == seq![s],
    decreases s.len(),
{
    if s.len() > 0 {
        let t = s.drop_last();
        assert forall|i: int| 0 <= i < t.len() implies !cut.at(#[trigger] t[i]) by {
            assert(t[i] == s[i]);
        }
        lemma_one_piece(t, cut);
        assert(s[s.len() - 1] == s.last());
        assert(t.push(s.last()) =~= s);
        assert(seq![t].drop_last().push(s) =~= seq![s]);
    } else {
        assert(s =~= Seq::empty());
    }
}

/// A text with a character that is not whitespace has a word.
pub proof fn lemma_has_word(s: Seq<char>, i: int)
    requires
        0 <= i < s.len(),
        !is_space(s[i]),
    ensures
        words_of(s).len() > 0,
    decreases s.len(),
{
    let keep = |w: Seq<char>| w.len() > 0;
    let before = pieces_of(s.drop_last(), Cut::Space);
    if is_space(s.last()) {
        assert(s.drop_last()[i] == s[i]);
        lemma_has_word(s.drop_last(), i);
        before.lemma_filter_push(Seq::empty(), keep);
    } else {
        let x = before.last().push(s.last());
        before.drop_last().lemma_filter_push(x, keep);
    }
}

/// The words before and after a whitespace character are those of the two sides.
pub proof fn lemma_words_at_space(a: Seq<char>, c: char, b: Seq<char>)
    requires
        is_space(c),
    ensures
        words_of(a.push(c) + b) == words_of(a) + words_of(b),
{
    let keep = |w: Seq<char>| w.len() > 0;
    lemma_pieces_at_cut(a, c, b, Cut::Space);
    Seq::filter_distributes_over_add(pieces_of(a, Cut::Space), pieces_of(b, Cut::Space), keep);
}

/// A text without whitespace is one word.
pub proof fn lemma_one_word(word: Seq<char>)
    requires
        word.len() > 0,
        forall|i: int| 0 <= i < word.len() ==> !is_space(#[trigger] word[i]),
    ensures
        words_of(word) == seq![word],
{
    let keep = |w: Seq<char>| w.len() > 0;
    lemma_one_piece(word, Cut::Space);
    assert(seq![word] =~= Seq::<Seq<char>>::empty().push(word));
    Seq::<Seq<char>>::empty().lemma_filter_push(word, keep);
    assert(Seq::<Seq<char>>::empty().filter(keep) =~= Seq::<Seq<char>>::empty()) by {
        reveal(Seq::filter);
    }
}

/// The first word of a text is what stands before its first whitespace.
pub proof fn lemma_first_word(word: Seq<char>, c: char, rest: Seq<char>)
    requires
        word.len() > 0,
        forall|i: int| 0 <= i < word.len() ==> !is_space(#[trigger] word[i]),
        is_space(c),
    ensures
        words_of(word.push(c) + rest) == seq![word] + words_of(rest),
{
    lemma_words_at_space(word, c, rest);
    lemma_one_word(word);
}

// ---------------------------------------------------------------------------
// Laws

/// Among the ASCII characters, the space and the control characters from tab to carriage return are
/// whitespace, and no others. Beyond them it is the next-line character and the Unicode spaces.
pub proof fn law_whitespace(c: char)
    ensures
        (c as u32) < 0x80 ==> (is_space(c) <==> c == ' ' || c == '\t' || c == '\n' || c == '\u{b}' || c
            == '\u{c}' || c == '\r'),
        (c as u32) >= 0x80 ==> (is_space(c) <==> c as u32 == 0x85 || c as u32 == 0xa0 || c as u32
            == 0x1680 || 0x2000 <= c as u32 <= 0x200a || c as u32 == 0x2028 || c as u32 == 0x2029 || c as u32
            == 0x202f || c as u32 == 0x205f || c as u32 == 0x3000),
{
}

/// Trimming takes whitespace off at both ends, all of it and nothing else.
pub proof fn law_trimming_takes_whitespace_off(s: Seq<char>) -> (r: (Seq<char>, Seq<char>))
    ensures
        s == r.0 + trimmed(s) + r.1,
        is_blank(r.0),
        is_blank(r.1),
        trimmed(s).len() == 0 || is_clean(trimmed(s)),
{
    let a = lemma_start_of(s);
    let rest = trim_start(s);
    let b = lemma_end_of(rest);
    assert(s =~= a + trimmed(s) + b);
    if trimmed(s).len() > 0 {
        assert(trimmed(s)[0] == rest[0]);
    }
    (a, b)
}

proof fn lemma_start_of(s: Seq<char>) -> (r: Seq<char>)
    ensures
        s == r + trim_start(s),
        is_blank(r),
        trim_start(s).len() > 0 ==> !is_space(trim_start(s)[0]),
    decreases s.len(),
{
    if s.len() > 0 && is_space(s[0]) {
        let r = lemma_start_of(s.drop_first());
        let all = seq![s[0]] + r;
        assert(s =~= seq![s[0]] + s.drop_first());
        assert(seq![s[0]] + (r + trim_start(s)) =~= all + trim_start(s));
        assert forall|i: int| 0 <= i < all.len() implies is_space(#[trigger] all[i]) by {
            if i > 0 {
                assert(all[i] == r[i - 1]);
            }
        }
        all
    } else {
        assert(s =~= Seq::<char>::empty() + s);
        Seq::empty()
    }
}

proof fn lemma_end_of(s: Seq<char>) -> (r: Seq<char>)
    ensures
        s == trim_end(s) + r,
        is_blank(r),
        trim_end(s).len() > 0 ==> !is_space(trim_end(s).last()),
    decreases s.len(),
{
    if s.len() > 0 && is_space(s.last()) {
        let r = lemma_end_of(s.drop_last());
        let all = r.push(s.last());
        assert(s =~= s.drop_last().push(s.last()));
        assert((trim_end(s) + r).push(s.last()) =~= trim_end(s) + all);
        assert forall|i: int| 0 <= i < all.len() implies is_space(#[trigger] all[i]) by {
            if i < r.len() {
                assert(all[i] == r[i]);
            }
        }
        all
    } else {
        assert(s =~= s + Seq::<char>::empty());
        Seq::empty()
    }
}

/// The pieces with the character between them.
pub open spec fn joined(ps: Seq<Seq<char>>, c: char) -> Seq<char>
    decreases ps.len(),
{
    if ps.len() == 0 {
        Seq::empty()
    } else if ps.len() == 1 {
        ps[0]
    } else {
        joined(ps.drop_last(), c).push(c) + ps.last()
    }
}

/// A text that is cut at a character is its pieces with this character between them, and no piece
/// holds it.
pub proof fn law_pieces_join_to_the_text(s: Seq<char>, c: char)
    ensures
        joined(pieces_of(s, Cut::At(c)), c) == s,
        pieces_of(s, Cut::At(c)).len() > 0,
        forall|i: int|
            0 <= i < pieces_of(s, Cut::At(c)).len() ==> !(#[trigger] pieces_of(
                s,
                Cut::At(c),
            )[i]).contains(c),
    decreases s.len(),
{
    let ps = pieces_of(s, Cut::At(c));
    if s.len() == 0 {
        assert(ps[0] =~= s);
    } else {
        let t = s.drop_last();
        let before = pieces_of(t, Cut::At(c));
        law_pieces_join_to_the_text(t, c);
        if s.last() == c {
            assert(ps.drop_last() =~= before);
            assert(joined(ps, c) =~= joined(before, c).push(c));
            assert(s =~= t.push(c));
            assert forall|i: int| 0 <= i < ps.len() implies !(#[trigger] ps[i]).contains(c) by {
                if i < before.len() {
                    assert(ps[i] == before[i]);
                }
            }
        } else {
            let x = before.last().push(s.last());
            assert(ps.last() == x);
            assert(ps.len() == before.len());
            if ps.len() == 1 {
                assert(joined(ps, c) == x);
                assert(joined(before, c) == before[0]);
                assert(s =~= t.push(s.last()));
                assert(x =~= s);
            } else {
                assert(ps.drop_last() =~= before.drop_last());
                assert(joined(ps, c) =~= joined(before, c).push(s.last()));
                assert(s =~= t.push(s.last()));
            }
            assert forall|i: int| 0 <= i < ps.len() implies !(#[trigger] ps[i]).contains(c) by {
                if i < before.len() - 1 {
                    assert(ps[i] == before[i]);
                } else {
                    assert(!before[before.len() - 1].contains(c));
                    if x.contains(c) {
                        let k = choose|k: int| 0 <= k < x.len() && x[k] == c;
                        assert(before.last()[k] == c);
                        assert(before.last().contains(c));
                    }
                }
            }
        }
    }
}

/// Words are runs without whitespace: those on either side of a whitespace character are the words
/// of the text, a run is one word, and a blank text has none.
pub proof fn law_words_stand_between_whitespace(a: Seq<char>, c: char, b: Seq<char>, word: Seq<char>)
    requires
        is_space(c),
        word.len() > 0,
        forall|i: int| 0 <= i < word.len() ==> !is_space(#[trigger] word[i]),
    ensures
        words_of(a.push(c) + b) == words_of(a) + words_of(b),
        words_of(word) == seq![word],
        words_of(Seq::empty()) == Seq::<Seq<char>>::empty(),
{
    lemma_words_at_space(a, c, b);
    lemma_one_word(word);
    lemma_no_word();
}

/// A text without characters has no words.
pub proof fn lemma_no_word()
    ensures
        words_of(Seq::empty()) == Seq::<Seq<char>>::empty(),
{
    let keep = |w: Seq<char>| w.len() > 0;
    let none = Seq::<Seq<char>>::empty();
    assert(pieces_of(Seq::<char>::empty(), Cut::Space) =~= none.push(Seq::empty()));
    none.lemma_filter_push(Seq::empty(), keep);
    assert(none.filter(keep) =~= none) by {
        reveal(Seq::filter);
    }
}

/// A line ends with a line feed, or with a carriage return and a line feed, and neither is part of
/// it. What follows are further lines; the last one need not be ended.
pub proof fn law_lines_end_with_line_feeds(line: Seq<char>, rest: Seq<char>)
    requires
        !line.contains('\n'),
    ensures
        line.len() > 0 ==> lines_of(line) == seq![line],
        lines_of(Seq::empty()) == Seq::<Seq<char>>::empty(),
        line.len() == 0 || line.last() != '\r' ==> lines_of(line.push('\n') + rest) == seq![line]
            + lines_of(rest),
        lines_of(line.push('\r').push('\n') + rest) == seq![line] + lines_of(rest),
{
    let cut = Cut::At('\n');
    let none = Seq::<Seq<char>>::empty();
    assert forall|i: int| 0 <= i < line.len() implies !cut.at(#[trigger] line[i]) by {
        assert(line.contains(line[i]));
    }
    lemma_one_piece(line, cut);
    let strip = |l: Seq<char>| strip_return(l);
    assert(seq![line].drop_last().map_values(strip) =~= none);
    if line.len() > 0 {
        assert(lines_of(line) =~= seq![line]);
    }
    let empty = Seq::<char>::empty();
    assert(pieces_of(empty, cut) == seq![empty]);
    assert(seq![empty].drop_last().map_values(strip) =~= none);
    assert(lines_of(empty) =~= none);
    lemma_line(line, rest);
    let ended = line.push('\r');
    assert(!ended.contains('\n')) by {
        if ended.contains('\n') {
            let k = choose|k: int| 0 <= k < ended.len() && ended[k] == '\n';
            assert(line[k] == '\n');
        }
    }
    lemma_line(ended, rest);
    assert(strip_return(ended) =~= line);
}

proof fn lemma_line(line: Seq<char>, rest: Seq<char>)
    requires
        !line.contains('\n'),
    ensures
        lines_of(line.push('\n') + rest) == seq![strip_return(line)] + lines_of(rest),
{
    let cut = Cut::At('\n');
    let strip = |l: Seq<char>| strip_return(l);
    assert forall|i: int| 0 <= i < line.len() implies !cut.at(#[trigger] line[i]) by {
        assert(line.contains(line[i]));
    }
    lemma_one_piece(line, cut);
    lemma_pieces_at_cut(line, '\n', rest, cut);
    let p = pieces_of(rest, cut);
    let all = seq![line] + p;
    assert(all.last() == p.last());
    assert(all.drop_last() =~= seq![line] + p.drop_last());
    assert(all.drop_last().map_values(strip) =~= seq![strip_return(line)]
        + p.drop_last().map_values(strip));
    assert(lines_of(line.push('\n') + rest) =~= seq![strip_return(line)] + lines_of(rest));
}

/// A text is split at the first of the characters: the part before has none of them, and the two
/// parts with one between them are the text. A text without one is not split.
pub proof fn law_split_at_the_first(a: Seq<char>, c: char, b: Seq<char>)
    requires
        !a.contains(c),
    ensures
        split_once_of(a.push(c) + b, c) == Some((a, b)),
        split_once_of(a, c) is None,
{
    let s = a.push(c) + b;
    assert forall|j: int| 0 <= j < a.len() implies s[j] != c by {
        assert(a.contains(a[j]));
    }
    assert(s[a.len() as int] == c);
    lemma_first_of(s, c, a.len() as int);
    assert(s.take(a.len() as int) =~= a);
    assert(s.skip(a.len() as int + 1) =~= b);
    assert forall|j: int| 0 <= j < a.len() implies a[j] != c by {
        assert(a.contains(a[j]));
    }
    lemma_first_of(a, c, a.len() as int);
}

/// What follows the last of the characters has none of them. A text without one has no such part.
pub proof fn law_rest_after_the_last(a: Seq<char>, c: char, b: Seq<char>)
    requires
        !b.contains(c),
    ensures
        after_last_of(a.push(c) + b, c) == Some(b),
        after_last_of(b, c) is None,
{
    let s = a.push(c) + b;
    let i = a.len() as int;
    assert(s[i] == c);
    assert forall|j: int| i < j < s.len() implies s[j] != c by {
        assert(s[j] == b[j - i - 1]);
        assert(b.contains(b[j - i - 1]));
    }
    lemma_last_of(s, c, i);
    assert(s.skip(i + 1) =~= b);
    assert forall|j: int| -1 < j < b.len() implies b[j] != c by {
        assert(b.contains(b[j]));
    }
    lemma_last_of(b, c, -1);
}

/// A text starts with a part, ends with it or holds it, if and only if it is this part with another
/// text after it, before it or on both sides. Without the part that it starts with, it is the other.
pub proof fn law_parts_of_a_text(a: Seq<char>, p: Seq<char>, b: Seq<char>, s: Seq<char>)
    ensures
        starts_with(p + b, p),
        ends_with(a + p, p),
        holds(a + p + b, p),
        without_prefix(p + b, p) == Some(b),
        starts_with(s, p) ==> s == p + s.skip(p.len() as int),
        ends_with(s, p) ==> s == s.take(s.len() - p.len()) + p,
        holds(s, p) ==> exists|i: int|
            0 <= i <= s.len() - p.len() && s == #[trigger] s.take(i) + p + s.skip(i + p.len()),
        without_prefix(s, p) is Some ==> starts_with(s, p),
{
    let n = p.len() as int;
    assert((p + b).subrange(0, n) =~= p);
    assert((p + b).skip(n) =~= b);
    assert((a + p).subrange(a.len() as int, a.len() + n) =~= p);
    assert((a + p + b).subrange(a.len() as int, a.len() + n) =~= p);
    assert(stands_at(a + p + b, p, a.len() as int));
    if starts_with(s, p) {
        assert(s =~= p + s.skip(n));
    }
    if ends_with(s, p) {
        assert(s =~= s.take(s.len() - n) + p);
    }
    if holds(s, p) {
        let i = choose|i: int| stands_at(s, p, i);
        assert(s =~= s.take(i) + p + s.skip(i + n));
    }
}

/// Lower case leaves the length and every character but the letters from `A` to `Z`, each of which
/// becomes the letter 32 places further on.
pub proof fn law_lower_case_changes_capitals_alone(s: Seq<char>, i: int)
    requires
        0 <= i < s.len(),
    ensures
        lowered(s).len() == s.len(),
        'A' <= s[i] <= 'Z' ==> lowered(s)[i] as u32 == s[i] as u32 + 32,
        !('A' <= s[i] <= 'Z') ==> lowered(s)[i] == s[i],
{
}

/// A text of digits is read as the number that they denote in base ten, if that is not too large. One
/// plus sign may stand before them; any other character, or none at all, makes it no number.
pub proof fn law_numbers_are_read_in_base_ten(s: Seq<char>, c: char, max: nat)
    ensures
        decimal_value(Seq::empty()) == 0,
        is_digit(c) ==> decimal_value(s.push(c)) == 10 * decimal_value(s) + (c as u32 - '0' as u32),
        is_digit(c) <==> 48 <= c as u32 <= 57,
        number_of(Seq::empty(), max) is None,
        number_of(seq!['+'], max) is None,
        (forall|i: int| 0 <= i < s.len() ==> is_digit(#[trigger] s[i])) && s.len() > 0 ==> {
            &&& decimal_value(s) <= max ==> number_of(s, max) == Some(decimal_value(s))
            &&& decimal_value(s) > max ==> number_of(s, max) is None
            &&& number_of(seq!['+'] + s, max) == number_of(s, max)
        },
        (exists|i: int| 0 < i < s.len() && !is_digit(#[trigger] s[i])) ==> number_of(s, max) is None,
        s.len() > 0 && !is_digit(s[0]) && s[0] != '+' ==> number_of(s, max) is None,
{
    assert(s.push(c).drop_last() =~= s);
    let plus = seq!['+'] + s;
    assert(plus.drop_first() =~= s);
    assert(seq!['+'].drop_first() =~= Seq::<char>::empty());
    if (forall|i: int| 0 <= i < s.len() ==> is_digit(#[trigger] s[i])) && s.len() > 0 {
        assert(is_digit(s[0]));
        assert(unsigned_part(s) == s);
        assert(unsigned_part(plus) == s);
    }
    if exists|i: int| 0 < i < s.len() && !is_digit(#[trigger] s[i]) {
        let i = choose|i: int| 0 < i < s.len() && !is_digit(#[trigger] s[i]);
        if s[0] == '+' {
            assert(s.drop_first()[i - 1] == s[i]);
        }
    }
}

/// Numbers of 32 and of 64 bits are read up to the greatest of each.
pub proof fn law_numbers_fit(s: Seq<char>)
    ensures
        match number_of(s, 0xffff_ffff) {
            Some(n) => n <= 0xffff_ffff && u32_of(s) == Some(n as u32),
            None => u32_of(s) is None,
        },
        match number_of(s, 0xffff_ffff_ffff_ffff) {
            Some(n) => n <= 0xffff_ffff_ffff_ffff && u64_of(s) == Some(n as u64),
            None => u64_of(s) is None,
        },
{
}

/// What is picked out of two sequences together is what is picked out of each.
pub proof fn lemma_filter_map_add<A, B>(a: Seq<A>, b: Seq<A>, f: spec_fn(A) -> Option<B>)
    ensures
        (a + b).filter_map(f) == a.filter_map(f) + b.filter_map(f),
    decreases b.len(),
{
    reveal(Seq::filter_map);
    if b.len() == 0 {
        assert(a + b =~= a);
        assert(a.filter_map(f) + Seq::<B>::empty() =~= a.filter_map(f));
    } else {
        lemma_filter_map_add(a, b.drop_last(), f);
        assert((a + b).drop_last() =~= a + b.drop_last());
        assert((a + b).last() == b.last());
        assert((a + b).filter_map(f) =~= a.filter_map(f) + b.filter_map(f));
    }
}

/// Whitespace has no words.
pub proof fn lemma_blank_has_no_words(s: Seq<char>)
    requires
        is_blank(s),
    ensures
        words_of(s) == Seq::<Seq<char>>::empty(),
    decreases s.len(),
{
    lemma_no_word();
    if s.len() > 0 {
        let (t, c) = (s.drop_last(), s.last());
        assert(is_space(s[s.len() - 1]));
        assert forall|i: int| 0 <= i < t.len() implies is_space(#[trigger] t[i]) by {
            assert(t[i] == s[i]);
        }
        lemma_blank_has_no_words(t);
        lemma_words_at_space(t, c, Seq::empty());
        assert(t.push(c) + Seq::<char>::empty() =~= s);
        assert(words_of(s) =~= Seq::<Seq<char>>::empty());
    } else {
        assert(s =~= Seq::<char>::empty());
    }
}

/// Trimming a text leaves its words.
pub proof fn law_trimming_leaves_the_words(s: Seq<char>)
    ensures
        words_of(trimmed(s)) == words_of(s),
{
    let (a, b) = law_trimming_takes_whitespace_off(s);
    let t = trimmed(s);
    let none = Seq::<Seq<char>>::empty();
    // What stands after.
    assert(words_of(t + b) == words_of(t)) by {
        if b.len() > 0 {
            let rest = b.drop_first();
            assert(is_space(b[0]));
            assert forall|i: int| 0 <= i < rest.len() implies is_space(#[trigger] rest[i]) by {
                assert(rest[i] == b[i + 1]);
            }
            lemma_blank_has_no_words(rest);
            lemma_words_at_space(t, b[0], rest);
            assert(t.push(b[0]) + rest =~= t + b);
            assert(words_of(t) + none =~= words_of(t));
        } else {
            assert(t + b =~= t);
        }
    }
    // What stands before.
    if a.len() > 0 {
        let rest = a.drop_last();
        assert(is_space(a[a.len() - 1]));
        assert forall|i: int| 0 <= i < rest.len() implies is_space(#[trigger] rest[i]) by {
            assert(rest[i] == a[i]);
        }
        lemma_blank_has_no_words(rest);
        lemma_words_at_space(rest, a.last(), t + b);
        assert(rest.push(a.last()) + (t + b) =~= s);
        assert(none + words_of(t + b) =~= words_of(t + b));
    } else {
        assert(t + b =~= s);
    }
}

} // verus!
