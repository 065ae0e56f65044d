//! Cutting text into pieces: where a pattern first occurs, the lines and the
//! words of a text, and a text without the blanks around it. The functions work
//! on a range of a character buffer and answer with ranges of the same buffer.

use vstd::prelude::*;

verus! {

/// The first place at or after `from` where `pat` occurs in `s`.
pub open spec fn find(s: Seq<char>, pat: Seq<char>, from: int) -> Option<int>
    decreases s.len() - from + 1,
{
    if from < 0 || from + pat.len() > s.len() {
        None
    } else if s.subrange(from, from + pat.len()) == pat {
        Some(from)
    } else {
        find(s, pat, from + 1)
    }
}

/// The lines of a text: a line feed ends one line and starts the next.
pub open spec fn lines(s: Seq<char>) -> Seq<Seq<char>>
    decreases s.len(),
{
    if s.len() == 0 {
        seq![Seq::empty()]
    } else {
        let before = lines(s.drop_last());
        if s.last() == '\n' {
            before.push(Seq::empty())
        } else {
            before.update(before.len() - 1, before.last().push(s.last()))
        }
    }
}

/// Where line `k` ends: behind the lines before it, their line feeds and its own
/// characters.
pub open spec fn end_of_line(all: Seq<Seq<char>>, k: int) -> int
    decreases k + 1,
{
    if k < 0 {
        -1
    } else {
        end_of_line(all, k - 1) + 1 + all[k].len()
    }
}

/// A line without the carriage returns at its end.
pub open spec fn without_cr(s: Seq<char>) -> Seq<char>
    decreases s.len(),
{
    if s.len() > 0 && s.last() == '\r' {
        without_cr(s.drop_last())
    } else {
        s
    }
}

/// The characters with the Unicode property White_Space.
pub open spec fn is_blank(c: char) -> bool {
    ||| '\u{9}' <= c && c <= '\u{d}'
    ||| c == '\u{20}'
    ||| c == '\u{85}'
    ||| c == '\u{a0}'
    ||| c == '\u{1680}'
    ||| '\u{2000}' <= c && c <= '\u{200a}'
    ||| c == '\u{2028}'
    ||| c == '\u{2029}'
    ||| c == '\u{202f}'
    ||| c == '\u{205f}'
    ||| c == '\u{3000}'
}

pub open spec fn trimmed_front(s: Seq<char>) -> Seq<char>
    decreases s.len(),
{
    if s.len() > 0 && is_blank(s[0]) {
        trimmed_front(s.skip(1))
    } else {
        s
    }
}

pub open spec fn trimmed_back(s: Seq<char>) -> Seq<char>
    decreases s.len(),
{
    if s.len() > 0 && is_blank(s.last()) {
        trimmed_back(s.drop_last())
    } else {
        s
    }
}

/// A text without the blanks at its two ends.
pub open spec fn trimmed(s: Seq<char>) -> Seq<char> {
    trimmed_back(trimmed_front(s))
}

/// The words of a text: the longest runs of characters that are not blank.
pub open spec fn words(s: Seq<char>) -> Seq<Seq<char>>
    decreases s.len(),
{
    if s.len() == 0 {
        Seq::empty()
    } else {
        let before = words(s.drop_last());
        if is_blank(s.last()) {
            before
        } else if s.len() == 1 || is_blank(s[s.len() - 2]) {
            before.push(seq![s.last()])
        } else {
            before.update(before.len() - 1, before.last().push(s.last()))
        }
    }
}

/// The texts that a list of ranges cuts out of a buffer.
pub open spec fn pieces(buf: Seq<char>, ranges: Seq<(usize, usize)>) -> Seq<Seq<char>> {
    ranges.map_values(|r: (usize, usize)| buf.subrange(r.0 as int, r.1 as int))
}

/// Every range lies inside the buffer.
pub open spec fn inside(buf: Seq<char>, ranges: Seq<(usize, usize)>) -> bool {
    forall|i: int|
        0 <= i < ranges.len() ==> (#[trigger] ranges[i]).0 <= ranges[i].1 && ranges[i].1
            <= buf.len()
}

/// The ranges start at `lo`, with one character left out between each and the
/// next.
pub open spec fn follow_each_other(ranges: Seq<(usize, usize)>, lo: usize) -> bool {
    &&& ranges.len() > 0 ==> ranges[0].0 == lo
    &&& forall|k: int| 0 < k < ranges.len() ==> (#[trigger] ranges[k]).0 == ranges[k - 1].1 + 1
}

pub fn blank(c: char) -> (b: bool)
    ensures
        b == is_blank(c),
{
    ('\u{9}' <= c && c <= '\u{d}') || c == '\u{20}' || c == '\u{85}' || c == '\u{a0}' || c
        == '\u{1680}' || ('\u{2000}' <= c && c <= '\u{200a}') || c == '\u{2028}' || c == '\u{2029}'
        || c == '\u{202f}' || c == '\u{205f}' || c == '\u{3000}'
}

/// Where `pat` first occurs between `lo` and `hi`.
pub fn find_in(buf: &Vec<char>, lo: usize, hi: usize, pat: &Vec<char>) -> (at: Option<usize>)
    requires
        lo <= hi <= buf@.len(),
    ensures
        match at {
            Some(i) => lo <= i && i + pat@.len() <= hi && find(
                buf@.subrange(lo as int, hi as int),
                pat@,
                0,
            ) == Some(i - lo),
            None => find(buf@.subrange(lo as int, hi as int), pat@, 0) is None,
        },
{
    let ghost s = buf@.subrange(lo as int, hi as int);
    let m: usize = pat.len();
    let mut i: usize = lo;
    while hi - i >= m
        invariant
            lo <= i <= hi,
            hi <= buf@.len(),
            m == pat@.len(),
            s == buf@.subrange(lo as int, hi as int),
            find(s, pat@, 0) == find(s, pat@, i - lo),
        decreases hi - i,
    {
        let mut k: usize = 0;
        while k < m && buf[i + k] == pat[k]
            invariant
                m == pat@.len(),
                i + m <= hi <= buf@.len(),
                k <= m,
                forall|j: int| 0 <= j < k ==> buf@[i + j] == pat@[j],
            decreases m - k,
        {
            k += 1;
        }
        if k == m {
            assert(s.subrange(i - lo, i - lo + m) =~= pat@);
            return Some(i);
        }
        assert(s.subrange(i - lo, i - lo + m)[k as int] != pat@[k as int]);
        if i == hi {
            return None;
        }
        i += 1;
    }
    None
}

/// The lines between `lo` and `hi`.
pub fn line_ranges(buf: &Vec<char>, lo: usize, hi: usize) -> (ranges: Vec<(usize, usize)>)
    requires
        lo <= hi <= buf@.len(),
    ensures
        inside(buf@, ranges@),
        ranges@.len() > 0,
        pieces(buf@, ranges@) == lines(buf@.subrange(lo as int, hi as int)),
        follow_each_other(ranges@, lo),
{
    let ghost s = buf@.subrange(lo as int, hi as int);
    let mut ranges: Vec<(usize, usize)> = Vec::new();
    let mut start: usize = lo;
    let mut i: usize = lo;
    proof {
        assert(s.take(0) =~= Seq::empty());
        assert(buf@.subrange(start as int, i as int) =~= Seq::empty());
        assert(pieces(buf@, ranges@).push(buf@.subrange(start as int, i as int)) =~= lines(
            s.take(0),
        ));
    }
    while i < hi
        invariant
            lo <= start <= i <= hi,
            hi <= buf@.len(),
            s == buf@.subrange(lo as int, hi as int),
            inside(buf@, ranges@),
            follow_each_other(ranges@.push((start, i)), lo),
            pieces(buf@, ranges@).push(buf@.subrange(start as int, i as int)) == lines(
                s.take(i - lo),
            ),
        decreases hi - i,
    {
        let ghost before = pieces(buf@, ranges@);
        let ghost so_far = ranges@.push((start, i));
        let ghost open_line = buf@.subrange(start as int, i as int);
        assert(s.take(i - lo + 1).drop_last() =~= s.take(i - lo));
        assert(s.take(i - lo + 1).last() == buf@[i as int]);
        if buf[i] == '\n' {
            ranges.push((start, i));
            start = i + 1;
            assert(pieces(buf@, ranges@) =~= before.push(open_line));
            assert(buf@.subrange(start as int, i + 1) =~= Seq::empty());
        } else {
            assert(buf@.subrange(start as int, i + 1) =~= open_line.push(buf@[i as int]));
            assert(before.push(open_line).update(
                before.len() as int,
                open_line.push(buf@[i as int]),
            ) =~= before.push(open_line.push(buf@[i as int])));
        }
        i += 1;
        proof {
            let next = ranges@.push((start, i));
            assert forall|k: int| 0 < k < next.len() implies (#[trigger] next[k]).0 == next[k - 1].1
                + 1 by {
                if k < so_far.len() {
                    assert(next[k].0 == so_far[k].0 && next[k - 1].1 == so_far[k - 1].1);
                }
            }
            assert(next[0].0 == so_far[0].0);
        }
    }
    assert(s.take(hi - lo) =~= s);
    let ghost before = pieces(buf@, ranges@);
    ranges.push((start, i));
    assert(pieces(buf@, ranges@) =~= before.push(buf@.subrange(start as int, i as int)));
    ranges
}

/// The end of a line once the carriage returns at its end are cut off.
pub fn end_without_cr(buf: &Vec<char>, lo: usize, hi: usize) -> (end: usize)
    requires
        lo <= hi <= buf@.len(),
    ensures
        lo <= end <= hi,
        buf@.subrange(lo as int, end as int) == without_cr(buf@.subrange(lo as int, hi as int)),
{
    let mut end: usize = hi;
    while end > lo && buf[end - 1] == '\r'
        invariant
            lo <= end <= hi,
            hi <= buf@.len(),
            without_cr(buf@.subrange(lo as int, hi as int)) == without_cr(
                buf@.subrange(lo as int, end as int),
            ),
        decreases end,
    {
        assert(buf@.subrange(lo as int, end as int).drop_last() =~= buf@.subrange(
            lo as int,
            end - 1,
        ));
        end -= 1;
    }
    end
}

/// The range between `lo` and `hi` without the blanks at its ends.
pub fn trim_range(buf: &Vec<char>, lo: usize, hi: usize) -> (range: (usize, usize))
    requires
        lo <= hi <= buf@.len(),
    ensures
        lo <= range.0 <= range.1 <= hi,
        buf@.subrange(range.0 as int, range.1 as int) == trimmed(
            buf@.subrange(lo as int, hi as int),
        ),
{
    let mut start: usize = lo;
    while start < hi && blank(buf[start])
        invariant
            lo <= start <= hi,
            hi <= buf@.len(),
            trimmed_front(buf@.subrange(lo as int, hi as int)) == trimmed_front(
                buf@.subrange(start as int, hi as int),
            ),
        decreases hi - start,
    {
        assert(buf@.subrange(start as int, hi as int).skip(1) =~= buf@.subrange(
            start + 1,
            hi as int,
        ));
        start += 1;
    }
    let mut end: usize = hi;
    while end > start && blank(buf[end - 1])
        invariant
            start <= end <= hi,
            hi <= buf@.len(),
            trimmed_back(buf@.subrange(start as int, hi as int)) == trimmed_back(
                buf@.subrange(start as int, end as int),
            ),
        decreases end,
    {
        assert(buf@.subrange(start as int, end as int).drop_last() =~= buf@.subrange(
            start as int,
            end - 1,
        ));
        end -= 1;
    }
    (start, end)
}

/// The words between `lo` and `hi`.
pub fn word_ranges(buf: &Vec<char>, lo: usize, hi: usize) -> (ranges: Vec<(usize, usize)>)
    requires
        lo <= hi <= buf@.len(),
    ensures
        inside(buf@, ranges@),
        pieces(buf@, ranges@) == words(buf@.subrange(lo as int, hi as int)),
{
    let ghost s = buf@.subrange(lo as int, hi as int);
    let mut ranges: Vec<(usize, usize)> = Vec::new();
    // The word that is being read, if the last character belongs to one.
    let mut start: Option<usize> = None;
    let mut i: usize = lo;
    assert(pieces(buf@, ranges@) =~= words(s.take(0)));
    while i < hi
        invariant
            lo <= i <= hi,
            hi <= buf@.len(),
            s == buf@.subrange(lo as int, hi as int),
            inside(buf@, ranges@),
            match start {
                None => (i == lo || is_blank(buf@[i - 1])) && pieces(buf@, ranges@) == words(
                    s.take(i - lo),
                ),
                Some(b) => lo <= b < i && !is_blank(buf@[i - 1]) && pieces(buf@, ranges@).push(
                    buf@.subrange(b as int, i as int),
                ) == words(s.take(i - lo)),
            },
        decreases hi - i,
    {
        let ghost before = pieces(buf@, ranges@);
        let ghost next = s.take(i - lo + 1);
        let c: char = buf[i];
        assert(next.drop_last() =~= s.take(i - lo));
        assert(next.last() == c);
        assert(i > lo ==> next[next.len() - 2] == buf@[i - 1]);
        if blank(c) {
            if let Some(b) = start {
                ranges.push((b, i));
                assert(pieces(buf@, ranges@) =~= before.push(buf@.subrange(b as int, i as int)));
            }
            start = None;
        } else {
            match start {
                None => {
                    start = Some(i);
                    assert(buf@.subrange(i as int, i + 1) =~= seq![c]);
                },
                Some(b) => {
                    let ghost word = buf@.subrange(b as int, i as int);
                    assert(buf@.subrange(b as int, i + 1) =~= word.push(c));
                    assert(before.push(word).update(before.len() as int, word.push(c))
                        =~= before.push(word.push(c)));
                },
            }
        }
        i += 1;
    }
    assert(s.take(hi - lo) =~= s);
    let ghost before = pieces(buf@, ranges@);
    if let Some(b) = start {
        ranges.push((b, hi));
        assert(pieces(buf@, ranges@) =~= before.push(buf@.subrange(b as int, hi as int)));
    }
    ranges
}

/// Ranges that follow each other from the start end where their lines do.
pub proof fn lemma_range_ends(buf: Seq<char>, ranges: Seq<(usize, usize)>, k: int)
    requires
        inside(buf, ranges),
        follow_each_other(ranges, 0),
        0 <= k < ranges.len(),
    ensures
        ranges[k].1 == end_of_line(pieces(buf, ranges), k),
    decreases k,
{
    let r = ranges[k];
    assert(pieces(buf, ranges)[k] == buf.subrange(r.0 as int, r.1 as int));
    reveal_with_fuel(end_of_line, 2);
    if k > 0 {
        lemma_range_ends(buf, ranges, k - 1);
    }
}

proof fn lemma_end_needs_front(a: Seq<Seq<char>>, b: Seq<Seq<char>>, k: int)
    requires
        forall|j: int| 0 <= j <= k ==> a[j] == b[j],
    ensures
        end_of_line(a, k) == end_of_line(b, k),
    decreases k + 1,
{
    if k >= 0 {
        lemma_end_needs_front(a, b, k - 1);
    }
}

/// The lines of a text lie in it one behind the other, with a line feed between
/// each and the next and nothing else, and hold no line feed themselves.
pub proof fn law_lines_make_up_text(s: Seq<char>)
    ensures
        lines(s).len() > 0,
        forall|k: int, j: int|
            0 <= k < lines(s).len() && 0 <= j < lines(s)[k].len() ==> #[trigger] lines(s)[k][j]
                != '\n',
        end_of_line(lines(s), lines(s).len() - 1) == s.len(),
        forall|k: int|
            0 <= k < lines(s).len() ==> {
                let end = end_of_line(lines(s), k);
                let line = #[trigger] lines(s)[k];
                &&& line.len() <= end <= s.len()
                &&& line == s.subrange(end - line.len(), end)
                &&& k < lines(s).len() - 1 ==> end < s.len() && s[end] == '\n'
            },
    decreases s.len(),
{
    reveal_with_fuel(end_of_line, 2);
    let all = lines(s);
    if s.len() == 0 {
        assert(all[0] =~= s.subrange(0, 0));
    } else {
        let front = s.drop_last();
        let before = lines(front);
        let n = before.len();
        law_lines_make_up_text(front);
        assert forall|k: int| 0 <= k < n - 1 implies end_of_line(all, k) == #[trigger] end_of_line(
            before,
            k,
        ) && all[k] == before[k] by {
            lemma_end_needs_front(all, before, k);
        }
        if s.last() == '\n' {
            lemma_end_needs_front(all, before, n - 1);
            assert(all[n as int].len() == 0);
            assert(end_of_line(all, n as int) == end_of_line(all, n - 1) + 1);
        } else {
            lemma_end_needs_front(all, before, n - 2);
            assert(all[n - 1].len() == before[n - 1].len() + 1);
        }
        assert forall|k: int, j: int|
            0 <= k < all.len() && 0 <= j < all[k].len() implies #[trigger] all[k][j] != '\n' by {
            if k < n && j < before[k].len() {
                assert(before[k][j] != '\n');
                assert(all[k][j] == before[k][j]);
            }
        }
        assert forall|k: int| 0 <= k < all.len() implies {
            let end = end_of_line(all, k);
            let line = #[trigger] all[k];
            &&& line.len() <= end <= s.len()
            &&& line == s.subrange(end - line.len(), end)
            &&& k < all.len() - 1 ==> end < s.len() && s[end] == '\n'
        } by {
            let end = end_of_line(all, k);
            let line = all[k];
            if k < n {
                let old_line = before[k];
                let old_end = end_of_line(before, k);
                assert(old_line == front.subrange(old_end - old_line.len(), old_end));
                if k < n - 1 {
                    assert(end == end_of_line(before, k));
                }
            }
            assert(line =~= s.subrange(end - line.len(), end));
        }
    }
}

/// Only carriage returns at the end of a line are cut off, and all of them.
pub proof fn law_only_trailing_returns_are_cut(s: Seq<char>)
    ensures
        without_cr(s).len() <= s.len(),
        without_cr(s) == s.take(without_cr(s).len() as int),
        forall|i: int| without_cr(s).len() <= i < s.len() ==> #[trigger] s[i] == '\r',
        without_cr(s).len() > 0 ==> without_cr(s).last() != '\r',
    decreases s.len(),
{
    if s.len() > 0 && s.last() == '\r' {
        let front = s.drop_last();
        law_only_trailing_returns_are_cut(front);
        assert(front.take(without_cr(s).len() as int) =~= s.take(without_cr(s).len() as int));
        assert forall|i: int| without_cr(s).len() <= i < s.len() implies #[trigger] s[i]
            == '\r' by {
            if i < front.len() {
                assert(front[i] == s[i]);
            }
        }
    } else {
        assert(s.take(s.len() as int) =~= s);
    }
}

/// Blanks are the tab up to the carriage return, the space, the next line, and the
/// spaces and separators of Unicode, by their code points.
pub proof fn law_blanks_are_white_space(c: char)
    ensures
        is_blank(c) <==> {
            let code = c as u32;
            9 <= code <= 13 || code == 32 || code == 133 || code == 160 || code == 5760 || 8192
                <= code <= 8202 || code == 8232 || code == 8233 || code == 8239 || code == 8287
                || code == 12288
        },
{
}

/// Trimming drops blanks at the two ends, all of them and nothing else: what is left
/// is one stretch of the text, with nothing but blanks before and behind it, and
/// neither begins nor ends with one.
pub proof fn law_trimming_drops_only_outer_blanks(s: Seq<char>) -> (range: (int, int))
    ensures
        0 <= range.0 <= range.1 <= s.len(),
        trimmed(s) == s.subrange(range.0, range.1),
        forall|i: int| 0 <= i < range.0 ==> is_blank(#[trigger] s[i]),
        forall|i: int| range.1 <= i < s.len() ==> is_blank(#[trigger] s[i]),
        range.0 < range.1 ==> !is_blank(s[range.0]) && !is_blank(s[range.1 - 1]),
{
    let lo = lemma_trimmed_front(s);
    let rest = s.skip(lo);
    let hi = lemma_trimmed_back(rest);
    assert(rest.take(hi) =~= s.subrange(lo, lo + hi));
    assert forall|i: int| lo + hi <= i < s.len() implies is_blank(#[trigger] s[i]) by {
        assert(rest[i - lo] == s[i]);
    }
    if 0 < hi {
        assert(rest[0] == s[lo]);
        assert(rest[hi - 1] == s[lo + hi - 1]);
    }
    (lo, lo + hi)
}

proof fn lemma_trimmed_front(s: Seq<char>) -> (lo: int)
    ensures
        0 <= lo <= s.len(),
        trimmed_front(s) == s.skip(lo),
        forall|i: int| 0 <= i < lo ==> is_blank(#[trigger] s[i]),
        lo < s.len() ==> !is_blank(s[lo]),
    decreases s.len(),
{
    if s.len() > 0 && is_blank(s[0]) {
        let rest = s.skip(1);
        let lo = lemma_trimmed_front(rest);
        assert(rest.skip(lo) =~= s.skip(lo + 1));
        assert forall|i: int| 0 <= i < lo + 1 implies is_blank(#[trigger] s[i]) by {
            if i > 0 {
                assert(rest[i - 1] == s[i]);
            }
        }
        if lo < rest.len() {
            assert(rest[lo] == s[lo + 1]);
        }
        lo + 1
    } else {
        assert(s.skip(0) =~= s);
        0
    }
}

proof fn lemma_trimmed_back(s: Seq<char>) -> (hi: int)
    ensures
        0 <= hi <= s.len(),
        trimmed_back(s) == s.take(hi),
        forall|i: int| hi <= i < s.len() ==> is_blank(#[trigger] s[i]),
        0 < hi ==> !is_blank(s[hi - 1]),
    decreases s.len(),
{
    if s.len() > 0 && is_blank(s.last()) {
        let front = s.drop_last();
        let hi = lemma_trimmed_back(front);
        assert(front.take(hi) =~= s.take(hi));
        assert forall|i: int| hi <= i < s.len() implies is_blank(#[trigger] s[i]) by {
            if i < front.len() {
                assert(front[i] == s[i]);
            }
        }
        if 0 < hi {
            assert(front[hi - 1] == s[hi - 1]);
        }
        hi
    } else {
        assert(s.take(s.len() as int) =~= s);
        s.len() as int
    }
}

/// The word lies at place `i` of the text: it is not empty and holds no blank.
pub open spec fn lies_at(s: Seq<char>, word: Seq<char>, i: int) -> bool {
    &&& word.len() > 0
    &&& 0 <= i
    &&& i + word.len() <= s.len()
    &&& word == s.subrange(i, i + word.len())
    &&& forall|j: int| 0 <= j < word.len() ==> !is_blank(#[trigger] word[j])
}

/// Place `i` belongs to one of the words that lie at the given places.
pub open spec fn in_some_word(words: Seq<Seq<char>>, at: Seq<int>, i: int) -> bool {
    exists|k: int| 0 <= k < words.len() && #[trigger] at[k] <= i < at[k] + words[k].len()
}

/// The words lie at the given places in order, with something between each and the
/// next, and every character that is not blank belongs to one.
pub open spec fn words_lie(s: Seq<char>, words: Seq<Seq<char>>, at: Seq<int>) -> bool {
    &&& at.len() == words.len()
    &&& forall|k: int| 0 <= k < at.len() ==> lies_at(s, words[k], #[trigger] at[k])
    &&& forall|k: int, m: int|
        0 <= k < m < at.len() ==> #[trigger] at[k] + words[k].len() < #[trigger] at[m]
    &&& forall|i: int|
        0 <= i < s.len() && !is_blank(#[trigger] s[i]) ==> in_some_word(words, at, i)
}

/// The words of a text are the stretches between its blanks, in order: each lies at
/// its own place with a blank before the next, none is empty or holds a blank, and
/// every character that is not blank belongs to one. The places are returned.
pub proof fn law_words_are_stretches_between_blanks(s: Seq<char>) -> (at: Seq<int>)
    ensures
        words_lie(s, words(s), at),
    decreases s.len(),
{
    if s.len() == 0 {
        Seq::empty()
    } else {
        let front = s.drop_last();
        let before = words(front);
        let at = law_words_are_stretches_between_blanks(front);
        if is_blank(s.last()) {
            lemma_blank_adds_no_word(s, before, at);
            at
        } else if s.len() == 1 || is_blank(s[s.len() - 2]) {
            lemma_letter_starts_word(s, before, at);
            at.push(s.len() - 1)
        } else {
            lemma_letter_joins_word(s, before, at);
            at
        }
    }
}

proof fn lemma_lies_in_longer(s: Seq<char>, word: Seq<char>, i: int)
    requires
        s.len() > 0,
        lies_at(s.drop_last(), word, i),
    ensures
        lies_at(s, word, i),
{
    assert(s.drop_last().subrange(i, i + word.len()) =~= s.subrange(i, i + word.len()));
}

proof fn lemma_blank_adds_no_word(s: Seq<char>, ws: Seq<Seq<char>>, at: Seq<int>)
    requires
        s.len() > 0,
        is_blank(s.last()),
        words_lie(s.drop_last(), ws, at),
    ensures
        words_lie(s, ws, at),
{
    assert forall|k: int| 0 <= k < at.len() implies lies_at(s, ws[k], #[trigger] at[k]) by {
        lemma_lies_in_longer(s, ws[k], at[k]);
    }
    assert forall|i: int| 0 <= i < s.len() && !is_blank(#[trigger] s[i]) implies in_some_word(
        ws,
        at,
        i,
    ) by {
        assert(s.drop_last()[i] == s[i]);
    }
}

proof fn lemma_letter_starts_word(s: Seq<char>, ws: Seq<Seq<char>>, at: Seq<int>)
    requires
        s.len() > 0,
        !is_blank(s.last()),
        s.len() == 1 || is_blank(s[s.len() - 2]),
        words_lie(s.drop_last(), ws, at),
    ensures
        words_lie(s, ws.push(seq![s.last()]), at.push(s.len() - 1)),
{
    let last = s.len() - 1;
    let now = ws.push(seq![s.last()]);
    let more = at.push(last);
    assert forall|k: int| 0 <= k < more.len() implies lies_at(s, now[k], #[trigger] more[k]) by {
        if k < at.len() {
            assert(lies_at(s.drop_last(), ws[k], at[k]));
            lemma_lies_in_longer(s, ws[k], at[k]);
        } else {
            assert(now[k] =~= s.subrange(last, last + 1));
        }
    }
    assert forall|k: int, m: int| 0 <= k < m < more.len() implies #[trigger] more[k] + now[k].len()
        < #[trigger] more[m] by {
        assert(more[k] == at[k] && now[k] == ws[k]);
        assert(lies_at(s.drop_last(), ws[k], at[k]));
        if m < at.len() {
            assert(more[m] == at[m]);
        } else if at[k] + ws[k].len() == last {
            let j = ws[k].len() - 1;
            assert(ws[k][j] == s.drop_last().subrange(at[k], at[k] + ws[k].len())[j]);
        }
    }
    assert forall|i: int| 0 <= i < s.len() && !is_blank(#[trigger] s[i]) implies in_some_word(
        now,
        more,
        i,
    ) by {
        if i < last {
            assert(s.drop_last()[i] == s[i]);
            assert(in_some_word(ws, at, i));
            let k = choose|k: int|
                0 <= k < ws.len() && #[trigger] at[k] <= i < at[k] + ws[k].len();
            assert(more[k] <= i < more[k] + now[k].len());
        } else {
            let k = at.len() as int;
            assert(more[k] <= i < more[k] + now[k].len());
        }
    }
}

proof fn lemma_letter_joins_word(s: Seq<char>, ws: Seq<Seq<char>>, at: Seq<int>)
    requires
        s.len() > 1,
        !is_blank(s.last()),
        !is_blank(s[s.len() - 2]),
        words_lie(s.drop_last(), ws, at),
    ensures
        ws.len() > 0,
        words_lie(s, ws.update(ws.len() - 1, ws.last().push(s.last())), at),
{
    let last = s.len() - 1;
    let front = s.drop_last();
    let n = ws.len() - 1;
    let now = ws.update(n, ws.last().push(s.last()));
    assert(front[last - 1] == s[s.len() - 2]);
    assert(in_some_word(ws, at, last - 1));
    let h = choose|k: int|
        0 <= k < ws.len() && #[trigger] at[k] <= last - 1 < at[k] + ws[k].len();
    assert(h == n) by {
        if h < n {
            assert(at[h] + ws[h].len() < at[n]);
            assert(lies_at(front, ws[n], at[n]));
        }
    }
    assert(lies_at(front, ws[n], at[n]));
    assert(at[n] + ws[n].len() == last);
    assert forall|k: int| 0 <= k < at.len() implies lies_at(s, now[k], #[trigger] at[k]) by {
        assert(lies_at(front, ws[k], at[k]));
        lemma_lies_in_longer(s, ws[k], at[k]);
        if k == n {
            assert(now[k] =~= s.subrange(at[k], at[k] + now[k].len()));
        }
    }
    assert forall|i: int| 0 <= i < s.len() && !is_blank(#[trigger] s[i]) implies in_some_word(
        now,
        at,
        i,
    ) by {
        if i < last {
            assert(front[i] == s[i]);
            assert(in_some_word(ws, at, i));
            let k = choose|k: int|
                0 <= k < ws.len() && #[trigger] at[k] <= i < at[k] + ws[k].len();
            assert(at[k] <= i < at[k] + now[k].len());
        } else {
            assert(at[n] <= i < at[n] + now[n].len());
        }
    }
}

/// A pattern is found where it first occurs, or not at all when it occurs nowhere.
pub proof fn law_first_occurrence_is_found(s: Seq<char>, pat: Seq<char>, from: int)
    requires
        0 <= from,
    ensures
        match find(s, pat, from) {
            Some(i) => {
                &&& from <= i
                &&& i + pat.len() <= s.len()
                &&& s.subrange(i, i + pat.len()) == pat
                &&& forall|j: int| from <= j < i ==> #[trigger] s.subrange(j, j + pat.len()) != pat
            },
            None => forall|j: int|
                from <= j && j + pat.len() <= s.len() ==> #[trigger] s.subrange(j, j + pat.len())
                    != pat,
        },
    decreases s.len() - from + 1,
{
    if from + pat.len() <= s.len() && s.subrange(from, from + pat.len()) != pat {
        law_first_occurrence_is_found(s, pat, from + 1);
    }
}

} // verus!
