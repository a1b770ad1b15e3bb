//! Text as lines: blanks are taken off both ends of the text and of each of
//! its lines, and lines end at a line feed.

use vstd::prelude::*;

verus! {

/// Whether a character is white space: a tab or another control character
/// from U+0009 to U+000D, a space, or one of the other characters that
/// Unicode lists as white space.
pub open spec fn is_blank(c: char) -> bool {
    let n = c as u32;
    (9 <= n <= 13) || n == 0x20 || n == 0x85 || n == 0xA0 || n == 0x1680 || (0x2000 <= n <= 0x200A)
        || n == 0x2028 || n == 0x2029 || n == 0x202F || n == 0x205F || n == 0x3000
}

/// The text without the blanks at its start and at its end.
pub open spec fn trimmed(s: Seq<char>) -> Seq<char>
    decreases s.len(),
{
    if s.len() > 0 && is_blank(s[0]) {
        trimmed(s.drop_first())
    } else if s.len() > 0 && is_blank(s.last()) {
        trimmed(s.drop_last())
    } else {
        s
    }
}

/// The length of the first line: the position of the first line feed, or
/// the length of the text where it holds none.
pub open spec fn line_end(s: Seq<char>) -> int
    decreases s.len(),
{
    if s.len() == 0 || s[0] == '\n' {
        0
    } else {
        1 + line_end(s.drop_first())
    }
}

/// The lines of a text: what stands between its line feeds, before the
/// first and after the last. A text without a line feed is one line.
pub open spec fn lines_of(s: Seq<char>) -> Seq<Seq<char>>
    decreases s.len(),
{
    let end = line_end(s);
    if 0 <= end < s.len() {
        seq![s.take(end)] + lines_of(s.skip(end + 1))
    } else {
        seq![s]
    }
}

/// The lines of the trimmed text, each trimmed.
pub open spec fn trimmed_lines(s: Seq<char>) -> Seq<Seq<char>> {
    lines_of(trimmed(s)).map_values(|line: Seq<char>| trimmed(line))
}

/// The first line ends at the first line feed, or at the end of the text.
pub proof fn lemma_line_end(s: Seq<char>, k: int)
    requires
        0 <= k <= s.len(),
        forall|j: int| 0 <= j < k ==> s[j] != '\n',
        k == s.len() || s[k] == '\n',
    ensures
        line_end(s) == k,
    decreases k,
{
    if k > 0 {
        let rest = s.drop_first();
        assert forall|j: int| 0 <= j < k - 1 implies rest[j] != '\n' by {
            assert(rest[j] == s[j + 1]);
        }
        lemma_line_end(rest, k - 1);
    }
}

/// Whether a character is white space.
pub fn is_whitespace(c: char) -> (r: bool)
    ensures
        r == is_blank(c),
{
    let n: u32 = c as u32;
    (9 <= n && n <= 13) || n == 0x20 || n == 0x85 || n == 0xA0 || n == 0x1680 || (0x2000 <= n && n
        <= 0x200A) || n == 0x2028 || n == 0x2029 || n == 0x202F || n == 0x205F || n == 0x3000
}

/// The characters of a string.
pub fn chars_of(s: &str) -> (chars: Vec<char>)
    ensures
        chars@ == s@,
{
    let mut chars: Vec<char> = Vec::new();
    for c in it: s.chars()
        invariant
            chars@ == it.seq().take(it.index() as int),
            it.seq() == s@,
    {
        chars.push(c);
    }
    chars
}

/// The part of `chars[from..to]` that is left when the blanks at its start
/// and at its end are taken off, as a pair of positions.
pub fn trim_range(chars: &Vec<char>, from: usize, to: usize) -> (r: (usize, usize))
    requires
        from <= to <= chars.len(),
    ensures
        from <= r.0 <= r.1 <= to,
        chars@.subrange(r.0 as int, r.1 as int) == trimmed(chars@.subrange(from as int, to as int)),
{
    let mut lo: usize = from;
    while lo < to && is_whitespace(chars[lo])
        invariant
            from <= lo <= to <= chars.len(),
            trimmed(chars@.subrange(lo as int, to as int)) == trimmed(
                chars@.subrange(from as int, to as int),
            ),
        decreases to - lo,
    {
        proof {
            let part = chars@.subrange(lo as int, to as int);
            assert(part[0] == chars[lo as int]);
            assert(part.drop_first() =~= chars@.subrange(lo + 1, to as int));
        }
        lo = lo + 1;
    }
    let mut hi: usize = to;
    while hi > lo && is_whitespace(chars[hi - 1])
        invariant
            from <= lo <= hi <= to <= chars.len(),
            lo < to ==> !is_blank(chars[lo as int]),
            trimmed(chars@.subrange(lo as int, hi as int)) == trimmed(
                chars@.subrange(from as int, to as int),
            ),
        decreases hi - lo,
    {
        proof {
            let part = chars@.subrange(lo as int, hi as int);
            assert(part[0] == chars[lo as int]);
            assert(part.last() == chars[hi - 1]);
            assert(part.drop_last() =~= chars@.subrange(lo as int, hi - 1));
        }
        hi = hi - 1;
    }
    proof {
        let part = chars@.subrange(lo as int, hi as int);
        if hi > lo {
            assert(part[0] == chars[lo as int]);
            assert(part.last() == chars[hi - 1]);
        }
    }
    (lo, hi)
}

/// `chars[from..to]` without the blanks at its start and at its end.
pub fn trimmed_copy(chars: &Vec<char>, from: usize, to: usize) -> (line: Vec<char>)
    requires
        from <= to <= chars.len(),
    ensures
        line@ == trimmed(chars@.subrange(from as int, to as int)),
{
    let range = trim_range(chars, from, to);
    let mut line: Vec<char> = Vec::new();
    let mut i: usize = range.0;
    while i < range.1
        invariant
            range.0 <= i <= range.1 <= chars.len(),
            line@ == chars@.subrange(range.0 as int, i as int),
        decreases range.1 - i,
    {
        line.push(chars[i]);
        assert(line@ =~= chars@.subrange(range.0 as int, i + 1));
        i = i + 1;
    }
    line
}

/// The lines of a text: blanks are taken off both ends of the text, what is
/// left is cut at each line feed, and blanks are taken off both ends of each
/// piece.
pub fn text_lines(s: &str) -> (lines: Vec<Vec<char>>)
    ensures
        lines.len() == trimmed_lines(s@).len(),
        forall|k: int| 0 <= k < lines.len() ==> (#[trigger] lines[k])@ == trimmed_lines(s@)[k],
{
    let chars = chars_of(s);
    let range = trim_range(&chars, 0, chars.len());
    let lo = range.0;
    let hi = range.1;
    let ghost text = chars@.subrange(lo as int, hi as int);
    let mut lines: Vec<Vec<char>> = Vec::new();
    let ghost mut raw: Seq<Seq<char>> = Seq::empty();
    let mut start: usize = lo;
    let mut i: usize = lo;
    proof {
        assert(chars@.subrange(0, chars.len() as int) =~= chars@);
        assert(text.skip(0) =~= text);
        assert(raw + lines_of(text.skip(0)) =~= lines_of(text));
    }
    while i < hi
        invariant
            lo <= start <= i <= hi <= chars.len(),
            text == chars@.subrange(lo as int, hi as int),
            text == trimmed(s@),
            forall|j: int| start <= j < i ==> chars[j] != '\n',
            lines_of(text) == raw + lines_of(text.skip(start - lo)),
            lines.len() == raw.len(),
            forall|k: int| 0 <= k < lines.len() ==> (#[trigger] lines[k])@ == trimmed(raw[k]),
        decreases hi - i,
    {
        if chars[i] == '\n' {
            let line = trimmed_copy(&chars, start, i);
            proof {
                let rest = text.skip(start - lo);
                assert forall|j: int| 0 <= j < i - start implies rest[j] != '\n' by {
                    assert(rest[j] == chars[start + j]);
                }
                assert(rest[i - start] == chars[i as int]);
                lemma_line_end(rest, i - start);
                assert(rest.take(i - start) =~= chars@.subrange(start as int, i as int));
                assert(rest.skip(i - start + 1) =~= text.skip(i + 1 - lo));
                let piece = chars@.subrange(start as int, i as int);
                assert(raw + (seq![piece] + lines_of(text.skip(i + 1 - lo))) =~= raw.push(piece)
                    + lines_of(text.skip(i + 1 - lo)));
                raw = raw.push(piece);
            }
            lines.push(line);
            start = i + 1;
        }
        i = i + 1;
    }
    let line = trimmed_copy(&chars, start, hi);
    proof {
        let rest = text.skip(start - lo);
        assert forall|j: int| 0 <= j < hi - start implies rest[j] != '\n' by {
            assert(rest[j] == chars[start + j]);
        }
        lemma_line_end(rest, hi - start);
        assert(rest =~= chars@.subrange(start as int, hi as int));
        assert(raw + seq![rest] =~= raw.push(rest));
        raw = raw.push(rest);
    }
    lines.push(line);
    proof {
        assert(raw == lines_of(trimmed(s@)));
        assert(trimmed_lines(s@).len() == raw.len());
    }
    lines
}

} // verus!
