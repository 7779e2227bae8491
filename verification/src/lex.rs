//! The fenced-block scanner.
//!
//! [`block`] recognizes content delimited by a three-byte run of a marker
//! byte.  The opening fence is the three delimiter bytes at the probed
//! offset; the closing fence is a later line whose leading `tab_count` bytes
//! are all tabs and which carries another three-byte run right after them.
//! Everything in between is returned verbatim, line by line.

use vstd::prelude::*;
use vstd::slice::slice_index_get;
use vstd::slice::slice_subrange;

verus! {

/// The byte that terminates a line.
pub const NEW_LINE: u8 = 10;

/// The byte that indents a line by one level.
pub const TAB: u8 = 9;

/// The result of probing a byte buffer for a fenced block.
///
/// `Block` carries the lines between the fences.  `Invalid` says the probed
/// offset does not start a block while input remains; `Empty` says the
/// probed offset is at or past the end of the input.  Both are recoverable
/// signals, never faults.
#[derive(Debug, PartialEq)]
pub enum Token<'a> {
    Block(Vec<&'a [u8]>),
    Invalid,
    Empty,
}

/// The position of the next line ending at or after `start`: the first
/// index holding a newline byte, or the length of the buffer if none
/// follows.
pub open spec fn line_end_from(s: Seq<u8>, start: int) -> int
    decreases s.len() - start,
{
    if start >= s.len() {
        s.len() as int
    } else if s[start] == NEW_LINE {
        start
    } else {
        line_end_from(s, start + 1)
    }
}

/// The next line ending stays within the buffer, points at a newline when
/// it is not the buffer's end, and no newline comes before it.
pub proof fn lemma_line_end_from(s: Seq<u8>, start: int)
    requires
        0 <= start <= s.len(),
    ensures
        start <= line_end_from(s, start) <= s.len(),
        line_end_from(s, start) < s.len() ==> s[line_end_from(s, start)] == NEW_LINE,
        forall|i: int| start <= i < line_end_from(s, start) ==> s[i] != NEW_LINE,
    decreases s.len() - start,
{
    if start < s.len() && s[start] != NEW_LINE {
        lemma_line_end_from(s, start + 1);
    }
}

/// Finds the boundary of the line that starts at `start`: the index of the
/// next newline byte, or the end of the buffer.
pub fn find_line_ending(src: &[u8], start: usize) -> (end: usize)
    requires
        start <= src@.len(),
    ensures
        end == line_end_from(src@, start as int),
        start <= end <= src@.len(),
{
    let mut i: usize = start;
    while i < src.len() && *slice_index_get(src, i) != NEW_LINE
        invariant
            start <= i <= src@.len(),
            line_end_from(src@, start as int) == line_end_from(src@, i as int),
        decreases src@.len() - i,
    {
        i = i + 1;
    }
    i
}

/// Whether three consecutive bytes equal to `c` stand at `offset`.
pub open spec fn spec_has_3(s: Seq<u8>, offset: int, c: u8) -> bool {
    &&& offset + 3 <= s.len()
    &&& s[offset] == c
    &&& s[offset + 1] == c
    &&& s[offset + 2] == c
}

/// Reports whether three consecutive bytes equal to `special_character`
/// stand at `offset`; fewer than three remaining bytes is never a match.
pub fn has_3_special_characters(src: &[u8], offset: usize, special_character: u8) -> (r: bool)
    ensures
        r == spec_has_3(src@, offset as int, special_character),
{
    if src.len() >= 3 && offset <= src.len() - 3 {
        *slice_index_get(src, offset) == special_character && *slice_index_get(src, offset + 1)
            == special_character && *slice_index_get(src, offset + 2) == special_character
    } else {
        false
    }
}

/// Whether a line closes a block fenced by `c` at depth `tab_count`: its
/// first `tab_count` bytes are all tabs, and a three-byte run of `c` stands
/// right after them.
pub open spec fn spec_closes_fence(line: Seq<u8>, tab_count: int, c: u8) -> bool {
    &&& forall|i: int| 0 <= i < tab_count ==> line[i] == TAB
    &&& spec_has_3(line, tab_count, c)
}

/// Reports whether `line` is the closing fence of a block fenced by
/// `special_character` at depth `tab_count`.
fn closes_fence(line: &[u8], tab_count: usize, special_character: u8) -> (r: bool)
    ensures
        r == spec_closes_fence(line@, tab_count as int, special_character),
{
    if line.len() < tab_count {
        return false;
    }
    let mut i: usize = 0;
    while i < tab_count
        invariant
            0 <= i <= tab_count <= line@.len(),
            forall|j: int| 0 <= j < i ==> line@[j] == TAB,
        decreases tab_count - i,
    {
        if *slice_index_get(line, i) != TAB {
            return false;
        }
        i = i + 1;
    }
    has_3_special_characters(line, tab_count, special_character)
}

/// The view of collected lines as mathematical byte sequences.
pub open spec fn lines_view(lines: Seq<&[u8]>) -> Seq<Seq<u8>> {
    lines.map(|i: int, l: &[u8]| l@)
}

proof fn lemma_lines_view_push(s: Seq<&[u8]>, x: &[u8])
    ensures
        lines_view(s.push(x)) == lines_view(s).push(x@),
{
    assert(lines_view(s.push(x)) =~= lines_view(s).push(x@));
}

/// The lines and the final offset that scanning for a closing fence yields,
/// starting from `offset` (just past the opening fence).
///
/// Each round reads one line.  An empty read — the line's start equals its
/// end, because the buffer is exhausted or the next byte is already a
/// newline — ends the scan where it stands.  A closing fence ends the scan
/// just past the fence's newline, or at the fence's end when no newline
/// follows; the fence itself is not collected.  Any other line is collected
/// verbatim and the scan moves past its newline.
pub open spec fn scan_lines(s: Seq<u8>, offset: int, tab_count: int, c: u8) -> (Seq<Seq<u8>>, int)
    decreases s.len() - offset,
        when 0 <= offset <= s.len()
    via scan_lines_decreases
{
    let end = line_end_from(s, offset);
    if offset >= end {
        (Seq::<Seq<u8>>::empty(), offset)
    } else {
        let line = s.subrange(offset, end);
        if spec_closes_fence(line, tab_count, c) {
            (Seq::<Seq<u8>>::empty(), if end < s.len() { end + 1 } else { end })
        } else {
            let next: int = if end < s.len() { end + 1 } else { end };
            let rest = scan_lines(s, next, tab_count, c);
            (seq![line] + rest.0, rest.1)
        }
    }
}

#[via_fn]
proof fn scan_lines_decreases(s: Seq<u8>, offset: int, tab_count: int, c: u8) {
    lemma_line_end_from(s, offset);
}

/// Every line of the buffer from `offset` onward, split at newline bytes,
/// without the newlines.
pub open spec fn split_lines(s: Seq<u8>, offset: int) -> Seq<Seq<u8>>
    decreases s.len() - offset,
        when 0 <= offset <= s.len()
    via split_lines_decreases
{
    if offset >= s.len() {
        Seq::<Seq<u8>>::empty()
    } else {
        let end = line_end_from(s, offset);
        let next: int = if end < s.len() {
            end + 1
        } else {
            end
        };
        seq![s.subrange(offset, end)] + split_lines(s, next)
    }
}

#[via_fn]
proof fn split_lines_decreases(s: Seq<u8>, offset: int) {
    lemma_line_end_from(s, offset);
}

/// An unterminated block loses nothing.  When no line from `offset` onward
/// is empty and none closes the fence, the scan collects every remaining
/// line verbatim and stops at the end of the buffer.
pub proof fn lemma_unterminated_scan(s: Seq<u8>, offset: int, tab_count: int, c: u8)
    requires
        0 <= offset <= s.len(),
        offset < s.len() ==> s[offset] != NEW_LINE,
        forall|i: int|
            offset <= i < s.len() - 1 && #[trigger] s[i] == NEW_LINE ==> s[i + 1] != NEW_LINE,
        forall|j: int|
            offset <= j < s.len() && (j == offset || s[j - 1] == NEW_LINE)
                ==> !spec_closes_fence(s.subrange(j, line_end_from(s, j)), tab_count, c),
    ensures
        scan_lines(s, offset, tab_count, c).0 == split_lines(s, offset),
        scan_lines(s, offset, tab_count, c).1 == s.len(),
    decreases s.len() - offset,
{
    lemma_line_end_from(s, offset);
    let end = line_end_from(s, offset);
    if offset < s.len() {
        let next: int = if end < s.len() {
            end + 1
        } else {
            end
        };
        lemma_line_end_from(s, next);
        lemma_unterminated_scan(s, next, tab_count, c);
    }
}

/// The offset of the first content line of a block whose opening fence
/// stands at `offset`: past the three delimiter bytes and past one
/// immediately following newline if present.
pub open spec fn spec_opening_end(s: Seq<u8>, offset: int) -> int {
    if offset + 3 < s.len() && s[offset + 3] == NEW_LINE {
        offset + 4
    } else {
        offset + 3
    }
}

/// Recognizes a fenced block at `offset` in `src`.
///
/// A match requires three consecutive bytes equal to `special_character` at
/// `offset`.  Without a match nothing is consumed: the result is `Invalid`
/// while `offset` is in bounds and `Empty` otherwise, with the offset
/// returned unchanged.  On a match the scanner advances past the opening
/// fence and one following newline, then collects lines as [`scan_lines`]
/// describes, and returns them with the offset of the first byte after the
/// block.
///
/// The offset returned with a recognized block always lands on a line
/// boundary: the end of the buffer, or a position right after a newline.
pub fn block<'a>(
    src: &'a [u8],
    offset: usize,
    tab_count: usize,
    special_character: u8,
) -> (r: (Token<'a>, usize))
    ensures
        !spec_has_3(src@, offset as int, special_character) ==> {
            &&& r.1 == offset
            &&& (offset as int) < src@.len() ==> r.0 == Token::<'a>::Invalid
            &&& (offset as int) >= src@.len() ==> r.0 == Token::<'a>::Empty
        },
        spec_has_3(src@, offset as int, special_character) ==> {
            let scanned = scan_lines(
                src@,
                spec_opening_end(src@, offset as int),
                tab_count as int,
                special_character,
            );
            &&& r.0 is Block
            &&& lines_view(r.0->Block_0@) == scanned.0
            &&& r.1 == scanned.1
        },
        r.0 is Block ==> r.1 == src@.len() || (0 < r.1 <= src@.len() && src@[r.1 - 1]
            == NEW_LINE),
{
    if has_3_special_characters(src, offset, special_character) {
        let ghost start0 = spec_opening_end(src@, offset as int);
        let ghost tc = tab_count as int;
        let n = src.len();
        assert(offset + 3 <= n);
        let mut lines: Vec<&'a [u8]> = Vec::new();
        let mut off: usize = offset + 3;
        if off < src.len() && *slice_index_get(src, off) == NEW_LINE {
            off = off + 1;
        }
        assert(lines_view(lines@) =~= Seq::<Seq<u8>>::empty());
        assert(Seq::<Seq<u8>>::empty() + scan_lines(src@, start0, tc, special_character).0
            =~= scan_lines(src@, start0, tc, special_character).0);
        loop
            invariant_except_break
                scan_lines(src@, start0, tc, special_character).0 == lines_view(lines@)
                    + scan_lines(src@, off as int, tc, special_character).0,
                scan_lines(src@, start0, tc, special_character).1 == scan_lines(
                    src@,
                    off as int,
                    tc,
                    special_character,
                ).1,
                off as int == start0 || off as int == src@.len() || src@[off - 1] == NEW_LINE,
            invariant
                tc == tab_count as int,
                start0 == spec_opening_end(src@, offset as int),
                offset + 3 <= start0 <= src@.len(),
                start0 < src@.len() ==> src@[start0] != NEW_LINE || src@[start0 - 1] == NEW_LINE,
                start0 <= off <= src@.len(),
            ensures
                scan_lines(src@, start0, tc, special_character).0 == lines_view(lines@),
                scan_lines(src@, start0, tc, special_character).1 == off,
                off as int == src@.len() || src@[off - 1] == NEW_LINE,
            decreases src@.len() - off,
        {
            let start = off;
            let end = find_line_ending(src, start);
            proof {
                lemma_line_end_from(src@, start as int);
            }
            if start == end {
                proof {
                    assert(scan_lines(src@, start as int, tc, special_character) == (
                    Seq::<Seq<u8>>::empty(),
                    start as int,
                    ));
                    assert(lines_view(lines@) + Seq::<Seq<u8>>::empty() =~= lines_view(lines@));
                }
                break ;
            }
            let line: &'a [u8] = slice_subrange(src, start, end);
            off = end;
            if closes_fence(line, tab_count, special_character) {
                if off < src.len() && *slice_index_get(src, off) == NEW_LINE {
                    off = off + 1;
                }
                proof {
                    assert(scan_lines(src@, start as int, tc, special_character).0
                        == Seq::<Seq<u8>>::empty());
                    assert(lines_view(lines@) + Seq::<Seq<u8>>::empty() =~= lines_view(lines@));
                }
                break ;
            }
            if off < src.len() {
                off = off + 1;
            }
            let ghost lines_before = lines@;
            lines.push(line);
            proof {
                lemma_lines_view_push(lines_before, line);
                assert(scan_lines(src@, start as int, tc, special_character).0 == seq![line@]
                    + scan_lines(src@, off as int, tc, special_character).0);
                assert(lines_view(lines_before).push(line@) + scan_lines(
                    src@,
                    off as int,
                    tc,
                    special_character,
                ).0 =~= lines_view(lines_before) + (seq![line@] + scan_lines(
                    src@,
                    off as int,
                    tc,
                    special_character,
                ).0));
            }
        }
        (Token::Block(lines), off)
    } else {
        if offset < src.len() {
            (Token::Invalid, offset)
        } else {
            (Token::Empty, offset)
        }
    }
}

} // verus!
