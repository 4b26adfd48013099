//! Mapping between byte offsets and line/column positions of one text,
//! through the table of its line starts.

use vstd::prelude::*;
use vstd::utf8::encode_utf8;

verus! {

/// A position in a text: line and column, both counted from 1, the column
/// in bytes.
#[derive(Clone, Copy, Debug, PartialEq, Eq, Structural)]
pub struct TextPos {
    pub row: u32,
    pub col: u32,
}

/// The line starts of a text given by its bytes: offset 0, then the offset
/// just behind each newline, in increasing order.
pub open spec fn line_starts(bytes: Seq<u8>) -> Seq<int>
    decreases bytes.len(),
{
    if bytes.len() == 0 {
        seq![0int]
    } else if bytes.last() == 10u8 {
        line_starts(bytes.drop_last()).push(bytes.len() as int)
    } else {
        line_starts(bytes.drop_last())
    }
}

/// A table of line starts as integers.
pub open spec fn offsets_of(v: Seq<usize>) -> Seq<int> {
    v.map_values(|o: usize| o as int)
}

/// A table begins with 0 and increases strictly.
pub open spec fn increasing_from_zero(starts: Seq<int>) -> bool {
    &&& starts.len() > 0
    &&& starts[0] == 0
    &&& forall|i: int, j: int| 0 <= i < j < starts.len() ==> starts[i] < starts[j]
}

/// The line starts of a text are exactly 0 and the offsets behind its
/// newlines, each once and in increasing order; none lies beyond the text.
pub proof fn lemma_line_starts(bytes: Seq<u8>)
    ensures
        increasing_from_zero(line_starts(bytes)),
        line_starts(bytes).last() <= bytes.len(),
        forall|k: int|
            0 < k < line_starts(bytes).len() ==> 0 < #[trigger] line_starts(bytes)[k]
                <= bytes.len() && bytes[line_starts(bytes)[k] - 1] == 10u8,
        forall|i: int|
            0 <= i < bytes.len() && bytes[i] == 10u8 ==> line_starts(bytes).contains(i + 1),
    decreases bytes.len(),
{
    if bytes.len() > 0 {
        let rest = bytes.drop_last();
        lemma_line_starts(rest);
        let prev = line_starts(rest);
        let all = line_starts(bytes);
        assert forall|i: int| 0 <= i < bytes.len() && bytes[i] == 10u8 implies all.contains(
            i + 1,
        ) by {
            if i < rest.len() {
                assert(rest[i] == 10u8);
                let k = choose|k: int| 0 <= k < prev.len() && prev[k] == i + 1;
                assert(all[k] == i + 1);
            } else {
                assert(all[all.len() - 1] == i + 1);
            }
        }
        assert forall|k: int| 0 < k < all.len() implies 0 < #[trigger] all[k] <= bytes.len()
            && bytes[all[k] - 1] == 10u8 by {
            if k < prev.len() {
                assert(rest[prev[k] - 1] == bytes[prev[k] - 1]);
            }
        }
    }
}

/// The byte offset behind each newline of `text`, preceded by offset 0.
pub fn get_line_offsets(text: &str) -> (offsets: Vec<usize>)
    ensures
        offsets_of(offsets@) == line_starts(encode_utf8(text@)),
{
    let bytes = text.as_bytes();
    let mut offsets: Vec<usize> = Vec::new();
    offsets.push(0);
    let mut i: usize = 0;
    proof {
        assert(bytes@.take(0) =~= Seq::<u8>::empty());
        assert(offsets_of(offsets@) =~= line_starts(bytes@.take(0)));
    }
    while i < bytes.len()
        invariant
            i <= bytes.len(),
            bytes@ == encode_utf8(text@),
            offsets_of(offsets@) == line_starts(bytes@.take(i as int)),
        decreases bytes.len() - i,
    {
        proof {
            assert(bytes@.take(i + 1).drop_last() =~= bytes@.take(i as int));
        }
        let ghost before = offsets@;
        if bytes[i] == 10u8 {
            offsets.push(i + 1);
            proof {
                assert(offsets_of(offsets@) =~= offsets_of(before).push(i + 1));
            }
        }
        i = i + 1;
    }
    proof {
        assert(bytes@.take(bytes.len() as int) =~= bytes@);
    }
    offsets
}

/// The index of the last line start that does not lie beyond `offset`.
pub open spec fn line_containing(starts: Seq<int>, offset: int) -> int
    decreases starts.len(),
{
    if starts.len() <= 1 {
        0
    } else if starts.last() <= offset {
        starts.len() - 1
    } else {
        line_containing(starts.drop_last(), offset)
    }
}

/// In an increasing table, the line containing an offset is the one whose
/// start is the greatest not beyond it.
pub proof fn lemma_line_containing(starts: Seq<int>, offset: int)
    requires
        increasing_from_zero(starts),
        0 <= offset,
    ensures
        0 <= line_containing(starts, offset) < starts.len(),
        starts[line_containing(starts, offset)] <= offset,
        forall|k: int| line_containing(starts, offset) < k < starts.len() ==> offset < starts[k],
    decreases starts.len(),
{
    if starts.len() > 1 && starts.last() > offset {
        let rest = starts.drop_last();
        lemma_line_containing(rest, offset);
        assert forall|k: int| line_containing(starts, offset) < k < starts.len() implies offset
            < starts[k] by {
            if k < rest.len() {
                assert(rest[k] == starts[k]);
            }
        }
    }
}

/// `x` where it fits 32 bits, else the greatest 32-bit number.
pub open spec fn saturate(x: int) -> u32 {
    if x < 0 {
        0u32
    } else if x > u32::MAX {
        u32::MAX
    } else {
        x as u32
    }
}

/// The position of `offset` in a text of `len` bytes with the given line
/// starts. An offset beyond the text counts as its end, and a line or column
/// that does not fit 32 bits is given as the greatest 32-bit number.
pub open spec fn position_at(starts: Seq<int>, len: int, offset: int) -> TextPos {
    let at = if offset > len {
        len
    } else {
        offset
    };
    let line = line_containing(starts, at);
    TextPos { row: saturate(line + 1), col: saturate(at - starts[line] + 1) }
}

/// The offset of column `col` on line `line`, both counted from 0, where
/// that line exists and the offset lies within the text.
pub open spec fn offset_at(starts: Seq<int>, len: int, line: int, col: int) -> Option<int> {
    if 0 <= line < starts.len() && 0 <= col && starts[line] + col <= len {
        Some(starts[line] + col)
    } else {
        None
    }
}

fn saturating_u32(x: usize) -> (r: u32)
    ensures
        r == saturate(x as int),
{
    if x > 0xffff_ffff {
        0xffff_ffff
    } else {
        x as u32
    }
}

/// The line starts of one text, with its length.
pub struct LineIndex {
    offsets: Vec<usize>,
    len: usize,
}

impl LineIndex {
    #[verifier::type_invariant]
    spec fn well_formed(self) -> bool {
        &&& increasing_from_zero(offsets_of(self.offsets@))
        &&& self.offsets@.last() <= self.len
    }

    /// The line starts, in increasing order.
    pub closed spec fn starts(self) -> Seq<int> {
        offsets_of(self.offsets@)
    }

    /// The length of the text in bytes.
    pub closed spec fn text_len(self) -> int {
        self.len as int
    }

    /// The index of a text.
    pub fn build(text: &str) -> (index: LineIndex)
        ensures
            index.starts() == line_starts(encode_utf8(text@)),
            index.text_len() == encode_utf8(text@).len(),
    {
        let offsets = get_line_offsets(text);
        let len = text.as_bytes().len();
        proof {
            lemma_line_starts(encode_utf8(text@));
            assert(offsets@.last() == offsets_of(offsets@).last());
        }
        LineIndex { offsets, len }
    }

    /// The index of the empty text.
    pub fn empty() -> (index: LineIndex)
        ensures
            index.starts() == seq![0int],
            index.text_len() == 0,
    {
        let mut offsets: Vec<usize> = Vec::new();
        offsets.push(0);
        proof {
            assert(offsets_of(offsets@) =~= seq![0int]);
        }
        LineIndex { offsets, len: 0 }
    }

    /// The number of lines.
    pub fn line_count(&self) -> (n: usize)
        ensures
            n == self.starts().len(),
            n >= 1,
    {
        proof {
            use_type_invariant(self);
        }
        self.offsets.len()
    }

    /// Line and column of a byte offset.
    pub fn offset_to_position(&self, offset: usize) -> (pos: TextPos)
        ensures
            pos == position_at(self.starts(), self.text_len(), offset as int),
    {
        proof {
            use_type_invariant(self);
        }
        let at = if offset > self.len {
            self.len
        } else {
            offset
        };
        let ghost starts = offsets_of(self.offsets@);
        let mut lo: usize = 0;
        let mut hi: usize = self.offsets.len();
        while hi - lo > 1
            invariant
                lo < hi <= self.offsets.len(),
                starts == offsets_of(self.offsets@),
                increasing_from_zero(starts),
                starts[lo as int] <= at,
                hi < starts.len() ==> at < starts[hi as int],
            decreases hi - lo,
        {
            let mid = lo + (hi - lo) / 2;
            if self.offsets[mid] <= at {
                lo = mid;
            } else {
                hi = mid;
            }
        }
        proof {
            lemma_line_containing(starts, at as int);
            let line = line_containing(starts, at as int);
            if line < lo {
                assert(starts[line] < starts[lo as int]);
            }
            if lo < line {
                assert(starts[hi as int] <= starts[line]);
            }
        }
        let within = at - self.offsets[lo];
        let col = if within >= 0xffff_ffff {
            0xffff_ffffu32
        } else {
            saturating_u32(within + 1)
        };
        TextPos { row: saturating_u32(lo + 1), col }
    }

    /// The byte offset of a line and column, both counted from 0.
    pub fn position_to_offset(&self, line: usize, col: usize) -> (offset: Option<usize>)
        ensures
            match offset {
                Some(o) => offset_at(self.starts(), self.text_len(), line as int, col as int)
                    == Some(o as int),
                None => offset_at(self.starts(), self.text_len(), line as int, col as int)
                    is None,
            },
    {
        proof {
            use_type_invariant(self);
        }
        if line >= self.offsets.len() {
            return None;
        }
        let start = self.offsets[line];
        if start > self.len || col > self.len - start {
            return None;
        }
        Some(start + col)
    }
}

} // verus!
