//! The falling-block chamber: five fixed shapes drop into a seven-column
//! shaft, pushed sideways by a cyclic jet pattern, and stack up.  The
//! simulator reports the stack height after a requested number of pieces,
//! using cycle detection to fast-forward very large piece counts.
//!
//! Rows are seven-bit masks: column `c` (0 = left wall) is bit `6 - c` of the
//! row's byte, and bit 7 is always clear.  A shape is a sixteen-bit mask of
//! its four-by-four bounding box, one nibble per row from the top.

use std::collections::HashMap;

use vstd::arithmetic::div_mod::{lemma_fundamental_div_mod, lemma_mod_bound, lemma_mod_self_0, lemma_small_mod};
use vstd::prelude::*;

verus! {

broadcast use vstd::std_specs::hash::group_hash_axioms;

/// One of the five falling shapes, in their fixed spawn order.
#[derive(Debug, Copy, Clone)]
pub enum Shape {
    Horiz,
    Cross,
    LShape,
    Vert,
    Square,
}

impl Shape {
    /// Rows of the shape's bounding box.
    pub open spec fn spec_height(self) -> int {
        match self {
            Shape::Horiz => 1,
            Shape::Cross => 3,
            Shape::LShape => 3,
            Shape::Vert => 4,
            Shape::Square => 2,
        }
    }

    /// Columns of the shape's bounding box.
    pub open spec fn spec_width(self) -> int {
        match self {
            Shape::Horiz => 4,
            Shape::Cross => 3,
            Shape::LShape => 3,
            Shape::Vert => 1,
            Shape::Square => 2,
        }
    }

    /// The shape's occupancy mask: one nibble per bounding-box row, topmost
    /// row in the highest nibble, leftmost column in each nibble's bit 3.
    pub open spec fn spec_bits(self) -> u16 {
        match self {
            Shape::Horiz => 0b1111_0000_0000_0000,
            Shape::Cross => 0b0100_1110_0100_0000,
            Shape::LShape => 0b0010_0010_1110_0000,
            Shape::Vert => 0b1000_1000_1000_1000,
            Shape::Square => 0b1100_1100_0000_0000,
        }
    }

    /// The nibble of bounding-box row `row`, counted 1 to 4 from the top.
    pub open spec fn spec_bits_row(self, row: int) -> u8 {
        (((self.spec_bits() >> (((4 - row) * 4) as u16)) & 0xF) as u8)
    }

    /// The nibble of bounding-box row `r`, counted 0 to 3 from the top.
    pub open spec fn spec_nib(self, r: int) -> u8 {
        self.spec_bits_row(r + 1)
    }

    pub fn get_max_height(&self) -> (r: usize)
        ensures
            r == self.spec_height(),
    {
        match self {
            Shape::Horiz => 1,
            Shape::Cross => 3,
            Shape::LShape => 3,
            Shape::Vert => 4,
            Shape::Square => 2,
        }
    }

    pub fn get_max_width(&self) -> (r: usize)
        ensures
            r == self.spec_width(),
    {
        match self {
            Shape::Horiz => 4,
            Shape::Cross => 3,
            Shape::LShape => 3,
            Shape::Vert => 1,
            Shape::Square => 2,
        }
    }

    pub fn get_bits(&self) -> (r: u16)
        ensures
            r == self.spec_bits(),
    {
        match self {
            Shape::Horiz => 0b1111_0000_0000_0000,
            Shape::Cross => 0b0100_1110_0100_0000,
            Shape::LShape => 0b0010_0010_1110_0000,
            Shape::Vert => 0b1000_1000_1000_1000,
            Shape::Square => 0b1100_1100_0000_0000,
        }
    }

    pub fn get_bits_row(&self, row: usize) -> (r: u8)
        requires
            1 <= row <= 4,
        ensures
            r == self.spec_bits_row(row as int),
            r < 16,
    {
        let place_bits = self.get_bits();
        proof {
            lemma_nibble_extract(place_bits);
        }
        match row {
            1 => ((place_bits & 0b1111_0000_0000_0000) >> 12) as u8,
            2 => ((place_bits & 0b0000_1111_0000_0000) >> 8) as u8,
            3 => ((place_bits & 0b0000_0000_1111_0000) >> 4) as u8,
            _ => (place_bits & 0b0000_0000_0000_1111) as u8,
        }
    }
}

/// Bit `3 - j` of a row nibble: column `j` of that bounding-box row.
pub open spec fn nib_bit(nib: u8, j: int) -> bool {
    (nib >> ((3 - j) as u8)) & 1 == 1
}

/// The shape occupies column `c` of bounding-box row `r` (both from 0).
pub open spec fn piece_cell(s: Shape, r: int, c: int) -> bool {
    &&& 0 <= r < 4
    &&& 0 <= c < 4
    &&& nib_bit(s.spec_nib(r), c)
}

/// The chamber cell at `row` (0 = floor row) and `col` (0 = left wall) is
/// settled.  Rows at or above the list's length, and anything outside the
/// seven columns, read as empty.
pub open spec fn occupied(lines: Seq<u8>, row: int, col: int) -> bool {
    &&& 0 <= row < lines.len()
    &&& 0 <= col < 7
    &&& (lines[row] >> ((6 - col) as u8)) & 1 == 1
}

/// Bit `15 - 4k - j` of a four-row window word: row `k` from the top,
/// column `j` from the left.
pub open spec fn window_bit(r: u16, k: int, j: int) -> bool {
    (r >> ((15 - 4 * k - j) as u16)) & 1 == 1
}

/// Every row mask stays within the seven columns.
pub open spec fn rows_wf(lines: Seq<u8>) -> bool {
    forall|i: int| 0 <= i < lines.len() ==> lines[i] < 128
}

/// The shape may rest with its top row at `top` and its left edge at `left`:
/// the whole bounding box is inside the walls, no cell is below the floor,
/// and no cell of the shape coincides with a settled cell.
pub open spec fn fits(lines: Seq<u8>, s: Shape, top: int, left: int) -> bool {
    &&& 0 <= left
    &&& left + s.spec_width() <= 7
    &&& top >= s.spec_height() - 1
    &&& forall|r: int, c: int|
        piece_cell(s, r, c) ==> !occupied(lines, top - r, left + c)
}

/// Nibble extraction agrees between mask-then-shift and shift-then-mask.
proof fn lemma_nibble_extract(b: u16)
    by (bit_vector)
    ensures
        ((b & 0b1111_0000_0000_0000) >> 12) as u8 == ((b >> 12) & 0xF) as u8,
        ((b & 0b0000_1111_0000_0000) >> 8) as u8 == ((b >> 8) & 0xF) as u8,
        ((b & 0b0000_0000_1111_0000) >> 4) as u8 == ((b >> 4) & 0xF) as u8,
        (b & 0b0000_0000_0000_1111) as u8 == ((b >> 0) & 0xF) as u8,
        ((b >> 12) & 0xF) < 16,
        ((b >> 8) & 0xF) < 16,
        ((b >> 4) & 0xF) < 16,
        ((b >> 0) & 0xF) < 16,
{
}

/// The four-column window cut from a row agrees, bit by bit, with the row's
/// own bits; columns past the right wall read as empty.
proof fn lemma_window(line: u8, left: u8, w: u8)
    by (bit_vector)
    requires
        left <= 6,
        line < 128,
        w == (if left == 0 {
            (line & 0b0111_1000) >> 3
        } else if left == 1 {
            (line & 0b0011_1100) >> 2
        } else if left == 2 {
            (line & 0b0001_1110) >> 1
        } else if left == 3 {
            line & 0b0000_1111
        } else if left == 4 {
            (line & 0b0000_0111) << 1
        } else if left == 5 {
            (line & 0b0000_0011) << 2
        } else {
            (line & 0b0000_0001) << 3
        }),
    ensures
        w < 16,
{
}

/// One column of the cut window agrees with the row's own bit.
proof fn lemma_window_bit(line: u8, left: u8, w: u8, j: u8)
    by (bit_vector)
    requires
        left <= 6,
        line < 128,
        j < 4,
        w == (if left == 0 {
            (line & 0b0111_1000) >> 3
        } else if left == 1 {
            (line & 0b0011_1100) >> 2
        } else if left == 2 {
            (line & 0b0001_1110) >> 1
        } else if left == 3 {
            line & 0b0000_1111
        } else if left == 4 {
            (line & 0b0000_0111) << 1
        } else if left == 5 {
            (line & 0b0000_0011) << 2
        } else {
            (line & 0b0000_0001) << 3
        }),
    ensures
        ((w >> ((3 - j) as u8)) & 1 == 1) <==> (left + j < 7 && ((line >> ((6 - left
            - j) as u8)) & 1 == 1)),
{
}

/// An all-zero window has no occupied column.
proof fn lemma_zero_window(j: u8)
    by (bit_vector)
    requires
        j < 4,
    ensures
        (0u8 >> ((3 - j) as u8)) & 1 == 0,
{
}

/// Packing four nibbles into a word keeps each bit addressable.
proof fn lemma_pack(w0: u8, w1: u8, w2: u8, w3: u8, r: u16, k: u16, j: u16)
    by (bit_vector)
    requires
        w0 < 16,
        w1 < 16,
        w2 < 16,
        w3 < 16,
        k < 4,
        j < 4,
        r == (((w0 as u16) << 12) | ((w1 as u16) << 8) | ((w2 as u16) << 4) | (w3 as u16)),
    ensures
        ((r >> ((15 - 4 * k - j) as u16)) & 1 == 1) <==> (((if k == 0 {
            w0
        } else if k == 1 {
            w1
        } else if k == 2 {
            w2
        } else {
            w3
        }) >> ((3 - j) as u8)) & 1 == 1),
{
}

/// Masks with a zero conjunction share no set bit.
proof fn lemma_no_overlap_bit(bits: u16, window: u16, i: u16)
    by (bit_vector)
    requires
        bits & window == 0,
        i < 16,
    ensures
        !((bits >> i) & 1 == 1 && (window >> i) & 1 == 1),
{
}

/// A word whose sixteen bits are all clear is zero.
proof fn lemma_all_zero(z: u16)
    by (bit_vector)
    requires
        (z >> 0) & 1 != 1,
        (z >> 1) & 1 != 1,
        (z >> 2) & 1 != 1,
        (z >> 3) & 1 != 1,
        (z >> 4) & 1 != 1,
        (z >> 5) & 1 != 1,
        (z >> 6) & 1 != 1,
        (z >> 7) & 1 != 1,
        (z >> 8) & 1 != 1,
        (z >> 9) & 1 != 1,
        (z >> 10) & 1 != 1,
        (z >> 11) & 1 != 1,
        (z >> 12) & 1 != 1,
        (z >> 13) & 1 != 1,
        (z >> 14) & 1 != 1,
        (z >> 15) & 1 != 1,
    ensures
        z == 0,
{
}

/// A nonzero word has a set bit.
proof fn lemma_some_bit(z: u16)
    requires
        z != 0,
    ensures
        exists|i: u16| i < 16 && (z >> i) & 1 == 1,
{
    if (z >> 0) & 1 == 1 {
        assert(0u16 < 16 && (z >> 0u16) & 1 == 1);
    } else if (z >> 1) & 1 == 1 {
        assert(1u16 < 16 && (z >> 1u16) & 1 == 1);
    } else if (z >> 2) & 1 == 1 {
        assert(2u16 < 16 && (z >> 2u16) & 1 == 1);
    } else if (z >> 3) & 1 == 1 {
        assert(3u16 < 16 && (z >> 3u16) & 1 == 1);
    } else if (z >> 4) & 1 == 1 {
        assert(4u16 < 16 && (z >> 4u16) & 1 == 1);
    } else if (z >> 5) & 1 == 1 {
        assert(5u16 < 16 && (z >> 5u16) & 1 == 1);
    } else if (z >> 6) & 1 == 1 {
        assert(6u16 < 16 && (z >> 6u16) & 1 == 1);
    } else if (z >> 7) & 1 == 1 {
        assert(7u16 < 16 && (z >> 7u16) & 1 == 1);
    } else if (z >> 8) & 1 == 1 {
        assert(8u16 < 16 && (z >> 8u16) & 1 == 1);
    } else if (z >> 9) & 1 == 1 {
        assert(9u16 < 16 && (z >> 9u16) & 1 == 1);
    } else if (z >> 10) & 1 == 1 {
        assert(10u16 < 16 && (z >> 10u16) & 1 == 1);
    } else if (z >> 11) & 1 == 1 {
        assert(11u16 < 16 && (z >> 11u16) & 1 == 1);
    } else if (z >> 12) & 1 == 1 {
        assert(12u16 < 16 && (z >> 12u16) & 1 == 1);
    } else if (z >> 13) & 1 == 1 {
        assert(13u16 < 16 && (z >> 13u16) & 1 == 1);
    } else if (z >> 14) & 1 == 1 {
        assert(14u16 < 16 && (z >> 14u16) & 1 == 1);
    } else if (z >> 15) & 1 == 1 {
        assert(15u16 < 16 && (z >> 15u16) & 1 == 1);
    } else {
        lemma_all_zero(z);
        assert(false);
    }
    assert(exists|i: u16| i < 16 && (z >> i) & 1 == 1);
}

/// A set bit of a conjunction is set in both operands.
proof fn lemma_and_bits(bits: u16, window: u16, i: u16)
    by (bit_vector)
    requires
        ((bits & window) >> i) & 1 == 1,
        i < 16,
    ensures
        (bits >> i) & 1 == 1,
        (window >> i) & 1 == 1,
{
}

/// A bit of the sixteen-bit shape mask is the matching bit of its row nibble.
proof fn lemma_bits_to_nib(b: u16, k: u16, j: u16)
    by (bit_vector)
    requires
        k < 4,
        j < 4,
    ensures
        ((b >> ((15 - 4 * k - j) as u16)) & 1 == 1) <==> ((((b >> (((3 - k) * 4) as u16))
            & 0xF) as u8) >> ((3 - j) as u8)) & 1 == 1,
{
}

/// A row nibble shifted to sit with its leftmost bounding-box column at
/// chamber column `left`.
pub open spec fn shift_nib(nib: u8, left: int) -> u8 {
    if left <= 3 {
        nib << ((3 - left) as u8)
    } else {
        nib >> ((left - 3) as u8)
    }
}

/// One chamber row with one bounding-box row of a shape merged in.
pub open spec fn place_row(line: u8, nib: u8, left: int) -> u8 {
    line | shift_nib(nib, left)
}

/// The chamber after a shape settles with its top row at `top` and its left
/// edge at `left`: rows grow to cover the piece, and each bounding-box row is
/// merged into its chamber row.
pub open spec fn spec_place(lines: Seq<u8>, s: Shape, top: int, left: int) -> Seq<u8> {
    Seq::new(
        if top + 1 > lines.len() {
            (top + 1) as nat
        } else {
            lines.len()
        },
        |i: int|
            {
                let base = if i < lines.len() {
                    lines[i]
                } else {
                    0u8
                };
                if 0 <= top - i < 4 {
                    place_row(base, s.spec_nib(top - i), left)
                } else {
                    base
                }
            },
    )
}

/// The row nibbles of each shape, written out; rows below a shape's height
/// are empty.
pub open spec fn nib_table(s: Shape, r: int) -> u8 {
    match s {
        Shape::Horiz => if r == 0 {
            0b1111
        } else {
            0
        },
        Shape::Cross => if r == 0 {
            0b0100
        } else if r == 1 {
            0b1110
        } else if r == 2 {
            0b0100
        } else {
            0
        },
        Shape::LShape => if r == 0 {
            0b0010
        } else if r == 1 {
            0b0010
        } else if r == 2 {
            0b1110
        } else {
            0
        },
        Shape::Vert => if 0 <= r < 4 {
            0b1000
        } else {
            0
        },
        Shape::Square => if r == 0 || r == 1 {
            0b1100
        } else {
            0
        },
    }
}

/// The nibble constants cut from each shape's sixteen-bit mask.
proof fn lemma_shape_nib_values()
    by (bit_vector)
    ensures
        ((0b1111_0000_0000_0000u16 >> 12) & 0xF) as u8 == 0b1111u8,
        ((0b1111_0000_0000_0000u16 >> 8) & 0xF) as u8 == 0u8,
        ((0b1111_0000_0000_0000u16 >> 4) & 0xF) as u8 == 0u8,
        ((0b1111_0000_0000_0000u16 >> 0) & 0xF) as u8 == 0u8,
        ((0b0100_1110_0100_0000u16 >> 12) & 0xF) as u8 == 0b0100u8,
        ((0b0100_1110_0100_0000u16 >> 8) & 0xF) as u8 == 0b1110u8,
        ((0b0100_1110_0100_0000u16 >> 4) & 0xF) as u8 == 0b0100u8,
        ((0b0100_1110_0100_0000u16 >> 0) & 0xF) as u8 == 0u8,
        ((0b0010_0010_1110_0000u16 >> 12) & 0xF) as u8 == 0b0010u8,
        ((0b0010_0010_1110_0000u16 >> 8) & 0xF) as u8 == 0b0010u8,
        ((0b0010_0010_1110_0000u16 >> 4) & 0xF) as u8 == 0b1110u8,
        ((0b0010_0010_1110_0000u16 >> 0) & 0xF) as u8 == 0u8,
        ((0b1000_1000_1000_1000u16 >> 12) & 0xF) as u8 == 0b1000u8,
        ((0b1000_1000_1000_1000u16 >> 8) & 0xF) as u8 == 0b1000u8,
        ((0b1000_1000_1000_1000u16 >> 4) & 0xF) as u8 == 0b1000u8,
        ((0b1000_1000_1000_1000u16 >> 0) & 0xF) as u8 == 0b1000u8,
        ((0b1100_1100_0000_0000u16 >> 12) & 0xF) as u8 == 0b1100u8,
        ((0b1100_1100_0000_0000u16 >> 8) & 0xF) as u8 == 0b1100u8,
        ((0b1100_1100_0000_0000u16 >> 4) & 0xF) as u8 == 0u8,
        ((0b1100_1100_0000_0000u16 >> 0) & 0xF) as u8 == 0u8,
{
}

/// Each shape's row nibbles match the written-out table.
proof fn lemma_nib_table(s: Shape, r: int)
    requires
        0 <= r < 4,
    ensures
        s.spec_nib(r) == nib_table(s, r),
{
    lemma_shape_nib_values();
    assert(((4 - (r + 1)) * 4) as u16 == (if r == 0 {
        12u16
    } else if r == 1 {
        8u16
    } else if r == 2 {
        4u16
    } else {
        0u16
    }));
}

/// Merging an empty nibble leaves the row unchanged.
proof fn lemma_place_zero(line: u8, sh: u8)
    by (bit_vector)
    ensures
        line | (0u8 << sh) == line,
        line | (0u8 >> sh) == line,
{
}

/// A merged row stays within the seven columns.
proof fn lemma_place_row_wf(line: u8, nib: u8, sh: u8)
    by (bit_vector)
    requires
        line < 128,
        nib < 16,
    ensures
        sh <= 3 ==> (line | (nib << sh)) < 128,
        line | (nib >> sh) < 128,
{
}

/// A usable jet pattern: nonempty, and nothing but the two push symbols.
pub open spec fn jets_wf(jets: Seq<char>) -> bool {
    &&& jets.len() > 0
    &&& forall|i: int| 0 <= i < jets.len() ==> jets[i] == '<' || jets[i] == '>'
}

/// The shape spawned for piece index `i` within the five-piece cycle.
pub open spec fn spec_shape(i: int) -> Shape {
    if i == 0 {
        Shape::Horiz
    } else if i == 1 {
        Shape::Cross
    } else if i == 2 {
        Shape::LShape
    } else if i == 3 {
        Shape::Vert
    } else {
        Shape::Square
    }
}

/// A spawned piece's top row: three clear rows between the stack and the
/// piece's bottom.
pub open spec fn spec_spawn_top(lines: Seq<u8>, s: Shape) -> int {
    lines.len() + 2 + s.spec_height()
}

/// Where a piece pushed by the jets comes to rest, and the jet index after:
/// one push (kept only if the piece still fits), then one drop; the piece
/// settles where the drop no longer fits.
pub open spec fn spec_fall(
    lines: Seq<u8>,
    s: Shape,
    top: int,
    left: int,
    ji: int,
    jets: Seq<char>,
) -> (int, int, int)
    decreases top,
{
    let pushed = if jets[ji] == '<' {
        left - 1
    } else {
        left + 1
    };
    let left2 = if fits(lines, s, top, pushed) {
        pushed
    } else {
        left
    };
    let ji2 = if ji + 1 == jets.len() {
        0
    } else {
        ji + 1
    };
    if fits(lines, s, top - 1, left2) && top >= 1 {
        spec_fall(lines, s, top - 1, left2, ji2, jets)
    } else {
        (top, left2, ji2)
    }
}

/// The chamber and jet index after `pieces` pieces have spawned, fallen and
/// settled, starting at shape index `sn` within the five-piece cycle.
pub open spec fn spec_sim(
    lines: Seq<u8>,
    jets: Seq<char>,
    ji: int,
    sn: int,
    pieces: nat,
) -> (Seq<u8>, int)
    decreases pieces,
{
    if pieces == 0 {
        (lines, ji)
    } else {
        let s = spec_shape(sn);
        let f = spec_fall(lines, s, spec_spawn_top(lines, s), 2, ji, jets);
        let lines2 = spec_place(lines, s, f.0, f.1);
        spec_sim(lines2, jets, f.2, (sn + 1) % 5, (pieces - 1) as nat)
    }
}

/// A freshly spawned piece fits: it sits wholly above the stack, away from
/// both walls.
proof fn lemma_spawn_fits(lines: Seq<u8>, s: Shape)
    ensures
        fits(lines, s, spec_spawn_top(lines, s), 2),
{
    let top = spec_spawn_top(lines, s);
    assert(s.spec_height() >= 1);
    assert(s.spec_width() <= 4);
    assert forall|r: int, c: int| piece_cell(s, r, c) implies !occupied(lines, top - r, 2 + c) by {
        assert(top - r > lines.len() - 1);
    }
}

/// The top eight rows packed into one word, topmost row in the lowest byte.
pub open spec fn spec_skyline(lines: Seq<u8>) -> u64
    recommends
        lines.len() >= 8,
{
    (lines[lines.len() - 1] as u64) | ((lines[lines.len() - 2] as u64) << 8) | ((lines[lines.len()
        - 3] as u64) << 16) | ((lines[lines.len() - 4] as u64) << 24) | ((lines[lines.len()
        - 5] as u64) << 32) | ((lines[lines.len() - 6] as u64) << 40) | ((lines[lines.len()
        - 7] as u64) << 48) | ((lines[lines.len() - 8] as u64) << 56)
}

/// The cycle-detection signature: the top-rows profile, the shape index, and
/// the jet index, packed into one word.
pub open spec fn spec_sig(lines: Seq<u8>, sn: int, ji: int) -> u128 {
    (spec_skyline(lines) as u128) | ((sn as u128) << 64) | ((ji as u128) << 67)
}

/// The height reported by the cycle-accelerated run: pieces settle one by
/// one; once the chamber is at least eight rows tall, each settled state's
/// signature is recorded against the pieces placed and height so far, and a
/// repeated signature fast-forwards whole cycles of pieces, accumulating
/// their height into `extra` and clearing the table.
pub open spec fn spec_accel(
    lines: Seq<u8>,
    jets: Seq<char>,
    ji: int,
    sn: int,
    rock: nat,
    seen: Map<u128, (usize, usize)>,
    extra: nat,
    target: nat,
) -> nat
    decreases target - rock,
    via spec_accel_decreases
{
    if rock >= target {
        (lines.len() + extra) as nat
    } else {
        let s = spec_shape(sn);
        let f = spec_fall(lines, s, spec_spawn_top(lines, s), 2, ji, jets);
        let lines2 = spec_place(lines, s, f.0, f.1);
        let ji2 = f.2;
        let sn2 = (sn + 1) % 5;
        let rock2 = rock + 1;
        if lines2.len() < 8 {
            spec_accel(lines2, jets, ji2, sn2, rock2 as nat, seen, extra, target)
        } else {
            let sig = spec_sig(lines2, sn2, ji2);
            if seen.contains_key(sig) && seen[sig].0 < rock2 && seen[sig].1 <= lines2.len() {
                let cyc_len = rock2 - seen[sig].0;
                let cycles = (target - rock2) / cyc_len;
                let rock3 = rock2 + cyc_len * cycles;
                let extra2 = extra + cycles * (lines2.len() - seen[sig].1);
                spec_accel(lines2, jets, ji2, sn2, rock3 as nat, Map::empty(), extra2 as nat, target)
            } else {
                spec_accel(
                    lines2,
                    jets,
                    ji2,
                    sn2,
                    rock2 as nat,
                    seen.insert(sig, ((rock2 as usize), (lines2.len() as usize))),
                    extra,
                    target,
                )
            }
        }
    }
}

#[via_fn]
proof fn spec_accel_decreases(
    lines: Seq<u8>,
    jets: Seq<char>,
    ji: int,
    sn: int,
    rock: nat,
    seen: Map<u128, (usize, usize)>,
    extra: nat,
    target: nat,
) {
    if rock < target {
        let s = spec_shape(sn);
        let f = spec_fall(lines, s, spec_spawn_top(lines, s), 2, ji, jets);
        let lines2 = spec_place(lines, s, f.0, f.1);
        let sn2 = (sn + 1) % 5;
        let rock2 = rock + 1;
        if lines2.len() >= 8 {
            let sig = spec_sig(lines2, sn2, f.2);
            if seen.contains_key(sig) && seen[sig].0 < rock2 && seen[sig].1 <= lines2.len() {
                let cyc_len = rock2 - seen[sig].0;
                lemma_fundamental_div_mod(target - rock2, cyc_len);
                lemma_mod_bound(target - rock2, cyc_len);
            }
        }
    }
}

/// The chamber: settled rows from the floor up, the cyclic jet pattern, and
/// the fixed wall-to-wall width.
#[derive(Debug)]
pub struct Cave {
    lines: Vec<u8>,
    jets: Vec<char>,
    width: usize,
}

impl Cave {
    /// Rows stay within the seven columns and the width is fixed.
    pub closed spec fn wf(&self) -> bool {
        &&& self.width == 7
        &&& rows_wf(self.lines@)
    }

    /// The settled rows, floor first.
    pub closed spec fn spec_lines(&self) -> Seq<u8> {
        self.lines@
    }

    /// The jet pattern as loaded.
    pub closed spec fn spec_jets(&self) -> Seq<char> {
        self.jets@
    }

    pub fn new(str: String) -> (r: Self)
        ensures
            r.wf(),
            r.spec_lines() == Seq::<u8>::empty(),
            r.spec_jets() == str@,
    {
        let n = str.as_str().unicode_len();
        let mut jets: Vec<char> = Vec::new();
        let mut i: usize = 0;
        while i < n
            invariant
                n == str@.len(),
                i <= n,
                jets@ == str@.subrange(0, i as int),
            decreases n - i,
        {
            jets.push(str.as_str().get_char(i));
            proof {
                assert(jets@ =~= str@.subrange(0, i + 1 as int));
            }
            i = i + 1;
        }
        proof {
            assert(jets@ =~= str@);
        }
        Self { lines: Vec::new(), jets, width: 7 }
    }

    /// The four columns starting at `left` of one chamber row, as a nibble;
    /// rows above the stack read as empty.
    fn get_shifted_line(&self, row: usize, left: usize) -> (w: u8)
        requires
            self.wf(),
            left <= 6,
        ensures
            w < 16,
            forall|j: int|
                0 <= j < 4 ==> (nib_bit(w, j) <==> occupied(
                    self.spec_lines(),
                    row as int,
                    left as int + j,
                )),
    {
        if row >= self.lines.len() {
            proof {
                assert forall|j: int| 0 <= j < 4 implies !nib_bit(0u8, j) by {
                    let ju = j as u8;
                    lemma_zero_window(ju);
                    assert((3 - j) as u8 == (3 - ju) as u8);
                }
            }
            0x00
        } else {
            let line = self.lines[row];
            let result: u8 = match left {
                0 => (line & 0b0111_1000) >> 3,
                1 => (line & 0b0011_1100) >> 2,
                2 => (line & 0b0001_1110) >> 1,
                3 => line & 0b0000_1111,
                4 => (line & 0b0000_0111) << 1,
                5 => (line & 0b0000_0011) << 2,
                _ => (line & 0b0000_0001) << 3,
            };
            proof {
                lemma_window(line, left as u8, result);
                assert forall|j: int|
                    0 <= j < 4 implies (nib_bit(result, j) <==> occupied(
                    self.spec_lines(),
                    row as int,
                    left as int + j,
                )) by {
                    let ju = j as u8;
                    let lu = left as u8;
                    lemma_window_bit(line, lu, result, ju);
                    assert((3 - j) as u8 == (3 - ju) as u8);
                    if left as int + j < 7 {
                        assert((6 - (left as int + j)) as u8 == (6 - lu - ju) as u8);
                    }
                }
            }
            result
        }
    }

    /// The four-row, four-column window whose top-left cell is at
    /// (`top`, `left`), one nibble per row from the top; rows below the floor
    /// read as empty.
    fn get_u16(&self, top: usize, left: usize) -> (r: u16)
        requires
            self.wf(),
            left <= 6,
        ensures
            forall|k: int, j: int|
                0 <= k < 4 && 0 <= j < 4 ==> (window_bit(r, k, j) <==> occupied(
                    self.spec_lines(),
                    top - k,
                    left as int + j,
                )),
    {
        let w0 = self.get_shifted_line(top, left);
        let w1 = if top > 0 {
            self.get_shifted_line(top - 1, left)
        } else {
            0
        };
        let w2 = if top > 1 {
            self.get_shifted_line(top - 2, left)
        } else {
            0
        };
        let w3 = if top > 2 {
            self.get_shifted_line(top - 3, left)
        } else {
            0
        };
        let r = ((w0 as u16) << 12) | ((w1 as u16) << 8) | ((w2 as u16) << 4) | (w3 as u16);
        proof {
            assert forall|k: int, j: int|
                0 <= k < 4 && 0 <= j < 4 implies (window_bit(r, k, j) <==> occupied(
                self.spec_lines(),
                top - k,
                left as int + j,
            )) by {
                let ku = k as u16;
                let ju = j as u16;
                lemma_pack(w0, w1, w2, w3, r, ku, ju);
                assert((15 - 4 * k - j) as u16 == (15 - 4 * ku - ju) as u16);
                let wk = if ku == 0 {
                    w0
                } else if ku == 1 {
                    w1
                } else if ku == 2 {
                    w2
                } else {
                    w3
                };
                assert(((r >> ((15 - 4 * ku - ju) as u16)) & 1 == 1) <==> ((wk >> ((3
                    - ju) as u8)) & 1 == 1));
                assert((3 - j) as u8 == (3 - ju as int) as u8);
                if top - k >= 0 {
                    assert(nib_bit(wk, j) <==> occupied(self.spec_lines(), top - k, left as int + j));
                } else {
                    assert(wk == 0u8);
                    lemma_zero_window(ju as u8);
                    assert((0u8 >> ((3 - ju as int) as u8)) & 1 == 0);
                }
            }
        }
        r
    }

    /// Whether the shape may stand with its top row at `new_rock_top` and its
    /// left edge at `new_rock_left`: inside the walls, nothing below the
    /// floor, and clear of every settled cell.
    fn can_move(&self, shape: Shape, new_rock_top: i64, new_rock_left: i64) -> (r: bool)
        requires
            self.wf(),
            new_rock_top <= self.spec_lines().len() + 8,
            self.spec_lines().len() + 8 <= usize::MAX,
        ensures
            r == fits(self.spec_lines(), shape, new_rock_top as int, new_rock_left as int),
    {
        let h = shape.get_max_height() as i64;
        let w = shape.get_max_width() as i64;
        if new_rock_left < 0 || new_rock_top < h - 1 || new_rock_left > self.width as i64 - w {
            false
        } else {
            let bits = shape.get_bits();
            let window = self.get_u16(new_rock_top as usize, new_rock_left as usize);
            let ok = bits & window == 0;
            proof {
                let lines = self.spec_lines();
                let top = new_rock_top as int;
                let left = new_rock_left as int;
                assert(new_rock_top as usize as int == top);
                if ok {
                    assert forall|r: int, c: int|
                        piece_cell(shape, r, c) implies !occupied(lines, top - r, left + c) by {
                        if occupied(lines, top - r, left + c) {
                            let ku = r as u16;
                            let ju = c as u16;
                            let i = ((15 - 4 * ku - ju) as u16);
                            lemma_no_overlap_bit(bits, window, i);
                            lemma_bits_to_nib(bits, ku, ju);
                            assert(((3 - ku) * 4) as u16 == ((4 - (r + 1)) * 4) as u16);
                            assert((3 - c) as u8 == (3 - (ju as int)) as u8);
                            assert((bits >> i) & 1 == 1);
                            assert(window_bit(window, r, c));
                            assert((15 - 4 * r - c) as u16 == i);
                            assert((window >> i) & 1 == 1);
                            assert(false);
                        }
                    }
                } else {
                    let z = bits & window;
                    lemma_some_bit(z);
                    let i = choose|i: u16| i < 16 && (z >> i) & 1 == 1;
                    lemma_and_bits(bits, window, i);
                    let ku = (((15 - i) / 4) as u16);
                    let ju = (((15 - i) % 4) as u16);
                    assert(ku < 4 && ju < 4);
                    assert(i == (15 - 4 * ku - ju) as u16);
                    lemma_bits_to_nib(bits, ku, ju);
                    let r = ku as int;
                    let c = ju as int;
                    assert(((3 - ku) * 4) as u16 == ((4 - (r + 1)) * 4) as u16);
                    assert((3 - c) as u8 == (3 - (ju as int)) as u8);
                    assert(piece_cell(shape, r, c));
                    assert(window_bit(window, r, c));
                    assert(occupied(lines, top - r, left + c));
                }
            }
            ok
        }
    }

    /// Merge one bounding-box row of a shape into the chamber row at `row`.
    fn place_line(&mut self, row: usize, bits: u8, rock_left: usize)
        requires
            old(self).wf(),
            row < old(self).spec_lines().len(),
            bits < 16,
            rock_left <= 6,
        ensures
            final(self).wf(),
            final(self).spec_lines() == old(self).spec_lines().update(
                row as int,
                place_row(old(self).spec_lines()[row as int], bits, rock_left as int),
            ),
            final(self).spec_jets() == old(self).spec_jets(),
    {
        let row_bits = if rock_left <= 3 {
            bits << ((3 - rock_left) as u8)
        } else {
            bits >> ((rock_left - 3) as u8)
        };
        proof {
            assert(row_bits == shift_nib(bits, rock_left as int));
        }
        let old_line = self.lines[row];
        let new_line = old_line | row_bits;
        proof {
            if rock_left <= 3 {
                lemma_place_row_wf(old_line, bits, (3 - rock_left as int) as u8);
            } else {
                lemma_place_row_wf(old_line, bits, (rock_left as int - 3) as u8);
            }
            assert(new_line == place_row(old_line, bits, rock_left as int));
        }
        self.lines.set(row, new_line);
    }

    /// Settle a shape with its top row at `rock_top` and its left edge at
    /// `rock_left`, growing the chamber as needed.
    fn place_rock(&mut self, shape: Shape, rock_left: usize, rock_top: usize)
        requires
            old(self).wf(),
            fits(old(self).spec_lines(), shape, rock_top as int, rock_left as int),
            rock_top + 1 <= usize::MAX,
        ensures
            final(self).wf(),
            final(self).spec_lines() == spec_place(
                old(self).spec_lines(),
                shape,
                rock_top as int,
                rock_left as int,
            ),
            final(self).spec_jets() == old(self).spec_jets(),
    {
        let ghost olds = old(self).spec_lines();
        while rock_top >= self.lines.len()
            invariant
                olds.len() <= self.lines@.len(),
                self.lines@.len() <= rock_top + 1 || self.lines@ == olds,
                self.lines@ == olds + Seq::new((self.lines@.len() - olds.len()) as nat, |i: int| 0u8),
                self.wf(),
                self.spec_jets() == old(self).spec_jets(),
            decreases rock_top + 1 - self.lines@.len(),
        {
            self.lines.push(0b00);
            proof {
                assert(self.lines@ =~= olds + Seq::new(
                    (self.lines@.len() - olds.len()) as nat,
                    |i: int| 0u8,
                ));
            }
        }
        let ghost ext = self.lines@;
        proof {
            assert(rock_top < ext.len());
            assert(ext.len() == if rock_top + 1 > olds.len() {
                rock_top + 1
            } else {
                olds.len() as int
            });
            assert(shape.spec_width() >= 1);
        }
        match shape.get_max_height() {
            4 => {
                self.place_line(rock_top - 3, shape.get_bits_row(4), rock_left);
                self.place_line(rock_top - 2, shape.get_bits_row(3), rock_left);
                self.place_line(rock_top - 1, shape.get_bits_row(2), rock_left);
                self.place_line(rock_top, shape.get_bits_row(1), rock_left);
            }
            3 => {
                self.place_line(rock_top - 2, shape.get_bits_row(3), rock_left);
                self.place_line(rock_top - 1, shape.get_bits_row(2), rock_left);
                self.place_line(rock_top, shape.get_bits_row(1), rock_left);
            }
            2 => {
                self.place_line(rock_top - 1, shape.get_bits_row(2), rock_left);
                self.place_line(rock_top, shape.get_bits_row(1), rock_left);
            }
            _ => {
                self.place_line(rock_top, shape.get_bits_row(1), rock_left);
            }
        }
        proof {
            let top = rock_top as int;
            let left = rock_left as int;
            let fin = self.lines@;
            let sp = spec_place(olds, shape, top, left);
            assert(fin.len() == sp.len());
            assert forall|i: int| 0 <= i < fin.len() implies fin[i] == sp[i] by {
                let base = if i < olds.len() {
                    olds[i]
                } else {
                    0u8
                };
                assert(ext[i] == base);
                if 0 <= top - i < 4 {
                    let r = top - i;
                    lemma_nib_table(shape, r);
                    if r >= shape.spec_height() {
                        assert(shape.spec_nib(r) == 0);
                        if left <= 3 {
                            lemma_place_zero(base, (3 - left) as u8);
                        } else {
                            lemma_place_zero(base, (left - 3) as u8);
                        }
                        assert(place_row(base, 0u8, left) == base);
                    }
                }
            }
            assert(fin =~= sp);
        }
    }

    /// Spawn a shape above the stack and let the jets and gravity act until
    /// it settles; returns its final top row, left edge, and the next jet
    /// index.
    fn drop_piece(&self, shape: Shape, jet_start: usize) -> (res: (usize, usize, usize))
        requires
            self.wf(),
            jets_wf(self.spec_jets()),
            jet_start < self.spec_jets().len(),
            self.spec_lines().len() + 8 <= usize::MAX,
            self.spec_lines().len() + 8 <= i64::MAX,
        ensures
            ({
                let f = spec_fall(
                    self.spec_lines(),
                    shape,
                    spec_spawn_top(self.spec_lines(), shape),
                    2,
                    jet_start as int,
                    self.spec_jets(),
                );
                res.0 == f.0 && res.1 == f.1 && res.2 == f.2
            }),
            fits(self.spec_lines(), shape, res.0 as int, res.1 as int),
            res.2 < self.spec_jets().len(),
            res.0 <= spec_spawn_top(self.spec_lines(), shape),
    {
        let mut rock_left: usize = 2;
        let h = shape.get_max_height();
        let mut rock_top: usize = self.lines.len() + 2 + h;
        let mut jet_space: usize = jet_start;
        proof {
            lemma_spawn_fits(self.spec_lines(), shape);
        }
        loop
            invariant
                self.wf(),
                jets_wf(self.spec_jets()),
                jet_space < self.spec_jets().len(),
                rock_left <= 6,
                rock_top <= spec_spawn_top(self.spec_lines(), shape),
                fits(self.spec_lines(), shape, rock_top as int, rock_left as int),
                self.spec_lines().len() + 8 <= usize::MAX,
                self.spec_lines().len() + 8 <= i64::MAX,
                spec_fall(
                    self.spec_lines(),
                    shape,
                    spec_spawn_top(self.spec_lines(), shape),
                    2,
                    jet_start as int,
                    self.spec_jets(),
                ) == spec_fall(
                    self.spec_lines(),
                    shape,
                    rock_top as int,
                    rock_left as int,
                    jet_space as int,
                    self.spec_jets(),
                ),
            decreases rock_top,
        {
            let ghost top0 = rock_top as int;
            let ghost left0 = rock_left as int;
            let ghost ji0 = jet_space as int;
            let c = self.jets[jet_space];
            if c == '<' {
                if self.can_move(shape, rock_top as i64, rock_left as i64 - 1) {
                    rock_left = rock_left - 1;
                }
            } else {
                if self.can_move(shape, rock_top as i64, rock_left as i64 + 1) {
                    rock_left = rock_left + 1;
                }
            }
            let jlen = self.jets.len();
            jet_space = (jet_space + 1) % jlen;
            proof {
                let jets = self.spec_jets();
                if ji0 + 1 == jets.len() {
                    lemma_mod_self_0(jets.len() as int);
                } else {
                    lemma_small_mod((ji0 + 1) as nat, jets.len() as nat);
                }
                let pushed = if jets[ji0] == '<' {
                    left0 - 1
                } else {
                    left0 + 1
                };
                assert(rock_left as int == if fits(self.spec_lines(), shape, top0, pushed) {
                    pushed
                } else {
                    left0
                });
                assert(jet_space as int == if ji0 + 1 == jets.len() {
                    0
                } else {
                    ji0 + 1
                });
            }
            if self.can_move(shape, rock_top as i64 - 1, rock_left as i64) {
                rock_top = rock_top - 1;
            } else {
                return (rock_top, rock_left, jet_space);
            }
        }
    }

    /// The shape spawned for piece index `rock_num` within the five-piece
    /// cycle.
    fn get_shape(rock_num: usize) -> (s: Shape)
        ensures
            s == spec_shape(rock_num as int % 5),
    {
        match rock_num % 5 {
            0 => Shape::Horiz,
            1 => Shape::Cross,
            2 => Shape::LShape,
            3 => Shape::Vert,
            _ => Shape::Square,
        }
    }

    /// The stack height after `num_rocks` pieces, settled one by one with no
    /// shortcut.
    pub fn height_direct(&mut self, num_rocks: usize) -> (r: usize)
        requires
            old(self).wf(),
            jets_wf(old(self).spec_jets()),
            old(self).spec_lines().len() + 7 * num_rocks + 8 <= usize::MAX,
            old(self).spec_lines().len() + 7 * num_rocks + 8 <= i64::MAX,
        ensures
            final(self).wf(),
            final(self).spec_jets() == old(self).spec_jets(),
            final(self).spec_lines() == spec_sim(
                old(self).spec_lines(),
                old(self).spec_jets(),
                0,
                0,
                num_rocks as nat,
            ).0,
            r == final(self).spec_lines().len(),
    {
        let ghost lines0 = old(self).spec_lines();
        let ghost jets = old(self).spec_jets();
        let mut jet_space: usize = 0;
        let mut shape_num: usize = 0;
        let mut rock_num: usize = 0;
        while rock_num < num_rocks
            invariant
                self.wf(),
                jets_wf(jets),
                self.spec_jets() == jets,
                jet_space < jets.len(),
                shape_num < 5,
                rock_num <= num_rocks,
                lines0.len() + 7 * num_rocks + 8 <= usize::MAX,
                lines0.len() + 7 * num_rocks + 8 <= i64::MAX,
                self.spec_lines().len() <= lines0.len() + 7 * rock_num,
                spec_sim(lines0, jets, 0, 0, num_rocks as nat) == spec_sim(
                    self.spec_lines(),
                    jets,
                    jet_space as int,
                    shape_num as int,
                    (num_rocks - rock_num) as nat,
                ),
            decreases num_rocks - rock_num,
        {
            let ghost cur = self.spec_lines();
            let shape = Self::get_shape(shape_num);
            let res = self.drop_piece(shape, jet_space);
            proof {
                assert(res.0 + 1 <= cur.len() + 7);
            }
            self.place_rock(shape, res.1, res.0);
            jet_space = res.2;
            shape_num = (shape_num + 1) % 5;
            rock_num = rock_num + 1;
            proof {
                assert(self.spec_lines().len() <= cur.len() + 7);
            }
        }
        self.lines.len()
    }

    /// The top eight rows packed into one word, topmost row in the lowest
    /// byte.
    fn get_skyline(&self) -> (r: u64)
        requires
            self.wf(),
            self.spec_lines().len() >= 8,
        ensures
            r == spec_skyline(self.spec_lines()),
    {
        let len = self.lines.len();
        (self.lines[len - 1] as u64) | ((self.lines[len - 2] as u64) << 8u64) | ((self.lines[len
            - 3] as u64) << 16u64) | ((self.lines[len - 4] as u64) << 24u64) | ((self.lines[len
            - 5] as u64) << 32u64) | ((self.lines[len - 6] as u64) << 40u64) | ((self.lines[len
            - 7] as u64) << 48u64) | ((self.lines[len - 8] as u64) << 56u64)
    }

    /// Whether the loaded jet pattern is usable: nonempty and made only of
    /// the two push symbols.
    pub fn jets_ok(&self) -> (r: bool)
        ensures
            r == jets_wf(self.spec_jets()),
    {
        let n = self.jets.len();
        if n == 0 {
            return false;
        }
        let mut i: usize = 0;
        while i < n
            invariant
                n == self.spec_jets().len(),
                i <= n,
                forall|k: int|
                    0 <= k < i ==> self.spec_jets()[k] == '<' || self.spec_jets()[k] == '>',
            decreases n - i,
        {
            let c = self.jets[i];
            if c != '<' && c != '>' {
                return false;
            }
            i = i + 1;
        }
        true
    }

    /// The stack height after `num_rocks` pieces, found by the
    /// cycle-accelerated run: pieces settle one by one, every settled state's
    /// signature is recorded, and a repeated signature fast-forwards whole
    /// cycles of pieces, accounting for their rows arithmetically.
    pub fn part_1(&mut self, num_rocks: usize) -> (r: usize)
        requires
            old(self).wf(),
            jets_wf(old(self).spec_jets()),
            old(self).spec_lines().len() + 7 * num_rocks + 8 <= usize::MAX,
            old(self).spec_lines().len() + 7 * num_rocks + 8 <= i64::MAX,
        ensures
            final(self).wf(),
            final(self).spec_jets() == old(self).spec_jets(),
            r == spec_accel(
                old(self).spec_lines(),
                old(self).spec_jets(),
                0,
                0,
                0,
                Map::empty(),
                0,
                num_rocks as nat,
            ),
    {
        let ghost lines0 = old(self).spec_lines();
        let ghost jets = old(self).spec_jets();
        let mut jet_space: usize = 0;
        let mut shape_num: usize = 0;
        let mut rock_num: usize = 0;
        let mut seen: HashMap<u128, (usize, usize)> = HashMap::new();
        let mut cycle_height: usize = 0;
        let ghost mut skipped: int = 0;
        while rock_num < num_rocks
            invariant
                self.wf(),
                jets_wf(jets),
                self.spec_jets() == jets,
                jet_space < jets.len(),
                shape_num < 5,
                rock_num <= num_rocks,
                0 <= skipped <= rock_num,
                self.spec_lines().len() <= lines0.len() + 7 * (rock_num - skipped),
                cycle_height <= 7 * skipped,
                lines0.len() + 7 * num_rocks + 8 <= usize::MAX,
                lines0.len() + 7 * num_rocks + 8 <= i64::MAX,
                forall|sig: u128|
                    #[trigger] seen@.contains_key(sig) ==> (seen@[sig].0 <= rock_num
                        && seen@[sig].1 <= self.spec_lines().len() && self.spec_lines().len()
                        - seen@[sig].1 <= 7 * (rock_num - seen@[sig].0)),
                spec_accel(lines0, jets, 0, 0, 0, Map::empty(), 0, num_rocks as nat) == spec_accel(
                    self.spec_lines(),
                    jets,
                    jet_space as int,
                    shape_num as int,
                    rock_num as nat,
                    seen@,
                    cycle_height as nat,
                    num_rocks as nat,
                ),
            decreases num_rocks - rock_num,
        {
            let ghost cur = self.spec_lines();
            let ghost ji0 = jet_space as int;
            let ghost sn0 = shape_num as int;
            let ghost rock0 = rock_num as nat;
            let ghost seen0 = seen@;
            let shape = Self::get_shape(shape_num);
            let res = self.drop_piece(shape, jet_space);
            proof {
                assert(res.0 + 1 <= cur.len() + 7);
            }
            self.place_rock(shape, res.1, res.0);
            jet_space = res.2;
            shape_num = (shape_num + 1) % 5;
            rock_num = rock_num + 1;
            proof {
                assert(self.spec_lines().len() <= cur.len() + 7);
            }
            if self.lines.len() < 8 {
                continue;
            }
            let skyline = self.get_skyline();
            let state: u128 = (skyline as u128) | ((shape_num as u128) << 64u128) | ((
            jet_space as u128) << 67u128);
            proof {
                assert(state == spec_sig(self.spec_lines(), shape_num as int, jet_space as int));
            }
            match seen.get(&state) {
                Some(p) => {
                    let old_num = p.0;
                    let old_height = p.1;
                    proof {
                        assert(seen@.contains_key(state));
                        assert(seen@[state] == (old_num, old_height));
                        assert(old_num < rock_num);
                        assert(old_height <= self.spec_lines().len());
                    }
                    let num_rocks_in_cycle = rock_num - old_num;
                    proof {
                        lemma_fundamental_div_mod(
                            num_rocks - rock_num,
                            num_rocks_in_cycle as int,
                        );
                        lemma_mod_bound(num_rocks - rock_num, num_rocks_in_cycle as int);
                    }
                    let num_cycles = (num_rocks - rock_num) / num_rocks_in_cycle;
                    proof {
                        assert(num_rocks_in_cycle * num_cycles <= num_rocks - rock_num);
                    }
                    let jump = num_rocks_in_cycle * num_cycles;
                    let delta = self.lines.len() - old_height;
                    proof {
                        assert(self.spec_lines().len() - old_height <= 7 * (rock_num - old_num));
                        assert(num_cycles * delta <= 7 * (num_rocks_in_cycle * num_cycles))
                            by (nonlinear_arith)
                            requires
                                delta <= 7 * num_rocks_in_cycle,
                                num_cycles >= 0,
                        ;
                    }
                    let gain = num_cycles * delta;
                    rock_num = rock_num + jump;
                    cycle_height = cycle_height + gain;
                    proof {
                        skipped = skipped + jump;
                    }
                    seen.clear();
                    proof {
                        assert(seen@ =~= Map::<u128, (usize, usize)>::empty());
                    }
                }
                None => {
                    let len = self.lines.len();
                    seen.insert(state, (rock_num, len));
                }
            }
        }
        self.lines.len() + cycle_height
    }
}

/// One settled piece never removes rows.
proof fn lemma_place_len(lines: Seq<u8>, s: Shape, top: int, left: int)
    ensures
        spec_place(lines, s, top, left).len() >= lines.len(),
{
}

/// Wherever a falling piece comes to rest, it still fits: the fall only ever
/// moves the piece to positions that fit, and it starts from one.
proof fn lemma_fall_fits(
    lines: Seq<u8>,
    s: Shape,
    top: int,
    left: int,
    ji: int,
    jets: Seq<char>,
)
    requires
        jets_wf(jets),
        0 <= ji < jets.len(),
        fits(lines, s, top, left),
    ensures
        ({
            let f = spec_fall(lines, s, top, left, ji, jets);
            fits(lines, s, f.0, f.1) && 0 <= f.2 < jets.len() && f.0 <= top
        }),
    decreases top,
{
    let pushed = if jets[ji] == '<' {
        left - 1
    } else {
        left + 1
    };
    let left2 = if fits(lines, s, top, pushed) {
        pushed
    } else {
        left
    };
    let ji2 = if ji + 1 == jets.len() {
        0
    } else {
        ji + 1
    };
    if fits(lines, s, top - 1, left2) && top >= 1 {
        lemma_fall_fits(lines, s, top - 1, left2, ji2, jets);
    }
}

/// Settling a piece keeps every row within the seven columns.
proof fn lemma_place_wf(lines: Seq<u8>, s: Shape, top: int, left: int)
    requires
        rows_wf(lines),
        0 <= left <= 6,
    ensures
        rows_wf(spec_place(lines, s, top, left)),
{
    let sp = spec_place(lines, s, top, left);
    assert forall|i: int| 0 <= i < sp.len() implies sp[i] < 128 by {
        let base = if i < lines.len() {
            lines[i]
        } else {
            0u8
        };
        if 0 <= top - i < 4 {
            let nib = s.spec_nib(top - i);
            lemma_nib_table(s, top - i);
            assert(nib < 16);
            if left <= 3 {
                lemma_place_row_wf(base, nib, (3 - left) as u8);
            } else {
                lemma_place_row_wf(base, nib, (left - 3) as u8);
            }
        }
    }
}

/// Geometric validity of one settling: from any well-formed chamber, a
/// spawned piece of any shape comes to rest at a position that fits, so its
/// cells lie inside the walls, at or above the floor, and coincide with no
/// settled cell.
pub proof fn lemma_settle_valid(lines: Seq<u8>, jets: Seq<char>, ji: int, s: Shape)
    requires
        jets_wf(jets),
        0 <= ji < jets.len(),
    ensures
        ({
            let f = spec_fall(lines, s, spec_spawn_top(lines, s), 2, ji, jets);
            fits(lines, s, f.0, f.1)
        }),
{
    lemma_spawn_fits(lines, s);
    lemma_fall_fits(lines, s, spec_spawn_top(lines, s), 2, ji, jets);
}

/// Geometric validity of every settled state: the chamber reached after any
/// number of pieces keeps all its cells inside the seven columns, and its jet
/// index stays within the pattern, so `lemma_settle_valid` applies to it
/// again.
pub proof fn lemma_sim_valid(lines: Seq<u8>, jets: Seq<char>, ji: int, sn: int, k: nat)
    requires
        rows_wf(lines),
        jets_wf(jets),
        0 <= ji < jets.len(),
    ensures
        rows_wf(spec_sim(lines, jets, ji, sn, k).0),
        0 <= spec_sim(lines, jets, ji, sn, k).1 < jets.len(),
    decreases k,
{
    if k > 0 {
        let s = spec_shape(sn);
        let f = spec_fall(lines, s, spec_spawn_top(lines, s), 2, ji, jets);
        let lines2 = spec_place(lines, s, f.0, f.1);
        lemma_spawn_fits(lines, s);
        lemma_fall_fits(lines, s, spec_spawn_top(lines, s), 2, ji, jets);
        assert(s.spec_width() >= 1);
        lemma_place_wf(lines, s, f.0, f.1);
        lemma_sim_valid(lines2, jets, f.2, (sn + 1) % 5, (k - 1) as nat);
    }
}

/// Monotonicity: one more settled piece never lowers the stack.
pub proof fn lemma_height_monotone(lines: Seq<u8>, jets: Seq<char>, ji: int, sn: int, k: nat)
    ensures
        spec_sim(lines, jets, ji, sn, k).0.len() <= spec_sim(
            lines,
            jets,
            ji,
            sn,
            (k + 1) as nat,
        ).0.len(),
    decreases k,
{
    let s = spec_shape(sn);
    let f = spec_fall(lines, s, spec_spawn_top(lines, s), 2, ji, jets);
    let lines2 = spec_place(lines, s, f.0, f.1);
    if k == 0 {
        lemma_place_len(lines, s, f.0, f.1);
        assert(spec_sim(lines2, jets, f.2, (sn + 1) % 5, 0).0 == lines2);
        assert(spec_sim(lines, jets, ji, sn, 1).0 == lines2);
    } else {
        lemma_height_monotone(lines2, jets, f.2, (sn + 1) % 5, (k - 1) as nat);
    }
}

/// Whether the accelerated run reaches its target without any recorded
/// signature recurring, so that no fast-forward is ever taken.
pub open spec fn accel_no_jump(
    lines: Seq<u8>,
    jets: Seq<char>,
    ji: int,
    sn: int,
    rock: nat,
    seen: Map<u128, (usize, usize)>,
    target: nat,
) -> bool
    decreases target - rock,
{
    if rock >= target {
        true
    } else {
        let s = spec_shape(sn);
        let f = spec_fall(lines, s, spec_spawn_top(lines, s), 2, ji, jets);
        let lines2 = spec_place(lines, s, f.0, f.1);
        let ji2 = f.2;
        let sn2 = (sn + 1) % 5;
        let rock2 = rock + 1;
        if lines2.len() < 8 {
            accel_no_jump(lines2, jets, ji2, sn2, rock2 as nat, seen, target)
        } else {
            let sig = spec_sig(lines2, sn2, ji2);
            if seen.contains_key(sig) && seen[sig].0 < rock2 && seen[sig].1 <= lines2.len() {
                false
            } else {
                accel_no_jump(
                    lines2,
                    jets,
                    ji2,
                    sn2,
                    rock2 as nat,
                    seen.insert(sig, ((rock2 as usize), (lines2.len() as usize))),
                    target,
                )
            }
        }
    }
}

/// No double counting, short of a recurrence: as long as no recorded
/// signature recurs, the accelerated run reports exactly the height of the
/// direct piece-by-piece simulation (plus whatever the separate accumulator
/// already held).  Only a fast-forward taken on a recurred signature departs
/// from the direct run, and then by the cycle arithmetic stated separately.
pub proof fn lemma_no_jump_matches_direct(
    lines: Seq<u8>,
    jets: Seq<char>,
    ji: int,
    sn: int,
    rock: nat,
    seen: Map<u128, (usize, usize)>,
    extra: nat,
    target: nat,
)
    requires
        rock <= target,
        accel_no_jump(lines, jets, ji, sn, rock, seen, target),
    ensures
        spec_accel(lines, jets, ji, sn, rock, seen, extra, target) == spec_sim(
            lines,
            jets,
            ji,
            sn,
            (target - rock) as nat,
        ).0.len() + extra,
    decreases target - rock,
{
    if rock < target {
        let s = spec_shape(sn);
        let f = spec_fall(lines, s, spec_spawn_top(lines, s), 2, ji, jets);
        let lines2 = spec_place(lines, s, f.0, f.1);
        let ji2 = f.2;
        let sn2 = (sn + 1) % 5;
        let rock2 = (rock + 1) as nat;
        if lines2.len() < 8 {
            lemma_no_jump_matches_direct(lines2, jets, ji2, sn2, rock2, seen, extra, target);
        } else {
            let sig = spec_sig(lines2, sn2, ji2);
            lemma_no_jump_matches_direct(
                lines2,
                jets,
                ji2,
                sn2,
                rock2,
                seen.insert(sig, ((rock2 as usize), (lines2.len() as usize))),
                extra,
                target,
            );
        }
    }
}

/// Cycle arithmetic: when the signature just recorded for the settled state
/// recurs, the accelerated run's answer equals the answer of the run resumed
/// from that same state with `L * k` pieces skipped and `D * k` rows moved to
/// the separate accumulator, where `L` and `D` are the piece count and height
/// gained since the signature's first occurrence and `k` is the number of
/// whole cycles fitting in the pieces still owed; exactly `(target - placed)
/// % L` pieces of the cycle remain to replay, so no cycle is counted twice.
pub proof fn lemma_cycle_shortcut(
    lines: Seq<u8>,
    jets: Seq<char>,
    ji: int,
    sn: int,
    rock: nat,
    seen: Map<u128, (usize, usize)>,
    extra: nat,
    target: nat,
)
    requires
        rock < target,
        ({
            let s = spec_shape(sn);
            let f = spec_fall(lines, s, spec_spawn_top(lines, s), 2, ji, jets);
            let lines2 = spec_place(lines, s, f.0, f.1);
            let sig = spec_sig(lines2, (sn + 1) % 5, f.2);
            &&& lines2.len() >= 8
            &&& seen.contains_key(sig)
            &&& seen[sig].0 < rock + 1
            &&& seen[sig].1 <= lines2.len()
        }),
    ensures
        ({
            let s = spec_shape(sn);
            let f = spec_fall(lines, s, spec_spawn_top(lines, s), 2, ji, jets);
            let lines2 = spec_place(lines, s, f.0, f.1);
            let sig = spec_sig(lines2, (sn + 1) % 5, f.2);
            let placed = rock + 1;
            let cyc_len = placed - seen[sig].0;
            let cyc_delta = lines2.len() - seen[sig].1;
            let cycles = (target - placed) / (cyc_len as int);
            &&& spec_accel(lines, jets, ji, sn, rock, seen, extra, target) == spec_accel(
                lines2,
                jets,
                f.2,
                (sn + 1) % 5,
                (placed + cyc_len * cycles) as nat,
                Map::empty(),
                (extra + cyc_delta * cycles) as nat,
                target,
            )
            &&& target - (placed + cyc_len * cycles) == (target - placed) % (cyc_len as int)
            &&& (target - placed) % (cyc_len as int) < cyc_len
        }),
{
    let s = spec_shape(sn);
    let f = spec_fall(lines, s, spec_spawn_top(lines, s), 2, ji, jets);
    let lines2 = spec_place(lines, s, f.0, f.1);
    let sig = spec_sig(lines2, (sn + 1) % 5, f.2);
    let placed = rock + 1;
    let cyc_len = placed - seen[sig].0;
    lemma_fundamental_div_mod(target - placed, cyc_len as int);
    lemma_mod_bound(target - placed, cyc_len as int);
    assert((extra + (lines2.len() - seen[sig].1) * ((target - placed) / (cyc_len as int))) as nat
        == extra + ((target - placed) / (cyc_len as int)) * (lines2.len() - seen[sig].1));
}

} // verus!
