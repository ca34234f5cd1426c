//! The bitboard position: board encoding, legality and win detection,
//! move application, the move sorter and the opening book.

use crate::bits::{
    half_toward_zero, lemma_bit_ops, lemma_bit_witness, lemma_one_bit, lemma_popcnt_clear_lowest,
    lemma_popcnt_or_disjoint, lemma_popcnt_single, lemma_popcnt_subset, lemma_popcnt_u64, nth,
    nthu, popcnt,
};
use crate::transposition_table::{BookTranspositionTable, TranspositionTable, BOOK_TABLE_SIZE};
use vstd::arithmetic::power::pow;
use vstd::arithmetic::power2::{lemma2_to64, lemma_pow2_pos, lemma_pow2_unfold, pow2};
use vstd::prelude::*;
use vstd::string::StrSliceExecFns;

verus! {

/// One bit per column, at the bottom cell of the column.
pub const BOTTOM_MASK: u64 = 0x40810204081;

/// One bit per playable cell of the board (the top, seventh, bit of
/// every column stays clear and serves as a sentinel).
pub const BOARD_MASK: u64 = 0xFDFBF7EFDFBF;

/// The lowest score any reachable game can end with: losing with the
/// board almost full.
pub const MIN_SCORE: isize = -18;

/// The highest score any reachable game can end with: winning with the
/// fourth stone of the line as the eighteenth to come.
pub const MAX_SCORE: isize = 18;

/// One reachable board state. `current_position` holds the stones of
/// the player about to move, `mask` the stones of both players; each
/// column occupies seven consecutive bits, bottom row first.
#[derive(Clone, Copy, Debug)]
pub struct Position {
    pub moves: usize,
    pub current_position: u64,
    pub mask: u64,
}

/// The cells a move could land on: one bit per column, just above the
/// stones already in that column (the sentinel bit when the column is
/// full, which the board mask then filters out).
pub open spec fn possible_bits(m: u64) -> u64 {
    ((m + BOTTOM_MASK) as u64) & BOARD_MASK
}

/// The bottom cell of a column.
pub open spec fn col_bottom_bit(col: u64) -> u64 {
    1u64 << ((7 * col) as u64)
}

/// The six playable cells of a column.
pub open spec fn col_mask(col: u64) -> u64 {
    63u64 << ((7 * col) as u64)
}

/// Where a stone dropped into `col` lands on the board `m`.
pub open spec fn drop_bit_raw(m: u64, col: u64) -> u64 {
    ((m + col_bottom_bit(col)) as u64) & col_mask(col)
}

/// The empty board as a value.
pub open spec fn empty_pos() -> Position {
    Position { moves: 0, current_position: 0, mask: 0 }
}

/// The board reached by folding a string of one-indexed column digits
/// (`'1'` through `'7'`) over the empty board, one drop per digit.
pub open spec fn spec_parse(s: Seq<char>) -> Position
    decreases s.len(),
{
    if s.len() == 0 {
        empty_pos()
    } else {
        spec_parse(s.drop_last()).spec_next(s.last() as u32 - 49)
    }
}

/// The string is a legal game transcript in one-indexed digits: every
/// character names a column and every drop lands in a column with room.
pub open spec fn valid_moves(s: Seq<char>) -> bool
    decreases s.len(),
{
    s.len() == 0 || {
        &&& valid_moves(s.drop_last())
        &&& 49 <= s.last() as u32 <= 55
        &&& spec_parse(s.drop_last()).playable(s.last() as u32 - 49)
    }
}

/// The board reached by folding a string of zero-indexed column digits
/// (`'0'` through `'6'`) over the empty board.
pub open spec fn spec_parse_safe(s: Seq<char>) -> Position
    decreases s.len(),
{
    if s.len() == 0 {
        empty_pos()
    } else {
        spec_parse_safe(s.drop_last()).spec_next(s.last() as u32 - 48)
    }
}

/// The string is a legal game transcript in zero-indexed digits.
pub open spec fn safe_valid(s: Seq<char>) -> bool
    decreases s.len(),
{
    s.len() == 0 || {
        &&& safe_valid(s.drop_last())
        &&& 48 <= s.last() as u32 <= 54
        &&& spec_parse_safe(s.drop_last()).playable(s.last() as u32 - 48)
    }
}

/// The seven bits of one column, sentinel row included.
pub open spec fn lane(x: u64, col: u64) -> u64 {
    (x >> ((7 * col) as u64)) & 127u64
}

/// How many stones stand in `col` at row `r` and above it in one
/// gap-free run; on a well-formed board with `r` zero, the column's
/// fill height.
pub open spec fn col_h(m: u64, col: int, r: int) -> int
    decreases 7 - r,
{
    if r < 0 || r >= 7 || !nth(m, 7 * col + r) {
        0
    } else {
        1 + col_h(m, col, r + 1)
    }
}

/// One column's contribution to the ternary code, walking rows from
/// `r` upward: one base-three digit per stone (one for the side to
/// move, two for the opponent), then a closing zero digit.
pub open spec fn col_key3(key: int, a: u64, m: u64, col: int, r: int) -> int
    decreases 7 - r,
{
    if r < 0 || r >= 7 || !nth(m, 7 * col + r) {
        3 * key
    } else {
        col_key3(
            3 * key + if nth(a, 7 * col + r) {
                1int
            } else {
                2int
            },
            a,
            m,
            col,
            r + 1,
        )
    }
}

/// The ternary code read column-major left to right, from `col` on.
pub open spec fn fwd_key3(key: int, a: u64, m: u64, col: int) -> int
    decreases 7 - col,
{
    if col < 0 || col >= 7 {
        key
    } else {
        fwd_key3(col_key3(key, a, m, col, 0), a, m, col + 1)
    }
}

/// The ternary code read column-major right to left, from `col` down.
pub open spec fn rev_key3(key: int, a: u64, m: u64, col: int) -> int
    decreases col + 1,
{
    if col < 0 || col >= 7 {
        key
    } else {
        rev_key3(col_key3(key, a, m, col, 0), a, m, col - 1)
    }
}

/// The symmetry-folded ternary code: the smaller of the two reading
/// directions, with the constant closing digit of the last column
/// divided away.
pub open spec fn spec_key3(p: Position) -> int {
    let f = fwd_key3(0, p.current_position, p.mask, 0);
    let r = rev_key3(0, p.current_position, p.mask, 6);
    (if f <= r {
        f
    } else {
        r
    }) / 3
}

/// How many ternary digits the columns from `col` rightward emit.
pub open spec fn rest_digits(m: u64, col: int) -> int
    decreases 7 - col,
{
    if col < 0 || col >= 7 {
        0
    } else {
        col_h(m, col, 0) + 1 + rest_digits(m, col + 1)
    }
}

/// How many ternary digits the columns from `col` leftward emit.
pub open spec fn prefix_digits(m: u64, col: int) -> int
    decreases col + 1,
{
    if col < 0 || col >= 7 {
        0
    } else {
        prefix_digits(m, col - 1) + col_h(m, col, 0) + 1
    }
}

/// The cell `(col, row)` lies on the playable board.
pub open spec fn in_board(c: int, r: int) -> bool {
    0 <= c < 7 && 0 <= r < 6
}

/// A stone of the set `x` stands on the board cell `(c, r)`.
pub open spec fn stone(x: u64, c: int, r: int) -> bool {
    in_board(c, r) && nth(x, 7 * c + r)
}

/// The four line directions of the game, up to sign: vertical,
/// horizontal, rising diagonal and falling diagonal.
pub open spec fn is_direction(dc: int, dr: int) -> bool {
    ||| (dc == 0 && dr == 1)
    ||| (dc == 1 && dr == 0)
    ||| (dc == 1 && dr == 1)
    ||| (dc == 1 && dr == -1)
}

/// Four stones of `x` in a row from `(c0, r0)` along `(dc, dr)`.
pub open spec fn four_line(x: u64, c0: int, r0: int, dc: int, dr: int) -> bool {
    &&& stone(x, c0, r0)
    &&& stone(x, c0 + dc, r0 + dr)
    &&& stone(x, c0 + 2 * dc, r0 + 2 * dr)
    &&& stone(x, c0 + 3 * dc, r0 + 3 * dr)
}

/// The stone set `a` with one more stone on `(c, r)`.
pub open spec fn with_stone(a: u64, c: int, r: int) -> u64 {
    a | (1u64 << ((7 * c + r) as u64))
}

/// The window along `(dc, dr)` whose `j`-th cell is `(c, r)` is full
/// once a stone lands on `(c, r)`.
pub open spec fn window_completes(a: u64, c: int, r: int, dc: int, dr: int, j: int) -> bool {
    &&& is_direction(dc, dr)
    &&& 0 <= j < 4
    &&& four_line(with_stone(a, c, r), c - j * dc, r - j * dr, dc, dr)
}

/// Placing a stone on `(c, r)` completes a line of four: some window
/// of four cells through `(c, r)` is then fully covered by stones.
pub open spec fn completes(a: u64, c: int, r: int) -> bool {
    exists|dc: int, dr: int, j: int| window_completes(a, c, r, dc, dr, j)
}

/// The cell of `col` the next stone dropped there lands on: the free
/// cell at the bottom of the free space.
pub open spec fn is_drop_cell(m: u64, c: int, r: int) -> bool {
    &&& in_board(c, r)
    &&& !nth(m, 7 * c + r)
    &&& (r == 0 || nth(m, 7 * c + r - 1))
}

/// A bit test on a board cell given as words.
pub open spec fn cellbit(a: u64, c: u64, r: u64) -> bool {
    c < 7 && r < 6 && nthu(a, ((7 * c + r)) as u64)
}

/// `completes`, written out case by case: one disjunct per direction
/// and per place of the new stone inside the window, each listing the
/// three cells that must already hold stones.
pub open spec fn completes_unrolled(a: u64, c: u64, r: u64) -> bool {
    ||| (cellbit(a, c, (r + 1) as u64) && cellbit(a, c, (r + 2) as u64) && cellbit(a, c, (r + 3) as u64))
    ||| (r >= 1 && cellbit(a, c, (r - 1) as u64) && cellbit(a, c, (r + 1) as u64) && cellbit(a, c, (r + 2) as u64))
    ||| (r >= 2 && cellbit(a, c, (r - 2) as u64) && cellbit(a, c, (r - 1) as u64) && cellbit(a, c, (r + 1) as u64))
    ||| (r >= 3 && cellbit(a, c, (r - 3) as u64) && cellbit(a, c, (r - 2) as u64) && cellbit(a, c, (r - 1) as u64))
    ||| (cellbit(a, (c + 1) as u64, r) && cellbit(a, (c + 2) as u64, r) && cellbit(a, (c + 3) as u64, r))
    ||| (c >= 1 && cellbit(a, (c - 1) as u64, r) && cellbit(a, (c + 1) as u64, r) && cellbit(a, (c + 2) as u64, r))
    ||| (c >= 2 && cellbit(a, (c - 2) as u64, r) && cellbit(a, (c - 1) as u64, r) && cellbit(a, (c + 1) as u64, r))
    ||| (c >= 3 && cellbit(a, (c - 3) as u64, r) && cellbit(a, (c - 2) as u64, r) && cellbit(a, (c - 1) as u64, r))
    ||| (cellbit(a, (c + 1) as u64, (r + 1) as u64) && cellbit(a, (c + 2) as u64, (r + 2) as u64) && cellbit(a, (c + 3) as u64, (r + 3) as u64))
    ||| (c >= 1 && r >= 1 && cellbit(a, (c - 1) as u64, (r - 1) as u64) && cellbit(a, (c + 1) as u64, (r + 1) as u64) && cellbit(a, (c + 2) as u64, (r + 2) as u64))
    ||| (c >= 2 && r >= 2 && cellbit(a, (c - 2) as u64, (r - 2) as u64) && cellbit(a, (c - 1) as u64, (r - 1) as u64) && cellbit(a, (c + 1) as u64, (r + 1) as u64))
    ||| (c >= 3 && r >= 3 && cellbit(a, (c - 3) as u64, (r - 3) as u64) && cellbit(a, (c - 2) as u64, (r - 2) as u64) && cellbit(a, (c - 1) as u64, (r - 1) as u64))
    ||| (r >= 3 && cellbit(a, (c + 1) as u64, (r - 1) as u64) && cellbit(a, (c + 2) as u64, (r - 2) as u64) && cellbit(a, (c + 3) as u64, (r - 3) as u64))
    ||| (c >= 1 && r >= 2 && cellbit(a, (c - 1) as u64, (r + 1) as u64) && cellbit(a, (c + 1) as u64, (r - 1) as u64) && cellbit(a, (c + 2) as u64, (r - 2) as u64))
    ||| (c >= 2 && r >= 1 && cellbit(a, (c - 2) as u64, (r + 2) as u64) && cellbit(a, (c - 1) as u64, (r + 1) as u64) && cellbit(a, (c + 1) as u64, (r - 1) as u64))
    ||| (c >= 3 && cellbit(a, (c - 3) as u64, (r + 3) as u64) && cellbit(a, (c - 2) as u64, (r + 2) as u64) && cellbit(a, (c - 1) as u64, (r + 1) as u64))
}

/// The raw win pattern of the stone set `a`: every bit position whose
/// cell would complete a line of four through `a`, gathered direction
/// by direction (vertical, horizontal and the two diagonals, one shift
/// step per cell along the line).
pub open spec fn win_raw(a: u64) -> u64 {
    let r0 = (a << 1u64) & (a << 2u64) & (a << 3u64);
    let hl = (a << 7u64) & (a << 14u64);
    let r1 = r0 | (hl & (a << 21u64));
    let r2 = r1 | (hl & (a >> 7u64));
    let hr = (a >> 7u64) & (a >> 14u64);
    let r3 = r2 | (hr & (a << 7u64));
    let r4 = r3 | (hr & (a >> 21u64));
    let dl = (a << 6u64) & (a << 12u64);
    let r5 = r4 | (dl & (a << 18u64));
    let r6 = r5 | (dl & (a >> 6u64));
    let dr = (a >> 6u64) & (a >> 12u64);
    let r7 = r6 | (dr & (a << 6u64));
    let r8 = r7 | (dr & (a >> 18u64));
    let el = (a << 8u64) & (a << 16u64);
    let r9 = r8 | (el & (a << 24u64));
    let r10 = r9 | (el & (a >> 8u64));
    let er = (a >> 8u64) & (a >> 16u64);
    let r11 = r10 | (er & (a << 8u64));
    r11 | (er & (a >> 24u64))
}

/// The cells where a stone of the `a` side would win at once: the raw
/// win pattern restricted to free cells of the board.
pub open spec fn winning_cells(a: u64, m: u64) -> u64 {
    win_raw(a) & (BOARD_MASK ^ m)
}

/// The non-losing move formula: all playable cells, minus those that
/// would hand the opponent an immediate win; when the opponent already
/// threatens one cell only that cell can answer, and when the opponent
/// threatens two cells at once no move helps.
pub open spec fn pnl_raw(a: u64, m: u64) -> u64 {
    let possible = possible_bits(m);
    let ow = winning_cells(a ^ m, m);
    let forced = possible & ow;
    if forced == 0 {
        possible & !(ow >> 1u64)
    } else if (forced & ((forced - 1) as u64)) > 0 {
        0u64
    } else {
        forced & !(ow >> 1u64)
    }
}

impl Position {
    pub const HEIGHT: usize = 6;

    pub const WIDTH: usize = 7;

    /// The column still has room for a stone: its top cell is free.
    pub open spec fn playable(&self, col: int) -> bool {
        0 <= col < 7 && !nth(self.mask, 7 * col + 5)
    }

    /// `mv` is a single cell a move can land on right now.
    pub open spec fn playable_bit(&self, mv: u64) -> bool {
        &&& mv != 0
        &&& mv & ((mv - 1) as u64) == 0
        &&& mv & possible_bits(self.mask) == mv
    }

    /// The position after the stone `mv` is placed: the stone joins the
    /// board mask, and the perspective flips to the other player.
    pub open spec fn spec_next_move(&self, mv: u64) -> Position {
        Position {
            moves: (self.moves + 1) as usize,
            current_position: self.mask ^ self.current_position,
            mask: self.mask | mv,
        }
    }

    /// The position after a drop into `col`.
    pub open spec fn spec_next(&self, col: int) -> Position {
        self.spec_next_move(drop_bit_raw(self.mask, col as u64))
    }

    /// The free cells where the side to move would win at once.
    pub open spec fn winning_bits(&self) -> u64 {
        winning_cells(self.current_position, self.mask)
    }

    /// The free cells where the opponent would win at once.
    pub open spec fn opp_winning_bits(&self) -> u64 {
        winning_cells(self.current_position ^ self.mask, self.mask)
    }

    /// The side to move can win with one of its legal drops.
    pub open spec fn has_win_now(&self) -> bool {
        self.winning_bits() & possible_bits(self.mask) != 0
    }

    /// The non-losing move formula applied to this position.
    pub open spec fn spec_pnl(&self) -> u64 {
        pnl_raw(self.current_position, self.mask)
    }

    /// Every reachable position satisfies this shape invariant: all
    /// stones lie on the board, each column is filled from the bottom
    /// without gaps, the side to move owns a subset of the stones, and
    /// `moves` counts the stones.
    pub open spec fn wf(&self) -> bool {
        &&& self.mask & BOARD_MASK == self.mask
        &&& self.mask & ((self.mask + BOTTOM_MASK) as u64) == 0
        &&& self.current_position & self.mask == self.current_position
        &&& self.moves == popcnt(self.mask as int)
    }

    /// The empty board.
    pub fn new() -> (r: Self)
        ensures
            r.wf(),
            r.moves == 0,
            r.current_position == 0,
            r.mask == 0,
    {
        proof {
            lemma_empty_board();
        }
        Self { moves: 0, current_position: 0, mask: 0 }
    }

    /// Folds a transcript of one-indexed column digits over the empty
    /// board. The transcript must be legal; `parse_safe` checks instead.
    pub fn parse(code: &str) -> (r: Self)
        requires
            valid_moves(code@),
        ensures
            r == spec_parse(code@),
            r.wf(),
            r.moves == code@.len(),
    {
        let n = code.unicode_len();
        let mut pos = Self::new();
        let mut i: usize = 0;
        proof {
            assert(code@.subrange(0, 0) =~= Seq::<char>::empty());
        }
        while i < n
            invariant
                valid_moves(code@),
                n == code@.len(),
                i <= n,
                pos == spec_parse(code@.subrange(0, i as int)),
                pos.wf(),
                pos.moves == i,
            decreases n - i,
        {
            proof {
                lemma_valid_prefix(code@, i + 1);
                assert(code@.subrange(0, i + 1).drop_last() =~= code@.subrange(0, i as int));
                assert(code@.subrange(0, i + 1).last() == code@[i as int]);
            }
            let c = code.get_char(i);
            let d = (c as u32 - 49) as usize;
            pos = pos.next_pos(d);
            i = i + 1;
        }
        proof {
            assert(code@.subrange(0, n as int) =~= code@);
        }
        pos
    }

    /// Folds a transcript of zero-indexed column digits over the empty
    /// board, rejecting any stray character, any column name past the
    /// board edge, and any drop into a full column.
    pub fn parse_safe(code: &str) -> (r: Option<Self>)
        ensures
            r.is_some() == safe_valid(code@),
            r.is_some() ==> r.unwrap() == spec_parse_safe(code@) && r.unwrap().wf()
                && r.unwrap().moves == code@.len(),
    {
        let n = code.unicode_len();
        let mut pos = Self::new();
        let mut i: usize = 0;
        proof {
            assert(code@.subrange(0, 0) =~= Seq::<char>::empty());
        }
        while i < n
            invariant
                n == code@.len(),
                i <= n,
                safe_valid(code@.subrange(0, i as int)),
                pos == spec_parse_safe(code@.subrange(0, i as int)),
                pos.wf(),
                pos.moves == i,
            decreases n - i,
        {
            proof {
                assert(code@.subrange(0, i + 1).drop_last() =~= code@.subrange(0, i as int));
                assert(code@.subrange(0, i + 1).last() == code@[i as int]);
            }
            let c = code.get_char(i);
            let v = c as u32;
            if v < 48 || v > 54 {
                proof {
                    if safe_valid(code@) {
                        lemma_safe_prefix(code@, i + 1);
                    }
                }
                return None;
            }
            let d = (v - 48) as usize;
            if !pos.can_play(d) {
                proof {
                    if safe_valid(code@) {
                        lemma_safe_prefix(code@, i + 1);
                    }
                }
                return None;
            }
            pos = pos.next_pos(d);
            i = i + 1;
        }
        proof {
            assert(code@.subrange(0, n as int) =~= code@);
        }
        Some(pos)
    }

    /// The unique key of a reachable position: adding the stones of the
    /// side to move on top of the full-board mask.
    pub fn key(&self) -> (r: u64)
        requires
            self.wf(),
        ensures
            r == self.current_position + self.mask,
            r < 0x2000000000000,
    {
        proof {
            lemma_key_fits(self.current_position, self.mask);
        }
        self.current_position + self.mask
    }

    /// The symmetry-folded ternary code of the board, used as the
    /// opening-book key: the same for a position and its mirror image.
    /// The code of a board this deep fits a sixty-four bit word.
    pub fn key3(&self) -> (r: u64)
        requires
            self.wf(),
            self.moves <= 33,
        ensures
            r as int == spec_key3(*self),
    {
        let ghost a = self.current_position;
        let ghost m = self.mask;
        proof {
            lemma_digits_total(m);
            lemma_popcnt_board();
            lemma_popcnt_subset(m, BOARD_MASK);
            lemma_pow3_40();
            vstd::arithmetic::power::lemma_pow_positive(3, rest_digits(m, 0) as nat);
            if rest_digits(m, 0) <= 40 {
                vstd::arithmetic::power::lemma_pow_increases(3, rest_digits(m, 0) as nat, 40);
            }
        }
        let mut key_forward: u64 = 0;
        let mut i: usize = 0;
        while i < 7
            invariant
                self.wf(),
                a == self.current_position,
                m == self.mask,
                i <= 7,
                fwd_key3(0, a, m, 0) == fwd_key3(key_forward as int, a, m, i as int),
                (key_forward as int + 1) * pow(3, rest_digits(m, i as int) as nat)
                    <= 0x10000000000000000,
            decreases 7 - i,
        {
            let ghost kb = key_forward as int;
            proof {
                lemma_key3_loop_step(kb, m, i as int);
            }
            self.partial_key3(&mut key_forward, i);
            proof {
                lemma_col_key3_growth(kb, a, m, i as int, 0);
                lemma_key3_loop_chain(kb, key_forward as int, m, i as int);
            }
            i = i + 1;
        }
        proof {
            lemma_digits_flip(m, 6);
        }
        let mut key_reverse: u64 = 0;
        let mut j: usize = 0;
        while j < 7
            invariant
                self.wf(),
                a == self.current_position,
                m == self.mask,
                j <= 7,
                rev_key3(0, a, m, 6) == rev_key3(key_reverse as int, a, m, 6 - j as int),
                (key_reverse as int + 1) * pow(3, prefix_digits(m, 6 - j as int) as nat)
                    <= 0x10000000000000000,
            decreases 7 - j,
        {
            let ghost kb = key_reverse as int;
            let col = 6 - j;
            proof {
                lemma_key3_loop_step_rev(kb, m, col as int);
            }
            self.partial_key3(&mut key_reverse, col);
            proof {
                lemma_col_key3_growth(kb, a, m, col as int, 0);
                lemma_key3_loop_chain_rev(kb, key_reverse as int, m, col as int);
            }
            j = j + 1;
        }
        let smaller = if key_forward <= key_reverse {
            key_forward
        } else {
            key_reverse
        };
        smaller / 3
    }

    /// Appends one column's digits to the running ternary code `key`:
    /// a digit per stone, bottom up, then a closing zero digit. The
    /// running code must have room for the column's digits.
    pub fn partial_key3(&self, key: &mut u64, col: usize)
        requires
            self.wf(),
            col < 7,
            (*old(key) + 1) * pow(3, (col_h(self.mask, col as int, 0) + 1) as nat)
                <= 0x10000000000000000,
        ensures
            *final(key) as int == col_key3(
                *old(key) as int,
                self.current_position,
                self.mask,
                col as int,
                0,
            ),
    {
        let ghost k0 = *key as int;
        let ghost a = self.current_position;
        let ghost m = self.mask;
        let ghost c = col as int;
        let mut p: u64 = 1u64 << (col * 7);
        let ghost mut row: int = 0;
        while p & self.mask != 0
            invariant
                self.wf(),
                a == self.current_position,
                m == self.mask,
                col < 7,
                c == col as int,
                0 <= row <= 6,
                p == (1u64 << ((7 * c + row) as u64)),
                col_key3(k0, a, m, c, 0) == col_key3(*key as int, a, m, c, row),
                (*key as int + 1) * pow(3, (col_h(m, c, row) + 1) as nat) <= 0x10000000000000000,
            decreases 6 - row,
        {
            let ghost kb = *key as int;
            let ghost d = col_h(m, c, row);
            proof {
                lemma_bit_ops(m, 0, (7 * c + row) as u64);
                lemma_bit_ops(a, 0, (7 * c + row) as u64);
                lemma_lane_facts(m, col as u64, 0);
                assert(nth(m, 7 * c + row));
                lemma_key3_digit_room(kb, m, c, row);
            }
            *key = *key * 3;
            if p & self.current_position != 0 {
                *key = *key + 1;
            } else {
                *key = *key + 2;
            }
            proof {
                lemma_key3_digit_chain(kb, *key as int, m, c, row);
                lemma_shl_step((7 * c + row) as u64);
                row = row + 1;
            }
            p = p << 1;
        }
        proof {
            lemma_bit_ops(m, 0, (7 * c + row) as u64);
            assert(!nth(m, 7 * c + row));
            vstd::arithmetic::power::lemma_pow1(3);
        }
        *key = *key * 3;
    }

    /// The column's top cell is still free.
    pub fn can_play(&self, col: usize) -> (r: bool)
        requires
            col < 7,
        ensures
            r == self.playable(col as int),
    {
        proof {
            lemma_bit_ops(self.mask, 0, (7 * col + 5) as u64);
        }
        self.mask & Self::top_mask(col) == 0
    }

    /// Drops a stone into `col`, which must have room.
    pub fn next_pos(&self, col: usize) -> (r: Self)
        requires
            self.wf(),
            col < 7,
            self.playable(col as int),
        ensures
            r == self.spec_next(col as int),
            r.wf(),
            r.moves == self.moves + 1,
            r.mask == self.mask | drop_bit_raw(self.mask, col as u64),
            r.current_position == self.mask ^ self.current_position,
    {
        proof {
            lemma_drop_facts(self.mask, col as u64);
        }
        let m = (self.mask + Self::bottom_mask(col)) & Self::column_mask(col);
        self.next_pos_move(m)
    }

    /// Places the single stone `mv`, which must be a cell a move can
    /// land on, and flips the perspective to the other player.
    pub fn next_pos_move(&self, m: u64) -> (r: Self)
        requires
            self.wf(),
            self.playable_bit(m),
        ensures
            r == self.spec_next_move(m),
            r.wf(),
            r.moves == self.moves + 1,
            r.mask == self.mask | m,
            r.current_position == self.mask ^ self.current_position,
    {
        proof {
            lemma_play_facts(self.current_position, self.mask, m);
            lemma_popcnt_or_disjoint(self.mask, m);
            lemma_popcnt_single(m);
            lemma_popcnt_u64(self.mask);
        }
        let moves = self.moves + 1;
        let current_position = self.mask ^ self.current_position;
        let mask = self.mask | m;
        Self { moves, current_position, mask }
    }

    /// Which player is about to move: one on even move counts, two on
    /// odd ones.
    pub fn get_current_player(&self) -> (r: usize)
        ensures
            r == 1 + self.moves % 2,
    {
        1 + self.moves % 2
    }

    /// The game ends level two stones short of a full board when
    /// neither side has a win by then.
    pub fn is_draw(&self) -> (r: bool)
        ensures
            r == (self.moves == 40),
    {
        self.moves == 40
    }

    /// The score of a win secured this ply by the side to move: the
    /// fewer the stones on the board, the higher the score.
    pub fn calc_score(&self) -> (r: isize)
        requires
            self.moves <= 42,
        ensures
            r == (42 - self.moves as int) / 2,
    {
        ((42 - self.moves) / 2) as isize
    }

    /// Counts the set bits of `m` on top of the accumulator `c`.
    pub fn pop_count(m: u64, c: usize) -> (r: usize)
        requires
            c + popcnt(m as int) <= usize::MAX,
        ensures
            r == c + popcnt(m as int),
        decreases m,
    {
        proof {
            lemma_popcnt_clear_lowest(m);
        }
        match m {
            0 => c,
            _ => Self::pop_count(m & (m - 1), c + 1),
        }
    }

    /// The side to move can complete a line of four with a legal drop.
    pub fn has_winning_move(&self) -> (r: bool)
        requires
            self.wf(),
        ensures
            r == self.has_win_now(),
    {
        (self.winning_position() & self.possible()) != 0
    }

    /// Dropping into `col` is legal and completes a line of four for
    /// the side to move.
    pub fn is_winning_move(&self, col: usize) -> (r: bool)
        requires
            self.wf(),
            col < 7,
        ensures
            r == (self.winning_bits() & possible_bits(self.mask) & col_mask(col as u64) != 0),
    {
        self.winning_position() & self.possible() & Self::column_mask(col) != 0
    }

    /// How many immediate threats the side to move would hold after
    /// placing the stone `m`: a move-ordering heuristic.
    pub fn move_score(&self, m: u64) -> (r: usize)
        ensures
            r == popcnt(winning_cells(self.current_position | m, self.mask) as int),
    {
        let w = Self::compute_winning_position(self.current_position | m, self.mask);
        proof {
            lemma_popcnt_u64(w);
        }
        Self::pop_count(w, 0)
    }

    /// The moves that do not lose on the spot, per the non-losing move
    /// formula; only meaningful when the side to move cannot win at
    /// once. Every move the result admits leaves the opponent without
    /// an immediate win.
    pub fn possible_non_loosing_moves(&self) -> (r: u64)
        requires
            self.wf(),
            !self.has_win_now(),
        ensures
            r == self.spec_pnl(),
            r & possible_bits(self.mask) == r,
            r != 0 ==> self.moves < 42,
            forall|mv: u64|
                self.playable_bit(mv) && mv & r == mv ==> !(#[trigger] self.spec_next_move(
                    mv,
                )).has_win_now(),
            forall|mv: u64|
                self.playable_bit(mv) && mv & r != mv && r != 0 ==> (
                #[trigger] self.spec_next_move(mv)).has_win_now(),
            forall|mv: u64|
                self.playable_bit(mv) && r == 0 ==> (#[trigger] self.spec_next_move(
                    mv,
                )).has_win_now(),
    {
        proof {
            lemma_pnl_props(self.current_position, self.mask);
            if self.spec_pnl() != 0 {
                lemma_popcnt_board();
                lemma_popcnt_subset(self.mask, BOARD_MASK);
            }
            assert forall|mv: u64|
                self.playable_bit(mv) && mv & self.spec_pnl() == mv implies !(
            #[trigger] self.spec_next_move(mv)).has_win_now() by {
                lemma_pnl_safe(self.current_position, self.mask, mv);
            }
            assert forall|mv: u64|
                self.playable_bit(mv) && mv & self.spec_pnl() != mv && self.spec_pnl() != 0 implies (
            #[trigger] self.spec_next_move(mv)).has_win_now() by {
                lemma_pnl_excluded_loses(self.current_position, self.mask, mv);
            }
            assert forall|mv: u64|
                self.playable_bit(mv) && self.spec_pnl() == 0 implies (
            #[trigger] self.spec_next_move(mv)).has_win_now() by {
                lemma_pnl_zero_loses(self.current_position, self.mask, mv);
            }
        }
        let possible_mask = self.possible();
        let opponent_win = self.opponent_winning_position();
        let forced_moves = possible_mask & opponent_win;
        if forced_moves == 0 {
            possible_mask & !(opponent_win >> 1)
        } else if forced_moves & (forced_moves - 1) > 0 {
            0
        } else {
            forced_moves & !(opponent_win >> 1)
        }
    }

    /// The free cells where the side to move would win at once.
    fn winning_position(&self) -> (r: u64)
        ensures
            r == self.winning_bits(),
    {
        Self::compute_winning_position(self.current_position, self.mask)
    }

    /// The free cells where the opponent would win at once.
    fn opponent_winning_position(&self) -> (r: u64)
        ensures
            r == self.opp_winning_bits(),
    {
        Self::compute_winning_position(self.current_position ^ self.mask, self.mask)
    }

    /// The free board cells that would complete a line of four through
    /// the stone set `position`, by branchless shift arithmetic: for
    /// each direction, a cell is marked when the three cells that would
    /// extend it to a line of four all hold stones of `position`.
    fn compute_winning_position(position: u64, mask: u64) -> (r: u64)
        ensures
            r == winning_cells(position, mask),
    {
        // vertical: three stones directly below
        let mut r = (position << 1) & (position << 2) & (position << 3);

        // horizontal: stride of one column
        let mut p = (position << 7) & (position << 14);
        r = r | (p & (position << 21));
        r = r | (p & (position >> 7));
        p = (position >> 7) & (position >> 14);
        r = r | (p & (position << 7));
        r = r | (p & (position >> 21));

        // first diagonal: one column over, one row down
        p = (position << 6) & (position << 12);
        r = r | (p & (position << 18));
        r = r | (p & (position >> 6));
        p = (position >> 6) & (position >> 12);
        r = r | (p & (position << 6));
        r = r | (p & (position >> 18));

        // second diagonal: one column over, one row up
        p = (position << 8) & (position << 16);
        r = r | (p & (position << 24));
        r = r | (p & (position >> 8));
        p = (position >> 8) & (position >> 16);
        r = r | (p & (position << 8));
        r = r | (p & (position >> 24));

        r & (BOARD_MASK ^ mask)
    }

    /// Every cell a move could land on right now.
    fn possible(&self) -> (r: u64)
        requires
            self.wf(),
        ensures
            r == possible_bits(self.mask),
    {
        proof {
            lemma_board_range(self.mask);
        }
        (self.mask + BOTTOM_MASK) & BOARD_MASK
    }

    fn top_mask(col: usize) -> (r: u64)
        requires
            col < 7,
        ensures
            r == (1u64 << ((7 * col + 5) as u64)),
    {
        1u64 << (7 * col + 5)
    }

    fn bottom_mask(col: usize) -> (r: u64)
        requires
            col < 7,
        ensures
            r == col_bottom_bit(col as u64),
    {
        1u64 << (7 * col)
    }

    /// All six playable cells of `col`.
    pub fn column_mask(col: usize) -> (r: u64)
        requires
            col < 7,
        ensures
            r == col_mask(col as u64),
    {
        proof {
            lemma_six_bits();
        }
        ((1u64 << 6) - 1) << (7 * col)
    }
}

/// The empty board meets the shape invariant.
proof fn lemma_empty_board()
    by (bit_vector)
    ensures
        0u64 & BOARD_MASK == 0u64,
        0u64 & ((0u64 + BOTTOM_MASK) as u64) == 0,
        0u64 & 0u64 == 0u64,
{
}

/// The board holds forty-two playable cells.
proof fn lemma_popcnt_board()
    ensures
        popcnt(BOARD_MASK as int) == 42,
{
    reveal_with_fuel(popcnt, 50);
}

/// The non-losing move formula yields a subset of the playable cells,
/// and nothing at all on a full board.
proof fn lemma_pnl_props(a: u64, m: u64)
    by (bit_vector)
    requires
        m & BOARD_MASK == m,
        m & ((m + BOTTOM_MASK) as u64) == 0,
        a & m == a,
    ensures
        pnl_raw(a, m) & possible_bits(m) == pnl_raw(a, m),
        m == BOARD_MASK ==> pnl_raw(a, m) == 0,
{
}

/// The complement of the threat logic: when the non-losing move
/// formula keeps some move, every playable move it discards hands the
/// opponent an immediate winning drop.
#[verifier::rlimit(100)]
proof fn lemma_pnl_excluded_loses(a: u64, m: u64, mv: u64)
    by (bit_vector)
    requires
        m & BOARD_MASK == m,
        m & ((m + BOTTOM_MASK) as u64) == 0,
        a & m == a,
        pnl_raw(a, m) != 0,
        mv != 0,
        mv & ((mv - 1) as u64) == 0,
        mv & possible_bits(m) == mv,
        mv & pnl_raw(a, m) != mv,
    ensures
        winning_cells(m ^ a, m | mv) & possible_bits(m | mv) != 0,
{
}

/// The heart of the threat logic: after any single move the non-losing
/// move formula admits, the opponent has no immediate winning drop.
#[verifier::rlimit(100)]
proof fn lemma_pnl_safe(a: u64, m: u64, mv: u64)
    by (bit_vector)
    requires
        m & BOARD_MASK == m,
        m & ((m + BOTTOM_MASK) as u64) == 0,
        a & m == a,
        mv != 0,
        mv & ((mv - 1) as u64) == 0,
        mv & possible_bits(m) == mv,
        mv & pnl_raw(a, m) == mv,
    ensures
        winning_cells(m ^ a, m | mv) & possible_bits(m | mv) == 0,
{
}

/// One queued candidate move with its ordering score.
#[derive(Copy, Clone, Debug)]
pub struct SortEntry {
    pub m: u64,
    pub score: usize,
}

/// Entries ordered by weakly ascending score.
pub open spec fn sorted_by_score(s: Seq<SortEntry>) -> bool {
    forall|i: int, j: int| 0 <= i < j < s.len() ==> s[i].score <= s[j].score
}

/// A fixed-capacity insertion-sorted list of candidate moves, kept in
/// ascending score order and popped from the top, so it hands moves
/// out best-first.
pub struct MoveSorter {
    pub entries: Vec<SortEntry>,
}

impl MoveSorter {
    pub open spec fn wf(&self) -> bool {
        sorted_by_score(self.entries@)
    }

    pub fn new() -> (r: Self)
        ensures
            r.wf(),
            r.entries@.len() == 0,
    {
        Self { entries: Vec::new() }
    }

    /// Queues one move, keeping the entries sorted by score. The
    /// sorter never holds more than one move per column.
    pub fn add(&mut self, m: u64, score: usize)
        requires
            old(self).wf(),
            old(self).entries@.len() < 7,
        ensures
            final(self).wf(),
            exists|k: int|
                0 <= k <= old(self).entries@.len() && final(self).entries@ == old(
                    self,
                ).entries@.insert(k, (SortEntry { m, score })) && (forall|j: int|
                    0 <= j < k ==> (#[trigger] old(self).entries@[j]).score <= score) && (forall|
                    j: int,
                |
                    k <= j < old(self).entries@.len() ==> (#[trigger] old(
                        self,
                    ).entries@[j]).score > score),
    {
        let ghost prior = self.entries@;
        let n = self.entries.len();
        self.entries.push(SortEntry { m, score });
        let mut p = n;
        while p != 0 && self.entries[p - 1].score > score
            invariant
                prior.len() == n,
                self.entries@.len() == n + 1,
                p <= n,
                forall|j: int| 0 <= j < p ==> self.entries@[j] == prior[j],
                forall|j: int| p < j <= n ==> self.entries@[j] == prior[j - 1],
                forall|j: int| p < j <= n ==> (#[trigger] prior[j - 1]).score > score,
            decreases p,
        {
            let moved = self.entries[p - 1];
            self.entries[p] = moved;
            p = p - 1;
        }
        self.entries[p] = SortEntry { m, score };
        proof {
            assert(self.entries@ =~= prior.insert(p as int, (SortEntry { m, score })));
            assert(sorted_by_score(prior));
            assert forall|j: int| 0 <= j < p implies (#[trigger] prior[j]).score <= score by {
                assert(prior[p - 1].score <= score);
            }
            assert forall|j: int| p <= j < prior.len() implies (#[trigger] prior[j]).score
                > score by {
                assert(prior[((j + 1) - 1) as int].score > score);
            }
            assert(0 <= p as int <= old(self).entries@.len() && self.entries@ == old(
                self,
            ).entries@.insert(p as int, (SortEntry { m, score })) && (forall|j: int|
                0 <= j < p as int ==> (#[trigger] old(self).entries@[j]).score <= score) && (
            forall|j: int|
                p as int <= j < old(self).entries@.len() ==> (#[trigger] old(
                    self,
                ).entries@[j]).score > score));
            assert forall|i: int, j: int|
                0 <= i < j < self.entries@.len() implies self.entries@[i].score
                <= self.entries@[j].score by {
                assert(sorted_by_score(prior));
            }
        }
    }

    /// Pops the best remaining move: the one with the highest score.
    pub fn get_next(&mut self) -> (r: Option<u64>)
        requires
            old(self).wf(),
        ensures
            final(self).wf(),
            old(self).entries@.len() == 0 ==> r is None && final(self).entries@ == old(
                self,
            ).entries@,
            old(self).entries@.len() > 0 ==> {
                &&& r == Some(old(self).entries@.last().m)
                &&& final(self).entries@ == old(self).entries@.drop_last()
                &&& forall|j: int|
                    0 <= j < old(self).entries@.len() ==> old(self).entries@[j].score <= old(
                        self,
                    ).entries@.last().score
            },
    {
        match self.entries.len() {
            0 => None,
            _ => {
                let e = self.entries.pop().unwrap();
                Some(e.m)
            },
        }
    }

    /// Forgets all queued moves.
    pub fn reset(&mut self)
        ensures
            final(self).wf(),
            final(self).entries@.len() == 0,
    {
        self.entries.clear()
    }
}

/// A legal transcript stays legal when cut off after `i` digits.
proof fn lemma_valid_prefix(s: Seq<char>, i: int)
    requires
        valid_moves(s),
        0 <= i <= s.len(),
    ensures
        valid_moves(s.subrange(0, i)),
    decreases s.len() - i,
{
    if i == s.len() {
        assert(s.subrange(0, i) =~= s);
    } else {
        assert(s.drop_last().subrange(0, i) =~= s.subrange(0, i));
        lemma_valid_prefix(s.drop_last(), i);
    }
}

/// The zero-indexed form of the prefix lemma.
proof fn lemma_safe_prefix(s: Seq<char>, i: int)
    requires
        safe_valid(s),
        0 <= i <= s.len(),
    ensures
        safe_valid(s.subrange(0, i)),
    decreases s.len() - i,
{
    if i == s.len() {
        assert(s.subrange(0, i) =~= s);
    } else {
        assert(s.drop_last().subrange(0, i) =~= s.subrange(0, i));
        lemma_safe_prefix(s.drop_last(), i);
    }
}

/// Dropping a playable single stone yields a well-formed position with
/// one more move on the clock.
pub proof fn lemma_move_wf(p: Position, mv: u64)
    requires
        p.wf(),
        p.playable_bit(mv),
    ensures
        p.spec_next_move(mv).wf(),
        p.spec_next_move(mv).moves == p.moves + 1,
{
    lemma_play_facts(p.current_position, p.mask, mv);
    lemma_popcnt_or_disjoint(p.mask, mv);
    lemma_popcnt_single(mv);
    lemma_popcnt_u64(p.mask);
}

/// Dropping into a column with room yields a well-formed position.
pub proof fn lemma_next_wf(p: Position, col: int)
    requires
        p.wf(),
        p.playable(col),
    ensures
        p.playable_bit(drop_bit_raw(p.mask, col as u64)),
        p.spec_next(col).wf(),
        p.spec_next(col).moves == p.moves + 1,
{
    lemma_drop_facts(p.mask, col as u64);
    lemma_move_wf(p, drop_bit_raw(p.mask, col as u64));
}

/// A legal zero-indexed transcript reaches a well-formed board whose
/// stone count is the transcript's length; in particular no legal
/// transcript is longer than the board's forty-two cells.
pub proof fn lemma_safe_parse_wf(s: Seq<char>)
    requires
        safe_valid(s),
    ensures
        spec_parse_safe(s).wf(),
        spec_parse_safe(s).moves == s.len(),
        s.len() <= 42,
    decreases s.len(),
{
    if s.len() == 0 {
        lemma_empty_board();
    } else {
        lemma_safe_parse_wf(s.drop_last());
        lemma_next_wf(spec_parse_safe(s.drop_last()), s.last() as u32 - 48);
    }
    lemma_popcnt_board();
    lemma_popcnt_subset(spec_parse_safe(s).mask, BOARD_MASK);
}

/// The one-indexed counterpart: a legal transcript reaches a
/// well-formed board, one stone per digit.
pub proof fn lemma_parse_wf(s: Seq<char>)
    requires
        valid_moves(s),
    ensures
        spec_parse(s).wf(),
        spec_parse(s).moves == s.len(),
        s.len() <= 42,
    decreases s.len(),
{
    if s.len() == 0 {
        lemma_empty_board();
    } else {
        lemma_parse_wf(s.drop_last());
        lemma_next_wf(spec_parse(s.drop_last()), s.last() as u32 - 49);
    }
    lemma_popcnt_board();
    lemma_popcnt_subset(spec_parse(s).mask, BOARD_MASK);
}

/// Bridges between a column's bits in the whole word and in its lane.
proof fn lemma_lane_facts(m: u64, col: u64, r: u64)
    by (bit_vector)
    requires
        col < 7,
        r < 7,
        m & BOARD_MASK == m,
        m & ((m + BOTTOM_MASK) as u64) == 0,
    ensures
        ((m >> ((7 * col + r) as u64)) & 1u64) == ((lane(m, col) >> r) & 1u64),
        (lane(m, col) >> r) & 1u64 != 1 ==> lane(m, col) >> r == 0,
        ((lane(m, col) >> r) >> 1u64) == lane(m, col) >> ((r + 1) as u64),
        (lane(m, col) >> r) % 2 == (lane(m, col) >> r) & 1u64,
        (lane(m, col) >> r) / 2 == (lane(m, col) >> r) >> 1u64,
        (m >> ((7 * col + 6) as u64)) & 1u64 == 0,
        lane(m, col) >> 7u64 == 0,
        lane(m, col) >> 0u64 == lane(m, col),
{
}

/// Splitting a word at its lowest seven bits.
proof fn lemma_lane_split_bits(x: u64)
    by (bit_vector)
    ensures
        (x & 127u64) & ((x >> 7u64) << 7u64) == 0,
        (x & 127u64) | ((x >> 7u64) << 7u64) == x,
        ((x >> 7u64) << 7u64) == (x >> 7u64) * 128,
{
}

/// Walking the word one lane at a time.
proof fn lemma_lane_step(m: u64, col: u64)
    by (bit_vector)
    requires
        col < 7,
        m & BOARD_MASK == m,
    ensures
        ((m >> ((7 * col) as u64)) >> 7u64) == m >> ((7 * (col + 1)) as u64),
        ((m >> ((7 * col) as u64)) & 127u64) == lane(m, col),
        m >> 49u64 == 0,
        m >> 0u64 == m,
{
}

/// Doubling does not change the bit count.
proof fn lemma_popcnt_mul2(y: int)
    requires
        y >= 0,
    ensures
        popcnt(2 * y) == popcnt(y),
{
    if y > 0 {
        assert((2 * y) % 2 == 0 && (2 * y) / 2 == y);
    }
}

/// Shifting left by whole powers of two keeps the bit count.
proof fn lemma_popcnt_mul_pow2(y: int, k: nat)
    requires
        y >= 0,
    ensures
        popcnt(y * pow2(k)) == popcnt(y),
    decreases k,
{
    if k == 0 {
        assert(pow2(0) == 1) by {
            lemma2_to64();
        }
    } else {
        lemma_pow2_unfold(k);
        lemma_pow2_pos((k - 1) as nat);
        assert(y * pow2(k) == 2 * (y * pow2((k - 1) as nat))) by (nonlinear_arith)
            requires
                pow2(k) == 2 * pow2((k - 1) as nat),
        ;
        lemma_popcnt_mul_pow2(y, (k - 1) as nat);
        assert(y * pow2((k - 1) as nat) >= 0) by (nonlinear_arith)
            requires
                y >= 0 && pow2((k - 1) as nat) >= 1,
        ;
        lemma_popcnt_mul2(y * pow2((k - 1) as nat));
    }
}

/// The bit count splits at the lane boundary.
proof fn lemma_popcnt_split7(x: u64)
    ensures
        popcnt(x as int) == popcnt((x & 127u64) as int) + popcnt((x >> 7u64) as int),
{
    lemma_lane_split_bits(x);
    lemma_popcnt_or_disjoint(x & 127u64, (x >> 7u64) << 7u64);
    assert(pow2(7) == 128) by {
        lemma2_to64();
    }
    lemma_popcnt_mul_pow2((x >> 7u64) as int, 7);
}

/// A column's fill run count is the bit count of its lane above `r`.
proof fn lemma_col_h_lane(m: u64, col: int, r: int)
    requires
        m & BOARD_MASK == m,
        m & ((m + BOTTOM_MASK) as u64) == 0,
        0 <= col < 7,
        0 <= r <= 7,
    ensures
        col_h(m, col, r) == popcnt((lane(m, col as u64) >> (r as u64)) as int),
        0 <= col_h(m, col, r) <= 7 - r,
    decreases 7 - r,
{
    if r == 7 {
        lemma_lane_facts(m, col as u64, 0);
    } else {
        lemma_lane_facts(m, col as u64, r as u64);
        lemma_col_h_lane(m, col, r + 1);
    }
}

/// The columns from `col` rightward emit one digit per stone plus one
/// closing digit each.
proof fn lemma_lanes_total(m: u64, col: int)
    requires
        m & BOARD_MASK == m,
        m & ((m + BOTTOM_MASK) as u64) == 0,
        0 <= col <= 7,
    ensures
        rest_digits(m, col) == popcnt((m >> ((7 * col) as u64)) as int) + 7 - col,
    decreases 7 - col,
{
    if col == 7 {
        lemma_lane_step(m, 6);
        assert(popcnt(0int) == 0);
    } else {
        lemma_lane_step(m, col as u64);
        lemma_lane_facts(m, col as u64, 0);
        lemma_popcnt_split7(m >> ((7 * col) as u64));
        lemma_col_h_lane(m, col, 0);
        lemma_lanes_total(m, col + 1);
    }
}

/// The whole board emits one ternary digit per stone plus seven.
proof fn lemma_digits_total(m: u64)
    requires
        m & BOARD_MASK == m,
        m & ((m + BOTTOM_MASK) as u64) == 0,
    ensures
        rest_digits(m, 0) == popcnt(m as int) + 7,
{
    lemma_lanes_total(m, 0);
    lemma_lane_step(m, 0);
}

/// Digits counted leftward and rightward cover the board together.
proof fn lemma_digits_flip(m: u64, col: int)
    requires
        -1 <= col <= 6,
    ensures
        prefix_digits(m, col) + rest_digits(m, col + 1) == rest_digits(m, 0),
    decreases col + 1,
{
    if col >= 0 {
        lemma_digits_flip(m, col - 1);
    }
}

/// A column's fill run count stays within the lane.
proof fn lemma_col_h_bounds(m: u64, col: int, r: int)
    ensures
        0 <= col_h(m, col, r) <= 7,
        0 <= r <= 7 ==> col_h(m, col, r) <= 7 - r,
    decreases 7 - r,
{
    if 0 <= r < 7 && nth(m, 7 * col + r) {
        lemma_col_h_bounds(m, col, r + 1);
    }
}

/// One column multiplies the running code by three to the digits it
/// emits, give or take the digits themselves.
proof fn lemma_col_key3_growth(key: int, a: u64, m: u64, col: int, r: int)
    requires
        key >= 0,
    ensures
        col_key3(key, a, m, col, r) >= 3 * key,
        col_key3(key, a, m, col, r) + 1 <= (key + 1) * pow(3, (col_h(m, col, r) + 1) as nat),
    decreases 7 - r,
{
    lemma_col_h_bounds(m, col, r);
    if r < 0 || r >= 7 || !nth(m, 7 * col + r) {
        vstd::arithmetic::power::lemma_pow1(3);
    } else {
        let t: int = if nth(a, 7 * col + r) {
            1
        } else {
            2
        };
        let d2 = col_h(m, col, r + 1);
        lemma_col_h_bounds(m, col, r + 1);
        lemma_col_key3_growth(3 * key + t, a, m, col, r + 1);
        vstd::arithmetic::power::lemma_pow1(3);
        vstd::arithmetic::power::lemma_pow_adds(3, 1, (d2 + 1) as nat);
        vstd::arithmetic::power::lemma_pow_positive(3, (d2 + 1) as nat);
        assert(pow(3, (d2 + 2) as nat) == 3 * pow(3, (d2 + 1) as nat));
        assert((3 * key + t + 1) * pow(3, (d2 + 1) as nat) <= (key + 1) * pow(
            3,
            (d2 + 2) as nat,
        )) by (nonlinear_arith)
            requires
                t <= 2 && pow(3, (d2 + 2) as nat) == 3 * pow(3, (d2 + 1) as nat) && pow(
                    3,
                    (d2 + 1) as nat,
                ) >= 0,
        ;
        vstd::arithmetic::power::lemma_pow_positive(3, (d2 + 1) as nat);
    }
}

/// Reading columns left to right multiplies the running code by three
/// to the total digit count of what remains.
proof fn lemma_fwd_growth(key: int, a: u64, m: u64, col: int)
    requires
        key >= 0,
        m & BOARD_MASK == m,
        m & ((m + BOTTOM_MASK) as u64) == 0,
        0 <= col,
    ensures
        fwd_key3(key, a, m, col) >= key,
        fwd_key3(key, a, m, col) + 1 <= (key + 1) * pow(3, rest_digits(m, col) as nat),
    decreases 7 - col,
{
    if col >= 7 {
        vstd::arithmetic::power::lemma_pow0(3);
    } else {
        lemma_lane_facts(m, col as u64, 0);
        lemma_col_h_lane(m, col, 0);
        let k2 = col_key3(key, a, m, col, 0);
        let d = col_h(m, col, 0);
        lemma_col_key3_growth(key, a, m, col, 0);
        lemma_fwd_growth(k2, a, m, col + 1);
        vstd::arithmetic::power::lemma_pow_positive(3, (d + 1) as nat);
        vstd::arithmetic::power::lemma_pow_positive(3, rest_digits(m, col + 1) as nat);
        vstd::arithmetic::power::lemma_pow_adds(3, (d + 1) as nat, rest_digits(m, col + 1) as nat);
        lemma_rest_nonneg(m, col + 1);
        assert((k2 + 1) * pow(3, rest_digits(m, col + 1) as nat) <= (key + 1) * pow(
            3,
            (d + 1) as nat,
        ) * pow(3, rest_digits(m, col + 1) as nat)) by (nonlinear_arith)
            requires
                k2 + 1 <= (key + 1) * pow(3, (d + 1) as nat) && pow(
                    3,
                    rest_digits(m, col + 1) as nat,
                ) >= 1,
        ;
        assert((key + 1) * pow(3, (d + 1) as nat) * pow(3, rest_digits(m, col + 1) as nat) == (key
            + 1) * pow(3, rest_digits(m, col) as nat)) by (nonlinear_arith)
            requires
                pow(3, rest_digits(m, col) as nat) == pow(3, (d + 1) as nat) * pow(
                    3,
                    rest_digits(m, col + 1) as nat,
                ),
        ;
    }
}

/// The rightward digit count is never negative.
proof fn lemma_rest_nonneg(m: u64, col: int)
    ensures
        rest_digits(m, col) >= 0,
    decreases 8 - col,
{
    lemma_col_h_bounds(m, col, 0);
    if 0 <= col < 7 {
        lemma_rest_nonneg(m, col + 1);
    }
}

/// The leftward digit count is never negative.
proof fn lemma_prefix_nonneg(m: u64, col: int)
    ensures
        prefix_digits(m, col) >= 0,
    decreases col + 8,
{
    lemma_col_h_bounds(m, col, 0);
    if col >= 0 {
        lemma_prefix_nonneg(m, col - 1);
    }
}

/// Reading columns right to left multiplies the running code by three
/// to the total digit count of what remains.
proof fn lemma_rev_growth(key: int, a: u64, m: u64, col: int)
    requires
        key >= 0,
        m & BOARD_MASK == m,
        m & ((m + BOTTOM_MASK) as u64) == 0,
        col <= 6,
    ensures
        rev_key3(key, a, m, col) >= key,
        rev_key3(key, a, m, col) + 1 <= (key + 1) * pow(3, prefix_digits(m, col) as nat),
    decreases col + 1,
{
    if col < 0 {
        vstd::arithmetic::power::lemma_pow0(3);
    } else {
        lemma_lane_facts(m, col as u64, 0);
        lemma_col_h_lane(m, col, 0);
        let k2 = col_key3(key, a, m, col, 0);
        let d = col_h(m, col, 0);
        lemma_col_key3_growth(key, a, m, col, 0);
        lemma_rev_growth(k2, a, m, col - 1);
        vstd::arithmetic::power::lemma_pow_positive(3, (d + 1) as nat);
        vstd::arithmetic::power::lemma_pow_positive(3, prefix_digits(m, col - 1) as nat);
        vstd::arithmetic::power::lemma_pow_adds(
            3,
            prefix_digits(m, col - 1) as nat,
            (d + 1) as nat,
        );
        lemma_prefix_nonneg(m, col - 1);
        assert((k2 + 1) * pow(3, prefix_digits(m, col - 1) as nat) <= (key + 1) * pow(
            3,
            (d + 1) as nat,
        ) * pow(3, prefix_digits(m, col - 1) as nat)) by (nonlinear_arith)
            requires
                k2 + 1 <= (key + 1) * pow(3, (d + 1) as nat) && pow(
                    3,
                    prefix_digits(m, col - 1) as nat,
                ) >= 1,
        ;
        assert((key + 1) * pow(3, (d + 1) as nat) * pow(3, prefix_digits(m, col - 1) as nat) == (
        key + 1) * pow(3, prefix_digits(m, col) as nat)) by (nonlinear_arith)
            requires
                pow(3, prefix_digits(m, col) as nat) == pow(
                    3,
                    prefix_digits(m, col - 1) as nat,
                ) * pow(3, (d + 1) as nat) && prefix_digits(m, col) == prefix_digits(m, col - 1) + d
                    + 1,
        ;
    }
}

/// Three to the fortieth still fits a sixty-four bit word: the ternary
/// code of a thirty-three stone board cannot overflow.
proof fn lemma_pow3_40()
    ensures
        pow(3, 40) == 12157665459056928801,
{
    reveal_with_fuel(pow, 41);
}

/// A single-bit mask steps one position up when shifted once.
proof fn lemma_shl_step(s: u64)
    by (bit_vector)
    requires
        s < 63,
    ensures
        (1u64 << s) << 1u64 == 1u64 << ((s + 1) as u64),
{
}

/// The room the whole column needs covers its first digit.
proof fn lemma_key3_loop_step(kb: int, m: u64, i: int)
    requires
        0 <= i < 7,
        kb >= 0,
        (kb + 1) * pow(3, rest_digits(m, i) as nat) <= 0x10000000000000000,
    ensures
        (kb + 1) * pow(3, (col_h(m, i, 0) + 1) as nat) <= 0x10000000000000000,
{
    let d = col_h(m, i, 0);
    lemma_col_h_bounds(m, i, 0);
    lemma_rest_nonneg(m, i + 1);
    vstd::arithmetic::power::lemma_pow_adds(3, (d + 1) as nat, rest_digits(m, i + 1) as nat);
    vstd::arithmetic::power::lemma_pow_positive(3, (d + 1) as nat);
    vstd::arithmetic::power::lemma_pow_positive(3, rest_digits(m, i + 1) as nat);
    assert((kb + 1) * pow(3, (d + 1) as nat) <= (kb + 1) * pow(3, rest_digits(m, i) as nat))
        by (nonlinear_arith)
        requires
            kb >= 0 && pow(3, rest_digits(m, i) as nat) == pow(3, (d + 1) as nat) * pow(
                3,
                rest_digits(m, i + 1) as nat,
            ) && pow(3, (d + 1) as nat) >= 1 && pow(3, rest_digits(m, i + 1) as nat) >= 1,
    ;
}

/// After one column the room for the remaining columns still holds.
proof fn lemma_key3_loop_chain(kb: int, kf: int, m: u64, i: int)
    requires
        0 <= i < 7,
        kb >= 0,
        kf >= 0,
        kf + 1 <= (kb + 1) * pow(3, (col_h(m, i, 0) + 1) as nat),
        (kb + 1) * pow(3, rest_digits(m, i) as nat) <= 0x10000000000000000,
    ensures
        (kf + 1) * pow(3, rest_digits(m, i + 1) as nat) <= 0x10000000000000000,
{
    let d = col_h(m, i, 0);
    lemma_col_h_bounds(m, i, 0);
    lemma_rest_nonneg(m, i + 1);
    vstd::arithmetic::power::lemma_pow_adds(3, (d + 1) as nat, rest_digits(m, i + 1) as nat);
    vstd::arithmetic::power::lemma_pow_positive(3, (d + 1) as nat);
    vstd::arithmetic::power::lemma_pow_positive(3, rest_digits(m, i + 1) as nat);
    assert((kf + 1) * pow(3, rest_digits(m, i + 1) as nat) <= (kb + 1) * pow(
        3,
        rest_digits(m, i) as nat,
    )) by (nonlinear_arith)
        requires
            kf + 1 <= (kb + 1) * pow(3, (d + 1) as nat) && pow(3, rest_digits(m, i) as nat) == pow(
                3,
                (d + 1) as nat,
            ) * pow(3, rest_digits(m, i + 1) as nat) && pow(3, rest_digits(m, i + 1) as nat) >= 1
                && kf >= 0,
    ;
}

/// The rightward forms of the two loop lemmas.
proof fn lemma_key3_loop_step_rev(kb: int, m: u64, col: int)
    requires
        0 <= col < 7,
        kb >= 0,
        (kb + 1) * pow(3, prefix_digits(m, col) as nat) <= 0x10000000000000000,
    ensures
        (kb + 1) * pow(3, (col_h(m, col, 0) + 1) as nat) <= 0x10000000000000000,
{
    let d = col_h(m, col, 0);
    lemma_col_h_bounds(m, col, 0);
    lemma_prefix_nonneg(m, col - 1);
    vstd::arithmetic::power::lemma_pow_adds(3, prefix_digits(m, col - 1) as nat, (d + 1) as nat);
    vstd::arithmetic::power::lemma_pow_positive(3, (d + 1) as nat);
    vstd::arithmetic::power::lemma_pow_positive(3, prefix_digits(m, col - 1) as nat);
    assert((kb + 1) * pow(3, (d + 1) as nat) <= (kb + 1) * pow(3, prefix_digits(m, col) as nat))
        by (nonlinear_arith)
        requires
            kb >= 0 && pow(3, prefix_digits(m, col) as nat) == pow(
                3,
                prefix_digits(m, col - 1) as nat,
            ) * pow(3, (d + 1) as nat) && pow(3, (d + 1) as nat) >= 1 && pow(
                3,
                prefix_digits(m, col - 1) as nat,
            ) >= 1,
    ;
}

proof fn lemma_key3_loop_chain_rev(kb: int, kf: int, m: u64, col: int)
    requires
        0 <= col < 7,
        kb >= 0,
        kf >= 0,
        kf + 1 <= (kb + 1) * pow(3, (col_h(m, col, 0) + 1) as nat),
        (kb + 1) * pow(3, prefix_digits(m, col) as nat) <= 0x10000000000000000,
    ensures
        (kf + 1) * pow(3, prefix_digits(m, col - 1) as nat) <= 0x10000000000000000,
{
    let d = col_h(m, col, 0);
    lemma_col_h_bounds(m, col, 0);
    lemma_prefix_nonneg(m, col - 1);
    vstd::arithmetic::power::lemma_pow_adds(3, prefix_digits(m, col - 1) as nat, (d + 1) as nat);
    vstd::arithmetic::power::lemma_pow_positive(3, (d + 1) as nat);
    vstd::arithmetic::power::lemma_pow_positive(3, prefix_digits(m, col - 1) as nat);
    assert((kf + 1) * pow(3, prefix_digits(m, col - 1) as nat) <= (kb + 1) * pow(
        3,
        prefix_digits(m, col) as nat,
    )) by (nonlinear_arith)
        requires
            kf + 1 <= (kb + 1) * pow(3, (d + 1) as nat) && pow(3, prefix_digits(m, col) as nat)
                == pow(3, prefix_digits(m, col - 1) as nat) * pow(3, (d + 1) as nat) && pow(
                3,
                prefix_digits(m, col - 1) as nat,
            ) >= 1 && kf >= 0,
    ;
}

/// With a stone on the current row, tripling the running code cannot
/// overflow.
proof fn lemma_key3_digit_room(kb: int, m: u64, c: int, row: int)
    requires
        kb >= 0,
        0 <= row <= 6,
        nth(m, 7 * c + row),
        (kb + 1) * pow(3, (col_h(m, c, row) + 1) as nat) <= 0x10000000000000000,
    ensures
        3 * kb + 2 <= 0xFFFFFFFFFFFFFFFF,
{
    let d = col_h(m, c, row);
    lemma_col_h_bounds(m, c, row + 1);
    vstd::arithmetic::power::lemma_pow1(3);
    vstd::arithmetic::power::lemma_pow_adds(3, 1, 1);
    assert(pow(3, 2) == 9);
    vstd::arithmetic::power::lemma_pow_increases(3, 2, (d + 1) as nat);
    assert((kb + 1) * 9 <= (kb + 1) * pow(3, (d + 1) as nat)) by (nonlinear_arith)
        requires
            kb >= 0 && 9 <= pow(3, (d + 1) as nat),
    ;
}

/// One emitted digit keeps the room for the rest of the column.
proof fn lemma_key3_digit_chain(kb: int, kn: int, m: u64, c: int, row: int)
    requires
        kb >= 0,
        3 * kb + 1 <= kn <= 3 * kb + 2,
        0 <= row <= 6,
        nth(m, 7 * c + row),
        (kb + 1) * pow(3, (col_h(m, c, row) + 1) as nat) <= 0x10000000000000000,
    ensures
        (kn + 1) * pow(3, (col_h(m, c, row + 1) + 1) as nat) <= 0x10000000000000000,
{
    let d2 = col_h(m, c, row + 1);
    lemma_col_h_bounds(m, c, row + 1);
    vstd::arithmetic::power::lemma_pow1(3);
    vstd::arithmetic::power::lemma_pow_adds(3, 1, (d2 + 1) as nat);
    vstd::arithmetic::power::lemma_pow_positive(3, (d2 + 1) as nat);
    assert((kn + 1) * pow(3, (d2 + 1) as nat) <= (kb + 1) * pow(3, (d2 + 2) as nat))
        by (nonlinear_arith)
        requires
            kn + 1 <= 3 * (kb + 1) && pow(3, (d2 + 2) as nat) == 3 * pow(3, (d2 + 1) as nat) && pow(
                3,
                (d2 + 1) as nat,
            ) >= 1,
    ;
}

/// Three to the twenty-eighth, for the book-key bound.
proof fn lemma_pow3_28()
    ensures
        pow(3, 28) == 22876792454961,
{
    reveal_with_fuel(pow, 29);
}

/// The symmetry-folded ternary code of a book-depth position fits the
/// book table's forty-four bit key space.
pub proof fn lemma_key3_fits(p: Position)
    requires
        p.wf(),
        p.moves <= 21,
    ensures
        0 <= spec_key3(p) < 0x100000000000,
{
    let a = p.current_position;
    let m = p.mask;
    lemma_digits_total(m);
    lemma_digits_flip(m, 6);
    lemma_fwd_growth(0, a, m, 0);
    lemma_rev_growth(0, a, m, 6);
    lemma_pow3_28();
    lemma_rest_nonneg(m, 0);
    vstd::arithmetic::power::lemma_pow_increases(3, rest_digits(m, 0) as nat, 28);
}

/// A stored, validated opening book: a read-only lookup from the
/// symmetry-folded ternary key to an exact score byte, meaningful for
/// positions no deeper than its `depth`.
pub struct OpeningBook {
    pub table: BookTranspositionTable,
    pub depth: usize,
}

impl OpeningBook {
    /// A loaded book is sound when its table has the fixed shape, its
    /// depth keeps every looked-up ternary key inside the table's key
    /// space, and every stored byte encodes a score.
    pub open spec fn wf(&self) -> bool {
        &&& self.table.inv()
        &&& self.depth <= 21
        &&& forall|i: int| 0 <= i < self.table.values@.len() ==> self.table.values@[i] <= 37
    }

    /// Every byte the book stores decodes to the exact game-tree value
    /// of its position: the truthfulness the search assumes of a book,
    /// per the book's design as a table of exact scores.
    pub open spec fn exact(&self) -> bool {
        forall|q: Position|
            q.wf() && q.moves <= self.depth && #[trigger] self.table.gets(spec_key3(q) as u64)
                != 0 ==> self.table.gets(spec_key3(q) as u64) + MIN_SCORE - 1 == game_value(q)
    }

    /// The empty book: an all-zero value table and depth zero, so no
    /// lookup ever reports an entry.
    pub fn new() -> (r: Self)
        ensures
            r.wf(),
            r.depth == 0,
            forall|i: int| 0 <= i < r.table.values@.len() ==> r.table.values@[i] == 0,
            forall|k: u64| r.table.gets(k) == 0,
    {
        Self { table: BookTranspositionTable::new(), depth: 0 }
    }

    /// Assembles a book from its two loaded columns of bytes and the
    /// stored depth, rejecting data of the wrong size, a depth too
    /// large for the table's key space, and any byte that encodes no
    /// score.
    pub fn from_parts(depth: u8, keys: Vec<u8>, values: Vec<u8>) -> (r: Option<Self>)
        ensures
            r is Some <==> keys@.len() == BOOK_TABLE_SIZE && values@.len() == BOOK_TABLE_SIZE
                && depth <= 21 && (forall|i: int| 0 <= i < values@.len() ==> values@[i] <= 37),
            r is Some ==> r.unwrap().wf() && r.unwrap().depth == depth
                && r.unwrap().table.keys@ == keys@ && r.unwrap().table.values@ == values@,
    {
        if keys.len() != BOOK_TABLE_SIZE || values.len() != BOOK_TABLE_SIZE || depth > 21 {
            return None;
        }
        let mut i: usize = 0;
        while i < values.len()
            invariant
                values@.len() == BOOK_TABLE_SIZE,
                i <= values@.len(),
                forall|j: int| 0 <= j < i ==> values@[j] <= 37,
            decreases values@.len() - i,
        {
            if values[i] > 37 {
                return None;
            }
            i = i + 1;
        }
        Some(Self { table: BookTranspositionTable::create(keys, values), depth: depth as usize })
    }

    /// Assembles a book from the raw bytes of a book file: a six-byte
    /// header whose third byte is the stored search depth, then one
    /// byte of truncated key per table slot, then one byte of value
    /// per slot. Any other length, and any content `from_parts`
    /// rejects, fails the load.
    pub fn from_bytes(bytes: Vec<u8>) -> (r: Option<Self>)
        ensures
            r is Some <==> bytes@.len() == 6 + 2 * BOOK_TABLE_SIZE && bytes@[2] <= 21 && (forall|
                i: int,
            |
                6 + BOOK_TABLE_SIZE <= i < 6 + 2 * BOOK_TABLE_SIZE ==> bytes@[i] <= 37),
            r is Some ==> r.unwrap().wf() && r.unwrap().depth == bytes@[2]
                && r.unwrap().table.keys@ == bytes@.subrange(6, 6 + BOOK_TABLE_SIZE as int)
                && r.unwrap().table.values@ == bytes@.subrange(
                6 + BOOK_TABLE_SIZE as int,
                6 + 2 * BOOK_TABLE_SIZE as int,
            ),
    {
        if bytes.len() != 6 + 2 * BOOK_TABLE_SIZE {
            return None;
        }
        let depth = bytes[2];
        let mut keys: Vec<u8> = Vec::new();
        let mut i: usize = 0;
        while i < BOOK_TABLE_SIZE
            invariant
                bytes@.len() == 6 + 2 * BOOK_TABLE_SIZE,
                i <= BOOK_TABLE_SIZE,
                keys@.len() == i,
                forall|j: int| 0 <= j < i ==> keys@[j] == bytes@[6 + j],
            decreases BOOK_TABLE_SIZE - i,
        {
            keys.push(bytes[6 + i]);
            i = i + 1;
        }
        let mut values: Vec<u8> = Vec::new();
        let mut j: usize = 0;
        while j < BOOK_TABLE_SIZE
            invariant
                bytes@.len() == 6 + 2 * BOOK_TABLE_SIZE,
                j <= BOOK_TABLE_SIZE,
                values@.len() == j,
                forall|t: int| 0 <= t < j ==> values@[t] == bytes@[6 + BOOK_TABLE_SIZE + t],
            decreases BOOK_TABLE_SIZE - j,
        {
            values.push(bytes[6 + BOOK_TABLE_SIZE + j]);
            j = j + 1;
        }
        proof {
            assert(keys@ =~= bytes@.subrange(6, 6 + BOOK_TABLE_SIZE as int));
            assert(values@ =~= bytes@.subrange(
                6 + BOOK_TABLE_SIZE as int,
                6 + 2 * BOOK_TABLE_SIZE as int,
            ));
            assert forall|i: int|
                6 + BOOK_TABLE_SIZE <= i < 6 + 2 * BOOK_TABLE_SIZE implies #[trigger] bytes@[i]
                == values@[i - 6 - BOOK_TABLE_SIZE] by {
                assert(values@[i - 6 - BOOK_TABLE_SIZE] == bytes@[6 + BOOK_TABLE_SIZE + (i - 6
                    - BOOK_TABLE_SIZE)]);
            }
        }
        Self::from_parts(depth, keys, values)
    }

    /// Looks a position up: nothing for positions past the book's
    /// depth or without an entry, otherwise the stored score byte.
    pub fn get(&self, pos: &Position) -> (r: Option<u8>)
        requires
            self.wf(),
            pos.wf(),
        ensures
            r is Some ==> pos.moves <= self.depth && 1 <= r.unwrap() <= 37 && r.unwrap()
                == self.table.gets(spec_key3(*pos) as u64),
            r is None ==> pos.moves > self.depth || self.table.gets(spec_key3(*pos) as u64) == 0,
    {
        if pos.moves > self.depth {
            None
        } else {
            proof {
                lemma_key3_fits(*pos);
            }
            let n = self.table.get(pos.key3());
            if n == 0 {
                None
            } else {
                Some(n)
            }
        }
    }
}

/// A well-formed position's key stays below two to the forty-ninth.
pub proof fn lemma_key_bound(p: Position)
    requires
        p.wf(),
    ensures
        p.current_position + p.mask < 0x2000000000000,
{
    lemma_key_fits(p.current_position, p.mask);
}

/// A well-formed board holds at most forty-two stones.
pub proof fn lemma_moves_bounded(p: Position)
    requires
        p.wf(),
    ensures
        p.moves <= 42,
{
    lemma_popcnt_board();
    lemma_popcnt_subset(p.mask, BOARD_MASK);
}

/// A set of playable cells meets a column in exactly its drop bit:
/// nonempty whenever the set keeps the column's drop and the column
/// has room.
pub proof fn lemma_column_move_exact(m: u64, nx: u64, c: u64)
    by (bit_vector)
    requires
        c < 7,
        m & BOARD_MASK == m,
        m & ((m + BOTTOM_MASK) as u64) == 0,
        nx & possible_bits(m) == nx,
    ensures
        nx & col_mask(c) != 0 ==> nx & col_mask(c) == drop_bit_raw(m, c) && !((m >> ((7 * c
            + 5) as u64)) & 1u64 == 1),
        drop_bit_raw(m, c) & nx == drop_bit_raw(m, c) && !((m >> ((7 * c + 5) as u64)) & 1u64
            == 1) ==> nx & col_mask(c) == drop_bit_raw(m, c) && drop_bit_raw(m, c) != 0,
{
}

/// Cutting a set of playable cells down to one column leaves at most
/// one cell: a column has only one cell to drop on.
pub proof fn lemma_column_move(m: u64, nx: u64, c: u64)
    by (bit_vector)
    requires
        c < 7,
        m & BOARD_MASK == m,
        m & ((m + BOTTOM_MASK) as u64) == 0,
        nx & possible_bits(m) == nx,
        nx & col_mask(c) != 0,
    ensures
        (nx & col_mask(c)) & (((nx & col_mask(c)) - 1) as u64) == 0,
        (nx & col_mask(c)) & possible_bits(m) == (nx & col_mask(c)),
        (nx & col_mask(c)) & nx == (nx & col_mask(c)),
{
}

/// One cell of the win formula, read bit by bit: the formula marks a
/// free board cell exactly when the unrolled window catalogue says a
/// stone there would complete a line of four.
#[verifier::rlimit(100)]
proof fn lemma_win_bit(a: u64, m: u64, c: u64, r: u64)
    by (bit_vector)
    requires
        c < 7,
        r < 6,
        m & BOARD_MASK == m,
        m & ((m + BOTTOM_MASK) as u64) == 0,
        a & m == a,
    ensures
        nthu(winning_cells(a, m), ((7 * c + r)) as u64) == (!nthu(m, ((7 * c + r)) as u64)
            && completes_unrolled(a, c, r)),
{
}

/// One cell of the playable-cell formula, read bit by bit: it marks
/// exactly each column's lowest free cell.
proof fn lemma_possible_bit(m: u64, c: u64, r: u64)
    by (bit_vector)
    requires
        c < 7,
        r < 6,
        m & BOARD_MASK == m,
        m & ((m + BOTTOM_MASK) as u64) == 0,
    ensures
        nthu(possible_bits(m), ((7 * c + r)) as u64) == (!nthu(m, ((7 * c + r)) as u64) && (r == 0
            || nthu(m, ((7 * c + r - 1)) as u64))),
{
}

/// Bits of a board word name board cells.
proof fn lemma_board_bit(x: u64, i: u64)
    by (bit_vector)
    requires
        i < 64,
        x & BOARD_MASK == x,
    ensures
        (x >> i) & 1u64 == 1 ==> i < 49 && i % 7 < 6,
{
}

/// A stone test over words agrees with the cell-level one.
proof fn lemma_atom_cast(a: u64, x: int, y: int)
    requires
        0 <= x <= 14,
        0 <= y <= 14,
    ensures
        stone(a, x, y) == cellbit(a, x as u64, y as u64),
{
    assert(x as u64 == x && y as u64 == y);
}

/// Adding the new stone changes exactly one cell.
proof fn lemma_with_stone_cell(a: u64, c: int, r: int, x: int, y: int)
    requires
        in_board(c, r),
        -8 <= x <= 14,
        -8 <= y <= 14,
    ensures
        stone(with_stone(a, c, r), x, y) == (stone(a, x, y) || (x == c && y == r)),
{
    if in_board(x, y) {
        lemma_one_bit(a, (7 * c + r) as u64, (7 * x + y) as u64);
        assert((7 * x + y == 7 * c + r) == (x == c && y == r));
    }
}

/// The window catalogue follows from the quantified reading.
#[verifier::rlimit(100)]
proof fn lemma_completes_to_unrolled(a: u64, c: int, r: int)
    requires
        in_board(c, r),
        completes(a, c, r),
    ensures
        completes_unrolled(a, c as u64, r as u64),
{
    let w = with_stone(a, c, r);
    assert forall|x: int, y: int| -8 <= x <= 14 && -8 <= y <= 14 implies (#[trigger] stone(w, x, y))
        == (stone(a, x, y) || (x == c && y == r)) by {
        lemma_with_stone_cell(a, c, r, x, y);
    }
    assert forall|x: int, y: int| 0 <= x <= 14 && 0 <= y <= 14 implies (#[trigger] stone(a, x, y))
        == cellbit(a, x as u64, y as u64) by {
        lemma_atom_cast(a, x, y);
    }
    assert(stone(w, c, r)) by {
        lemma_with_stone_cell(a, c, r, c, r);
    }
        let (dc, dr, j) = choose|dc: int, dr: int, j: int| window_completes(a, c, r, dc, dr, j);
        assert(window_completes(a, c, r, dc, dr, j));
        assert(four_line(w, c - j * dc, r - j * dr, dc, dr));
        assert(stone(w, c - j * dc, r - j * dr));
        assert(stone(w, c - j * dc + dc, r - j * dr + dr));
        assert(stone(w, c - j * dc + 2 * dc, r - j * dr + 2 * dr));
        assert(stone(w, c - j * dc + 3 * dc, r - j * dr + 3 * dr));
        assert(completes_unrolled(a, c as u64, r as u64));
}

/// The quantified reading follows from the window catalogue.
#[verifier::rlimit(100)]
proof fn lemma_unrolled_to_completes(a: u64, c: int, r: int)
    requires
        in_board(c, r),
        completes_unrolled(a, c as u64, r as u64),
    ensures
        completes(a, c, r),
{
    let w = with_stone(a, c, r);
    assert forall|x: int, y: int| -8 <= x <= 14 && -8 <= y <= 14 implies (#[trigger] stone(w, x, y))
        == (stone(a, x, y) || (x == c && y == r)) by {
        lemma_with_stone_cell(a, c, r, x, y);
    }
    assert forall|x: int, y: int| 0 <= x <= 14 && 0 <= y <= 14 implies (#[trigger] stone(a, x, y))
        == cellbit(a, x as u64, y as u64) by {
        lemma_atom_cast(a, x, y);
    }
    assert(stone(w, c, r)) by {
        lemma_with_stone_cell(a, c, r, c, r);
    }
        assert forall|x: int, y: int|
            -8 <= x <= 14 && -8 <= y <= 14 && stone(a, x, y) implies stone(w, x, y) by {
            lemma_with_stone_cell(a, c, r, x, y);
        }
        if cellbit(a, c as u64, (r + 1) as u64) && cellbit(a, c as u64, (r + 2) as u64) && cellbit(a, c as u64, (r + 3) as u64) {
            assert(four_line(w, c, r, 0, 1));
            assert(window_completes(a, c, r, 0, 1, 0));
        } else if r >= 1 && cellbit(a, c as u64, (r - 1) as u64) && cellbit(a, c as u64, (r + 1) as u64) && cellbit(a, c as u64, (r + 2) as u64) {
            assert(four_line(w, c, r - 1, 0, 1));
            assert(window_completes(a, c, r, 0, 1, 1));
        } else if r >= 2 && cellbit(a, c as u64, (r - 2) as u64) && cellbit(a, c as u64, (r - 1) as u64) && cellbit(a, c as u64, (r + 1) as u64) {
            assert(four_line(w, c, r - 2, 0, 1));
            assert(window_completes(a, c, r, 0, 1, 2));
        } else if r >= 3 && cellbit(a, c as u64, (r - 3) as u64) && cellbit(a, c as u64, (r - 2) as u64) && cellbit(a, c as u64, (r - 1) as u64) {
            assert(four_line(w, c, r - 3, 0, 1));
            assert(window_completes(a, c, r, 0, 1, 3));
        } else if cellbit(a, (c + 1) as u64, r as u64) && cellbit(a, (c + 2) as u64, r as u64) && cellbit(a, (c + 3) as u64, r as u64) {
            assert(four_line(w, c, r, 1, 0));
            assert(window_completes(a, c, r, 1, 0, 0));
        } else if c >= 1 && cellbit(a, (c - 1) as u64, r as u64) && cellbit(a, (c + 1) as u64, r as u64) && cellbit(a, (c + 2) as u64, r as u64) {
            assert(four_line(w, c - 1, r, 1, 0));
            assert(window_completes(a, c, r, 1, 0, 1));
        } else if c >= 2 && cellbit(a, (c - 2) as u64, r as u64) && cellbit(a, (c - 1) as u64, r as u64) && cellbit(a, (c + 1) as u64, r as u64) {
            assert(four_line(w, c - 2, r, 1, 0));
            assert(window_completes(a, c, r, 1, 0, 2));
        } else if c >= 3 && cellbit(a, (c - 3) as u64, r as u64) && cellbit(a, (c - 2) as u64, r as u64) && cellbit(a, (c - 1) as u64, r as u64) {
            assert(four_line(w, c - 3, r, 1, 0));
            assert(window_completes(a, c, r, 1, 0, 3));
        } else if cellbit(a, (c + 1) as u64, (r + 1) as u64) && cellbit(a, (c + 2) as u64, (r + 2) as u64) && cellbit(a, (c + 3) as u64, (r + 3) as u64) {
            assert(four_line(w, c, r, 1, 1));
            assert(window_completes(a, c, r, 1, 1, 0));
        } else if c >= 1 && r >= 1 && cellbit(a, (c - 1) as u64, (r - 1) as u64) && cellbit(a, (c + 1) as u64, (r + 1) as u64) && cellbit(a, (c + 2) as u64, (r + 2) as u64) {
            assert(four_line(w, c - 1, r - 1, 1, 1));
            assert(window_completes(a, c, r, 1, 1, 1));
        } else if c >= 2 && r >= 2 && cellbit(a, (c - 2) as u64, (r - 2) as u64) && cellbit(a, (c - 1) as u64, (r - 1) as u64) && cellbit(a, (c + 1) as u64, (r + 1) as u64) {
            assert(four_line(w, c - 2, r - 2, 1, 1));
            assert(window_completes(a, c, r, 1, 1, 2));
        } else if c >= 3 && r >= 3 && cellbit(a, (c - 3) as u64, (r - 3) as u64) && cellbit(a, (c - 2) as u64, (r - 2) as u64) && cellbit(a, (c - 1) as u64, (r - 1) as u64) {
            assert(four_line(w, c - 3, r - 3, 1, 1));
            assert(window_completes(a, c, r, 1, 1, 3));
        } else if r >= 3 && cellbit(a, (c + 1) as u64, (r - 1) as u64) && cellbit(a, (c + 2) as u64, (r - 2) as u64) && cellbit(a, (c + 3) as u64, (r - 3) as u64) {
            assert(four_line(w, c, r, 1, -1));
            assert(window_completes(a, c, r, 1, -1, 0));
        } else if c >= 1 && r >= 2 && cellbit(a, (c - 1) as u64, (r + 1) as u64) && cellbit(a, (c + 1) as u64, (r - 1) as u64) && cellbit(a, (c + 2) as u64, (r - 2) as u64) {
            assert(four_line(w, c - 1, r + 1, 1, -1));
            assert(window_completes(a, c, r, 1, -1, 1));
        } else if c >= 2 && r >= 1 && cellbit(a, (c - 2) as u64, (r + 2) as u64) && cellbit(a, (c - 1) as u64, (r + 1) as u64) && cellbit(a, (c + 1) as u64, (r - 1) as u64) {
            assert(four_line(w, c - 2, r + 2, 1, -1));
            assert(window_completes(a, c, r, 1, -1, 2));
        } else if c >= 3 && cellbit(a, (c - 3) as u64, (r + 3) as u64) && cellbit(a, (c - 2) as u64, (r + 2) as u64) && cellbit(a, (c - 1) as u64, (r + 1) as u64) {
            assert(four_line(w, c - 3, r + 3, 1, -1));
            assert(window_completes(a, c, r, 1, -1, 3));
        } else {
            assert(false);
        }
}

/// The window catalogue and the quantified reading of `completes`
/// agree on board cells.
proof fn lemma_completes_unrolled_iff(a: u64, c: int, r: int)
    requires
        in_board(c, r),
    ensures
        completes(a, c, r) == completes_unrolled(a, c as u64, r as u64),
{
    if completes(a, c, r) {
        lemma_completes_to_unrolled(a, c, r);
    }
    if completes_unrolled(a, c as u64, r as u64) {
        lemma_unrolled_to_completes(a, c, r);
    }
}

/// Both bit sets the win test intersects lie on the board.
proof fn lemma_win_possible_board(a: u64, m: u64)
    by (bit_vector)
    requires
        m & BOARD_MASK == m,
    ensures
        winning_cells(a, m) & BOARD_MASK == winning_cells(a, m),
        possible_bits(m) & BOARD_MASK == possible_bits(m),
{
}

/// The law of the win test: the side to move has an immediately
/// winning drop exactly when some column's landing cell completes a
/// line of four for its stones.
pub proof fn lemma_has_winning_move_semantics(p: Position)
    requires
        p.wf(),
    ensures
        p.has_win_now() <==> exists|c: int, r: int|
            is_drop_cell(p.mask, c, r) && completes(p.current_position, c, r),
{
    let a = p.current_position;
    let m = p.mask;
    let w = winning_cells(a, m);
    let pb = possible_bits(m);
    if w & pb != 0 {
        lemma_bit_witness(w & pb);
        let i = choose|i: int| 0 <= i < 64 && #[trigger] nth(w & pb, i);
        lemma_bit_ops(w, pb, i as u64);
        lemma_win_possible_board(a, m);
        lemma_board_bit(w, i as u64);
        let c = i / 7;
        let r = i % 7;
        assert(i == 7 * c + r && 0 <= c < 7 && 0 <= r < 6);
        lemma_win_bit(a, m, c as u64, r as u64);
        lemma_possible_bit(m, c as u64, r as u64);
        lemma_completes_unrolled_iff(a, c, r);
        assert(is_drop_cell(m, c, r) && completes(a, c, r));
    }
    if exists|c: int, r: int| #[trigger] is_drop_cell(m, c, r) && completes(a, c, r) {
        let (c, r) = choose|c: int, r: int| is_drop_cell(m, c, r) && completes(a, c, r);
        lemma_win_bit(a, m, c as u64, r as u64);
        lemma_possible_bit(m, c as u64, r as u64);
        lemma_completes_unrolled_iff(a, c, r);
        lemma_bit_ops(w, pb, (7 * c + r) as u64);
        assert(w & pb != 0);
    }
}

/// Which bits a column mask covers.
proof fn lemma_colmask_bit(c: u64, i: u64)
    by (bit_vector)
    requires
        c < 7,
        i < 64,
    ensures
        ((col_mask(c) >> i) & 1u64 == 1) == (7 * c <= i < 7 * c + 6),
{
}

/// The law of the per-column win test: dropping into `col` wins at
/// once exactly when the column's landing cell completes a line of
/// four for the side to move.
pub proof fn lemma_is_winning_move_semantics(p: Position, col: int)
    requires
        p.wf(),
        0 <= col < 7,
    ensures
        (p.winning_bits() & possible_bits(p.mask) & col_mask(col as u64) != 0) <==> exists|r: int|
            is_drop_cell(p.mask, col, r) && completes(p.current_position, col, r),
{
    let a = p.current_position;
    let m = p.mask;
    let w = winning_cells(a, m);
    let pb = possible_bits(m);
    let cm = col_mask(col as u64);
    if w & pb & cm != 0 {
        lemma_bit_witness(w & pb & cm);
        let i = choose|i: int| 0 <= i < 64 && #[trigger] nth(w & pb & cm, i);
        lemma_bit_ops(w & pb, cm, i as u64);
        lemma_bit_ops(w, pb, i as u64);
        lemma_colmask_bit(col as u64, i as u64);
        let r = i - 7 * col;
        assert(0 <= r < 6);
        lemma_win_bit(a, m, col as u64, r as u64);
        lemma_possible_bit(m, col as u64, r as u64);
        lemma_completes_unrolled_iff(a, col, r);
        assert(is_drop_cell(m, col, r) && completes(a, col, r));
    }
    if exists|r: int| #[trigger] is_drop_cell(m, col, r) && completes(a, col, r) {
        let r = choose|r: int| #[trigger] is_drop_cell(m, col, r) && completes(a, col, r);
        lemma_win_bit(a, m, col as u64, r as u64);
        lemma_possible_bit(m, col as u64, r as u64);
        lemma_completes_unrolled_iff(a, col, r);
        lemma_colmask_bit(col as u64, (7 * col + r) as u64);
        lemma_bit_ops(w, pb, (7 * col + r) as u64);
        lemma_bit_ops(w & pb, cm, (7 * col + r) as u64);
        assert(w & pb & cm != 0);
    }
}

/// The game-theoretic score of the position for the side to move,
/// defined by the game tree itself: the fastest-win score when a drop
/// wins at once, zero when the board has filled up, and otherwise the
/// best negated score among the reply positions.
pub open spec fn game_value(p: Position) -> int
    decreases 42 - p.moves, 8int,
{
    if p.has_win_now() {
        (43 - p.moves as int) / 2
    } else if p.moves >= 42 {
        0
    } else {
        best_reply(p, 0)
    }
}

/// The best negated score among the reply positions of the columns
/// from `c` rightward; far below any score when none is playable.
pub open spec fn best_reply(p: Position, c: int) -> int
    decreases 42 - p.moves, 7 - c,
{
    if p.moves >= 42 || c < 0 || c >= 7 {
        -100
    } else if p.playable(c) {
        let v = -game_value(p.spec_next(c));
        let rest = best_reply(p, c + 1);
        if v >= rest {
            v
        } else {
            rest
        }
    } else {
        best_reply(p, c + 1)
    }
}

/// A full board plays nothing, and nothing intersects an empty set.
proof fn lemma_full_board(y: u64)
    by (bit_vector)
    ensures
        possible_bits(BOARD_MASK) == 0,
        y & 0u64 == 0,
{
}

/// A board short of full has a free cell; free cells lie on the board
/// and are free on the board word.
proof fn lemma_free_cells(m: u64, i: u64)
    by (bit_vector)
    requires
        i < 64,
        m & BOARD_MASK == m,
    ensures
        m != BOARD_MASK ==> (BOARD_MASK & !m) != 0,
        (BOARD_MASK & !m) & BOARD_MASK == (BOARD_MASK & !m),
        ((BOARD_MASK & !m) >> i) & 1u64 == 1 ==> !((m >> i) & 1u64 == 1),
{
}

/// Above a free cell the whole column is free, its top included.
proof fn lemma_open_column_bits(m: u64, c: u64, r: u64)
    by (bit_vector)
    requires
        m & BOARD_MASK == m,
        m & ((m + BOTTOM_MASK) as u64) == 0,
        c < 7,
        r < 6,
        !((m >> ((7 * c + r) as u64)) & 1u64 == 1),
    ensures
        !((m >> ((7 * c + 5) as u64)) & 1u64 == 1),
{
}

/// Some column of a board short of full still has room.
proof fn lemma_playable_exists(p: Position)
    requires
        p.wf(),
        p.moves < 42,
    ensures
        exists|c: int| 0 <= c < 7 && p.playable(c),
{
    let m = p.mask;
    lemma_popcnt_board();
    lemma_popcnt_subset(m, BOARD_MASK);
    assert(m != BOARD_MASK);
    lemma_free_cells(m, 0);
    let z = BOARD_MASK & !m;
    lemma_bit_witness(z);
    let i = choose|i: int| 0 <= i < 64 && #[trigger] nth(z, i);
    lemma_board_bit(z, i as u64);
    lemma_free_cells(m, i as u64);
    let c = i / 7;
    let r = i % 7;
    assert(i == 7 * c + r && 0 <= c < 7 && 0 <= r < 6);
    lemma_open_column_bits(m, c as u64, r as u64);
    assert(p.playable(c));
}

/// A single playable stone is exactly its column's drop bit.
proof fn lemma_bit_is_drop(m: u64, mv: u64, c: u64, r: u64)
    by (bit_vector)
    requires
        m & BOARD_MASK == m,
        m & ((m + BOTTOM_MASK) as u64) == 0,
        mv != 0,
        mv & ((mv - 1) as u64) == 0,
        mv & possible_bits(m) == mv,
        c < 7,
        r < 6,
        (mv >> ((7 * c + r) as u64)) & 1u64 == 1,
    ensures
        drop_bit_raw(m, c) == mv,
        !((m >> ((7 * c + 5) as u64)) & 1u64 == 1),
{
}

/// When the non-losing move formula is empty, every playable drop
/// hands the opponent an immediate winning reply.
#[verifier::rlimit(100)]
proof fn lemma_pnl_zero_loses(a: u64, m: u64, mv: u64)
    by (bit_vector)
    requires
        m & BOARD_MASK == m,
        m & ((m + BOTTOM_MASK) as u64) == 0,
        a & m == a,
        pnl_raw(a, m) == 0,
        mv != 0,
        mv & ((mv - 1) as u64) == 0,
        mv & possible_bits(m) == mv,
    ensures
        winning_cells(m ^ a, m | mv) & possible_bits(m | mv) != 0,
{
}

/// The replies from column `c` rightward are no better than a bound
/// that every playable column respects.
proof fn lemma_best_reply_le(p: Position, c0: int, b: int)
    requires
        p.moves < 42,
        -100 <= b,
        forall|c: int|
            c0 <= c < 7 && p.playable(c) ==> -game_value(#[trigger] p.spec_next(c)) <= b,
    ensures
        best_reply(p, c0) <= b,
    decreases 7 - c0,
{
    if 0 <= c0 < 7 {
        lemma_best_reply_le(p, c0 + 1, b);
    }
}

/// The replies from column `c0` rightward reach any playable column's
/// negated score.
proof fn lemma_best_reply_ge(p: Position, c0: int, cw: int)
    requires
        p.moves < 42,
        0 <= c0 <= cw < 7,
        p.playable(cw),
    ensures
        best_reply(p, c0) >= -game_value(p.spec_next(cw)),
    decreases cw - c0,
{
    if c0 < cw {
        lemma_best_reply_ge(p, c0 + 1, cw);
    }
}

/// The law of the blocked node: when no move avoids an immediate
/// winning reply, the position's value is the forced-loss score the
/// search returns there.
pub proof fn lemma_no_defense_value(p: Position)
    requires
        p.wf(),
        !p.has_win_now(),
        p.spec_pnl() == 0,
    ensures
        game_value(p) == -((42 - p.moves as int) / 2),
{
    lemma_moves_bounded(p);
    if p.moves < 42 {
        assert forall|c: int| 0 <= c < 7 && p.playable(c) implies -game_value(
            #[trigger] p.spec_next(c),
        ) == -((42 - p.moves as int) / 2) by {
            lemma_next_wf(p, c);
            lemma_pnl_zero_loses(p.current_position, p.mask, drop_bit_raw(p.mask, c as u64));
            assert(p.spec_next(c).has_win_now());
        }
        lemma_playable_exists(p);
        let cw = choose|c: int| 0 <= c < 7 && p.playable(c);
        lemma_best_reply_le(p, 0, -((42 - p.moves as int) / 2));
        lemma_best_reply_ge(p, 0, cw);
    }
}

/// The value of a reply position one ply short of a full board: the
/// fastest-win score when its mover can win at once, zero otherwise.
proof fn lemma_last_reply_value(q: Position)
    requires
        q.wf(),
        q.moves == 41,
    ensures
        q.has_win_now() ==> game_value(q) == 1,
        !q.has_win_now() ==> game_value(q) == 0,
{
    if !q.has_win_now() {
        assert forall|c: int| 0 <= c < 7 && q.playable(c) implies -game_value(
            #[trigger] q.spec_next(c),
        ) == 0 by {
            lemma_next_wf(q, c);
            let g = q.spec_next(c);
            lemma_popcnt_board();
            lemma_popcnt_subset(g.mask, BOARD_MASK);
            assert(g.mask == BOARD_MASK);
            lemma_full_board(winning_cells(g.current_position, g.mask));
            assert(!g.has_win_now());
        }
        lemma_playable_exists(q);
        let cw = choose|c: int| 0 <= c < 7 && q.playable(c);
        lemma_best_reply_le(q, 0, 0);
        lemma_best_reply_ge(q, 0, cw);
    }
}

/// A nonzero non-losing move formula names a playable column whose
/// drop leaves the opponent without an immediate winning reply.
proof fn lemma_pnl_column_witness(p: Position)
    requires
        p.wf(),
        p.spec_pnl() != 0,
    ensures
        exists|c: int|
            0 <= c < 7 && p.playable(c) && kept_move(p, c) && !(
            #[trigger] p.spec_next(c)).has_win_now(),
{
    lemma_pnl_props(p.current_position, p.mask);
    lemma_bit_witness(p.spec_pnl());
    let i = choose|i: int| 0 <= i < 64 && #[trigger] nth(p.spec_pnl(), i);
    lemma_bit_ops(p.spec_pnl(), possible_bits(p.mask), i as u64);
    lemma_win_possible_board(p.current_position, p.mask);
    lemma_board_bit(possible_bits(p.mask), i as u64);
    let c = i / 7;
    let r = i % 7;
    assert(i == 7 * c + r && 0 <= c < 7 && 0 <= r < 6);
    let mv = drop_bit_raw(p.mask, c as u64);
    lemma_pnl_one_column(p.current_position, p.mask, i as u64);
    lemma_one_bit(p.mask, i as u64, i as u64);
    lemma_bit_is_drop(p.mask, 1u64 << (i as u64), c as u64, r as u64);
    assert(p.playable(c));
    lemma_pnl_safe(p.current_position, p.mask, mv);
    assert(!p.spec_next(c).has_win_now());
    assert(kept_move(p, c));
}

/// The law of the draw ply: two stones short of a full board, with no
/// immediate win but some non-losing move, the position's value is the
/// draw the search returns there.
pub proof fn lemma_draw_ply_value(p: Position)
    requires
        p.wf(),
        !p.has_win_now(),
        p.spec_pnl() != 0,
        p.moves == 40,
    ensures
        game_value(p) == 0,
{
    assert forall|c: int| 0 <= c < 7 && p.playable(c) implies -game_value(
        #[trigger] p.spec_next(c),
    ) <= 0 by {
        lemma_next_wf(p, c);
        lemma_last_reply_value(p.spec_next(c));
    }
    lemma_pnl_column_witness(p);
    let c = choose|c: int|
        0 <= c < 7 && p.playable(c) && kept_move(p, c) && !(
        #[trigger] p.spec_next(c)).has_win_now();
    lemma_next_wf(p, c);
    lemma_last_reply_value(p.spec_next(c));
    lemma_best_reply_le(p, 0, 0);
    lemma_best_reply_ge(p, 0, c);
}

/// The scores the game tree can produce stay within the board's range:
/// never better than winning with the next stone, never worse than
/// losing to the opponent's next stone, and without an immediate win
/// never better than winning two stones from now.
pub proof fn lemma_game_value_bounds(p: Position)
    requires
        p.wf(),
    ensures
        -((42 - p.moves as int) / 2) <= game_value(p) <= (43 - p.moves as int) / 2,
        !p.has_win_now() ==> game_value(p) <= half_toward_zero(41 - p.moves as int),
    decreases 42 - p.moves,
{
    lemma_moves_bounded(p);
    if !p.has_win_now() && p.moves < 42 {
        assert forall|c: int| 0 <= c < 7 && p.playable(c) implies -game_value(
            #[trigger] p.spec_next(c),
        ) <= (41 - p.moves as int) / 2 by {
            lemma_next_wf(p, c);
            lemma_game_value_bounds(p.spec_next(c));
        }
        lemma_best_reply_le(p, 0, (41 - p.moves as int) / 2);
        lemma_playable_exists(p);
        let cw = choose|c: int| 0 <= c < 7 && p.playable(c);
        lemma_next_wf(p, cw);
        lemma_game_value_bounds(p.spec_next(cw));
        lemma_best_reply_ge(p, 0, cw);
    }
}

/// The law of the window floor: with some non-losing move in hand the
/// side to move cannot end worse than losing to the opponent's second
/// stone from now, the clip the search applies to its window.
pub proof fn lemma_non_losing_floor(p: Position)
    requires
        p.wf(),
        !p.has_win_now(),
        p.spec_pnl() != 0,
    ensures
        game_value(p) >= half_toward_zero(p.moves as int - 40),
{
    lemma_moves_bounded(p);
    lemma_pnl_props(p.current_position, p.mask);
    if p.moves == 42 {
        lemma_popcnt_board();
        lemma_popcnt_subset(p.mask, BOARD_MASK);
        assert(p.mask == BOARD_MASK);
        assert(false);
    }
    lemma_pnl_column_witness(p);
    let c = choose|c: int|
        0 <= c < 7 && p.playable(c) && kept_move(p, c) && !(
        #[trigger] p.spec_next(c)).has_win_now();
    lemma_next_wf(p, c);
    if p.moves == 41 {
        let g = p.spec_next(c);
        lemma_popcnt_board();
        lemma_popcnt_subset(g.mask, BOARD_MASK);
        assert(g.mask == BOARD_MASK);
        lemma_full_board(winning_cells(g.current_position, g.mask));
        assert(game_value(g) == 0);
    } else {
        lemma_game_value_bounds(p.spec_next(c));
    }
    lemma_best_reply_ge(p, 0, c);
}

/// A set bit of the non-losing move formula is a playable single
/// stone that the formula admits.
proof fn lemma_pnl_one_column(a: u64, m: u64, i: u64)
    by (bit_vector)
    requires
        m & BOARD_MASK == m,
        m & ((m + BOTTOM_MASK) as u64) == 0,
        a & m == a,
        i < 64,
        (pnl_raw(a, m) >> i) & 1u64 == 1,
    ensures
        (1u64 << i) != 0,
        (1u64 << i) & (((1u64 << i) - 1) as u64) == 0,
        (1u64 << i) & possible_bits(m) == (1u64 << i),
        (1u64 << i) & pnl_raw(a, m) == (1u64 << i),
{
}

/// The non-losing move formula keeps this column's drop.
pub open spec fn kept_move(p: Position, c: int) -> bool {
    drop_bit_raw(p.mask, c as u64) & p.spec_pnl() == drop_bit_raw(p.mask, c as u64)
}

/// The best negated score among the reply positions the non-losing
/// move formula keeps, from column `c` rightward.
pub open spec fn best_kept_reply(p: Position, c: int) -> int
    decreases 42 - p.moves, 7 - c,
{
    if p.moves >= 42 || c < 0 || c >= 7 {
        -100
    } else if p.playable(c) && kept_move(p, c) {
        let v = -game_value(p.spec_next(c));
        let rest = best_kept_reply(p, c + 1);
        if v >= rest {
            v
        } else {
            rest
        }
    } else {
        best_kept_reply(p, c + 1)
    }
}

/// The kept replies reach any kept playable column's negated score.
pub proof fn lemma_best_kept_ge(p: Position, c0: int, cw: int)
    requires
        p.moves < 42,
        0 <= c0 <= cw < 7,
        p.playable(cw),
        kept_move(p, cw),
    ensures
        best_kept_reply(p, c0) >= -game_value(p.spec_next(cw)),
    decreases cw - c0,
{
    if c0 < cw {
        lemma_best_kept_ge(p, c0 + 1, cw);
    }
}

/// The kept replies are no better than a bound every kept playable
/// column respects.
pub proof fn lemma_best_kept_le(p: Position, c0: int, b: int)
    requires
        p.moves < 42,
        -100 <= b,
        forall|c: int|
            c0 <= c < 7 && p.playable(c) && kept_move(p, c) ==> -game_value(
                #[trigger] p.spec_next(c),
            ) <= b,
    ensures
        best_kept_reply(p, c0) <= b,
    decreases 7 - c0,
{
    if 0 <= c0 < 7 {
        lemma_best_kept_le(p, c0 + 1, b);
    } else if c0 < 0 {
        lemma_best_kept_le(p, 0, b);
    }
}

/// All replies stay at or below the whole kept best, once every
/// discarded playable column's reply is at or below it.
proof fn lemma_best_reply_within(p: Position, c0: int, b: int)
    requires
        p.moves < 42,
        0 <= c0 <= 7,
        b >= -100,
        best_kept_reply(p, 0) <= b,
        forall|c: int|
            0 <= c < 7 && p.playable(c) && !kept_move(p, c) ==> -game_value(
                #[trigger] p.spec_next(c),
            ) <= b,
        forall|c: int|
            0 <= c < 7 && p.playable(c) && kept_move(p, c) ==> -game_value(
                #[trigger] p.spec_next(c),
            ) <= b,
    ensures
        best_reply(p, c0) <= b,
    decreases 7 - c0,
{
    if c0 < 7 {
        lemma_best_reply_within(p, c0 + 1, b);
    }
}

/// The law of the pruning: whenever the non-losing move formula keeps
/// anything, the moves it discards are strictly worse, so the game
/// value is reached within the kept moves alone.
pub proof fn lemma_pnl_keeps_value(p: Position)
    requires
        p.wf(),
        !p.has_win_now(),
        p.spec_pnl() != 0,
    ensures
        game_value(p) == best_kept_reply(p, 0),
{
    lemma_moves_bounded(p);
    lemma_pnl_props(p.current_position, p.mask);
    if p.moves == 42 {
        lemma_popcnt_board();
        lemma_popcnt_subset(p.mask, BOARD_MASK);
        assert(false);
    }
    let m = p.moves as int;
    // the discarded playable columns all lose to the opponent's next
    // stone, and at forty-one stones none is even discarded
    assert forall|c: int|
        0 <= c < 7 && p.playable(c) && !kept_move(p, c) implies -game_value(
        #[trigger] p.spec_next(c),
    ) == -((42 - m) / 2) && p.moves <= 40 by {
        lemma_next_wf(p, c);
        let q = p.spec_next(c);
        lemma_pnl_excluded_loses(
            p.current_position,
            p.mask,
            drop_bit_raw(p.mask, c as u64),
        );
        assert(q.has_win_now());
        if p.moves == 41 {
            lemma_popcnt_board();
            lemma_popcnt_subset(q.mask, BOARD_MASK);
            assert(q.mask == BOARD_MASK);
            lemma_full_board(winning_cells(q.current_position, q.mask));
            assert(false);
        }
    }
    // some kept column avoids the immediate loss, which beats them all
    lemma_pnl_column_witness(p);
    let cw = choose|c: int|
        0 <= c < 7 && p.playable(c) && kept_move(p, c) && !(
        #[trigger] p.spec_next(c)).has_win_now();
    lemma_next_wf(p, cw);
    lemma_game_value_bounds(p.spec_next(cw));
    lemma_best_kept_ge(p, 0, cw);
    assert(best_kept_reply(p, 0) >= -half_toward_zero(40 - m));
    // every kept reply also sits below the kept best
    assert forall|c: int|
        0 <= c < 7 && p.playable(c) && kept_move(p, c) implies -game_value(
        #[trigger] p.spec_next(c),
    ) <= best_kept_reply(p, 0) by {
        lemma_best_kept_ge(p, 0, c);
    }
    lemma_best_reply_within(p, 0, best_kept_reply(p, 0));
    // and the kept best is itself one of the replies
    lemma_best_kept_within(p, 0);
}

/// Every kept reply is among all replies.
proof fn lemma_best_kept_within(p: Position, c0: int)
    requires
        p.moves < 42,
        0 <= c0 <= 7,
    ensures
        best_kept_reply(p, c0) <= best_reply(p, c0) || best_kept_reply(p, c0) == -100,
    decreases 7 - c0,
{
    if c0 < 7 {
        lemma_best_kept_within(p, c0 + 1);
    }
}

/// A position with an immediate winning drop has room on the board.
pub proof fn lemma_win_now_moves(p: Position)
    requires
        p.wf(),
        p.has_win_now(),
    ensures
        p.moves <= 41,
{
    lemma_moves_bounded(p);
    if p.moves == 42 {
        lemma_popcnt_board();
        lemma_popcnt_subset(p.mask, BOARD_MASK);
        assert(p.mask == BOARD_MASK);
        lemma_full_board(p.winning_bits());
        assert(false);
    }
}

/// A nonzero non-losing move formula leaves room on the board.
pub proof fn lemma_pnl_nonempty_moves(p: Position)
    requires
        p.wf(),
        p.spec_pnl() != 0,
    ensures
        p.moves < 42,
{
    lemma_moves_bounded(p);
    lemma_pnl_props(p.current_position, p.mask);
    if p.moves == 42 {
        lemma_popcnt_board();
        lemma_popcnt_subset(p.mask, BOARD_MASK);
        assert(p.mask == BOARD_MASK);
        assert(false);
    }
}

/// The board word with its columns in left-right mirrored order.
pub open spec fn mirror_bits(x: u64) -> u64 {
    lane(x, 6) | (lane(x, 5) << 7u64) | (lane(x, 4) << 14u64) | (lane(x, 3) << 21u64) | (lane(x, 2)
        << 28u64) | (lane(x, 1) << 35u64) | (lane(x, 0) << 42u64)
}

/// The left-right mirror image of a position.
pub open spec fn spec_mirror(p: Position) -> Position {
    Position {
        moves: p.moves,
        current_position: mirror_bits(p.current_position),
        mask: mirror_bits(p.mask),
    }
}

/// Mirroring swaps the column lanes.
proof fn lemma_mirror_lane(x: u64, c: u64)
    by (bit_vector)
    requires
        c < 7,
    ensures
        lane(mirror_bits(x), c) == lane(x, (6 - c) as u64),
{
}

/// A bit of a column is the matching bit of its lane.
proof fn lemma_lane_bit(x: u64, c: u64, rr: u64)
    by (bit_vector)
    requires
        c < 7,
        rr < 7,
    ensures
        ((x >> ((7 * c + rr) as u64)) & 1u64) == ((lane(x, c) >> rr) & 1u64),
{
}

/// A column's ternary digits depend on its lanes alone.
proof fn lemma_col_key3_lane(key: int, a1: u64, m1: u64, c1: int, a2: u64, m2: u64, c2: int, r: int)
    requires
        0 <= c1 < 7,
        0 <= c2 < 7,
        0 <= r,
        lane(a1, c1 as u64) == lane(a2, c2 as u64),
        lane(m1, c1 as u64) == lane(m2, c2 as u64),
    ensures
        col_key3(key, a1, m1, c1, r) == col_key3(key, a2, m2, c2, r),
    decreases 7 - r,
{
    if r < 7 {
        lemma_lane_bit(a1, c1 as u64, r as u64);
        lemma_lane_bit(a2, c2 as u64, r as u64);
        lemma_lane_bit(m1, c1 as u64, r as u64);
        lemma_lane_bit(m2, c2 as u64, r as u64);
        assert(nth(m1, 7 * c1 + r) == nth(m2, 7 * c2 + r));
        assert(nth(a1, 7 * c1 + r) == nth(a2, 7 * c2 + r));
        if nth(m1, 7 * c1 + r) {
            let t: int = if nth(a1, 7 * c1 + r) {
                1
            } else {
                2
            };
            lemma_col_key3_lane(3 * key + t, a1, m1, c1, a2, m2, c2, r + 1);
        }
    }
}

/// Reading the mirrored board leftward is reading the board rightward.
proof fn lemma_mirror_fwd(key: int, a: u64, m: u64, col: int)
    requires
        0 <= col,
    ensures
        fwd_key3(key, mirror_bits(a), mirror_bits(m), col) == rev_key3(key, a, m, 6 - col),
    decreases 7 - col,
{
    if col < 7 {
        lemma_mirror_lane(a, col as u64);
        lemma_mirror_lane(m, col as u64);
        lemma_col_key3_lane(
            key,
            mirror_bits(a),
            mirror_bits(m),
            col,
            a,
            m,
            6 - col,
            0,
        );
        lemma_mirror_fwd(col_key3(key, a, m, 6 - col, 0), a, m, col + 1);
    }
}

/// And the other way round.
proof fn lemma_mirror_rev(key: int, a: u64, m: u64, col: int)
    requires
        col <= 6,
    ensures
        rev_key3(key, mirror_bits(a), mirror_bits(m), col) == fwd_key3(key, a, m, 6 - col),
    decreases col + 1,
{
    if col >= 0 {
        lemma_mirror_lane(a, col as u64);
        lemma_mirror_lane(m, col as u64);
        lemma_col_key3_lane(
            key,
            mirror_bits(a),
            mirror_bits(m),
            col,
            a,
            m,
            6 - col,
            0,
        );
        lemma_mirror_rev(col_key3(key, a, m, 6 - col, 0), a, m, col - 1);
    }
}

/// Mirroring a sound board keeps every shape property.
proof fn lemma_mirror_bits_wf(a: u64, m: u64)
    by (bit_vector)
    requires
        m & BOARD_MASK == m,
        m & ((m + BOTTOM_MASK) as u64) == 0,
        a & m == a,
    ensures
        mirror_bits(m) & BOARD_MASK == mirror_bits(m),
        mirror_bits(m) & ((mirror_bits(m) + BOTTOM_MASK) as u64) == 0,
        mirror_bits(a) & mirror_bits(m) == mirror_bits(a),
{
}

/// A column's fill run count depends on its lane alone.
proof fn lemma_col_h_lane_only(m1: u64, c1: int, m2: u64, c2: int, r: int)
    requires
        0 <= c1 < 7,
        0 <= c2 < 7,
        0 <= r,
        lane(m1, c1 as u64) == lane(m2, c2 as u64),
    ensures
        col_h(m1, c1, r) == col_h(m2, c2, r),
    decreases 7 - r,
{
    if r < 7 {
        lemma_lane_bit(m1, c1 as u64, r as u64);
        lemma_lane_bit(m2, c2 as u64, r as u64);
        if nth(m1, 7 * c1 + r) {
            lemma_col_h_lane_only(m1, c1, m2, c2, r + 1);
        }
    }
}

/// The mirrored board's rightward digits are the board's leftward ones.
proof fn lemma_mirror_digits(m: u64, col: int)
    requires
        0 <= col <= 7,
    ensures
        rest_digits(mirror_bits(m), col) == prefix_digits(m, 6 - col),
    decreases 7 - col,
{
    if col < 7 {
        lemma_mirror_lane(m, col as u64);
        lemma_col_h_lane_only(mirror_bits(m), col, m, 6 - col, 0);
        lemma_mirror_digits(m, col + 1);
    }
}

/// The mirror image of a well-formed position is well-formed and
/// holds the same number of stones.
pub proof fn lemma_mirror_wf(p: Position)
    requires
        p.wf(),
    ensures
        spec_mirror(p).wf(),
        spec_mirror(p).moves == p.moves,
{
    lemma_mirror_bits_wf(p.current_position, p.mask);
    lemma_mirror_digits(p.mask, 0);
    lemma_digits_flip(p.mask, 6);
    lemma_digits_total(p.mask);
    lemma_digits_total(mirror_bits(p.mask));
}

/// The law of symmetry folding: a position and its left-right mirror
/// image share one ternary book key.
pub proof fn lemma_key3_mirror(p: Position)
    ensures
        spec_key3(spec_mirror(p)) == spec_key3(p),
{
    lemma_mirror_fwd(0, p.current_position, p.mask, 0);
    lemma_mirror_rev(0, p.current_position, p.mask, 6);
}

/// The key is injective on well-formed positions: two positions with
/// the same key hold the same stones, because each column's seven key
/// bits encode that column's fill height and owners exactly.
pub proof fn lemma_key_injective(p1: Position, p2: Position)
    requires
        p1.wf(),
        p2.wf(),
        p1.current_position + p1.mask == p2.current_position + p2.mask,
    ensures
        p1.current_position == p2.current_position,
        p1.mask == p2.mask,
        p1.moves == p2.moves,
{
    lemma_key_inj_bits(p1.current_position, p1.mask, p2.current_position, p2.mask);
}

/// Bit-level form of key injectivity.
#[verifier::rlimit(100)]
proof fn lemma_key_inj_bits(a1: u64, m1: u64, a2: u64, m2: u64)
    by (bit_vector)
    requires
        m1 & BOARD_MASK == m1,
        m1 & ((m1 + BOTTOM_MASK) as u64) == 0,
        a1 & m1 == a1,
        m2 & BOARD_MASK == m2,
        m2 & ((m2 + BOTTOM_MASK) as u64) == 0,
        a2 & m2 == a2,
        a1 + m1 == a2 + m2,
    ensures
        a1 == a2,
        m1 == m2,
{
}

/// The all-ones pattern of one column's six playable cells.
proof fn lemma_six_bits()
    by (bit_vector)
    ensures
        (1u64 << 6) - 1 == 63u64,
{
}

/// A well-formed pair of stone sets sums below two to the forty-ninth:
/// the columns carry at most one bit into their sentinel position.
proof fn lemma_key_fits(a: u64, m: u64)
    by (bit_vector)
    requires
        m & BOARD_MASK == m,
        a & m == a,
    ensures
        a + m < 0x2000000000000,
{
}

/// A board mask stays below the board constant, so adding the bottom
/// row cannot overflow, and the six-bit column pattern is what the
/// shifted literal says.
proof fn lemma_board_range(m: u64)
    by (bit_vector)
    requires
        m & BOARD_MASK == m,
    ensures
        m + BOTTOM_MASK < 0x2000000000000,
        (1u64 << 6) - 1 == 63u64,
{
}

/// Placing a playable single stone preserves the board shape: the new
/// stone is disjoint from the old ones, everything stays on the board,
/// the columns stay gap-free, and the flipped side owns a subset.
proof fn lemma_play_facts(a: u64, m: u64, mv: u64)
    by (bit_vector)
    requires
        m & BOARD_MASK == m,
        m & ((m + BOTTOM_MASK) as u64) == 0,
        a & m == a,
        mv != 0,
        mv & ((mv - 1) as u64) == 0,
        mv & (((m + BOTTOM_MASK) as u64) & BOARD_MASK) == mv,
    ensures
        mv & m == 0,
        m & mv == 0,
        (m | mv) & BOARD_MASK == (m | mv),
        (m | mv) & (((m | mv) + BOTTOM_MASK) as u64) == 0,
        (m ^ a) & (m | mv) == (m ^ a),
{
}

/// With the column's top cell free, the drop formula isolates exactly
/// one playable cell of that column.
proof fn lemma_drop_facts(m: u64, col: u64)
    by (bit_vector)
    requires
        col < 7,
        m & BOARD_MASK == m,
        m & ((m + BOTTOM_MASK) as u64) == 0,
        !((m >> ((7 * col + 5) as u64)) & 1u64 == 1),
    ensures
        drop_bit_raw(m, col) != 0,
        drop_bit_raw(m, col) & ((drop_bit_raw(m, col) - 1) as u64) == 0,
        drop_bit_raw(m, col) & (((m + BOTTOM_MASK) as u64) & BOARD_MASK) == drop_bit_raw(m, col),
        m + col_bottom_bit(col) < 0x2000000000000,
{
}

} // verus!
