//! The search engine: negamax with alpha-beta pruning, transposition
//! bounds and opening-book lookups, driven by a null-window binary
//! search over the score range.

use crate::bits::half_toward_zero;
use crate::position::{
    col_mask, drop_bit_raw, game_value, kept_move, lemma_best_kept_ge,
    lemma_best_kept_le, lemma_column_move, lemma_column_move_exact, lemma_draw_ply_value,
    lemma_game_value_bounds, lemma_key_bound, lemma_key_injective, lemma_moves_bounded,
    lemma_no_defense_value, lemma_non_losing_floor, lemma_pnl_keeps_value,
    lemma_pnl_nonempty_moves, lemma_win_now_moves, possible_bits, spec_key3, MoveSorter,
    OpeningBook, Position, SortEntry, MIN_SCORE,
};
use crate::transposition_table::{lemma_dense_keys_separate, OPT_TABLE_SIZE};
use crate::transposition_table::{OptimizedTranspoisitionTable, TranspositionTable};
use std::sync::Arc;
use vstd::prelude::*;

verus! {

/// Halves a small score value, rounding toward zero.
fn tdiv2(x: isize) -> (r: isize)
    requires
        -100 <= x <= 100,
    ensures
        r == half_toward_zero(x as int),
{
    if x >= 0 {
        ((x as usize) / 2) as isize
    } else {
        -((((-x) as usize) / 2) as isize)
    }
}

/// The node's score ceiling: the cached byte's decoding when one is
/// stored, else the best score still achievable with the stones left
/// (the side to move cannot win with its very next stone).
pub open spec fn node_max(cached: u8, moves: int) -> int {
    if cached == 0 {
        half_toward_zero(41 - moves)
    } else {
        cached + MIN_SCORE - 1
    }
}

/// The node's score floor once some non-losing move exists: the other
/// side cannot win with its very next stone either.
pub open spec fn node_min(moves: int) -> int {
    half_toward_zero(moves - 40)
}

/// What the transposition table answers for this position's key.
pub open spec fn tt_probe(s: Solver, pos: Position) -> u8 {
    s.table.gets((pos.current_position + pos.mask) as u64)
}

/// The window's lower side after the floor clip.
pub open spec fn clip_lo(pos: Position, alpha0: int) -> int {
    if alpha0 < node_min(pos.moves as int) {
        node_min(pos.moves as int)
    } else {
        alpha0
    }
}

/// The window's upper side after the ceiling clip.
pub open spec fn clip_hi(s: Solver, pos: Position, beta0: int) -> int {
    if beta0 > node_max(tt_probe(s, pos), pos.moves as int) {
        node_max(tt_probe(s, pos), pos.moves as int)
    } else {
        beta0
    }
}

/// What the opening book answers for this position: zero when the
/// position lies deeper than the book or holds no entry.
pub open spec fn book_probe(s: Solver, pos: Position) -> u8 {
    if pos.moves <= s.book.depth {
        s.book.table.gets(spec_key3(pos) as u64)
    } else {
        0
    }
}

/// Every queued entry is the drop bit of some playable column the
/// non-losing move formula keeps.
pub open spec fn entries_marked(pos: Position, s: Seq<SortEntry>) -> bool {
    forall|t: int|
        0 <= t < s.len() ==> exists|c: int|
            0 <= c < 7 && pos.playable(c) && kept_move(pos, c) && (#[trigger] s[t]).m
                == drop_bit_raw(pos.mask, c as u64)
}

/// Every kept playable column among the order's positions from `lo`
/// rightward has its drop bit queued.
pub open spec fn columns_covered(pos: Position, order: Seq<usize>, lo: int, s: Seq<SortEntry>) -> bool {
    forall|jj: int|
        lo <= jj < 7 && pos.playable(order[jj] as int) && kept_move(
            pos,
            #[trigger] order[jj] as int,
        ) ==> exists|t: int|
            0 <= t < s.len() && (#[trigger] s[t]).m == drop_bit_raw(pos.mask, order[jj] as u64)
}

/// The move `b` still waits in the sorter's entries or in the popped
/// hand.
pub open spec fn in_hand(entries: Seq<SortEntry>, best: Option<u64>, b: u64) -> bool {
    (exists|t: int| 0 <= t < entries.len() && (#[trigger] entries[t]).m == b) || best == Some(b)
}

/// Inserting one kept column's drop keeps the queue's marking and
/// extends the order coverage by one position.
proof fn lemma_sorter_insert(
    pos: Position,
    order: Seq<usize>,
    idx: int,
    prior: Seq<SortEntry>,
    now: Seq<SortEntry>,
    k: int,
    e: SortEntry,
    c: usize,
)
    requires
        0 <= idx < 7,
        order.len() == 7,
        order[6 - idx] == c,
        0 <= k <= prior.len(),
        now == prior.insert(k, e),
        c < 7,
        pos.playable(c as int),
        kept_move(pos, c as int),
        e.m == drop_bit_raw(pos.mask, c as u64),
        entries_marked(pos, prior),
        columns_covered(pos, order, 7 - idx, prior),
    ensures
        entries_marked(pos, now),
        columns_covered(pos, order, 7 - (idx + 1), now),
{
    prior.insert_ensures(k, e);
    assert(now[k] == e);
    assert forall|t: int| 0 <= t < now.len() implies exists|cc: int|
        0 <= cc < 7 && pos.playable(cc) && kept_move(pos, cc) && (#[trigger] now[t]).m
            == drop_bit_raw(pos.mask, cc as u64) by {
        if t == k {
            assert(pos.playable(c as int) && kept_move(pos, c as int) && now[t].m == drop_bit_raw(
                pos.mask,
                (c as int) as u64,
            ));
        } else {
            let t0: int = if t < k {
                t
            } else {
                t - 1
            };
            assert(now[t] == prior[t0]);
            let cc0 = choose|cc: int|
                0 <= cc < 7 && pos.playable(cc) && kept_move(pos, cc) && (#[trigger] prior[t0]).m
                    == drop_bit_raw(pos.mask, cc as u64);
            assert(now[t].m == drop_bit_raw(pos.mask, cc0 as u64));
        }
    }
    assert forall|jj: int|
        7 - (idx + 1) <= jj < 7 && pos.playable(order[jj] as int) && kept_move(
            pos,
            #[trigger] order[jj] as int,
        ) implies exists|t: int|
        0 <= t < now.len() && (#[trigger] now[t]).m == drop_bit_raw(pos.mask, order[jj] as u64) by {
        if jj == 6 - idx {
            assert(now[k].m == drop_bit_raw(pos.mask, order[jj] as u64));
        } else {
            let t0 = choose|t: int|
                0 <= t < prior.len() && (#[trigger] prior[t]).m == drop_bit_raw(
                    pos.mask,
                    order[jj] as u64,
                );
            if t0 < k {
                assert(now[t0] == prior[t0]);
            } else {
                assert(now[t0 + 1] == prior[t0]);
            }
        }
    }
}

/// A freshly stored bound keeps the table sound: the stored byte
/// decodes to a proved upper bound for the position itself, and by the
/// key-space separation no other key's lookup gains it.
proof fn lemma_put_keeps_sound(
    pre: OptimizedTranspoisitionTable,
    post: OptimizedTranspoisitionTable,
    pos: Position,
    key: u64,
    alpha: int,
    val: u8,
)
    requires
        tt_sound(pre),
        pos.wf(),
        !pos.has_win_now(),
        key as int == pos.current_position + pos.mask,
        game_value(pos) <= alpha,
        -21 <= alpha <= 21,
        alpha + 19 >= 1 ==> val == alpha + 19,
        forall|k2: u64|
            <OptimizedTranspoisitionTable as TranspositionTable>::slot(k2)
                != <OptimizedTranspoisitionTable as TranspositionTable>::slot(key) ==> post.gets(
                k2,
            ) == pre.gets(k2),
        forall|k2: u64|
            <OptimizedTranspoisitionTable as TranspositionTable>::slot(k2)
                == <OptimizedTranspoisitionTable as TranspositionTable>::slot(key)
                && <OptimizedTranspoisitionTable as TranspositionTable>::tag(k2)
                == <OptimizedTranspoisitionTable as TranspositionTable>::tag(key) ==> post.gets(k2)
                == val,
        forall|k2: u64|
            <OptimizedTranspoisitionTable as TranspositionTable>::slot(k2)
                == <OptimizedTranspoisitionTable as TranspositionTable>::slot(key)
                && <OptimizedTranspoisitionTable as TranspositionTable>::tag(k2)
                != <OptimizedTranspoisitionTable as TranspositionTable>::tag(key) ==> post.gets(k2)
                == 0,
    ensures
        tt_sound(post),
{
    lemma_key_bound(pos);
    assert forall|q: Position|
        q.wf() && !q.has_win_now() && #[trigger] post.gets((q.current_position + q.mask) as u64)
            != 0 implies game_value(q) <= post.gets((q.current_position + q.mask) as u64)
        + MIN_SCORE - 1 by {
        let kq = (q.current_position + q.mask) as u64;
        lemma_key_bound(q);
        assert(<OptimizedTranspoisitionTable as TranspositionTable>::slot(kq) == kq as int % (
        OPT_TABLE_SIZE as int));
        assert(<OptimizedTranspoisitionTable as TranspositionTable>::slot(key) == key as int % (
        OPT_TABLE_SIZE as int));
        assert(<OptimizedTranspoisitionTable as TranspositionTable>::tag(kq) == kq as u32 as int);
        assert(<OptimizedTranspoisitionTable as TranspositionTable>::tag(key) == key as u32 as int);
        if kq == key {
            lemma_key_injective(q, pos);
            assert(q == pos);
            if alpha + 19 >= 1 {
                assert(post.gets(kq) == val);
            } else {
                assert(game_value(q) <= alpha <= -19);
            }
        } else {
            lemma_dense_keys_separate(kq, key);
            if kq as int % (OPT_TABLE_SIZE as int) != key as int % (OPT_TABLE_SIZE as int) {
                assert(post.gets(kq) == pre.gets(kq));
            } else {
                assert(kq as u32 != key as u32);
                assert(post.gets(kq) == 0);
            }
        }
    }
}

/// The clipped window sides bracket the game value, so a collapsed
/// window reports faithfully against the caller's window.
proof fn lemma_window_collapse(s0: Solver, pos: Position, alpha0: int, beta0: int)
    requires
        alpha0 < beta0,
        game_value(pos) <= node_max(tt_probe(s0, pos), pos.moves as int),
        game_value(pos) >= node_min(pos.moves as int),
        clip_lo(pos, alpha0) >= clip_hi(s0, pos, beta0),
    ensures
        clip_hi(s0, pos, beta0) <= alpha0 ==> game_value(pos) <= clip_hi(s0, pos, beta0),
        clip_hi(s0, pos, beta0) >= beta0 ==> game_value(pos) >= clip_hi(s0, pos, beta0),
        alpha0 < clip_hi(s0, pos, beta0) < beta0 ==> game_value(pos) == clip_hi(s0, pos, beta0),
{
}

/// A kept playable column's negated reply score never beats the value.
proof fn lemma_reply_le(pos: Position, c: int)
    requires
        pos.wf(),
        !pos.has_win_now(),
        pos.spec_pnl() != 0,
        0 <= c < 7,
        pos.playable(c),
        kept_move(pos, c),
    ensures
        game_value(pos) >= -game_value(pos.spec_next(c)),
{
    lemma_pnl_keeps_value(pos);
    lemma_pnl_nonempty_moves(pos);
    lemma_best_kept_ge(pos, 0, c);
}

/// When every kept playable column's reply is bounded by the raised
/// window side, the search has pinned the value from above, and a
/// genuinely raised side also from below.
proof fn lemma_search_complete(pos: Position, alpha0: int, alpha: int)
    requires
        pos.wf(),
        !pos.has_win_now(),
        pos.spec_pnl() != 0,
        -21 <= alpha <= 21,
        alpha >= clip_lo(pos, alpha0),
        game_value(pos) >= node_min(pos.moves as int),
        forall|c: int|
            0 <= c < 7 && pos.playable(c) && #[trigger] kept_move(pos, c) ==> -game_value(
                pos.spec_next(c),
            ) <= alpha,
        alpha == clip_lo(pos, alpha0) || alpha <= game_value(pos),
    ensures
        game_value(pos) <= alpha,
        alpha > alpha0 ==> game_value(pos) >= alpha,
{
    lemma_pnl_keeps_value(pos);
    lemma_pnl_nonempty_moves(pos);
    lemma_best_kept_le(pos, 0, alpha);
    if alpha > alpha0 {
        if alpha == clip_lo(pos, alpha0) {
            assert(clip_lo(pos, alpha0) == node_min(pos.moves as int));
        }
    }
}

/// After the first pop, every kept column's drop sits in the queue or
/// in the hand.
proof fn lemma_initial_hand(
    pos: Position,
    pre: Seq<SortEntry>,
    now: Seq<SortEntry>,
    best: Option<u64>,
    order: Seq<usize>,
)
    requires
        columns_covered(pos, order, 0, pre),
        order.len() == 7,
        pre.len() == 0 ==> now == pre && best is None,
        pre.len() > 0 ==> now == pre.drop_last() && best == Some(pre.last().m),
        order =~= seq![3usize, 2, 4, 1, 5, 0, 6],
    ensures
        forall|c: int|
            0 <= c < 7 && pos.playable(c) && #[trigger] kept_move(pos, c) ==> in_hand(
                now,
                best,
                drop_bit_raw(pos.mask, c as u64),
            ),
{
    assert forall|c: int|
        0 <= c < 7 && pos.playable(c) && #[trigger] kept_move(pos, c) implies in_hand(
        now,
        best,
        drop_bit_raw(pos.mask, c as u64),
    ) by {
        let jj: int = if c == 3 {
            0
        } else if c == 2 {
            1
        } else if c == 4 {
            2
        } else if c == 1 {
            3
        } else if c == 5 {
            4
        } else if c == 0 {
            5
        } else {
            6
        };
        assert(order[jj] as int == c);
        let b = drop_bit_raw(pos.mask, c as u64);
        let t0 = choose|t: int| 0 <= t < pre.len() && (#[trigger] pre[t]).m == b;
        if t0 < pre.len() - 1 {
            assert(now[t0] == pre[t0]);
        } else {
            assert(best == Some(pre[pre.len() - 1].m));
        }
    }
}

/// The transposition table holds only sound bounds: every stored byte
/// decodes to an upper bound on the game-tree value of any position
/// bearing that key.
pub open spec fn tt_sound(t: OptimizedTranspoisitionTable) -> bool {
    forall|q: Position|
        q.wf() && !q.has_win_now() && #[trigger] t.gets((q.current_position + q.mask) as u64) != 0
            ==> game_value(q) <= t.gets((q.current_position + q.mask) as u64) + MIN_SCORE - 1
}

/// The solver: a node counter, the fixed center-first column order, an
/// owned transposition table and a shared read-only opening book.
pub struct Solver {
    pub node_count: u64,
    pub column_order: [usize; 7],
    pub table: OptimizedTranspoisitionTable,
    pub book: Arc<OpeningBook>,
}

impl Solver {
    /// The solver's structural invariant: a well-shaped table, a
    /// well-shaped book, and the fixed center-first column order.
    pub open spec fn wf(&self) -> bool {
        &&& self.table.inv()
        &&& self.book.wf()
        &&& self.column_order@ =~= seq![3usize, 2, 4, 1, 5, 0, 6]
        &&& forall|j: int| 0 <= j < 7 ==> self.column_order@[j] < 7
    }

    /// The search state tells no lies: the transposition table holds
    /// only sound upper bounds, and the book only exact values. Fresh
    /// solvers are sound, every search step keeps soundness, and all
    /// the exact-value clauses of the search rest on it.
    pub open spec fn sound(&self) -> bool {
        &&& tt_sound(self.table)
        &&& self.book.exact()
    }

    /// A fresh solver: no nodes counted yet, the fixed center-first
    /// column order, a transposition table on which every lookup
    /// misses, and an empty opening book that never reports an entry.
    pub fn new() -> (r: Self)
        ensures
            r.wf(),
            r.node_count == 0,
            r.column_order@ == seq![3usize, 2, 4, 1, 5, 0, 6],
            forall|k: u64| r.table.gets(k) == 0,
            r.book.depth == 0,
            forall|k: u64| r.book.table.gets(k) == 0,
            r.sound(),
    {
        let column_order = [3, 2, 4, 1, 5, 0, 6];
        proof {
            assert(column_order@ =~= seq![3usize, 2, 4, 1, 5, 0, 6]);
        }
        Self {
            node_count: 0,
            column_order,
            table: OptimizedTranspoisitionTable::new(),
            book: Arc::new(OpeningBook::new()),
        }
    }

    /// A fresh solver consulting the given opening book, held through
    /// the shared handle itself: the book is never copied and the
    /// solver never writes to it.
    pub fn with_opening_book(book: Arc<OpeningBook>) -> (r: Self)
        requires
            book.wf(),
        ensures
            r.wf(),
            r.node_count == 0,
            r.column_order@ == seq![3usize, 2, 4, 1, 5, 0, 6],
            forall|k: u64| r.table.gets(k) == 0,
            r.book == book,
            book.exact() ==> r.sound(),
    {
        let column_order = [3, 2, 4, 1, 5, 0, 6];
        proof {
            assert(column_order@ =~= seq![3usize, 2, 4, 1, 5, 0, 6]);
        }
        Self {
            node_count: 0,
            column_order,
            table: OptimizedTranspoisitionTable::new(),
            book,
        }
    }

    /// Clears the node counter and restores the transposition table's
    /// starting state for an independent next search; the book and the
    /// column order stay as they are, and no stale lookup can gain a
    /// value it did not already have.
    pub fn reset(&mut self)
        requires
            old(self).wf(),
        ensures
            final(self).wf(),
            final(self).node_count == 0,
            final(self).book == old(self).book,
            final(self).column_order == old(self).column_order,
            forall|k: u64|
                final(self).table.gets(k) == old(self).table.gets(k) || final(self).table.gets(k)
                    == 0,
            old(self).sound() ==> final(self).sound(),
    {
        self.node_count = 0;
        self.table.reset();
        proof {
            if old(self).sound() {
                assert forall|q: Position|
                    q.wf() && !q.has_win_now() && #[trigger] self.table.gets(
                        (q.current_position + q.mask) as u64,
                    ) != 0 implies game_value(q) <= self.table.gets(
                    (q.current_position + q.mask) as u64,
                ) + MIN_SCORE - 1 by {
                    assert(self.table.gets((q.current_position + q.mask) as u64) == old(
                        self,
                    ).table.gets((q.current_position + q.mask) as u64));
                }
            }
        }
    }

    /// One negamax node: bounds the window by the cached and the
    /// theoretical scores, handles lost, drawn and booked positions
    /// directly, and otherwise searches the non-losing replies
    /// best-first with fail-soft cutoffs. Every path that stops short
    /// of recursion returns the exact documented value, and on a sound
    /// solver the result obeys the fail-soft laws: a result at or
    /// below the requested window reports an upper bound on the game
    /// value, one at or above it a lower bound, and one strictly
    /// inside the window the game value itself.
    #[verifier::rlimit(100)]
    #[verifier::spinoff_prover]
    fn negamax(&mut self, pos: Position, alpha0: isize, beta0: isize) -> (r: isize)
        requires
            old(self).wf(),
            pos.wf(),
            !pos.has_win_now(),
            -21 <= alpha0 < beta0 <= 21,
        ensures
            final(self).wf(),
            -21 <= r <= 21,
            final(self).node_count >= old(self).node_count,
            old(self).node_count < 0xFFFFFFFFFFFFFFFFu64 ==> final(self).node_count > old(
                self,
            ).node_count,
            pos.spec_pnl() == 0 ==> r == -((42 - pos.moves as int) / 2) && r == game_value(pos),
            pos.spec_pnl() != 0 && pos.moves == 40 ==> r == 0 && r == game_value(pos),
            pos.spec_pnl() != 0 && pos.moves != 40 && clip_lo(pos, alpha0 as int) >= clip_hi(
                *old(self),
                pos,
                beta0 as int,
            ) ==> r == clip_hi(*old(self), pos, beta0 as int),
            pos.spec_pnl() != 0 && pos.moves != 40 && clip_lo(pos, alpha0 as int) < clip_hi(
                *old(self),
                pos,
                beta0 as int,
            ) && book_probe(*old(self), pos) != 0 ==> r == book_probe(*old(self), pos) as int
                + MIN_SCORE - 1,
            old(self).sound() ==> final(self).sound(),
            old(self).sound() && r <= alpha0 ==> game_value(pos) <= r,
            old(self).sound() && r >= beta0 ==> game_value(pos) >= r,
            old(self).sound() && alpha0 < r < beta0 ==> r == game_value(pos),
        decreases 42 - pos.moves,
    {
        proof {
            lemma_moves_bounded(pos);
        }
        let mut alpha = alpha0;
        let mut beta = beta0;
        self.node_count = self.node_count.saturating_add(1);

        let key = pos.key();
        let cached = self.table.get(key);
        proof {
            assert(cached == tt_probe(*old(self), pos));
            if old(self).sound() {
                lemma_game_value_bounds(pos);
                assert(game_value(pos) <= node_max(cached, pos.moves as int));
            }
        }
        let max_bound: isize = if cached == 0 {
            tdiv2(41 - pos.moves as isize)
        } else {
            cached as isize + MIN_SCORE - 1
        };
        let min_bound: isize = tdiv2(pos.moves as isize - 40);

        if alpha < min_bound {
            alpha = min_bound;
        }
        if beta > max_bound {
            beta = max_bound;
        }

        let next = pos.possible_non_loosing_moves();

        if next == 0 {
            proof {
                lemma_no_defense_value(pos);
            }
            return -pos.calc_score();
        }
        proof {
            if old(self).sound() {
                lemma_non_losing_floor(pos);
            }
        }
        if pos.is_draw() {
            proof {
                lemma_draw_ply_value(pos);
            }
            return 0;
        }
        if alpha >= beta {
            proof {
                if old(self).sound() {
                    lemma_window_collapse(*old(self), pos, alpha0 as int, beta0 as int);
                }
            }
            return beta;
        }
        let booked = self.book.get(&pos);
        if let Some(n) = booked {
            proof {
                if old(self).sound() {
                    assert(old(self).book.table.gets(spec_key3(pos) as u64) == n);
                    assert(n + MIN_SCORE - 1 == game_value(pos));
                }
            }
            return n as isize + MIN_SCORE - 1;
        }
        let mut moves = MoveSorter::new();
        let mut idx: usize = 0;
        while idx < 7
            invariant
                self.wf(),
                pos.wf(),
                pos.moves != 40,
                next == pos.spec_pnl(),
                next != 0,
                next & possible_bits(pos.mask) == next,
                self.node_count >= old(self).node_count,
                old(self).node_count < 0xFFFFFFFFFFFFFFFFu64 ==> self.node_count > old(
                    self,
                ).node_count,
                clip_lo(pos, alpha0 as int) < clip_hi(*old(self), pos, beta0 as int),
                book_probe(*old(self), pos) == 0,
                old(self).sound() ==> self.sound() && game_value(pos) <= node_max(
                    tt_probe(*old(self), pos),
                    pos.moves as int,
                ) && game_value(pos) >= node_min(pos.moves as int),
                idx <= 7,
                moves.wf(),
                moves.entries@.len() <= idx,
                forall|t: int|
                    0 <= t < moves.entries@.len() ==> pos.playable_bit(
                        (#[trigger] moves.entries@[t]).m,
                    ) && moves.entries@[t].m & next == moves.entries@[t].m,
                entries_marked(pos, moves.entries@),
                columns_covered(pos, self.column_order@, 7 - idx, moves.entries@),
            decreases 7 - idx,
        {
            let c = self.column_order[6 - idx];
            proof {
                lemma_column_move_exact(pos.mask, next, c as u64);
            }
            let m = next & Position::column_mask(c);
            if m != 0 {
                proof {
                    lemma_column_move(pos.mask, next, c as u64);
                }
                let sc = pos.move_score(m);
                let ghost prior = moves.entries@;
                moves.add(m, sc);
                proof {
                    let e = SortEntry { m, score: sc };
                    let k = choose|k: int|
                        0 <= k <= prior.len() && moves.entries@ == prior.insert(k, e) && (forall|
                            j: int,
                        |
                            0 <= j < k ==> (#[trigger] prior[j]).score <= sc) && (forall|j: int|
                            k <= j < prior.len() ==> (#[trigger] prior[j]).score > sc);
                    assert(m == drop_bit_raw(pos.mask, c as u64));
                    assert(pos.playable(c as int) && kept_move(pos, c as int));
                    lemma_sorter_insert(
                        pos,
                        self.column_order@,
                        idx as int,
                        prior,
                        moves.entries@,
                        k,
                        e,
                        c,
                    );
                }
            } else {
                proof {
                    assert forall|jj: int|
                        7 - (idx + 1) <= jj < 7 && pos.playable(self.column_order@[jj] as int)
                            && kept_move(
                            pos,
                            #[trigger] self.column_order@[jj] as int,
                        ) implies exists|t: int|
                        0 <= t < moves.entries@.len() && (#[trigger] moves.entries@[t]).m
                            == drop_bit_raw(pos.mask, self.column_order@[jj] as u64) by {
                        if jj == 6 - idx {
                            assert(next & col_mask(c as u64) != 0);
                            assert(false);
                        }
                    }
                }
            }
            idx = idx + 1;
        }
        let ghost a1 = clip_lo(pos, alpha0 as int);
        let ghost b1 = clip_hi(*old(self), pos, beta0 as int);
        let ghost pre_entries = moves.entries@;
        let mut best = moves.get_next();
        proof {
            lemma_initial_hand(pos, pre_entries, moves.entries@, best, self.column_order@);
        }
        while best.is_some()
            invariant
                self.wf(),
                pos.wf(),
                pos.moves < 42,
                pos.moves != 40,
                !pos.has_win_now(),
                next == pos.spec_pnl(),
                next != 0,
                next & possible_bits(pos.mask) == next,
                self.node_count >= old(self).node_count,
                old(self).node_count < 0xFFFFFFFFFFFFFFFFu64 ==> self.node_count > old(
                    self,
                ).node_count,
                a1 == clip_lo(pos, alpha0 as int),
                b1 == clip_hi(*old(self), pos, beta0 as int),
                a1 < b1,
                book_probe(*old(self), pos) == 0,
                forall|mv: u64|
                    pos.playable_bit(mv) && mv & next == mv ==> !(#[trigger] pos.spec_next_move(
                        mv,
                    )).has_win_now(),
                -21 <= alpha < beta <= 21,
                alpha as int >= a1,
                beta as int == b1,
                moves.wf(),
                forall|t: int|
                    0 <= t < moves.entries@.len() ==> pos.playable_bit(
                        (#[trigger] moves.entries@[t]).m,
                    ) && moves.entries@[t].m & next == moves.entries@[t].m,
                entries_marked(pos, moves.entries@),
                best is Some ==> pos.playable_bit(best.unwrap()) && best.unwrap() & next
                    == best.unwrap(),
                best is Some ==> exists|c: int|
                    0 <= c < 7 && pos.playable(c) && #[trigger] kept_move(pos, c) && best.unwrap()
                        == drop_bit_raw(pos.mask, c as u64),
                best is None ==> moves.entries@.len() == 0,
                old(self).sound() ==> self.sound() && game_value(pos) <= node_max(
                    tt_probe(*old(self), pos),
                    pos.moves as int,
                ) && game_value(pos) >= node_min(pos.moves as int),
                old(self).sound() ==> forall|c: int|
                    0 <= c < 7 && pos.playable(c) && #[trigger] kept_move(pos, c) ==> (-game_value(
                        pos.spec_next(c),
                    ) <= alpha as int || in_hand(
                        moves.entries@,
                        best,
                        drop_bit_raw(pos.mask, c as u64),
                    )),
                old(self).sound() ==> alpha as int == a1 || alpha as int <= game_value(pos),
            decreases moves.entries@.len() + (if best is Some {
                1int
            } else {
                0int
            }),
        {
            let m = best.unwrap();
            let p2 = pos.next_pos_move(m);
            let rc = self.negamax(p2, -beta, -alpha);
            let score = -rc;
            proof {
                if old(self).sound() {
                    let cm = choose|c: int|
                        0 <= c < 7 && pos.playable(c) && #[trigger] kept_move(pos, c)
                            && best.unwrap() == drop_bit_raw(pos.mask, c as u64);
                    assert(p2 == pos.spec_next(cm));
                    lemma_reply_le(pos, cm);
                    if score >= beta {
                        assert(game_value(p2) <= rc as int);
                        assert(game_value(pos) >= score as int);
                        if score < beta0 {
                            assert(b1 < beta0);
                            assert(b1 == node_max(tt_probe(*old(self), pos), pos.moves as int));
                            assert(game_value(pos) <= b1);
                        }
                    } else if score > alpha {
                        assert(rc as int == game_value(p2));
                        assert(score as int <= game_value(pos));
                    } else {
                        assert(game_value(p2) >= rc as int);
                        assert(-game_value(p2) <= alpha as int);
                    }
                }
            }
            if score >= beta {
                return score;
            }
            if score > alpha {
                alpha = score
            }
            proof {
                if old(self).sound() {
                    assert forall|c: int|
                        0 <= c < 7 && pos.playable(c) && #[trigger] kept_move(pos, c) implies (
                    -game_value(pos.spec_next(c)) <= alpha as int || in_hand(
                        moves.entries@.drop_last(),
                        if moves.entries@.len() == 0 {
                            None
                        } else {
                            Some(moves.entries@.last().m)
                        },
                        drop_bit_raw(pos.mask, c as u64),
                    )) by {
                        let b = drop_bit_raw(pos.mask, c as u64);
                        if b == m {
                            assert(pos.spec_next(c) == p2);
                        } else if in_hand(moves.entries@, best, b) {
                            let t0 = choose|t: int|
                                0 <= t < moves.entries@.len() && (#[trigger] moves.entries@[t]).m
                                    == b;
                            if t0 < moves.entries@.len() - 1 {
                                assert(moves.entries@.drop_last()[t0] == moves.entries@[t0]);
                            } else {
                                assert(moves.entries@.last().m == b);
                            }
                        }
                    }
                }
            }
            best = moves.get_next();
        }
        proof {
            if old(self).sound() {
                lemma_search_complete(pos, alpha0 as int, alpha as int);
            }
        }
        let ghost pre = self.table;
        self.table.put(key, #[verifier::truncate] ((alpha - MIN_SCORE + 1) as u8));
        proof {
            if old(self).sound() {
                if alpha as int + 19 >= 1 {
                    assert(((alpha - MIN_SCORE + 1) as u8) as int == alpha + 19);
                }
                lemma_put_keeps_sound(
                    pre,
                    self.table,
                    pos,
                    key,
                    alpha as int,
                    ((alpha - MIN_SCORE + 1) as u8),
                );
            }
        }
        alpha
    }

    /// Pins the exact score down by a binary search over the score
    /// range, each probe a one-wide negamax window biased toward zero
    /// so that early probes stay cheap. A window that is already a
    /// single point is returned as it stands; on a sound solver the
    /// search converges to the game value whenever the window brackets
    /// it, and otherwise stops at the window side the value lies
    /// beyond.
    fn iterative_deepening(&mut self, pos: &Position, min0: isize, max0: isize) -> (r: isize)
        requires
            old(self).wf(),
            pos.wf(),
            !pos.has_win_now(),
            -21 <= min0 <= max0 <= 21,
        ensures
            final(self).wf(),
            -21 <= r <= 21,
            min0 == max0 ==> r == min0,
            final(self).node_count >= old(self).node_count,
            old(self).sound() ==> final(self).sound(),
            old(self).sound() && min0 as int <= game_value(*pos) <= max0 as int ==> r as int
                == game_value(*pos),
            old(self).sound() && game_value(*pos) > max0 as int ==> max0 as int <= r as int
                <= game_value(*pos),
            old(self).sound() && game_value(*pos) < min0 as int ==> r == min0,
    {
        let mut min = min0;
        let mut max = max0;
        while min < max
            invariant
                self.wf(),
                pos.wf(),
                !pos.has_win_now(),
                -21 <= min <= 21,
                -21 <= max <= 21,
                min0 as int <= min as int,
                max as int <= max0 as int,
                min0 == max0 ==> min == min0 && max == max0,
                self.node_count >= old(self).node_count,
                old(self).sound() ==> self.sound(),
                old(self).sound() ==> min as int <= game_value(*pos) || min == min0,
                old(self).sound() ==> game_value(*pos) <= max as int || max == max0,
            decreases 43 + max - min,
        {
            let mut med = min + (((max - min) as usize / 2) as isize);
            let half_min = tdiv2(min);
            let half_max = tdiv2(max);
            if med <= 0 && half_min < med {
                med = half_min;
            } else if med >= 0 && half_max > med {
                med = half_max;
            }
            proof {
                assert(min <= med < max);
            }
            let r = self.negamax(*pos, med, med + 1);
            if r <= med {
                max = r;
            } else {
                min = r;
            }
        }
        min
    }

    /// The game-theoretic score of the position under optimal play by
    /// both sides: an immediate win scores by the fastest-win rule and
    /// touches no solver state, anything else goes through the
    /// null-window driver. On a sound solver the strong result is the
    /// game value itself, and the weak result classifies the outcome:
    /// the same sign as the game value, zero exactly on draws.
    pub fn solve(&mut self, pos: &Position, weak: bool) -> (r: isize)
        requires
            old(self).wf(),
            pos.wf(),
        ensures
            final(self).wf(),
            -21 <= r <= 21,
            pos.has_win_now() ==> r == (43 - pos.moves as int) / 2 && r == game_value(*pos),
            pos.has_win_now() ==> *final(self) == *old(self),
            !weak && !pos.has_win_now() && pos.moves == 42 ==> r == 0,
            final(self).node_count >= old(self).node_count,
            old(self).sound() ==> final(self).sound(),
            old(self).sound() && !weak ==> r as int == game_value(*pos),
            old(self).sound() && weak ==> (r > 0 <==> game_value(*pos) > 0) && (r == 0
                <==> game_value(*pos) == 0) && (r < 0 <==> game_value(*pos) < 0),
    {
        proof {
            lemma_moves_bounded(*pos);
            if old(self).sound() {
                if pos.has_win_now() {
                    lemma_win_now_moves(*pos);
                } else {
                    lemma_game_value_bounds(*pos);
                }
            }
        }
        let (min0, max0) = if !weak {
            (tdiv2(pos.moves as isize - 42), tdiv2(43 - pos.moves as isize))
        } else {
            (-1, 1)
        };
        if pos.has_winning_move() {
            ((42 + 1 - pos.moves) / 2) as isize
        } else {
            self.iterative_deepening(pos, min0, max0)
        }
    }

    /// One optional score per column: nothing for a full column, the
    /// fastest-win score for an immediately winning drop, and the
    /// negated score of the reply position for every other legal drop —
    /// on a sound solver in strong mode, exactly the negated game value
    /// of the reply position.
    pub fn analyse(&mut self, pos: &Position, weak: bool) -> (r: Vec<Option<isize>>)
        requires
            old(self).wf(),
            pos.wf(),
        ensures
            final(self).wf(),
            r@.len() == 7,
            forall|c: int| 0 <= c < 7 ==> ((#[trigger] r@[c]) is None <==> !pos.playable(c)),
            forall|c: int|
                0 <= c < 7 && pos.playable(c) && pos.winning_bits()
                    & possible_bits(pos.mask) & col_mask(
                    c as u64,
                ) != 0 ==> (#[trigger] r@[c]) == Some((((43 - pos.moves as int) / 2)) as isize),
            forall|c: int| 0 <= c < 7 && (#[trigger] r@[c]) is Some ==> -21 <= r@[c].unwrap() <= 21,
            final(self).node_count >= old(self).node_count,
            old(self).sound() ==> final(self).sound(),
            old(self).sound() && !weak ==> forall|c: int|
                0 <= c < 7 && pos.playable(c) && pos.winning_bits() & possible_bits(pos.mask)
                    & col_mask(c as u64) == 0 ==> (#[trigger] r@[c]) == Some(
                    ((-game_value(pos.spec_next(c))) as isize),
                ),
            old(self).sound() && weak ==> forall|c: int|
                0 <= c < 7 && pos.playable(c) && pos.winning_bits() & possible_bits(pos.mask)
                    & col_mask(c as u64) == 0 ==> (#[trigger] r@[c]) is Some && (r@[c].unwrap() > 0
                    <==> game_value(pos.spec_next(c)) < 0) && (r@[c].unwrap() == 0
                    <==> game_value(pos.spec_next(c)) == 0) && (r@[c].unwrap() < 0
                    <==> game_value(pos.spec_next(c)) > 0),
    {
        proof {
            lemma_moves_bounded(*pos);
        }
        let mut out: Vec<Option<isize>> = Vec::new();
        let mut col: usize = 0;
        while col < 7
            invariant
                self.wf(),
                pos.wf(),
                pos.moves <= 42,
                col <= 7,
                self.node_count >= old(self).node_count,
                out@.len() == col,
                forall|c: int| 0 <= c < col ==> ((#[trigger] out@[c]) is None <==> !pos.playable(c)),
                forall|c: int|
                    0 <= c < col && pos.playable(c) && pos.winning_bits()
                        & possible_bits(pos.mask) & col_mask(
                        c as u64,
                    ) != 0 ==> (#[trigger] out@[c]) == Some((((43 - pos.moves as int) / 2)) as isize),
                forall|c: int|
                    0 <= c < col && (#[trigger] out@[c]) is Some ==> -21 <= out@[c].unwrap() <= 21,
                old(self).sound() ==> self.sound(),
                old(self).sound() && !weak ==> forall|c: int|
                    0 <= c < col && pos.playable(c) && pos.winning_bits() & possible_bits(pos.mask)
                        & col_mask(c as u64) == 0 ==> (#[trigger] out@[c]) == Some(
                        ((-game_value(pos.spec_next(c))) as isize),
                    ),
                old(self).sound() && weak ==> forall|c: int|
                    0 <= c < col && pos.playable(c) && pos.winning_bits() & possible_bits(pos.mask)
                        & col_mask(c as u64) == 0 ==> (#[trigger] out@[c]) is Some && (
                    out@[c].unwrap() > 0 <==> game_value(pos.spec_next(c)) < 0) && (
                    out@[c].unwrap() == 0 <==> game_value(pos.spec_next(c)) == 0) && (
                    out@[c].unwrap() < 0 <==> game_value(pos.spec_next(c)) > 0),
            decreases 7 - col,
        {
            if !pos.can_play(col) {
                out.push(None);
            } else if pos.is_winning_move(col) {
                out.push(Some(((42 + 1 - pos.moves) / 2) as isize));
            } else {
                let child = pos.next_pos(col);
                let s = self.solve(&child, weak);
                out.push(Some(-s));
            }
            col = col + 1;
        }
        out
    }
}

} // verus!
