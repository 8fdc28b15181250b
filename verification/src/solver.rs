//! The backtracking solver.
//!
//! The search walks the cells in row-major order.  A fixed or already
//! assigned cell is skipped; for an unassigned free cell the candidate
//! digits 1 to 9 are tried in ascending order, each checked with the full
//! validity test before recursing.  The contracts pin the result down:
//! on success the board holds the first valid completion in this search
//! order, on failure it is restored exactly.

use vstd::prelude::*;

use crate::board::Board;
use crate::board::Cell;
use crate::board::board_ok;
use crate::board::board_wf;
use crate::board::cell_wf;
use crate::board::digit_at;
use crate::board::group_index;
use crate::board::group_ok;
use crate::board::group_seq;
use crate::board::lemma_group_index;

verus! {

/// The row-major index of the search cursor at (row, col); 81 once the
/// cursor has advanced past the last cell.
pub open spec fn cursor(row: int, col: int) -> int {
    if row >= 9 {
        81
    } else {
        row * 9 + col
    }
}

/// Cell `b` completes cell `a`: an assigned cell is kept exactly, an
/// unassigned free cell is filled with some digit 1..=9.
pub open spec fn cell_filled(a: Cell, b: Cell) -> bool {
    if digit_at(a) is Some {
        b == a
    } else {
        b matches Cell::Free(Some(d)) && 1 <= d <= 9
    }
}

/// `t` completes `s` from position `p` on: identical before `p`, and from
/// `p` on every cell is kept or filled.
pub open spec fn is_completion(s: Seq<Cell>, t: Seq<Cell>, p: int) -> bool {
    &&& s.len() == 81
    &&& t.len() == 81
    &&& forall|i: int| 0 <= i < p ==> t[i] == s[i]
    &&& forall|i: int| p <= i < 81 ==> cell_filled(#[trigger] s[i], t[i])
}

/// Some valid completion of `s` from position `p` on exists.
pub open spec fn solvable_from(s: Seq<Cell>, p: int) -> bool {
    exists|t: Seq<Cell>| is_completion(s, t, p) && board_ok(t)
}

/// The puzzle has a valid full completion.
pub open spec fn solvable(s: Seq<Cell>) -> bool {
    solvable_from(s, 0)
}

/// Every cell at or after position `p` is assigned.
pub open spec fn filled_from(s: Seq<Cell>, p: int) -> bool {
    forall|i: int| p <= i < 81 ==> digit_at(#[trigger] s[i]) is Some
}

/// Every digit assigned in `s` is assigned alike in `t`.
pub open spec fn assignments_within(s: Seq<Cell>, t: Seq<Cell>) -> bool {
    forall|i: int|
        0 <= i < 81 ==> (digit_at(#[trigger] s[i]) is Some ==> digit_at(t[i]) == digit_at(s[i]))
}

/// The digit of a cell as an integer, 0 when unassigned.
pub open spec fn digit_int(c: Cell) -> int {
    match digit_at(c) {
        Some(d) => d as int,
        None => 0,
    }
}

/// `t` and `u` agree on every position in `a..b`.
pub open spec fn agree_upto(t: Seq<Cell>, u: Seq<Cell>, a: int, b: int) -> bool {
    forall|j: int| a <= j < b ==> t[j] == u[j]
}

/// `t` comes strictly before `u` in the search order from position `p` on:
/// at the first position where they differ, `t` holds the smaller digit.
pub open spec fn lex_before(t: Seq<Cell>, u: Seq<Cell>, p: int) -> bool {
    exists|i: int|
        p <= i < 81 && #[trigger] agree_upto(t, u, p, i) && digit_int(t[i]) < digit_int(u[i])
}

/// `u` is not preceded, in the search order from position `p` on, by any
/// valid completion of `s` from `p` on.
pub open spec fn minimal_from(s: Seq<Cell>, u: Seq<Cell>, p: int) -> bool {
    forall|t: Seq<Cell>| #[trigger]
        is_completion(s, t, p) && board_ok(t) ==> !lex_before(t, u, p)
}

/// A board with fewer assignments than a duplicate-free board is itself
/// duplicate free: dropping assignments cannot create a duplicate.
pub proof fn lemma_ok_within(s: Seq<Cell>, t: Seq<Cell>)
    requires
        s.len() == 81,
        t.len() == 81,
        assignments_within(s, t),
        board_ok(t),
    ensures
        board_ok(s),
{
    assert forall|k: int| 0 <= k < 27 implies group_ok(#[trigger] group_seq(s, k)) by {
        let gs = group_seq(s, k);
        let gt = group_seq(t, k);
        assert(group_ok(gt));
        assert forall|x: int, y: int|
            0 <= x < y < gs.len() && #[trigger] gs[x] is Some implies #[trigger] gs[y]
                != gs[x] by {
            let ix = group_index(k, x);
            let iy = group_index(k, y);
            lemma_group_index(k, x);
            lemma_group_index(k, y);
            assert(gs[x] == digit_at(s[ix]) && gt[x] == digit_at(t[ix]));
            assert(gs[y] == digit_at(s[iy]) && gt[y] == digit_at(t[iy]));
            if gs[y] == gs[x] {
                assert(digit_at(t[ix]) == digit_at(s[ix]));
                assert(digit_at(t[iy]) == digit_at(s[iy]));
                assert(gt[x] is Some && gt[y] == gt[x]);
                assert(false);
            }
        }
    }
}

/// A completion only adds assignments.
pub proof fn lemma_completion_within(s: Seq<Cell>, t: Seq<Cell>, p: int)
    requires
        is_completion(s, t, p),
    ensures
        assignments_within(s, t),
{
    assert forall|i: int|
        0 <= i < 81 && digit_at(#[trigger] s[i]) is Some implies digit_at(t[i]) == digit_at(
        s[i],
    ) by {
        if i < p {
            assert(t[i] == s[i]);
        } else {
            assert(cell_filled(s[i], t[i]));
        }
    }
}

/// When two boards agree at position `p`, the search order from `p` and
/// from `p + 1` compare them alike.
pub proof fn lemma_lex_shift(t: Seq<Cell>, u: Seq<Cell>, p: int)
    requires
        0 <= p < 81,
        t[p] == u[p],
    ensures
        lex_before(t, u, p) <==> lex_before(t, u, p + 1),
{
    if lex_before(t, u, p) {
        let i = choose|i: int|
            p <= i < 81 && #[trigger] agree_upto(t, u, p, i) && digit_int(t[i]) < digit_int(u[i]);
        assert(i != p);
        assert(agree_upto(t, u, p + 1, i));
        assert(lex_before(t, u, p + 1));
    }
    if lex_before(t, u, p + 1) {
        let i = choose|i: int|
            p + 1 <= i < 81 && #[trigger] agree_upto(t, u, p + 1, i) && digit_int(t[i])
                < digit_int(u[i]);
        assert forall|j: int| p <= j < i implies t[j] == u[j] by {
            if j > p {
                assert(agree_upto(t, u, p + 1, i));
            }
        }
        assert(agree_upto(t, u, p, i));
        assert(lex_before(t, u, p));
    }
}

/// Two completions that agree before `p`, neither preceding the other in
/// the search order from `p` on, agree everywhere.
proof fn lemma_completions_agree(s: Seq<Cell>, u: Seq<Cell>, v: Seq<Cell>, p: int)
    requires
        0 <= p <= 81,
        is_completion(s, u, 0),
        is_completion(s, v, 0),
        agree_upto(u, v, 0, p),
        !lex_before(u, v, p),
        !lex_before(v, u, p),
    ensures
        u == v,
    decreases 81 - p,
{
    if p == 81 {
        assert forall|i: int| 0 <= i < 81 implies u[i] == v[i] by {
            assert(agree_upto(u, v, 0, 81));
        }
        assert(u =~= v);
    } else {
        if u[p] != v[p] {
            assert(cell_filled(s[p], u[p]));
            assert(cell_filled(s[p], v[p]));
            if digit_int(u[p]) < digit_int(v[p]) {
                assert(agree_upto(u, v, p, p));
                assert(lex_before(u, v, p));
            } else if digit_int(v[p]) < digit_int(u[p]) {
                assert(agree_upto(v, u, p, p));
                assert(lex_before(v, u, p));
            }
            assert(false);
        }
        lemma_lex_shift(u, v, p);
        lemma_lex_shift(v, u, p);
        assert(agree_upto(u, v, 0, p + 1));
        lemma_completions_agree(s, u, v, p + 1);
    }
}

/// The solver's output is determined by its input alone: two boards each
/// satisfying the success contract for the same input — a valid completion
/// that no valid completion precedes in the search order — are identical.
/// Repeated solves of one puzzle therefore produce one and the same board.
pub proof fn lemma_solution_unique(s: Seq<Cell>, u: Seq<Cell>, v: Seq<Cell>)
    requires
        is_completion(s, u, 0),
        board_ok(u),
        minimal_from(s, u, 0),
        is_completion(s, v, 0),
        board_ok(v),
        minimal_from(s, v, 0),
    ensures
        u == v,
{
    assert(!lex_before(v, u, 0));
    assert(!lex_before(u, v, 0));
    lemma_completions_agree(s, u, v, 0);
}

impl Board {
    /// Backtracking search from cursor (row, column) onward.
    ///
    /// On success the board holds, from the cursor on, the first valid
    /// completion in search order; on failure it is restored exactly to
    /// its state at entry.  Success is returned exactly when a valid
    /// completion from the cursor on exists, except that a board whose
    /// cells from the cursor on are already all assigned is reported
    /// solved without any check, as the search has nothing left to place.
    pub fn solve_recursive(&mut self, row: usize, column: usize) -> (r: bool)
        requires
            old(self).wf(),
            row <= 9,
            column <= 8,
        ensures
            final(self).wf(),
            !r ==> final(self)@ == old(self)@,
            r ==> is_completion(old(self)@, final(self)@, cursor(row as int, column as int)),
            r && !filled_from(old(self)@, cursor(row as int, column as int)) ==> board_ok(
                final(self)@,
            ),
            r ==> minimal_from(old(self)@, final(self)@, cursor(row as int, column as int)),
            solvable_from(old(self)@, cursor(row as int, column as int)) ==> r,
        decreases 81 - cursor(row as int, column as int),
    {
        let ghost s0 = old(self)@;
        let ghost p = cursor(row as int, column as int);
        if row > 8 || column > 8 {
            proof {
                assert(p == 81);
                assert(is_completion(s0, s0, 81));
                assert(filled_from(s0, 81));
                assert forall|t: Seq<Cell>| #[trigger]
                    is_completion(s0, t, 81) && board_ok(t) implies !lex_before(t, s0, 81) by {
                    if lex_before(t, s0, 81) {
                        let i = choose|i: int|
                            81 <= i < 81 && #[trigger] agree_upto(t, s0, 81, i) && digit_int(t[i])
                                < digit_int(s0[i]);
                        assert(false);
                    }
                }
            }
            return true;
        }
        let (next_row, next_column) = if column == 8 {
            (row + 1, 0)
        } else {
            (row, column + 1)
        };
        proof {
            assert(p == row * 9 + column);
            assert(cursor(next_row as int, next_column as int) == p + 1);
        }
        let idx = row * 9 + column;
        let c = self.cell_at(idx);
        match c.digit() {
            None => {
                let mut d: u8 = 1;
                while d <= 9
                    invariant
                        self.wf(),
                        1 <= d <= 10,
                        row <= 8,
                        column <= 8,
                        next_row <= 9,
                        next_column <= 8,
                        idx == row * 9 + column,
                        p == idx,
                        p == cursor(row as int, column as int),
                        s0 == old(self)@,
                        cursor(next_row as int, next_column as int) == p + 1,
                        s0.len() == 81,
                        board_wf(s0),
                        digit_at(s0[p]) is None,
                        s0[p] == (Cell::Free(None)),
                        forall|i: int| 0 <= i < 81 && i != p ==> self@[i] == s0[i],
                        self@[p] matches Cell::Free(_),
                        forall|dd: u8|
                            1 <= dd < d ==> !solvable_from(
                                s0.update(p, Cell::Free(Some(dd))),
                                p + 1,
                            ),
                    decreases 10 - d,
                {
                    self.set_cell(idx, Cell::Free(Some(d)));
                    let ghost cur = self@;
                    proof {
                        assert(cur =~= s0.update(p, Cell::Free(Some(d))));
                        assert forall|i: int| 0 <= i < 81 implies cell_wf(#[trigger] cur[i]) by {
                            if i != p {
                                assert(cur[i] == s0[i]);
                            }
                        }
                        assert(self.wf());
                    }
                    if self.is_valid() {
                        let r = self.solve_recursive(next_row, next_column);
                        if r {
                            proof {
                                let fin = self@;
                                // the final board completes the entry board from p on
                                assert forall|i: int| p <= i < 81 implies cell_filled(
                                    #[trigger] s0[i],
                                    fin[i],
                                ) by {
                                    if i == p {
                                        assert(fin[p] == cur[p]);
                                    } else {
                                        assert(cell_filled(cur[i], fin[i]));
                                        assert(cur[i] == s0[i]);
                                    }
                                }
                                assert forall|i: int| 0 <= i < p implies fin[i] == s0[i] by {
                                    assert(fin[i] == cur[i]);
                                }
                                assert(is_completion(s0, fin, p));
                                // the final board is valid
                                if filled_from(cur, p + 1) {
                                    assert forall|i: int| 0 <= i < 81 implies fin[i]
                                        == cur[i] by {
                                        if i >= p + 1 {
                                            assert(cell_filled(cur[i], fin[i]));
                                        }
                                    }
                                    assert(fin =~= cur);
                                    assert(board_ok(fin));
                                } else {
                                    assert(board_ok(fin));
                                }
                                // no valid completion comes before it in search order
                                assert forall|t: Seq<Cell>| #[trigger]
                                    is_completion(s0, t, p) && board_ok(t) implies !lex_before(
                                    t,
                                    fin,
                                    p,
                                ) by {
                                    assert(cell_filled(s0[p], t[p]));
                                    let d0 = choose|d0: u8|
                                        t[p] == Cell::Free(Some(d0)) && 1 <= d0 <= 9;
                                    assert(t[p] == Cell::Free(Some(d0)) && 1 <= d0 <= 9);
                                    // t also completes the board with cell p set to d0
                                    let cur0 = s0.update(p, Cell::Free(Some(d0)));
                                    assert forall|i: int| p + 1 <= i < 81 implies cell_filled(
                                        #[trigger] cur0[i],
                                        t[i],
                                    ) by {
                                        assert(cur0[i] == s0[i]);
                                    }
                                    assert(is_completion(cur0, t, p + 1));
                                    if d0 < d {
                                        assert(!solvable_from(cur0, p + 1));
                                        assert(false);
                                    } else if d0 == d {
                                        assert(cur0 =~= cur);
                                        assert(!lex_before(t, fin, p + 1));
                                        assert(t[p] == fin[p]);
                                        lemma_lex_shift(t, fin, p);
                                    } else {
                                        // t holds a larger digit at p, so it cannot
                                        // come before the final board
                                        if lex_before(t, fin, p) {
                                            let i = choose|i: int|
                                                p <= i < 81 && #[trigger] agree_upto(t, fin, p, i)
                                                    && digit_int(t[i]) < digit_int(fin[i]);
                                            assert(fin[p] == cur[p]);
                                            assert(digit_int(t[p]) == d0 && digit_int(fin[p])
                                                == d);
                                            if i == p {
                                                assert(false);
                                            } else {
                                                assert(t[p] == fin[p]);
                                                assert(false);
                                            }
                                        }
                                    }
                                }
                            }
                            return true;
                        }
                        proof {
                            assert(self@ == cur);
                            assert(!solvable_from(cur, p + 1));
                            assert forall|dd: u8| 1 <= dd < d + 1 implies !solvable_from(
                                s0.update(p, Cell::Free(Some(dd))),
                                p + 1,
                            ) by {
                                if dd == d {
                                    assert(s0.update(p, Cell::Free(Some(dd))) == cur);
                                }
                            }
                        }
                    } else {
                        proof {
                            // an invalid partial board has no valid completion
                            if solvable_from(cur, p + 1) {
                                let t = choose|t: Seq<Cell>|
                                    #[trigger] is_completion(cur, t, p + 1) && board_ok(t);
                                lemma_completion_within(cur, t, p + 1);
                                lemma_ok_within(cur, t);
                                assert(false);
                            }
                            assert forall|dd: u8| 1 <= dd < d + 1 implies !solvable_from(
                                s0.update(p, Cell::Free(Some(dd))),
                                p + 1,
                            ) by {
                                if dd == d {
                                    assert(s0.update(p, Cell::Free(Some(dd))) == cur);
                                }
                            }
                        }
                    }
                    d += 1;
                }
                self.set_cell(idx, Cell::Free(None));
                proof {
                    assert(self@ =~= s0);
                    // every candidate failed, so no valid completion from p exists
                    if solvable_from(s0, p) {
                        let t = choose|t: Seq<Cell>|
                            #[trigger] is_completion(s0, t, p) && board_ok(t);
                        assert(cell_filled(s0[p], t[p]));
                        let d0 = choose|d0: u8| t[p] == Cell::Free(Some(d0)) && 1 <= d0 <= 9;
                        assert(t[p] == Cell::Free(Some(d0)) && 1 <= d0 <= 9);
                        let cur0 = s0.update(p, Cell::Free(Some(d0)));
                        assert forall|i: int| p + 1 <= i < 81 implies cell_filled(
                            #[trigger] cur0[i],
                            t[i],
                        ) by {
                            assert(cur0[i] == s0[i]);
                        }
                        assert(is_completion(cur0, t, p + 1));
                        assert(!solvable_from(cur0, p + 1));
                        assert(false);
                    }
                }
            },
            Some(_) => {
                let r = self.solve_recursive(next_row, next_column);
                proof {
                    let fin = self@;
                    if r {
                        assert(is_completion(s0, fin, p + 1));
                        assert forall|i: int| p <= i < 81 implies cell_filled(
                            #[trigger] s0[i],
                            fin[i],
                        ) by {
                            if i == p {
                                assert(fin[p] == s0[p]);
                            }
                        }
                        assert(is_completion(s0, fin, p));
                        if !filled_from(s0, p) {
                            assert(digit_at(s0[p]) is Some);
                            assert(!filled_from(s0, p + 1));
                            assert(board_ok(fin));
                        }
                        assert forall|t: Seq<Cell>| #[trigger]
                            is_completion(s0, t, p) && board_ok(t) implies !lex_before(
                            t,
                            fin,
                            p,
                        ) by {
                            assert(cell_filled(s0[p], t[p]));
                            assert(t[p] == s0[p]);
                            assert forall|i: int| p + 1 <= i < 81 implies cell_filled(
                                #[trigger] s0[i],
                                t[i],
                            ) by {}
                            assert(is_completion(s0, t, p + 1));
                            assert(!lex_before(t, fin, p + 1));
                            assert(fin[p] == s0[p]);
                            lemma_lex_shift(t, fin, p);
                        }
                    }
                    if solvable_from(s0, p) {
                        let t = choose|t: Seq<Cell>|
                            #[trigger] is_completion(s0, t, p) && board_ok(t);
                        assert(cell_filled(s0[p], t[p]));
                        assert(t[p] == s0[p]);
                        assert(is_completion(s0, t, p + 1));
                        assert(solvable_from(s0, p + 1));
                    }
                }
                return r;
            },
        }
        false
    }

    /// Runs the backtracking search over the whole board.
    ///
    /// When the puzzle is solvable the board afterwards holds its first
    /// valid completion in search order (cells row-major, candidate digits
    /// ascending); otherwise the board is left exactly as it was.  Assigned
    /// cells, the given clues among them, are never altered.
    pub fn solve(&mut self)
        requires
            old(self).wf(),
        ensures
            final(self).wf(),
            solvable(old(self)@) ==> is_completion(old(self)@, final(self)@, 0) && filled_from(
                final(self)@,
                0,
            ) && board_ok(final(self)@) && minimal_from(old(self)@, final(self)@, 0),
            !solvable(old(self)@) ==> final(self)@ == old(self)@,
            forall|i: int|
                0 <= i < 81 && digit_at(#[trigger] old(self)@[i]) is Some ==> digit_at(
                    final(self)@[i],
                ) == digit_at(old(self)@[i]),
    {
        let ghost s0 = old(self)@;
        let r = self.solve_recursive(0, 0);
        proof {
            let fin = self@;
            if solvable(s0) {
                assert(r);
                assert(is_completion(s0, fin, 0));
                assert forall|i: int| 0 <= i < 81 implies digit_at(#[trigger] fin[i]) is Some by {
                    assert(cell_filled(s0[i], fin[i]));
                }
                if filled_from(s0, 0) {
                    assert forall|i: int| 0 <= i < 81 implies fin[i] == s0[i] by {
                        assert(cell_filled(s0[i], fin[i]));
                    }
                    assert(fin =~= s0);
                    let t = choose|t: Seq<Cell>|
                        #[trigger] is_completion(s0, t, 0) && board_ok(t);
                    assert forall|i: int| 0 <= i < 81 implies t[i] == s0[i] by {
                        assert(cell_filled(s0[i], t[i]));
                    }
                    assert(t =~= s0);
                    assert(board_ok(fin));
                } else {
                    assert(board_ok(fin));
                }
            }
            if !solvable(s0) {
                if r {
                    assert(is_completion(s0, fin, 0));
                    if !filled_from(s0, 0) {
                        assert(board_ok(fin));
                        assert(false);
                    }
                    assert forall|i: int| 0 <= i < 81 implies fin[i] == s0[i] by {
                        assert(cell_filled(s0[i], fin[i]));
                    }
                    assert(fin =~= s0);
                }
            }
            if r {
                lemma_completion_within(s0, fin, 0);
            }
        }
    }
}

} // verus!
