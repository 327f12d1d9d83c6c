//! Grid state and constraint bookkeeping: the flat buffer of symbol values
//! and the per-row, per-column and per-block occupancy bit-sets, with the two
//! primitive mutators `place` and `unplace` and the legality query.

use vstd::prelude::*;
use crate::board::{
    area_of, blk_of, col_of, has_bit, lemma_cell_geometry, row_of, same_group, side_of,
};

verus! {

/// Mathematical model of a grid: the order, the cell buffer, and the three
/// families of occupancy bit-sets.
#[verifier::ext_equal]
pub ghost struct GridModel {
    pub order: nat,
    pub buf: Seq<u8>,
    pub rows: Seq<u64>,
    pub cols: Seq<u64>,
    pub blks: Seq<u64>,
}

/// Some cell of row `k` holds symbol `s`.
pub open spec fn row_has_sym(buf: Seq<u8>, o: nat, k: int, s: u8) -> bool {
    exists|c: int| 0 <= c < buf.len() && row_of(c as nat, o) == k && #[trigger] buf[c] == s
}

/// Some cell of column `k` holds symbol `s`.
pub open spec fn col_has_sym(buf: Seq<u8>, o: nat, k: int, s: u8) -> bool {
    exists|c: int| 0 <= c < buf.len() && col_of(c as nat, o) == k && #[trigger] buf[c] == s
}

/// Some cell of block `k` holds symbol `s`.
pub open spec fn blk_has_sym(buf: Seq<u8>, o: nat, k: int, s: u8) -> bool {
    exists|c: int| 0 <= c < buf.len() && blk_of(c as nat, o) == k && #[trigger] buf[c] == s
}

pub open spec fn set_bit(m: u64, i: u64) -> u64 {
    m | (1u64 << i)
}

pub open spec fn clear_bit(m: u64, i: u64) -> u64 {
    m & !(1u64 << i)
}

impl GridModel {
    /// Well-formed grid state: buffers have the right lengths, symbols are in
    /// range, each occupancy bit is set exactly when its group holds the
    /// symbol, and no group holds a symbol twice.
    pub open spec fn wf(self) -> bool {
        let o = self.order;
        let l = side_of(o);
        let a = area_of(o);
        &&& o <= 8
        &&& self.buf.len() == a
        &&& self.rows.len() == l
        &&& self.cols.len() == l
        &&& self.blks.len() == l
        &&& forall|c: int| 0 <= c < a ==> #[trigger] self.buf[c] <= l
        &&& forall|k: int, b: u64|
            0 <= k < l && b < l ==> ((#[trigger] has_bit(self.rows[k], b)) <==> row_has_sym(
                self.buf,
                o,
                k,
                (b + 1) as u8,
            ))
        &&& forall|k: int, b: u64|
            0 <= k < l && b < l ==> ((#[trigger] has_bit(self.cols[k], b)) <==> col_has_sym(
                self.buf,
                o,
                k,
                (b + 1) as u8,
            ))
        &&& forall|k: int, b: u64|
            0 <= k < l && b < l ==> ((#[trigger] has_bit(self.blks[k], b)) <==> blk_has_sym(
                self.buf,
                o,
                k,
                (b + 1) as u8,
            ))
        &&& forall|c1: int, c2: int|
            0 <= c1 < a && 0 <= c2 < a && c1 != c2 && same_group(c1 as nat, c2 as nat, o)
                && #[trigger] self.buf[c1] != 0 ==> self.buf[c1] != #[trigger] self.buf[c2]
    }
}

/// Symbol `s` may be placed at `cell`: it is in `[1, L]` and not yet used in
/// the cell's row, column or block.
pub open spec fn legal_spec(m: GridModel, cell: nat, s: nat) -> bool {
    &&& 1 <= s <= side_of(m.order)
    &&& !has_bit(m.rows[row_of(cell, m.order) as int], (s - 1) as u64)
    &&& !has_bit(m.cols[col_of(cell, m.order) as int], (s - 1) as u64)
    &&& !has_bit(m.blks[blk_of(cell, m.order) as int], (s - 1) as u64)
}

/// The grid after writing symbol `s` into `cell` and recording it in the
/// three occupancy bit-sets of that cell.
pub open spec fn place_spec(m: GridModel, cell: nat, s: u8) -> GridModel {
    let r = row_of(cell, m.order) as int;
    let q = col_of(cell, m.order) as int;
    let b = blk_of(cell, m.order) as int;
    GridModel {
        buf: m.buf.update(cell as int, s),
        rows: m.rows.update(r, set_bit(m.rows[r], (s - 1) as u64)),
        cols: m.cols.update(q, set_bit(m.cols[q], (s - 1) as u64)),
        blks: m.blks.update(b, set_bit(m.blks[b], (s - 1) as u64)),
        ..m
    }
}

/// The grid after clearing `cell` and withdrawing its symbol from the three
/// occupancy bit-sets of that cell.
pub open spec fn unplace_spec(m: GridModel, cell: nat) -> GridModel {
    let s = m.buf[cell as int];
    let r = row_of(cell, m.order) as int;
    let q = col_of(cell, m.order) as int;
    let b = blk_of(cell, m.order) as int;
    GridModel {
        buf: m.buf.update(cell as int, 0),
        rows: m.rows.update(r, clear_bit(m.rows[r], (s - 1) as u64)),
        cols: m.cols.update(q, clear_bit(m.cols[q], (s - 1) as u64)),
        blks: m.blks.update(b, clear_bit(m.blks[b], (s - 1) as u64)),
        ..m
    }
}

proof fn lemma_set_bit(m: u64, i: u64, j: u64)
    requires
        i < 64,
        j < 64,
    ensures
        has_bit(set_bit(m, i), j) == (has_bit(m, j) || i == j),
{
    assert((m | (1u64 << i)) & (1u64 << j) != 0 <==> (m & (1u64 << j) != 0 || i == j))
        by (bit_vector)
        requires i < 64, j < 64;
}

proof fn lemma_clear_bit(m: u64, i: u64, j: u64)
    requires
        i < 64,
        j < 64,
    ensures
        has_bit(clear_bit(m, i), j) == (has_bit(m, j) && i != j),
{
    assert((m & !(1u64 << i)) & (1u64 << j) != 0 <==> (m & (1u64 << j) != 0 && i != j))
        by (bit_vector)
        requires i < 64, j < 64;
}

proof fn lemma_set_then_clear_bit(m: u64, i: u64)
    requires
        i < 64,
        !has_bit(m, i),
    ensures
        clear_bit(set_bit(m, i), i) == m,
{
    assert((m | (1u64 << i)) & !(1u64 << i) == m) by (bit_vector)
        requires i < 64, m & (1u64 << i) == 0;
}

/// Placing a legal symbol into an empty cell preserves well-formedness.
pub proof fn lemma_place_preserves_wf(m: GridModel, cell: nat, s: u8)
    requires
        m.wf(),
        1 <= m.order,
        cell < area_of(m.order),
        m.buf[cell as int] == 0,
        legal_spec(m, cell, s as nat),
    ensures
        place_spec(m, cell, s).wf(),
{
    let o = m.order;
    let l = side_of(o);
    let a = area_of(o);
    let n = place_spec(m, cell, s);
    let r0 = row_of(cell, o) as int;
    let q0 = col_of(cell, o) as int;
    let b0 = blk_of(cell, o) as int;
    lemma_cell_geometry(cell, o);
    assert(l <= 64) by (nonlinear_arith)
        requires o <= 8, l == o * o;
    assert forall|i: u64, j: u64| i < 64 && j < 64 implies
        (has_bit(set_bit(m.rows[r0], i), j) == (has_bit(m.rows[r0], j) || i == j))
        && (has_bit(set_bit(m.cols[q0], i), j) == (has_bit(m.cols[q0], j) || i == j))
        && (has_bit(set_bit(m.blks[b0], i), j) == (has_bit(m.blks[b0], j) || i == j)) by {
        lemma_set_bit(m.rows[r0], i, j);
        lemma_set_bit(m.cols[q0], i, j);
        lemma_set_bit(m.blks[b0], i, j);
    }
    // Row bit-sets keep their meaning.
    assert forall|k: int, b: u64| 0 <= k < l && b < l implies
        ((has_bit(n.rows[k], b)) <==> row_has_sym(n.buf, o, k, (b + 1) as u8)) by {
        if k == r0 {
            if has_bit(n.rows[k], b) {
                if b == (s - 1) as u64 {
                    assert(n.buf[cell as int] == s);
                    assert(row_has_sym(n.buf, o, k, (b + 1) as u8));
                } else {
                    assert(has_bit(m.rows[k], b));
                    let c = choose|c: int|
                        0 <= c < m.buf.len() && row_of(c as nat, o) == k && #[trigger] m.buf[c]
                            == (b + 1) as u8;
                    assert(c != cell as int);
                    assert(n.buf[c] == (b + 1) as u8);
                }
            }
            if row_has_sym(n.buf, o, k, (b + 1) as u8) {
                let c = choose|c: int|
                    0 <= c < n.buf.len() && row_of(c as nat, o) == k && #[trigger] n.buf[c]
                        == (b + 1) as u8;
                if c == cell as int {
                    assert(b == (s - 1) as u64);
                } else {
                    assert(m.buf[c] == (b + 1) as u8);
                    assert(has_bit(m.rows[k], b));
                }
            }
        } else {
            assert(n.rows[k] == m.rows[k]);
            if row_has_sym(n.buf, o, k, (b + 1) as u8) {
                let c = choose|c: int|
                    0 <= c < n.buf.len() && row_of(c as nat, o) == k && #[trigger] n.buf[c]
                        == (b + 1) as u8;
                assert(c != cell as int);
                assert(m.buf[c] == (b + 1) as u8);
            }
            if row_has_sym(m.buf, o, k, (b + 1) as u8) {
                let c = choose|c: int|
                    0 <= c < m.buf.len() && row_of(c as nat, o) == k && #[trigger] m.buf[c]
                        == (b + 1) as u8;
                assert(c != cell as int);
                assert(n.buf[c] == (b + 1) as u8);
            }
        }
    }
    // Column bit-sets keep their meaning.
    assert forall|k: int, b: u64| 0 <= k < l && b < l implies
        ((has_bit(n.cols[k], b)) <==> col_has_sym(n.buf, o, k, (b + 1) as u8)) by {
        if k == q0 {
            if has_bit(n.cols[k], b) {
                if b == (s - 1) as u64 {
                    assert(n.buf[cell as int] == s);
                    assert(col_has_sym(n.buf, o, k, (b + 1) as u8));
                } else {
                    assert(has_bit(m.cols[k], b));
                    let c = choose|c: int|
                        0 <= c < m.buf.len() && col_of(c as nat, o) == k && #[trigger] m.buf[c]
                            == (b + 1) as u8;
                    assert(c != cell as int);
                    assert(n.buf[c] == (b + 1) as u8);
                }
            }
            if col_has_sym(n.buf, o, k, (b + 1) as u8) {
                let c = choose|c: int|
                    0 <= c < n.buf.len() && col_of(c as nat, o) == k && #[trigger] n.buf[c]
                        == (b + 1) as u8;
                if c == cell as int {
                    assert(b == (s - 1) as u64);
                } else {
                    assert(m.buf[c] == (b + 1) as u8);
                    assert(has_bit(m.cols[k], b));
                }
            }
        } else {
            assert(n.cols[k] == m.cols[k]);
            if col_has_sym(n.buf, o, k, (b + 1) as u8) {
                let c = choose|c: int|
                    0 <= c < n.buf.len() && col_of(c as nat, o) == k && #[trigger] n.buf[c]
                        == (b + 1) as u8;
                assert(c != cell as int);
                assert(m.buf[c] == (b + 1) as u8);
            }
            if col_has_sym(m.buf, o, k, (b + 1) as u8) {
                let c = choose|c: int|
                    0 <= c < m.buf.len() && col_of(c as nat, o) == k && #[trigger] m.buf[c]
                        == (b + 1) as u8;
                assert(c != cell as int);
                assert(n.buf[c] == (b + 1) as u8);
            }
        }
    }
    // Block bit-sets keep their meaning.
    assert forall|k: int, b: u64| 0 <= k < l && b < l implies
        ((has_bit(n.blks[k], b)) <==> blk_has_sym(n.buf, o, k, (b + 1) as u8)) by {
        if k == b0 {
            if has_bit(n.blks[k], b) {
                if b == (s - 1) as u64 {
                    assert(n.buf[cell as int] == s);
                    assert(blk_has_sym(n.buf, o, k, (b + 1) as u8));
                } else {
                    assert(has_bit(m.blks[k], b));
                    let c = choose|c: int|
                        0 <= c < m.buf.len() && blk_of(c as nat, o) == k && #[trigger] m.buf[c]
                            == (b + 1) as u8;
                    assert(c != cell as int);
                    assert(n.buf[c] == (b + 1) as u8);
                }
            }
            if blk_has_sym(n.buf, o, k, (b + 1) as u8) {
                let c = choose|c: int|
                    0 <= c < n.buf.len() && blk_of(c as nat, o) == k && #[trigger] n.buf[c]
                        == (b + 1) as u8;
                if c == cell as int {
                    assert(b == (s - 1) as u64);
                } else {
                    assert(m.buf[c] == (b + 1) as u8);
                    assert(has_bit(m.blks[k], b));
                }
            }
        } else {
            assert(n.blks[k] == m.blks[k]);
            if blk_has_sym(n.buf, o, k, (b + 1) as u8) {
                let c = choose|c: int|
                    0 <= c < n.buf.len() && blk_of(c as nat, o) == k && #[trigger] n.buf[c]
                        == (b + 1) as u8;
                assert(c != cell as int);
                assert(m.buf[c] == (b + 1) as u8);
            }
            if blk_has_sym(m.buf, o, k, (b + 1) as u8) {
                let c = choose|c: int|
                    0 <= c < m.buf.len() && blk_of(c as nat, o) == k && #[trigger] m.buf[c]
                        == (b + 1) as u8;
                assert(c != cell as int);
                assert(n.buf[c] == (b + 1) as u8);
            }
        }
    }
    // No group comes to hold a symbol twice.
    assert forall|c1: int, c2: int|
        0 <= c1 < a && 0 <= c2 < a && c1 != c2 && same_group(c1 as nat, c2 as nat, o)
            && #[trigger] n.buf[c1] != 0 implies n.buf[c1] != #[trigger] n.buf[c2] by {
        if c1 == cell as int && n.buf[c2] == s {
            assert(m.buf[c2] == s);
            if row_of(c1 as nat, o) == row_of(c2 as nat, o) {
                assert(row_has_sym(m.buf, o, r0, s));
                assert(has_bit(m.rows[r0], (s - 1) as u64));
            } else if col_of(c1 as nat, o) == col_of(c2 as nat, o) {
                assert(col_has_sym(m.buf, o, q0, s));
                assert(has_bit(m.cols[q0], (s - 1) as u64));
            } else {
                assert(blk_has_sym(m.buf, o, b0, s));
                assert(has_bit(m.blks[b0], (s - 1) as u64));
            }
        } else if c2 == cell as int && n.buf[c1] == s {
            assert(m.buf[c1] == s);
            if row_of(c1 as nat, o) == row_of(c2 as nat, o) {
                assert(row_has_sym(m.buf, o, r0, s));
                assert(has_bit(m.rows[r0], (s - 1) as u64));
            } else if col_of(c1 as nat, o) == col_of(c2 as nat, o) {
                assert(col_has_sym(m.buf, o, q0, s));
                assert(has_bit(m.cols[q0], (s - 1) as u64));
            } else {
                assert(blk_has_sym(m.buf, o, b0, s));
                assert(has_bit(m.blks[b0], (s - 1) as u64));
            }
        }
    }
}

/// Clearing an occupied cell preserves well-formedness.
pub proof fn lemma_unplace_preserves_wf(m: GridModel, cell: nat)
    requires
        m.wf(),
        1 <= m.order,
        cell < area_of(m.order),
        m.buf[cell as int] != 0,
    ensures
        unplace_spec(m, cell).wf(),
{
    let o = m.order;
    let l = side_of(o);
    let a = area_of(o);
    let n = unplace_spec(m, cell);
    let s = m.buf[cell as int];
    let r0 = row_of(cell, o) as int;
    let q0 = col_of(cell, o) as int;
    let b0 = blk_of(cell, o) as int;
    lemma_cell_geometry(cell, o);
    assert(l <= 64) by (nonlinear_arith)
        requires o <= 8, l == o * o;
    assert forall|i: u64, j: u64| i < 64 && j < 64 implies
        (has_bit(clear_bit(m.rows[r0], i), j) == (has_bit(m.rows[r0], j) && i != j))
        && (has_bit(clear_bit(m.cols[q0], i), j) == (has_bit(m.cols[q0], j) && i != j))
        && (has_bit(clear_bit(m.blks[b0], i), j) == (has_bit(m.blks[b0], j) && i != j)) by {
        lemma_clear_bit(m.rows[r0], i, j);
        lemma_clear_bit(m.cols[q0], i, j);
        lemma_clear_bit(m.blks[b0], i, j);
    }
    // Row bit-sets keep their meaning.
    assert forall|k: int, b: u64| 0 <= k < l && b < l implies
        ((has_bit(n.rows[k], b)) <==> row_has_sym(n.buf, o, k, (b + 1) as u8)) by {
        if has_bit(n.rows[k], b) {
            assert(has_bit(m.rows[k], b));
            let c = choose|c: int|
                0 <= c < m.buf.len() && row_of(c as nat, o) == k && #[trigger] m.buf[c]
                    == (b + 1) as u8;
            if k == r0 {
                assert(b != (s - 1) as u64);
                assert(c != cell as int);
            } else {
                assert(c != cell as int);
            }
            assert(n.buf[c] == (b + 1) as u8);
        }
        if row_has_sym(n.buf, o, k, (b + 1) as u8) {
            let c = choose|c: int|
                0 <= c < n.buf.len() && row_of(c as nat, o) == k && #[trigger] n.buf[c]
                    == (b + 1) as u8;
            assert(c != cell as int);
            assert(m.buf[c] == (b + 1) as u8);
            assert(has_bit(m.rows[k], b));
            if k == r0 && b == (s - 1) as u64 {
                // Another cell of the row would hold the withdrawn symbol.
                assert(same_group(c as nat, cell, o));
                assert(m.buf[c] == s);
                assert(false);
            }
        }
    }
    // Column bit-sets keep their meaning.
    assert forall|k: int, b: u64| 0 <= k < l && b < l implies
        ((has_bit(n.cols[k], b)) <==> col_has_sym(n.buf, o, k, (b + 1) as u8)) by {
        if has_bit(n.cols[k], b) {
            assert(has_bit(m.cols[k], b));
            let c = choose|c: int|
                0 <= c < m.buf.len() && col_of(c as nat, o) == k && #[trigger] m.buf[c]
                    == (b + 1) as u8;
            if k == q0 {
                assert(b != (s - 1) as u64);
                assert(c != cell as int);
            } else {
                assert(c != cell as int);
            }
            assert(n.buf[c] == (b + 1) as u8);
        }
        if col_has_sym(n.buf, o, k, (b + 1) as u8) {
            let c = choose|c: int|
                0 <= c < n.buf.len() && col_of(c as nat, o) == k && #[trigger] n.buf[c]
                    == (b + 1) as u8;
            assert(c != cell as int);
            assert(m.buf[c] == (b + 1) as u8);
            assert(has_bit(m.cols[k], b));
            if k == q0 && b == (s - 1) as u64 {
                assert(same_group(c as nat, cell, o));
                assert(m.buf[c] == s);
                assert(false);
            }
        }
    }
    // Block bit-sets keep their meaning.
    assert forall|k: int, b: u64| 0 <= k < l && b < l implies
        ((has_bit(n.blks[k], b)) <==> blk_has_sym(n.buf, o, k, (b + 1) as u8)) by {
        if has_bit(n.blks[k], b) {
            assert(has_bit(m.blks[k], b));
            let c = choose|c: int|
                0 <= c < m.buf.len() && blk_of(c as nat, o) == k && #[trigger] m.buf[c]
                    == (b + 1) as u8;
            if k == b0 {
                assert(b != (s - 1) as u64);
                assert(c != cell as int);
            } else {
                assert(c != cell as int);
            }
            assert(n.buf[c] == (b + 1) as u8);
        }
        if blk_has_sym(n.buf, o, k, (b + 1) as u8) {
            let c = choose|c: int|
                0 <= c < n.buf.len() && blk_of(c as nat, o) == k && #[trigger] n.buf[c]
                    == (b + 1) as u8;
            assert(c != cell as int);
            assert(m.buf[c] == (b + 1) as u8);
            assert(has_bit(m.blks[k], b));
            if k == b0 && b == (s - 1) as u64 {
                assert(same_group(c as nat, cell, o));
                assert(m.buf[c] == s);
                assert(false);
            }
        }
    }
    assert forall|c1: int, c2: int|
        0 <= c1 < a && 0 <= c2 < a && c1 != c2 && same_group(c1 as nat, c2 as nat, o)
            && #[trigger] n.buf[c1] != 0 implies n.buf[c1] != #[trigger] n.buf[c2] by {
        if c1 != cell as int && c2 != cell as int {
            assert(m.buf[c1] == n.buf[c1] && m.buf[c2] == n.buf[c2]);
        }
    }
}

/// Withdrawing a symbol right after placing it restores the cell value and
/// all three occupancy bit-sets exactly.
pub proof fn lemma_place_unplace_round_trip(m: GridModel, cell: nat, s: u8)
    requires
        m.wf(),
        1 <= m.order,
        cell < area_of(m.order),
        m.buf[cell as int] == 0,
        legal_spec(m, cell, s as nat),
    ensures
        unplace_spec(place_spec(m, cell, s), cell) == m,
{
    let o = m.order;
    let n = place_spec(m, cell, s);
    let back = unplace_spec(n, cell);
    lemma_cell_geometry(cell, o);
    assert(side_of(o) <= 64) by (nonlinear_arith)
        requires o <= 8, side_of(o) == o * o;
    let r0 = row_of(cell, o) as int;
    let q0 = col_of(cell, o) as int;
    let b0 = blk_of(cell, o) as int;
    lemma_set_then_clear_bit(m.rows[r0], (s - 1) as u64);
    lemma_set_then_clear_bit(m.cols[q0], (s - 1) as u64);
    lemma_set_then_clear_bit(m.blks[b0], (s - 1) as u64);
    assert(back.buf =~= m.buf);
    assert(back.rows =~= m.rows);
    assert(back.cols =~= m.cols);
    assert(back.blks =~= m.blks);
    assert(back =~= m);
}

/// The grid of a board with all cells empty and all occupancy bit-sets clear.
pub open spec fn empty_grid_model(o: nat) -> GridModel {
    GridModel {
        order: o,
        buf: Seq::new(area_of(o), |i: int| 0u8),
        rows: Seq::new(side_of(o), |i: int| 0u64),
        cols: Seq::new(side_of(o), |i: int| 0u64),
        blks: Seq::new(side_of(o), |i: int| 0u64),
    }
}

/// The empty grid is well formed.
pub proof fn lemma_empty_grid_wf(o: nat)
    requires
        o <= 8,
    ensures
        empty_grid_model(o).wf(),
{
    let m = empty_grid_model(o);
    let l = side_of(o);
    assert(l <= 64) by (nonlinear_arith)
        requires o <= 8, l == o * o;
    assert forall|k: int, b: u64| 0 <= k < l && b < l implies
        ((has_bit(m.rows[k], b)) <==> row_has_sym(m.buf, o, k, (b + 1) as u8)) by {
        assert(!has_bit(0u64, b)) by (bit_vector)
            requires b < 64;
    }
    assert forall|k: int, b: u64| 0 <= k < l && b < l implies
        ((has_bit(m.cols[k], b)) <==> col_has_sym(m.buf, o, k, (b + 1) as u8)) by {
        assert(!has_bit(0u64, b)) by (bit_vector)
            requires b < 64;
    }
    assert forall|k: int, b: u64| 0 <= k < l && b < l implies
        ((has_bit(m.blks[k], b)) <==> blk_has_sym(m.buf, o, k, (b + 1) as u8)) by {
        assert(!has_bit(0u64, b)) by (bit_vector)
            requires b < 64;
    }
}

/// Builds a vector holding `n` copies of `x`.
pub fn filled_vec<T: Copy>(n: usize, x: T) -> (v: Vec<T>)
    ensures
        v@ == Seq::new(n as nat, |i: int| x),
{
    let mut v: Vec<T> = Vec::new();
    let mut i: usize = 0;
    while i < n
        invariant
            i <= n,
            v@ == Seq::new(i as nat, |j: int| x),
        decreases n - i,
    {
        v.push(x);
        i = i + 1;
        proof {
            assert(v@ =~= Seq::new(i as nat, |j: int| x));
        }
    }
    v
}

/// Grid state: the flat buffer of symbol values (0 meaning empty) and the
/// per-row, per-column and per-block occupancy bit-sets. Supports orders up
/// to 8, whose occupancy bit-sets fit in one 64-bit word.
pub struct Grid {
    order: usize,
    side: usize,
    area: usize,
    buf: Vec<u8>,
    row_has: Vec<u64>,
    col_has: Vec<u64>,
    blk_has: Vec<u64>,
}

impl View for Grid {
    type V = GridModel;

    closed spec fn view(&self) -> GridModel {
        GridModel {
            order: self.order as nat,
            buf: self.buf@,
            rows: self.row_has@,
            cols: self.col_has@,
            blks: self.blk_has@,
        }
    }
}

impl Grid {
    /// Representation invariant: the cached side and area match the order
    /// and the model is well formed.
    pub closed spec fn wf(&self) -> bool {
        &&& self@.wf()
        &&& self.order <= 8
        &&& self.side == side_of(self.order as nat)
        &&& self.area == area_of(self.order as nat)
    }

    pub open spec fn order_spec(&self) -> nat {
        self@.order
    }

    /// An empty grid of the given order.
    pub fn new(order: usize) -> (g: Grid)
        requires
            order <= 8,
        ensures
            g.wf(),
            g@ == empty_grid_model(order as nat),
    {
        proof {
            assert(side_of(order as nat) <= 64 && area_of(order as nat) <= 4096)
                by (nonlinear_arith)
                requires order <= 8;
            lemma_empty_grid_wf(order as nat);
        }
        let side = order * order;
        let area = side * side;
        Grid {
            order,
            side,
            area,
            buf: filled_vec(area, 0u8),
            row_has: filled_vec(side, 0u64),
            col_has: filled_vec(side, 0u64),
            blk_has: filled_vec(side, 0u64),
        }
    }

    pub fn order(&self) -> (o: usize)
        ensures
            o == self@.order,
    {
        self.order
    }

    pub fn side(&self) -> (l: usize)
        requires
            self.wf(),
        ensures
            l == side_of(self@.order),
    {
        self.side
    }

    pub fn area(&self) -> (a: usize)
        requires
            self.wf(),
        ensures
            a == area_of(self@.order),
    {
        self.area
    }

    /// The symbol at a cell, 0 when the cell is empty.
    pub fn value(&self, cell: usize) -> (s: u8)
        requires
            self.wf(),
            cell < area_of(self@.order),
        ensures
            s == self@.buf[cell as int],
    {
        self.buf[cell]
    }

    /// A copy of the cell buffer in linear row-major layout.
    pub fn snapshot(&self) -> (v: Vec<u8>)
        requires
            self.wf(),
        ensures
            v@ == self@.buf,
    {
        let mut v: Vec<u8> = Vec::new();
        let mut i: usize = 0;
        while i < self.area
            invariant
                self.wf(),
                i <= self.area,
                v@ == self@.buf.subrange(0, i as int),
            decreases self.area - i,
        {
            v.push(self.buf[i]);
            i = i + 1;
            proof {
                assert(v@ =~= self@.buf.subrange(0, i as int));
            }
        }
        proof {
            assert(v@ =~= self@.buf);
        }
        v
    }

    /// Whether symbol `s` may be placed at `cell`: not yet used in the
    /// cell's row, column or block.
    pub fn is_legal(&self, cell: usize, s: u8) -> (r: bool)
        requires
            self.wf(),
            cell < area_of(self@.order),
            1 <= s,
            s as nat <= side_of(self@.order),
        ensures
            r == legal_spec(self@, cell as nat, s as nat),
    {
        proof {
            crate::board::lemma_order_from_area(self@.order);
            lemma_cell_geometry(cell as nat, self@.order);
            assert(side_of(self@.order) <= 64) by (nonlinear_arith)
                requires self@.order <= 8;
        }
        let l = self.side;
        let r = cell / l;
        let q = cell % l;
        let b = (r / self.order) * self.order + q / self.order;
        let bit = 1u64 << ((s - 1) as u64);
        (self.row_has[r] & bit == 0) && (self.col_has[q] & bit == 0) && (self.blk_has[b] & bit
            == 0)
    }

    /// The bit-set of all symbols still legal at `cell`: bit `s - 1` is set
    /// exactly when symbol `s` is used in none of the cell's three groups.
    pub fn legal_symbols(&self, cell: usize) -> (mask: u64)
        requires
            self.wf(),
            cell < area_of(self@.order),
        ensures
            forall|b: u64| b < side_of(self@.order) ==>
                (#[trigger] has_bit(mask, b) == legal_spec(self@, cell as nat, (b + 1) as nat)),
            forall|b: u64| side_of(self@.order) <= b < 64 ==> !has_bit(mask, b),
    {
        proof {
            crate::board::lemma_order_from_area(self@.order);
            lemma_cell_geometry(cell as nat, self@.order);
            assert(side_of(self@.order) <= 64) by (nonlinear_arith)
                requires self@.order <= 8;
        }
        let l = self.side;
        let r = cell / l;
        let q = cell % l;
        let b = (r / self.order) * self.order + q / self.order;
        let used = self.row_has[r] | self.col_has[q] | self.blk_has[b];
        let all: u64 = if l == 64 {
            !0u64
        } else {
            proof {
                assert(1u64 << (l as u64) >= 1) by (bit_vector)
                    requires (l as u64) < 64;
            }
            (1u64 << (l as u64)) - 1
        };
        let mask = !used & all;
        proof {
            let lv = l as u64;
            let rm = self.row_has[r as int];
            let cm = self.col_has[q as int];
            let bm = self.blk_has[b as int];
            assert forall|i: u64| i < 64 implies
                has_bit(mask, i) == (i < lv && !has_bit(rm, i) && !has_bit(cm, i) && !has_bit(
                    bm,
                    i,
                )) by {
                if lv == 64 {
                    assert(mask & (1u64 << i) != 0 <==> (rm & (1u64 << i) == 0 && cm & (1u64
                        << i) == 0 && bm & (1u64 << i) == 0))
                        by (bit_vector)
                        requires i < 64, all == !0u64, mask == !(rm | cm | bm) & all;
                } else {
                    assert(mask & (1u64 << i) != 0 <==> (i < lv && rm & (1u64 << i) == 0 && cm
                        & (1u64 << i) == 0 && bm & (1u64 << i) == 0))
                        by (bit_vector)
                        requires
                            i < 64,
                            lv < 64,
                            all + 1 == 1u64 << lv,
                            mask == !(rm | cm | bm) & all,
                ;
                }
            }
            assert forall|b: u64| side_of(self@.order) <= b < 64 implies !has_bit(mask, b) by {
                assert(!(b < lv));
            }
        }
        mask
    }

    /// Writes legal symbol `s` into empty cell `cell` and records it in the
    /// three occupancy bit-sets.
    pub fn place(&mut self, cell: usize, s: u8)
        requires
            old(self).wf(),
            cell < area_of(old(self)@.order),
            old(self)@.buf[cell as int] == 0,
            legal_spec(old(self)@, cell as nat, s as nat),
        ensures
            final(self).wf(),
            final(self)@ == place_spec(old(self)@, cell as nat, s),
    {
        proof {
            crate::board::lemma_order_from_area(self@.order);
            lemma_cell_geometry(cell as nat, self@.order);
            lemma_place_preserves_wf(self@, cell as nat, s);
            assert(side_of(self@.order) <= 64) by (nonlinear_arith)
                requires self@.order <= 8;
        }
        let l = self.side;
        let r = cell / l;
        let q = cell % l;
        let b = (r / self.order) * self.order + q / self.order;
        let bit = 1u64 << ((s - 1) as u64);
        self.buf.set(cell, s);
        let rm = self.row_has[r];
        self.row_has.set(r, rm | bit);
        let cm = self.col_has[q];
        self.col_has.set(q, cm | bit);
        let bm = self.blk_has[b];
        self.blk_has.set(b, bm | bit);
        proof {
            assert(self@ =~= place_spec(old(self)@, cell as nat, s));
        }
    }

    /// Clears occupied cell `cell` and withdraws its symbol from the three
    /// occupancy bit-sets.
    pub fn unplace(&mut self, cell: usize)
        requires
            old(self).wf(),
            cell < area_of(old(self)@.order),
            old(self)@.buf[cell as int] != 0,
        ensures
            final(self).wf(),
            final(self)@ == unplace_spec(old(self)@, cell as nat),
    {
        proof {
            crate::board::lemma_order_from_area(self@.order);
            lemma_cell_geometry(cell as nat, self@.order);
            lemma_unplace_preserves_wf(self@, cell as nat);
            assert(side_of(self@.order) <= 64) by (nonlinear_arith)
                requires self@.order <= 8;
        }
        let l = self.side;
        let r = cell / l;
        let q = cell % l;
        let b = (r / self.order) * self.order + q / self.order;
        let s = self.buf[cell];
        let bit = !(1u64 << ((s - 1) as u64));
        self.buf.set(cell, 0);
        let rm = self.row_has[r];
        self.row_has.set(r, rm & bit);
        let cm = self.col_has[q];
        self.col_has.set(q, cm & bit);
        let bm = self.blk_has[b];
        self.blk_has.set(b, bm & bit);
        proof {
            assert(self@ =~= unplace_spec(old(self)@, cell as nat));
        }
    }
}

} // verus!
