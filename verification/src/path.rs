//! Traversal strategies ("paths"): bijective mappings from search progress to
//! linear cell coordinates, precomputed once per order and strategy into a
//! lookup table.

use vstd::prelude::*;
use vstd::arithmetic::div_mod::{
    lemma_fundamental_div_mod, lemma_fundamental_div_mod_converse_div,
    lemma_fundamental_div_mod_converse_mod,
};
use crate::board::{area_of, lemma_cell_from_row_col, lemma_cell_geometry, lemma_order_from_area,
    lemma_row_col_of_index, side_of};

verus! {

/// The traversal order in which the generator visits cells.
#[derive(Clone, Copy, PartialEq, Eq, Structural, Debug)]
pub enum Path {
    /// Rows top to bottom, each row left to right.
    RowMajor,
    /// Deals one cell into each block in turn, as cards are dealt round-robin
    /// across blocks: block-row, then block-column, then within-block offset.
    CardDeal,
    /// One full block-column at a time, row by row within it.
    BlockCol,
}

/// Cell visited at progress `p` under the card-deal order: the outer loops
/// pick a within-block offset `(b_row, b_col)` and the inner index `k` sweeps
/// the blocks.
pub open spec fn card_deal_coord(o: nat, p: nat) -> nat {
    let l = side_of(o);
    let b_row = p / (o * l);
    let rem = p % (o * l);
    let b_col = rem / l;
    let k = rem % l;
    ((k / o) * o + b_row) * l + ((k % o) * o + b_col)
}

/// Progress at which cell `c` is visited under the card-deal order.
pub open spec fn card_deal_progress(o: nat, c: nat) -> nat {
    let l = side_of(o);
    let row = c / l;
    let col = c % l;
    (row % o) * (o * l) + (col % o) * l + ((row / o) * o + col / o)
}

/// Cell visited at progress `p` under the block-column order.
pub open spec fn block_col_coord(o: nat, p: nat) -> nat {
    let l = side_of(o);
    let bcol = p / (l * o);
    let rem = p % (l * o);
    let row = rem / o;
    let bc = rem % o;
    row * l + (bcol * o + bc)
}

/// Progress at which cell `c` is visited under the block-column order.
pub open spec fn block_col_progress(o: nat, c: nat) -> nat {
    let l = side_of(o);
    let row = c / l;
    let col = c % l;
    (col / o) * (l * o) + (row * o + col % o)
}

/// Cell visited at progress `p` under traversal strategy `path`.
pub open spec fn path_coord(path: Path, o: nat, p: nat) -> nat {
    match path {
        Path::RowMajor => p,
        Path::CardDeal => card_deal_coord(o, p),
        Path::BlockCol => block_col_coord(o, p),
    }
}

/// Progress at which cell `c` is visited under traversal strategy `path`.
pub open spec fn path_progress(path: Path, o: nat, c: nat) -> nat {
    match path {
        Path::RowMajor => c,
        Path::CardDeal => card_deal_progress(o, c),
        Path::BlockCol => block_col_progress(o, c),
    }
}

proof fn lemma_card_deal_round_trip(o: nat, p: nat)
    requires
        1 <= o,
        p < area_of(o),
    ensures
        card_deal_coord(o, p) < area_of(o),
        card_deal_progress(o, card_deal_coord(o, p)) == p,
{
    let l = side_of(o);
    let ol = o * l;
    assert(1 <= l && 1 <= ol && area_of(o) == o * ol && l * o == ol) by (nonlinear_arith)
        requires 1 <= o, l == o * o, ol == o * l, area_of(o) == l * l;
    let b_row = p / ol;
    let rem = p % ol;
    let b_col = rem / l;
    let k = rem % l;
    lemma_fundamental_div_mod(p as int, ol as int);
    assert(b_row < o) by (nonlinear_arith)
        requires 1 <= ol, p < o * ol, p == ol * b_row + rem, 0 <= rem < ol;
    lemma_fundamental_div_mod(rem as int, l as int);
    assert(b_col < o) by (nonlinear_arith)
        requires 1 <= l, rem < o * l, rem == l * b_col + k, 0 <= k < l;
    lemma_fundamental_div_mod(k as int, o as int);
    let kh = k / o;
    let kl = k % o;
    assert(kh < o) by (nonlinear_arith)
        requires 1 <= o, k < o * o, k == o * kh + kl, 0 <= kl < o;
    let row = kh * o + b_row;
    let col = kl * o + b_col;
    assert(row < l && col < l) by (nonlinear_arith)
        requires kh < o, kl < o, b_row < o, b_col < o, l == o * o, row == kh * o + b_row,
            col == kl * o + b_col;
    lemma_row_col_of_index(row, col, o);
    let c = row * l + col;
    assert(card_deal_coord(o, p) == c);
    // Recover the pieces of `p` from the coordinate.
    lemma_fundamental_div_mod_converse_div(row as int, o as int, kh as int, b_row as int);
    lemma_fundamental_div_mod_converse_mod(row as int, o as int, kh as int, b_row as int);
    lemma_fundamental_div_mod_converse_div(col as int, o as int, kl as int, b_col as int);
    lemma_fundamental_div_mod_converse_mod(col as int, o as int, kl as int, b_col as int);
    assert(row / o == kh && row % o == b_row && col / o == kl && col % o == b_col);
    assert((row / o) * o + col / o == k) by (nonlinear_arith)
        requires row / o == kh, col / o == kl, k == o * kh + kl;
    assert(card_deal_progress(o, c) == b_row * ol + b_col * l + k);
    assert(b_row * ol + b_col * l + k == p) by (nonlinear_arith)
        requires p == ol * b_row + rem, rem == l * b_col + k;
}

proof fn lemma_card_deal_round_trip_rev(o: nat, c: nat)
    requires
        1 <= o,
        c < area_of(o),
    ensures
        card_deal_progress(o, c) < area_of(o),
        card_deal_coord(o, card_deal_progress(o, c)) == c,
{
    let l = side_of(o);
    let ol = o * l;
    assert(1 <= l && 1 <= ol && area_of(o) == o * ol && l * o == ol) by (nonlinear_arith)
        requires 1 <= o, l == o * o, ol == o * l, area_of(o) == l * l;
    lemma_cell_geometry(c, o);
    lemma_cell_from_row_col(c, o);
    let row = c / l;
    let col = c % l;
    lemma_fundamental_div_mod(row as int, o as int);
    lemma_fundamental_div_mod(col as int, o as int);
    let b_row = row % o;
    let b_col = col % o;
    let kh = row / o;
    let kl = col / o;
    assert(kh < o && kl < o) by (nonlinear_arith)
        requires 1 <= o, row < o * o, col < o * o, row == o * kh + b_row, col == o * kl + b_col,
            0 <= b_row < o, 0 <= b_col < o;
    let k = kh * o + kl;
    assert(k < l) by (nonlinear_arith)
        requires kh < o, kl < o, l == o * o, k == kh * o + kl;
    let p = b_row * ol + (b_col * l + k);
    assert(card_deal_progress(o, c) == p);
    assert(b_col * l + k < ol) by (nonlinear_arith)
        requires b_col < o, k < l, ol == o * l, 1 <= l;
    assert(p < area_of(o)) by (nonlinear_arith)
        requires b_row < o, b_col * l + k < ol, area_of(o) == o * ol,
            p == b_row * ol + (b_col * l + k);
    // Recover the pieces of the coordinate from `p`.
    assert(p == ol * b_row + (b_col * l + k)) by (nonlinear_arith)
        requires p == b_row * ol + (b_col * l + k);
    lemma_fundamental_div_mod_converse_div(p as int, ol as int, b_row as int, (b_col * l + k) as int);
    lemma_fundamental_div_mod_converse_mod(p as int, ol as int, b_row as int, (b_col * l + k) as int);
    let rem = b_col * l + k;
    assert(p / ol == b_row && p % ol == rem);
    assert(rem == l * b_col + k) by (nonlinear_arith)
        requires rem == b_col * l + k;
    lemma_fundamental_div_mod_converse_div(rem as int, l as int, b_col as int, k as int);
    lemma_fundamental_div_mod_converse_mod(rem as int, l as int, b_col as int, k as int);
    assert(k == o * kh + kl) by (nonlinear_arith)
        requires k == kh * o + kl;
    lemma_fundamental_div_mod_converse_div(k as int, o as int, kh as int, kl as int);
    lemma_fundamental_div_mod_converse_mod(k as int, o as int, kh as int, kl as int);
    assert(card_deal_coord(o, p) == ((k / o) * o + b_row) * l + ((k % o) * o + b_col));
    assert((k / o) * o + b_row == row) by (nonlinear_arith)
        requires k / o == kh, row == o * kh + b_row;
    assert((k % o) * o + b_col == col) by (nonlinear_arith)
        requires k % o == kl, col == o * kl + b_col;
}

proof fn lemma_block_col_round_trip(o: nat, p: nat)
    requires
        1 <= o,
        p < area_of(o),
    ensures
        block_col_coord(o, p) < area_of(o),
        block_col_progress(o, block_col_coord(o, p)) == p,
{
    let l = side_of(o);
    let lo = l * o;
    assert(1 <= l && 1 <= lo && area_of(o) == o * lo) by (nonlinear_arith)
        requires 1 <= o, l == o * o, lo == l * o, area_of(o) == l * l;
    let bcol = p / lo;
    let rem = p % lo;
    let row = rem / o;
    let bc = rem % o;
    lemma_fundamental_div_mod(p as int, lo as int);
    assert(bcol < o) by (nonlinear_arith)
        requires 1 <= lo, p < o * lo, p == lo * bcol + rem, 0 <= rem < lo;
    lemma_fundamental_div_mod(rem as int, o as int);
    assert(row < l) by (nonlinear_arith)
        requires 1 <= o, rem < l * o, rem == o * row + bc, 0 <= bc < o;
    let col = bcol * o + bc;
    assert(col < l) by (nonlinear_arith)
        requires bcol < o, bc < o, l == o * o, col == bcol * o + bc;
    lemma_row_col_of_index(row, col, o);
    let c = row * l + col;
    assert(block_col_coord(o, p) == c);
    assert(col == o * bcol + bc) by (nonlinear_arith)
        requires col == bcol * o + bc;
    lemma_fundamental_div_mod_converse_div(col as int, o as int, bcol as int, bc as int);
    lemma_fundamental_div_mod_converse_mod(col as int, o as int, bcol as int, bc as int);
    assert(block_col_progress(o, c) == bcol * lo + (row * o + bc));
    assert(bcol * lo + (row * o + bc) == p) by (nonlinear_arith)
        requires p == lo * bcol + rem, rem == o * row + bc;
}

proof fn lemma_block_col_round_trip_rev(o: nat, c: nat)
    requires
        1 <= o,
        c < area_of(o),
    ensures
        block_col_progress(o, c) < area_of(o),
        block_col_coord(o, block_col_progress(o, c)) == c,
{
    let l = side_of(o);
    let lo = l * o;
    assert(1 <= l && 1 <= lo && area_of(o) == o * lo) by (nonlinear_arith)
        requires 1 <= o, l == o * o, lo == l * o, area_of(o) == l * l;
    lemma_cell_geometry(c, o);
    lemma_cell_from_row_col(c, o);
    let row = c / l;
    let col = c % l;
    lemma_fundamental_div_mod(col as int, o as int);
    let bcol = col / o;
    let bc = col % o;
    assert(bcol < o) by (nonlinear_arith)
        requires 1 <= o, col < o * o, col == o * bcol + bc, 0 <= bc < o;
    let p = bcol * lo + (row * o + bc);
    assert(block_col_progress(o, c) == p);
    assert(row * o + bc < lo) by (nonlinear_arith)
        requires row < l, bc < o, lo == l * o, 1 <= o;
    assert(p < area_of(o)) by (nonlinear_arith)
        requires bcol < o, row * o + bc < lo, area_of(o) == o * lo, p == bcol * lo + (row * o + bc);
    assert(p == lo * bcol + (row * o + bc)) by (nonlinear_arith)
        requires p == bcol * lo + (row * o + bc);
    lemma_fundamental_div_mod_converse_div(p as int, lo as int, bcol as int, (row * o + bc) as int);
    lemma_fundamental_div_mod_converse_mod(p as int, lo as int, bcol as int, (row * o + bc) as int);
    let rem = row * o + bc;
    assert(rem == o * row + bc) by (nonlinear_arith)
        requires rem == row * o + bc;
    lemma_fundamental_div_mod_converse_div(rem as int, o as int, row as int, bc as int);
    lemma_fundamental_div_mod_converse_mod(rem as int, o as int, row as int, bc as int);
    assert(block_col_coord(o, p) == row * l + (bcol * o + bc));
    assert(bcol * o + bc == col) by (nonlinear_arith)
        requires col == o * bcol + bc;
}

/// Every traversal strategy maps progress values below the area to cells
/// below the area, and the inverse mapping undoes it.
pub proof fn lemma_path_round_trip(path: Path, o: nat, p: nat)
    requires
        1 <= o,
        p < area_of(o),
    ensures
        path_coord(path, o, p) < area_of(o),
        path_progress(path, o, path_coord(path, o, p)) == p,
{
    match path {
        Path::RowMajor => {},
        Path::CardDeal => lemma_card_deal_round_trip(o, p),
        Path::BlockCol => lemma_block_col_round_trip(o, p),
    }
}

/// Every cell is visited: the inverse mapping is a right inverse too.
pub proof fn lemma_path_round_trip_rev(path: Path, o: nat, c: nat)
    requires
        1 <= o,
        c < area_of(o),
    ensures
        path_progress(path, o, c) < area_of(o),
        path_coord(path, o, path_progress(path, o, c)) == c,
{
    match path {
        Path::RowMajor => {},
        Path::CardDeal => lemma_card_deal_round_trip_rev(o, c),
        Path::BlockCol => lemma_block_col_round_trip_rev(o, c),
    }
}

/// Each traversal strategy visits every cell exactly once: `path_coord` is a
/// bijection from progress values onto cells.
pub proof fn lemma_path_coord_bijective(path: Path, o: nat)
    requires
        1 <= o,
    ensures
        forall|p: nat| p < area_of(o) ==> #[trigger] path_coord(path, o, p) < area_of(o),
        forall|p1: nat, p2: nat|
            p1 < area_of(o) && p2 < area_of(o) && p1 != p2 ==> #[trigger] path_coord(path, o, p1)
                != #[trigger] path_coord(path, o, p2),
        forall|c: nat|
            c < area_of(o) ==> #[trigger] path_progress(path, o, c) < area_of(o) && path_coord(
                path,
                o,
                path_progress(path, o, c),
            ) == c,
{
    assert forall|p: nat| p < area_of(o) implies #[trigger] path_coord(path, o, p) < area_of(
        o,
    ) by {
        lemma_path_round_trip(path, o, p);
    }
    assert forall|p1: nat, p2: nat|
        p1 < area_of(o) && p2 < area_of(o) && p1 != p2 implies #[trigger] path_coord(path, o, p1)
        != #[trigger] path_coord(path, o, p2) by {
        lemma_path_round_trip(path, o, p1);
        lemma_path_round_trip(path, o, p2);
    }
    assert forall|c: nat| c < area_of(o) implies #[trigger] path_progress(path, o, c) < area_of(
        o,
    ) && path_coord(path, o, path_progress(path, o, c)) == c by {
        lemma_path_round_trip_rev(path, o, c);
    }
}

/// Builds the lookup table from progress to cell coordinate for one order
/// and strategy.
pub fn build_path_map(order: usize, path: Path) -> (map: Vec<usize>)
    requires
        order <= 8,
    ensures
        map@.len() == area_of(order as nat),
        forall|p: int|
            0 <= p < map@.len() ==> #[trigger] map@[p] == path_coord(path, order as nat, p as nat),
{
    let o = order;
    proof {
        assert(o * o <= 64 && (o * o) * (o * o) <= 4096) by (nonlinear_arith)
            requires o <= 8;
    }
    let l = o * o;
    let area = l * l;
    let mut map: Vec<usize> = Vec::new();
    let mut p: usize = 0;
    while p < area
        invariant
            o <= 8,
            l == o * o,
            l <= 64,
            area == area_of(o as nat),
            l == side_of(o as nat),
            p <= area,
            area <= 4096,
            map@.len() == p,
            forall|j: int|
                0 <= j < p ==> #[trigger] map@[j] == path_coord(path, o as nat, j as nat),
        decreases area - p,
    {
        proof {
            lemma_order_from_area(o as nat);
            lemma_path_round_trip(path, o as nat, p as nat);
        }
        let cell: usize = match path {
            Path::RowMajor => p,
            Path::CardDeal => {
                proof {
                    assert(1 <= o * l && o * l <= 512) by (nonlinear_arith)
                        requires 1 <= o <= 8, l == o * o;
                }
                let ol = o * l;
                let b_row = p / ol;
                let rem = p % ol;
                let b_col = rem / l;
                let k = rem % l;
                proof {
                    assert(k / o <= k && k % o < o && (k / o) * o <= k && ((k / o) * o + b_row)
                        * l + ((k % o) * o + b_col) < 295000) by (nonlinear_arith)
                        requires
                            1 <= o <= 8,
                            l == o * o,
                            l <= 64,
                            b_row <= 4096,
                            b_col <= 4096,
                            0 <= k < l,
                    ;
                    assert(b_row <= p && b_col <= rem) by (nonlinear_arith)
                        requires 1 <= ol, 1 <= l, b_row == p / ol, b_col == rem / l, 0 <= p,
                            0 <= rem;
                }
                ((k / o) * o + b_row) * l + ((k % o) * o + b_col)
            },
            Path::BlockCol => {
                proof {
                    assert(1 <= l * o && l * o <= 512) by (nonlinear_arith)
                        requires 1 <= o <= 8, l == o * o;
                }
                let lo = l * o;
                let bcol = p / lo;
                let rem = p % lo;
                proof {
                    assert(bcol <= p && rem / o <= rem) by (nonlinear_arith)
                        requires 1 <= lo, 1 <= o, bcol == p / lo, 0 <= p, 0 <= rem;
                }
                let row = rem / o;
                let bc = rem % o;
                proof {
                    assert(row * l + (bcol * o + bc) < 295000) by (nonlinear_arith)
                        requires 0 <= row <= 512, l <= 64, 0 <= bcol <= 4096, 1 <= o <= 8,
                            0 <= bc < o;
                }
                row * l + (bcol * o + bc)
            },
        };
        map.push(cell);
        p = p + 1;
    }
    map
}

} // verus!
