//! Board geometry: side length, area, and the row, column and block a cell
//! belongs to, together with the notion of a fully and validly filled grid.

use vstd::prelude::*;
use vstd::arithmetic::div_mod::{
    lemma_fundamental_div_mod, lemma_fundamental_div_mod_converse_div,
    lemma_fundamental_div_mod_converse_mod,
};

verus! {

/// Side length `L` of a board of order `o`: the board is `L`-by-`L`.
pub open spec fn side_of(o: nat) -> nat {
    o * o
}

/// Total number of cells `A` of a board of order `o`.
pub open spec fn area_of(o: nat) -> nat {
    side_of(o) * side_of(o)
}

/// Row index of the cell with linear index `c`.
pub open spec fn row_of(c: nat, o: nat) -> nat {
    c / side_of(o)
}

/// Column index of the cell with linear index `c`.
pub open spec fn col_of(c: nat, o: nat) -> nat {
    c % side_of(o)
}

/// Block index of the cell with linear index `c`: blocks are numbered
/// row-major over the `o`-by-`o` arrangement of blocks.
pub open spec fn blk_of(c: nat, o: nat) -> nat {
    (row_of(c, o) / o) * o + col_of(c, o) / o
}

/// Two distinct cells constrain each other when they share a row, a column
/// or a block.
pub open spec fn same_group(c1: nat, c2: nat, o: nat) -> bool {
    ||| row_of(c1, o) == row_of(c2, o)
    ||| col_of(c1, o) == col_of(c2, o)
    ||| blk_of(c1, o) == blk_of(c2, o)
}

/// Bit `i` of the occupancy bit-set `m`; bit `s - 1` records symbol `s`.
pub open spec fn has_bit(m: u64, i: u64) -> bool {
    m & (1u64 << i) != 0u64
}

/// A completely and validly filled grid: every cell holds a symbol in
/// `[1, L]`, and no two cells of a common row, column or block agree.
pub open spec fn filled_grid(g: Seq<u8>, o: nat) -> bool {
    &&& g.len() == area_of(o)
    &&& forall|c: int| 0 <= c < g.len() ==> 1 <= #[trigger] g[c] <= side_of(o)
    &&& forall|c1: int, c2: int|
        0 <= c1 < g.len() && 0 <= c2 < g.len() && c1 != c2 && same_group(
            c1 as nat,
            c2 as nat,
            o,
        ) ==> #[trigger] g[c1] != #[trigger] g[c2]
}

/// A board with at least one cell has positive order.
pub proof fn lemma_order_from_area(o: nat)
    requires
        1 <= area_of(o),
    ensures
        1 <= o,
{
    if o == 0 {
        assert(o * o == 0) by (nonlinear_arith)
            requires o == 0;
        let s = side_of(o);
        assert(s * s == 0) by (nonlinear_arith)
            requires s == 0;
    }
}

/// The row, column and block of any cell are in range.
pub proof fn lemma_cell_geometry(c: nat, o: nat)
    requires
        1 <= o,
        c < area_of(o),
    ensures
        row_of(c, o) < side_of(o),
        col_of(c, o) < side_of(o),
        blk_of(c, o) < side_of(o),
{
    let l = side_of(o);
    assert(0 < l) by (nonlinear_arith)
        requires 1 <= o, l == o * o;
    lemma_fundamental_div_mod(c as int, l as int);
    assert(c % l < l);
    assert(c / l < l) by (nonlinear_arith)
        requires 0 < l, c < l * l, c == l * (c / l) + c % l, 0 <= c % l;
    let r = row_of(c, o);
    let q = col_of(c, o);
    lemma_fundamental_div_mod(r as int, o as int);
    lemma_fundamental_div_mod(q as int, o as int);
    assert(r / o < o) by (nonlinear_arith)
        requires 0 < o, r < o * o, r == o * (r / o) + r % o, 0 <= r % o;
    assert(q / o < o) by (nonlinear_arith)
        requires 0 < o, q < o * o, q == o * (q / o) + q % o, 0 <= q % o;
    assert((r / o) * o + q / o < o * o) by (nonlinear_arith)
        requires r / o < o, q / o < o, 0 < o;
}

/// A cell is determined by its row and column.
pub proof fn lemma_cell_from_row_col(c: nat, o: nat)
    requires
        1 <= o,
        c < area_of(o),
    ensures
        c == row_of(c, o) * side_of(o) + col_of(c, o),
{
    let l = side_of(o);
    assert(0 < l) by (nonlinear_arith)
        requires 1 <= o, l == o * o;
    lemma_fundamental_div_mod(c as int, l as int);
    assert(c == l * (c / l) + c % l);
    assert(l * (c / l) == (c / l) * l) by (nonlinear_arith);
}

/// The cell at row `r`, column `q` has linear index `r * L + q`.
pub proof fn lemma_row_col_of_index(r: nat, q: nat, o: nat)
    requires
        1 <= o,
        r < side_of(o),
        q < side_of(o),
    ensures
        r * side_of(o) + q < area_of(o),
        row_of(r * side_of(o) + q, o) == r,
        col_of(r * side_of(o) + q, o) == q,
{
    let l = side_of(o);
    let c = r * l + q;
    assert(c < l * l) by (nonlinear_arith)
        requires r < l, q < l, c == r * l + q;
    lemma_fundamental_div_mod_converse_div(c as int, l as int, r as int, q as int);
    lemma_fundamental_div_mod_converse_mod(c as int, l as int, r as int, q as int);
}

/// A duplicate-free sequence of `n` values drawn from `[1, n]` contains
/// every value of `[1, n]`.
proof fn lemma_distinct_bounded_hits_all(syms: Seq<int>, n: nat, v: int)
    requires
        syms.len() == n,
        forall|i: int| 0 <= i < n ==> 1 <= #[trigger] syms[i] <= n,
        syms.no_duplicates(),
        1 <= v <= n,
    ensures
        exists|i: int| 0 <= i < n && #[trigger] syms[i] == v,
{
    broadcast use vstd::set::group_set_axioms;

    let a = syms.to_set();
    syms.unique_seq_to_set();
    let b = vstd::set_lib::set_int_range(1, n as int + 1);
    vstd::set_lib::lemma_int_range(1, n as int + 1);
    if !a.contains(v) {
        let b2 = b.remove(v);
        assert forall|x: int| a.contains(x) implies b2.contains(x) by {
            assert(syms.contains(x));
            let i = choose|i: int| 0 <= i < syms.len() && syms[i] == x;
            assert(1 <= x <= n);
        }
        vstd::set_lib::lemma_len_subset(a, b2);
        assert(false);
    }
    assert(syms.contains(v));
}

/// The cell of block `k` at within-block offset `j`.
spec fn blk_cell(k: int, j: int, o: nat) -> int {
    let l = side_of(o) as int;
    ((k / (o as int)) * (o as int) + j / (o as int)) * l + ((k % (o as int)) * (o as int) + j % (
    o as int))
}

proof fn lemma_blk_cell(k: int, j: int, o: nat)
    requires
        1 <= o,
        0 <= k < side_of(o),
        0 <= j < side_of(o),
    ensures
        ({
            let c = blk_cell(k, j, o);
            &&& 0 <= c < area_of(o)
            &&& blk_of(c as nat, o) == k
            &&& (row_of(c as nat, o) % o) * o + col_of(c as nat, o) % o == j
        }),
{
    let oi = o as int;
    let l = side_of(o) as int;
    lemma_fundamental_div_mod(k, oi);
    lemma_fundamental_div_mod(j, oi);
    let kh = k / oi;
    let kl = k % oi;
    let jh = j / oi;
    let jl = j % oi;
    assert(0 <= kh < oi && 0 <= jh < oi) by (nonlinear_arith)
        requires
            1 <= oi, 0 <= k < oi * oi, 0 <= j < oi * oi, k == oi * kh + kl, j == oi * jh + jl,
            0 <= kl < oi, 0 <= jl < oi, l == oi * oi;
    let row = kh * oi + jh;
    let col = kl * oi + jl;
    assert(0 <= row < l && 0 <= col < l) by (nonlinear_arith)
        requires 0 <= kh < oi, 0 <= kl < oi, 0 <= jh < oi, 0 <= jl < oi, l == oi * oi,
            row == kh * oi + jh, col == kl * oi + jl;
    lemma_row_col_of_index(row as nat, col as nat, o);
    let c = blk_cell(k, j, o);
    assert(c == row * l + col);
    assert(row_of(c as nat, o) == row && col_of(c as nat, o) == col);
    assert(row == oi * kh + jh && col == oi * kl + jl) by (nonlinear_arith)
        requires row == kh * oi + jh, col == kl * oi + jl;
    lemma_fundamental_div_mod_converse_div(row, oi, kh, jh);
    lemma_fundamental_div_mod_converse_mod(row, oi, kh, jh);
    lemma_fundamental_div_mod_converse_div(col, oi, kl, jl);
    lemma_fundamental_div_mod_converse_mod(col, oi, kl, jl);
    assert(blk_of(c as nat, o) == (row / oi) * oi + col / oi);
    assert((row / oi) * oi + col / oi == kh * oi + kl);
    assert(kh * oi + kl == k) by (nonlinear_arith)
        requires k == oi * kh + kl;
    assert((row_of(c as nat, o) % o) * o + col_of(c as nat, o) % o == jh * oi + jl);
    assert(jh * oi + jl == j) by (nonlinear_arith)
        requires j == oi * jh + jl;
}

/// Each row, each column and each block of a completely and validly filled
/// grid contains every symbol of `[1, L]` exactly once: it occurs there, and
/// only in one cell of the group.
pub proof fn lemma_filled_grid_exactly_once(g: Seq<u8>, o: nat, k: int, s: u8)
    requires
        filled_grid(g, o),
        1 <= o,
        0 <= k < side_of(o),
        1 <= s as nat <= side_of(o),
    ensures
        exists|c: int| 0 <= c < g.len() && row_of(c as nat, o) == k && #[trigger] g[c] == s,
        exists|c: int| 0 <= c < g.len() && col_of(c as nat, o) == k && #[trigger] g[c] == s,
        exists|c: int| 0 <= c < g.len() && blk_of(c as nat, o) == k && #[trigger] g[c] == s,
        forall|c1: int, c2: int|
            0 <= c1 < g.len() && 0 <= c2 < g.len() && same_group(c1 as nat, c2 as nat, o)
                && #[trigger] g[c1] == s && #[trigger] g[c2] == s ==> c1 == c2,
{
    let l = side_of(o) as int;
    let a = area_of(o) as int;
    // Row k.
    let row_syms = Seq::new(l as nat, |j: int| g[k * l + j] as int);
    assert forall|j: int| 0 <= j < l implies 0 <= k * l + j < a && #[trigger] row_of(
        (k * l + j) as nat,
        o,
    ) == k && col_of((k * l + j) as nat, o) == j by {
        lemma_row_col_of_index(k as nat, j as nat, o);
    }
    assert forall|j: int| 0 <= j < l implies 1 <= #[trigger] row_syms[j] <= l by {
        lemma_row_col_of_index(k as nat, j as nat, o);
        assert(1 <= g[k * l + j] <= side_of(o));
    }
    assert(row_syms.no_duplicates()) by {
        assert forall|j1: int, j2: int|
            0 <= j1 < l && 0 <= j2 < l && j1 != j2 implies row_syms[j1] != row_syms[j2] by {
            lemma_row_col_of_index(k as nat, j1 as nat, o);
            lemma_row_col_of_index(k as nat, j2 as nat, o);
            assert(same_group((k * l + j1) as nat, (k * l + j2) as nat, o));
            assert(g[k * l + j1] != g[k * l + j2]);
        }
    }
    lemma_distinct_bounded_hits_all(row_syms, l as nat, s as int);
    let jr = choose|i: int| 0 <= i < l && #[trigger] row_syms[i] == s as int;
    lemma_row_col_of_index(k as nat, jr as nat, o);
    assert(g[k * l + jr] == s);
    assert(row_of((k * l + jr) as nat, o) == k);
    // Column k.
    let col_syms = Seq::new(l as nat, |j: int| g[j * l + k] as int);
    assert forall|j: int| 0 <= j < l implies 0 <= j * l + k < a && #[trigger] row_of(
        (j * l + k) as nat,
        o,
    ) == j && col_of((j * l + k) as nat, o) == k by {
        lemma_row_col_of_index(j as nat, k as nat, o);
    }
    assert forall|j: int| 0 <= j < l implies 1 <= #[trigger] col_syms[j] <= l by {
        lemma_row_col_of_index(j as nat, k as nat, o);
        assert(1 <= g[j * l + k] <= side_of(o));
    }
    assert(col_syms.no_duplicates()) by {
        assert forall|j1: int, j2: int|
            0 <= j1 < l && 0 <= j2 < l && j1 != j2 implies col_syms[j1] != col_syms[j2] by {
            lemma_row_col_of_index(j1 as nat, k as nat, o);
            lemma_row_col_of_index(j2 as nat, k as nat, o);
            assert(same_group((j1 * l + k) as nat, (j2 * l + k) as nat, o));
            assert(j1 * l + k != j2 * l + k) by (nonlinear_arith)
                requires j1 != j2, l >= 1;
            assert(g[j1 * l + k] != g[j2 * l + k]);
        }
    }
    lemma_distinct_bounded_hits_all(col_syms, l as nat, s as int);
    let jc = choose|i: int| 0 <= i < l && #[trigger] col_syms[i] == s as int;
    lemma_row_col_of_index(jc as nat, k as nat, o);
    assert(g[jc * l + k] == s);
    assert(col_of((jc * l + k) as nat, o) == k);
    // Block k.
    let blk_syms = Seq::new(l as nat, |j: int| g[blk_cell(k, j, o)] as int);
    assert forall|j: int| 0 <= j < l implies 0 <= #[trigger] blk_cell(k, j, o) < a && blk_of(
        blk_cell(k, j, o) as nat,
        o,
    ) == k && (row_of(blk_cell(k, j, o) as nat, o) % o) * o + col_of(blk_cell(k, j, o) as nat, o)
        % o == j by {
        lemma_blk_cell(k, j, o);
    }
    assert forall|j: int| 0 <= j < l implies 1 <= #[trigger] blk_syms[j] <= l by {
        lemma_blk_cell(k, j, o);
        assert(1 <= g[blk_cell(k, j, o)] <= side_of(o));
    }
    assert(blk_syms.no_duplicates()) by {
        assert forall|j1: int, j2: int|
            0 <= j1 < l && 0 <= j2 < l && j1 != j2 implies blk_syms[j1] != blk_syms[j2] by {
            lemma_blk_cell(k, j1, o);
            lemma_blk_cell(k, j2, o);
            assert(blk_cell(k, j1, o) != blk_cell(k, j2, o));
            assert(same_group(blk_cell(k, j1, o) as nat, blk_cell(k, j2, o) as nat, o));
            assert(g[blk_cell(k, j1, o)] != g[blk_cell(k, j2, o)]);
        }
    }
    lemma_distinct_bounded_hits_all(blk_syms, l as nat, s as int);
    let jb = choose|i: int| 0 <= i < l && #[trigger] blk_syms[i] == s as int;
    lemma_blk_cell(k, jb, o);
    assert(g[blk_cell(k, jb, o)] == s);
    assert(blk_of(blk_cell(k, jb, o) as nat, o) == k);
}

} // verus!
