//! The generator engine: a state machine that drives the backtracking
//! search, advancing progress while legal symbols remain and backtracking
//! one cell at a time out of dead ends.

use vstd::prelude::*;
use crate::board::{area_of, filled_grid, side_of};
use crate::grid::{
    legal_spec, lemma_empty_grid_wf, place_spec, unplace_spec, empty_grid_model, Grid, GridModel,
};
use crate::path::{
    build_path_map, lemma_path_round_trip, lemma_path_round_trip_rev, path_coord, path_progress,
    Path,
};

verus! {

/// The engine's search state.
#[derive(Clone, Copy, PartialEq, Eq, Structural, Debug)]
pub enum State {
    /// Looking for a symbol to place at the current progress position.
    Searching,
    /// The current position had no legal untried symbol left.
    Stuck,
    /// Every cell is filled; the grid is complete.
    Complete,
    /// Backtracking ran past the first cell: the search space is exhausted.
    Exhausted,
}

/// Failure report of a `generate` call: no grid exists under the given
/// configuration.
#[derive(Clone, Copy, PartialEq, Eq, Structural, Debug)]
pub struct Exhausted;

/// Mathematical model of the generator engine.
#[verifier::ext_equal]
pub ghost struct GenModel {
    pub order: nat,
    pub path: Path,
    pub grid: GridModel,
    /// Per progress position: the symbol last tried there, 0 for none.
    pub tries: Seq<u8>,
    /// Number of cells currently committed, in traversal order.
    pub progress: nat,
    /// Progress position of the most recent dead end; the area when none.
    pub stuck_at: nat,
    pub state: State,
}

/// Smallest legal symbol at `cell` that is at least `s`, or 0 when no legal
/// symbol at least `s` exists.
pub open spec fn first_legal_from(g: GridModel, cell: nat, s: nat) -> nat
    decreases side_of(g.order) + 1 - s,
{
    if s > side_of(g.order) {
        0
    } else if legal_spec(g, cell, s) {
        s
    } else {
        first_legal_from(g, cell, (s + 1) as nat)
    }
}

pub proof fn lemma_first_legal_from(g: GridModel, cell: nat, s0: nat)
    requires
        1 <= s0,
    ensures
        ({
            let r = first_legal_from(g, cell, s0);
            &&& r == 0 ==> forall|t: nat| s0 <= t ==> !legal_spec(g, cell, t)
            &&& r != 0 ==> s0 <= r <= side_of(g.order) && legal_spec(g, cell, r) && forall|t: nat|
                s0 <= t < r ==> !legal_spec(g, cell, t)
        }),
    decreases side_of(g.order) + 1 - s0,
{
    let l = side_of(g.order);
    if s0 > l {
        assert forall|t: nat| s0 <= t implies !legal_spec(g, cell, t) by {}
    } else if legal_spec(g, cell, s0) {
    } else {
        lemma_first_legal_from(g, cell, (s0 + 1) as nat);
    }
}

/// If every symbol in `[s0, s1)` is illegal, the search from `s0` and from
/// `s1` agree.
pub proof fn lemma_first_legal_skip(g: GridModel, cell: nat, s0: nat, s1: nat)
    requires
        s0 <= s1,
        forall|t: nat| s0 <= t < s1 ==> !legal_spec(g, cell, t),
    ensures
        first_legal_from(g, cell, s0) == first_legal_from(g, cell, s1),
    decreases s1 - s0,
{
    if s0 < s1 {
        assert(!legal_spec(g, cell, s0));
        if s0 > side_of(g.order) {
            assert(s1 > side_of(g.order));
            assert(first_legal_from(g, cell, s0) == 0);
            assert(first_legal_from(g, cell, s1) == 0);
        } else {
            lemma_first_legal_skip(g, cell, (s0 + 1) as nat, s1);
        }
    }
}

impl GenModel {
    /// The engine's invariant: the grid is well formed; committed positions
    /// hold their tried symbol; positions at or past the progress point are
    /// empty with cleared cursors; and the state tag is consistent.
    pub open spec fn wf(self) -> bool {
        let o = self.order;
        let l = side_of(o);
        let a = area_of(o);
        &&& o <= 8
        &&& self.grid.wf()
        &&& self.grid.order == o
        &&& self.tries.len() == a
        &&& self.progress <= a
        &&& self.stuck_at <= a
        &&& forall|p: int|
            0 <= p < self.progress ==> 1 <= #[trigger] self.tries[p] <= l && self.grid.buf[
                path_coord(self.path, o, p as nat) as int
            ] == self.tries[p]
        &&& forall|p: int|
            self.progress <= p < a ==> self.grid.buf[
                #[trigger] path_coord(self.path, o, p as nat) as int
            ] == 0
        &&& forall|p: int| self.progress < p < a ==> #[trigger] self.tries[p] == 0
        &&& (self.progress < a ==> self.tries[self.progress as int] <= l)
        &&& (self.state == State::Complete ==> self.progress == a)
        &&& (self.state == State::Stuck ==> self.progress < a)
    }
}

/// Where the stuck marker stands after a dead end at `progress`: it records
/// the first unresolved dead end, so an active earlier-or-equal marker is
/// kept.
pub open spec fn new_stuck_marker(m: GenModel) -> nat {
    if m.stuck_at == area_of(m.order) || m.progress < m.stuck_at {
        m.progress
    } else {
        m.stuck_at
    }
}

/// One transition of the engine's state machine.
pub open spec fn step_spec(m: GenModel) -> GenModel {
    let a = area_of(m.order);
    match m.state {
        State::Complete => m,
        State::Exhausted => m,
        State::Searching => {
            if m.progress == a {
                GenModel { state: State::Complete, ..m }
            } else {
                let cell = path_coord(m.path, m.order, m.progress);
                let cursor = m.tries[m.progress as int];
                let s = first_legal_from(m.grid, cell, (cursor + 1) as nat);
                if s == 0 {
                    GenModel { state: State::Stuck, stuck_at: new_stuck_marker(m), ..m }
                } else {
                    GenModel {
                        grid: place_spec(m.grid, cell, s as u8),
                        tries: m.tries.update(m.progress as int, s as u8),
                        progress: (m.progress + 1) as nat,
                        stuck_at: if m.stuck_at != a && m.progress + 1 > m.stuck_at {
                            a
                        } else {
                            m.stuck_at
                        },
                        ..m
                    }
                }
            }
        },
        State::Stuck => {
            if m.progress == 0 {
                GenModel { state: State::Exhausted, ..m }
            } else {
                let q = (m.progress - 1) as nat;
                let cell = path_coord(m.path, m.order, q);
                GenModel {
                    state: State::Searching,
                    grid: unplace_spec(m.grid, cell),
                    tries: m.tries.update(m.progress as int, 0),
                    progress: q,
                    stuck_at: if m.stuck_at != a && q <= m.stuck_at {
                        a
                    } else {
                        m.stuck_at
                    },
                    ..m
                }
            }
        },
    }
}

/// The engine as first constructed: empty grid, cleared cursors, progress
/// zero, no stuck marker, searching.
pub open spec fn initial_model(o: nat, path: Path) -> GenModel {
    GenModel {
        order: o,
        path: path,
        grid: empty_grid_model(o),
        tries: Seq::new(area_of(o), |i: int| 0u8),
        progress: 0,
        stuck_at: area_of(o),
        state: State::Searching,
    }
}

pub proof fn lemma_initial_model_wf(o: nat, path: Path)
    requires
        o <= 8,
    ensures
        initial_model(o, path).wf(),
{
    lemma_empty_grid_wf(o);
    let m = initial_model(o, path);
    assert forall|p: int|
        m.progress <= p < area_of(o) implies m.grid.buf[
        #[trigger] path_coord(m.path, o, p as nat) as int
    ] == 0 by {
        crate::board::lemma_order_from_area(o);
        lemma_path_round_trip(path, o, p as nat);
    }
}

/// Every step keeps the engine's invariant.
pub proof fn lemma_step_preserves_wf(m: GenModel)
    requires
        m.wf(),
    ensures
        step_spec(m).wf(),
{
    let o = m.order;
    let l = side_of(o);
    let a = area_of(o);
    let m2 = step_spec(m);
    match m.state {
        State::Complete => {},
        State::Exhausted => {},
        State::Searching => {
            if m.progress == a {
            } else {
                let cell = path_coord(m.path, o, m.progress);
                let cursor = m.tries[m.progress as int];
                let s = first_legal_from(m.grid, cell, (cursor + 1) as nat);
                crate::board::lemma_order_from_area(o);
                assert(l <= 64) by (nonlinear_arith)
                    requires o <= 8, l == o * o;
                lemma_path_round_trip(m.path, o, m.progress);
                lemma_first_legal_from(m.grid, cell, (cursor + 1) as nat);
                if s == 0 {
                } else {
                    assert(legal_spec(m.grid, cell, s));
                    assert(m.grid.buf[cell as int] == 0);
                    crate::grid::lemma_place_preserves_wf(m.grid, cell, s as u8);
                    assert forall|p: int|
                        0 <= p < m2.progress implies 1 <= #[trigger] m2.tries[p] <= l
                        && m2.grid.buf[path_coord(m2.path, o, p as nat) as int] == m2.tries[p] by {
                        lemma_path_round_trip(m.path, o, p as nat);
                        if p < m.progress {
                            assert(path_coord(m.path, o, p as nat) != cell);
                        }
                    }
                    assert forall|p: int|
                        m2.progress <= p < a implies m2.grid.buf[
                        #[trigger] path_coord(m2.path, o, p as nat) as int
                    ] == 0 by {
                        lemma_path_round_trip(m.path, o, p as nat);
                        assert(path_coord(m.path, o, p as nat) != cell);
                    }
                }
            }
        },
        State::Stuck => {
            if m.progress == 0 {
            } else {
                let q = (m.progress - 1) as nat;
                let cell = path_coord(m.path, o, q);
                crate::board::lemma_order_from_area(o);
                assert(l <= 64) by (nonlinear_arith)
                    requires o <= 8, l == o * o;
                lemma_path_round_trip(m.path, o, q);
                assert(m.grid.buf[cell as int] == m.tries[q as int]);
                assert(m.grid.buf[cell as int] != 0);
                crate::grid::lemma_unplace_preserves_wf(m.grid, cell);
                assert forall|p: int|
                    0 <= p < m2.progress implies 1 <= #[trigger] m2.tries[p] <= l && m2.grid.buf[
                    path_coord(m2.path, o, p as nat) as int
                ] == m2.tries[p] by {
                    lemma_path_round_trip(m.path, o, p as nat);
                    assert(path_coord(m.path, o, p as nat) != cell);
                }
                assert forall|p: int|
                    m2.progress <= p < a implies m2.grid.buf[
                    #[trigger] path_coord(m2.path, o, p as nat) as int
                ] == 0 by {
                    lemma_path_round_trip(m.path, o, p as nat);
                    if p != q {
                        assert(path_coord(m.path, o, p as nat) != cell);
                    }
                }
            }
        },
    }
}

/// Progress moves by at most one cell per engine step, and only a step out
/// of a dead end moves it backwards.
pub proof fn lemma_step_progress_delta(m: GenModel)
    requires
        m.wf(),
    ensures
        ({
            let m2 = step_spec(m);
            &&& m2.progress == m.progress || m2.progress == m.progress + 1 || m2.progress + 1
                == m.progress
            &&& m2.progress == m.progress + 1 ==> m.state == State::Searching
            &&& m2.progress + 1 == m.progress ==> m.state == State::Stuck
        }),
{
}

/// When the engine has committed every cell, the grid is completely and
/// validly filled.
pub proof fn lemma_complete_filled(m: GenModel)
    requires
        m.wf(),
        m.progress == area_of(m.order),
    ensures
        filled_grid(m.grid.buf, m.order),
{
    let o = m.order;
    let a = area_of(o);
    assert forall|c: int| 0 <= c < m.grid.buf.len() implies 1 <= #[trigger] m.grid.buf[c]
        <= side_of(o) by {
        crate::board::lemma_order_from_area(o);
        lemma_path_round_trip_rev(m.path, o, c as nat);
        let p = path_progress(m.path, o, c as nat);
        assert(m.grid.buf[path_coord(m.path, o, p) as int] == m.tries[p as int]);
    }
}

/// A state in which the search has ended: the grid is complete or the
/// search space is exhausted.
pub open spec fn is_terminal(m: GenModel) -> bool {
    m.state == State::Complete || m.state == State::Exhausted
}

/// The engine's model after `n` steps of the state machine.
#[verifier::opaque]
pub open spec fn run_steps(m: GenModel, n: nat) -> GenModel
    decreases n,
{
    if n == 0 {
        m
    } else {
        step_spec(run_steps(m, (n - 1) as nat))
    }
}

/// A terminal state is a fixed point of the state machine.
pub proof fn lemma_step_of_terminal(m: GenModel)
    requires
        is_terminal(m),
    ensures
        step_spec(m) == m,
{
}

/// Once the run reaches a terminal state it stays there.
pub proof fn lemma_run_stays_terminal(m: GenModel, n: nat, k: nat)
    requires
        is_terminal(run_steps(m, n)),
    ensures
        run_steps(m, (n + k) as nat) == run_steps(m, n),
    decreases k,
{
    reveal_with_fuel(run_steps, 1);
    if k > 0 {
        lemma_run_stays_terminal(m, n, (k - 1) as nat);
        lemma_step_of_terminal(run_steps(m, (n + k - 1) as nat));
    }
}

/// The search is deterministic: all terminal states of one run are the same
/// model. Two engines built from the same configuration therefore return
/// the same grid, or the same exhaustion report.
pub proof fn lemma_run_deterministic(m: GenModel, n1: nat, n2: nat)
    requires
        is_terminal(run_steps(m, n1)),
        is_terminal(run_steps(m, n2)),
    ensures
        run_steps(m, n1) == run_steps(m, n2),
{
    if n1 <= n2 {
        lemma_run_stays_terminal(m, n1, (n2 - n1) as nat);
    } else {
        lemma_run_stays_terminal(m, n2, (n1 - n2) as nat);
    }
}

/// Largest supported order: the occupancy bit-sets of a board of order 8
/// (side length 64) still fit in one 64-bit word.
pub const MAX_ORDER: usize = 8;

/// The generator engine: grid state, the precomputed traversal table, the
/// per-position try cursors, the progress counter and the stuck marker.
pub struct GenericGenerator {
    order: usize,
    side: usize,
    area: usize,
    path: Path,
    /// Indexed by progress, not by coordinate.
    path_map: Vec<usize>,
    grid: Grid,
    /// Indexed by progress, not by coordinate.
    try_progress: Vec<u8>,
    progress: usize,
    /// Holds the area when no dead end is pending.
    stuck_progress: usize,
    state: State,
}

impl View for GenericGenerator {
    type V = GenModel;

    closed spec fn view(&self) -> GenModel {
        GenModel {
            order: self.order as nat,
            path: self.path,
            grid: self.grid@,
            tries: self.try_progress@,
            progress: self.progress as nat,
            stuck_at: self.stuck_progress as nat,
            state: self.state,
        }
    }
}

impl GenericGenerator {
    /// Representation invariant: the model invariant holds and the cached
    /// side, area and traversal table match the order and strategy.
    pub closed spec fn wf(&self) -> bool {
        &&& self@.wf()
        &&& self.grid.wf()
        &&& self.order <= MAX_ORDER
        &&& self.side == side_of(self.order as nat)
        &&& self.area == area_of(self.order as nat)
        &&& self.path_map@.len() == self.area
        &&& forall|p: int|
            0 <= p < self.path_map@.len() ==> #[trigger] self.path_map@[p] == path_coord(
                self.path,
                self.order as nat,
                p as nat,
            )
    }

    /// A fresh engine for boards of the given order and traversal strategy,
    /// or nothing when the order is too large for the engine's occupancy
    /// bit-sets.
    pub fn new(order: usize, path: Path) -> (r: Option<GenericGenerator>)
        ensures
            r is Some <==> order <= MAX_ORDER,
            r matches Some(g) ==> g.wf() && g@ == initial_model(order as nat, path),
    {
        if order > MAX_ORDER {
            return None;
        }
        proof {
            assert(order * order <= 64 && (order * order) * (order * order) <= 4096)
                by (nonlinear_arith)
                requires order <= 8;
            lemma_initial_model_wf(order as nat, path);
        }
        let side = order * order;
        let area = side * side;
        let g = GenericGenerator {
            order,
            side,
            area,
            path,
            path_map: build_path_map(order, path),
            grid: Grid::new(order),
            try_progress: crate::grid::filled_vec(area, 0u8),
            progress: 0,
            stuck_progress: area,
            state: State::Searching,
        };
        proof {
            assert(g@ =~= initial_model(order as nat, path));
        }
        Some(g)
    }

    pub fn order(&self) -> (o: usize)
        ensures
            o == self@.order,
    {
        self.order
    }

    pub fn progress(&self) -> (p: usize)
        ensures
            p == self@.progress,
    {
        self.progress
    }

    pub fn state(&self) -> (st: State)
        ensures
            st == self@.state,
    {
        self.state
    }

    /// The cell visited at the given progress value under this engine's
    /// traversal strategy, read from the precomputed table.
    pub fn progress_to_coord(&self, progress: usize) -> (c: usize)
        requires
            self.wf(),
            (progress as nat) < area_of(self@.order),
        ensures
            c as nat == path_coord(self@.path, self@.order, progress as nat),
            (c as nat) < area_of(self@.order),
    {
        proof {
            crate::board::lemma_order_from_area(self@.order);
            lemma_path_round_trip(self@.path, self@.order, progress as nat);
        }
        self.path_map[progress]
    }

    /// One transition of the state machine of the search: places the next
    /// legal untried symbol and advances, or records a dead end, or
    /// backtracks one cell, or reports the terminal state.
    pub fn step(&mut self) -> (st: State)
        requires
            old(self).wf(),
        ensures
            final(self).wf(),
            final(self)@ == step_spec(old(self)@),
            st == final(self)@.state,
    {
        proof {
            lemma_step_preserves_wf(self@);
        }
        match self.state {
            State::Complete => State::Complete,
            State::Exhausted => State::Exhausted,
            State::Searching => {
                if self.progress == self.area {
                    self.state = State::Complete;
                    proof {
                        assert(self@ =~= step_spec(old(self)@));
                    }
                    return State::Complete;
                }
                let p = self.progress;
                let cell = self.path_map[p];
                proof {
                    crate::board::lemma_order_from_area(self@.order);
                    assert(side_of(self@.order) <= 64) by (nonlinear_arith)
                        requires self@.order <= 8;
                    lemma_path_round_trip(self@.path, self@.order, p as nat);
                }
                let cursor = self.try_progress[p];
                let mut s: u8 = cursor + 1;
                while (s as usize) <= self.side && !self.grid.is_legal(cell, s)
                    invariant
                        self.wf(),
                        self.state == State::Searching,
                        p == self.progress < self.area,
                        cell == self.path_map@[p as int],
                        (cell as nat) < area_of(self@.order),
                        cursor == self.try_progress@[p as int],
                        cursor < s <= self.side + 1,
                        s >= 1,
                        self.side <= 64,
                        forall|t: nat|
                            cursor + 1 <= t < s ==> !legal_spec(self@.grid, cell as nat, t),
                    decreases self.side + 1 - s,
                {
                    s = s + 1;
                }
                let ghost g0 = self@.grid;
                proof {
                    lemma_first_legal_skip(g0, cell as nat, (cursor + 1) as nat, s as nat);
                }
                if (s as usize) <= self.side {
                    proof {
                        assert(legal_spec(g0, cell as nat, s as nat));
                        assert(first_legal_from(g0, cell as nat, s as nat) == s as nat);
                    }
                    self.grid.place(cell, s);
                    self.try_progress.set(p, s);
                    self.progress = p + 1;
                    if self.stuck_progress != self.area && self.progress > self.stuck_progress {
                        self.stuck_progress = self.area;
                    }
                    proof {
                        assert(self@ =~= step_spec(old(self)@));
                    }
                    State::Searching
                } else {
                    proof {
                        assert forall|t: nat| s as nat <= t implies !legal_spec(
                            g0,
                            cell as nat,
                            t,
                        ) by {}
                        assert(first_legal_from(g0, cell as nat, s as nat) == 0) by {
                            lemma_first_legal_from(g0, cell as nat, s as nat);
                            if first_legal_from(g0, cell as nat, s as nat) != 0 {
                                assert(legal_spec(
                                    g0,
                                    cell as nat,
                                    first_legal_from(g0, cell as nat, s as nat),
                                ));
                            }
                        }
                    }
                    if self.stuck_progress == self.area || p < self.stuck_progress {
                        self.stuck_progress = p;
                    }
                    self.state = State::Stuck;
                    proof {
                        assert(self@ =~= step_spec(old(self)@));
                    }
                    State::Stuck
                }
            },
            State::Stuck => {
                if self.progress == 0 {
                    self.state = State::Exhausted;
                    proof {
                        assert(self@ =~= step_spec(old(self)@));
                    }
                    return State::Exhausted;
                }
                let p = self.progress;
                proof {
                    crate::board::lemma_order_from_area(self@.order);
                    lemma_path_round_trip(self@.path, self@.order, (p - 1) as nat);
                }
                self.try_progress.set(p, 0);
                let q = p - 1;
                self.progress = q;
                let cell = self.path_map[q];
                self.grid.unplace(cell);
                if self.stuck_progress != self.area && q <= self.stuck_progress {
                    self.stuck_progress = self.area;
                }
                self.state = State::Searching;
                proof {
                    assert(self@ =~= step_spec(old(self)@));
                }
                State::Searching
            },
        }
    }
}

/// Weight of the untried symbols at progress position `p`: positions nearer
/// the start of the traversal weigh more, so that committing a symbol always
/// outweighs the whole search space behind it.
pub open spec fn pos_weight(m: GenModel, p: int) -> int {
    let l = side_of(m.order) as int;
    let t = m.tries[p] as int;
    let d = if t <= l {
        l - t
    } else {
        0
    };
    d * vstd::arithmetic::power::pow(l + 1, (area_of(m.order) - p) as nat)
}

/// Sum of the position weights over progress positions `[0, i)`.
pub open spec fn weight_sum(m: GenModel, i: int) -> int
    decreases i,
{
    if i <= 0 {
        0
    } else {
        weight_sum(m, i - 1) + pos_weight(m, i - 1)
    }
}

/// Termination measure of the search: the weighted untried symbols over all
/// positions up to and including the current one.
pub open spec fn search_measure(m: GenModel) -> int {
    weight_sum(m, m.progress as int + 1)
}

/// Tie-breaking rank of the state tag within an engine step.
pub open spec fn state_rank(st: State) -> int {
    match st {
        State::Searching => 1,
        _ => 0,
    }
}

proof fn lemma_pos_weight_bounds(m: GenModel, p: int)
    requires
        p <= area_of(m.order),
    ensures
        0 <= pos_weight(m, p),
        pos_weight(m, p) <= side_of(m.order) * vstd::arithmetic::power::pow(
            side_of(m.order) as int + 1,
            (area_of(m.order) - p) as nat,
        ),
{
    let l = side_of(m.order) as int;
    let w = vstd::arithmetic::power::pow(l + 1, (area_of(m.order) - p) as nat);
    vstd::arithmetic::power::lemma_pow_positive(l + 1, (area_of(m.order) - p) as nat);
    let t = m.tries[p] as int;
    let d = if t <= l {
        l - t
    } else {
        0
    };
    assert(0 <= d <= l);
    assert(0 <= d * w && d * w <= l * w) by (nonlinear_arith)
        requires 0 <= d, d <= l, w >= 1;
}

proof fn lemma_weight_sum_congruence(m1: GenModel, m2: GenModel, i: int)
    requires
        m1.order == m2.order,
        forall|p: int| 0 <= p < i ==> m1.tries[p] == m2.tries[p],
    ensures
        weight_sum(m1, i) == weight_sum(m2, i),
    decreases i,
{
    if i > 0 {
        lemma_weight_sum_congruence(m1, m2, i - 1);
        assert(pos_weight(m1, i - 1) == pos_weight(m2, i - 1));
    }
}

proof fn lemma_weight_sum_nonneg(m: GenModel, i: int)
    requires
        i <= area_of(m.order) + 1,
    ensures
        weight_sum(m, i) >= 0,
    decreases i,
{
    if i > 0 {
        lemma_weight_sum_nonneg(m, i - 1);
        lemma_pos_weight_bounds(m, i - 1);
    }
}

/// Each engine step that does not end the search shrinks the lexicographic
/// measure (weighted untried symbols, progress, state rank): the search
/// cannot oscillate forever.
pub proof fn lemma_step_decreases(m: GenModel)
    requires
        m.wf(),
    ensures
        search_measure(m) >= 0,
        search_measure(step_spec(m)) >= 0,
        ({
            let m2 = step_spec(m);
            (m2.state == State::Searching || m2.state == State::Stuck) ==> (search_measure(m2)
                < search_measure(m) || (search_measure(m2) == search_measure(m) && m2.progress
                < m.progress) || (search_measure(m2) == search_measure(m) && m2.progress
                == m.progress && state_rank(m2.state) < state_rank(m.state)))
        }),
{
    let o = m.order;
    let l = side_of(o) as int;
    let a = area_of(o) as int;
    let m2 = step_spec(m);
    lemma_weight_sum_nonneg(m, m.progress as int + 1);
    lemma_weight_sum_nonneg(m2, m2.progress as int + 1);
    match m.state {
        State::Complete => {},
        State::Exhausted => {},
        State::Searching => {
            if m.progress == a {
            } else {
                let p = m.progress as int;
                let cell = path_coord(m.path, o, m.progress);
                let cursor = m.tries[p];
                let s = first_legal_from(m.grid, cell, (cursor + 1) as nat);
                lemma_first_legal_from(m.grid, cell, (cursor + 1) as nat);
                if s == 0 {
                    // Dead end recorded: the cursors are untouched.
                    lemma_weight_sum_congruence(m, m2, m2.progress as int + 1);
                } else {
                    // A symbol was committed at position p.
                    let t = l + 1;
                    let w2 = vstd::arithmetic::power::pow(t, (a - p - 1) as nat);
                    let w1 = vstd::arithmetic::power::pow(t, (a - p) as nat);
                    vstd::arithmetic::power::lemma_pow_positive(t, (a - p - 1) as nat);
                    assert(l <= 64) by (nonlinear_arith)
                        requires o <= 8, l == (o * o) as int;
                    assert(w1 == t * w2) by {
                        vstd::arithmetic::power::lemma_pow_adds(t, 1, (a - p - 1) as nat);
                        vstd::arithmetic::power::lemma_pow1(t);
                        assert((a - p) as nat == 1 + (a - p - 1) as nat);
                    }
                    lemma_weight_sum_congruence(m, m2, p);
                    assert(weight_sum(m2, p + 2) == weight_sum(m2, p + 1) + pos_weight(m2, p + 1));
                    assert(weight_sum(m2, p + 1) == weight_sum(m2, p) + pos_weight(m2, p));
                    assert(weight_sum(m, p + 1) == weight_sum(m, p) + pos_weight(m, p));
                    assert(pos_weight(m, p) == (l - cursor) * w1);
                    assert(pos_weight(m2, p) == (l - s) * w1);
                    let t2 = m2.tries[p + 1] as int;
                    let d2 = if t2 <= l {
                        l - t2
                    } else {
                        0
                    };
                    assert(pos_weight(m2, p + 1) == d2 * w2);
                    assert(0 <= d2 <= l);
                    assert((l - s) * w1 + d2 * w2 < (l - cursor) * w1) by (nonlinear_arith)
                        requires
                            s >= cursor + 1,
                            w1 == t * w2,
                            0 <= d2 <= l,
                            t == l + 1,
                            w2 >= 1,
                            cursor <= l,
                            1 <= s <= l,
                    ;
                    assert(search_measure(m2) < search_measure(m));
                }
            }
        },
        State::Stuck => {
            if m.progress == 0 {
            } else {
                let p = m.progress as int;
                lemma_weight_sum_congruence(m, m2, p);
                lemma_pos_weight_bounds(m, p);
                assert(weight_sum(m, p + 1) == weight_sum(m, p) + pos_weight(m, p));
                assert(search_measure(m2) == weight_sum(m2, p));
                assert(search_measure(m2) <= search_measure(m));
            }
        },
    }
}

impl GenericGenerator {
    /// Runs the search to one of its two terminal outcomes: a completely
    /// filled valid grid in linear row-major layout, or exhaustion of the
    /// search space. The result is exactly the first terminal state of the
    /// iterated state machine, so it is a function of the starting model
    /// alone (see `lemma_run_deterministic`).
    #[verifier::rlimit(60)]
    pub fn generate(&mut self) -> (r: Result<Vec<u8>, Exhausted>)
        requires
            old(self).wf(),
        ensures
            final(self).wf(),
            final(self)@.order == old(self)@.order,
            final(self)@.path == old(self)@.path,
            exists|n: nat|
                final(self)@ == #[trigger] run_steps(old(self)@, n) && is_terminal(
                    run_steps(old(self)@, n),
                ),
            (r matches Ok(g) ==> final(self)@.state == State::Complete
                && g@ == final(self)@.grid.buf && filled_grid(g@, old(self)@.order)),
            (r is Err ==> final(self)@.state == State::Exhausted),
    {
        let ghost m0 = old(self)@;
        let ghost mut n: nat = 0;
        proof {
            reveal_with_fuel(run_steps, 1);
            assert(run_steps(m0, 0) == m0);
        }
        loop
            invariant
                self.wf(),
                self@.order == old(self)@.order,
                self@.path == old(self)@.path,
                m0 == old(self)@,
                self@ == run_steps(m0, n),
            decreases search_measure(self@), self@.progress, state_rank(self@.state),
        {
            let ghost prev = self@;
            let st = self.step();
            proof {
                reveal_with_fuel(run_steps, 1);
                assert(run_steps(m0, n + 1) == step_spec(run_steps(m0, n)));
                n = n + 1;
                assert(self@ == run_steps(m0, n));
            }
            match st {
                State::Complete => {
                    proof {
                        lemma_complete_filled(self@);
                        assert(is_terminal(run_steps(m0, n)));
                    }
                    return Ok(self.grid.snapshot());
                },
                State::Exhausted => {
                    proof {
                        assert(is_terminal(run_steps(m0, n)));
                    }
                    return Err(Exhausted);
                },
                _ => {
                    proof {
                        lemma_step_decreases(prev);
                    }
                },
            }
        }
    }
}

/// The abstract capability of producing one grid: any engine that
/// implements it yields, on success, a completely and validly filled grid
/// for its board order.
pub trait Generator {
    /// The implementation's invariant.
    spec fn inv(&self) -> bool;

    /// The board order the implementation generates for.
    spec fn board_order(&self) -> nat;

    /// Produce one grid, or report that the search space is exhausted.
    fn generate(&mut self) -> (r: Result<Vec<u8>, Exhausted>)
        requires
            old(self).inv(),
        ensures
            final(self).inv(),
            r matches Ok(g) ==> filled_grid(g@, old(self).board_order()),
    ;
}

impl Generator for GenericGenerator {
    open spec fn inv(&self) -> bool {
        self.wf()
    }

    open spec fn board_order(&self) -> nat {
        self@.order
    }

    fn generate(&mut self) -> (r: Result<Vec<u8>, Exhausted>) {
        GenericGenerator::generate(self)
    }
}

} // verus!
