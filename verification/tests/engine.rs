use sudogen::{GenericGenerator, Path, State};

/// Checks that `grid` is a completely filled valid board of the given order:
/// every row, column and block holds each symbol in `[1, L]` exactly once.
fn assert_valid_grid(grid: &[u8], order: usize) {
    let side = order * order;
    let area = side * side;
    assert_eq!(grid.len(), area);
    for group in 0..side {
        let mut row_seen = vec![0usize; side + 1];
        let mut col_seen = vec![0usize; side + 1];
        let mut blk_seen = vec![0usize; side + 1];
        for j in 0..side {
            let row_cell = group * side + j;
            let col_cell = j * side + group;
            let blk_cell =
                ((group / order) * order + j / order) * side + (group % order) * order + j % order;
            for (cell, seen) in [
                (row_cell, &mut row_seen),
                (col_cell, &mut col_seen),
                (blk_cell, &mut blk_seen),
            ] {
                let v = grid[cell] as usize;
                assert!(1 <= v && v <= side, "symbol {} out of range", v);
                seen[v] += 1;
            }
        }
        for s in 1..=side {
            assert_eq!(row_seen[s], 1, "row {} holds symbol {} {} times", group, s, row_seen[s]);
            assert_eq!(col_seen[s], 1, "col {} holds symbol {} {} times", group, s, col_seen[s]);
            assert_eq!(blk_seen[s], 1, "blk {} holds symbol {} {} times", group, s, blk_seen[s]);
        }
    }
}

#[test]
fn test() {
    let gen = GenericGenerator::new(3, Path::CardDeal);
    assert!(gen.is_some());
}

#[test]
fn mod_test() {
    let mut gen = GenericGenerator::new(3, Path::CardDeal).unwrap();
    let grid = gen.generate().expect("a 9x9 grid exists");
    assert_eq!(grid.len(), 81);
    assert_valid_grid(&grid, 3);
}

#[test]
fn grid_test() {
}

#[test]
fn generates_order_two_all_paths() {
    for path in [Path::RowMajor, Path::CardDeal, Path::BlockCol] {
        let mut gen = GenericGenerator::new(2, path).unwrap();
        let grid = gen.generate().expect("a 4x4 grid exists");
        assert_valid_grid(&grid, 2);
        assert!(matches!(gen.state(), State::Complete));
    }
}

#[test]
fn generates_order_three_all_paths() {
    for path in [Path::RowMajor, Path::CardDeal, Path::BlockCol] {
        let mut gen = GenericGenerator::new(3, path).unwrap();
        let grid = gen.generate().expect("a 9x9 grid exists");
        assert_valid_grid(&grid, 3);
    }
}

#[test]
fn order_two_row_major_ascending_exact() {
    // Deterministic ascending candidate order with row-major traversal fills
    // the 4x4 board with the lexicographically smallest completion.
    let mut gen = GenericGenerator::new(2, Path::RowMajor).unwrap();
    let grid = gen.generate().unwrap();
    assert_eq!(grid, vec![1, 2, 3, 4, 3, 4, 1, 2, 2, 1, 4, 3, 4, 3, 2, 1]);
    assert_valid_grid(&grid, 2);
}

#[test]
fn order_one_trivial_board() {
    let mut gen = GenericGenerator::new(1, Path::RowMajor).unwrap();
    let grid = gen.generate().unwrap();
    assert_eq!(grid, vec![1]);
}

#[test]
fn order_zero_yields_empty_grid() {
    // The degenerate empty configuration has a defined, immediate result.
    let mut gen = GenericGenerator::new(0, Path::RowMajor).unwrap();
    let grid = gen.generate().expect("the empty board is trivially complete");
    assert_eq!(grid.len(), 0);
    assert!(matches!(gen.state(), State::Complete));
}

#[test]
fn oversized_order_rejected() {
    // Orders whose occupancy bit-sets would not fit the engine's words are
    // rejected up front rather than misbehaving.
    assert!(GenericGenerator::new(9, Path::RowMajor).is_none());
    assert!(GenericGenerator::new(usize::MAX, Path::CardDeal).is_none());
}

#[test]
fn progress_moves_by_at_most_one_per_step() {
    for path in [Path::RowMajor, Path::CardDeal, Path::BlockCol] {
        let mut gen = GenericGenerator::new(2, path).unwrap();
        let mut prev = gen.progress();
        assert_eq!(prev, 0);
        let mut steps = 0usize;
        loop {
            let st = gen.step();
            let cur = gen.progress();
            assert!(
                cur == prev || cur == prev + 1 || cur + 1 == prev,
                "progress jumped from {} to {}",
                prev,
                cur
            );
            match st {
                State::Complete => break,
                State::Exhausted => panic!("a 4x4 grid exists"),
                _ => {}
            }
            prev = cur;
            steps += 1;
            assert!(steps < 100_000, "the search must terminate in bounded steps");
        }
        assert_eq!(gen.progress(), 16);
    }
}

#[test]
fn completes_within_bounded_steps() {
    // Orders 2 and 3 must reach Complete without oscillating forever.
    for (order, bound) in [(2usize, 10_000usize), (3usize, 100_000usize)] {
        let mut gen = GenericGenerator::new(order, Path::RowMajor).unwrap();
        let mut steps = 0usize;
        loop {
            match gen.step() {
                State::Complete => break,
                State::Exhausted => panic!("a grid exists for order {}", order),
                _ => {}
            }
            steps += 1;
            assert!(steps < bound, "order {} exceeded {} steps", order, bound);
        }
    }
}

#[test]
fn generator_trait_produces_valid_grid() {
    fn produce<G: sudogen::Generator>(g: &mut G) -> Result<Vec<u8>, sudogen::Exhausted> {
        g.generate()
    }
    let mut gen = GenericGenerator::new(2, Path::BlockCol).unwrap();
    let grid = produce(&mut gen).unwrap();
    assert_valid_grid(&grid, 2);
}
