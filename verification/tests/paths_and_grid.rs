use sudogen::{min_widths, GenericGenerator, Grid, Path};

#[test]
fn traversal_is_bijective_for_all_paths_and_orders() {
    for path in [Path::RowMajor, Path::CardDeal, Path::BlockCol] {
        for order in 0..=4usize {
            let side = order * order;
            let area = side * side;
            let gen = GenericGenerator::new(order, path).unwrap();
            let mut visits = vec![0usize; area];
            for p in 0..area {
                let c = gen.progress_to_coord(p);
                assert!(c < area, "coordinate {} out of range", c);
                visits[c] += 1;
            }
            for (c, n) in visits.iter().enumerate() {
                assert_eq!(*n, 1, "cell {} visited {} times under {:?}", c, n, path);
            }
        }
    }
}

#[test]
fn row_major_is_identity() {
    let gen = GenericGenerator::new(3, Path::RowMajor).unwrap();
    for p in 0..81 {
        assert_eq!(gen.progress_to_coord(p), p);
    }
}

#[test]
fn card_deal_visits_one_cell_per_block() {
    // Under the deal order the first L cells visited lie in L distinct
    // blocks: one card dealt to each block before any block gets a second.
    let order = 3usize;
    let side = order * order;
    let gen = GenericGenerator::new(order, Path::CardDeal).unwrap();
    let mut blocks_seen = vec![false; side];
    for p in 0..side {
        let c = gen.progress_to_coord(p);
        let row = c / side;
        let col = c % side;
        let blk = (row / order) * order + col / order;
        assert!(!blocks_seen[blk], "block {} dealt twice in the first sweep", blk);
        blocks_seen[blk] = true;
    }
    assert!(blocks_seen.iter().all(|&b| b));
}

#[test]
fn block_col_walks_block_columns() {
    // Under the block-column order the first L * N cells visited all lie in
    // the leftmost column of blocks.
    let order = 3usize;
    let side = order * order;
    let gen = GenericGenerator::new(order, Path::BlockCol).unwrap();
    for p in 0..side * order {
        let c = gen.progress_to_coord(p);
        let col = c % side;
        assert!(col < order, "cell {} outside the first block column", c);
    }
}

#[test]
fn place_then_unplace_restores_bookkeeping() {
    // The round-trip law: unplacing a freshly placed symbol restores the
    // cell value and the occupancy bit-sets exactly.
    let order = 2usize;
    let side = order * order;
    let area = side * side;
    let mut grid = Grid::new(order);
    grid.place(5, 2);
    grid.place(0, 1);
    let before_values: Vec<u8> = grid.snapshot();
    let before_masks: Vec<u64> = (0..area).map(|c| grid.legal_symbols(c)).collect();
    grid.place(10, 3);
    grid.unplace(10);
    assert_eq!(grid.snapshot(), before_values);
    let after_masks: Vec<u64> = (0..area).map(|c| grid.legal_symbols(c)).collect();
    assert_eq!(after_masks, before_masks);
}

#[test]
fn legal_symbols_excludes_row_col_block() {
    let order = 2usize;

    let mut grid = Grid::new(order);
    // An empty board allows every symbol everywhere.
    assert_eq!(grid.legal_symbols(0), 0b1111);
    grid.place(0, 2);
    // Cell 1 shares row 0 and block 0 with cell 0; symbol 2 is gone.
    assert_eq!(grid.legal_symbols(1), 0b1101);
    // Cell 12 shares only column 0 with cell 0.
    assert_eq!(grid.legal_symbols(12), 0b1101);
    // Cell 10 shares no group with cell 0.
    assert_eq!(grid.legal_symbols(10), 0b1111);
    // The placed cell itself now has its row, column and block occupied.
    assert_eq!(grid.value(0), 2);
    assert_eq!(grid.value(1), 0);
}

#[test]
fn is_legal_matches_mask() {
    let order = 2usize;
    let side = order * order;
    let area = side * side;
    let mut grid = Grid::new(order);
    grid.place(3, 4);
    grid.place(5, 1);
    for c in 0..area {
        let mask = grid.legal_symbols(c);
        for s in 1..=side as u8 {
            assert_eq!(grid.is_legal(c, s), mask & (1u64 << (s - 1)) != 0);
        }
    }
}

#[test]
fn sizing_policy_minimal_widths() {
    let w2 = min_widths(2);
    assert_eq!(
        (w2.index_bits, w2.symbol_bits, w2.counter_bits, w2.mask_bits),
        (8, 8, 8, 8)
    );
    let w3 = min_widths(3);
    assert_eq!(
        (w3.index_bits, w3.symbol_bits, w3.counter_bits, w3.mask_bits),
        (8, 8, 8, 16)
    );
    let w5 = min_widths(5);
    assert_eq!(
        (w5.index_bits, w5.symbol_bits, w5.counter_bits, w5.mask_bits),
        (8, 8, 16, 32)
    );
    let w9 = min_widths(9);
    assert_eq!(
        (w9.index_bits, w9.symbol_bits, w9.counter_bits, w9.mask_bits),
        (8, 8, 16, 128)
    );
    let w16 = min_widths(16);
    assert_eq!(
        (w16.index_bits, w16.symbol_bits, w16.counter_bits, w16.mask_bits),
        (8, 16, 32, 256)
    );
    let w0 = min_widths(0);
    assert_eq!(
        (w0.index_bits, w0.symbol_bits, w0.counter_bits, w0.mask_bits),
        (8, 8, 8, 8)
    );
}
