use sudoku::Grid;

#[test]
fn test_get_cell() {
    let grid = Grid::new(0xfedc_ba98_7654_3210);

    assert_eq!(grid.get_cell(0), 0b0000);
    assert_eq!(grid.get_cell(1), 0b0001);
    assert_eq!(grid.get_cell(2), 0b0010);
    assert_eq!(grid.get_cell(3), 0b0011);
    assert_eq!(grid.get_cell(4), 0b0100);
    assert_eq!(grid.get_cell(5), 0b0101);
    assert_eq!(grid.get_cell(6), 0b0110);
    assert_eq!(grid.get_cell(7), 0b0111);
    assert_eq!(grid.get_cell(8), 0b1000);
    assert_eq!(grid.get_cell(9), 0b1001);
    assert_eq!(grid.get_cell(10), 0b1010);
    assert_eq!(grid.get_cell(11), 0b1011);
    assert_eq!(grid.get_cell(12), 0b1100);
    assert_eq!(grid.get_cell(13), 0b1101);
    assert_eq!(grid.get_cell(14), 0b1110);
    assert_eq!(grid.get_cell(15), 0b1111);
}

#[test]
fn test_mask_cell() {
    let mut grid = Grid::new(0xfedc_ba98_7654_3210);

    grid.mask_cell(7, 0b1010);

    assert_eq!(grid.value, 0xfedc_ba98_2654_3210);
    //                                 ^ 0b0111 & 0b1010 = 0b0010
}

#[test]
fn test_mask_cell_0xf() {
    let mut grid = Grid::new(0xfedc_ba98_7654_3210);

    for i in 0..16 {
        grid.mask_cell(i, 0b1111);
    }

    assert_eq!(grid.value, 0xfedc_ba98_7654_3210);
}

#[test]
fn test_mask_cell_0x0() {
    let mut grid = Grid::new(0xfedc_ba98_7654_3210);

    for i in 0..16 {
        grid.mask_cell(i, 0b0000);
    }

    assert_eq!(grid.value, 0x0000_0000_0000_0000);
}

#[test]
fn test_unmask_cell() {
    let mut grid = Grid::new(0xfedc_ba98_7654_3210);

    grid.unmask_cell(8, 0b1010);

    assert_eq!(grid.value, 0xfedc_ba9a_7654_3210);
    //                               ^ 0b1000 | 0b1010 = 0b1010
}

#[test]
fn test_unmask_cell_0xf() {
    let mut grid = Grid::new(0xfedc_ba98_7654_3210);

    for i in 0..16 {
        grid.unmask_cell(i, 0b1111);
    }

    assert_eq!(grid.value, 0xffff_ffff_ffff_ffff);
}

#[test]
fn test_unmask_cell_0x0() {
    let mut grid = Grid::new(0xfedc_ba98_7654_3210);

    for i in 0..16 {
        grid.unmask_cell(i, 0b0000);
    }

    assert_eq!(grid.value, 0xfedc_ba98_7654_3210);
}

#[test]
fn test_mask_row() {
    let mut grid = Grid::new(0xfedc_ba98_7654_3210);

    grid.mask_row(3, 0b1010);

    assert_eq!(grid.value, 0xaa88_ba98_7654_3210);
    //                       ^ 0xfedc & 0xaaaa = 0xaa88
}

#[test]
fn test_mask_row_0xf() {
    let mut grid = Grid::new(0xfedc_ba98_7654_3210);

    for i in 0..4 {
        grid.mask_row(i, 0b1111);
    }

    assert_eq!(grid.value, 0xfedc_ba98_7654_3210);
}

#[test]
fn test_mask_row_0x0() {
    let mut grid = Grid::new(0xfedc_ba98_7654_3210);

    for i in 0..4 {
        grid.mask_row(i, 0b0000);
    }

    assert_eq!(grid.value, 0x0000_0000_0000_0000);
}

#[test]
fn test_mask_column() {
    let mut grid = Grid::new(0xfedc_ba98_7654_3210);

    grid.mask_column(3, 0b1010);

    assert_eq!(grid.value, 0xaedc_aa98_2654_2210);
    //                       ^    ^    ^    ^
    //                       |    |    |    0b0110 & 0b1010 = 0b0010
    //                       |    |    0b0111 & 0b1010 = 0b0010
    //                       |    0b1011 & 0b1010 = 0b1010
    //                       0b1111 & 0b1010 = 0b1010
}

#[test]
fn test_mask_column_0xf() {
    let mut grid = Grid::new(0xfedc_ba98_7654_3210);

    for i in 0..4 {
        grid.mask_column(i, 0b1111);
    }

    assert_eq!(grid.value, 0xfedc_ba98_7654_3210);
}

#[test]
fn test_mask_column_0x0() {
    let mut grid = Grid::new(0xfedc_ba98_7654_3210);

    for i in 0..4 {
        grid.mask_column(i, 0b0000);
    }

    assert_eq!(grid.value, 0x0000_0000_0000_0000);
}

#[test]
fn test_mask_block() {
    let mut grid = Grid::new(0xfedc_ba98_7654_3210);

    grid.mask_block(3, 0b1010);

    assert_eq!(grid.value, 0xaadc_aa98_7654_3210);
    //                       ^^   ^^
}

#[test]
fn test_mask_block_0xf() {
    let mut grid = Grid::new(0xfedc_ba98_7654_3210);
    for i in 0..4 {
        grid.mask_block(i, 0b1111);
    }

    assert_eq!(grid.value, 0xfedc_ba98_7654_3210);
}

#[test]
fn test_mask_block_0x0() {
    let mut grid = Grid::new(0xfedc_ba98_7654_3210);
    for i in 0..4 {
        grid.mask_block(i, 0b0000);
    }

    assert_eq!(grid.value, 0x0000_0000_0000_0000);
}

#[test]
fn test_mask_row_equals_cellwise_masking() {
    let mut by_row = Grid::new(0xfedc_ba98_7654_3210);
    let mut by_cells = Grid::new(0xfedc_ba98_7654_3210);

    by_row.mask_row(2, 0b0110);
    for x in 0..4 {
        by_cells.mask_cell(8 + x, 0b0110);
    }

    assert_eq!(by_row.value, by_cells.value);
}

#[test]
fn test_mask_column_equals_cellwise_masking() {
    let mut by_column = Grid::new(0xfedc_ba98_7654_3210);
    let mut by_cells = Grid::new(0xfedc_ba98_7654_3210);

    by_column.mask_column(1, 0b1001);
    for k in 0..4 {
        by_cells.mask_cell(1 + 4 * k, 0b1001);
    }

    assert_eq!(by_column.value, by_cells.value);
}

#[test]
fn test_mask_block_equals_cellwise_masking() {
    let mut by_block = Grid::new(0xfedc_ba98_7654_3210);
    let mut by_cells = Grid::new(0xfedc_ba98_7654_3210);

    by_block.mask_block(1, 0b0101);
    for c in [2, 3, 6, 7] {
        by_cells.mask_cell(c, 0b0101);
    }

    assert_eq!(by_block.value, by_cells.value);
}

#[test]
fn test_masking_never_grows_candidate_counts() {
    let before = Grid::new(0xfedc_ba98_7654_3210);
    let mut after = before;
    after.mask_row(0, 0b0011);
    after.mask_column(2, 0b1100);
    after.mask_block(3, 0b1010);

    for i in 0..16 {
        assert!(after.get_cell(i).count_ones() <= before.get_cell(i).count_ones());
    }
}
