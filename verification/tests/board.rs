use match3::char_board::{board_from_str, CharGem};
use match3::get_two_mut;
use match3::rect_board::{CellIndex, GridMoveStrategy, RectBoard};

#[test]
fn topology_lines_rows_then_columns() {
    let b = RectBoard::new(3, 2, vec![CharGem('r'); 6]);
    let lines: Vec<Vec<usize>> = b.lines.clone();
    assert_eq!(
        lines,
        vec![
            vec![0, 1, 2],
            vec![3, 4, 5],
            vec![0, 3],
            vec![1, 4],
            vec![2, 5],
        ]
    );
}

#[test]
fn topology_neighbours_at_edges_and_middle() {
    // 3 x 3 board: cells 0..9, row-major.
    let b = RectBoard::new(3, 3, vec![CharGem('r'); 9]);
    // Corner: right, down.
    assert_eq!(b.neighbours[0], vec![1, 3]);
    // Edge: left, right, down.
    assert_eq!(b.neighbours[1], vec![0, 2, 4]);
    // Middle: left, right, up, down.
    assert_eq!(b.neighbours[4], vec![3, 5, 1, 7]);
    // Opposite corner: left, up.
    assert_eq!(b.neighbours[8], vec![7, 5]);
}

#[test]
fn topology_neighbours_symmetric() {
    let b = RectBoard::new(4, 3, vec![CharGem('r'); 12]);
    for i in 0..12 {
        for &j in &b.neighbours[i] {
            assert!(b.neighbours[j].contains(&i), "{} -> {} not symmetric", i, j);
        }
    }
}

#[test]
fn vertical_lines_are_the_columns() {
    let b = RectBoard::new(3, 2, vec![CharGem('r'); 6]);
    assert_eq!(b.vertical_lines(), vec![vec![0, 3], vec![1, 4], vec![2, 5]]);
}

#[test]
fn from_fn_fills_by_index() {
    let b: RectBoard<CharGem> = RectBoard::from_fn(3, 2, |i| {
        if i % 2 == 0 {
            CharGem('r')
        } else {
            CharGem('g')
        }
    });
    let text: String = b.board.iter().map(|g| g.0).collect();
    assert_eq!(text, "rgrgrg");
}

#[test]
fn from_element_fills_the_board() {
    let b: RectBoard<CharGem> = RectBoard::from_element(2, 2, CharGem('g'));
    assert_eq!(b.board, vec![CharGem('g'); 4]);
    assert_eq!(b.width(), 2);
    assert_eq!(b.height(), 2);
}

#[test]
fn board_from_str_trims_and_shapes() {
    let b = board_from_str("  rg \n bw \t");
    assert_eq!(b.width(), 2);
    assert_eq!(b.height(), 2);
    assert_eq!(
        b.board,
        vec![CharGem('r'), CharGem('g'), CharGem('b'), CharGem('w')]
    );
}

#[test]
fn move_gem_paths() {
    let b = RectBoard::new(3, 3, vec![CharGem('r'); 9]);
    // From the top-left corner to the bottom-right one.
    assert_eq!(
        b.move_gem(0, 8, GridMoveStrategy::VerticalFirst),
        vec![3, 6, 7, 8]
    );
    assert_eq!(
        b.move_gem(0, 8, GridMoveStrategy::HorizontalFirst),
        vec![1, 2, 5, 8]
    );
    assert_eq!(b.move_gem(0, 8, GridMoveStrategy::Diagonals), vec![4, 8]);
    // No move at all.
    assert_eq!(b.move_gem(4, 4, GridMoveStrategy::Diagonals), vec![]);
    // A straight move.
    assert_eq!(b.move_gem(2, 0, GridMoveStrategy::Diagonals), vec![1, 0]);
}

#[test]
fn get_two_mut_gives_both_cells() {
    let mut v = vec![10u32, 20, 30];
    let (a, b) = get_two_mut(&mut v, 0, 2);
    assert_eq!(*a, 10);
    assert_eq!(*b, 30);
    *a = 11;
    *b = 33;
    assert_eq!(v, vec![11, 20, 33]);
    let (c, d) = get_two_mut(&mut v, 2, 1);
    assert_eq!(*c, 33);
    assert_eq!(*d, 20);
}

#[test]
fn cell_index_is_a_plain_index() {
    let a = CellIndex(4);
    let b = CellIndex(4);
    assert_eq!(a, b);
    assert_eq!(a.0, 4);
    assert_ne!(CellIndex(1), CellIndex(2));
}
