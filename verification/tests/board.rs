use std::num::NonZeroU16;

use puzzle15::{Board, ConstructionError, DummyShuffle, Move};

#[test]
fn board_1x1() {
    let mut board = Board::new(1, &mut DummyShuffle).expect("board");
    assert_eq!(board.size(), 1);
    assert_eq!(&board.to_rows(), &[&[None]]);
    assert!(board.is_ordered());

    board.move_once(Move::Left);
    assert!(board.is_ordered());
    board.move_once(Move::Right);
    assert!(board.is_ordered());
    board.move_once(Move::Up);
    assert!(board.is_ordered());
    board.move_once(Move::Down);
    assert!(board.is_ordered());
}

#[test]
fn board_4x4() {
    let mut board = Board::new(4, &mut DummyShuffle).expect("board");
    assert_eq!(board.size(), 4);
    let expected_rows = &[
        &[1.into(), 2.into(), 3.into(), 4.into()],
        &[5.into(), 6.into(), 7.into(), 8.into()],
        &[9.into(), 10.into(), 11.into(), 12.into()],
        &[13.into(), 14.into(), 15.into(), None],
    ];
    assert_eq!(&board.to_rows(), expected_rows);
    assert!(board.is_ordered());

    board.move_once(Move::Left);
    assert_eq!(&board.to_rows(), expected_rows);
    assert!(board.is_ordered());

    board.move_once(Move::Up);
    assert_eq!(&board.to_rows(), expected_rows);
    assert!(board.is_ordered());

    board.move_once(Move::Right);
    assert_eq!(
        &board.to_rows(),
        &[
            &[1.into(), 2.into(), 3.into(), 4.into()],
            &[5.into(), 6.into(), 7.into(), 8.into()],
            &[9.into(), 10.into(), 11.into(), 12.into()],
            &[13.into(), 14.into(), None, 15.into()],
        ]
    );
    assert!(board.is_ordered());

    // Check not crossing left border
    board.move_many(&[Move::Right, Move::Right, Move::Right]);
    assert_eq!(
        &board.to_rows(),
        &[
            &[1.into(), 2.into(), 3.into(), 4.into()],
            &[5.into(), 6.into(), 7.into(), 8.into()],
            &[9.into(), 10.into(), 11.into(), 12.into()],
            &[None, 13.into(), 14.into(), 15.into()],
        ]
    );
    assert!(board.is_ordered());

    board.move_many(&[
        Move::Left,
        Move::Left,
        Move::Down,
        Move::Down,
        Move::Down,
        Move::Right,
        Move::Right,
    ]);
    assert_eq!(
        &board.to_rows(),
        &[
            &[None, 1.into(), 2.into(), 4.into()],
            &[5.into(), 6.into(), 3.into(), 8.into()],
            &[9.into(), 10.into(), 7.into(), 12.into()],
            &[13.into(), 14.into(), 11.into(), 15.into()],
        ]
    );
    assert!(!board.is_ordered());

    board.move_many(&[Move::Left, Move::Left, Move::Up, Move::Up, Move::Left]);
    assert_eq!(
        &board.to_rows(),
        &[
            &[1.into(), 2.into(), 3.into(), 4.into()],
            &[5.into(), 6.into(), 7.into(), 8.into()],
            &[9.into(), 10.into(), 12.into(), None],
            &[13.into(), 14.into(), 11.into(), 15.into()],
        ]
    );
    assert!(!board.is_ordered());

    // Check not crossing right border
    board.move_once(Move::Left);
    assert_eq!(
        &board.to_rows(),
        &[
            &[1.into(), 2.into(), 3.into(), 4.into()],
            &[5.into(), 6.into(), 7.into(), 8.into()],
            &[9.into(), 10.into(), 12.into(), None],
            &[13.into(), 14.into(), 11.into(), 15.into()],
        ]
    );
    assert!(!board.is_ordered());

    board.move_many(&[Move::Right, Move::Up, Move::Left]);
    assert_eq!(
        &board.to_rows(),
        &[
            &[1.into(), 2.into(), 3.into(), 4.into()],
            &[5.into(), 6.into(), 7.into(), 8.into()],
            &[9.into(), 10.into(), 11.into(), 12.into()],
            &[13.into(), 14.into(), 15.into(), None],
        ]
    );
    assert!(board.is_ordered());
}

#[test]
fn board_255x255() {
    let board = Board::new(255, &mut DummyShuffle).expect("board");
    assert_eq!(board.size(), 255);
    assert_eq!(board.get(0, 0), NonZeroU16::new(1).map(NonZeroU16::get));
    assert_eq!(board.get(0, 1), NonZeroU16::new(2).map(NonZeroU16::get));
    assert_eq!(board.get(0, 254), NonZeroU16::new(255).map(NonZeroU16::get));
    assert_eq!(board.get(1, 0), NonZeroU16::new(256).map(NonZeroU16::get));
    assert_eq!(board.get(2, 0), NonZeroU16::new(511).map(NonZeroU16::get));
    assert_eq!(board.get(254, 253), NonZeroU16::new(65024).map(NonZeroU16::get));
    assert_eq!(board.get(254, 254), None);
    assert!(board.is_ordered());
}

/// The cells of a board in storage order.
fn cells_of(board: &Board) -> Vec<Option<u16>> {
    board.to_rows().into_iter().flatten().collect()
}

/// Panics unless the cells hold one blank and each tile once.
fn assert_invariants(board: &Board) {
    let side = board.size() as usize;
    let cells = cells_of(board);
    assert_eq!(cells.len(), side * side);
    assert_eq!(cells.iter().filter(|cell| cell.is_none()).count(), 1);
    let mut tiles: Vec<u16> = cells.iter().flatten().copied().collect();
    tiles.sort();
    let expected: Vec<u16> = (1..(side * side) as u16).collect();
    assert_eq!(tiles, expected);
    let blank = cells.iter().position(|cell| cell.is_none()).expect("blank");
    assert_eq!(board.get((blank / side) as u8, (blank % side) as u8), None);
}

const ALL_MOVES: [Move; 4] = [Move::Left, Move::Right, Move::Up, Move::Down];

#[test]
fn zero_size_is_refused() {
    let built = Board::new(0, &mut DummyShuffle);
    assert!(matches!(built, Err(ConstructionError::ZeroSize)));
}

#[test]
fn every_size_builds_solved() {
    for size in 1..=40u8 {
        let board = Board::new(size, &mut DummyShuffle).expect("board");
        assert_eq!(board.size(), size);
        assert!(board.is_ordered());
        assert!(board.is_solved());
        assert_invariants(&board);
        let cells = cells_of(&board);
        assert_eq!(cells.last(), Some(&None));
        for (at, cell) in cells.iter().enumerate().take(cells.len() - 1) {
            assert_eq!(*cell, Some(at as u16 + 1));
        }
    }
}

#[test]
fn largest_board_is_solved_and_sound() {
    let board = Board::new(255, &mut DummyShuffle).expect("board");
    assert!(board.is_solved());
    assert_invariants(&board);
    assert_eq!(board.get(254, 253), Some(65024));
}

#[test]
fn opposite_move_restores_the_board() {
    let mut board = Board::new(4, &mut DummyShuffle).expect("board");
    let tour = [
        Move::Right,
        Move::Down,
        Move::Right,
        Move::Down,
        Move::Left,
        Move::Down,
        Move::Right,
        Move::Right,
        Move::Up,
        Move::Up,
        Move::Left,
    ];
    for step in tour {
        for mv in ALL_MOVES {
            let before = cells_of(&board);
            if board.move_once(mv) {
                assert_ne!(cells_of(&board), before);
                assert!(board.move_once(mv.opposite()));
            }
            assert_eq!(cells_of(&board), before);
        }
        board.move_once(step);
    }
}

#[test]
fn opposites_pair_up() {
    assert_eq!(Move::Left.opposite(), Move::Right);
    assert_eq!(Move::Right.opposite(), Move::Left);
    assert_eq!(Move::Up.opposite(), Move::Down);
    assert_eq!(Move::Down.opposite(), Move::Up);
}

#[test]
fn invariants_hold_after_any_moves() {
    for size in 1..=6u8 {
        let mut board = Board::new(size, &mut DummyShuffle).expect("board");
        let mut state: u32 = 12345 + size as u32;
        for _ in 0..2000 {
            state = state.wrapping_mul(1664525).wrapping_add(1013904223);
            let mv = ALL_MOVES[(state >> 16) as usize % 4];
            let legal = board.is_legal(mv);
            assert_eq!(board.move_once(mv), legal);
            assert_invariants(&board);
            assert_eq!(board.size(), size);
        }
    }
}

#[test]
fn three_moves_from_the_solved_board() {
    let mut board = Board::new(4, &mut DummyShuffle).expect("board");
    assert!(board.move_once(Move::Right));
    assert_eq!(
        board.to_rows(),
        vec![
            vec![Some(1), Some(2), Some(3), Some(4)],
            vec![Some(5), Some(6), Some(7), Some(8)],
            vec![Some(9), Some(10), Some(11), Some(12)],
            vec![Some(13), Some(14), None, Some(15)],
        ]
    );
    assert!(board.move_once(Move::Right));
    assert_eq!(
        board.to_rows(),
        vec![
            vec![Some(1), Some(2), Some(3), Some(4)],
            vec![Some(5), Some(6), Some(7), Some(8)],
            vec![Some(9), Some(10), Some(11), Some(12)],
            vec![Some(13), None, Some(14), Some(15)],
        ]
    );
    assert!(board.move_once(Move::Down));
    assert_eq!(
        board.to_rows(),
        vec![
            vec![Some(1), Some(2), Some(3), Some(4)],
            vec![Some(5), Some(6), Some(7), Some(8)],
            vec![Some(9), None, Some(11), Some(12)],
            vec![Some(13), Some(10), Some(14), Some(15)],
        ]
    );
    assert!(!board.is_ordered());
}

#[test]
fn moves_against_a_wall_change_nothing() {
    let mut board = Board::new(3, &mut DummyShuffle).expect("board");
    let solved = cells_of(&board);
    // The blank is in the last cell: nothing is below it or to its right.
    assert!(!board.move_once(Move::Up));
    assert_eq!(cells_of(&board), solved);
    assert!(!board.move_once(Move::Left));
    assert_eq!(cells_of(&board), solved);

    assert_eq!(board.move_many(&[Move::Down, Move::Down, Move::Right, Move::Right]), 4);
    let corner = cells_of(&board);
    assert_eq!(corner[0], None);
    // The blank is in the first cell: nothing is above it or to its left.
    assert!(!board.move_once(Move::Down));
    assert_eq!(cells_of(&board), corner);
    assert!(!board.move_once(Move::Right));
    assert_eq!(cells_of(&board), corner);
}

#[test]
fn blank_does_not_wrap_to_the_next_row() {
    let mut board = Board::new(3, &mut DummyShuffle).expect("board");
    assert!(board.move_once(Move::Down));
    // The blank ends the middle row; the next cell begins the last row.
    assert_eq!(board.get(1, 2), None);
    assert!(!board.move_once(Move::Left));
    assert_eq!(board.get(1, 2), None);
    assert_eq!(board.move_many(&[Move::Right, Move::Right]), 2);
    // The blank begins the middle row; the cell before ends the first row.
    assert_eq!(board.get(1, 0), None);
    assert!(!board.move_once(Move::Right));
    assert_eq!(board.get(1, 0), None);
}

#[test]
fn move_many_counts_only_legal_moves() {
    let mut board = Board::new(2, &mut DummyShuffle).expect("board");
    assert_eq!(board.move_many(&[]), 0);
    let applied = board.move_many(&[Move::Up, Move::Right, Move::Right, Move::Down, Move::Down]);
    assert_eq!(applied, 2);
    assert_eq!(board.to_rows(), vec![vec![None, Some(2)], vec![Some(1), Some(3)]]);
    assert!(!board.is_ordered());
}

#[test]
fn order_does_not_depend_on_the_blank() {
    let mut board = Board::new(3, &mut DummyShuffle).expect("board");
    assert_eq!(board.move_many(&[Move::Right, Move::Right]), 2);
    assert_eq!(board.get(2, 0), None);
    assert!(board.is_ordered());
    assert!(board.is_solved());
    assert!(board.move_once(Move::Down));
    assert!(!board.is_ordered());
    assert!(!board.is_solved());
}

#[test]
fn legal_moves_follow_the_blank() {
    let mut board = Board::new(3, &mut DummyShuffle).expect("board");
    assert_eq!(board.legal_moves(), vec![Move::Right, Move::Down]);
    assert!(board.is_legal(Move::Right));
    assert!(!board.is_legal(Move::Left));
    board.move_many(&[Move::Right, Move::Down]);
    assert_eq!(board.get(1, 1), None);
    assert_eq!(board.legal_moves(), vec![Move::Left, Move::Right, Move::Up, Move::Down]);
    board.move_many(&[Move::Down, Move::Right]);
    assert_eq!(board.get(0, 0), None);
    assert_eq!(board.legal_moves(), vec![Move::Left, Move::Up]);
    let single = Board::new(1, &mut DummyShuffle).expect("board");
    assert_eq!(single.legal_moves(), Vec::<Move>::new());
}

#[test]
fn rows_are_slices_of_the_cells() {
    let mut board = Board::new(3, &mut DummyShuffle).expect("board");
    board.move_once(Move::Down);
    let rows = board.rows();
    assert_eq!(rows.len(), 3);
    assert_eq!(rows[0], &[Some(1), Some(2), Some(3)]);
    assert_eq!(rows[1], &[Some(4), Some(5), None]);
    assert_eq!(rows[2], &[Some(7), Some(8), Some(6)]);
    let copied = board.to_rows();
    for (row, copy) in rows.iter().zip(copied.iter()) {
        assert_eq!(*row, copy.as_slice());
    }
}

#[test]
fn reset_solves_the_board_again() {
    let mut board = Board::new(4, &mut DummyShuffle).expect("board");
    board.move_many(&[Move::Down, Move::Right, Move::Down, Move::Right, Move::Up]);
    assert!(!board.is_solved());
    board.reset(&mut DummyShuffle);
    assert_eq!(board.size(), 4);
    assert!(board.is_solved());
    assert_eq!(board.get(3, 3), None);
    assert_eq!(board.get(0, 0), Some(1));
    assert_eq!(board.get(3, 2), Some(15));
    assert_invariants(&board);
}

#[test]
fn boards_compare_by_their_cells() {
    let mut moved = Board::new(3, &mut DummyShuffle).expect("board");
    let solved = Board::new(3, &mut DummyShuffle).expect("board");
    assert!(moved == solved);
    assert!(moved.move_once(Move::Down));
    assert!(moved != solved);
    assert!(moved.move_once(Move::Up));
    assert!(moved == solved);
    assert!(solved != Board::new(2, &mut DummyShuffle).expect("board"));
}
