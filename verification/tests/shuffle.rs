use puzzle15::{Board, BoardShuffle, DummyShuffle, Move, RandomShuffle};

fn flat(board: &Board) -> Vec<Option<u16>> {
    board.to_rows().into_iter().flatten().collect()
}

fn assert_permutation(board: &Board) {
    let side = board.size() as usize;
    let cells = flat(board);
    assert_eq!(cells.len(), side * side);
    let mut tiles: Vec<u16> = cells.iter().flatten().copied().collect();
    tiles.sort();
    assert_eq!(tiles, (1..(side * side) as u16).collect::<Vec<u16>>());
}

/// How far the blank is from the last cell, in rows plus columns.
fn blank_distance(board: &Board) -> usize {
    let side = board.size() as usize;
    let blank = flat(board).iter().position(|cell| cell.is_none()).expect("blank");
    (side - 1 - blank / side) + (side - 1 - blank % side)
}

/// The number of pairs of tiles that stand in the wrong order.
fn inversions(board: &Board) -> usize {
    let tiles: Vec<u16> = flat(board).into_iter().flatten().collect();
    let mut count = 0;
    for a in 0..tiles.len() {
        for b in a + 1..tiles.len() {
            if tiles[a] > tiles[b] {
                count += 1;
            }
        }
    }
    count
}

/// Every layout of the 2×2 board that moves produce from the solved one.
fn reachable_2x2() -> Vec<Vec<Option<u16>>> {
    let mut seen: Vec<Vec<Option<u16>>> = vec![vec![Some(1), Some(2), Some(3), None]];
    let mut next = 0;
    while next < seen.len() {
        let cells = seen[next].clone();
        next += 1;
        let blank = cells.iter().position(|cell| cell.is_none()).expect("blank");
        let neighbours: [usize; 2] = [blank ^ 1, blank ^ 2];
        for target in neighbours {
            let mut moved = cells.clone();
            moved.swap(blank, target);
            if !seen.contains(&moved) {
                seen.push(moved);
            }
        }
    }
    seen
}

#[test]
fn dummy_shuffle_leaves_the_board() {
    let mut board = Board::new(4, &mut DummyShuffle).expect("board");
    board.move_many(&[Move::Right, Move::Down]);
    let before = flat(&board);
    DummyShuffle.shuffle(&mut board);
    assert_eq!(flat(&board), before);
}

#[test]
fn random_walk_keeps_the_invariants() {
    for size in 1..=6u8 {
        let mut shuffle = RandomShuffle::new(rand::thread_rng());
        let board = Board::new(size, &mut shuffle).expect("board");
        assert_eq!(board.size(), size);
        assert_permutation(&board);
    }
}

#[test]
fn random_walk_on_2x2_is_reachable() {
    let reachable = reachable_2x2();
    assert_eq!(reachable.len(), 12);
    let mut shuffle = RandomShuffle::new(rand::thread_rng());
    for _ in 0..50 {
        let board = Board::new(2, &mut shuffle).expect("board");
        assert!(reachable.contains(&flat(&board)));
    }
}

#[test]
fn random_walk_on_3x3_is_solvable() {
    let mut shuffle = RandomShuffle::new(rand::thread_rng());
    for _ in 0..50 {
        let board = Board::new(3, &mut shuffle).expect("board");
        assert_permutation(&board);
        // On a board of odd side a layout can be solved exactly when the
        // number of inversions is even.
        assert_eq!(inversions(&board) % 2, 0);
    }
}

#[test]
fn random_walk_on_4x4_is_solvable() {
    let mut shuffle = RandomShuffle::new(rand::thread_rng());
    for _ in 0..20 {
        let board = Board::new(4, &mut shuffle).expect("board");
        assert_permutation(&board);
        // On a board of even side: inversions plus the blank's distance in
        // rows from the last row is even.
        let side = 4;
        let blank = flat(&board).iter().position(|cell| cell.is_none()).expect("blank");
        let rows_below = side - 1 - blank / side;
        assert_eq!((inversions(&board) + rows_below) % 2, 0);
    }
}

#[test]
fn random_walk_takes_an_even_number_of_steps() {
    // The walk on a board of side 2 or more has side^4 steps, each one cell
    // further from or nearer to the last cell: the parities agree.
    for size in 2..=5u8 {
        let mut shuffle = RandomShuffle::new(rand::thread_rng());
        for _ in 0..10 {
            let board = Board::new(size, &mut shuffle).expect("board");
            let steps = (size as usize).pow(4);
            assert_eq!(blank_distance(&board) % 2, steps % 2);
        }
    }
}

#[test]
fn random_walk_leaves_the_single_cell_alone() {
    let mut shuffle = RandomShuffle::new(rand::thread_rng());
    let board = Board::new(1, &mut shuffle).expect("board");
    assert_eq!(board.to_rows(), vec![vec![None]]);
    assert!(board.is_solved());
}

#[test]
fn random_walk_mixes_a_large_board() {
    let mut shuffle = RandomShuffle::new(rand::thread_rng());
    let board = Board::new(8, &mut shuffle).expect("board");
    assert_permutation(&board);
    assert!(!board.is_solved());
}

#[test]
fn random_walk_on_reset_is_solvable() {
    let mut shuffle = RandomShuffle::new(rand::thread_rng());
    let mut board = Board::new(3, &mut DummyShuffle).expect("board");
    for _ in 0..10 {
        board.reset(&mut shuffle);
        assert_eq!(board.size(), 3);
        assert_permutation(&board);
        assert_eq!(inversions(&board) % 2, 0);
    }
}
