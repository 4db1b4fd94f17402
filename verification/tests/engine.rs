use goban::{
    apply_move_to_board, calculate_score, coord_to_index, determine_territory, find_empty_regions,
    find_groups, remove_dead_stones, Board, Occupant, ScoringMethod, SpotState,
};

fn empty_spot(occ: Occupant) -> SpotState {
    SpotState {
        occupant: occ,
        move_number: None,
        marker: None,
        playable: true,
        scoring_owner: None,
        scoring_explanation: None,
    }
}

fn create_board_from_vec(vec: Vec<Occupant>, board_size: u8) -> Board {
    let spots: Vec<SpotState> = vec.into_iter().map(empty_spot).collect();
    Board::new(spots, board_size)
}

fn empty_board_spots(size: usize) -> Vec<SpotState> {
    (0..size * size).map(|_| empty_spot(Occupant::Empty)).collect()
}

fn half(points: f64) -> u64 {
    (points * 2.0) as u64
}

#[test]
fn go_test_indexing() {
    let board = create_board_from_vec(vec![Occupant::Empty; 9], 3);
    assert_eq!(board.index(0, 0), 0);
    assert_eq!(board.index(1, 1), 4);
    assert_eq!(board.index(2, 2), 8);
}

#[test]
fn scoring_tests_test_indexing() {
    let board = create_board_from_vec(vec![Occupant::Empty; 9], 3);
    assert_eq!(board.index(0, 0), 0);
    assert_eq!(board.index(1, 1), 4);
    assert_eq!(board.index(2, 2), 8);
}

#[test]
fn go_test_find_groups() {
    // 3x3 board: one Black stone at top left.
    let mut vec = vec![Occupant::Empty; 9];
    vec[0] = Occupant::Black;
    let board = create_board_from_vec(vec, 3);
    let groups = find_groups(&board);
    assert_eq!(groups.len(), 1);
    let group = &groups[0];
    assert_eq!(group.stones.len(), 1);
    assert_eq!(group.occupant, Occupant::Black);
    // Black stone at (0,0) has neighbors (0,1) and (1,0)
    assert_eq!(group.liberties.len(), 2);
    assert!(group.liberties.contains(&(0, 1)));
    assert!(group.liberties.contains(&(1, 0)));
}

#[test]
fn scoring_tests_test_find_groups() {
    let mut vec = vec![Occupant::Empty; 9];
    vec[0] = Occupant::Black;
    let board = create_board_from_vec(vec, 3);
    let groups = find_groups(&board);
    assert_eq!(groups.len(), 1);
    let group = &groups[0];
    assert_eq!(group.stones.len(), 1);
    assert_eq!(group.occupant, Occupant::Black);
    assert_eq!(group.liberties.len(), 2);
    assert!(group.liberties.contains(&(0, 1)));
    assert!(group.liberties.contains(&(1, 0)));
}

#[test]
fn test_remove_all_dead_groups() {
    // 3x3 board where a Black stone at (1,1) is completely surrounded by
    // White.  Neither group has a liberty, so a removal pass clears both:
    // zero liberties means removed, with no border exception.
    let board_size = 3;
    let mut vec = Vec::new();
    for row in 0..board_size {
        for col in 0..board_size {
            if row == 1 && col == 1 {
                vec.push(Occupant::Black);
            } else {
                vec.push(Occupant::White);
            }
        }
    }
    let mut board = create_board_from_vec(vec, board_size);
    let groups = find_groups(&board);
    let black_group = groups.iter().find(|g| g.occupant == Occupant::Black).unwrap();
    assert!(black_group.liberties.is_empty());
    let removed_groups = remove_dead_stones(&mut board);
    assert_eq!(board.get(1, 1).unwrap().occupant, Occupant::Empty);
    assert_eq!(board.get(1, 1).unwrap().marker.as_deref(), Some("removed"));
    assert_eq!(removed_groups.len(), 2);
    for row in 0..board_size {
        for col in 0..board_size {
            assert_eq!(board.get(row, col).unwrap().occupant, Occupant::Empty);
        }
    }
}

#[test]
fn test_capture_pass_removes_surrounded_group() {
    // A surrounded single White stone with the surrounding Black stones
    // still holding outside liberties: only the White group is dead.
    let board_size = 3;
    let mut vec = vec![Occupant::Empty; 9];
    vec[1] = Occupant::Black; // (0,1)
    vec[3] = Occupant::Black; // (1,0)
    vec[4] = Occupant::White; // (1,1)
    vec[5] = Occupant::Black; // (1,2)
    vec[7] = Occupant::Black; // (2,1)
    let mut board = create_board_from_vec(vec, board_size);
    let removed = remove_dead_stones(&mut board);
    assert_eq!(removed.len(), 1);
    assert_eq!(removed[0].occupant, Occupant::White);
    assert_eq!(board.get(1, 1).unwrap().occupant, Occupant::Empty);
    assert_eq!(board.get(1, 1).unwrap().marker.as_deref(), Some("removed"));
    assert_eq!(board.get(0, 1).unwrap().occupant, Occupant::Black);
}

#[test]
fn go_test_find_empty_regions_and_territory() {
    // 3x3 board: Black stones at (0,0) and (0,1); others empty.
    // The empty region touches the board edge, so neither side gets
    // territory.
    let board_size = 3;
    let mut vec = vec![Occupant::Empty; 9];
    vec[0] = Occupant::Black; // (0,0)
    vec[1] = Occupant::Black; // (0,1)
    let board = create_board_from_vec(vec, board_size);
    let regions = find_empty_regions(&board);
    assert_eq!(regions.len(), 1);
    let region = &regions[0];
    assert!(region.border.contains(&Occupant::Black));
    let (black_territory, white_territory) = determine_territory(&board);
    assert_eq!(black_territory, 0);
    assert_eq!(white_territory, 0);
}

#[test]
fn scoring_tests_test_find_empty_regions_and_territory() {
    let board_size = 3;
    let mut vec = vec![Occupant::Empty; 9];
    vec[0] = Occupant::Black;
    vec[1] = Occupant::Black;
    let board = create_board_from_vec(vec, board_size);
    let regions = find_empty_regions(&board);
    assert_eq!(regions.len(), 1);
    let region = &regions[0];
    assert!(region.border.contains(&Occupant::Black));
    let (black_territory, white_territory) = determine_territory(&board);
    assert_eq!(black_territory, 0);
    assert_eq!(white_territory, 0);
}

#[test]
fn test_pass_and_game_over() {
    let size = 5;
    let mut board = empty_board_spots(size);
    let ts = 1000;
    for y in 0..3 {
        for x in 0..3 {
            let idx = coord_to_index(x, y, size);
            board[idx].occupant = Occupant::Black;
            board[idx].move_number = Some(ts);
        }
    }
    let board = Board::new(board, size as u8);
    let (score_black, score_white) = calculate_score(&board, ScoringMethod::Area, half(6.5));
    assert!(score_black > score_white, "Black should have a higher score");
}

#[test]
fn test_handicap_creation() {
    let size = 9;
    let handicap = 2;
    let ts = 1000;
    let mut board = empty_board_spots(size);
    let handicap_positions = vec![(2, 2), (6, 6), (2, 6), (6, 2), (4, 4)];
    for i in 0..(handicap as usize).min(handicap_positions.len()) {
        let (x, y) = handicap_positions[i];
        let idx = coord_to_index(x, y, size);
        board[idx].occupant = Occupant::Black;
        board[idx].move_number = Some(ts);
    }
    let count_black = board.iter().filter(|s| s.occupant == Occupant::Black).count();
    assert_eq!(count_black, 2, "Two handicap stones should be pre-placed");
}

#[test]
fn tests_test_legal_move() {
    let size = 9;
    let board = empty_board_spots(size);
    let timestamp = 1000;
    let new_board = apply_move_to_board(board, size, Occupant::Black, 4, 4, None, timestamp)
        .expect("Legal move should succeed");
    let idx = coord_to_index(4, 4, size);
    assert_eq!(new_board[idx].occupant, Occupant::Black, "Black stone should be at (4,4)");
}

#[test]
fn tests_test_move_on_occupied() {
    let size = 9;
    let board = empty_board_spots(size);
    let timestamp = 1000;
    let board = apply_move_to_board(board, size, Occupant::Black, 2, 2, None, timestamp).unwrap();
    let result = apply_move_to_board(board, size, Occupant::White, 2, 2, None, timestamp + 1);
    assert!(result.is_err(), "Should not allow move on an occupied spot");
    assert!(result.unwrap_err().message().contains("occupied"));
}

#[test]
fn tests_test_capture() {
    let size = 5;
    let mut board = empty_board_spots(size);
    let ts = 1000;
    board = apply_move_to_board(board, size, Occupant::White, 2, 2, None, ts).unwrap();
    board = apply_move_to_board(board, size, Occupant::Black, 2, 1, None, ts + 1).unwrap();
    board = apply_move_to_board(board, size, Occupant::Black, 1, 2, None, ts + 2).unwrap();
    board = apply_move_to_board(board, size, Occupant::Black, 3, 2, None, ts + 3).unwrap();
    let new_board = apply_move_to_board(board, size, Occupant::Black, 2, 3, None, ts + 4).unwrap();
    let idx_white = coord_to_index(2, 2, size);
    assert_eq!(
        new_board[idx_white].occupant,
        Occupant::Empty,
        "White stone should be captured"
    );
    assert!(new_board[idx_white].marker.is_some(), "Captured spot should be marked");
}

#[test]
fn test_suicide() {
    let size = 5;
    let mut board = empty_board_spots(size);
    let ts = 1000;
    board = apply_move_to_board(board, size, Occupant::Black, 1, 2, None, ts).unwrap();
    board = apply_move_to_board(board, size, Occupant::Black, 2, 1, None, ts + 1).unwrap();
    board = apply_move_to_board(board, size, Occupant::Black, 3, 2, None, ts + 2).unwrap();
    board = apply_move_to_board(board, size, Occupant::Black, 2, 3, None, ts + 3).unwrap();
    let result = apply_move_to_board(board, size, Occupant::White, 2, 2, None, ts + 4);
    assert!(result.is_err(), "Suicide move should be rejected");
    assert!(result.unwrap_err().message().contains("self_capture"));
}

#[test]
fn tests_test_ko_rule() {
    let size = 5;
    let mut board = empty_board_spots(size);
    let ts = 1000;
    board = apply_move_to_board(board, size, Occupant::White, 2, 2, None, ts).unwrap();
    board = apply_move_to_board(board, size, Occupant::Black, 2, 1, None, ts + 1).unwrap();
    board = apply_move_to_board(board, size, Occupant::Black, 1, 2, None, ts + 2).unwrap();
    board = apply_move_to_board(board, size, Occupant::Black, 3, 2, None, ts + 3).unwrap();
    board = apply_move_to_board(board, size, Occupant::White, 2, 3, None, ts + 4).unwrap();
    let prev: Vec<Occupant> = board.iter().map(|s| s.occupant).collect();
    let result = apply_move_to_board(board, size, Occupant::Black, 2, 1, Some(prev), ts + 5);
    assert!(result.is_err(), "Ko rule should prevent immediate recapture");
}

#[test]
fn test_empty_board_territory_score() {
    // An empty board yields no territory; White receives the komi alone.
    for n in [3u8, 5, 9] {
        let total = (n as usize) * (n as usize);
        let board = create_board_from_vec(vec![Occupant::Empty; total], n);
        let (black, white) = calculate_score(&board, ScoringMethod::Territory, half(6.5));
        assert_eq!(black, 0);
        assert_eq!(white, half(6.5));
    }
}

#[test]
fn test_enclosed_ring() {
    // 3x3 ring of Black stones enclosing the center point.
    let board_size = 3;
    let mut occupants = Vec::with_capacity(9);
    for row in 0..board_size {
        for col in 0..board_size {
            if row == 1 && col == 1 {
                occupants.push(Occupant::Empty);
            } else {
                occupants.push(Occupant::Black);
            }
        }
    }
    let board = create_board_from_vec(occupants, board_size);
    let (black_territory, white_territory) =
        calculate_score(&board, ScoringMethod::Territory, 0);
    assert_eq!(black_territory, half(1.0));
    assert_eq!(white_territory, 0);
    let (black_area, white_area) = calculate_score(&board, ScoringMethod::Area, 0);
    assert_eq!(black_area, half(9.0));
    assert_eq!(white_area, 0);
}

#[test]
fn test_self_capture_rejected_board_unchanged() {
    // Black ring around (2,2) on a 5x5 board: White at (2,2) is a
    // self-capture, and the caller's board stays as it was.
    let size = 5;
    let mut board = empty_board_spots(size);
    for (x, y) in [(2usize, 1usize), (1, 2), (3, 2), (2, 3)] {
        let idx = coord_to_index(x, y, size);
        board[idx].occupant = Occupant::Black;
    }
    let before: Vec<Occupant> = board.iter().map(|s| s.occupant).collect();
    let result = apply_move_to_board(board.clone(), size, Occupant::White, 2, 2, None, 7);
    assert!(result.is_err());
    let after: Vec<Occupant> = board.iter().map(|s| s.occupant).collect();
    assert_eq!(before, after);
}

#[test]
fn test_playability_of_surrounded_point() {
    // A Black ring around (2,2): the point is a self-capture for White
    // but connects to the ring for Black.
    let size = 5;
    let mut spots = empty_board_spots(size);
    for (x, y) in [(2usize, 1usize), (1, 2), (3, 2), (2, 3)] {
        let idx = coord_to_index(x, y, size);
        spots[idx].occupant = Occupant::Black;
    }
    let board = Board::new(spots, size as u8);
    assert!(!Board::is_move_playable(&board, 2, 2, Occupant::White));
    assert!(Board::is_move_playable(&board, 2, 2, Occupant::Black));
}
