use blockstorm::{Game, MinoesError, Piece, PieceType, Point, Rotation, TetrisDirection};

fn empty_game_with(moving: Piece, queue: Vec<Piece>) -> Game {
    Game {
        ghost_piece: None,
        moving_piece: moving,
        playfield: [[0; 10]; 22],
        score: 0,
        level: 1,
        lines_cleared: 0,
        next_pieces: queue,
        held_piece: None,
    }
}

fn all_types() -> Vec<PieceType> {
    vec![
        PieceType::I,
        PieceType::J,
        PieceType::L,
        PieceType::O,
        PieceType::S,
        PieceType::T,
        PieceType::Z,
    ]
}

#[test]
fn piece_cells_are_distinct_for_every_type_and_rotation() {
    for t in all_types() {
        let mut piece = Piece::new(t);
        for _rotation in 0..4 {
            let points = piece.get_piece_points().unwrap();
            for i in 0..4 {
                for j in 0..4 {
                    if i != j {
                        assert_ne!(points[i], points[j]);
                    }
                }
            }
            // keep the piece away from the top so every rotation state is legal
            piece.move_piece(&TetrisDirection::Down);
            piece.move_piece(&TetrisDirection::Down);
            piece.rotate_piece(&Rotation::CounterClockwise);
        }
    }
}

#[test]
fn spawn_points_of_i_piece() {
    let piece = Piece::new(PieceType::I);
    let points = piece.get_piece_points().unwrap();
    assert_eq!(points[0], Point(1, 3));
    assert_eq!(points[1], Point(1, 4));
    assert_eq!(points[2], Point(1, 6));
    assert_eq!(points[3], Point(1, 5));
}

#[test]
fn get_piece_points_rejects_negative_rows() {
    let mut piece = Piece::new(PieceType::I);
    piece.rotate_piece(&Rotation::CounterClockwise);
    // vertical I at spawn row reaches row -1
    assert!(piece.get_piece_points().is_err());
}

#[test]
fn fill_then_clear_restores_the_grid() {
    for t in all_types() {
        let piece = Piece::new(t);
        let mut game = empty_game_with(piece, Vec::new());
        game.playfield[21][0] = 8;
        game.playfield[10][7] = 8;
        let before = game.playfield;
        game.fill_piece_points(&piece).unwrap();
        game.clear_piece_points(&piece).unwrap();
        assert_eq!(game.playfield, before);
    }
}

#[test]
fn clear_leaves_other_pieces_alone() {
    let piece = Piece::new(PieceType::O);
    let mut game = empty_game_with(piece, Vec::new());
    game.fill_piece_points(&piece).unwrap();
    // a different piece sharing no cells: clearing it changes nothing
    let mut other = Piece::new(PieceType::O);
    other.center = Point(10, 4);
    game.clear_piece_points(&other).unwrap();
    let points = piece.get_piece_points().unwrap();
    for p in points.iter() {
        assert_eq!(game.playfield[p.0 as usize][p.1 as usize], piece.color);
    }
}

#[test]
fn rotation_round_trip_restores_the_piece() {
    for start in 0..4 {
        for t in all_types() {
            let mut piece = Piece::new(t);
            for _i in 0..start {
                piece.rotate_piece(&Rotation::CounterClockwise);
            }
            let center = piece.center;
            let rotation_id = piece.current_rotation_id;
            piece.rotate_piece(&Rotation::Clockwise);
            piece.rotate_piece(&Rotation::CounterClockwise);
            assert_eq!(piece.center, center);
            assert_eq!(piece.current_rotation_id, rotation_id);
            piece.rotate_piece(&Rotation::CounterClockwise);
            piece.rotate_piece(&Rotation::Clockwise);
            assert_eq!(piece.center, center);
            assert_eq!(piece.current_rotation_id, rotation_id);
        }
    }
}

#[test]
fn opposite_and_other_directions() {
    assert!(matches!(
        TetrisDirection::Up.opposite_direction(),
        TetrisDirection::Down
    ));
    assert!(matches!(
        TetrisDirection::Left.opposite_direction(),
        TetrisDirection::Right
    ));
    assert!(matches!(
        Rotation::Clockwise.other_direction(),
        Rotation::CounterClockwise
    ));
    assert!(matches!(
        Rotation::CounterClockwise.other_direction(),
        Rotation::Clockwise
    ));
}

#[test]
fn bag_gives_each_type_once_per_seven_draws() {
    let mut game = Game::new();
    // first bag: the moving piece plus the six queued pieces
    let mut seen = [false; 8];
    let first = game.moving_piece.color as usize;
    assert!((1..=7).contains(&first));
    seen[first] = true;
    for _i in 0..6 {
        let piece = game.get_next_piece_in_queue(true);
        let color = piece.color as usize;
        assert!((1..=7).contains(&color));
        assert!(!seen[color]);
        seen[color] = true;
    }
    // second window of seven draws: again each type exactly once
    let mut seen2 = [false; 8];
    for _i in 0..7 {
        let piece = game.get_next_piece_in_queue(true);
        let color = piece.color as usize;
        assert!((1..=7).contains(&color));
        assert!(!seen2[color]);
        seen2[color] = true;
    }
}

#[test]
fn peeking_does_not_consume() {
    let mut game = Game::new();
    let peeked = game.get_next_piece_in_queue(false);
    let len_after_peek = game.next_pieces.len();
    let popped = game.get_next_piece_in_queue(true);
    assert_eq!(peeked.color, popped.color);
    assert_eq!(game.next_pieces.len(), len_after_peek - 1);
}

#[test]
fn clear_filled_lines_on_empty_grid_clears_nothing() {
    let mut game = empty_game_with(Piece::new(PieceType::T), Vec::new());
    let before = game.playfield;
    assert_eq!(game.clear_filled_lines(), 0);
    assert_eq!(game.playfield, before);
}

#[test]
fn clear_filled_lines_ignores_partial_rows() {
    let mut game = empty_game_with(Piece::new(PieceType::T), Vec::new());
    for c in 0..10 {
        if c != 4 {
            game.playfield[21][c] = 8;
        }
    }
    let before = game.playfield;
    assert_eq!(game.clear_filled_lines(), 0);
    assert_eq!(game.playfield, before);
}

#[test]
fn completing_a_row_clears_it_and_shifts_rows_down() {
    let mut game = empty_game_with(Piece::new(PieceType::T), Vec::new());
    for c in 0..10 {
        if c != 4 {
            game.playfield[21][c] = 8;
        }
    }
    game.playfield[20][0] = 8;
    game.playfield[19][9] = 8;
    let before = game.playfield;
    game.playfield[21][4] = 8;
    assert_eq!(game.clear_filled_lines(), 1);
    for r in 1..22 {
        assert_eq!(game.playfield[r], before[r - 1]);
    }
    assert_eq!(game.playfield[0], before[0]);
}

#[test]
fn stacked_full_rows_are_all_cleared() {
    let mut game = empty_game_with(Piece::new(PieceType::T), Vec::new());
    for r in 18..22 {
        for c in 0..10 {
            game.playfield[r][c] = 8;
        }
    }
    game.playfield[17][3] = 8;
    assert_eq!(game.clear_filled_lines(), 4);
    assert_eq!(game.playfield[21][3], 8);
    for r in 0..21 {
        for c in 0..10 {
            assert_eq!(game.playfield[r][c], 0);
        }
    }
}

#[test]
fn score_bonus_per_cleared_lines() {
    let mut game = empty_game_with(Piece::new(PieceType::T), Vec::new());
    game.level = 3;
    game.adjust_score(0);
    assert_eq!(game.score, 0);
    game.adjust_score(1);
    assert_eq!(game.score, 300);
    game.adjust_score(2);
    assert_eq!(game.score, 300 + 900);
    game.adjust_score(3);
    assert_eq!(game.score, 300 + 900 + 1500);
    game.adjust_score(4);
    assert_eq!(game.score, 300 + 900 + 1500 + 2400);
    game.adjust_score(5);
    assert_eq!(game.score, 300 + 900 + 1500 + 2400);
}

#[test]
fn level_rises_every_ten_lines() {
    let mut game = empty_game_with(Piece::new(PieceType::T), Vec::new());
    game.adjust_level(4);
    assert_eq!(game.level, 1);
    assert_eq!(game.lines_cleared, 4);
    game.adjust_level(6);
    assert_eq!(game.level, 2);
    assert_eq!(game.lines_cleared, 10);
    game.adjust_level(9);
    assert_eq!(game.level, 2);
    game.adjust_level(1);
    assert_eq!(game.level, 3);
}

#[test]
fn tetris_at_level_one_scores_eight_hundred() {
    // four rows complete except the rightmost column; a vertical I piece
    // dropped there clears all four at once
    let mut piece = Piece::new(PieceType::I);
    piece.rotate_piece(&Rotation::CounterClockwise);
    piece.center = Point(5, 9);
    let mut game = empty_game_with(piece, vec![Piece::new(PieceType::O)]);
    for r in 18..22 {
        for c in 0..9 {
            game.playfield[r][c] = 8;
        }
    }
    game.fill_piece_points(&piece).unwrap();
    game.update_ghost_piece();
    assert!(game.ghost_piece.is_some());
    game.hard_drop_moving_piece().unwrap();
    assert_eq!(game.score, 800);
    assert_eq!(game.lines_cleared, 4);
    assert_eq!(game.level, 1);
    // the stack is gone (only the new piece's ghost marks the bottom rows)
    // and the next piece has spawned
    for c in 0..10 {
        assert_ne!(game.playfield[21][c], 8);
    }
    assert_eq!(game.moving_piece.color, 4);
}

#[test]
fn hard_drop_locks_the_piece_at_the_bottom() {
    let piece = Piece::new(PieceType::O);
    let mut game = empty_game_with(piece, vec![Piece::new(PieceType::T)]);
    game.fill_piece_points(&piece).unwrap();
    game.update_ghost_piece();
    game.hard_drop_moving_piece().unwrap();
    // the O piece rests in the bottom two rows, as locked blocks
    assert_eq!(game.playfield[21][4], 8);
    assert_eq!(game.playfield[21][5], 8);
    assert_eq!(game.playfield[20][4], 8);
    assert_eq!(game.playfield[20][5], 8);
    assert_eq!(game.score, 0);
    assert_eq!(game.lines_cleared, 0);
}

#[test]
fn spawning_onto_locked_cells_is_the_game_over_signal() {
    let mut game = empty_game_with(Piece::new(PieceType::T), Vec::new());
    for r in 0..3 {
        for c in 3..7 {
            game.playfield[r][c] = 8;
        }
    }
    let before_queue = game.next_pieces.len();
    let result = game.add_piece_to_field(Piece::new(PieceType::L));
    assert!(matches!(result, Err(MinoesError::OverlappingMinoes(_))));
    // the failed spawn leaves no ghost and consumes nothing further
    assert!(game.ghost_piece.is_none());
    assert_eq!(game.next_pieces.len(), before_queue);
}

#[test]
fn rejected_rotation_restores_piece_and_grid() {
    // a horizontal I piece at the very top: its vertical form would leave
    // the grid for every one of the five kick offsets
    let mut piece = Piece::new(PieceType::I);
    piece.center = Point(0, 5);
    let mut game = empty_game_with(piece, Vec::new());
    game.playfield[5][5] = 8;
    game.fill_piece_points(&piece).unwrap();
    let field_before = game.playfield;
    let center_before = piece.center;
    let rotation_before = piece.current_rotation_id;
    let result = game.rotate_moving_piece(&Rotation::CounterClockwise);
    assert!(result.is_err());
    assert_eq!(game.moving_piece.center, center_before);
    assert_eq!(game.moving_piece.current_rotation_id, rotation_before);
    assert_eq!(game.playfield, field_before);
}

#[test]
fn rejected_move_restores_piece_and_grid() {
    let piece = Piece::new(PieceType::O);
    let mut game = empty_game_with(piece, Vec::new());
    game.fill_piece_points(&piece).unwrap();
    game.update_ghost_piece();
    let field_before = game.playfield;
    let center_before = game.moving_piece.center;
    // the O piece spawns against rows 0..2; moving up leaves the grid
    let result = game.move_moving_piece(TetrisDirection::Up);
    assert!(result.is_err());
    assert_eq!(game.moving_piece.center, center_before);
    assert_eq!(game.playfield, field_before);
}

#[test]
fn legal_move_shifts_the_footprint() {
    let piece = Piece::new(PieceType::T);
    let mut game = empty_game_with(piece, Vec::new());
    game.fill_piece_points(&piece).unwrap();
    game.update_ghost_piece();
    game.move_moving_piece(TetrisDirection::Right).unwrap();
    let points = game.moving_piece.get_piece_points().unwrap();
    assert_eq!(game.moving_piece.center, Point(1, 5));
    for p in points.iter() {
        assert_eq!(game.playfield[p.0 as usize][p.1 as usize], piece.color);
    }
}

#[test]
fn wall_kick_shifts_a_piece_off_the_wall() {
    // a vertical I piece hugging the left wall: rotating it to horizontal
    // in place would cross the wall, and a kick must resolve it
    let mut piece = Piece::new(PieceType::I);
    piece.rotate_piece(&Rotation::CounterClockwise);
    piece.center = Point(10, 1);
    let mut game = empty_game_with(piece, Vec::new());
    game.fill_piece_points(&piece).unwrap();
    game.update_ghost_piece();
    let result = game.rotate_moving_piece(&Rotation::Clockwise);
    assert!(result.is_ok());
    // the first three kicks fail against the wall; the piece lands one row
    // up and one column to the right, horizontal again
    assert_eq!(game.moving_piece.center, Point(9, 2));
    assert_eq!(game.moving_piece.current_rotation_id, 0);
}

#[test]
fn ghost_piece_projects_to_the_floor() {
    let piece = Piece::new(PieceType::O);
    let mut game = empty_game_with(piece, Vec::new());
    game.fill_piece_points(&piece).unwrap();
    game.update_ghost_piece();
    let ghost = game.ghost_piece.unwrap();
    assert_eq!(ghost.color, -1);
    assert_eq!(ghost.center, Point(21, 4));
    // the ghost marker shows in the grid below the piece
    assert_eq!(game.playfield[21][4], -1);
    assert_eq!(game.playfield[20][5], -1);
    // and the moving piece's own footprint is intact
    assert_eq!(game.playfield[1][4], piece.color);
}

#[test]
fn ghost_piece_rests_on_locked_blocks() {
    let piece = Piece::new(PieceType::O);
    let mut game = empty_game_with(piece, Vec::new());
    for c in 0..10 {
        game.playfield[21][c] = 8;
    }
    game.fill_piece_points(&piece).unwrap();
    game.update_ghost_piece();
    let ghost = game.ghost_piece.unwrap();
    assert_eq!(ghost.center, Point(20, 4));
}

#[test]
fn hold_swaps_with_the_queue_first_and_then_with_the_slot() {
    let piece = Piece::new(PieceType::T);
    let mut game = empty_game_with(piece, vec![Piece::new(PieceType::S)]);
    game.fill_piece_points(&piece).unwrap();
    game.update_ghost_piece();
    game.hold_moving_piece().unwrap();
    assert_eq!(game.held_piece.unwrap().color, 6);
    assert_eq!(game.moving_piece.color, 5);
    assert_eq!(game.next_pieces.len(), 0);
    // holding again swaps the two pieces back
    game.hold_moving_piece().unwrap();
    assert_eq!(game.held_piece.unwrap().color, 5);
    assert_eq!(game.moving_piece.color, 6);
}

#[test]
fn moving_down_to_the_floor_is_rejected_only_at_the_floor() {
    let piece = Piece::new(PieceType::O);
    let mut game = empty_game_with(piece, Vec::new());
    game.fill_piece_points(&piece).unwrap();
    game.update_ghost_piece();
    let mut downs = 0;
    while game.move_moving_piece(TetrisDirection::Down).is_ok() {
        downs += 1;
        assert!(downs <= 22);
    }
    // the O piece spawns on rows 0..2 and stops with its lowest row on 21
    assert_eq!(game.moving_piece.center, Point(21, 4));
}

#[test]
fn allowed_position_reports_the_first_violation() {
    let game = empty_game_with(Piece::new(PieceType::T), Vec::new());
    let mut outside = Piece::new(PieceType::T);
    outside.center = Point(22, 4);
    assert!(matches!(
        game.piece_is_in_allowed_position(&outside),
        Err(MinoesError::OutOfBounds(_))
    ));
    let mut game2 = empty_game_with(Piece::new(PieceType::T), Vec::new());
    game2.playfield[1][4] = 8;
    assert!(matches!(
        game2.piece_is_in_allowed_position(&Piece::new(PieceType::T)),
        Err(MinoesError::OverlappingMinoes(_))
    ));
    assert!(game
        .piece_is_in_allowed_position(&Piece::new(PieceType::T))
        .is_ok());
}

#[test]
fn out_of_bounds_and_overlap_queries() {
    let mut game = empty_game_with(Piece::new(PieceType::T), Vec::new());
    let mut low = Piece::new(PieceType::T);
    low.center = Point(30, 4);
    assert!(game.piece_is_out_of_bounds(&low));
    let inside = Piece::new(PieceType::T);
    assert!(!game.piece_is_out_of_bounds(&inside));
    game.playfield[1][4] = 8;
    assert!(game.piece_is_overlapping_with(&inside, 8));
    assert!(!game.piece_is_overlapping_with(&inside, 5));
}

#[test]
fn fill_reports_out_of_bounds_and_overlap() {
    let mut outside = Piece::new(PieceType::O);
    outside.center = Point(22, 4);
    let mut game = empty_game_with(outside, Vec::new());
    assert!(matches!(
        game.fill_piece_points(&outside),
        Err(MinoesError::OutOfBounds(_))
    ));
    let piece = Piece::new(PieceType::T);
    let mut game2 = empty_game_with(piece, Vec::new());
    game2.playfield[1][4] = 2;
    assert!(matches!(
        game2.fill_piece_points(&piece),
        Err(MinoesError::OverlappingMinoes(_))
    ));
    let mut game3 = empty_game_with(piece, Vec::new());
    assert!(game3.clear_piece_points(&outside).is_err());
}

#[test]
fn ghost_under_the_piece_yields_to_its_footprint() {
    // a piece already resting on the floor: its ghost coincides with it,
    // and the piece's own cells keep the piece's color
    let mut piece = Piece::new(PieceType::O);
    piece.center = Point(21, 4);
    let mut game = empty_game_with(piece, Vec::new());
    game.fill_piece_points(&piece).unwrap();
    game.update_ghost_piece();
    let ghost = game.ghost_piece.unwrap();
    assert_eq!(ghost.center, Point(21, 4));
    assert_eq!(game.playfield[21][4], piece.color);
    assert_eq!(game.playfield[20][5], piece.color);
}

#[test]
fn fresh_game_state() {
    let game = Game::new();
    assert_eq!(game.score, 0);
    assert_eq!(game.level, 1);
    assert_eq!(game.lines_cleared, 0);
    assert!(game.held_piece.is_none());
    assert!(game.ghost_piece.is_none());
    assert_eq!(game.next_pieces.len(), 6);
    for r in 0..22 {
        for c in 0..10 {
            assert_eq!(game.playfield[r][c], 0);
        }
    }
}
