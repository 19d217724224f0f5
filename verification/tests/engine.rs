use gamey::{Coordinates, GameStatus, GameY, Movement, PlayerId, YError};

fn place(game: &mut GameY, player: u32, x: u32, y: u32, z: u32) -> Result<(), YError> {
    game.add_move(Movement::Placement {
        player: PlayerId::new(player),
        coords: Coordinates::new(x, y, z),
    })
}

#[test]
fn fresh_board_has_triangular_cell_count_and_player_zero_to_move() {
    for n in 1..=8u32 {
        let game = GameY::new(n);
        let expected = (n * (n + 1) / 2) as usize;
        assert_eq!(game.available_cells().len(), expected);
        assert_eq!(
            game.status(),
            GameStatus::Ongoing {
                player: PlayerId::new(0)
            }
        );
        assert_eq!(game.next_player(), Some(PlayerId::new(0)));
        assert!(game.board_state().is_empty());
    }
}

#[test]
fn index_conversion_round_trips_for_every_cell() {
    for n in 1..=9u32 {
        let total = (n * (n + 1) / 2) as usize;
        for idx in 0..total {
            let c = Coordinates::from_index(idx, n);
            assert_eq!(c.x() + c.y() + c.z(), n - 1);
            assert_eq!(c.to_index(n), idx);
            let back = Coordinates::from_index(c.to_index(n), n);
            assert_eq!(back, c);
        }
    }
}

#[test]
fn index_order_is_by_x_then_y() {
    // Size 5: row x holds 5 - x cells, rows are laid out in order.
    assert_eq!(Coordinates::new(0, 0, 4).to_index(5), 0);
    assert_eq!(Coordinates::new(0, 4, 0).to_index(5), 4);
    assert_eq!(Coordinates::new(1, 0, 3).to_index(5), 5);
    assert_eq!(Coordinates::new(4, 0, 0).to_index(5), 14);
}

#[test]
fn neighbor_counts_match_position() {
    // Interior cells have six neighbours, non-vertex edge cells four,
    // vertex cells two (both other components are zero there).
    let interior = Coordinates::new(1, 1, 2);
    assert_eq!(interior.neighbors().len(), 6);
    let edge = Coordinates::new(0, 1, 3);
    assert_eq!(edge.neighbors().len(), 4);
    let vertex = Coordinates::new(4, 0, 0);
    assert_eq!(vertex.neighbors().len(), 2);
}

#[test]
fn turn_alternates_between_the_two_players() {
    let mut game = GameY::new(4);
    assert_eq!(game.next_player(), Some(PlayerId::new(0)));
    place(&mut game, 0, 3, 0, 0).unwrap();
    assert_eq!(game.next_player(), Some(PlayerId::new(1)));
    place(&mut game, 1, 0, 3, 0).unwrap();
    assert_eq!(game.next_player(), Some(PlayerId::new(0)));
    place(&mut game, 0, 0, 0, 3).unwrap();
    assert_eq!(game.next_player(), Some(PlayerId::new(1)));
}

#[test]
fn wrong_turn_is_rejected_without_change() {
    let mut game = GameY::new(4);
    let before_board = game.board_state();
    let before_status = game.status();
    assert_eq!(place(&mut game, 1, 0, 0, 3), Err(YError::WrongTurn));
    assert_eq!(game.board_state(), before_board);
    assert_eq!(game.status(), before_status);
}

#[test]
fn invalid_coordinate_is_rejected_without_change() {
    let mut game = GameY::new(5);
    place(&mut game, 0, 2, 1, 1).unwrap();
    let before_board = game.board_state();
    let before_status = game.status();
    // Components must sum to 4 on a size-5 board.
    assert_eq!(place(&mut game, 1, 5, 0, 0), Err(YError::InvalidCoordinate));
    assert_eq!(place(&mut game, 1, 1, 1, 1), Err(YError::InvalidCoordinate));
    assert_eq!(game.board_state(), before_board);
    assert_eq!(game.status(), before_status);
}

#[test]
fn occupied_cell_is_rejected_without_change() {
    let mut game = GameY::new(5);
    place(&mut game, 0, 2, 1, 1).unwrap();
    let before_board = game.board_state();
    let before_status = game.status();
    assert_eq!(place(&mut game, 1, 2, 1, 1), Err(YError::CellOccupied));
    assert_eq!(game.board_state(), before_board);
    assert_eq!(game.status(), before_status);
}

#[test]
fn finished_game_rejects_moves_without_change() {
    let mut game = GameY::new(1);
    place(&mut game, 0, 0, 0, 0).unwrap();
    let before_board = game.board_state();
    let before_status = game.status();
    assert_eq!(place(&mut game, 1, 0, 0, 0), Err(YError::GameAlreadyFinished));
    assert_eq!(game.board_state(), before_board);
    assert_eq!(game.status(), before_status);
}

#[test]
fn single_placement_wins_on_size_one_board() {
    let mut game = GameY::new(1);
    place(&mut game, 0, 0, 0, 0).unwrap();
    assert_eq!(
        game.status(),
        GameStatus::Finished {
            winner: PlayerId::new(0)
        }
    );
    assert_eq!(game.next_player(), None);
}

#[test]
fn side_to_side_chain_wins() {
    // Player 0 builds the x = 0 column of a size-3 board: it touches the
    // x side everywhere, the z side at (0,2,0) and the y side at (0,0,2).
    let mut game = GameY::new(3);
    place(&mut game, 0, 0, 2, 0).unwrap();
    place(&mut game, 1, 2, 0, 0).unwrap();
    place(&mut game, 0, 0, 1, 1).unwrap();
    place(&mut game, 1, 1, 0, 1).unwrap();
    assert!(matches!(game.status(), GameStatus::Ongoing { .. }));
    place(&mut game, 0, 0, 0, 2).unwrap();
    assert_eq!(
        game.status(),
        GameStatus::Finished {
            winner: PlayerId::new(0)
        }
    );
    // The board is not full, yet no further placement is accepted.
    assert!(!game.available_cells().is_empty());
    assert_eq!(place(&mut game, 1, 1, 1, 0), Err(YError::GameAlreadyFinished));
}

#[test]
fn board_state_reports_occupied_cells_in_index_order() {
    let mut game = GameY::new(4);
    place(&mut game, 0, 1, 1, 1).unwrap();
    place(&mut game, 1, 0, 0, 3).unwrap();
    let state = game.board_state();
    assert_eq!(
        state,
        vec![
            (Coordinates::new(0, 0, 3), PlayerId::new(1)),
            (Coordinates::new(1, 1, 1), PlayerId::new(0)),
        ]
    );
    let avail = game.available_cells();
    assert_eq!(avail.len(), 8);
    assert!(!avail.contains(&Coordinates::new(1, 1, 1).to_index(4)));
    assert!(!avail.contains(&Coordinates::new(0, 0, 3).to_index(4)));
    // Ascending order.
    for w in avail.windows(2) {
        assert!(w[0] < w[1]);
    }
}

fn run_to_completion<F>(n: u32, mut pick: F) -> (GameY, usize)
where
    F: FnMut(&GameY) -> Coordinates,
{
    let mut game = GameY::new(n);
    let total = (n * (n + 1) / 2) as usize;
    let mut moves = 0usize;
    while let Some(player) = game.next_player() {
        // Never more placements than cells: completion must arrive.
        assert!(moves < total, "board filled without a winner at size {}", n);
        let coords = pick(&game);
        game.add_move(Movement::Placement { player, coords }).unwrap();
        moves += 1;
    }
    (game, moves)
}

#[test]
fn alternating_legal_placements_always_end_in_a_win() {
    // Fill small boards to completion in several orders: the game must
    // reach Finished with a winner no later than board completion.
    for n in 1..=6u32 {
        let (game, _) = run_to_completion(n, |g| {
            let avail = g.available_cells();
            Coordinates::from_index(avail[0], g.board_size())
        });
        assert!(matches!(game.status(), GameStatus::Finished { .. }));

        let (game, _) = run_to_completion(n, |g| {
            let avail = g.available_cells();
            Coordinates::from_index(avail[avail.len() - 1], g.board_size())
        });
        assert!(matches!(game.status(), GameStatus::Finished { .. }));

        let (game, _) = run_to_completion(n, |g| {
            let avail = g.available_cells();
            Coordinates::from_index(avail[avail.len() / 2], g.board_size())
        });
        assert!(matches!(game.status(), GameStatus::Finished { .. }));
    }
}

#[test]
fn player_at_reports_ownership() {
    let mut game = GameY::new(5);
    place(&mut game, 0, 2, 1, 1).unwrap();
    assert_eq!(
        game.player_at(&Coordinates::new(2, 1, 1)),
        Some(PlayerId::new(0))
    );
    assert_eq!(game.player_at(&Coordinates::new(1, 2, 1)), None);
    // Outside the board: empty.
    assert_eq!(game.player_at(&Coordinates::new(9, 9, 9)), None);
}
