use gamey::{Coordinates, GameY, IntermediateBot, Movement, PlayerId};

fn bot() -> IntermediateBot {
    IntermediateBot
}

#[test]
fn test_name() {
    assert_eq!(bot().name(), "intermediate_bot");
}

#[test]
fn test_returns_move_on_empty_board() {
    let game = GameY::new(5);
    assert!(bot().choose_move(&game).is_some());
}

#[test]
fn test_returns_none_on_full_board() {
    let mut game = GameY::new(1);
    game.add_move(Movement::Placement {
        player: PlayerId::new(0),
        coords: Coordinates::new(0, 0, 0),
    })
    .unwrap();
    // Board is full and game is over: next_player() returns None
    assert!(bot().choose_move(&game).is_none());
}

#[test]
fn test_chosen_cell_is_available() {
    let game = GameY::new(5);
    let coords = bot().choose_move(&game).unwrap();
    let idx = coords.to_index(game.board_size());
    assert!(game.available_cells().contains(&idx));
}

#[test]
fn test_prefers_centre_on_empty_board() {
    // On a size-7 board the centroid is at (2,2,2).  The bot should pick
    // something close to the centre rather than an edge cell.
    let game = GameY::new(7);
    let coords = bot().choose_move(&game).unwrap();
    let min_coord = coords.x().min(coords.y()).min(coords.z());
    // A truly central cell has min_coord >= 1 for size 7.
    assert!(
        min_coord >= 1,
        "Bot should prefer interior cells, got {:?}",
        coords
    );
}

#[test]
fn test_blocks_opponent_nearby() {
    // Place opponent pieces so that the bot should react to them.
    let mut game = GameY::new(5);

    // Player 0 moves first
    game.add_move(Movement::Placement {
        player: PlayerId::new(0),
        coords: Coordinates::new(2, 1, 1), // centre-ish
    })
    .unwrap();

    // Now it is player 1's turn.  The bot should pick a cell in the
    // neighbourhood of player 0's piece (within 2 hops).
    let chosen = bot().choose_move(&game).unwrap();

    let opp_piece = Coordinates::new(2, 1, 1);
    let opp_neighbors: Vec<_> = IntermediateBot::neighbors(&opp_piece);
    let opp_2hop: Vec<_> = IntermediateBot::neighbors_2(&opp_piece);

    let is_nearby = opp_neighbors.contains(&chosen) || opp_2hop.contains(&chosen);
    assert!(
        is_nearby,
        "Bot should play near opponent's piece; chose {:?}",
        chosen
    );
}

#[test]
fn test_extends_own_chain() {
    let mut game = GameY::new(5);

    // Player 0 places
    game.add_move(Movement::Placement {
        player: PlayerId::new(0),
        coords: Coordinates::new(2, 1, 1),
    })
    .unwrap();

    // Player 1 places somewhere out of the way
    game.add_move(Movement::Placement {
        player: PlayerId::new(1),
        coords: Coordinates::new(0, 0, 4),
    })
    .unwrap();

    // Player 0 should extend its chain.
    let chosen = bot().choose_move(&game).unwrap();
    let own_piece = Coordinates::new(2, 1, 1);
    let own_neighbors = IntermediateBot::neighbors(&own_piece);

    // The chosen cell should be adjacent to our existing piece.
    assert!(
        own_neighbors.contains(&chosen),
        "Bot should extend its chain; chose {:?}",
        chosen
    );
}
