use gamey::{Coordinates, GameY, IntermediateBot, Movement, PlayerId, RandomBot, YBot, YBotRegistry};

fn registry() -> YBotRegistry {
    YBotRegistry::new()
        .with_bot(YBot::Random(RandomBot))
        .with_bot(YBot::Intermediate(IntermediateBot))
}

#[test]
fn random_bot_plays_an_available_cell() {
    let game = GameY::new(5);
    for _ in 0..20 {
        let coords = RandomBot.choose_move(&game).unwrap();
        let idx = coords.to_index(game.board_size());
        assert!(game.available_cells().contains(&idx));
    }
}

#[test]
fn random_bot_returns_none_once_finished() {
    let mut game = GameY::new(1);
    game.add_move(Movement::Placement {
        player: PlayerId::new(0),
        coords: Coordinates::new(0, 0, 0),
    })
    .unwrap();
    assert!(RandomBot.choose_move(&game).is_none());
}

#[test]
fn heuristic_bot_returns_none_once_finished_even_with_free_cells() {
    // Player 0 completes the x = 0 column of a size-3 board and wins
    // while a cell is still free.
    let mut game = GameY::new(3);
    for (player, (x, y, z)) in [
        (0, (0, 2, 0)),
        (1, (2, 0, 0)),
        (0, (0, 1, 1)),
        (1, (1, 0, 1)),
        (0, (0, 0, 2)),
    ] {
        game.add_move(Movement::Placement {
            player: PlayerId::new(player),
            coords: Coordinates::new(x, y, z),
        })
        .unwrap();
    }
    assert!(!game.available_cells().is_empty());
    assert!(IntermediateBot.choose_move(&game).is_none());
    assert!(RandomBot.choose_move(&game).is_none());
}

#[test]
fn heuristic_games_run_to_completion() {
    for n in 1..=6u32 {
        let mut game = GameY::new(n);
        let bot = IntermediateBot;
        while let Some(player) = game.next_player() {
            let coords = bot.choose_move(&game).unwrap();
            game.add_move(Movement::Placement { player, coords }).unwrap();
        }
        assert!(game.next_player().is_none());
    }
}

#[test]
fn registry_finds_bots_by_name() {
    let reg = registry();
    let random = reg.find("random_bot").unwrap();
    assert_eq!(random.name(), "random_bot");
    let inter = reg.find("intermediate_bot").unwrap();
    assert_eq!(inter.name(), "intermediate_bot");
    assert!(reg.find("expert_bot").is_none());
    assert!(reg.find("").is_none());
}

#[test]
fn registry_bots_propose_legal_moves() {
    let reg = registry();
    let game = GameY::new(4);
    for name in ["random_bot", "intermediate_bot"] {
        let bot = reg.find(name).unwrap();
        let coords = bot.choose_move(&game).unwrap();
        let idx = coords.to_index(game.board_size());
        assert!(game.available_cells().contains(&idx));
    }
}

#[test]
fn heuristic_exact_pick_on_empty_boards() {
    // Empty board: only centrality and side bonuses count. Size 7 has a
    // unique centre; on size 5 three cells share the best score and the
    // lowest linear index must win.
    let game = GameY::new(7);
    assert_eq!(
        IntermediateBot.choose_move(&game).unwrap(),
        Coordinates::new(2, 2, 2)
    );
    let game = GameY::new(5);
    assert_eq!(
        IntermediateBot.choose_move(&game).unwrap(),
        Coordinates::new(1, 1, 2)
    );
}

#[test]
fn heuristic_tie_breaks_by_lowest_index() {
    // With an opponent piece at (2,1,1), cells (1,1,2) and (1,2,1) score
    // the same maximum; the tie goes to (1,1,2), the lower index.
    let mut game = GameY::new(5);
    game.add_move(Movement::Placement {
        player: PlayerId::new(0),
        coords: Coordinates::new(2, 1, 1),
    })
    .unwrap();
    assert_eq!(
        IntermediateBot.choose_move(&game).unwrap(),
        Coordinates::new(1, 1, 2)
    );
}

#[test]
fn heuristic_exact_pick_extends_chain() {
    // Own piece at (2,1,1), opponent at (0,0,4): the scores single out
    // (1,1,2), which extends the chain and leans toward the threat.
    let mut game = GameY::new(5);
    game.add_move(Movement::Placement {
        player: PlayerId::new(0),
        coords: Coordinates::new(2, 1, 1),
    })
    .unwrap();
    game.add_move(Movement::Placement {
        player: PlayerId::new(1),
        coords: Coordinates::new(0, 0, 4),
    })
    .unwrap();
    assert_eq!(
        IntermediateBot.choose_move(&game).unwrap(),
        Coordinates::new(1, 1, 2)
    );
}

#[test]
fn random_bot_name() {
    assert_eq!(RandomBot.name(), "random_bot");
}
