use table_top::tic_tac_toe::{Col, Error, GameState, Move, Player, Position, Row, Status};

fn pos(col: u8, row: u8) -> Position {
    Position::from_ints(col, row).unwrap()
}

fn mv(player: Player, col: u8, row: u8) -> Move {
    Move { player, position: pos(col, row) }
}

fn play(moves: &[(Player, u8, u8)]) -> GameState {
    let mut g = GameState::new();
    for &(player, c, r) in moves {
        g = g.apply_action(mv(player, c, r)).unwrap();
    }
    g
}

#[test]
fn new_game_is_empty_and_x_moves_first() {
    let g = GameState::new();
    assert_eq!(g.whose_turn(), Player::X);
    assert_eq!(g.history().len(), 0);
    assert_eq!(g.status(), Status::InProgress);
}

#[test]
fn x_wins_first_column() {
    let g = play(&[
        (Player::X, 0, 0),
        (Player::O, 1, 1),
        (Player::X, 0, 1),
        (Player::O, 2, 2),
        (Player::X, 0, 2),
    ]);
    match g.status() {
        Status::Win { player, positions } => {
            assert_eq!(player, Player::X);
            assert_eq!(positions, (pos(0, 0), pos(0, 1), pos(0, 2)));
        }
        other => panic!("expected a win, got {:?}", other),
    }
}

#[test]
fn full_board_without_line_is_a_draw_with_no_valid_actions() {
    let g = play(&[
        (Player::X, 0, 0),
        (Player::O, 1, 0),
        (Player::X, 2, 0),
        (Player::O, 1, 1),
        (Player::X, 0, 1),
        (Player::O, 2, 1),
        (Player::X, 1, 2),
        (Player::O, 0, 2),
        (Player::X, 2, 2),
    ]);
    assert_eq!(g.status(), Status::Draw);
    assert_eq!(g.valid_actions().len(), 0);
    assert_eq!(g.available().len(), 0);
}

#[test]
fn taken_space_is_rejected() {
    let g = play(&[(Player::X, 0, 0)]);
    assert_eq!(g.apply_action(mv(Player::O, 0, 0)), Err(Error::SpaceIsTaken));
}

#[test]
fn ttt_wrong_turn_is_rejected() {
    let g = GameState::new();
    assert_eq!(g.apply_action(mv(Player::O, 1, 1)), Err(Error::OtherPlayerTurn));
    let g = play(&[(Player::X, 0, 0)]);
    assert_eq!(g.apply_action(mv(Player::X, 1, 1)), Err(Error::OtherPlayerTurn));
}

#[test]
fn apply_does_not_mutate_and_undo_restores() {
    let g0 = GameState::new();
    let g1 = g0.apply_action(mv(Player::X, 1, 1)).unwrap();
    assert_eq!(g0.history().len(), 0);
    assert_eq!(g1.history().len(), 1);
    assert_eq!(g1.undo().unwrap(), g0);
    assert!(g0.undo().is_none());
}

#[test]
fn ttt_turns_alternate() {
    let g0 = GameState::new();
    let g1 = g0.apply_action(mv(Player::X, 0, 0)).unwrap();
    let g2 = g1.apply_action(mv(Player::O, 1, 1)).unwrap();
    assert_eq!(g0.whose_turn(), Player::X);
    assert_eq!(g1.whose_turn(), Player::O);
    assert_eq!(g2.whose_turn(), Player::X);
}

#[test]
fn board_reflects_moves() {
    let g = play(&[(Player::X, 0, 0), (Player::O, 2, 1)]);
    let board = g.board();
    assert_eq!(board[0][0], Some(Player::X));
    assert_eq!(board[2][1], Some(Player::O));
    assert_eq!(board[1][1], None);
}

#[test]
fn available_lists_empty_cells_in_column_major_order() {
    let g = play(&[(Player::X, 0, 0)]);
    let avail = g.available();
    assert_eq!(avail.len(), 8);
    assert_eq!(avail[0], pos(0, 1));
    assert!(!avail.contains(&pos(0, 0)));
}

#[test]
fn valid_actions_offer_every_empty_cell_to_the_mover() {
    let g = play(&[(Player::X, 0, 0)]);
    let actions = g.valid_actions();
    assert_eq!(actions.len(), 8);
    for a in &actions {
        assert_eq!(a.player, Player::O);
    }
}

#[test]
fn valid_actions_empty_after_win() {
    let g = play(&[
        (Player::X, 0, 0),
        (Player::O, 1, 1),
        (Player::X, 0, 1),
        (Player::O, 2, 2),
        (Player::X, 0, 2),
    ]);
    assert_eq!(g.valid_actions().len(), 0);
}

#[test]
fn ttt_binary_round_trip() {
    let g = play(&[
        (Player::X, 0, 0),
        (Player::O, 1, 1),
        (Player::X, 0, 1),
        (Player::O, 2, 2),
        (Player::X, 0, 2),
    ]);
    let bytes = g.to_binary();
    assert_eq!(GameState::from_binary(&bytes).unwrap(), g);
    let empty = GameState::new();
    assert_eq!(GameState::from_binary(&empty.to_binary()).unwrap(), empty);
}

#[test]
fn ttt_text_round_trip_and_readability() {
    let g = play(&[(Player::X, 0, 0), (Player::O, 1, 1)]);
    let text = g.to_text();
    assert_eq!(String::from_utf8(text.clone()).unwrap(), "000 004 ");
    assert_eq!(GameState::from_text(&text).unwrap(), g);
}

#[test]
fn ttt_round_trip_after_undo() {
    let g = play(&[(Player::X, 0, 0), (Player::O, 1, 1)]).undo().unwrap();
    assert_eq!(GameState::from_binary(&g.to_binary()).unwrap(), g);
    assert_eq!(GameState::from_text(&g.to_text()).unwrap(), g);
}

#[test]
fn ttt_malformed_payloads_are_rejected() {
    assert!(GameState::from_binary(&vec![9]).is_err());
    assert!(GameState::from_binary(&vec![0, 0]).is_err());
    assert!(GameState::from_binary(&vec![0, 1, 2, 3, 4, 5, 6, 7, 8, 0]).is_err());
    assert!(GameState::from_text(&b"00".to_vec()).is_err());
    assert!(GameState::from_text(&b"999 ".to_vec()).is_err());
    assert!(GameState::from_text(&b"0a0 ".to_vec()).is_err());
}

#[test]
fn ttt_clone_diverges_independently() {
    let g = play(&[(Player::X, 0, 0)]);
    let c = g.clone();
    assert_eq!(g, c);
    let g2 = g.apply_action(mv(Player::O, 1, 1)).unwrap();
    let c2 = c.apply_action(mv(Player::O, 2, 2)).unwrap();
    assert_eq!(g, c);
    assert_ne!(g2, c2);
    assert_eq!(g2.history().len(), 2);
    assert_eq!(c2.history().len(), 2);
    assert_eq!(g2.history()[1].position, pos(1, 1));
    assert_eq!(c2.history()[1].position, pos(2, 2));
}

#[test]
fn positions_outside_the_board_are_rejected() {
    assert!(Position::from_ints(3, 0).is_none());
    assert!(Position::from_ints(0, 3).is_none());
    assert_eq!(pos(2, 1).to_ints(), (2, 1));
    assert_eq!(Col::from_u8(1), Some(Col::Col1));
    assert_eq!(Row::from_u8(2), Some(Row::Row2));
    assert_eq!(Col::from_u8(3), None);
}

#[test]
fn other_player_flips() {
    assert_eq!(Player::X.other(), Player::O);
    assert_eq!(Player::O.other(), Player::X);
}
