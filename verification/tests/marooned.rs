use table_top::marooned::{
    Action, ActionError, Dimensions, GameState, Player, Position, Settings, SettingsBuilder,
    SettingsError, Status,
};

fn pos(col: u8, row: u8) -> Position {
    Position { col, row }
}

fn act(player: Player, to: Position, remove: Position) -> Action {
    Action { player, to, remove }
}

#[test]
fn default_game_has_canonical_configuration() {
    let g = GameState::new();
    assert_eq!(g.dimensions(), Dimensions { cols: 8, rows: 6 });
    assert_eq!(g.settings().p1_starting, pos(0, 3));
    assert_eq!(g.settings().p2_starting, pos(7, 3));
    assert!(g.settings().starting_removed.is_empty());
    assert_eq!(g.whose_turn(), Player::P1);
    assert_eq!(g.status(), Status::InProgress);
    assert_eq!(g.history().len(), 0);
}

#[test]
fn builder_defaults_match_new() {
    let g = SettingsBuilder::new().build_game().unwrap();
    let d = GameState::new();
    assert_eq!(g, d);
}

#[test]
fn players_cannot_start_at_the_same_position() {
    let r = SettingsBuilder::new().p1_starting(pos(2, 2)).p2_starting(pos(2, 2)).build_game();
    assert_eq!(r.err(), Some(SettingsError::PlayersCantStartAtSamePosition));
}

#[test]
fn zero_dimensions_are_rejected() {
    assert_eq!(
        SettingsBuilder::new().rows(0).build_game().err(),
        Some(SettingsError::InvalidDimensions)
    );
    assert_eq!(
        SettingsBuilder::new().cols(0).build_game().err(),
        Some(SettingsError::InvalidDimensions)
    );
}

#[test]
fn players_must_start_on_board() {
    let r = SettingsBuilder::new().p1_starting(pos(8, 0)).build_game();
    assert_eq!(r.err(), Some(SettingsError::PlayersMustStartOnBoard));
}

#[test]
fn removed_tiles_must_lie_on_board() {
    let r = SettingsBuilder::new().starting_removed(vec![pos(8, 0)]).build_game();
    assert_eq!(r.err(), Some(SettingsError::CantRemovePositionNotOnBoard));
}

#[test]
fn players_cannot_start_on_removed_tiles() {
    let r = SettingsBuilder::new().starting_removed(vec![pos(0, 3)]).build_game();
    assert_eq!(r.err(), Some(SettingsError::PlayerCantStartOnRemovedSquare));
}

#[test]
fn settings_validation_happens_at_construction() {
    let settings = Settings {
        dimensions: Dimensions { cols: 0, rows: 6 },
        p1_starting: pos(0, 0),
        p2_starting: pos(1, 1),
        starting_removed: Vec::new(),
    };
    assert_eq!(
        GameState::new_from_settings(settings).err(),
        Some(SettingsError::InvalidDimensions)
    );
}

#[test]
fn legal_action_moves_and_removes() {
    let g = GameState::new();
    let g2 = g.apply_action(act(Player::P1, pos(1, 3), pos(0, 0))).unwrap();
    assert_eq!(g.history().len(), 0);
    assert_eq!(g2.whose_turn(), Player::P2);
    assert_eq!(g2.player_position(Player::P1), pos(1, 3));
    assert_eq!(g2.player_position(Player::P2), pos(7, 3));
    assert!(g2.is_removed(pos(0, 0)));
    assert!(!g2.is_removed(pos(1, 1)));
    assert_eq!(g2.removed(), vec![pos(0, 0)]);
}

#[test]
fn wrong_turn_is_rejected() {
    let g = GameState::new();
    let r = g.apply_action(act(Player::P2, pos(6, 3), pos(0, 0)));
    assert_eq!(r.err(), Some(ActionError::OtherPlayerTurn));
}

#[test]
fn removing_the_destination_is_rejected() {
    let g = GameState::new();
    let r = g.apply_action(act(Player::P1, pos(1, 3), pos(1, 3)));
    assert_eq!(r.err(), Some(ActionError::CantRemoveTheSamePositionAsMoveTo));
}

#[test]
fn non_adjacent_destination_is_rejected() {
    let g = GameState::new();
    let r = g.apply_action(act(Player::P1, pos(5, 5), pos(0, 0)));
    assert_eq!(r.err(), Some(ActionError::InvalidMoveToTarget));
}

#[test]
fn occupied_or_missing_removal_target_is_rejected() {
    let g = GameState::new();
    let r = g.apply_action(act(Player::P1, pos(1, 3), pos(7, 3)));
    assert_eq!(r.err(), Some(ActionError::InvalidRemove));
    let r = g.apply_action(act(Player::P1, pos(1, 3), pos(8, 5)));
    assert_eq!(r.err(), Some(ActionError::InvalidRemove));
}

#[test]
fn removed_tile_cannot_be_entered_or_removed_again() {
    let g = GameState::new()
        .apply_action(act(Player::P1, pos(1, 3), pos(6, 3)))
        .unwrap();
    // P2 at (7,3): the tile at (6,3) is gone, so it is no movement target.
    let r = g.apply_action(act(Player::P2, pos(6, 3), pos(5, 3)));
    assert_eq!(r.err(), Some(ActionError::InvalidMoveToTarget));
    // Nor can it be removed a second time.
    let r = g.apply_action(act(Player::P2, pos(7, 2), pos(6, 3)));
    assert_eq!(r.err(), Some(ActionError::InvalidRemove));
}

#[test]
fn own_previous_square_is_removable() {
    let g = GameState::new();
    let g2 = g.apply_action(act(Player::P1, pos(1, 3), pos(0, 3))).unwrap();
    assert!(g2.is_removed(pos(0, 3)));
}

#[test]
fn undo_restores_previous_state() {
    let g = GameState::new();
    let g2 = g.apply_action(act(Player::P1, pos(1, 3), pos(0, 0))).unwrap();
    assert_eq!(g2.undo().unwrap(), g);
    assert!(g.undo().is_none());
}

#[test]
fn boxed_in_player_loses_without_passing() {
    // On a 2x1 strip the only square adjacent to P1 is occupied by P2.
    let g = SettingsBuilder::new()
        .cols(2)
        .rows(1)
        .p1_starting(pos(0, 0))
        .p2_starting(pos(1, 0))
        .build_game()
        .unwrap();
    assert_eq!(g.status(), Status::Win { player: Player::P2 });
    assert_eq!(g.valid_actions().len(), 0);
    assert_eq!(g.valid_action(), None);
    assert!(g.allowed_movement_targets_for_player(Player::P1).is_empty());
}

#[test]
fn valid_actions_enumerate_moves_and_removals_in_order() {
    // On a 3x1 strip P1 can only step to (1,0); the only removable tile
    // other than the destination and P2's square is P1's own old square.
    let g = SettingsBuilder::new()
        .cols(3)
        .rows(1)
        .p1_starting(pos(0, 0))
        .p2_starting(pos(2, 0))
        .build_game()
        .unwrap();
    assert_eq!(g.status(), Status::InProgress);
    let actions = g.valid_actions();
    assert_eq!(actions, vec![act(Player::P1, pos(1, 0), pos(0, 0))]);
    assert_eq!(g.valid_action(), Some(act(Player::P1, pos(1, 0), pos(0, 0))));
}

#[test]
fn movement_targets_and_removable_tiles() {
    let g = SettingsBuilder::new()
        .cols(3)
        .rows(1)
        .p1_starting(pos(0, 0))
        .p2_starting(pos(2, 0))
        .build_game()
        .unwrap();
    assert_eq!(g.allowed_movement_targets_for_player(Player::P1), vec![pos(1, 0)]);
    assert!(g.is_position_allowed_to_be_removed(pos(0, 0), Player::P1));
    assert!(!g.is_position_allowed_to_be_removed(pos(2, 0), Player::P1));
    assert_eq!(g.removable_for_player(Player::P1), vec![pos(0, 0), pos(1, 0)]);
}

#[test]
fn binary_round_trip() {
    let g = SettingsBuilder::new()
        .starting_removed(vec![pos(4, 4), pos(2, 1)])
        .build_game()
        .unwrap()
        .apply_action(act(Player::P1, pos(1, 3), pos(0, 0)))
        .unwrap()
        .apply_action(act(Player::P2, pos(6, 2), pos(7, 3)))
        .unwrap();
    let bytes = g.to_binary();
    assert_eq!(GameState::from_binary(&bytes).unwrap(), g);
}

#[test]
fn text_round_trip_and_readability() {
    let g = GameState::new().apply_action(act(Player::P1, pos(1, 3), pos(0, 0))).unwrap();
    let text = g.to_text();
    assert_eq!(
        String::from_utf8(text.clone()).unwrap(),
        "008 006 000 003 007 003 255 001 003 000 000 "
    );
    assert_eq!(GameState::from_text(&text).unwrap(), g);
}

#[test]
fn round_trip_after_undo() {
    let g = GameState::new()
        .apply_action(act(Player::P1, pos(1, 3), pos(0, 0)))
        .unwrap()
        .undo()
        .unwrap();
    assert_eq!(GameState::from_binary(&g.to_binary()).unwrap(), g);
    assert_eq!(GameState::from_text(&g.to_text()).unwrap(), g);
}

#[test]
fn malformed_payloads_are_rejected() {
    // Too short for a header.
    assert!(GameState::from_binary(&vec![8, 6, 0, 3]).is_err());
    // No sentinel closing the removed list.
    assert!(GameState::from_binary(&vec![8, 6, 0, 3, 7, 3]).is_err());
    // Settings that fail validation: both players at the same square.
    assert!(GameState::from_binary(&vec![8, 6, 0, 3, 0, 3, 255]).is_err());
    // A truncated action.
    assert!(GameState::from_binary(&vec![8, 6, 0, 3, 7, 3, 255, 1, 3]).is_err());
    // An illegal action: the destination is not adjacent.
    assert!(GameState::from_binary(&vec![8, 6, 0, 3, 7, 3, 255, 5, 5, 0, 0]).is_err());
    assert!(GameState::from_text(&b"008 006".to_vec()).is_err());
}

#[test]
fn clone_diverges_independently() {
    let g = GameState::new();
    let c = g.clone();
    assert_eq!(g, c);
    let g2 = g.apply_action(act(Player::P1, pos(1, 3), pos(0, 0))).unwrap();
    let c2 = c.apply_action(act(Player::P1, pos(1, 2), pos(0, 5))).unwrap();
    assert_eq!(g, c);
    assert_ne!(g2, c2);
    assert_eq!(g2.player_position(Player::P1), pos(1, 3));
    assert_eq!(c2.player_position(Player::P1), pos(1, 2));
}

#[test]
fn turns_alternate() {
    let g = GameState::new();
    let g2 = g.apply_action(act(Player::P1, pos(1, 3), pos(0, 0))).unwrap();
    let g3 = g2.apply_action(act(Player::P2, pos(6, 3), pos(0, 1))).unwrap();
    assert_eq!(g.whose_turn(), Player::P1);
    assert_eq!(g2.whose_turn(), Player::P2);
    assert_eq!(g3.whose_turn(), Player::P1);
    assert_eq!(Player::P1.other(), Player::P2);
    assert_eq!(Player::P2.other(), Player::P1);
}

#[test]
fn history_records_actions_in_order() {
    let a1 = act(Player::P1, pos(1, 3), pos(0, 0));
    let a2 = act(Player::P2, pos(6, 3), pos(0, 1));
    let g = GameState::new().apply_action(a1).unwrap().apply_action(a2).unwrap();
    assert_eq!(g.history(), vec![a1, a2]);
}
