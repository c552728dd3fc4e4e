use table_top::crazy_eights::{
    GameState, NumberOfPlayers, Player, RngSeed, Settings, SettingsError, Status,
};

fn seed(byte: u8) -> RngSeed {
    RngSeed::from_bytes(&vec![byte; 32]).unwrap()
}

fn game(byte: u8, players: u8) -> GameState {
    GameState::new(Settings {
        seed: seed(byte),
        number_of_players: NumberOfPlayers::from_u8(players).unwrap(),
    })
}

#[test]
fn identical_seeds_give_identical_games() {
    let a = game(7, 4);
    let b = game(7, 4);
    assert_eq!(a.settings(), b.settings());
    assert_eq!(a.settings().seed.0, [7u8; 32]);
    assert_eq!(a.settings().number_of_players.to_u8(), 4);
    assert_eq!(a.whose_turn(), b.whose_turn());
    assert_eq!(a.deck(), b.deck());
}

#[test]
fn different_seeds_give_different_deals() {
    let a = game(0, 2);
    let b = game(1, 2);
    assert_ne!(a.deck(), b.deck());
}

#[test]
fn deck_is_a_permutation_of_the_card_indices() {
    let d = game(42, 5).deck();
    assert_eq!(d.len(), 52);
    let mut sorted = d.clone();
    sorted.sort();
    let expected: Vec<u8> = (0..52).collect();
    assert_eq!(sorted, expected);
    assert_ne!(d, expected, "the shuffle should rearrange the deck");
}

#[test]
fn seeds_must_be_exactly_32_bytes() {
    assert_eq!(
        RngSeed::from_bytes(&vec![0; 31]).err(),
        Some(SettingsError::InvalidSeedLength)
    );
    assert_eq!(
        RngSeed::from_bytes(&vec![0; 33]).err(),
        Some(SettingsError::InvalidSeedLength)
    );
    assert_eq!(RngSeed::from_bytes(&Vec::new()).err(), Some(SettingsError::InvalidSeedLength));
    assert!(RngSeed::from_bytes(&vec![9; 32]).is_ok());
}

#[test]
fn player_count_must_be_between_two_and_eight() {
    assert_eq!(
        NumberOfPlayers::from_u8(1).err(),
        Some(SettingsError::InvalidNumberOfPlayers)
    );
    assert_eq!(
        NumberOfPlayers::from_u8(9).err(),
        Some(SettingsError::InvalidNumberOfPlayers)
    );
    assert_eq!(
        NumberOfPlayers::from_u8(0).err(),
        Some(SettingsError::InvalidNumberOfPlayers)
    );
    for v in 2..=8u8 {
        assert_eq!(NumberOfPlayers::from_u8(v).unwrap().to_u8(), v);
    }
}

#[test]
fn first_player_moves_first_and_game_is_in_progress() {
    let g = game(3, 8);
    assert_eq!(g.whose_turn(), Player::P1);
    assert_eq!(g.status(), Status::InProgress);
}

#[test]
fn player_numbers_round_trip() {
    for v in 1..=8u8 {
        assert_eq!(Player::from_u8(v).unwrap().to_u8(), v);
    }
    assert!(Player::from_u8(0).is_none());
    assert!(Player::from_u8(9).is_none());
}

#[test]
fn crazy_eights_binary_round_trip() {
    let g = game(11, 3);
    let bytes = g.to_binary();
    assert_eq!(bytes.len(), 33);
    let back = GameState::from_binary(&bytes).unwrap();
    assert_eq!(back.settings(), g.settings());
    assert_eq!(back.deck(), g.deck());
}

#[test]
fn crazy_eights_text_round_trip() {
    let g = game(200, 8);
    let text = g.to_text();
    let rendered = String::from_utf8(text.clone()).unwrap();
    assert!(rendered.starts_with("200 200 "));
    assert!(rendered.ends_with("008 "));
    let back = GameState::from_text(&text).unwrap();
    assert_eq!(back.settings(), g.settings());
}

#[test]
fn crazy_eights_malformed_payloads_are_rejected() {
    // Too short: a bare seed with no player count.
    assert!(GameState::from_binary(&vec![0; 32]).is_err());
    // A player count outside the valid range.
    let mut bytes = vec![0; 33];
    bytes[32] = 9;
    assert!(GameState::from_binary(&bytes).is_err());
    bytes[32] = 1;
    assert!(GameState::from_binary(&bytes).is_err());
    assert!(GameState::from_text(&b"000 ".to_vec()).is_err());
}
