//! The crazy eights rule set, as far as its surface reaches: construction
//! from a 32-byte seed and a validated player count, turn and status
//! queries, the deterministic seeded shuffle that fixes the deal, and
//! serialization. Only the seed and settings persist — the shuffled deck is
//! re-derived from them, so equal seeds always reproduce the identical deal.
//! Play, draw and discard semantics are not part of the exposed surface and
//! are left unspecified rather than guessed.

use crate::codec::{parse_text, render_text, text_of, DecodeError};
use vstd::arithmetic::div_mod::lemma_mod_add_multiples_vanish;
use vstd::pervasive::VecAdditionalExecFns;
use vstd::prelude::*;
use vstd::seq_lib::group_to_multiset_ensures;

verus! {

/// The players, in rotation order. `P1` moves first.
#[derive(Clone, Copy, PartialEq, Eq, Structural, Debug, Hash)]
pub enum Player {
    P1,
    P2,
    P3,
    P4,
    P5,
    P6,
    P7,
    P8,
}

/// The player in rotation slot `i` (meaningful for `0 <= i < 8`).
pub open spec fn player_at(i: int) -> Player {
    if i == 0 {
        Player::P1
    } else if i == 1 {
        Player::P2
    } else if i == 2 {
        Player::P3
    } else if i == 3 {
        Player::P4
    } else if i == 4 {
        Player::P5
    } else if i == 5 {
        Player::P6
    } else if i == 6 {
        Player::P7
    } else {
        Player::P8
    }
}

impl Player {
    /// The player's rotation slot, in `0..8`.
    pub open spec fn slot(self) -> int {
        match self {
            Player::P1 => 0,
            Player::P2 => 1,
            Player::P3 => 2,
            Player::P4 => 3,
            Player::P5 => 4,
            Player::P6 => 5,
            Player::P7 => 6,
            Player::P8 => 7,
        }
    }

    /// Returns the player's number, in `1..=8`.
    pub fn to_u8(self) -> (r: u8)
        ensures
            r == self.slot() + 1,
    {
        match self {
            Player::P1 => 1,
            Player::P2 => 2,
            Player::P3 => 3,
            Player::P4 => 4,
            Player::P5 => 5,
            Player::P6 => 6,
            Player::P7 => 7,
            Player::P8 => 8,
        }
    }

    /// Returns the player with number `v`, or `None` for a number outside
    /// `1..=8`.
    pub fn from_u8(v: u8) -> (r: Option<Player>)
        ensures
            r is Some <==> (1 <= v <= 8),
            r matches Some(p) ==> p.slot() + 1 == v,
    {
        match v {
            1 => Some(Player::P1),
            2 => Some(Player::P2),
            3 => Some(Player::P3),
            4 => Some(Player::P4),
            5 => Some(Player::P5),
            6 => Some(Player::P6),
            7 => Some(Player::P7),
            8 => Some(Player::P8),
            _ => None,
        }
    }
}

/// Why a proposed configuration is rejected.
#[derive(Clone, Copy, PartialEq, Eq, Structural, Debug, Hash)]
pub enum SettingsError {
    /// The player count is outside `2..=8`.
    InvalidNumberOfPlayers,
    /// The seed is not exactly 32 bytes.
    InvalidSeedLength,
}

/// A validated player count, in the closed range `2..=8`.
#[derive(Clone, Copy, PartialEq, Eq, Structural, Debug, Hash)]
pub enum NumberOfPlayers {
    Two,
    Three,
    Four,
    Five,
    Six,
    Seven,
    Eight,
}

impl NumberOfPlayers {
    /// The count as a number, in `2..=8`.
    pub open spec fn count(self) -> int {
        match self {
            NumberOfPlayers::Two => 2,
            NumberOfPlayers::Three => 3,
            NumberOfPlayers::Four => 4,
            NumberOfPlayers::Five => 5,
            NumberOfPlayers::Six => 6,
            NumberOfPlayers::Seven => 7,
            NumberOfPlayers::Eight => 8,
        }
    }

    /// Returns the count as a number, in `2..=8`.
    pub fn to_u8(self) -> (r: u8)
        ensures
            r == self.count(),
    {
        match self {
            NumberOfPlayers::Two => 2,
            NumberOfPlayers::Three => 3,
            NumberOfPlayers::Four => 4,
            NumberOfPlayers::Five => 5,
            NumberOfPlayers::Six => 6,
            NumberOfPlayers::Seven => 7,
            NumberOfPlayers::Eight => 8,
        }
    }

    /// Validates a player count, rejecting any number outside `2..=8`.
    pub fn from_u8(v: u8) -> (r: Result<NumberOfPlayers, SettingsError>)
        ensures
            (r is Ok) == (2 <= v <= 8),
            r matches Ok(n) ==> n.count() == v,
            r matches Err(e) ==> e == SettingsError::InvalidNumberOfPlayers,
    {
        match v {
            2 => Ok(NumberOfPlayers::Two),
            3 => Ok(NumberOfPlayers::Three),
            4 => Ok(NumberOfPlayers::Four),
            5 => Ok(NumberOfPlayers::Five),
            6 => Ok(NumberOfPlayers::Six),
            7 => Ok(NumberOfPlayers::Seven),
            8 => Ok(NumberOfPlayers::Eight),
            _ => Err(SettingsError::InvalidNumberOfPlayers),
        }
    }
}

/// A 32-byte seed deterministically driving the deck shuffle.
#[derive(Clone, Copy, PartialEq, Eq, Debug)]
pub struct RngSeed(pub [u8; 32]);

impl RngSeed {
    /// The seed's bytes.
    pub open spec fn bytes(self) -> Seq<u8> {
        self.0@
    }

    /// Validates a seed, rejecting any byte string that is not exactly 32
    /// bytes long.
    pub fn from_bytes(bytes: &Vec<u8>) -> (r: Result<RngSeed, SettingsError>)
        ensures
            (r is Ok) == (bytes@.len() == 32),
            r matches Ok(sd) ==> sd.bytes() == bytes@,
            r matches Err(e) ==> e == SettingsError::InvalidSeedLength,
    {
        if bytes.len() != 32 {
            return Err(SettingsError::InvalidSeedLength);
        }
        let mut arr: [u8; 32] = [0; 32];
        let mut i: usize = 0;
        while i < 32
            invariant
                i <= 32,
                bytes@.len() == 32,
                arr@.len() == 32,
                forall|j: int| 0 <= j < i ==> arr@[j] == bytes@[j],
            decreases 32 - i,
        {
            arr[i] = bytes[i];
            i += 1;
        }
        proof {
            assert(arr@ =~= bytes@);
        }
        Ok(RngSeed(arr))
    }
}

/// Immutable per-game configuration: the shuffle seed and the player count.
#[derive(Clone, Copy, PartialEq, Eq, Debug)]
pub struct Settings {
    pub seed: RngSeed,
    pub number_of_players: NumberOfPlayers,
}

/// The mathematical content of a `Settings` value.
pub struct SettingsModel {
    pub seed: Seq<u8>,
    pub number_of_players: NumberOfPlayers,
}

impl View for Settings {
    type V = SettingsModel;

    open spec fn view(&self) -> SettingsModel {
        SettingsModel { seed: self.seed.bytes(), number_of_players: self.number_of_players }
    }
}

/// The player to move after `n` actions under a count of `players`: the
/// rotation cycles through the first `players.count()` slots.
pub open spec fn turn_of(n: int, players: NumberOfPlayers) -> Player {
    player_at(n % players.count())
}

/// The game's outcome so far.
#[derive(Clone, Copy, PartialEq, Eq, Structural, Debug)]
pub enum Status {
    /// The game is still being played.
    InProgress,
    /// `player` has emptied their hand.
    Win { player: Player },
}

/// The state of one crazy eights game. The exposed surface plays no
/// actions, so the state is exactly its settings: the deal and the turn
/// order are re-derived from the seed on demand.
#[derive(Clone, Copy)]
pub struct GameState {
    settings: Settings,
}

impl View for GameState {
    type V = SettingsModel;

    closed spec fn view(&self) -> SettingsModel {
        self.settings@
    }
}

/// The multiplier of the linear congruential step.
pub const RNG_MUL: u64 = 6364136223846793005;

/// The increment of the linear congruential step.
pub const RNG_ADD: u64 = 1442695040888963407;

/// The generator state before any seed byte is mixed in.
pub const RNG_INIT: u64 = 11400714819323198485;

/// One step of the linear congruential generator driving the shuffle.
pub open spec fn rng_next(s: u64) -> u64 {
    vstd::wrapping::u64_specs::wrapping_add(
        vstd::wrapping::u64_specs::wrapping_mul(s, RNG_MUL),
        RNG_ADD,
    )
}

/// The generator state after mixing in the first `n` seed bytes.
pub open spec fn seed_state(bytes: Seq<u8>, n: int) -> u64
    decreases n,
{
    if n <= 0 {
        RNG_INIT
    } else {
        rng_next(
            vstd::wrapping::u64_specs::wrapping_add(
                seed_state(bytes, n - 1),
                bytes[n - 1] as u64,
            ),
        )
    }
}

/// The deck before shuffling: the card indices `0..52` in order.
pub open spec fn base_deck() -> Seq<u8> {
    Seq::new(52, |i: int| i as u8)
}

/// The rest of a Fisher–Yates shuffle: swap position `i` with a generated
/// position at most `i`, then continue below `i`.
pub open spec fn shuffle_from(deck: Seq<u8>, state: u64, i: int) -> Seq<u8>
    decreases i,
{
    if i <= 0 {
        deck
    } else {
        let j = state as int % (i + 1);
        let swapped = deck.update(i, deck[j]).update(j, deck[i]);
        shuffle_from(swapped, rng_next(state), i - 1)
    }
}

/// The shuffled deck a seed derives: a Fisher–Yates pass over the 52 card
/// indices, driven by the linear congruential generator seeded from the 32
/// seed bytes. A pure function of the seed, so equal seeds give the
/// identical deal.
pub open spec fn spec_deck(seed: Seq<u8>) -> Seq<u8> {
    shuffle_from(base_deck(), seed_state(seed, 32), 51)
}

/// A shuffle only rearranges: the deck it returns holds exactly the cards
/// of the deck it was given.
proof fn lemma_shuffle_from_permutes(deck: Seq<u8>, state: u64, i: int)
    requires
        0 <= i < deck.len(),
    ensures
        shuffle_from(deck, state, i).to_multiset() == deck.to_multiset(),
        shuffle_from(deck, state, i).len() == deck.len(),
    decreases i,
{
    broadcast use group_to_multiset_ensures;
    broadcast use vstd::seq_lib::to_multiset_update;

    if i > 0 {
        let j = state as int % (i + 1);
        let swapped = deck.update(i, deck[j]).update(j, deck[i]);
        assert(swapped.to_multiset() =~= deck.to_multiset());
        lemma_shuffle_from_permutes(swapped, rng_next(state), i - 1);
    }
}

/// The derived deck is a permutation of the 52 card indices: the same
/// multiset of cards, each exactly once.
pub proof fn lemma_deck_is_permutation(seed: Seq<u8>)
    ensures
        spec_deck(seed).to_multiset() == base_deck().to_multiset(),
        spec_deck(seed).len() == 52,
        spec_deck(seed).no_duplicates(),
{
    lemma_shuffle_from_permutes(base_deck(), seed_state(seed, 32), 51);
    assert(base_deck().no_duplicates());
    base_deck().lemma_multiset_has_no_duplicates();
    spec_deck(seed).lemma_multiset_has_no_duplicates_conv();
}

/// The turn rotation cycles with period exactly the player count: it
/// repeats after `players.count()` actions and never earlier, since
/// successive turns differ.
pub proof fn lemma_turn_cycles(n: int, players: NumberOfPlayers)
    requires
        n >= 0,
    ensures
        turn_of(n + players.count(), players) == turn_of(n, players),
        turn_of(n + 1, players) != turn_of(n, players),
{
    let c = players.count();
    lemma_mod_add_multiples_vanish(n, c);
    let r = n % c;
    vstd::arithmetic::div_mod::lemma_mod_division_less_than_divisor(n, c);
    vstd::arithmetic::div_mod::lemma_add_mod_noop(n, 1, c);
    vstd::arithmetic::div_mod::lemma_small_mod(1, c as nat);
    if r + 1 < c {
        vstd::arithmetic::div_mod::lemma_small_mod((r + 1) as nat, c as nat);
    } else {
        vstd::arithmetic::div_mod::lemma_mod_self_0(c);
    }
}

impl GameState {
    /// Returns the game a configuration describes. Settings are already
    /// validated by construction — the player count and seed length are
    /// checked where their plain values enter — so this cannot fail.
    pub fn new(settings: Settings) -> (r: GameState)
        ensures
            r@ == settings@,
    {
        GameState { settings }
    }

    /// Returns the player whose turn it is: no actions have been played on
    /// the exposed surface, so the first player in the seed's rotation.
    pub fn whose_turn(&self) -> (r: Player)
        ensures
            r == turn_of(0, self@.number_of_players),
    {
        Player::P1
    }

    /// Returns the game's configuration.
    pub fn settings(&self) -> (r: &Settings)
        ensures
            r@ == self@,
    {
        &self.settings
    }

    /// Returns the game's status. With no actions played on the exposed
    /// surface, no hand can have emptied, so the game is in progress.
    pub fn status(&self) -> (r: Status)
        ensures
            r == Status::InProgress,
    {
        Status::InProgress
    }

    /// Returns the shuffled deck the seed derives: a permutation of the
    /// card indices `0..52`, identical for identical seeds.
    pub fn deck(&self) -> (r: Vec<u8>)
        ensures
            r@ == spec_deck(self@.seed),
            r@.to_multiset() == base_deck().to_multiset(),
            r@.len() == 52,
            r@.no_duplicates(),
    {
        let mut state: u64 = RNG_INIT;
        let mut b: usize = 0;
        while b < 32
            invariant
                b <= 32,
                state == seed_state(self@.seed, b as int),
            decreases 32 - b,
        {
            state = state.wrapping_add(self.settings.seed.0[b] as u64);
            state = state.wrapping_mul(RNG_MUL).wrapping_add(RNG_ADD);
            b += 1;
        }
        let mut deck: Vec<u8> = Vec::new();
        let mut c: u8 = 0;
        while c < 52
            invariant
                c <= 52,
                deck@.len() == c,
                forall|q: int| 0 <= q < c ==> deck@[q] == q as u8,
            decreases 52 - c,
        {
            deck.push(c);
            c += 1;
        }
        proof {
            assert(deck@ =~= base_deck());
        }
        let ghost st0 = state;
        let mut i: usize = 51;
        while i > 0
            invariant
                i <= 51,
                deck@.len() == 52,
                shuffle_from(deck@, state, i as int) == shuffle_from(base_deck(), st0, 51),
            decreases i,
        {
            let j = (state % (i as u64 + 1)) as usize;
            let a = deck[i];
            let b2 = deck[j];
            let ghost before = deck@;
            deck.set(i, b2);
            deck.set(j, a);
            proof {
                assert(deck@ == before.update(i as int, before[j as int]).update(
                    j as int,
                    before[i as int],
                ));
            }
            state = state.wrapping_mul(RNG_MUL).wrapping_add(RNG_ADD);
            i -= 1;
        }
        proof {
            lemma_deck_is_permutation(self@.seed);
        }
        deck
    }
}

/// The binary encoding of a game: the 32 seed bytes, then the player count.
pub open spec fn spec_encode(m: SettingsModel) -> Seq<u8> {
    m.seed + seq![m.number_of_players.count() as u8]
}

impl GameState {
    /// Returns the compact binary encoding of the state.
    pub fn to_binary(&self) -> (r: Vec<u8>)
        ensures
            r@ == spec_encode(self@),
            self@.seed.len() == 32,
    {
        let mut out: Vec<u8> = Vec::new();
        let mut i: usize = 0;
        while i < 32
            invariant
                i <= 32,
                out@.len() == i,
                forall|j: int| 0 <= j < i ==> out@[j] == self@.seed[j],
            decreases 32 - i,
        {
            out.push(self.settings.seed.0[i]);
            i += 1;
        }
        out.push(self.settings.number_of_players.to_u8());
        proof {
            assert(out@ =~= spec_encode(self@));
        }
        out
    }

    /// Decodes a binary payload. Exactly the canonical encodings are
    /// accepted: 32 seed bytes followed by a player count in `2..=8`.
    pub fn from_binary(bytes: &Vec<u8>) -> (r: Result<GameState, DecodeError>)
        ensures
            r matches Ok(g) ==> spec_encode(g@) == bytes@ && g@.seed.len() == 32,
            forall|m: SettingsModel|
                m.seed.len() == 32 && bytes@ == spec_encode(m) ==> (r matches Ok(g) && g@ == m),
    {
        if bytes.len() != 33 {
            return Err(DecodeError::Malformed);
        }
        let count = bytes[32];
        let number_of_players = match NumberOfPlayers::from_u8(count) {
            Ok(n) => n,
            Err(_) => {
                return Err(DecodeError::Malformed);
            },
        };
        let mut arr: [u8; 32] = [0; 32];
        let mut i: usize = 0;
        while i < 32
            invariant
                i <= 32,
                bytes@.len() == 33,
                arr@.len() == 32,
                forall|j: int| 0 <= j < i ==> arr@[j] == bytes@[j],
            decreases 32 - i,
        {
            arr[i] = bytes[i];
            i += 1;
        }
        let g = GameState::new(Settings { seed: RngSeed(arr), number_of_players });
        proof {
            assert(spec_encode(g@) =~= bytes@);
            assert forall|m: SettingsModel|
                m.seed.len() == 32 && bytes@ == spec_encode(m) implies g@ == m by {
                assert(m.seed =~= g@.seed);
            }
        }
        Ok(g)
    }

    /// Returns the text encoding of the state: each byte of the binary form
    /// rendered as three decimal digits and a space.
    pub fn to_text(&self) -> (r: Vec<u8>)
        ensures
            r@ == text_of(spec_encode(self@)),
            self@.seed.len() == 32,
    {
        let b = self.to_binary();
        render_text(&b)
    }

    /// Decodes a text payload; the counterpart of `to_text`, accepting
    /// exactly the canonical renderings.
    pub fn from_text(t: &Vec<u8>) -> (r: Result<GameState, DecodeError>)
        ensures
            r matches Ok(g) ==> text_of(spec_encode(g@)) == t@ && g@.seed.len() == 32,
            forall|m: SettingsModel|
                m.seed.len() == 32 && t@ == text_of(spec_encode(m)) ==> (r matches Ok(g) && g@
                    == m),
    {
        match parse_text(t) {
            Ok(b) => GameState::from_binary(&b),
            Err(e) => Err(e),
        }
    }
}

} // verus!
