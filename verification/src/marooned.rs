//! The marooned rule set: two players on a configurable rectangular grid of
//! removable tiles. On each turn the acting player moves to an adjacent
//! present tile and then removes one present tile; a player with no legal
//! move loses. A game state is its validated settings plus its action
//! history; every derived quantity (positions, removed tiles, status) is a
//! pure function of those.

use crate::codec::{parse_text, render_text, text_of, DecodeError};
use vstd::arithmetic::div_mod::{lemma_fundamental_div_mod, lemma_fundamental_div_mod_converse};
use vstd::arithmetic::mul::{lemma_mul_inequality, lemma_mul_is_commutative, lemma_mul_upper_bound};
use vstd::prelude::*;

verus! {

/// The two marooned players. `P1` moves first.
#[derive(Clone, Copy, PartialEq, Eq, Structural, Debug, Hash)]
pub enum Player {
    P1,
    P2,
}

impl Player {
    /// The opponent of `self`.
    pub open spec fn spec_other(self) -> Player {
        match self {
            Player::P1 => Player::P2,
            Player::P2 => Player::P1,
        }
    }

    /// Returns the opponent of `self`.
    pub fn other(self) -> (r: Player)
        ensures
            r == self.spec_other(),
    {
        match self {
            Player::P1 => Player::P2,
            Player::P2 => Player::P1,
        }
    }
}

/// A square of the board, by column and row number.
#[derive(Clone, Copy, PartialEq, Eq, Structural, Debug, Hash)]
pub struct Position {
    pub col: u8,
    pub row: u8,
}

/// The size of the board: `cols × rows` squares.
#[derive(Clone, Copy, PartialEq, Eq, Structural, Debug, Hash)]
pub struct Dimensions {
    pub cols: u8,
    pub rows: u8,
}

/// One turn's action: `player` moves to `to`, then removes the tile at
/// `remove`.
#[derive(Clone, Copy, PartialEq, Eq, Structural, Debug, Hash)]
pub struct Action {
    pub player: Player,
    pub to: Position,
    pub remove: Position,
}

/// Why a proposed configuration is rejected.
#[derive(Clone, Copy, PartialEq, Eq, Structural, Debug, Hash)]
pub enum SettingsError {
    /// A board dimension is zero.
    InvalidDimensions,
    /// A pre-removed tile lies outside the board.
    CantRemovePositionNotOnBoard,
    /// Both players start on the same square.
    PlayersCantStartAtSamePosition,
    /// A starting position lies outside the board.
    PlayersMustStartOnBoard,
    /// A starting position coincides with a pre-removed tile.
    PlayerCantStartOnRemovedSquare,
}

/// Why a proposed action is illegal.
#[derive(Clone, Copy, PartialEq, Eq, Structural, Debug, Hash)]
pub enum ActionError {
    /// It is the other player's turn.
    OtherPlayerTurn,
    /// The removal target is the destination square itself.
    CantRemoveTheSamePositionAsMoveTo,
    /// The destination is off board, not adjacent, removed, or occupied.
    InvalidMoveToTarget,
    /// The removal target is off board, already removed, or occupied by the
    /// opponent.
    InvalidRemove,
}

/// The game's outcome so far.
#[derive(Clone, Copy, PartialEq, Eq, Structural, Debug)]
pub enum Status {
    /// The player to move still has a legal move.
    InProgress,
    /// The player to move is boxed in; `player` is the winner.
    Win { player: Player },
}

/// Immutable per-game configuration, fixed at construction.
#[derive(Debug)]
pub struct Settings {
    pub dimensions: Dimensions,
    pub p1_starting: Position,
    pub p2_starting: Position,
    pub starting_removed: Vec<Position>,
}

/// The mathematical content of a `Settings` value.
pub struct SettingsModel {
    pub dimensions: Dimensions,
    pub p1_starting: Position,
    pub p2_starting: Position,
    pub starting_removed: Seq<Position>,
}

impl View for Settings {
    type V = SettingsModel;

    open spec fn view(&self) -> SettingsModel {
        SettingsModel {
            dimensions: self.dimensions,
            p1_starting: self.p1_starting,
            p2_starting: self.p2_starting,
            starting_removed: self.starting_removed@,
        }
    }
}

/// Whether `p` lies on a board of size `d`.
pub open spec fn on_board(d: Dimensions, p: Position) -> bool {
    p.col < d.cols && p.row < d.rows
}

/// Whether a configuration is acceptable: positive dimensions, both players
/// on board and on distinct squares, and every pre-removed tile on board and
/// under neither player.
pub open spec fn settings_ok(s: SettingsModel) -> bool {
    &&& s.dimensions.cols > 0 && s.dimensions.rows > 0
    &&& on_board(s.dimensions, s.p1_starting) && on_board(s.dimensions, s.p2_starting)
    &&& s.p1_starting != s.p2_starting
    &&& forall|i: int|
        0 <= i < s.starting_removed.len() ==> on_board(
            s.dimensions,
            #[trigger] s.starting_removed[i],
        )
    &&& !s.starting_removed.contains(s.p1_starting)
    &&& !s.starting_removed.contains(s.p2_starting)
}

/// The validation verdict on a configuration, reporting the first violated
/// rule in a fixed order.
pub open spec fn spec_validate(s: SettingsModel) -> Result<(), SettingsError> {
    if !(s.dimensions.cols > 0 && s.dimensions.rows > 0) {
        Err(SettingsError::InvalidDimensions)
    } else if !(on_board(s.dimensions, s.p1_starting) && on_board(s.dimensions, s.p2_starting)) {
        Err(SettingsError::PlayersMustStartOnBoard)
    } else if s.p1_starting == s.p2_starting {
        Err(SettingsError::PlayersCantStartAtSamePosition)
    } else if exists|i: int|
        0 <= i < s.starting_removed.len() && !on_board(
            s.dimensions,
            #[trigger] s.starting_removed[i],
        ) {
        Err(SettingsError::CantRemovePositionNotOnBoard)
    } else if s.starting_removed.contains(s.p1_starting) || s.starting_removed.contains(
        s.p2_starting,
    ) {
        Err(SettingsError::PlayerCantStartOnRemovedSquare)
    } else {
        Ok(())
    }
}

/// Validation succeeds exactly on acceptable configurations.
pub proof fn lemma_validate_iff_ok(s: SettingsModel)
    ensures
        (spec_validate(s) is Ok) <==> settings_ok(s),
{
}

/// The player to move after `n` actions: `P1` on even counts, `P2` on odd
/// ones.
pub open spec fn turn_at(n: int) -> Player {
    if n % 2 == 0 {
        Player::P1
    } else {
        Player::P2
    }
}

/// Where `pl` starts under configuration `s`.
pub open spec fn starting_position(s: SettingsModel, pl: Player) -> Position {
    match pl {
        Player::P1 => s.p1_starting,
        Player::P2 => s.p2_starting,
    }
}

/// Where `pl` stands after playing out `h`: the destination of `pl`'s most
/// recent action, or the starting position if `pl` has not moved.
pub open spec fn position_after(s: SettingsModel, h: Seq<Action>, pl: Player) -> Position
    decreases h.len(),
{
    if h.len() == 0 {
        starting_position(s, pl)
    } else if h.last().player == pl {
        h.last().to
    } else {
        position_after(s, h.drop_last(), pl)
    }
}

/// Whether the tile at `p` is gone after playing out `h`: pre-removed by the
/// configuration, or removed by some action.
pub open spec fn removed_after(s: SettingsModel, h: Seq<Action>, p: Position) -> bool {
    s.starting_removed.contains(p) || exists|i: int|
        0 <= i < h.len() && (#[trigger] h[i]).remove == p
}

/// Whether `a` and `b` are distinct squares no more than one column and one
/// row apart (the eight-neighbourhood movement rule).
pub open spec fn adjacent(a: Position, b: Position) -> bool {
    &&& a != b
    &&& -1 <= a.col - b.col <= 1
    &&& -1 <= a.row - b.row <= 1
}

/// Whether `pl` may move to `to` after `h`: on board, adjacent to `pl`'s
/// square, still present, and not under the opponent.
pub open spec fn move_target_ok(s: SettingsModel, h: Seq<Action>, pl: Player, to: Position) -> bool {
    &&& on_board(s.dimensions, to)
    &&& adjacent(position_after(s, h, pl), to)
    &&& !removed_after(s, h, to)
    &&& to != position_after(s, h, pl.spec_other())
}

/// Whether `pl`, moving this turn, may remove the tile at `rem`: on board,
/// still present, and not under the opponent. (That it must differ from the
/// destination is checked separately.)
pub open spec fn remove_target_ok(s: SettingsModel, h: Seq<Action>, pl: Player, rem: Position) -> bool {
    &&& on_board(s.dimensions, rem)
    &&& !removed_after(s, h, rem)
    &&& rem != position_after(s, h, pl.spec_other())
}

/// The legality verdict on playing `a` after `h`, reporting the first
/// violated rule in a fixed order.
pub open spec fn spec_check(s: SettingsModel, h: Seq<Action>, a: Action) -> Result<
    (),
    ActionError,
> {
    if a.player != turn_at(h.len() as int) {
        Err(ActionError::OtherPlayerTurn)
    } else if a.remove == a.to {
        Err(ActionError::CantRemoveTheSamePositionAsMoveTo)
    } else if !move_target_ok(s, h, a.player, a.to) {
        Err(ActionError::InvalidMoveToTarget)
    } else if !remove_target_ok(s, h, a.player, a.remove) {
        Err(ActionError::InvalidRemove)
    } else {
        Ok(())
    }
}

/// Whether `h` is a playable history under `s`: every action was legal when
/// it was played.
pub open spec fn legal_history(s: SettingsModel, h: Seq<Action>) -> bool
    decreases h.len(),
{
    h.len() == 0 || (legal_history(s, h.drop_last()) && spec_check(s, h.drop_last(), h.last())
        is Ok)
}

/// The mathematical content of a `GameState` value.
pub struct StateModel {
    pub settings: SettingsModel,
    pub history: Seq<Action>,
}

/// Whether a model describes a reachable state: acceptable settings and a
/// playable history.
pub open spec fn valid_state(m: StateModel) -> bool {
    settings_ok(m.settings) && legal_history(m.settings, m.history)
}

/// Splitting off the last action of a non-empty history splits the removal
/// predicate.
proof fn lemma_removed_step(s: SettingsModel, h: Seq<Action>, p: Position)
    requires
        h.len() > 0,
    ensures
        removed_after(s, h, p) == (removed_after(s, h.drop_last(), p) || h.last().remove == p),
{
    if removed_after(s, h.drop_last(), p) || h.last().remove == p {
        if h.last().remove == p {
            assert(h[h.len() - 1].remove == p);
        } else if !s.starting_removed.contains(p) {
            let i = choose|i: int| 0 <= i < h.len() - 1 && (#[trigger] h.drop_last()[i]).remove
                == p;
            assert(h[i].remove == p);
        }
        assert(removed_after(s, h, p));
    }
    if removed_after(s, h, p) && !removed_after(s, h.drop_last(), p) && !s.starting_removed.contains(
        p,
    ) {
        let i = choose|i: int| 0 <= i < h.len() && (#[trigger] h[i]).remove == p;
        if i < h.len() - 1 {
            assert(h.drop_last()[i].remove == p);
        }
    }
}

/// In any reachable state both players stand on distinct, present, on-board
/// squares.
pub proof fn lemma_players_invariant(s: SettingsModel, h: Seq<Action>)
    requires
        settings_ok(s),
        legal_history(s, h),
    ensures
        forall|pl: Player| on_board(s.dimensions, #[trigger] position_after(s, h, pl)),
        forall|pl: Player| !removed_after(s, h, #[trigger] position_after(s, h, pl)),
        position_after(s, h, Player::P1) != position_after(s, h, Player::P2),
    decreases h.len(),
{
    if h.len() == 0 {
        assert(forall|pl: Player| position_after(s, h, pl) == starting_position(s, pl));
    } else {
        let hp = h.drop_last();
        let a = h.last();
        lemma_players_invariant(s, hp);
        let actor = a.player;
        let idle = actor.spec_other();
        assert(position_after(s, h, actor) == a.to);
        assert(position_after(s, h, idle) == position_after(s, hp, idle));
        assert(turn_at(hp.len() as int) == actor);
        lemma_removed_step(s, h, a.to);
        lemma_removed_step(s, h, position_after(s, hp, idle));
        assert forall|pl: Player| on_board(
            s.dimensions,
            #[trigger] position_after(s, h, pl),
        ) by {
            if pl == actor {
            } else {
                assert(position_after(s, h, pl) == position_after(s, hp, pl));
            }
        }
        assert forall|pl: Player| !removed_after(s, h, #[trigger] position_after(s, h, pl)) by {
            if pl == actor {
            } else {
                assert(position_after(s, h, pl) == position_after(s, hp, pl));
            }
        }
    }
}

/// Every prefix of a playable history is playable.
pub proof fn lemma_legal_take(s: SettingsModel, h: Seq<Action>, j: int)
    requires
        legal_history(s, h),
        0 <= j <= h.len(),
    ensures
        legal_history(s, h.take(j)),
    decreases h.len(),
{
    if j == h.len() {
        assert(h.take(j) =~= h);
    } else {
        lemma_legal_take(s, h.drop_last(), j);
        assert(h.drop_last().take(j) =~= h.take(j));
    }
}

/// Copies a position list element by element.
fn copy_positions(ps: &Vec<Position>) -> (r: Vec<Position>)
    ensures
        r@ == ps@,
{
    let mut out: Vec<Position> = Vec::new();
    let mut i: usize = 0;
    while i < ps.len()
        invariant
            i <= ps@.len(),
            out@ == ps@.take(i as int),
        decreases ps@.len() - i,
    {
        out.push(ps[i]);
        proof {
            assert(out@ =~= ps@.take(i + 1));
        }
        i += 1;
    }
    proof {
        assert(ps@.take(ps@.len() as int) =~= ps@);
    }
    out
}

/// Copies a prefix of an action list element by element.
fn copy_actions(actions: &Vec<Action>, upto: usize) -> (r: Vec<Action>)
    requires
        upto <= actions@.len(),
    ensures
        r@ == actions@.take(upto as int),
{
    let mut out: Vec<Action> = Vec::new();
    let mut i: usize = 0;
    while i < upto
        invariant
            i <= upto <= actions@.len(),
            out@ == actions@.take(i as int),
        decreases upto - i,
    {
        out.push(actions[i]);
        proof {
            assert(out@ =~= actions@.take(i + 1));
        }
        i += 1;
    }
    out
}

/// Returns whether `p` lies on a board of size `d`.
pub fn position_on_board(d: Dimensions, p: Position) -> (r: bool)
    ensures
        r == on_board(d, p),
{
    p.col < d.cols && p.row < d.rows
}

/// Returns whether `a` and `b` are distinct squares at most one step apart.
pub fn positions_adjacent(a: Position, b: Position) -> (r: bool)
    ensures
        r == adjacent(a, b),
{
    let col_near = if a.col >= b.col {
        a.col - b.col <= 1
    } else {
        b.col - a.col <= 1
    };
    let row_near = if a.row >= b.row {
        a.row - b.row <= 1
    } else {
        b.row - a.row <= 1
    };
    !(a.col == b.col && a.row == b.row) && col_near && row_near
}

impl Clone for Settings {
    /// Returns an independent copy describing the same configuration.
    fn clone(&self) -> (r: Self)
        ensures
            r@ == self@,
    {
        Settings {
            dimensions: self.dimensions,
            p1_starting: self.p1_starting,
            p2_starting: self.p2_starting,
            starting_removed: copy_positions(&self.starting_removed),
        }
    }
}

/// Checks a configuration, reporting the first violated rule in a fixed
/// order.
fn validate(s: &Settings) -> (r: Result<(), SettingsError>)
    ensures
        r == spec_validate(s@),
{
    if !(s.dimensions.cols > 0 && s.dimensions.rows > 0) {
        return Err(SettingsError::InvalidDimensions);
    }
    if !(position_on_board(s.dimensions, s.p1_starting) && position_on_board(
        s.dimensions,
        s.p2_starting,
    )) {
        return Err(SettingsError::PlayersMustStartOnBoard);
    }
    if s.p1_starting == s.p2_starting {
        return Err(SettingsError::PlayersCantStartAtSamePosition);
    }
    let mut i: usize = 0;
    while i < s.starting_removed.len()
        invariant
            i <= s.starting_removed@.len(),
            s@.dimensions.cols > 0 && s@.dimensions.rows > 0,
            on_board(s@.dimensions, s@.p1_starting) && on_board(s@.dimensions, s@.p2_starting),
            s@.p1_starting != s@.p2_starting,
            forall|j: int|
                0 <= j < i ==> on_board(s.dimensions, #[trigger] s.starting_removed@[j]),
        decreases s.starting_removed@.len() - i,
    {
        if !position_on_board(s.dimensions, s.starting_removed[i]) {
            proof {
                assert(!on_board(s@.dimensions, s@.starting_removed[i as int]));
            }
            return Err(SettingsError::CantRemovePositionNotOnBoard);
        }
        i += 1;
    }
    let mut i: usize = 0;
    while i < s.starting_removed.len()
        invariant
            i <= s.starting_removed@.len(),
            s@.dimensions.cols > 0 && s@.dimensions.rows > 0,
            on_board(s@.dimensions, s@.p1_starting) && on_board(s@.dimensions, s@.p2_starting),
            s@.p1_starting != s@.p2_starting,
            forall|j: int|
                0 <= j < s@.starting_removed.len() ==> on_board(
                    s@.dimensions,
                    #[trigger] s@.starting_removed[j],
                ),
            forall|j: int|
                0 <= j < i ==> (#[trigger] s.starting_removed@[j]) != s.p1_starting
                    && s.starting_removed@[j] != s.p2_starting,
        decreases s.starting_removed@.len() - i,
    {
        let p = s.starting_removed[i];
        if p == s.p1_starting || p == s.p2_starting {
            proof {
                assert(s@.starting_removed[i as int] == p);
                assert(!(exists|j: int|
                    0 <= j < s@.starting_removed.len() && !on_board(
                        s@.dimensions,
                        #[trigger] s@.starting_removed[j],
                    )));
            }
            return Err(SettingsError::PlayerCantStartOnRemovedSquare);
        }
        i += 1;
    }
    Ok(())
}

/// The state of one marooned game: its settings and the actions played so
/// far. States are immutable values; applying an action returns a new state.
#[derive(Debug)]
pub struct GameState {
    settings: Settings,
    history: Vec<Action>,
}

impl View for GameState {
    type V = StateModel;

    closed spec fn view(&self) -> StateModel {
        StateModel { settings: self.settings@, history: self.history@ }
    }
}

impl Clone for GameState {
    /// Returns an independent copy with identical behaviour; the two states
    /// share no storage, so play on one never affects the other.
    fn clone(&self) -> (r: Self)
        ensures
            r@ == self@,
    {
        proof {
            use_type_invariant(self);
            assert(self.history@.take(self.history@.len() as int) =~= self.history@);
        }
        GameState {
            settings: self.settings.clone(),
            history: copy_actions(&self.history, self.history.len()),
        }
    }
}

/// Returns whether two position lists are equal.
fn positions_equal(a: &Vec<Position>, b: &Vec<Position>) -> (r: bool)
    ensures
        r == (a@ == b@),
{
    if a.len() != b.len() {
        return false;
    }
    let mut i: usize = 0;
    while i < a.len()
        invariant
            i <= a@.len(),
            a@.len() == b@.len(),
            forall|j: int| 0 <= j < i ==> a@[j] == b@[j],
        decreases a@.len() - i,
    {
        if !(a[i] == b[i]) {
            return false;
        }
        i += 1;
    }
    proof {
        assert(a@ =~= b@);
    }
    true
}

/// Returns whether two action lists are equal.
fn actions_equal(a: &Vec<Action>, b: &Vec<Action>) -> (r: bool)
    ensures
        r == (a@ == b@),
{
    if a.len() != b.len() {
        return false;
    }
    let mut i: usize = 0;
    while i < a.len()
        invariant
            i <= a@.len(),
            a@.len() == b@.len(),
            forall|j: int| 0 <= j < i ==> a@[j] == b@[j],
        decreases a@.len() - i,
    {
        if !(a[i] == b[i]) {
            return false;
        }
        i += 1;
    }
    proof {
        assert(a@ =~= b@);
    }
    true
}

impl PartialEq for GameState {
    /// Two states are behaviourally equal exactly when their settings and
    /// histories are.
    fn eq(&self, other: &GameState) -> (r: bool) {
        self.settings.dimensions == other.settings.dimensions && self.settings.p1_starting
            == other.settings.p1_starting && self.settings.p2_starting
            == other.settings.p2_starting && positions_equal(
            &self.settings.starting_removed,
            &other.settings.starting_removed,
        ) && actions_equal(&self.history, &other.history)
    }
}

impl vstd::std_specs::cmp::PartialEqSpecImpl for GameState {
    open spec fn obeys_eq_spec() -> bool {
        true
    }

    open spec fn eq_spec(&self, other: &GameState) -> bool {
        self@ == other@
    }
}

impl GameState {
    #[verifier::type_invariant]
    spec fn wf(self) -> bool {
        valid_state(self@)
    }

    /// Builds a game from a caller-supplied configuration, rejecting an
    /// unacceptable one with the first violated rule.
    pub fn new_from_settings(settings: Settings) -> (r: Result<GameState, SettingsError>)
        ensures
            (r is Ok) == (spec_validate(settings@) is Ok),
            r matches Ok(g) ==> g@ == (StateModel {
                settings: settings@,
                history: Seq::<Action>::empty(),
            }),
            r matches Err(e) ==> spec_validate(settings@) == Err::<(), SettingsError>(e),
    {
        match validate(&settings) {
            Ok(_) => {
                proof {
                    lemma_validate_iff_ok(settings@);
                }
                Ok(GameState { settings, history: Vec::new() })
            },
            Err(e) => Err(e),
        }
    }

    /// Returns the player whose turn it is.
    pub fn whose_turn(&self) -> (r: Player)
        ensures
            r == turn_at(self@.history.len() as int),
    {
        if self.history.len() % 2 == 0 {
            Player::P1
        } else {
            Player::P2
        }
    }

    /// Returns a copy of the action history, in application order.
    pub fn history(&self) -> (r: Vec<Action>)
        ensures
            r@ == self@.history,
    {
        let r = copy_actions(&self.history, self.history.len());
        proof {
            assert(self.history@.take(self.history@.len() as int) =~= self.history@);
        }
        r
    }

    /// Returns the board dimensions.
    pub fn dimensions(&self) -> (r: Dimensions)
        ensures
            r == self@.settings.dimensions,
    {
        self.settings.dimensions
    }

    /// Returns the game's configuration.
    pub fn settings(&self) -> (r: &Settings)
        ensures
            r@ == self@.settings,
    {
        &self.settings
    }

    /// Returns whether the tile at `p` is gone: pre-removed or removed by a
    /// played action.
    pub fn is_removed(&self, p: Position) -> (r: bool)
        ensures
            r == removed_after(self@.settings, self@.history, p),
    {
        let mut i: usize = 0;
        while i < self.settings.starting_removed.len()
            invariant
                i <= self.settings.starting_removed@.len(),
                forall|j: int|
                    0 <= j < i ==> (#[trigger] self.settings.starting_removed@[j]) != p,
            decreases self.settings.starting_removed@.len() - i,
        {
            if self.settings.starting_removed[i] == p {
                return true;
            }
            i += 1;
        }
        let mut i: usize = 0;
        while i < self.history.len()
            invariant
                i <= self.history@.len(),
                forall|j: int| 0 <= j < i ==> (#[trigger] self.history@[j]).remove != p,
                !self@.settings.starting_removed.contains(p),
            decreases self.history@.len() - i,
        {
            if self.history[i].remove == p {
                return true;
            }
            i += 1;
        }
        false
    }

    /// Returns where `pl` currently stands.
    pub fn player_position(&self, pl: Player) -> (r: Position)
        ensures
            r == position_after(self@.settings, self@.history, pl),
    {
        let mut i: usize = self.history.len();
        proof {
            assert(self.history@.take(i as int) =~= self.history@);
        }
        while i > 0
            invariant
                i <= self.history@.len(),
                position_after(self@.settings, self@.history, pl) == position_after(
                    self@.settings,
                    self.history@.take(i as int),
                    pl,
                ),
            decreases i,
        {
            let a = self.history[i - 1];
            proof {
                assert(self.history@.take(i as int).last() == a);
                assert(self.history@.take(i as int).drop_last() =~= self.history@.take(i - 1));
            }
            if a.player == pl {
                return a.to;
            }
            i -= 1;
        }
        match pl {
            Player::P1 => self.settings.p1_starting,
            Player::P2 => self.settings.p2_starting,
        }
    }

    /// Applies one action, returning the successor state without touching
    /// `self`. Fails with the first violated rule: wrong turn, removal
    /// target equal to the destination, an illegal destination, or an
    /// illegal removal target.
    pub fn apply_action(&self, action: Action) -> (r: Result<GameState, ActionError>)
        ensures
            (r is Ok) == (spec_check(self@.settings, self@.history, action) is Ok),
            r matches Ok(g) ==> g@ == (StateModel {
                settings: self@.settings,
                history: self@.history.push(action),
            }),
            r matches Err(e) ==> spec_check(self@.settings, self@.history, action) == Err::<
                (),
                ActionError,
            >(e),
    {
        if action.player != self.whose_turn() {
            return Err(ActionError::OtherPlayerTurn);
        }
        if action.remove == action.to {
            return Err(ActionError::CantRemoveTheSamePositionAsMoveTo);
        }
        let own = self.player_position(action.player);
        let other = self.player_position(action.player.other());
        let target_ok = position_on_board(self.settings.dimensions, action.to)
            && positions_adjacent(own, action.to) && !self.is_removed(action.to) && !(action.to
            == other);
        if !target_ok {
            return Err(ActionError::InvalidMoveToTarget);
        }
        let remove_ok = position_on_board(self.settings.dimensions, action.remove)
            && !self.is_removed(action.remove) && !(action.remove == other);
        if !remove_ok {
            return Err(ActionError::InvalidRemove);
        }
        let mut history = copy_actions(&self.history, self.history.len());
        history.push(action);
        proof {
            use_type_invariant(self);
            assert(self.history@.take(self.history@.len() as int) =~= self.history@);
            assert(history@.drop_last() =~= self.history@);
        }
        Ok(GameState { settings: self.settings.clone(), history })
    }

    /// Returns the state as it was before the most recent action, or `None`
    /// at the start of the game. The predecessor is rebuilt from the
    /// shortened history, never by patching derived state.
    pub fn undo(&self) -> (r: Option<GameState>)
        ensures
            self@.history.len() == 0 ==> r is None,
            self@.history.len() > 0 ==> (r matches Some(g) && g@ == (StateModel {
                settings: self@.settings,
                history: self@.history.drop_last(),
            })),
    {
        if self.history.len() == 0 {
            return None;
        }
        let history = copy_actions(&self.history, self.history.len() - 1);
        proof {
            use_type_invariant(self);
            assert(self.history@.take(self.history@.len() - 1) =~= self.history@.drop_last());
        }
        Some(GameState { settings: self.settings.clone(), history })
    }
}

/// Accumulates configuration overrides and validates them all at one final
/// build step, so that no partially valid game is ever observable.
pub struct SettingsBuilder {
    pub rows: Option<u8>,
    pub cols: Option<u8>,
    pub p1_starting: Option<Position>,
    pub p2_starting: Option<Position>,
    pub starting_removed: Option<Vec<Position>>,
}

/// The configuration a builder denotes: each unset field falls back to the
/// canonical default — an 8×6 board, the players midway up the left and
/// right edges, and no pre-removed tiles.
pub open spec fn spec_resolved(b: SettingsBuilder) -> SettingsModel {
    let rows = match b.rows {
        Some(r) => r,
        None => 6,
    };
    let cols = match b.cols {
        Some(c) => c,
        None => 8,
    };
    SettingsModel {
        dimensions: Dimensions { cols, rows },
        p1_starting: match b.p1_starting {
            Some(p) => p,
            None => Position { col: 0, row: rows / 2 },
        },
        p2_starting: match b.p2_starting {
            Some(p) => p,
            None => Position { col: (cols - 1) as u8, row: rows / 2 },
        },
        starting_removed: match b.starting_removed {
            Some(v) => v@,
            None => Seq::empty(),
        },
    }
}

/// The canonical default configuration, used by `GameState::new` and by a
/// builder with no overrides.
pub open spec fn spec_default_settings() -> SettingsModel {
    SettingsModel {
        dimensions: Dimensions { cols: 8, rows: 6 },
        p1_starting: Position { col: 0, row: 3 },
        p2_starting: Position { col: 7, row: 3 },
        starting_removed: Seq::empty(),
    }
}

impl SettingsBuilder {
    /// Returns a builder with no overrides, denoting the default
    /// configuration.
    pub fn new() -> (r: SettingsBuilder)
        ensures
            r.rows is None,
            r.cols is None,
            r.p1_starting is None,
            r.p2_starting is None,
            r.starting_removed is None,
    {
        SettingsBuilder {
            rows: None,
            cols: None,
            p1_starting: None,
            p2_starting: None,
            starting_removed: None,
        }
    }

    /// Overrides the number of rows.
    pub fn rows(self, rows: u8) -> (r: SettingsBuilder)
        ensures
            r.rows == Some(rows),
            r.cols == self.cols,
            r.p1_starting == self.p1_starting,
            r.p2_starting == self.p2_starting,
            r.starting_removed == self.starting_removed,
    {
        SettingsBuilder { rows: Some(rows), ..self }
    }

    /// Overrides the number of columns.
    pub fn cols(self, cols: u8) -> (r: SettingsBuilder)
        ensures
            r.cols == Some(cols),
            r.rows == self.rows,
            r.p1_starting == self.p1_starting,
            r.p2_starting == self.p2_starting,
            r.starting_removed == self.starting_removed,
    {
        SettingsBuilder { cols: Some(cols), ..self }
    }

    /// Overrides the first player's starting square.
    pub fn p1_starting(self, p: Position) -> (r: SettingsBuilder)
        ensures
            r.p1_starting == Some(p),
            r.rows == self.rows,
            r.cols == self.cols,
            r.p2_starting == self.p2_starting,
            r.starting_removed == self.starting_removed,
    {
        SettingsBuilder { p1_starting: Some(p), ..self }
    }

    /// Overrides the second player's starting square.
    pub fn p2_starting(self, p: Position) -> (r: SettingsBuilder)
        ensures
            r.p2_starting == Some(p),
            r.rows == self.rows,
            r.cols == self.cols,
            r.p1_starting == self.p1_starting,
            r.starting_removed == self.starting_removed,
    {
        SettingsBuilder { p2_starting: Some(p), ..self }
    }

    /// Overrides the list of pre-removed tiles.
    pub fn starting_removed(self, removed: Vec<Position>) -> (r: SettingsBuilder)
        ensures
            r.starting_removed == Some(removed),
            r.rows == self.rows,
            r.cols == self.cols,
            r.p1_starting == self.p1_starting,
            r.p2_starting == self.p2_starting,
    {
        SettingsBuilder { starting_removed: Some(removed), ..self }
    }

    /// Resolves defaults and validates the configuration, rejecting an
    /// unacceptable one with the first violated rule.
    pub fn build(self) -> (r: Result<Settings, SettingsError>)
        ensures
            (r is Ok) == (spec_validate(spec_resolved(self)) is Ok),
            r matches Ok(st) ==> st@ == spec_resolved(self),
            r matches Err(e) ==> spec_validate(spec_resolved(self)) == Err::<(), SettingsError>(e),
    {
        let rows = match self.rows {
            Some(r) => r,
            None => 6,
        };
        let cols = match self.cols {
            Some(c) => c,
            None => 8,
        };
        if rows == 0 || cols == 0 {
            return Err(SettingsError::InvalidDimensions);
        }
        let p1 = match self.p1_starting {
            Some(p) => p,
            None => Position { col: 0, row: rows / 2 },
        };
        let p2 = match self.p2_starting {
            Some(p) => p,
            None => Position { col: cols - 1, row: rows / 2 },
        };
        let removed = match self.starting_removed {
            Some(v) => v,
            None => Vec::new(),
        };
        let settings = Settings {
            dimensions: Dimensions { cols, rows },
            p1_starting: p1,
            p2_starting: p2,
            starting_removed: removed,
        };
        match validate(&settings) {
            Ok(_) => Ok(settings),
            Err(e) => Err(e),
        }
    }

    /// Builds the game the configuration denotes, validating it first.
    pub fn build_game(self) -> (r: Result<GameState, SettingsError>)
        ensures
            (r is Ok) == (spec_validate(spec_resolved(self)) is Ok),
            r matches Ok(g) ==> g@ == (StateModel {
                settings: spec_resolved(self),
                history: Seq::<Action>::empty(),
            }),
            r matches Err(e) ==> spec_validate(spec_resolved(self)) == Err::<(), SettingsError>(e),
    {
        match self.build() {
            Ok(settings) => GameState::new_from_settings(settings),
            Err(e) => Err(e),
        }
    }
}

/// The square with column-major index `k` on a board of size `d`
/// (meaningful for `0 <= k < d.cols * d.rows` and `d.rows > 0`).
pub open spec fn pos_of_index(d: Dimensions, k: int) -> Position {
    Position { col: (k / d.rows as int) as u8, row: (k % d.rows as int) as u8 }
}

/// The legal movement targets of `pl` among the squares with column-major
/// index below `n`, in ascending index order.
pub open spec fn targets_upto(s: SettingsModel, h: Seq<Action>, pl: Player, n: int) -> Seq<
    Position,
>
    decreases n,
{
    if n <= 0 {
        Seq::empty()
    } else {
        targets_upto(s, h, pl, n - 1) + (if move_target_ok(
            s,
            h,
            pl,
            pos_of_index(s.dimensions, n - 1),
        ) {
            seq![pos_of_index(s.dimensions, n - 1)]
        } else {
            Seq::<Position>::empty()
        })
    }
}

/// All legal movement targets of `pl`, in ascending column-major order.
pub open spec fn spec_targets(s: SettingsModel, h: Seq<Action>, pl: Player) -> Seq<Position> {
    targets_upto(s, h, pl, s.dimensions.cols as int * s.dimensions.rows as int)
}

/// The removable tiles for `pl` among the squares with column-major index
/// below `n`, in ascending index order.
pub open spec fn removable_upto(s: SettingsModel, h: Seq<Action>, pl: Player, n: int) -> Seq<
    Position,
>
    decreases n,
{
    if n <= 0 {
        Seq::empty()
    } else {
        removable_upto(s, h, pl, n - 1) + (if remove_target_ok(
            s,
            h,
            pl,
            pos_of_index(s.dimensions, n - 1),
        ) {
            seq![pos_of_index(s.dimensions, n - 1)]
        } else {
            Seq::<Position>::empty()
        })
    }
}

/// All removable tiles for `pl`, in ascending column-major order.
pub open spec fn spec_removable(s: SettingsModel, h: Seq<Action>, pl: Player) -> Seq<Position> {
    removable_upto(s, h, pl, s.dimensions.cols as int * s.dimensions.rows as int)
}

/// Every tile gone from the board: the pre-removed tiles in configuration
/// order, then the tiles removed by actions in application order.
pub open spec fn spec_removed_list(m: StateModel) -> Seq<Position> {
    m.settings.starting_removed + Seq::new(m.history.len(), |i: int| m.history[i].remove)
}

/// The status of a state: the player to move wins nothing — a player boxed
/// in with no movement target loses, handing the win to the opponent.
pub open spec fn spec_status(m: StateModel) -> Status {
    let mover = turn_at(m.history.len() as int);
    if spec_targets(m.settings, m.history, mover).len() == 0 {
        Status::Win { player: mover.spec_other() }
    } else {
        Status::InProgress
    }
}

impl GameState {
    /// Returns the game with the canonical default configuration: an 8×6
    /// board, the players midway up the left and right edges, and no
    /// pre-removed tiles.
    pub fn new() -> (r: GameState)
        ensures
            r@ == (StateModel {
                settings: spec_default_settings(),
                history: Seq::<Action>::empty(),
            }),
    {
        let settings = Settings {
            dimensions: Dimensions { cols: 8, rows: 6 },
            p1_starting: Position { col: 0, row: 3 },
            p2_starting: Position { col: 7, row: 3 },
            starting_removed: Vec::new(),
        };
        GameState { settings, history: Vec::new() }
    }

    /// Returns whether `pl`, moving this turn, may remove the tile at
    /// `position`: on board, still present, and not under the opponent.
    pub fn is_position_allowed_to_be_removed(&self, position: Position, player: Player) -> (r:
        bool)
        ensures
            r == remove_target_ok(self@.settings, self@.history, player, position),
    {
        position_on_board(self.settings.dimensions, position) && !self.is_removed(position) && !(
        position == self.player_position(player.other()))
    }

    /// Returns every tile gone from the board: the pre-removed tiles in
    /// configuration order, then the tiles removed by actions in
    /// application order.
    pub fn removed(&self) -> (r: Vec<Position>)
        ensures
            r@ == spec_removed_list(self@),
    {
        let mut out = copy_positions(&self.settings.starting_removed);
        let mut i: usize = 0;
        while i < self.history.len()
            invariant
                i <= self.history@.len(),
                out@ == self@.settings.starting_removed + Seq::new(
                    i as nat,
                    |j: int| self@.history[j].remove,
                ),
            decreases self.history@.len() - i,
        {
            out.push(self.history[i].remove);
            proof {
                assert(out@ =~= self@.settings.starting_removed + Seq::new(
                    (i + 1) as nat,
                    |j: int| self@.history[j].remove,
                ));
            }
            i += 1;
        }
        proof {
            assert(out@ =~= spec_removed_list(self@));
        }
        out
    }

    /// Returns the legal movement targets of `pl`, in ascending column-major
    /// order.
    pub fn allowed_movement_targets_for_player(&self, pl: Player) -> (r: Vec<Position>)
        ensures
            r@ == spec_targets(self@.settings, self@.history, pl),
    {
        proof {
            use_type_invariant(self);
        }
        let rows = self.settings.dimensions.rows;
        let cols = self.settings.dimensions.cols;
        proof {
            lemma_mul_upper_bound(cols as int, 255, rows as int, 255);
        }
        let total: usize = (cols as usize) * (rows as usize);
        let own = self.player_position(pl);
        let other = self.player_position(pl.other());
        let mut out: Vec<Position> = Vec::new();
        let mut k: usize = 0;
        while k < total
            invariant
                k <= total,
                valid_state(self@),
                rows == self@.settings.dimensions.rows,
                cols == self@.settings.dimensions.cols,
                rows > 0,
                total == cols as int * rows as int,
                own == position_after(self@.settings, self@.history, pl),
                other == position_after(self@.settings, self@.history, pl.spec_other()),
                out@ == targets_upto(self@.settings, self@.history, pl, k as int),
            decreases total - k,
        {
            proof {
                lemma_index_bounds(rows as int, cols as int, k as int);
            }
            let p = Position { col: (k / (rows as usize)) as u8, row: (k % (rows as usize)) as u8 };
            proof {
                assert(p == pos_of_index(self@.settings.dimensions, k as int));
            }
            let ok = position_on_board(self.settings.dimensions, p) && positions_adjacent(own, p)
                && !self.is_removed(p) && !(p == other);
            if ok {
                out.push(p);
            }
            proof {
                assert(targets_upto(self@.settings, self@.history, pl, k + 1) =~= out@);
            }
            k += 1;
        }
        out
    }

    /// Returns the removable tiles for `pl`, in ascending column-major
    /// order.
    pub fn removable_for_player(&self, pl: Player) -> (r: Vec<Position>)
        ensures
            r@ == spec_removable(self@.settings, self@.history, pl),
    {
        proof {
            use_type_invariant(self);
        }
        let rows = self.settings.dimensions.rows;
        let cols = self.settings.dimensions.cols;
        proof {
            lemma_mul_upper_bound(cols as int, 255, rows as int, 255);
        }
        let total: usize = (cols as usize) * (rows as usize);
        let mut out: Vec<Position> = Vec::new();
        let mut k: usize = 0;
        while k < total
            invariant
                k <= total,
                valid_state(self@),
                rows == self@.settings.dimensions.rows,
                cols == self@.settings.dimensions.cols,
                rows > 0,
                total == cols as int * rows as int,
                out@ == removable_upto(self@.settings, self@.history, pl, k as int),
            decreases total - k,
        {
            proof {
                lemma_index_bounds(rows as int, cols as int, k as int);
            }
            let p = Position { col: (k / (rows as usize)) as u8, row: (k % (rows as usize)) as u8 };
            proof {
                assert(p == pos_of_index(self@.settings.dimensions, k as int));
            }
            if self.is_position_allowed_to_be_removed(p, pl) {
                out.push(p);
            }
            proof {
                assert(removable_upto(self@.settings, self@.history, pl, k + 1) =~= out@);
            }
            k += 1;
        }
        out
    }

    /// Returns the game's status: in progress while the player to move has
    /// a movement target, and a win for the opponent once that player is
    /// boxed in — no explicit pass is needed.
    pub fn status(&self) -> (r: Status)
        ensures
            r == spec_status(self@),
    {
        let mover = self.whose_turn();
        let targets = self.allowed_movement_targets_for_player(mover);
        if targets.len() == 0 {
            Status::Win { player: mover.other() }
        } else {
            Status::InProgress
        }
    }
}

/// On a `cols × rows` board with index `k < cols * rows`, the column-major
/// decomposition of `k` is a square on the board.
proof fn lemma_index_bounds(rows: int, cols: int, k: int)
    requires
        rows > 0,
        0 <= k < cols * rows,
    ensures
        0 <= k / rows < cols,
        0 <= k % rows < rows,
{
    lemma_fundamental_div_mod(k, rows);
    if k / rows >= cols {
        lemma_mul_inequality(cols, k / rows, rows);
        lemma_mul_is_commutative(k / rows, rows);
        assert(cols * rows <= (k / rows) * rows);
    }
}

/// The legal actions of `pl` moving to `to`, one per removable tile with
/// column-major index below `n` other than `to` itself, in ascending index
/// order.
pub open spec fn removes_for_target(
    s: SettingsModel,
    h: Seq<Action>,
    pl: Player,
    to: Position,
    n: int,
) -> Seq<Action>
    decreases n,
{
    if n <= 0 {
        Seq::empty()
    } else {
        removes_for_target(s, h, pl, to, n - 1) + (if remove_target_ok(
            s,
            h,
            pl,
            pos_of_index(s.dimensions, n - 1),
        ) && pos_of_index(s.dimensions, n - 1) != to {
            seq![Action { player: pl, to, remove: pos_of_index(s.dimensions, n - 1) }]
        } else {
            Seq::<Action>::empty()
        })
    }
}

/// The legal actions of `pl` over the movement targets `ts`, grouped by
/// target in order.
pub open spec fn actions_for_targets(
    s: SettingsModel,
    h: Seq<Action>,
    pl: Player,
    ts: Seq<Position>,
) -> Seq<Action>
    decreases ts.len(),
{
    if ts.len() == 0 {
        Seq::empty()
    } else {
        actions_for_targets(s, h, pl, ts.drop_last()) + removes_for_target(
            s,
            h,
            pl,
            ts.last(),
            s.dimensions.cols as int * s.dimensions.rows as int,
        )
    }
}

/// Every action legal in state `m`, in a fixed order: movement targets in
/// ascending column-major order, and for each target every admissible
/// removal in ascending column-major order.
pub open spec fn spec_valid_actions(m: StateModel) -> Seq<Action> {
    let mover = turn_at(m.history.len() as int);
    actions_for_targets(
        m.settings,
        m.history,
        mover,
        spec_targets(m.settings, m.history, mover),
    )
}

impl GameState {
    /// Returns every action legal in the current state, in a fixed order
    /// that is stable across calls on equal states.
    pub fn valid_actions(&self) -> (r: Vec<Action>)
        ensures
            r@ == spec_valid_actions(self@),
    {
        proof {
            use_type_invariant(self);
        }
        let mover = self.whose_turn();
        let targets = self.allowed_movement_targets_for_player(mover);
        let rows = self.settings.dimensions.rows;
        let cols = self.settings.dimensions.cols;
        proof {
            lemma_mul_upper_bound(cols as int, 255, rows as int, 255);
        }
        let total: usize = (cols as usize) * (rows as usize);
        let mut out: Vec<Action> = Vec::new();
        let mut t: usize = 0;
        while t < targets.len()
            invariant
                t <= targets@.len(),
                valid_state(self@),
                rows == self@.settings.dimensions.rows,
                cols == self@.settings.dimensions.cols,
                rows > 0,
                total == cols as int * rows as int,
                mover == turn_at(self@.history.len() as int),
                targets@ == spec_targets(self@.settings, self@.history, mover),
                out@ == actions_for_targets(
                    self@.settings,
                    self@.history,
                    mover,
                    targets@.take(t as int),
                ),
            decreases targets@.len() - t,
        {
            let to = targets[t];
            let ghost out_before = out@;
            let mut k: usize = 0;
            while k < total
                invariant
                    k <= total,
                    t < targets@.len(),
                    valid_state(self@),
                    rows == self@.settings.dimensions.rows,
                    cols == self@.settings.dimensions.cols,
                    rows > 0,
                    total == cols as int * rows as int,
                    mover == turn_at(self@.history.len() as int),
                    to == targets@[t as int],
                    out@ == out_before + removes_for_target(
                        self@.settings,
                        self@.history,
                        mover,
                        to,
                        k as int,
                    ),
                decreases total - k,
            {
                proof {
                    lemma_index_bounds(rows as int, cols as int, k as int);
                }
                let p = Position {
                    col: (k / (rows as usize)) as u8,
                    row: (k % (rows as usize)) as u8,
                };
                proof {
                    assert(p == pos_of_index(self@.settings.dimensions, k as int));
                }
                if self.is_position_allowed_to_be_removed(p, mover) && !(p == to) {
                    out.push(Action { player: mover, to, remove: p });
                }
                proof {
                    assert(out@ =~= out_before + removes_for_target(
                        self@.settings,
                        self@.history,
                        mover,
                        to,
                        k + 1,
                    ));
                }
                k += 1;
            }
            proof {
                assert(targets@.take(t + 1).drop_last() =~= targets@.take(t as int));
                assert(targets@.take(t + 1).last() == to);
                assert(out@ =~= actions_for_targets(
                    self@.settings,
                    self@.history,
                    mover,
                    targets@.take(t + 1),
                ));
            }
            t += 1;
        }
        proof {
            assert(targets@.take(targets@.len() as int) =~= targets@);
        }
        out
    }

    /// Returns the first legal action in the fixed enumeration order, or
    /// `None` if the player to move is boxed in.
    pub fn valid_action(&self) -> (r: Option<Action>)
        ensures
            (r is Some) == (spec_valid_actions(self@).len() > 0),
            r matches Some(a) ==> a == spec_valid_actions(self@)[0],
    {
        let all = self.valid_actions();
        if all.len() > 0 {
            Some(all[0])
        } else {
            None
        }
    }
}

/// Every element enumerated by `targets_upto` is a legal movement target.
proof fn lemma_targets_elements(s: SettingsModel, h: Seq<Action>, pl: Player, n: int)
    ensures
        forall|j: int|
            0 <= j < targets_upto(s, h, pl, n).len() ==> move_target_ok(
                s,
                h,
                pl,
                #[trigger] targets_upto(s, h, pl, n)[j],
            ),
    decreases n,
{
    if n > 0 {
        lemma_targets_elements(s, h, pl, n - 1);
        assert forall|j: int| 0 <= j < targets_upto(s, h, pl, n).len() implies move_target_ok(
            s,
            h,
            pl,
            #[trigger] targets_upto(s, h, pl, n)[j],
        ) by {
            if j < targets_upto(s, h, pl, n - 1).len() {
                assert(targets_upto(s, h, pl, n)[j] == targets_upto(s, h, pl, n - 1)[j]);
            } else {
                assert(targets_upto(s, h, pl, n)[j] == pos_of_index(s.dimensions, n - 1));
            }
        }
    }
}

/// The enumeration grows monotonically, and once a legal target at index
/// `k` has been passed it is non-empty.
proof fn lemma_targets_nonempty_from(
    s: SettingsModel,
    h: Seq<Action>,
    pl: Player,
    k: int,
    n: int,
)
    requires
        0 <= k < n,
        move_target_ok(s, h, pl, pos_of_index(s.dimensions, k)),
    ensures
        targets_upto(s, h, pl, n).len() > 0,
    decreases n,
{
    if n - 1 > k {
        lemma_targets_nonempty_from(s, h, pl, k, n - 1);
    }
}

/// A legal movement target makes the target enumeration non-empty.
proof fn lemma_targets_nonempty(s: SettingsModel, h: Seq<Action>, pl: Player, to: Position)
    requires
        settings_ok(s),
        move_target_ok(s, h, pl, to),
    ensures
        spec_targets(s, h, pl).len() > 0,
{
    let rows = s.dimensions.rows as int;
    let cols = s.dimensions.cols as int;
    let k = to.col as int * rows + to.row as int;
    lemma_fundamental_div_mod_converse(k, rows, to.col as int, to.row as int);
    assert(pos_of_index(s.dimensions, k) == to);
    lemma_mul_inequality(to.col as int, cols - 1, rows);
    lemma_mul_is_commutative(cols - 1, rows);
    lemma_mul_is_commutative(cols, rows);
    assert((cols - 1) * rows == cols * rows - rows) by (nonlinear_arith);
    assert(k < cols * rows);
    lemma_targets_nonempty_from(s, h, pl, k, cols * rows);
}

/// Once a legal target with index `k` has been passed, the enumeration
/// contains it.
proof fn lemma_targets_contains_from(
    s: SettingsModel,
    h: Seq<Action>,
    pl: Player,
    k: int,
    n: int,
)
    requires
        0 <= k < n,
        move_target_ok(s, h, pl, pos_of_index(s.dimensions, k)),
    ensures
        targets_upto(s, h, pl, n).contains(pos_of_index(s.dimensions, k)),
    decreases n,
{
    let p = pos_of_index(s.dimensions, k);
    if n - 1 == k {
        assert(targets_upto(s, h, pl, n).last() == p);
    } else {
        lemma_targets_contains_from(s, h, pl, k, n - 1);
        let j = choose|j: int|
            0 <= j < targets_upto(s, h, pl, n - 1).len() && (#[trigger] targets_upto(
                s,
                h,
                pl,
                n - 1,
            )[j]) == p;
        assert(targets_upto(s, h, pl, n)[j] == p);
    }
}

/// The movement-target enumeration is sound and complete: it contains a
/// square exactly when moving there is legal.
pub proof fn lemma_targets_complete(s: SettingsModel, h: Seq<Action>, pl: Player)
    requires
        settings_ok(s),
    ensures
        forall|p: Position|
            #[trigger] spec_targets(s, h, pl).contains(p) == move_target_ok(s, h, pl, p),
{
    let rows = s.dimensions.rows as int;
    let cols = s.dimensions.cols as int;
    lemma_targets_elements(s, h, pl, cols * rows);
    assert forall|p: Position|
        #[trigger] spec_targets(s, h, pl).contains(p) == move_target_ok(s, h, pl, p) by {
        if move_target_ok(s, h, pl, p) {
            let k = p.col as int * rows + p.row as int;
            lemma_fundamental_div_mod_converse(k, rows, p.col as int, p.row as int);
            lemma_mul_inequality(p.col as int, cols - 1, rows);
            lemma_mul_is_commutative(cols - 1, rows);
            lemma_mul_is_commutative(cols, rows);
            assert((cols - 1) * rows == cols * rows - rows) by (nonlinear_arith);
            lemma_targets_contains_from(s, h, pl, k, cols * rows);
        }
    }
}

/// Once a removable tile with index `k` has been passed, the enumeration
/// contains it.
proof fn lemma_removable_contains_from(
    s: SettingsModel,
    h: Seq<Action>,
    pl: Player,
    k: int,
    n: int,
)
    requires
        0 <= k < n,
        remove_target_ok(s, h, pl, pos_of_index(s.dimensions, k)),
    ensures
        removable_upto(s, h, pl, n).contains(pos_of_index(s.dimensions, k)),
    decreases n,
{
    let p = pos_of_index(s.dimensions, k);
    if n - 1 == k {
        assert(removable_upto(s, h, pl, n).last() == p);
    } else {
        lemma_removable_contains_from(s, h, pl, k, n - 1);
        let j = choose|j: int|
            0 <= j < removable_upto(s, h, pl, n - 1).len() && (#[trigger] removable_upto(
                s,
                h,
                pl,
                n - 1,
            )[j]) == p;
        assert(removable_upto(s, h, pl, n)[j] == p);
    }
}

/// Every element the removable enumeration lists is a legal removal target.
proof fn lemma_removable_elements(s: SettingsModel, h: Seq<Action>, pl: Player, n: int)
    ensures
        forall|j: int|
            0 <= j < removable_upto(s, h, pl, n).len() ==> remove_target_ok(
                s,
                h,
                pl,
                #[trigger] removable_upto(s, h, pl, n)[j],
            ),
    decreases n,
{
    if n > 0 {
        lemma_removable_elements(s, h, pl, n - 1);
        assert forall|j: int| 0 <= j < removable_upto(s, h, pl, n).len() implies remove_target_ok(
            s,
            h,
            pl,
            #[trigger] removable_upto(s, h, pl, n)[j],
        ) by {
            if j < removable_upto(s, h, pl, n - 1).len() {
                assert(removable_upto(s, h, pl, n)[j] == removable_upto(s, h, pl, n - 1)[j]);
            } else {
                assert(removable_upto(s, h, pl, n)[j] == pos_of_index(s.dimensions, n - 1));
            }
        }
    }
}

/// The removable enumeration is sound and complete: it contains a square
/// exactly when removing it is admissible for the mover.
pub proof fn lemma_removable_complete(s: SettingsModel, h: Seq<Action>, pl: Player)
    requires
        settings_ok(s),
    ensures
        forall|p: Position|
            #[trigger] spec_removable(s, h, pl).contains(p) == remove_target_ok(s, h, pl, p),
{
    let rows = s.dimensions.rows as int;
    let cols = s.dimensions.cols as int;
    lemma_removable_elements(s, h, pl, cols * rows);
    assert forall|p: Position|
        #[trigger] spec_removable(s, h, pl).contains(p) == remove_target_ok(s, h, pl, p) by {
        if remove_target_ok(s, h, pl, p) {
            let k = p.col as int * rows + p.row as int;
            lemma_fundamental_div_mod_converse(k, rows, p.col as int, p.row as int);
            lemma_mul_inequality(p.col as int, cols - 1, rows);
            lemma_mul_is_commutative(cols - 1, rows);
            lemma_mul_is_commutative(cols, rows);
            assert((cols - 1) * rows == cols * rows - rows) by (nonlinear_arith);
            lemma_removable_contains_from(s, h, pl, k, cols * rows);
        }
    }
}

/// The status query agrees with playability: a reachable state is in
/// progress exactly when some action is legal in it, so a boxed-in player
/// loses without needing an explicit pass.
pub proof fn lemma_status_iff_playable(m: StateModel)
    requires
        valid_state(m),
    ensures
        (spec_status(m) is InProgress) <==> exists|a: Action|
            spec_check(m.settings, m.history, a) is Ok,
{
    let s = m.settings;
    let h = m.history;
    let mover = turn_at(h.len() as int);
    lemma_players_invariant(s, h);
    if spec_targets(s, h, mover).len() == 0 {
        assert forall|a: Action| !(spec_check(s, h, a) is Ok) by {
            if spec_check(s, h, a) is Ok {
                lemma_targets_nonempty(s, h, mover, a.to);
            }
        }
    } else {
        lemma_targets_elements(s, h, mover, s.dimensions.cols as int * s.dimensions.rows as int);
        let to = spec_targets(s, h, mover)[0];
        let own = position_after(s, h, mover);
        let a = Action { player: mover, to, remove: own };
        assert(move_target_ok(s, h, mover, to));
        assert(position_after(s, h, mover.spec_other()) != own);
        assert(spec_check(s, h, a) is Ok);
    }
}

/// The pre-removed tiles flattened to bytes: column then row of each.
pub open spec fn removed_bytes(rs: Seq<Position>) -> Seq<u8> {
    Seq::new(
        2 * rs.len(),
        |i: int|
            if i % 2 == 0 {
                rs[i / 2].col
            } else {
                rs[i / 2].row
            },
    )
}

/// The action history flattened to bytes: destination column and row, then
/// removal column and row, of each action. The acting player is implied by
/// strict alternation, so it is not stored.
pub open spec fn action_bytes(h: Seq<Action>) -> Seq<u8> {
    Seq::new(
        4 * h.len(),
        |i: int|
            if i % 4 == 0 {
                h[i / 4].to.col
            } else if i % 4 == 1 {
                h[i / 4].to.row
            } else if i % 4 == 2 {
                h[i / 4].remove.col
            } else {
                h[i / 4].remove.row
            },
    )
}

/// The binary encoding of a state: six header bytes (dimensions and the two
/// starting squares), the pre-removed tiles, a `255` sentinel — no on-board
/// column is ever `255` — and the flattened action history.
pub open spec fn spec_encode(m: StateModel) -> Seq<u8> {
    seq![
        m.settings.dimensions.cols,
        m.settings.dimensions.rows,
        m.settings.p1_starting.col,
        m.settings.p1_starting.row,
        m.settings.p2_starting.col,
        m.settings.p2_starting.row,
    ] + removed_bytes(m.settings.starting_removed) + seq![255u8] + action_bytes(m.history)
}

/// The encoding laid out byte by byte.
pub proof fn lemma_encode_parts(m: StateModel)
    ensures
        spec_encode(m).len() == 7 + 2 * m.settings.starting_removed.len() + 4 * m.history.len(),
        spec_encode(m)[0] == m.settings.dimensions.cols,
        spec_encode(m)[1] == m.settings.dimensions.rows,
        spec_encode(m)[2] == m.settings.p1_starting.col,
        spec_encode(m)[3] == m.settings.p1_starting.row,
        spec_encode(m)[4] == m.settings.p2_starting.col,
        spec_encode(m)[5] == m.settings.p2_starting.row,
        forall|q: int|
            0 <= q < m.settings.starting_removed.len() ==> spec_encode(m)[6 + 2 * q] == (
            #[trigger] m.settings.starting_removed[q]).col && spec_encode(m)[6 + 2 * q + 1]
                == m.settings.starting_removed[q].row,
        spec_encode(m)[6 + 2 * m.settings.starting_removed.len() as int] == 255u8,
        forall|q: int|
            0 <= q < m.history.len() ==> {
                let base = 7 + 2 * m.settings.starting_removed.len() + 4 * q;
                &&& spec_encode(m)[base] == (#[trigger] m.history[q]).to.col
                &&& spec_encode(m)[base + 1] == m.history[q].to.row
                &&& spec_encode(m)[base + 2] == m.history[q].remove.col
                &&& spec_encode(m)[base + 3] == m.history[q].remove.row
            },
{
    let rs = m.settings.starting_removed;
    let h = m.history;
    let k = rs.len() as int;
    assert forall|q: int|
        0 <= q < k implies spec_encode(m)[6 + 2 * q] == (#[trigger] rs[q]).col && spec_encode(m)[6
        + 2 * q + 1] == rs[q].row by {
        lemma_fundamental_div_mod_converse(2 * q, 2, q, 0);
        lemma_fundamental_div_mod_converse(2 * q + 1, 2, q, 1);
        assert(spec_encode(m)[6 + 2 * q] == removed_bytes(rs)[2 * q]);
        assert(spec_encode(m)[6 + 2 * q + 1] == removed_bytes(rs)[2 * q + 1]);
    }
    assert forall|q: int|
        0 <= q < h.len() implies {
            let base = 7 + 2 * k + 4 * q;
            &&& spec_encode(m)[base] == (#[trigger] h[q]).to.col
            &&& spec_encode(m)[base + 1] == h[q].to.row
            &&& spec_encode(m)[base + 2] == h[q].remove.col
            &&& spec_encode(m)[base + 3] == h[q].remove.row
        } by {
        lemma_fundamental_div_mod_converse(4 * q, 4, q, 0);
        lemma_fundamental_div_mod_converse(4 * q + 1, 4, q, 1);
        lemma_fundamental_div_mod_converse(4 * q + 2, 4, q, 2);
        lemma_fundamental_div_mod_converse(4 * q + 3, 4, q, 3);
        assert(spec_encode(m)[7 + 2 * k + 4 * q] == action_bytes(h)[4 * q]);
        assert(spec_encode(m)[7 + 2 * k + 4 * q + 1] == action_bytes(h)[4 * q + 1]);
        assert(spec_encode(m)[7 + 2 * k + 4 * q + 2] == action_bytes(h)[4 * q + 2]);
        assert(spec_encode(m)[7 + 2 * k + 4 * q + 3] == action_bytes(h)[4 * q + 3]);
    }
}

/// A decoded state whose bytes all agree with a buffer re-encodes to that
/// buffer.
#[verifier::rlimit(100)]
#[verifier::spinoff_prover]
proof fn lemma_encode_from_bytes(gm: StateModel, bytes: Seq<u8>, i: int)
    requires
        i == 7 + 2 * gm.settings.starting_removed.len(),
        bytes.len() == i + 4 * gm.history.len(),
        gm.settings.dimensions.cols == bytes[0],
        gm.settings.dimensions.rows == bytes[1],
        gm.settings.p1_starting.col == bytes[2],
        gm.settings.p1_starting.row == bytes[3],
        gm.settings.p2_starting.col == bytes[4],
        gm.settings.p2_starting.row == bytes[5],
        bytes[i - 1] == 255u8,
        forall|q: int|
            0 <= q < gm.settings.starting_removed.len() ==> (
            #[trigger] gm.settings.starting_removed[q]).col == bytes[6 + 2 * q]
                && gm.settings.starting_removed[q].row == bytes[6 + 2 * q + 1],
        forall|q: int|
            0 <= q < gm.history.len() ==> {
                let base = i + 4 * q;
                &&& (#[trigger] gm.history[q]).to.col == bytes[base]
                &&& gm.history[q].to.row == bytes[base + 1]
                &&& gm.history[q].remove.col == bytes[base + 2]
                &&& gm.history[q].remove.row == bytes[base + 3]
            },
    ensures
        spec_encode(gm) == bytes,
{
    lemma_encode_parts(gm);
    assert(spec_encode(gm) =~= bytes);
}

/// In a state whose encoding is `bytes`, the action at index `t` is exactly
/// the one read back from `bytes`, and it is legal after the prefix before
/// it.
proof fn lemma_action_at(m: StateModel, bytes: Seq<u8>, i: int, t: int, a: Action)
    requires
        valid_state(m),
        bytes == spec_encode(m),
        i == 7 + 2 * m.settings.starting_removed.len(),
        0 <= t,
        i + 4 * t < bytes.len(),
        a.player == turn_at(t),
        a.to.col == bytes[i + 4 * t],
        a.to.row == bytes[i + 4 * t + 1],
        a.remove.col == bytes[i + 4 * t + 2],
        a.remove.row == bytes[i + 4 * t + 3],
    ensures
        t < m.history.len(),
        m.history[t] == a,
        spec_check(m.settings, m.history.take(t), a) is Ok,
        legal_history(m.settings, m.history.take(t + 1)),
{
    lemma_encode_parts(m);
    assert(t < m.history.len());
    lemma_legal_take(m.settings, m.history, t + 1);
    assert(m.history.take(t + 1).drop_last() =~= m.history.take(t));
    assert(m.history.take(t + 1).last() == m.history[t]);
    assert(m.history[t].player == turn_at(t));
    assert(m.history[t] == a);
}

impl GameState {
    /// Returns the compact binary encoding of the state.
    pub fn to_binary(&self) -> (r: Vec<u8>)
        ensures
            r@ == spec_encode(self@),
            valid_state(self@),
    {
        proof {
            use_type_invariant(self);
        }
        let ghost m = self@;
        let mut out: Vec<u8> = Vec::new();
        out.push(self.settings.dimensions.cols);
        out.push(self.settings.dimensions.rows);
        out.push(self.settings.p1_starting.col);
        out.push(self.settings.p1_starting.row);
        out.push(self.settings.p2_starting.col);
        out.push(self.settings.p2_starting.row);
        let k = self.settings.starting_removed.len();
        let mut j: usize = 0;
        while j < k
            invariant
                j <= k,
                m == self@,
                k == m.settings.starting_removed.len(),
                out@.len() == 6 + 2 * j,
                out@[0] == m.settings.dimensions.cols,
                out@[1] == m.settings.dimensions.rows,
                out@[2] == m.settings.p1_starting.col,
                out@[3] == m.settings.p1_starting.row,
                out@[4] == m.settings.p2_starting.col,
                out@[5] == m.settings.p2_starting.row,
                forall|q: int|
                    0 <= q < j ==> out@[6 + 2 * q] == (
                    #[trigger] m.settings.starting_removed[q]).col && out@[6 + 2 * q + 1]
                        == m.settings.starting_removed[q].row,
            decreases k - j,
        {
            let p = self.settings.starting_removed[j];
            out.push(p.col);
            out.push(p.row);
            j += 1;
        }
        out.push(255);
        let n = self.history.len();
        let mut t: usize = 0;
        while t < n
            invariant
                t <= n,
                m == self@,
                k == m.settings.starting_removed.len(),
                n == m.history.len(),
                out@.len() == 7 + 2 * k + 4 * t,
                out@[0] == m.settings.dimensions.cols,
                out@[1] == m.settings.dimensions.rows,
                out@[2] == m.settings.p1_starting.col,
                out@[3] == m.settings.p1_starting.row,
                out@[4] == m.settings.p2_starting.col,
                out@[5] == m.settings.p2_starting.row,
                out@[6 + 2 * k] == 255u8,
                forall|q: int|
                    0 <= q < k ==> out@[6 + 2 * q] == (
                    #[trigger] m.settings.starting_removed[q]).col && out@[6 + 2 * q + 1]
                        == m.settings.starting_removed[q].row,
                forall|q: int|
                    0 <= q < t ==> {
                        let base = 7 + 2 * k + 4 * q;
                        &&& out@[base] == (#[trigger] m.history[q]).to.col
                        &&& out@[base + 1] == m.history[q].to.row
                        &&& out@[base + 2] == m.history[q].remove.col
                        &&& out@[base + 3] == m.history[q].remove.row
                    },
            decreases n - t,
        {
            let a = self.history[t];
            out.push(a.to.col);
            out.push(a.to.row);
            out.push(a.remove.col);
            out.push(a.remove.row);
            t += 1;
        }
        proof {
            lemma_encode_from_bytes(m, out@, 7 + 2 * k as int);
        }
        out
    }

    /// Decodes a binary payload. Exactly the canonical encodings of
    /// reachable states are accepted: decoding what `to_binary` produced
    /// yields an equal state, and any accepted payload re-encodes to itself.
    #[verifier::rlimit(100)]
    #[verifier::spinoff_prover]
    pub fn from_binary(bytes: &Vec<u8>) -> (r: Result<GameState, DecodeError>)
        ensures
            r matches Ok(g) ==> spec_encode(g@) == bytes@ && valid_state(g@),
            forall|m: StateModel|
                valid_state(m) && bytes@ == spec_encode(m) ==> (r matches Ok(g) && g@ == m),
    {
        if bytes.len() < 7 {
            proof {
                assert forall|m: StateModel|
                    valid_state(m) && bytes@ == spec_encode(m) implies false by {
                    lemma_encode_parts(m);
                }
            }
            return Err(DecodeError::Malformed);
        }
        let cols = bytes[0];
        let rows = bytes[1];
        let mut removed: Vec<Position> = Vec::new();
        let mut i: usize = 6;
        while i < bytes.len() && bytes[i] != 255
            invariant
                6 <= i <= bytes@.len(),
                bytes@.len() >= 7,
                i == 6 + 2 * removed@.len(),
                forall|q: int|
                    0 <= q < removed@.len() ==> (#[trigger] removed@[q]).col == bytes@[6 + 2 * q]
                        && removed@[q].row == bytes@[6 + 2 * q + 1],
                forall|m: StateModel|
                    valid_state(m) && bytes@ == spec_encode(m) ==> removed@.len()
                        <= m.settings.starting_removed.len() && removed@
                        == m.settings.starting_removed.take(removed@.len() as int),
            decreases bytes@.len() - i,
        {
            if i + 1 >= bytes.len() {
                proof {
                    assert forall|m: StateModel|
                        valid_state(m) && bytes@ == spec_encode(m) implies false by {
                        lemma_encode_parts(m);
                        let q = removed@.len() as int;
                        let k = m.settings.starting_removed.len() as int;
                        if q == k {
                            assert(bytes@[i as int] == 255);
                        } else {
                            assert(spec_encode(m).len() >= 7 + 2 * k);
                        }
                    }
                }
                return Err(DecodeError::Malformed);
            }
            let p = Position { col: bytes[i], row: bytes[i + 1] };
            removed.push(p);
            proof {
                assert forall|m: StateModel|
                    valid_state(m) && bytes@ == spec_encode(m) implies removed@.len()
                    <= m.settings.starting_removed.len() && removed@
                    == m.settings.starting_removed.take(removed@.len() as int) by {
                    lemma_encode_parts(m);
                    let q = (removed@.len() - 1) as int;
                    let k = m.settings.starting_removed.len() as int;
                    if q == k {
                        assert(bytes@[i as int] == 255);
                    } else {
                        assert(on_board(m.settings.dimensions, m.settings.starting_removed[q]));
                        assert(removed@[q] == m.settings.starting_removed[q]);
                        assert(removed@ =~= m.settings.starting_removed.take(q + 1));
                    }
                }
            }
            i += 2;
        }
        if i >= bytes.len() {
            proof {
                assert forall|m: StateModel|
                    valid_state(m) && bytes@ == spec_encode(m) implies false by {
                    lemma_encode_parts(m);
                    let q = removed@.len() as int;
                    let k = m.settings.starting_removed.len() as int;
                    if q < k {
                        assert(on_board(m.settings.dimensions, m.settings.starting_removed[q]));
                        assert(bytes@[6 + 2 * q] != 255);
                    }
                }
            }
            return Err(DecodeError::Malformed);
        }
        // bytes[i] == 255: the sentinel closing the pre-removed list.
        proof {
            assert forall|m: StateModel|
                valid_state(m) && bytes@ == spec_encode(m) implies removed@.len()
                == m.settings.starting_removed.len() && removed@
                == m.settings.starting_removed by {
                lemma_encode_parts(m);
                let q = removed@.len() as int;
                let k = m.settings.starting_removed.len() as int;
                if q < k {
                    assert(on_board(m.settings.dimensions, m.settings.starting_removed[q]));
                    assert(bytes@[6 + 2 * q] != 255);
                }
                assert(m.settings.starting_removed.take(k) =~= m.settings.starting_removed);
            }
        }
        let ghost removed_view = removed@;
        let ghost sentinel_at = i as int;
        let settings = Settings {
            dimensions: Dimensions { cols, rows },
            p1_starting: Position { col: bytes[2], row: bytes[3] },
            p2_starting: Position { col: bytes[4], row: bytes[5] },
            starting_removed: removed,
        };
        let ghost sm = settings@;
        let g0 = match GameState::new_from_settings(settings) {
            Ok(g0) => g0,
            Err(_) => {
                proof {
                    assert forall|m: StateModel|
                        valid_state(m) && bytes@ == spec_encode(m) implies false by {
                        lemma_encode_parts(m);
                        lemma_validate_iff_ok(m.settings);
                        assert(sm == m.settings);
                    }
                }
                return Err(DecodeError::Malformed);
            },
        };
        i += 1;
        if (bytes.len() - i) % 4 != 0 {
            proof {
                assert forall|m: StateModel|
                    valid_state(m) && bytes@ == spec_encode(m) implies false by {
                    lemma_encode_parts(m);
                    assert(sm == m.settings);
                    assert(bytes@.len() - i == 4 * m.history.len());
                    lemma_fundamental_div_mod_converse(
                        bytes@.len() - i,
                        4,
                        m.history.len() as int,
                        0,
                    );
                }
            }
            return Err(DecodeError::Malformed);
        }
        let n_actions = (bytes.len() - i) / 4;
        let blen = bytes.len();
        proof {
            lemma_fundamental_div_mod(bytes@.len() - i, 4);
        }
        let mut g = g0;
        let mut t: usize = 0;
        while t < n_actions
            invariant
                t <= n_actions,
                blen == bytes@.len(),
                7 <= i <= bytes@.len(),
                i + 4 * n_actions == bytes@.len(),
                i == 7 + 2 * sm.starting_removed.len(),
                g@.settings == sm,
                g@.history.len() == t,
                sm.dimensions.cols == bytes@[0],
                sm.dimensions.rows == bytes@[1],
                sm.p1_starting.col == bytes@[2],
                sm.p1_starting.row == bytes@[3],
                sm.p2_starting.col == bytes@[4],
                sm.p2_starting.row == bytes@[5],
                sm.starting_removed == removed_view,
                bytes@[i - 1] == 255u8,
                forall|q: int|
                    0 <= q < removed_view.len() ==> (#[trigger] removed_view[q]).col == bytes@[6 + 2
                        * q] && removed_view[q].row == bytes@[6 + 2 * q + 1],
                forall|q: int|
                    0 <= q < t ==> {
                        let base = i + 4 * q;
                        &&& (#[trigger] g@.history[q]).to.col == bytes@[base]
                        &&& g@.history[q].to.row == bytes@[base + 1]
                        &&& g@.history[q].remove.col == bytes@[base + 2]
                        &&& g@.history[q].remove.row == bytes@[base + 3]
                    },
                forall|m: StateModel|
                    valid_state(m) && bytes@ == spec_encode(m) ==> t <= m.history.len()
                        && g@.history == m.history.take(t as int) && sm == m.settings,
            decreases n_actions - t,
        {
            let base = i + 4 * t;
            let to = Position { col: bytes[base], row: bytes[base + 1] };
            let rem = Position { col: bytes[base + 2], row: bytes[base + 3] };
            let a = Action { player: g.whose_turn(), to, remove: rem };
            proof {
                assert forall|m: StateModel|
                    valid_state(m) && bytes@ == spec_encode(m) implies t < m.history.len()
                    && m.history[t as int] == a && spec_check(g@.settings, g@.history, a)
                    is Ok by {
                    lemma_action_at(m, bytes@, i as int, t as int, a);
                }
            }
            match g.apply_action(a) {
                Ok(g2) => {
                    proof {
                        assert forall|m: StateModel|
                            valid_state(m) && bytes@ == spec_encode(m) implies t + 1
                            <= m.history.len() && g2@.history == m.history.take(t + 1) by {
                            assert(g2@.history =~= m.history.take(t + 1));
                        }
                    }
                    g = g2;
                },
                Err(_) => {
                    proof {
                        assert forall|m: StateModel|
                            valid_state(m) && bytes@ == spec_encode(m) implies false by {
                            assert(m.history[t as int] == a);
                        }
                    }
                    return Err(DecodeError::Malformed);
                },
            }
            t += 1;
        }
        proof {
            use_type_invariant(&g);
            lemma_encode_from_bytes(g@, bytes@, i as int);
            assert forall|m: StateModel|
                valid_state(m) && bytes@ == spec_encode(m) implies g@ == m by {
                lemma_encode_parts(m);
                assert(4 * m.history.len() == 4 * n_actions);
                assert(g@.history =~= m.history);
            }
        }
        Ok(g)
    }

    /// Returns the text encoding of the state: each byte of the binary form
    /// rendered as three decimal digits and a space.
    pub fn to_text(&self) -> (r: Vec<u8>)
        ensures
            r@ == text_of(spec_encode(self@)),
            valid_state(self@),
    {
        let b = self.to_binary();
        render_text(&b)
    }

    /// Decodes a text payload; the counterpart of `to_text`, accepting
    /// exactly the canonical renderings of reachable states.
    pub fn from_text(t: &Vec<u8>) -> (r: Result<GameState, DecodeError>)
        ensures
            r matches Ok(g) ==> text_of(spec_encode(g@)) == t@ && valid_state(g@),
            forall|m: StateModel|
                valid_state(m) && t@ == text_of(spec_encode(m)) ==> (r matches Ok(g) && g@ == m),
    {
        match parse_text(t) {
            Ok(b) => GameState::from_binary(&b),
            Err(e) => Err(e),
        }
    }
}

/// The removed-tile list is faithful: it holds exactly the tiles that the
/// removal predicate counts as gone.
pub proof fn lemma_removed_list_complete(m: StateModel)
    ensures
        forall|p: Position|
            #[trigger] spec_removed_list(m).contains(p) == removed_after(
                m.settings,
                m.history,
                p,
            ),
{
    let rs = m.settings.starting_removed;
    let hs = Seq::new(m.history.len(), |i: int| m.history[i].remove);
    assert forall|p: Position|
        #[trigger] spec_removed_list(m).contains(p) == removed_after(
            m.settings,
            m.history,
            p,
        ) by {
        if spec_removed_list(m).contains(p) {
            let x = choose|x: int| 0 <= x < spec_removed_list(m).len() && spec_removed_list(m)[x]
                == p;
            if x < rs.len() {
                assert(rs[x] == p);
            } else {
                assert(m.history[x - rs.len()].remove == p);
            }
            assert(removed_after(m.settings, m.history, p));
        }
        if removed_after(m.settings, m.history, p) {
            if rs.contains(p) {
                let x = choose|x: int| 0 <= x < rs.len() && rs[x] == p;
                assert(spec_removed_list(m)[x] == p);
            } else {
                let i = choose|i: int| 0 <= i < m.history.len() && (#[trigger] m.history[i]).remove
                    == p;
                assert(spec_removed_list(m)[rs.len() + i] == p);
            }
            assert(spec_removed_list(m).contains(p));
        }
    }
}

/// In a playable history, every action was legal against the prefix played
/// before it.
pub proof fn lemma_history_steps_legal(s: SettingsModel, h: Seq<Action>, j: int)
    requires
        legal_history(s, h),
        0 <= j < h.len(),
    ensures
        spec_check(s, h.take(j), h[j]) is Ok,
{
    lemma_legal_take(s, h, j + 1);
    assert(h.take(j + 1).drop_last() =~= h.take(j));
    assert(h.take(j + 1).last() == h[j]);
}

/// No tile is ever removed twice: the removal targets of a playable history
/// are pairwise distinct and never among the pre-removed tiles.
pub proof fn lemma_removes_distinct(s: SettingsModel, h: Seq<Action>)
    requires
        legal_history(s, h),
    ensures
        forall|i: int, j: int|
            0 <= i < j < h.len() ==> (#[trigger] h[i]).remove != (#[trigger] h[j]).remove,
        forall|j: int|
            0 <= j < h.len() ==> !s.starting_removed.contains((#[trigger] h[j]).remove),
{
    assert forall|j: int|
        0 <= j < h.len() implies !s.starting_removed.contains((#[trigger] h[j]).remove) by {
        lemma_history_steps_legal(s, h, j);
    }
    assert forall|i: int, j: int|
        0 <= i < j < h.len() implies (#[trigger] h[i]).remove != (#[trigger] h[j]).remove by {
        lemma_history_steps_legal(s, h, j);
        assert(!removed_after(s, h.take(j), h[j].remove));
        assert(h.take(j)[i] == h[i]);
    }
}

/// Applying an action and then undoing it restores the starting state: undo
/// drops exactly the entry that the action appended.
pub proof fn lemma_apply_then_undo(s: SettingsModel, h: Seq<Action>, a: Action)
    requires
        settings_ok(s),
        legal_history(s, h),
        spec_check(s, h, a) is Ok,
    ensures
        legal_history(s, h.push(a)),
        h.push(a).drop_last() == h,
{
    assert(h.push(a).drop_last() =~= h);
}

/// Turns alternate strictly: after any action the turn passes to the
/// opponent.
pub proof fn lemma_turn_alternates(n: int)
    requires
        n >= 0,
    ensures
        turn_at(n + 1) == turn_at(n).spec_other(),
        turn_at(n + 1) != turn_at(n),
{
}

} // verus!
