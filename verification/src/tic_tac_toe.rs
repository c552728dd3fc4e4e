//! The tic-tac-toe rule set: a fixed 3×3 board, two players in strict
//! alternation, win detection over the eight lines, and draw detection on a
//! full board. A game state is its move history; every derived quantity
//! (board contents, turn, status) is a pure function of that history.

use crate::codec::{parse_text, render_text, text_of, DecodeError};
use vstd::arithmetic::div_mod::{lemma_fundamental_div_mod, lemma_fundamental_div_mod_converse};
use vstd::prelude::*;

verus! {

/// The two tic-tac-toe players. `X` moves first.
#[derive(Clone, Copy, PartialEq, Eq, Structural, Debug, Hash)]
pub enum Player {
    X,
    O,
}

impl Player {
    /// The opponent of `self`.
    pub open spec fn spec_other(self) -> Player {
        match self {
            Player::X => Player::O,
            Player::O => Player::X,
        }
    }

    /// Returns the opponent of `self`.
    pub fn other(self) -> (r: Player)
        ensures
            r == self.spec_other(),
    {
        match self {
            Player::X => Player::O,
            Player::O => Player::X,
        }
    }
}

/// A column of the 3×3 board.
#[derive(Clone, Copy, PartialEq, Eq, Structural, Debug, Hash)]
pub enum Col {
    Col0,
    Col1,
    Col2,
}

/// A row of the 3×3 board.
#[derive(Clone, Copy, PartialEq, Eq, Structural, Debug, Hash)]
pub enum Row {
    Row0,
    Row1,
    Row2,
}

impl Col {
    /// The column number, in `0..3`.
    pub open spec fn as_int(self) -> int {
        match self {
            Col::Col0 => 0,
            Col::Col1 => 1,
            Col::Col2 => 2,
        }
    }

    /// Returns the column number, in `0..3`.
    pub fn to_u8(self) -> (r: u8)
        ensures
            r == self.as_int(),
    {
        match self {
            Col::Col0 => 0,
            Col::Col1 => 1,
            Col::Col2 => 2,
        }
    }

    /// Returns the column with number `v`, or `None` for a number off the
    /// board.
    pub fn from_u8(v: u8) -> (r: Option<Col>)
        ensures
            r is Some <==> v < 3,
            r matches Some(c) ==> c.as_int() == v,
    {
        match v {
            0 => Some(Col::Col0),
            1 => Some(Col::Col1),
            2 => Some(Col::Col2),
            _ => None,
        }
    }
}

impl Row {
    /// The row number, in `0..3`.
    pub open spec fn as_int(self) -> int {
        match self {
            Row::Row0 => 0,
            Row::Row1 => 1,
            Row::Row2 => 2,
        }
    }

    /// Returns the row number, in `0..3`.
    pub fn to_u8(self) -> (r: u8)
        ensures
            r == self.as_int(),
    {
        match self {
            Row::Row0 => 0,
            Row::Row1 => 1,
            Row::Row2 => 2,
        }
    }

    /// Returns the row with number `v`, or `None` for a number off the board.
    pub fn from_u8(v: u8) -> (r: Option<Row>)
        ensures
            r is Some <==> v < 3,
            r matches Some(w) ==> w.as_int() == v,
    {
        match v {
            0 => Some(Row::Row0),
            1 => Some(Row::Row1),
            2 => Some(Row::Row2),
            _ => None,
        }
    }
}

/// A cell of the 3×3 board.
#[derive(Clone, Copy, PartialEq, Eq, Structural, Debug, Hash)]
pub struct Position {
    pub col: Col,
    pub row: Row,
}

impl Position {
    /// The cell in column `col` and row `row`, or `None` if either number is
    /// off the board.
    pub fn from_ints(col: u8, row: u8) -> (r: Option<Position>)
        ensures
            r is Some <==> (col < 3 && row < 3),
            r matches Some(p) ==> p.col.as_int() == col && p.row.as_int() == row,
    {
        match (Col::from_u8(col), Row::from_u8(row)) {
            (Some(c), Some(w)) => Some(Position { col: c, row: w }),
            _ => None,
        }
    }

    /// Returns the (column, row) numbers of the cell.
    pub fn to_ints(self) -> (r: (u8, u8))
        ensures
            r.0 == self.col.as_int(),
            r.1 == self.row.as_int(),
    {
        (self.col.to_u8(), self.row.to_u8())
    }

    /// The cell's index in column-major order, in `0..9`.
    pub open spec fn code(self) -> int {
        self.col.as_int() * 3 + self.row.as_int()
    }
}

/// One move: a player claiming a cell.
#[derive(Clone, Copy, PartialEq, Eq, Structural, Debug, Hash)]
pub struct Move {
    pub player: Player,
    pub position: Position,
}

/// Why a proposed move is illegal.
#[derive(Clone, Copy, PartialEq, Eq, Structural, Debug, Hash)]
pub enum Error {
    /// The cell is already claimed.
    SpaceIsTaken,
    /// It is the other player's turn.
    OtherPlayerTurn,
}

/// The player to move after `n` moves have been played: `X` on even counts,
/// `O` on odd ones.
pub open spec fn turn_at(n: int) -> Player {
    if n % 2 == 0 {
        Player::X
    } else {
        Player::O
    }
}

/// The owner of cell `p` after playing out `h`: the player of the one move
/// that claimed `p`, if any.
pub open spec fn cell_of(h: Seq<Move>, p: Position) -> Option<Player>
    decreases h.len(),
{
    if h.len() == 0 {
        None
    } else if h.last().position == p {
        Some(h.last().player)
    } else {
        cell_of(h.drop_last(), p)
    }
}

/// Whether `mv` may be played after `h`: it must be `mv.player`'s turn and
/// the cell must be empty. On failure, the error names the first violated
/// rule, turn order before cell occupancy.
pub open spec fn spec_check(h: Seq<Move>, mv: Move) -> Result<(), Error> {
    if mv.player != turn_at(h.len() as int) {
        Err(Error::OtherPlayerTurn)
    } else if cell_of(h, mv.position) is Some {
        Err(Error::SpaceIsTaken)
    } else {
        Ok(())
    }
}

/// Whether `h` is a playable history: every move was legal when it was made.
pub open spec fn legal_history(h: Seq<Move>) -> bool
    decreases h.len(),
{
    h.len() == 0 || (legal_history(h.drop_last()) && spec_check(h.drop_last(), h.last()) is Ok)
}

/// The state of one tic-tac-toe game: the history of moves played so far.
/// States are immutable values; applying a move returns a new state.
#[derive(Debug)]
pub struct GameState {
    history: Vec<Move>,
}

impl View for GameState {
    type V = Seq<Move>;

    closed spec fn view(&self) -> Seq<Move> {
        self.history@
    }
}

/// Copies a move list element by element.
fn copy_moves(moves: &Vec<Move>, upto: usize) -> (r: Vec<Move>)
    requires
        upto <= moves@.len(),
    ensures
        r@ == moves@.take(upto as int),
{
    let mut out: Vec<Move> = Vec::new();
    let mut i: usize = 0;
    while i < upto
        invariant
            i <= upto <= moves@.len(),
            out@ == moves@.take(i as int),
        decreases upto - i,
    {
        out.push(moves[i]);
        proof {
            assert(out@ =~= moves@.take(i + 1));
        }
        i += 1;
    }
    out
}

impl Clone for GameState {
    /// Returns an independent copy with identical behaviour; the two states
    /// share no storage, so play on one never affects the other.
    fn clone(&self) -> (r: Self)
        ensures
            r@ == self@,
    {
        proof {
            use_type_invariant(self);
            assert(self.history@.take(self.history@.len() as int) =~= self.history@);
        }
        GameState { history: copy_moves(&self.history, self.history.len()) }
    }
}

/// Returns whether two move lists are equal.
fn moves_equal(a: &Vec<Move>, b: &Vec<Move>) -> (r: bool)
    ensures
        r == (a@ == b@),
{
    if a.len() != b.len() {
        return false;
    }
    let mut i: usize = 0;
    while i < a.len()
        invariant
            i <= a@.len(),
            a@.len() == b@.len(),
            forall|j: int| 0 <= j < i ==> a@[j] == b@[j],
        decreases a@.len() - i,
    {
        if !(a[i] == b[i]) {
            return false;
        }
        i += 1;
    }
    proof {
        assert(a@ =~= b@);
    }
    true
}

impl PartialEq for GameState {
    /// Two states are behaviourally equal exactly when their histories are.
    fn eq(&self, other: &GameState) -> (r: bool) {
        moves_equal(&self.history, &other.history)
    }
}

impl vstd::std_specs::cmp::PartialEqSpecImpl for GameState {
    open spec fn obeys_eq_spec() -> bool {
        true
    }

    open spec fn eq_spec(&self, other: &GameState) -> bool {
        self@ == other@
    }
}

impl GameState {
    #[verifier::type_invariant]
    spec fn wf(self) -> bool {
        legal_history(self.history@)
    }

    /// Returns the empty game: no moves played, `X` to move.
    pub fn new() -> (r: GameState)
        ensures
            r@ == Seq::<Move>::empty(),
    {
        GameState { history: Vec::new() }
    }

    /// Returns the player whose turn it is.
    pub fn whose_turn(&self) -> (r: Player)
        ensures
            r == turn_at(self@.len() as int),
    {
        if self.history.len() % 2 == 0 {
            Player::X
        } else {
            Player::O
        }
    }

    /// Returns a copy of the move history, in application order.
    pub fn history(&self) -> (r: Vec<Move>)
        ensures
            r@ == self@,
    {
        let r = copy_moves(&self.history, self.history.len());
        proof {
            assert(self.history@.take(self.history@.len() as int) =~= self.history@);
        }
        r
    }

    /// Returns the owner of cell `p`, if any.
    pub fn cell(&self, p: Position) -> (r: Option<Player>)
        ensures
            r == cell_of(self@, p),
    {
        let mut i: usize = self.history.len();
        proof {
            assert(self.history@.take(i as int) =~= self.history@);
        }
        while i > 0
            invariant
                i <= self.history@.len(),
                cell_of(self@, p) == cell_of(self.history@.take(i as int), p),
            decreases i,
        {
            let mv = self.history[i - 1];
            proof {
                assert(self.history@.take(i as int).last() == mv);
                assert(self.history@.take(i as int).drop_last() =~= self.history@.take(i - 1));
            }
            if mv.position == p {
                return Some(mv.player);
            }
            i -= 1;
        }
        None
    }

    /// Applies one move, returning the successor state without touching
    /// `self`. Fails with `OtherPlayerTurn` if it is not `mv.player`'s turn,
    /// and with `SpaceIsTaken` if the cell is already claimed.
    pub fn apply_action(&self, mv: Move) -> (r: Result<GameState, Error>)
        ensures
            (r is Ok) == (spec_check(self@, mv) is Ok),
            r matches Ok(g) ==> g@ == self@.push(mv),
            r matches Err(e) ==> spec_check(self@, mv) == Err::<(), Error>(e),
    {
        if mv.player != self.whose_turn() {
            return Err(Error::OtherPlayerTurn);
        }
        if self.cell(mv.position).is_some() {
            return Err(Error::SpaceIsTaken);
        }
        let mut history = copy_moves(&self.history, self.history.len());
        history.push(mv);
        proof {
            use_type_invariant(self);
            assert(self.history@.take(self.history@.len() as int) =~= self.history@);
            assert(history@.drop_last() =~= self.history@);
        }
        Ok(GameState { history })
    }

    /// Returns the state as it was before the most recent move, or `None` at
    /// the start of the game. The predecessor is rebuilt from the shortened
    /// history, never by patching derived state.
    pub fn undo(&self) -> (r: Option<GameState>)
        ensures
            self@.len() == 0 ==> r is None,
            self@.len() > 0 ==> (r matches Some(g) && g@ == self@.drop_last()),
    {
        if self.history.len() == 0 {
            return None;
        }
        let history = copy_moves(&self.history, self.history.len() - 1);
        proof {
            use_type_invariant(self);
            assert(self.history@.take(self.history@.len() - 1) =~= self.history@.drop_last());
        }
        Some(GameState { history })
    }
}

/// The column with number `c` (meaningful for `0 <= c < 3`).
pub open spec fn col_at(c: int) -> Col {
    if c == 0 {
        Col::Col0
    } else if c == 1 {
        Col::Col1
    } else {
        Col::Col2
    }
}

/// The row with number `w` (meaningful for `0 <= w < 3`).
pub open spec fn row_at(w: int) -> Row {
    if w == 0 {
        Row::Row0
    } else if w == 1 {
        Row::Row1
    } else {
        Row::Row2
    }
}

/// The cell in column `c` and row `w`.
pub open spec fn pos_at(c: int, w: int) -> Position {
    Position { col: col_at(c), row: row_at(w) }
}

/// The cell with column-major index `k`, inverse of `Position::code`.
pub open spec fn pos_of_code(k: int) -> Position {
    pos_at(k / 3, k % 3)
}

/// The game's outcome so far.
#[derive(Clone, Copy, PartialEq, Eq, Debug)]
pub enum Status {
    /// Moves are still being played.
    InProgress,
    /// All nine cells are claimed and no line is complete.
    Draw,
    /// `player` completed the line through `positions`.
    Win { player: Player, positions: (Position, Position, Position) },
}

/// The three cells of line `i`, for `0 <= i < 8`: the three columns, then
/// the three rows, then the two diagonals.
pub open spec fn line_positions(i: int) -> (Position, Position, Position) {
    if i == 0 {
        (pos_at(0, 0), pos_at(0, 1), pos_at(0, 2))
    } else if i == 1 {
        (pos_at(1, 0), pos_at(1, 1), pos_at(1, 2))
    } else if i == 2 {
        (pos_at(2, 0), pos_at(2, 1), pos_at(2, 2))
    } else if i == 3 {
        (pos_at(0, 0), pos_at(1, 0), pos_at(2, 0))
    } else if i == 4 {
        (pos_at(0, 1), pos_at(1, 1), pos_at(2, 1))
    } else if i == 5 {
        (pos_at(0, 2), pos_at(1, 2), pos_at(2, 2))
    } else if i == 6 {
        (pos_at(0, 0), pos_at(1, 1), pos_at(2, 2))
    } else {
        (pos_at(0, 2), pos_at(1, 1), pos_at(2, 0))
    }
}

/// The player owning all three cells of line `i` after `h`, if any.
pub open spec fn line_owner(h: Seq<Move>, i: int) -> Option<Player> {
    let (a, b, c) = line_positions(i);
    if cell_of(h, a) is Some && cell_of(h, b) == cell_of(h, a) && cell_of(h, c) == cell_of(h, a) {
        cell_of(h, a)
    } else {
        None
    }
}

/// The first complete line with index at least `i`, if any.
pub open spec fn first_win(h: Seq<Move>, i: int) -> Option<int>
    decreases 8 - i,
{
    if i >= 8 {
        None
    } else if line_owner(h, i) is Some {
        Some(i)
    } else {
        first_win(h, i + 1)
    }
}

/// The status after playing out `h`: the first complete line wins for its
/// owner; a full board with no complete line is a draw; otherwise the game
/// is in progress.
pub open spec fn spec_status(h: Seq<Move>) -> Status {
    match first_win(h, 0) {
        Some(i) => Status::Win {
            player: line_owner(h, i).unwrap(),
            positions: line_positions(i),
        },
        None => if h.len() == 9 {
            Status::Draw
        } else {
            Status::InProgress
        },
    }
}

/// The empty cells after `h`, in ascending column-major order, restricted to
/// cell indices below `n`.
pub open spec fn avail_upto(h: Seq<Move>, n: int) -> Seq<Position>
    decreases n,
{
    if n <= 0 {
        Seq::empty()
    } else {
        avail_upto(h, n - 1) + (if cell_of(h, pos_of_code(n - 1)) is None {
            seq![pos_of_code(n - 1)]
        } else {
            Seq::<Position>::empty()
        })
    }
}

/// The empty cells after `h`, in ascending column-major order.
pub open spec fn spec_available(h: Seq<Move>) -> Seq<Position> {
    avail_upto(h, 9)
}

/// The given cells as moves of player `pl`, in the same order.
pub open spec fn moves_for(ps: Seq<Position>, pl: Player) -> Seq<Move> {
    ps.map_values(|p: Position| Move { player: pl, position: p })
}

/// If no line below `i` is complete, the first winning line overall is the
/// first winning line at or above `i`.
proof fn lemma_first_win_from(h: Seq<Move>, i: int)
    requires
        0 <= i <= 8,
        forall|j: int| 0 <= j < i ==> line_owner(h, j) is None,
    ensures
        first_win(h, 0) == first_win(h, i),
    decreases i,
{
    if i > 0 {
        lemma_first_win_from(h, i - 1);
    }
}

/// Returns the three cells of line `i`.
fn line_cells(i: u8) -> (r: (Position, Position, Position))
    requires
        i < 8,
    ensures
        r == line_positions(i as int),
{
    match i {
        0 => (cell_at(0, 0), cell_at(0, 1), cell_at(0, 2)),
        1 => (cell_at(1, 0), cell_at(1, 1), cell_at(1, 2)),
        2 => (cell_at(2, 0), cell_at(2, 1), cell_at(2, 2)),
        3 => (cell_at(0, 0), cell_at(1, 0), cell_at(2, 0)),
        4 => (cell_at(0, 1), cell_at(1, 1), cell_at(2, 1)),
        5 => (cell_at(0, 2), cell_at(1, 2), cell_at(2, 2)),
        6 => (cell_at(0, 0), cell_at(1, 1), cell_at(2, 2)),
        _ => (cell_at(0, 2), cell_at(1, 1), cell_at(2, 0)),
    }
}

/// Returns the cell in column `c` and row `w`.
fn cell_at(c: u8, w: u8) -> (r: Position)
    requires
        c < 3,
        w < 3,
    ensures
        r == pos_at(c as int, w as int),
{
    Position { col: Col::from_u8(c).unwrap(), row: Row::from_u8(w).unwrap() }
}

impl GameState {
    /// Returns the game's status: the first complete line wins for its
    /// owner, a full board with no complete line is a draw, and otherwise
    /// the game is in progress.
    pub fn status(&self) -> (r: Status)
        ensures
            r == spec_status(self@),
    {
        let mut i: u8 = 0;
        while i < 8
            invariant
                i <= 8,
                forall|j: int| 0 <= j < i ==> line_owner(self@, j) is None,
            decreases 8 - i,
        {
            let (a, b, c) = line_cells(i);
            let ca = self.cell(a);
            let cb = self.cell(b);
            let cc = self.cell(c);
            match (ca, cb, cc) {
                (Some(x), Some(y), Some(z)) => {
                    if x == y && y == z {
                        proof {
                            lemma_first_win_from(self@, i as int);
                            assert(line_owner(self@, i as int) == Some(x));
                        }
                        return Status::Win { player: x, positions: (a, b, c) };
                    }
                },
                _ => {},
            }
            proof {
                assert(line_owner(self@, i as int) is None);
            }
            i += 1;
        }
        proof {
            lemma_first_win_from(self@, 8);
        }
        if self.history.len() == 9 {
            Status::Draw
        } else {
            Status::InProgress
        }
    }

    /// Returns the board as three columns of three cells, indexed by column
    /// then row.
    pub fn board(&self) -> (r: Vec<Vec<Option<Player>>>)
        ensures
            r@.len() == 3,
            forall|c: int| 0 <= c < 3 ==> (#[trigger] r@[c])@.len() == 3,
            forall|c: int, w: int|
                #![trigger r@[c]@[w]]
                0 <= c < 3 && 0 <= w < 3 ==> r@[c]@[w] == cell_of(self@, pos_at(c, w)),
    {
        let mut out: Vec<Vec<Option<Player>>> = Vec::new();
        let mut c: u8 = 0;
        while c < 3
            invariant
                c <= 3,
                out@.len() == c,
                forall|ci: int| 0 <= ci < c ==> (#[trigger] out@[ci])@.len() == 3,
                forall|ci: int, w: int|
                    #![trigger out@[ci]@[w]]
                    0 <= ci < c && 0 <= w < 3 ==> out@[ci]@[w] == cell_of(self@, pos_at(ci, w)),
            decreases 3 - c,
        {
            let mut column: Vec<Option<Player>> = Vec::new();
            let mut w: u8 = 0;
            while w < 3
                invariant
                    w <= 3,
                    c < 3,
                    column@.len() == w,
                    forall|wi: int|
                        0 <= wi < w ==> column@[wi] == cell_of(self@, pos_at(c as int, wi)),
                decreases 3 - w,
            {
                column.push(self.cell(cell_at(c, w)));
                w += 1;
            }
            out.push(column);
            c += 1;
        }
        out
    }

    /// Returns the empty cells, in ascending column-major order.
    pub fn available(&self) -> (r: Vec<Position>)
        ensures
            r@ == spec_available(self@),
    {
        let mut out: Vec<Position> = Vec::new();
        let mut k: u8 = 0;
        while k < 9
            invariant
                k <= 9,
                out@ == avail_upto(self@, k as int),
            decreases 9 - k,
        {
            proof {
                lemma_fundamental_div_mod(k as int, 3);
            }
            let p = cell_at(k / 3, k % 3);
            if self.cell(p).is_none() {
                out.push(p);
            }
            k += 1;
        }
        out
    }

    /// Returns every move legal in the current state, in ascending
    /// column-major order of target cell: the current player on each empty
    /// cell while the game is in progress, and nothing once it has ended.
    pub fn valid_actions(&self) -> (r: Vec<Move>)
        ensures
            spec_status(self@) is InProgress ==> r@ == moves_for(
                spec_available(self@),
                turn_at(self@.len() as int),
            ),
            !(spec_status(self@) is InProgress) ==> r@ == Seq::<Move>::empty(),
    {
        match self.status() {
            Status::InProgress => {
                let avail = self.available();
                let me = self.whose_turn();
                let mut out: Vec<Move> = Vec::new();
                let mut i: usize = 0;
                while i < avail.len()
                    invariant
                        i <= avail@.len(),
                        out@ == moves_for(avail@.take(i as int), me),
                    decreases avail@.len() - i,
                {
                    out.push(Move { player: me, position: avail[i] });
                    proof {
                        assert(out@ =~= moves_for(avail@.take(i + 1), me));
                    }
                    i += 1;
                }
                proof {
                    assert(avail@.take(avail@.len() as int) =~= avail@);
                }
                out
            },
            _ => Vec::new(),
        }
    }
}

/// The binary encoding of a history: one byte per move, the column-major
/// cell index of the move's target. The mover is implied by strict
/// alternation, so it is not stored.
pub open spec fn spec_encode(h: Seq<Move>) -> Seq<u8> {
    Seq::new(h.len(), |i: int| h[i].position.code() as u8)
}

/// Cell codes identify cells.
proof fn lemma_code_injective(p1: Position, p2: Position)
    requires
        p1.code() == p2.code(),
    ensures
        p1 == p2,
{
}

/// Every prefix of a playable history is playable.
pub proof fn lemma_legal_take(h: Seq<Move>, j: int)
    requires
        legal_history(h),
        0 <= j <= h.len(),
    ensures
        legal_history(h.take(j)),
    decreases h.len(),
{
    if j == h.len() {
        assert(h.take(j) =~= h);
    } else {
        lemma_legal_take(h.drop_last(), j);
        assert(h.drop_last().take(j) =~= h.take(j));
    }
}

/// Returns the cell with column-major index `b`.
fn position_from_code(b: u8) -> (r: Position)
    requires
        b < 9,
    ensures
        r == pos_of_code(b as int),
        r.code() == b,
{
    proof {
        lemma_fundamental_div_mod(b as int, 3);
    }
    cell_at(b / 3, b % 3)
}

impl GameState {
    /// Returns the compact binary encoding of the state: one byte per move.
    pub fn to_binary(&self) -> (r: Vec<u8>)
        ensures
            r@ == spec_encode(self@),
            legal_history(self@),
    {
        proof {
            use_type_invariant(self);
        }
        let mut out: Vec<u8> = Vec::new();
        let mut i: usize = 0;
        while i < self.history.len()
            invariant
                i <= self.history@.len(),
                out@ == spec_encode(self.history@.take(i as int)),
            decreases self.history@.len() - i,
        {
            let (c, w) = self.history[i].position.to_ints();
            out.push(c * 3 + w);
            proof {
                assert(out@ =~= spec_encode(self.history@.take(i + 1)));
            }
            i += 1;
        }
        proof {
            assert(self.history@.take(self.history@.len() as int) =~= self.history@);
        }
        out
    }

    /// Decodes a binary payload. Exactly the canonical encodings of
    /// reachable states are accepted: decoding what `to_binary` produced
    /// yields an equal state, and any accepted payload re-encodes to itself.
    pub fn from_binary(bytes: &Vec<u8>) -> (r: Result<GameState, DecodeError>)
        ensures
            r matches Ok(g) ==> spec_encode(g@) == bytes@ && legal_history(g@),
            forall|h: Seq<Move>|
                legal_history(h) && bytes@ == spec_encode(h) ==> (r matches Ok(g) && g@ == h),
    {
        let mut g = GameState::new();
        let mut i: usize = 0;
        while i < bytes.len()
            invariant
                i <= bytes@.len(),
                spec_encode(g@) == bytes@.take(i as int),
                legal_history(g@),
                forall|h: Seq<Move>|
                    legal_history(h) && bytes@ == spec_encode(h) ==> i <= h.len() && g@ == h.take(
                        i as int,
                    ),
            decreases bytes@.len() - i,
        {
            let b = bytes[i];
            if b >= 9 {
                proof {
                    assert forall|h: Seq<Move>|
                        legal_history(h) && bytes@ == spec_encode(h) implies false by {
                        assert(bytes@[i as int] == h[i as int].position.code() as u8);
                    }
                }
                return Err(DecodeError::Malformed);
            }
            let p = position_from_code(b);
            let mv = Move { player: g.whose_turn(), position: p };
            proof {
                assert forall|h: Seq<Move>|
                    legal_history(h) && bytes@ == spec_encode(h) implies h[i as int] == mv
                    && spec_check(g@, mv) is Ok by {
                    lemma_legal_take(h, i + 1);
                    assert(h.take(i + 1).drop_last() =~= h.take(i as int));
                    assert(h.take(i + 1).last() == h[i as int]);
                    assert(bytes@[i as int] == h[i as int].position.code() as u8);
                    lemma_code_injective(h[i as int].position, p);
                }
            }
            match g.apply_action(mv) {
                Ok(g2) => {
                    proof {
                        assert(spec_encode(g@).len() == bytes@.take(i as int).len());
                        assert(g@.len() == i);
                        assert(g2@.drop_last() =~= g@);
                        assert(legal_history(g2@));
                        assert forall|j: int| 0 <= j < i + 1 implies spec_encode(g2@)[j]
                            == bytes@.take(i + 1)[j] by {
                            if j < i {
                                assert(spec_encode(g@)[j] == bytes@.take(i as int)[j]);
                            } else {
                                assert(g2@[j] == mv);
                            }
                        }
                        assert(spec_encode(g2@) =~= bytes@.take(i + 1));
                        assert forall|h: Seq<Move>|
                            legal_history(h) && bytes@ == spec_encode(h) implies i + 1 <= h.len()
                            && g2@ == h.take(i + 1) by {
                            assert(g2@ =~= h.take(i + 1));
                        }
                    }
                    g = g2;
                },
                Err(_) => {
                    return Err(DecodeError::Malformed);
                },
            }
            i += 1;
        }
        proof {
            assert(bytes@.take(bytes@.len() as int) =~= bytes@);
            assert forall|h: Seq<Move>|
                legal_history(h) && bytes@ == spec_encode(h) implies g@ == h by {
                assert(g@ =~= h.take(h.len() as int));
                assert(h.take(h.len() as int) =~= h);
            }
        }
        Ok(g)
    }

    /// Returns the text encoding of the state: each byte of the binary form
    /// rendered as three decimal digits and a space.
    pub fn to_text(&self) -> (r: Vec<u8>)
        ensures
            r@ == text_of(spec_encode(self@)),
            legal_history(self@),
    {
        let b = self.to_binary();
        render_text(&b)
    }

    /// Decodes a text payload; the counterpart of `to_text`, accepting
    /// exactly the canonical renderings of reachable states.
    pub fn from_text(t: &Vec<u8>) -> (r: Result<GameState, DecodeError>)
        ensures
            r matches Ok(g) ==> text_of(spec_encode(g@)) == t@ && legal_history(g@),
            forall|h: Seq<Move>|
                legal_history(h) && t@ == text_of(spec_encode(h)) ==> (r matches Ok(g) && g@ == h),
    {
        match parse_text(t) {
            Ok(b) => GameState::from_binary(&b),
            Err(e) => Err(e),
        }
    }
}

/// How many of the cells with column-major index below `n` are claimed
/// after `h`.
pub open spec fn claimed_upto(h: Seq<Move>, n: int) -> int
    decreases n,
{
    if n <= 0 {
        0
    } else {
        claimed_upto(h, n - 1) + (if cell_of(h, pos_of_code(n - 1)) is Some {
            1int
        } else {
            0int
        })
    }
}

/// No cells are claimed before the first move.
proof fn lemma_claimed_empty(n: int)
    ensures
        claimed_upto(Seq::<Move>::empty(), n) == 0,
    decreases n,
{
    if n > 0 {
        lemma_claimed_empty(n - 1);
    }
}

/// At most `n` of the first `n` cells are claimed.
proof fn lemma_claimed_bound(h: Seq<Move>, n: int)
    ensures
        0 <= claimed_upto(h, n),
        claimed_upto(h, n) <= n || n < 0,
    decreases n,
{
    if n > 0 {
        lemma_claimed_bound(h, n - 1);
    }
}

/// A move onto an empty cell claims exactly one more cell.
proof fn lemma_claimed_push(h: Seq<Move>, mv: Move, n: int)
    requires
        0 <= n <= 9,
        cell_of(h, mv.position) is None,
    ensures
        claimed_upto(h.push(mv), n) == claimed_upto(h, n) + (if mv.position.code() < n {
            1int
        } else {
            0int
        }),
    decreases n,
{
    if n > 0 {
        lemma_claimed_push(h, mv, n - 1);
        let p = pos_of_code(n - 1);
        lemma_fundamental_div_mod(n - 1, 3);
        assert(p.code() == n - 1);
        assert(h.push(mv).drop_last() =~= h);
        if p == mv.position {
            assert(mv.position.code() == n - 1);
        } else {
            assert(cell_of(h.push(mv), p) == cell_of(h, p));
            if mv.position.code() == n - 1 {
                lemma_code_injective(p, mv.position);
            }
        }
    }
}

/// In a playable history every move claims a fresh cell, so the number of
/// claimed cells is the history length — which therefore never exceeds the
/// nine cells of the board.
pub proof fn lemma_claimed_is_len(h: Seq<Move>)
    requires
        legal_history(h),
    ensures
        claimed_upto(h, 9) == h.len(),
        h.len() <= 9,
    decreases h.len(),
{
    if h.len() == 0 {
        lemma_claimed_empty(9);
        assert(h =~= Seq::<Move>::empty());
    } else {
        let hp = h.drop_last();
        let mv = h.last();
        lemma_claimed_is_len(hp);
        lemma_claimed_push(hp, mv, 9);
        assert(mv.position.code() < 9);
        assert(hp.push(mv) =~= h);
    }
    lemma_claimed_bound(h, 9);
}

/// Fewer claims than cells leaves some cell below `n` empty.
proof fn lemma_unclaimed_cell_exists(h: Seq<Move>, n: int)
    requires
        0 <= claimed_upto(h, n) < n,
    ensures
        exists|k: int| 0 <= k < n && cell_of(h, #[trigger] pos_of_code(k)) is None,
    decreases n,
{
    lemma_claimed_bound(h, n - 1);
    if cell_of(h, pos_of_code(n - 1)) is Some {
        lemma_unclaimed_cell_exists(h, n - 1);
    }
}

/// An empty cell below index `n` makes the availability enumeration
/// non-empty.
proof fn lemma_avail_nonempty_from(h: Seq<Move>, k: int, n: int)
    requires
        0 <= k < n,
        cell_of(h, pos_of_code(k)) is None,
    ensures
        avail_upto(h, n).len() > 0,
    decreases n,
{
    if n - 1 > k {
        lemma_avail_nonempty_from(h, k, n - 1);
    }
}

/// A game in progress always offers a move: some cell is still empty. The
/// converse guarantee — that a finished game offers none — is part of
/// `valid_actions`' contract.
pub proof fn lemma_in_progress_has_available(h: Seq<Move>)
    requires
        legal_history(h),
        spec_status(h) is InProgress,
    ensures
        spec_available(h).len() > 0,
{
    lemma_claimed_is_len(h);
    assert(h.len() < 9);
    lemma_unclaimed_cell_exists(h, 9);
    let k = choose|k: int| 0 <= k < 9 && cell_of(h, #[trigger] pos_of_code(k)) is None;
    lemma_avail_nonempty_from(h, k, 9);
}

/// Every cell the availability enumeration lists is empty.
proof fn lemma_avail_elements(h: Seq<Move>, n: int)
    ensures
        forall|j: int|
            0 <= j < avail_upto(h, n).len() ==> cell_of(h, #[trigger] avail_upto(h, n)[j])
                is None,
    decreases n,
{
    if n > 0 {
        lemma_avail_elements(h, n - 1);
        assert forall|j: int| 0 <= j < avail_upto(h, n).len() implies cell_of(
            h,
            #[trigger] avail_upto(h, n)[j],
        ) is None by {
            if j < avail_upto(h, n - 1).len() {
                assert(avail_upto(h, n)[j] == avail_upto(h, n - 1)[j]);
            } else {
                assert(avail_upto(h, n)[j] == pos_of_code(n - 1));
            }
        }
    }
}

/// Once an empty cell with index `k` has been passed, the enumeration
/// contains it.
proof fn lemma_avail_contains_from(h: Seq<Move>, k: int, n: int)
    requires
        0 <= k < n,
        cell_of(h, pos_of_code(k)) is None,
    ensures
        avail_upto(h, n).contains(pos_of_code(k)),
    decreases n,
{
    let q = pos_of_code(k);
    if n - 1 == k {
        assert(avail_upto(h, n).last() == q);
    } else {
        lemma_avail_contains_from(h, k, n - 1);
        let j = choose|j: int|
            0 <= j < avail_upto(h, n - 1).len() && (#[trigger] avail_upto(h, n - 1)[j]) == q;
        assert(avail_upto(h, n)[j] == q);
    }
}

/// The availability enumeration is sound and complete: it contains a cell
/// exactly when that cell is empty.
pub proof fn lemma_available_complete(h: Seq<Move>)
    ensures
        forall|p: Position| #[trigger] spec_available(h).contains(p) == (cell_of(h, p) is None),
{
    lemma_avail_elements(h, 9);
    assert forall|p: Position|
        #[trigger] spec_available(h).contains(p) == (cell_of(h, p) is None) by {
        if cell_of(h, p) is None {
            let k = p.code();
            lemma_fundamental_div_mod_converse(k, 3, p.col.as_int(), p.row.as_int());
            assert(pos_of_code(k) == p);
            lemma_avail_contains_from(h, k, 9);
        }
    }
}

/// Applying a move and then undoing it restores the starting state: undo
/// drops exactly the entry that the move appended.
pub proof fn lemma_apply_then_undo(h: Seq<Move>, mv: Move)
    requires
        legal_history(h),
        spec_check(h, mv) is Ok,
    ensures
        legal_history(h.push(mv)),
        h.push(mv).drop_last() == h,
{
    assert(h.push(mv).drop_last() =~= h);
}

/// Turns alternate strictly: after any move the turn passes to the opponent.
pub proof fn lemma_turn_alternates(n: int)
    requires
        n >= 0,
    ensures
        turn_at(n + 1) == turn_at(n).spec_other(),
        turn_at(n + 1) != turn_at(n),
{
}

} // verus!

