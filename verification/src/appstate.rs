use vstd::prelude::*;

use crate::feedback::valid_colorcode;
use crate::session::{ranked_words, SessionState, Solver};
use crate::words::{all_words, chars_to_string, WordPool};
use crate::WORD_LENGTH;

verus! {

/// Which part of the interface has the keyboard.
#[derive(Copy, Clone, PartialEq, Eq, Structural, Debug)]
pub enum CurrentScreen {
    Main,
    EditingTileChar,
    EditingTileColor,
    Exiting,
}

#[derive(PartialEq, Eq, Structural, Clone, Copy, Debug)]
pub enum CurrentlyEditing {
    TileChar,
    TileColor,
}

/// The color a tile shows: the feedback the user assigned, or none yet.
#[derive(PartialEq, Eq, Structural, Clone, Copy, Debug)]
pub enum TileColor {
    CorrectPlace,
    Absent,
    WrongPlace,
    Normal,
}

/// One cell of the board.
#[derive(PartialEq, Clone, Copy, Debug)]
pub struct Tile {
    pub character: char,
    pub color: TileColor,
    pub selected: bool,
    pub position: (usize, usize),
}

/// The board: six rows of five tiles.
pub struct TilesGrid {
    pub tiles: Vec<Vec<Tile>>,
}

pub const GRID_ROWS: usize = 6;

pub open spec fn grid_view(g: TilesGrid) -> Seq<Seq<Tile>> {
    Seq::new(g.tiles@.len(), |r: int| g.tiles@[r]@)
}

pub open spec fn grid_wf(g: TilesGrid) -> bool {
    g.tiles@.len() == GRID_ROWS && forall|r: int|
        0 <= r < GRID_ROWS ==> (#[trigger] g.tiles@[r])@.len() == WORD_LENGTH
}

/// The grid with one tile replaced.
pub open spec fn grid_upd(ts: Seq<Seq<Tile>>, r: int, c: int, t: Tile) -> Seq<Seq<Tile>> {
    ts.update(r, ts[r].update(c, t))
}

pub open spec fn with_selected(t: Tile, s: bool) -> Tile {
    Tile { selected: s, ..t }
}

pub open spec fn with_character(t: Tile, c: char) -> Tile {
    Tile { character: c, ..t }
}

pub open spec fn with_color(t: Tile, k: TileColor) -> Tile {
    Tile { color: k, ..t }
}

/// The grid after the selection moves: the old tile deselected, the new
/// one selected.
pub open spec fn moved_selection(
    ts: Seq<Seq<Tile>>,
    os: (usize, usize),
    ns: (usize, usize),
) -> Seq<Seq<Tile>> {
    let ts1 = grid_upd(
        ts,
        os.0 as int,
        os.1 as int,
        with_selected(ts[os.0 as int][os.1 as int], false),
    );
    grid_upd(ts1, ns.0 as int, ns.1 as int, with_selected(ts1[ns.0 as int][ns.1 as int], true))
}

impl TilesGrid {
    /// The tile at one position.
    fn at(&self, r: usize, c: usize) -> (t: Tile)
        requires
            grid_wf(*self),
            r < GRID_ROWS,
            c < WORD_LENGTH,
        ensures
            t == grid_view(*self)[r as int][c as int],
    {
        let row = &self.tiles[r];
        row[c]
    }

    /// The grid with one tile replaced.
    fn put(&mut self, r: usize, c: usize, t: Tile)
        requires
            grid_wf(*old(self)),
            r < GRID_ROWS,
            c < WORD_LENGTH,
        ensures
            grid_wf(*final(self)),
            grid_view(*final(self)) == grid_upd(grid_view(*old(self)), r as int, c as int, t),
    {
        let mut row = self.tiles[r].clone();
        proof {
            assert(row@ =~= self.tiles@[r as int]@);
        }
        row.set(c, t);
        self.tiles.set(r, row);
        proof {
            assert(grid_view(*self) =~= grid_upd(grid_view(*old(self)), r as int, c as int, t));
        }
    }
}

/// What polling the background ranking brings: a finished list, nothing
/// yet, or a worker that went away without answering.
pub enum PollOutcome {
    Ready(Vec<String>),
    Pending,
    Lost,
}

/// What a background worker is asked to do: rank this candidate list.
pub struct WorkRequest {
    pub candidates: Vec<String>,
}

impl WorkRequest {
    /// The work itself, done off the interface thread: the candidates
    /// ranked by expected information gain, best first.
    pub fn compute(&self) -> (r: Vec<String>)
        requires
            all_words(self.candidates@),
        ensures
            r@ == ranked_words(self.candidates@),
    {
        let ranked = crate::entropy::rank(&self.candidates);
        let n = ranked.len();
        let mut r: Vec<String> = Vec::new();
        let mut i: usize = 0;
        while i < n
            invariant
                0 <= i <= n,
                n == ranked@.len(),
                ranked@ == crate::entropy::spec_rank(self.candidates@),
                r@ =~= ranked_words(self.candidates@).take(i as int),
            decreases n - i,
        {
            r.push(ranked[i].0.clone());
            proof {
                assert(r@ =~= ranked_words(self.candidates@).take(i as int + 1));
            }
            i = i + 1;
        }
        proof {
            assert(r@ =~= ranked_words(self.candidates@));
        }
        r
    }
}

/// The interactive session: the board, the selection, which screen has the
/// keyboard, the solver of the game, and the state of the one background
/// ranking that may be outstanding.
pub struct App {
    pub is_solving: bool,
    pub tiles_grid: TilesGrid,
    pub selected_tile: (usize, usize),
    pub current_screen: CurrentScreen,
    pub currently_editing: Option<CurrentlyEditing>,
    pub next_possible_words: Vec<String>,
    pub solver: Solver,
}

impl App {
    pub open spec fn wf(&self) -> bool {
        &&& grid_wf(self.tiles_grid)
        &&& self.selected_tile.0 < GRID_ROWS
        &&& self.selected_tile.1 < WORD_LENGTH
        &&& self.solver.wf()
    }

    /// A fresh board over the given pool: blank uncolored tiles, the
    /// selection at the top left, the main screen, no outstanding work.
    pub fn new(pool: &WordPool) -> (app: App)
        requires
            pool.wf(),
        ensures
            app.wf(),
            app.is_solving == false,
            app.selected_tile == (0usize, 0usize),
            app.current_screen == CurrentScreen::Main,
            app.currently_editing is None,
            app.next_possible_words@.len() == 0,
            app.solver.state == SessionState::AwaitingGuess,
            app.solver.store@ == Seq::<crate::constraints::Constraint>::empty(),
            app.solver.previous_words@ == Seq::<(String, String)>::empty(),
            app.solver.words@ == pool.words@,
            app.solver.pool_words@ == pool.words@,
            app.solver.word_frequencies@ == pool.letter_frequencies@,
            app.solver.round == 0,
            forall|r: int, c: int|
                0 <= r < GRID_ROWS && 0 <= c < WORD_LENGTH ==> grid_view(app.tiles_grid)[r][c]
                    == (Tile {
                    character: ' ',
                    color: TileColor::Normal,
                    selected: false,
                    position: (r as usize, c as usize),
                }),
    {
        let mut tiles: Vec<Vec<Tile>> = Vec::new();
        let mut r: usize = 0;
        while r < GRID_ROWS
            invariant
                0 <= r <= GRID_ROWS,
                tiles@.len() == r,
                forall|i: int| 0 <= i < r ==> (#[trigger] tiles@[i])@.len() == WORD_LENGTH,
                forall|i: int, j: int|
                    0 <= i < r && 0 <= j < WORD_LENGTH ==> (#[trigger] tiles@[i]@[j]) == (Tile {
                        character: ' ',
                        color: TileColor::Normal,
                        selected: false,
                        position: (i as usize, j as usize),
                    }),
            decreases GRID_ROWS - r,
        {
            let mut row: Vec<Tile> = Vec::new();
            let mut c: usize = 0;
            while c < WORD_LENGTH
                invariant
                    0 <= c <= WORD_LENGTH,
                    row@.len() == c,
                    forall|j: int|
                        0 <= j < c ==> row@[j] == (Tile {
                            character: ' ',
                            color: TileColor::Normal,
                            selected: false,
                            position: (r as usize, j as usize),
                        }),
                decreases WORD_LENGTH - c,
            {
                row.push(
                    Tile {
                        character: ' ',
                        color: TileColor::Normal,
                        selected: false,
                        position: (r, c),
                    },
                );
                c = c + 1;
            }
            tiles.push(row);
            r = r + 1;
        }
        App {
            is_solving: false,
            tiles_grid: TilesGrid { tiles },
            selected_tile: (0, 0),
            current_screen: CurrentScreen::Main,
            currently_editing: None,
            next_possible_words: Vec::new(),
            solver: Solver::new(pool),
        }
    }

    /// Moves the selection to the given tile, if it lies on the board:
    /// the old tile is deselected, the new one selected. Off the board,
    /// nothing changes.
    pub fn update_selected_tile(&mut self, nrow: usize, ncol: usize)
        requires
            old(self).wf(),
        ensures
            final(self).wf(),
            nrow < GRID_ROWS && ncol < WORD_LENGTH ==> final(self).selected_tile == (nrow, ncol)
                && grid_view(final(self).tiles_grid) == moved_selection(
                grid_view(old(self).tiles_grid),
                old(self).selected_tile,
                (nrow, ncol),
            ),
            !(nrow < GRID_ROWS && ncol < WORD_LENGTH) ==> *final(self) == *old(self),
            final(self).is_solving == old(self).is_solving,
            final(self).current_screen == old(self).current_screen,
            final(self).currently_editing == old(self).currently_editing,
            final(self).next_possible_words@ == old(self).next_possible_words@,
            final(self).solver == old(self).solver,
    {
        if nrow < GRID_ROWS && ncol < WORD_LENGTH {
            let (row, col) = self.selected_tile;
            let old_t = self.tiles_grid.at(row, col);
            self.tiles_grid.put(row, col, Tile { selected: false, ..old_t });
            let new_t = self.tiles_grid.at(nrow, ncol);
            self.tiles_grid.put(nrow, ncol, Tile { selected: true, ..new_t });
            self.selected_tile = (nrow, ncol);
        }
    }

    /// Writes a letter into the selected tile and steps the selection one
    /// column right, except in the last column.
    pub fn insert_char(&mut self, c: char)
        requires
            old(self).wf(),
        ensures
            final(self).wf(),
            grid_view(final(self).tiles_grid) == (if old(self).selected_tile.1 < WORD_LENGTH - 1 {
                moved_selection(
                    grid_upd(
                        grid_view(old(self).tiles_grid),
                        old(self).selected_tile.0 as int,
                        old(self).selected_tile.1 as int,
                        with_character(
                            grid_view(old(self).tiles_grid)[old(self).selected_tile.0 as int][old(
                                self,
                            ).selected_tile.1 as int],
                            c,
                        ),
                    ),
                    old(self).selected_tile,
                    (old(self).selected_tile.0, (old(self).selected_tile.1 + 1) as usize),
                )
            } else {
                grid_upd(
                    grid_view(old(self).tiles_grid),
                    old(self).selected_tile.0 as int,
                    old(self).selected_tile.1 as int,
                    with_character(
                        grid_view(old(self).tiles_grid)[old(self).selected_tile.0 as int][old(
                            self,
                        ).selected_tile.1 as int],
                        c,
                    ),
                )
            }),
            final(self).selected_tile == (if old(self).selected_tile.1 < WORD_LENGTH - 1 {
                (old(self).selected_tile.0, (old(self).selected_tile.1 + 1) as usize)
            } else {
                old(self).selected_tile
            }),
            final(self).solver == old(self).solver,
            final(self).is_solving == old(self).is_solving,
            final(self).current_screen == old(self).current_screen,
    {
        let (row, col) = self.selected_tile;
        let old_t = self.tiles_grid.at(row, col);
        self.tiles_grid.put(row, col, Tile { character: c, ..old_t });
        if col < WORD_LENGTH - 1 {
            self.update_selected_tile(row, col + 1);
        }
    }

    /// Blanks the selected tile and steps the selection one column left,
    /// except in the first column.
    pub fn remove_char(&mut self)
        requires
            old(self).wf(),
        ensures
            final(self).wf(),
            final(self).selected_tile == (if old(self).selected_tile.1 > 0 {
                (old(self).selected_tile.0, (old(self).selected_tile.1 - 1) as usize)
            } else {
                old(self).selected_tile
            }),
            grid_view(final(self).tiles_grid) == (if old(self).selected_tile.1 > 0 {
                moved_selection(
                    grid_upd(
                        grid_view(old(self).tiles_grid),
                        old(self).selected_tile.0 as int,
                        old(self).selected_tile.1 as int,
                        with_character(
                            grid_view(old(self).tiles_grid)[old(self).selected_tile.0 as int][old(
                                self,
                            ).selected_tile.1 as int],
                            ' ',
                        ),
                    ),
                    old(self).selected_tile,
                    (old(self).selected_tile.0, (old(self).selected_tile.1 - 1) as usize),
                )
            } else {
                grid_upd(
                    grid_view(old(self).tiles_grid),
                    old(self).selected_tile.0 as int,
                    old(self).selected_tile.1 as int,
                    with_character(
                        grid_view(old(self).tiles_grid)[old(self).selected_tile.0 as int][old(
                            self,
                        ).selected_tile.1 as int],
                        ' ',
                    ),
                )
            }),
            final(self).solver == old(self).solver,
            final(self).is_solving == old(self).is_solving,
    {
        let (row, col) = self.selected_tile;
        let old_t = self.tiles_grid.at(row, col);
        self.tiles_grid.put(row, col, Tile { character: ' ', ..old_t });
        if col > 0 {
            self.update_selected_tile(row, col - 1);
        }
    }

    /// From the last column, steps the selection to the first tile of the
    /// next row; anywhere else, nothing moves.
    pub fn go_next_row(&mut self)
        requires
            old(self).wf(),
        ensures
            final(self).wf(),
            final(self).selected_tile == (if old(self).selected_tile.1 == WORD_LENGTH - 1 && old(
                self,
            ).selected_tile.0 < GRID_ROWS - 1 {
                ((old(self).selected_tile.0 + 1) as usize, 0usize)
            } else {
                old(self).selected_tile
            }),
            final(self).solver == old(self).solver,
    {
        let (row, col) = self.selected_tile;
        if col == WORD_LENGTH - 1 && row < GRID_ROWS - 1 {
            self.update_selected_tile(row + 1, 0);
        }
    }

    /// Steps the selection one row up; while editing letters it also jumps
    /// to the last column, as the counterpart of finishing a row.
    pub fn go_prev_row(&mut self)
        requires
            old(self).wf(),
        ensures
            final(self).wf(),
            final(self).selected_tile == (if old(self).selected_tile.0 > 0 {
                if old(self).current_screen == CurrentScreen::EditingTileChar {
                    ((old(self).selected_tile.0 - 1) as usize, (WORD_LENGTH - 1) as usize)
                } else {
                    ((old(self).selected_tile.0 - 1) as usize, old(self).selected_tile.1)
                }
            } else {
                old(self).selected_tile
            }),
            final(self).solver == old(self).solver,
    {
        let (row, col) = self.selected_tile;
        if row > 0 {
            if self.current_screen == CurrentScreen::EditingTileChar {
                self.update_selected_tile(row - 1, WORD_LENGTH - 1);
            } else {
                self.update_selected_tile(row - 1, col);
            }
        }
    }

    /// Steps the selection one column left, except in the first column.
    pub fn go_prev_col(&mut self)
        requires
            old(self).wf(),
        ensures
            final(self).wf(),
            final(self).selected_tile == (if old(self).selected_tile.1 > 0 {
                (old(self).selected_tile.0, (old(self).selected_tile.1 - 1) as usize)
            } else {
                old(self).selected_tile
            }),
            final(self).solver == old(self).solver,
    {
        let (row, col) = self.selected_tile;
        if col > 0 {
            self.update_selected_tile(row, col - 1);
        }
    }

    /// Steps the selection one column right, except in the last column.
    pub fn go_next_col(&mut self)
        requires
            old(self).wf(),
        ensures
            final(self).wf(),
            final(self).selected_tile == (if old(self).selected_tile.1 < WORD_LENGTH - 1 {
                (old(self).selected_tile.0, (old(self).selected_tile.1 + 1) as usize)
            } else {
                old(self).selected_tile
            }),
            final(self).solver == old(self).solver,
    {
        let (row, col) = self.selected_tile;
        if col < WORD_LENGTH - 1 {
            self.update_selected_tile(row, col + 1);
        }
    }
}

/// The color after the selected tile is cycled forwards.
pub open spec fn next_color(k: TileColor) -> TileColor {
    match k {
        TileColor::Normal => TileColor::CorrectPlace,
        TileColor::CorrectPlace => TileColor::Absent,
        TileColor::Absent => TileColor::WrongPlace,
        TileColor::WrongPlace => TileColor::Normal,
    }
}

/// The color after the selected tile is cycled backwards.
pub open spec fn prev_color(k: TileColor) -> TileColor {
    match k {
        TileColor::Normal => TileColor::WrongPlace,
        TileColor::CorrectPlace => TileColor::Normal,
        TileColor::Absent => TileColor::CorrectPlace,
        TileColor::WrongPlace => TileColor::Absent,
    }
}

impl App {
    /// Cycles the selected tile's color forwards.
    pub fn go_next_color(&mut self)
        requires
            old(self).wf(),
        ensures
            final(self).wf(),
            final(self).selected_tile == old(self).selected_tile,
            grid_view(final(self).tiles_grid) == grid_upd(
                grid_view(old(self).tiles_grid),
                old(self).selected_tile.0 as int,
                old(self).selected_tile.1 as int,
                with_color(
                    grid_view(old(self).tiles_grid)[old(self).selected_tile.0 as int][old(
                        self,
                    ).selected_tile.1 as int],
                    next_color(
                        grid_view(old(self).tiles_grid)[old(self).selected_tile.0 as int][old(
                            self,
                        ).selected_tile.1 as int].color,
                    ),
                ),
            ),
            final(self).solver == old(self).solver,
    {
        let (row, col) = self.selected_tile;
        let t = self.tiles_grid.at(row, col);
        let k = match t.color {
            TileColor::Normal => TileColor::CorrectPlace,
            TileColor::CorrectPlace => TileColor::Absent,
            TileColor::Absent => TileColor::WrongPlace,
            TileColor::WrongPlace => TileColor::Normal,
        };
        self.tiles_grid.put(row, col, Tile { color: k, ..t });
    }

    /// Cycles the selected tile's color backwards.
    pub fn go_prev_color(&mut self)
        requires
            old(self).wf(),
        ensures
            final(self).wf(),
            final(self).selected_tile == old(self).selected_tile,
            grid_view(final(self).tiles_grid) == grid_upd(
                grid_view(old(self).tiles_grid),
                old(self).selected_tile.0 as int,
                old(self).selected_tile.1 as int,
                with_color(
                    grid_view(old(self).tiles_grid)[old(self).selected_tile.0 as int][old(
                        self,
                    ).selected_tile.1 as int],
                    prev_color(
                        grid_view(old(self).tiles_grid)[old(self).selected_tile.0 as int][old(
                            self,
                        ).selected_tile.1 as int].color,
                    ),
                ),
            ),
            final(self).solver == old(self).solver,
    {
        let (row, col) = self.selected_tile;
        let t = self.tiles_grid.at(row, col);
        let k = match t.color {
            TileColor::Normal => TileColor::WrongPlace,
            TileColor::CorrectPlace => TileColor::Normal,
            TileColor::Absent => TileColor::CorrectPlace,
            TileColor::WrongPlace => TileColor::Absent,
        };
        self.tiles_grid.put(row, col, Tile { color: k, ..t });
    }
}

/// The letter a tile color is written as in a color code: W while
/// uncolored, else G, R or Y.
pub open spec fn color_state_char(k: TileColor) -> char {
    match k {
        TileColor::Normal => 'W',
        TileColor::CorrectPlace => 'G',
        TileColor::Absent => 'R',
        TileColor::WrongPlace => 'Y',
    }
}

/// A letter lowered to its small form, if it is an ASCII capital.
pub open spec fn spec_lower_char(c: char) -> char {
    if 65 <= (c as u32) <= 90 {
        (((c as u32) + 32) as u8) as char
    } else {
        c
    }
}

fn lower_char(c: char) -> (r: char)
    ensures
        r == spec_lower_char(c),
{
    let u = c as u32;
    if 65 <= u && u <= 90 {
        ((u + 32) as u8) as char
    } else {
        c
    }
}

/// The word the selected row spells, lowercased.
pub open spec fn row_word(app: App) -> Seq<char> {
    grid_view(app.tiles_grid)[app.selected_tile.0 as int].map_values(
        |t: Tile| spec_lower_char(t.character),
    )
}

/// The color code the selected row spells.
pub open spec fn row_code(app: App) -> Seq<char> {
    grid_view(app.tiles_grid)[app.selected_tile.0 as int].map_values(
        |t: Tile| color_state_char(t.color),
    )
}

/// May the selected row be submitted? No ranking may be outstanding, the
/// game must still be open, and every tile of the row must carry feedback.
pub open spec fn submit_ready(app: App) -> bool {
    &&& !app.is_solving
    &&& (app.solver.state == SessionState::AwaitingGuess || app.solver.state
        == SessionState::AwaitingFeedback)
    &&& valid_colorcode(row_code(app))
}

impl App {
    /// The color code a row of tiles spells, one letter per tile.
    pub fn get_color_state(&self, row: &Vec<Tile>) -> (r: Vec<char>)
        ensures
            r@ == row@.map_values(|t: Tile| color_state_char(t.color)),
    {
        let n = row.len();
        let mut r: Vec<char> = Vec::new();
        let mut i: usize = 0;
        while i < n
            invariant
                0 <= i <= n,
                n == row@.len(),
                r@ =~= row@.map_values(|t: Tile| color_state_char(t.color)).take(i as int),
            decreases n - i,
        {
            let c = match row[i].color {
                TileColor::Normal => 'W',
                TileColor::CorrectPlace => 'G',
                TileColor::Absent => 'R',
                TileColor::WrongPlace => 'Y',
            };
            r.push(c);
            proof {
                assert(r@ =~= row@.map_values(|t: Tile| color_state_char(t.color)).take(
                    i as int + 1,
                ));
            }
            i = i + 1;
        }
        proof {
            assert(r@ =~= row@.map_values(|t: Tile| color_state_char(t.color)));
        }
        r
    }

    /// Submits the selected row: where every tile is colored, no ranking
    /// is outstanding and the game is still open, the row's word and
    /// colors are applied to the solver, a background ranking over the
    /// fresh candidate set is requested, and the solving flag is raised;
    /// otherwise nothing changes and no work is handed out. A submission
    /// happens exactly when `submit_ready` held.
    pub fn calculate_next_possible_word(&mut self) -> (w: Option<WorkRequest>)
        requires
            old(self).wf(),
        ensures
            final(self).wf(),
            (w is Some) <==> submit_ready(*old(self)),
            w is Some ==> final(self).is_solving,
            w is Some ==> final(self).solver.store@ == crate::constraints::spec_record(
                old(self).solver.store@,
                row_word(*old(self)),
                crate::feedback::symbols_of_colors(row_code(*old(self))),
            ),
            w is Some ==> final(self).solver.previous_words@.len() == old(self).solver.previous_words@.len() + 1,
            w is Some ==> forall|j: int|
                0 <= j < old(self).solver.previous_words@.len()
                    ==> final(self).solver.previous_words@[j] == old(self).solver.previous_words@[j],
            w is Some ==> final(self).solver.previous_words@.last().0@ == row_word(*old(self)),
            w is Some ==> final(self).solver.previous_words@.last().1@
                == crate::feedback::pattern_chars(
                crate::feedback::symbols_of_colors(row_code(*old(self))),
            ),
            w is Some ==> final(self).solver.words@ == crate::session::spec_candidates(
                old(self).solver.pool_words@,
                final(self).solver.store@,
                crate::session::used_words(final(self).solver.previous_words@),
            ),
            w is Some ==> final(self).solver.pool_words@ == old(self).solver.pool_words@,
            w is Some ==> final(self).solver.round == old(self).solver.round + 1,
            w is Some ==> (match w {
                Some(req) => req.candidates@ == final(self).solver.words@,
                None => false,
            }),
            w is Some ==> grid_view(final(self).tiles_grid) == grid_view(old(self).tiles_grid),
            w is Some ==> final(self).selected_tile == old(self).selected_tile,
            w is Some ==> final(self).current_screen == old(self).current_screen,
            w is Some ==> final(self).currently_editing == old(self).currently_editing,
            w is Some ==> final(self).next_possible_words@ == old(self).next_possible_words@,
            w is None ==> *final(self) == *old(self),
    {
        if self.is_solving {
            return None;
        }
        if !(self.solver.state == SessionState::AwaitingGuess || self.solver.state
            == SessionState::AwaitingFeedback) {
            return None;
        }
        let row_idx = self.selected_tile.0;
        let row = &self.tiles_grid.tiles[row_idx];
        proof {
            assert(row@ == grid_view(self.tiles_grid)[row_idx as int]);
        }
        let mut word: Vec<char> = Vec::new();
        let mut colors: Vec<char> = Vec::new();
        let n = row.len();
        let mut i: usize = 0;
        while i < n
            invariant
                0 <= i <= n,
                n == row@.len(),
                word@.len() == i,
                colors@.len() == i,
                forall|j: int| 0 <= j < i ==> word@[j] == spec_lower_char(row@[j].character),
                forall|j: int|
                    0 <= j < i ==> colors@[j] == color_state_char(row@[j].color),
            decreases n - i,
        {
            word.push(lower_char(row[i].character));
            let c = match row[i].color {
                TileColor::Normal => 'W',
                TileColor::CorrectPlace => 'G',
                TileColor::Absent => 'R',
                TileColor::WrongPlace => 'Y',
            };
            colors.push(c);
            i = i + 1;
        }
        proof {
            assert(word@ =~= row_word(*self));
            assert(colors@ =~= row_code(*self));
        }
        let mut all_colored = true;
        let mut j: usize = 0;
        while j < n
            invariant
                0 <= j <= n,
                n == colors@.len(),
                all_colored == (forall|k: int|
                    0 <= k < j ==> (colors@[k] == 'G' || colors@[k] == 'Y' || colors@[k] == 'R')),
            decreases n - j,
        {
            let c = colors[j];
            if !(c == 'G' || c == 'Y' || c == 'R') {
                all_colored = false;
            }
            j = j + 1;
        }
        proof {
            assert(all_colored == valid_colorcode(colors@));
        }
        if !all_colored {
            return None;
        }
        let word_s = chars_to_string(&word);
        let colors_s = chars_to_string(&colors);
        proof {
            assert(valid_colorcode(colors_s@));
            assert(word_s@.len() == WORD_LENGTH);
        }
        self.solver.add_used_word(word_s.as_str(), colors_s.as_str());
        self.is_solving = true;
        let candidates = self.solver.words.clone();
        proof {
            assert(candidates@ =~= self.solver.words@);
        }
        Some(WorkRequest { candidates })
    }

    /// Takes one poll of the background ranking: a finished list replaces
    /// the suggestions and lowers the solving flag; a lost worker only
    /// lowers the flag, so the interface never waits forever; nothing yet
    /// changes nothing.
    pub fn update(&mut self, outcome: PollOutcome)
        requires
            old(self).wf(),
        ensures
            final(self).wf(),
            (match outcome {
                PollOutcome::Ready(words) => {
                    &&& final(self).next_possible_words@ == words@
                    &&& !final(self).is_solving
                },
                PollOutcome::Pending => *final(self) == *old(self),
                PollOutcome::Lost => {
                    &&& final(self).next_possible_words@ == old(self).next_possible_words@
                    &&& !final(self).is_solving
                },
            }),
            final(self).solver == old(self).solver,
            final(self).selected_tile == old(self).selected_tile,
            final(self).current_screen == old(self).current_screen,
    {
        match outcome {
            PollOutcome::Ready(words) => {
                self.next_possible_words = words;
                self.is_solving = false;
            }
            PollOutcome::Pending => {}
            PollOutcome::Lost => {
                self.is_solving = false;
            }
        }
    }
}

} // verus!
