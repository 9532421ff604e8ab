use parole::appstate::{App, CurrentScreen, PollOutcome, TileColor};
use parole::session::SessionState;
use parole::words::WordPool;

fn pool_of(words: &[&str]) -> WordPool {
    let ws: Vec<String> = words.iter().map(|w| w.to_string()).collect();
    WordPool::new(ws, vec![('e', 120000)])
}

fn tile_char(app: &App, r: usize, c: usize) -> char {
    app.tiles_grid.tiles[r][c].character
}

fn tile_color(app: &App, r: usize, c: usize) -> TileColor {
    app.tiles_grid.tiles[r][c].color
}

#[test]
fn fresh_board_is_blank() {
    let app = App::new(&pool_of(&["tares", "crane"]));
    assert_eq!(app.tiles_grid.tiles.len(), 6);
    for r in 0..6 {
        assert_eq!(app.tiles_grid.tiles[r].len(), 5);
        for c in 0..5 {
            assert_eq!(tile_char(&app, r, c), ' ');
            assert_eq!(tile_color(&app, r, c), TileColor::Normal);
        }
    }
    assert_eq!(app.selected_tile, (0, 0));
    assert_eq!(app.current_screen, CurrentScreen::Main);
    assert!(!app.is_solving);
}

#[test]
fn insert_char_writes_and_advances() {
    let mut app = App::new(&pool_of(&["tares"]));
    app.insert_char('C');
    assert_eq!(tile_char(&app, 0, 0), 'C');
    assert_eq!(app.selected_tile, (0, 1));
    app.insert_char('R');
    app.insert_char('A');
    app.insert_char('N');
    app.insert_char('E');
    // At the last column the selection stays put.
    assert_eq!(app.selected_tile, (0, 4));
    assert_eq!(tile_char(&app, 0, 4), 'E');
    app.remove_char();
    assert_eq!(tile_char(&app, 0, 4), ' ');
    assert_eq!(app.selected_tile, (0, 3));
}

#[test]
fn selection_moves_stay_on_the_board() {
    let mut app = App::new(&pool_of(&["tares"]));
    app.go_prev_col();
    assert_eq!(app.selected_tile, (0, 0));
    app.go_next_col();
    assert_eq!(app.selected_tile, (0, 1));
    app.go_prev_row();
    assert_eq!(app.selected_tile, (0, 1));
    app.update_selected_tile(1, 4);
    assert_eq!(app.selected_tile, (1, 4));
    assert!(app.tiles_grid.tiles[1][4].selected);
    app.go_next_row();
    assert_eq!(app.selected_tile, (2, 0));
    app.update_selected_tile(9, 9);
    assert_eq!(app.selected_tile, (2, 0));
}

#[test]
fn color_cycling_goes_both_ways() {
    let mut app = App::new(&pool_of(&["tares"]));
    app.go_next_color();
    assert_eq!(tile_color(&app, 0, 0), TileColor::CorrectPlace);
    app.go_next_color();
    assert_eq!(tile_color(&app, 0, 0), TileColor::Absent);
    app.go_next_color();
    assert_eq!(tile_color(&app, 0, 0), TileColor::WrongPlace);
    app.go_next_color();
    assert_eq!(tile_color(&app, 0, 0), TileColor::Normal);
    app.go_prev_color();
    assert_eq!(tile_color(&app, 0, 0), TileColor::WrongPlace);
}

fn enter_row(app: &mut App, word: &str, colors: &str) {
    for ch in word.chars() {
        app.insert_char(ch);
    }
    let row = app.selected_tile.0;
    for (c, col) in colors.chars().zip(0..5) {
        let want = match c {
            'G' => TileColor::CorrectPlace,
            'R' => TileColor::Absent,
            'Y' => TileColor::WrongPlace,
            _ => TileColor::Normal,
        };
        app.update_selected_tile(row, col);
        while app.tiles_grid.tiles[row][col].color != want {
            app.go_next_color();
        }
    }
}

#[test]
fn submit_requires_a_fully_colored_row() {
    let mut app = App::new(&pool_of(&["tares", "crane", "slate"]));
    for ch in "TARES".chars() {
        app.insert_char(ch);
    }
    // One tile is still uncolored: nothing is submitted.
    assert!(app.calculate_next_possible_word().is_none());
    assert!(!app.is_solving);
}

#[test]
fn submit_applies_feedback_and_requests_ranking() {
    let mut app = App::new(&pool_of(&["tares", "crane", "slate", "crate"]));
    enter_row(&mut app, "TARES", "RYYYR");
    let req = app.calculate_next_possible_word().expect("a colored row is submitted");
    assert!(app.is_solving);
    // The entered word was lowercased and applied to the solver.
    assert_eq!(app.solver.previous_words.len(), 1);
    assert_eq!(app.solver.previous_words[0].0, "tares");
    assert_eq!(app.solver.previous_words[0].1, "RYYYR");
    assert_eq!(app.solver.round, 1);
    // No second request while one is outstanding.
    assert!(app.calculate_next_possible_word().is_none());
    // The background work ranks the fresh candidate set.
    let ranked = req.compute();
    assert!(!ranked.iter().any(|w| w == "tares"));
    app.update(PollOutcome::Ready(ranked.clone()));
    assert!(!app.is_solving);
    assert_eq!(app.next_possible_words, ranked);
}

#[test]
fn lost_worker_clears_the_solving_flag() {
    let mut app = App::new(&pool_of(&["tares", "crane", "slate", "crate"]));
    enter_row(&mut app, "TARES", "RYYYR");
    let _req = app.calculate_next_possible_word().expect("submitted");
    assert!(app.is_solving);
    app.update(PollOutcome::Lost);
    assert!(!app.is_solving);
    assert!(app.next_possible_words.is_empty());
    assert_eq!(app.solver.state, SessionState::AwaitingGuess);
}

#[test]
fn get_color_state_spells_the_row() {
    let mut app = App::new(&pool_of(&["tares"]));
    app.go_next_color();
    let row = app.tiles_grid.tiles[0].clone();
    let code = app.get_color_state(&row);
    assert_eq!(code, vec!['G', 'W', 'W', 'W', 'W']);
}
