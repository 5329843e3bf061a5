use minesweeper::cell::{Cellule, State};
use minesweeper::game::{wrap, App, GameState, Msg};

fn cell(state: State, val: i8) -> Cellule {
    Cellule { state, val }
}

fn is_border(g: &App, i: usize) -> bool {
    let (w, h) = (g.width(), g.height());
    i / w == 0 || i / w == h - 1 || i % w == 0 || i % w == w - 1
}

fn border_is_outside(g: &App) -> bool {
    (0..g.width() * g.height())
        .filter(|&i| is_border(g, i))
        .all(|i| g.cell_at(i) == Cellule::new_empty())
}

fn values_in_domain(g: &App) -> bool {
    (0..g.width() * g.height()).all(|i| (-2..=8).contains(&g.cell_at(i).val))
}

fn zeros(g: &App) -> Vec<u8> {
    vec![0; g.width() * g.height()]
}

fn cells(g: &App) -> Vec<Cellule> {
    (0..g.width() * g.height()).map(|i| g.cell_at(i)).collect()
}

/// A 5 by 5 game in progress, first revealed at 6 with mines everywhere they
/// can be: cells 8, 13, 16, 17 and 18 are mines.
fn started_5x5() -> App {
    let mut g = App::new(5, 5);
    let d = zeros(&g);
    g.reveal_cell_with(6, &d);
    g
}

#[test]
fn wrap_folds_once() {
    assert_eq!(wrap(-1, 5), 4);
    assert_eq!(wrap(5, 5), 0);
    assert_eq!(wrap(3, 5), 3);
    assert_eq!(wrap(0, 5), 0);
}

#[test]
fn row_col_as_idx_wraps_to_border() {
    let g = App::new(5, 4);
    assert_eq!(g.row_col_as_idx(-1, -1), 19);
    assert_eq!(g.row_col_as_idx(4, 5), 0);
    assert_eq!(g.row_col_as_idx(2, 3), 13);
}

#[test]
fn ref_neighbors_in_order() {
    let g = App::new(5, 5);
    assert_eq!(g.ref_neighbors(1, 1), [11, 12, 10, 1, 2, 0, 5, 7]);
    assert_eq!(g.ref_neighbors(0, 0), [5, 6, 9, 20, 21, 24, 4, 1]);
}

#[test]
fn neighbors_gives_cells() {
    let g = started_5x5();
    let ns = g.neighbors(2, 2);
    assert_eq!(ns[0], g.cell_at(17));
    assert_eq!(ns[5], g.cell_at(6));
    assert_eq!(ns[7], g.cell_at(13));
}

#[test]
fn new_game_layout() {
    let g = App::new(53, 40);
    assert_eq!(g.state(), GameState::New);
    assert_eq!(g.width(), 53);
    assert_eq!(g.height(), 40);
    assert!(border_is_outside(&g));
    assert_eq!(g.cell_at(54), cell(State::Hidden, -2));
}

#[test]
fn first_click_safe_on_minimal_grid() {
    let mut g = App::new(3, 3);
    let d = zeros(&g);
    g.reveal_cell_with(4, &d);
    assert_eq!(g.state(), GameState::InProgress);
    assert_eq!(g.cell_at(4), cell(State::Revealed, 0));
    assert!(border_is_outside(&g));
}

#[test]
fn marking_before_start_is_ignored() {
    let mut g = App::new(3, 3);
    g.toggle_mark(4);
    assert_eq!(g.cell_at(4).state, State::Hidden);
    assert_eq!(g.state(), GameState::New);
}

#[test]
fn safe_neighborhood_floods() {
    let mut g = App::new(5, 5);
    let d = zeros(&g);
    g.reveal_cell_with(12, &d);
    for i in [6, 7, 8, 11, 13, 16, 17, 18] {
        assert!(g.cell_at(i).val >= 0);
    }
    assert_eq!(g.cell_at(12).val, 0);
    for i in [6, 7, 8, 11, 12, 13, 16, 17, 18] {
        assert_eq!(g.cell_at(i), cell(State::Revealed, 0));
    }
}

#[test]
fn place_mines_safe_clears_and_counts() {
    let mut g = App::new(5, 5);
    let d = zeros(&g);
    g.place_mines_safe(6, &d);
    assert_eq!(g.state(), GameState::New);
    for i in [6, 7, 11, 12] {
        assert!(!g.cell_at(i).is_mine());
    }
    assert_eq!(g.cell_at(6).val, 0);
    assert_eq!(g.cell_at(7).val, 2);
    assert_eq!(g.cell_at(12).val, 5);
    for i in [8, 13, 16, 17, 18] {
        assert_eq!(g.cell_at(i), cell(State::Hidden, -1));
    }
    assert!(border_is_outside(&g));
}

#[test]
fn place_mines_safe_high_bytes_lay_no_mine() {
    let mut g = App::new(5, 5);
    let d = vec![25u8; 25];
    g.place_mines_safe(6, &d);
    for i in [6, 7, 8, 11, 12, 13, 16, 17, 18] {
        assert_eq!(g.cell_at(i), cell(State::Hidden, 0));
    }
}

#[test]
fn random_mutate_keeps_first_click_safe() {
    let mut g = App::new(9, 9);
    g.random_mutate(40);
    assert_eq!(g.cell_at(40).val, 0);
    for i in [30, 31, 32, 39, 41, 48, 49, 50] {
        assert!(!g.cell_at(i).is_mine());
    }
    assert!(values_in_domain(&g));
    assert!(border_is_outside(&g));
}

#[test]
fn mine_reveal_ends_game() {
    let mut g = started_5x5();
    g.set_mine_at(18);
    let before = cells(&g);
    g.reveal_cell(18);
    assert_eq!(g.state(), GameState::Over);
    assert_eq!(g.cell_at(18), cell(State::Revealed, -1));
    let after = cells(&g);
    for i in 0..25 {
        if i != 18 {
            assert_eq!(after[i], before[i]);
        }
    }
}

#[test]
fn mark_toggling() {
    let mut g = started_5x5();
    assert_eq!(g.state(), GameState::InProgress);
    assert_eq!(g.cell_at(8).state, State::Hidden);
    g.toggle_mark(8);
    assert_eq!(g.cell_at(8).state, State::Marked);
    g.toggle_mark(8);
    assert_eq!(g.cell_at(8).state, State::Hidden);
    g.toggle_mark(8);
    g.reveal_cell(8);
    assert_eq!(g.cell_at(8).state, State::Marked);
    assert_eq!(g.state(), GameState::InProgress);
    g.toggle_mark(8);
    g.reveal_cell(8);
    assert_eq!(g.cell_at(8).state, State::Revealed);
}

#[test]
fn reset_after_game_over() {
    let mut g = started_5x5();
    g.reveal_cell(18);
    assert_eq!(g.state(), GameState::Over);
    g.reset();
    assert_eq!(g.state(), GameState::New);
    for i in 0..25 {
        if is_border(&g, i) {
            assert_eq!(g.cell_at(i), Cellule::new_empty());
        } else {
            assert_eq!(g.cell_at(i), cell(State::Hidden, -2));
        }
    }
    let d = zeros(&g);
    g.reveal_cell_with(12, &d);
    assert_eq!(g.state(), GameState::InProgress);
    assert_eq!(g.cell_at(12), cell(State::Revealed, 0));
}

#[test]
fn over_ignores_everything_but_reset() {
    let mut g = started_5x5();
    g.reveal_cell(8);
    assert_eq!(g.state(), GameState::Over);
    let before = cells(&g);
    g.reveal_cell(17);
    g.toggle_mark(16);
    assert_eq!(cells(&g), before);
    assert_eq!(g.state(), GameState::Over);
}

#[test]
fn reveal_positive_shows_one_cell() {
    let mut g = App::new(6, 5);
    let mut d = vec![255u8; 30];
    d[9] = 0;
    g.reveal_cell_with(7, &d);
    assert_eq!(g.cell_at(8), cell(State::Revealed, 1));
    assert_eq!(g.cell_at(15), cell(State::Revealed, 1));
    assert_eq!(g.cell_at(9), cell(State::Hidden, -1));
    assert_eq!(g.cell_at(10), cell(State::Hidden, 1));
    g.reveal_cell(10);
    assert_eq!(g.cell_at(10), cell(State::Revealed, 1));
    assert_eq!(g.cell_at(9).state, State::Hidden);
    assert_eq!(g.state(), GameState::InProgress);
}

#[test]
fn flood_reveal_is_idempotent() {
    let mut g = App::new(6, 5);
    let mut d = vec![255u8; 30];
    d[9] = 0;
    g.reveal_cell_with(7, &d);
    let once = cells(&g);
    g.expand_zero(7);
    assert_eq!(cells(&g), once);
}

#[test]
fn flood_reveals_everything_without_mines() {
    let mut g = App::new(6, 6);
    let d = vec![255u8; 36];
    g.reveal_cell_with(7, &d);
    assert!(cells(&g).iter().all(|c| c.state != State::Hidden));
}

#[test]
fn flood_keeps_marked_cell() {
    let mut g = App::new(7, 5);
    let mut d = vec![255u8; 35];
    d[10] = 0;
    d[17] = 0;
    d[24] = 0;
    g.reveal_cell_with(15, &d);
    assert_eq!(g.state(), GameState::InProgress);
    assert_eq!(g.cell_at(19), cell(State::Hidden, 0));
    g.toggle_mark(26);
    g.reveal_cell(19);
    assert_eq!(g.cell_at(26), cell(State::Marked, 0));
    assert_eq!(g.cell_at(25), cell(State::Revealed, 2));
    assert_eq!(g.cell_at(12), cell(State::Revealed, 0));
    assert_eq!(g.cell_at(11), cell(State::Revealed, 2));
    assert_eq!(g.cell_at(17).state, State::Hidden);
    assert!(values_in_domain(&g));
    assert!(border_is_outside(&g));
}

#[test]
fn border_click_keeps_frame() {
    let mut g = App::new(5, 5);
    let d = zeros(&g);
    g.reveal_cell_with(0, &d);
    assert_eq!(g.state(), GameState::InProgress);
    assert!(border_is_outside(&g));
    assert!(!g.cell_at(6).is_mine());
    g.toggle_mark(1);
    assert_eq!(g.cell_at(1), Cellule::new_empty());
}

#[test]
fn update_dispatches_messages() {
    let mut g = App::new(5, 5);
    assert!(g.update(Msg::ToggleMark(12)));
    assert_eq!(g.cell_at(12).state, State::Hidden);
    assert!(g.update(Msg::ToggleCellule(12)));
    assert_eq!(g.state(), GameState::InProgress);
    assert_eq!(g.cell_at(12), cell(State::Revealed, 0));
    assert!(g.update(Msg::Reset));
    assert_eq!(g.state(), GameState::New);
    assert_eq!(g.cell_at(12), cell(State::Hidden, -2));
    assert!(g.update(Msg::ToggleCellule(6)));
    assert!(g.update(Msg::Start));
    assert_eq!(g.cell_at(6), cell(State::Hidden, -2));
    assert!(!g.update(Msg::Stop));
    assert_eq!(g.state(), GameState::New);
}

#[test]
fn start_clears_like_reset() {
    let mut g = started_5x5();
    g.start();
    assert_eq!(g.state(), GameState::New);
    assert_eq!(g.cell_at(8), cell(State::Hidden, -2));
    assert!(border_is_outside(&g));
}
