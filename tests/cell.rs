use minesweeper::cell::{Cellule, State};

fn cell(state: State, val: i8) -> Cellule {
    Cellule { state, val }
}

#[test]
fn new_empty_is_outside_and_cleared() {
    assert_eq!(Cellule::new_empty(), cell(State::Outside, -2));
}

#[test]
fn setters_change_one_field() {
    let mut c = cell(State::Hidden, 3);
    c.set_revealed();
    assert_eq!(c, cell(State::Revealed, 3));
    c.set_marked();
    assert_eq!(c, cell(State::Marked, 3));
    c.set_hidden();
    assert_eq!(c, cell(State::Hidden, 3));
    c.set_mine();
    assert_eq!(c, cell(State::Hidden, -1));
    assert!(c.is_mine());
}

#[test]
fn reset_hides_and_clears() {
    let mut c = cell(State::Revealed, -1);
    c.reset();
    assert_eq!(c, cell(State::Hidden, -2));
}

#[test]
fn predicates() {
    assert!(cell(State::Marked, 0).is_marked());
    assert!(cell(State::Hidden, 0).is_hidden());
    assert!(cell(State::Revealed, 0).is_revealed());
    assert!(cell(State::Revealed, 0).is_zero());
    assert!(!cell(State::Revealed, 2).is_zero());
    assert!(!cell(State::Revealed, -2).is_mine());
}

#[test]
fn toggle_marked_cycles_hidden_and_marked_only() {
    let mut c = cell(State::Hidden, 1);
    c.toggle_marked();
    assert_eq!(c, cell(State::Marked, 1));
    c.toggle_marked();
    assert_eq!(c, cell(State::Hidden, 1));
    let mut r = cell(State::Revealed, 1);
    r.toggle_marked();
    assert_eq!(r, cell(State::Revealed, 1));
    let mut o = Cellule::new_empty();
    o.toggle_marked();
    assert_eq!(o, Cellule::new_empty());
}

#[test]
fn toggle_reveals_hidden_only() {
    let mut c = cell(State::Hidden, 4);
    c.toggle();
    assert_eq!(c, cell(State::Revealed, 4));
    let mut m = cell(State::Marked, -1);
    m.toggle();
    assert_eq!(m, cell(State::Marked, -1));
    let mut o = Cellule::new_empty();
    o.toggle();
    assert_eq!(o, Cellule::new_empty());
}

#[test]
fn count_neighbor_mines_counts_mines() {
    let ns = [
        cell(State::Hidden, -1),
        cell(State::Hidden, 0),
        cell(State::Outside, -2),
        cell(State::Marked, -1),
        cell(State::Hidden, 3),
        cell(State::Hidden, -1),
        cell(State::Revealed, 1),
        cell(State::Hidden, 2),
    ];
    assert_eq!(Cellule::count_neighbor_mines(&ns), 3);
    assert_eq!(Cellule::count_neighbor_mines(&[]), 0);
}

#[test]
fn set_value_counts_unless_mine() {
    let ns = [cell(State::Hidden, -1), cell(State::Hidden, -1), cell(State::Hidden, 0)];
    let mut c = cell(State::Hidden, -2);
    c.set_value(&ns);
    assert_eq!(c, cell(State::Hidden, 2));
    let mut m = cell(State::Hidden, -1);
    m.set_value(&ns);
    assert_eq!(m, cell(State::Hidden, -1));
}
