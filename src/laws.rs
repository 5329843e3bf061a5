use crate::cell::{lemma_mine_count_none, mine_spec, Cellule, State};
use crate::game::{
    flooded, is_border, is_nbr, lemma_nbr_in_grid, nbr, nbr_cells, nbr_mines, placed, revealed, uncover,
    GameState, GameView,
};
use vstd::prelude::*;

verus! {

/// Every border cell of a well-formed game is Outside. Every operation on a
/// game keeps it well formed, so the frame lasts as long as the game.
pub proof fn lemma_border_outside(v: GameView)
    requires
        v.wf(),
    ensures
        forall|i: int|
            0 <= i < v.cells.len() && is_border(v.width, v.height, i) ==> #[trigger] v.cells[i].state
                == State::Outside,
{
}

/// Every value of a well-formed game is cleared (-2), a mine (-1) or a count
/// from 0 to 8.
pub proof fn lemma_values_in_domain(v: GameView)
    requires
        v.wf(),
    ensures
        forall|i: int| 0 <= i < v.cells.len() ==> -2 <= #[trigger] v.cells[i].val <= 8,
{
}

/// After mines are laid safely round `idx`, neither `idx` nor any of its
/// neighbours is a mine, and an interior `idx` counts zero mines round it.
pub proof fn lemma_first_click_safe(a: GameView, b: GameView, idx: int, draws: Seq<u8>)
    requires
        a.wf(),
        0 <= idx < a.cells.len(),
        placed(a, b, idx, draws),
    ensures
        !mine_spec(b.cells[idx]),
        forall|k: int| 0 <= k < 8 ==> !mine_spec(b.cells[#[trigger] nbr(a.width, a.height, idx, k)]),
        !is_border(a.width, a.height, idx) ==> b.cells[idx].val == 0,
{
    let (w, h) = (a.width, a.height);
    if is_border(w, h, idx) {
        assert(b.cells[idx] == a.cells[idx]);
    } else {
        assert(b.cells[idx].state == State::Hidden);
    }
    assert forall|k: int| 0 <= k < 8 implies !mine_spec(b.cells[#[trigger] nbr(w, h, idx, k)]) by {
        lemma_nbr_in_grid(w, h, idx, k);
        let j = nbr(w, h, idx, k);
        if is_border(w, h, j) {
            assert(b.cells[j] == a.cells[j]);
            assert(a.cells[j] == (Cellule { state: State::Outside, val: -2i8 }));
        } else {
            assert(is_nbr(w, h, idx, j));
            assert(b.cells[j].state == State::Hidden);
        }
    }
    if !is_border(w, h, idx) {
        let s = nbr_cells(b.cells, w, h, idx);
        assert forall|k: int| 0 <= k < s.len() implies !mine_spec(#[trigger] s[k]) by {
            assert(!mine_spec(b.cells[nbr(w, h, idx, k)]));
        }
        lemma_mine_count_none(s);
        assert(nbr_mines(b.cells, w, h, idx) == 0);
    }
}

/// A flood reveal leaves every marked cell marked.
pub proof fn lemma_flood_keeps_marks(a: GameView, b: GameView, idx: int)
    requires
        flooded(a, b, idx),
    ensures
        forall|i: int|
            0 <= i < a.cells.len() && a.cells[i].state == State::Marked ==> #[trigger] b.cells[i].state
                == State::Marked,
{
}

/// A reveal never turns a marked cell into a revealed one.
pub proof fn lemma_reveal_keeps_marks(a: GameView, b: GameView, idx: int, draws: Seq<u8>)
    requires
        a.wf(),
        0 <= idx < a.cells.len(),
        revealed(a, b, idx, draws),
    ensures
        forall|i: int|
            0 <= i < a.cells.len() && a.cells[i].state == State::Marked ==> #[trigger] b.cells[i].state
                != State::Revealed,
{
    if a.state == GameState::New {
        let p = choose|p: GameView|
            #[trigger] placed(a, p, idx, draws) && flooded(uncover(p, idx), b, idx);
        assert forall|i: int|
            0 <= i < a.cells.len() && a.cells[i].state == State::Marked implies #[trigger] b.cells[i].state
            != State::Revealed by {
            assert(a.cells[i].state != State::Marked);
        }
    } else if a.state == GameState::InProgress && a.cells[idx].state == State::Hidden
        && a.cells[idx].val == 0 {
        lemma_flood_keeps_marks(uncover(a, idx), b, idx);
        assert forall|i: int|
            0 <= i < a.cells.len() && a.cells[i].state == State::Marked implies #[trigger] b.cells[i].state
            != State::Revealed by {
            assert(uncover(a, idx).cells[i].state == State::Marked);
        }
    }
}

/// Flooding again from the same start, once a flood is done, changes nothing.
pub proof fn lemma_flood_idempotent(a: GameView, b: GameView, c: GameView, idx: int)
    requires
        flooded(a, b, idx),
        flooded(b, c, idx),
    ensures
        c.cells == b.cells,
{
}

/// Revealing a hidden mine in a game in progress ends the game and reveals
/// that cell alone.
pub proof fn lemma_mine_ends_game(a: GameView, b: GameView, idx: int, draws: Seq<u8>)
    requires
        0 <= idx < a.cells.len(),
        a.state == GameState::InProgress,
        a.cells[idx].state == State::Hidden,
        mine_spec(a.cells[idx]),
        revealed(a, b, idx, draws),
    ensures
        b.state == GameState::Over,
        b.cells[idx] == (Cellule { state: State::Revealed, ..a.cells[idx] }),
        forall|i: int| 0 <= i < a.cells.len() && i != idx ==> #[trigger] b.cells[i] == a.cells[i],
{
}

/// The first reveal of an interior cell never ends the game: the cell shows
/// a zero and the game is in progress.
pub proof fn lemma_first_reveal_safe(a: GameView, b: GameView, idx: int, draws: Seq<u8>)
    requires
        a.wf(),
        0 <= idx < a.cells.len(),
        !is_border(a.width, a.height, idx),
        a.state == GameState::New,
        revealed(a, b, idx, draws),
    ensures
        b.state == GameState::InProgress,
        b.cells[idx] == (Cellule { state: State::Revealed, val: 0i8 }),
{
    let p = choose|p: GameView|
        #[trigger] placed(a, p, idx, draws) && flooded(uncover(p, idx), b, idx);
    lemma_first_click_safe(a, p, idx, draws);
    assert(p.cells[idx].state == State::Hidden);
    assert(uncover(p, idx).cells[idx] == (Cellule { state: State::Revealed, val: 0i8 }));
}

} // verus!
