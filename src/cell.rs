use vstd::prelude::*;

verus! {

/// How a cell is shown.
#[derive(Clone, Copy, Debug, PartialEq, Eq, Structural)]
pub enum State {
    Hidden,
    Revealed,
    Marked,
    /// Part of the sentinel border: never revealed, marked or a mine.
    Outside,
}

/// One tile of the grid. `val` is `-2` when cleared, `-1` for a mine, and
/// otherwise the number of neighbouring mines.
#[derive(Clone, Copy, Debug, PartialEq, Eq, Structural)]
pub struct Cellule {
    pub state: State,
    pub val: i8,
}

/// The value of a cell holds a mine.
pub open spec fn mine_spec(c: Cellule) -> bool {
    c.val == -1
}

/// `1` for a mine, `0` otherwise.
pub open spec fn mine_weight(c: Cellule) -> nat {
    if mine_spec(c) { 1 } else { 0 }
}

/// The number of mines in a sequence of cells.
pub open spec fn mine_count(s: Seq<Cellule>) -> nat
    decreases s.len(),
{
    if s.len() == 0 {
        0
    } else {
        mine_count(s.drop_last()) + mine_weight(s.last())
    }
}

/// A value a cell may hold: cleared, a mine, or a count of at most eight.
pub open spec fn valid_value(v: int) -> bool {
    -2 <= v <= 8
}

/// A sequence holds no more mines than cells.
pub proof fn lemma_mine_count_le_len(s: Seq<Cellule>)
    ensures
        mine_count(s) <= s.len(),
    decreases s.len(),
{
    if s.len() > 0 {
        lemma_mine_count_le_len(s.drop_last());
    }
}

/// Two sequences whose cells agree on being mines hold as many mines.
pub proof fn lemma_mine_count_same(s: Seq<Cellule>, t: Seq<Cellule>)
    requires
        s.len() == t.len(),
        forall|k: int| 0 <= k < s.len() ==> mine_spec(#[trigger] s[k]) == mine_spec(t[k]),
    ensures
        mine_count(s) == mine_count(t),
    decreases s.len(),
{
    if s.len() > 0 {
        let (s0, t0) = (s.drop_last(), t.drop_last());
        assert forall|k: int| 0 <= k < s0.len() implies mine_spec(#[trigger] s0[k]) == mine_spec(
            t0[k],
        ) by {
            assert(s0[k] == s[k] && t0[k] == t[k]);
        }
        lemma_mine_count_same(s0, t0);
    }
}

/// A sequence without mines holds none.
pub proof fn lemma_mine_count_none(s: Seq<Cellule>)
    requires
        forall|k: int| 0 <= k < s.len() ==> !mine_spec(#[trigger] s[k]),
    ensures
        mine_count(s) == 0,
    decreases s.len(),
{
    if s.len() > 0 {
        let s0 = s.drop_last();
        assert forall|k: int| 0 <= k < s0.len() implies !mine_spec(#[trigger] s0[k]) by {
            assert(s0[k] == s[k]);
        }
        lemma_mine_count_none(s0);
    }
}

/// The number of hidden cells in a sequence.
pub open spec fn hidden_count(s: Seq<Cellule>) -> nat
    decreases s.len(),
{
    if s.len() == 0 {
        0
    } else {
        hidden_count(s.drop_last()) + if s.last().state == State::Hidden {
            1nat
        } else {
            0nat
        }
    }
}

/// Uncovering one hidden cell leaves one hidden cell fewer.
pub proof fn lemma_hidden_count_uncover(s: Seq<Cellule>, i: int, c: Cellule)
    requires
        0 <= i < s.len(),
        s[i].state == State::Hidden,
        c.state != State::Hidden,
    ensures
        hidden_count(s.update(i, c)) + 1 == hidden_count(s),
    decreases s.len(),
{
    let t = s.update(i, c);
    if i == s.len() - 1 {
        assert(t.drop_last() =~= s.drop_last());
    } else {
        assert(t.drop_last() =~= s.drop_last().update(i, c));
        lemma_hidden_count_uncover(s.drop_last(), i, c);
    }
}

impl Cellule {
    pub fn new_empty() -> (r: Self)
        ensures
            r == (Cellule { state: State::Outside, val: -2i8 }),
    {
        Self { state: State::Outside, val: -2 }
    }

    pub fn set_revealed(&mut self)
        ensures
            *final(self) == (Cellule { state: State::Revealed, ..*old(self) }),
    {
        self.state = State::Revealed;
    }

    pub fn set_hidden(&mut self)
        ensures
            *final(self) == (Cellule { state: State::Hidden, ..*old(self) }),
    {
        self.state = State::Hidden;
    }

    pub fn set_marked(&mut self)
        ensures
            *final(self) == (Cellule { state: State::Marked, ..*old(self) }),
    {
        self.state = State::Marked;
    }

    pub fn set_mine(&mut self)
        ensures
            *final(self) == (Cellule { val: -1i8, ..*old(self) }),
    {
        self.val = -1;
    }

    pub fn reset(&mut self)
        ensures
            *final(self) == (Cellule { state: State::Hidden, val: -2i8 }),
    {
        self.val = -2;
        self.state = State::Hidden;
    }

    /// A cell that is not a mine takes the number of mines among `neighbors`.
    pub fn set_value(&mut self, neighbors: &[Self])
        requires
            mine_count(neighbors@) <= 127,
        ensures
            final(self).state == old(self).state,
            mine_spec(*old(self)) ==> *final(self) == *old(self),
            !mine_spec(*old(self)) ==> final(self).val == mine_count(neighbors@),
    {
        if !self.is_mine() {
            self.val = Self::count_neighbor_mines(neighbors);
        }
    }

    pub fn is_marked(self) -> (r: bool)
        ensures
            r == (self.state == State::Marked),
    {
        self.state == State::Marked
    }

    pub fn is_hidden(self) -> (r: bool)
        ensures
            r == (self.state == State::Hidden),
    {
        self.state == State::Hidden
    }

    pub fn is_revealed(self) -> (r: bool)
        ensures
            r == (self.state == State::Revealed),
    {
        self.state == State::Revealed
    }

    pub fn is_mine(self) -> (r: bool)
        ensures
            r == mine_spec(self),
    {
        self.val == -1
    }

    pub fn is_zero(self) -> (r: bool)
        ensures
            r == (self.val == 0),
    {
        self.val == 0
    }

    /// Hidden becomes Marked and Marked becomes Hidden; other cells stay.
    pub fn toggle_marked(&mut self)
        ensures
            final(self).val == old(self).val,
            old(self).state == State::Marked ==> final(self).state == State::Hidden,
            old(self).state == State::Hidden ==> final(self).state == State::Marked,
            old(self).state != State::Marked && old(self).state != State::Hidden
                ==> *final(self) == *old(self),
    {
        if self.is_marked() {
            self.set_hidden();
        } else if self.is_hidden() {
            self.set_marked();
        }
    }

    /// A hidden cell becomes revealed; other cells stay.
    pub fn toggle(&mut self)
        ensures
            final(self).val == old(self).val,
            old(self).state == State::Hidden ==> final(self).state == State::Revealed,
            old(self).state != State::Hidden ==> *final(self) == *old(self),
    {
        if self.is_hidden() {
            self.set_revealed();
        }
    }

    /// The number of mines among `neighbors`.
    pub fn count_neighbor_mines(neighbors: &[Self]) -> (r: i8)
        requires
            mine_count(neighbors@) <= 127,
        ensures
            r == mine_count(neighbors@),
    {
        let mut count: u8 = 0;
        let mut i: usize = 0;
        while i < neighbors.len()
            invariant
                i <= neighbors@.len(),
                count == mine_count(neighbors@.subrange(0, i as int)),
                mine_count(neighbors@) <= 127,
            decreases neighbors@.len() - i,
        {
            proof {
                let s = neighbors@.subrange(0, i as int + 1);
                assert(s.drop_last() =~= neighbors@.subrange(0, i as int));
                lemma_mine_count_prefix(neighbors@, i as int + 1);
            }
            if neighbors[i].is_mine() {
                count = count + 1;
            }
            i = i + 1;
        }
        assert(neighbors@.subrange(0, i as int) =~= neighbors@);
        count as i8
    }
}

/// The count of mines in a prefix never exceeds the count in the whole.
proof fn lemma_mine_count_prefix(s: Seq<Cellule>, n: int)
    requires
        0 <= n <= s.len(),
    ensures
        mine_count(s.subrange(0, n)) <= mine_count(s),
    decreases s.len() - n,
{
    if n < s.len() {
        lemma_mine_count_prefix(s, n + 1);
        let t = s.subrange(0, n + 1);
        assert(t.drop_last() =~= s.subrange(0, n));
    } else {
        assert(s.subrange(0, n) =~= s);
    }
}

} // verus!
