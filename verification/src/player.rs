use vstd::prelude::*;

verus! {

/// One participant in the turn rotation: a display name and an explicit
/// score, the number of tiles credited to them by reveal results.
pub struct Player {
    pub name: String,
    pub score: usize,
}

impl Player {
    /// A fresh player with no revealed tiles.
    pub fn new(name: String) -> (p: Player)
        ensures
            p.name == name,
            p.score == 0,
    {
        Player { name, score: 0 }
    }

    /// Credits `k` freshly revealed tiles to this player.
    pub fn add_score(&mut self, k: usize)
        requires
            old(self).score + k <= usize::MAX,
        ensures
            final(self).score == old(self).score + k,
            final(self).name == old(self).name,
    {
        self.score = self.score + k;
    }
}

/// The turn policy: a reveal of `k` tiles advances the turn pointer by `k`
/// positions around the `alive` still-active players, one position per tile
/// the cascade uncovered.
pub fn next_turn(current: usize, alive: usize, k: usize) -> (next: usize)
    requires
        1 <= alive,
        current < alive,
        current + k <= usize::MAX,
    ensures
        next == (current + k) % (alive as int),
        next < alive,
    {
    (current + k) % alive
}

/// The elimination policy, append-to-back-and-shrink: the current player
/// moves to just behind the still-alive players, everyone after them shifts
/// up one place, the alive count shrinks by one, and the turn pointer wraps
/// onto the next player.
pub fn eliminate_current(players: &mut Vec<Player>, alive: &mut usize, current: &mut usize)
    requires
        1 <= *old(alive) <= old(players)@.len(),
        *old(current) < *old(alive),
    ensures
        final(players)@.len() == old(players)@.len(),
        *final(alive) == *old(alive) - 1,
        final(players)@[*final(alive) as int] == old(players)@[*old(current) as int],
        forall|i: int| 0 <= i < *old(current) ==> #[trigger] final(players)@[i] == old(players)@[i],
        forall|i: int|
            *old(current) <= i < *final(alive) ==> #[trigger] final(players)@[i] == old(
                players,
            )@[i + 1],
        forall|i: int|
            *old(alive) <= i < old(players)@.len() ==> #[trigger] final(players)@[i] == old(
                players,
            )@[i],
        *final(current) == if *final(alive) > 0 {
            *old(current) as int % *final(alive) as int
        } else {
            0int
        },
{
    let p = players.remove(*current);
    players.insert(*alive - 1, p);
    *alive = *alive - 1;
    if *alive > 0 {
        *current = *current % *alive;
    } else {
        *current = 0;
    }
}

} // verus!
