//! The players of a game.

use vstd::prelude::*;
use crate::ecs::EntityId;
use crate::table::{increasing, lemma_without, value_of, without, Table};

verus! {

/// Type alias for player identifier
pub type PlayerId = usize;

/// A player
#[derive(Clone, Copy, Debug, PartialEq, Eq, Structural)]
pub struct GamePlayer {
    /// Identifier of spacecraft entity, while the player has one
    pub spacecraft_id: Option<EntityId>,
    /// Player score
    pub score: u32,
}

/// The players as they are once the entity `entity_id` is destroyed: the
/// first player who flew it has no spacecraft any more.
pub open spec fn grounded(
    players: Seq<(PlayerId, GamePlayer)>,
    entity_id: EntityId,
) -> Seq<(PlayerId, GamePlayer)> {
    match first_pilot(players, entity_id, 0) {
        Some(at) => players.update(
            at,
            (players[at].0, GamePlayer { spacecraft_id: None, score: players[at].1.score }),
        ),
        None => players,
    }
}

/// The place of the first player at or behind `from` whose spacecraft is the
/// entity `entity_id`.
pub open spec fn first_pilot(
    players: Seq<(PlayerId, GamePlayer)>,
    entity_id: EntityId,
    from: int,
) -> Option<int>
    decreases players.len() - from,
{
    if from < 0 || from >= players.len() {
        None
    } else if players[from].1.spacecraft_id == Some(entity_id) {
        Some(from)
    } else {
        first_pilot(players, entity_id, from + 1)
    }
}

/// List of all players
pub struct GamePlayers {
    player_counter: PlayerId,
    players: Table<GamePlayer>,
}

impl GamePlayers {
    /// The players under their identifiers, in the order of the identifiers.
    pub closed spec fn players(&self) -> Seq<(PlayerId, GamePlayer)> {
        self.players@
    }

    /// The identifier that the next player gets.
    pub closed spec fn spec_next_id(&self) -> PlayerId {
        self.player_counter
    }

    /// The identifier that the next player gets
    #[verifier::when_used_as_spec(spec_next_id)]
    pub fn next_id(&self) -> (next_id: PlayerId)
        ensures
            next_id == self.spec_next_id(),
    {
        self.player_counter
    }

    /// The players stand in the order of their identifiers, all of which
    /// were handed out before.
    pub open spec fn wf(&self) -> bool {
        &&& increasing(self.players())
        &&& forall|at: int|
            0 <= at < self.players().len() ==> (#[trigger] self.players()[at]).0 < self.next_id()
    }

    /// Creates a list without players
    pub fn new() -> (players: Self)
        ensures
            players.wf(),
            players.players().len() == 0,
            players.next_id() == 0,
    {
        GamePlayers { player_counter: 0, players: Table::new() }
    }

    /// Creates new player, without spacecraft and score, and returns its
    /// [PlayerId]
    pub fn new_player(&mut self) -> (player_id: PlayerId)
        requires
            old(self).wf(),
            old(self).next_id() < usize::MAX,
        ensures
            final(self).wf(),
            player_id == old(self).next_id(),
            final(self).next_id() == player_id + 1,
            final(self).players() == old(self).players().push(
                (player_id, GamePlayer { spacecraft_id: None, score: 0 }),
            ),
    {
        let player_id = self.player_counter;
        self.player_counter = self.player_counter + 1;
        self.players.append(player_id, GamePlayer { spacecraft_id: None, score: 0 });
        player_id
    }

    /// Kicks player by its [PlayerId]
    pub fn kick_player(&mut self, player_id: PlayerId)
        requires
            old(self).wf(),
        ensures
            final(self).wf(),
            final(self).next_id() == old(self).next_id(),
            final(self).players() == without(old(self).players(), player_id),
    {
        let ghost before = self.players@;
        proof {
            lemma_without(before, player_id, player_id);
            crate::table::lemma_key_bound_splits(before, player_id);
        }
        let _ = self.players.remove(player_id);
        proof {
            let bound = crate::table::key_bound(before, player_id);
            assert forall|at: int| 0 <= at < self.players@.len() implies (
            #[trigger] self.players@[at]).0 < self.player_counter by {
                let from = if crate::table::key_index(before, player_id) is Some && at >= bound {
                    at + 1
                } else {
                    at
                };
                assert(self.players@[at] == before[from]);
            }
        }
    }

    /// The number of players
    pub fn len(&self) -> (len: usize)
        ensures
            len == self.players().len(),
    {
        self.players.len()
    }

    /// The identifier and the player at a place in the order of identifiers
    pub fn entry(&self, at: usize) -> (entry: (PlayerId, GamePlayer))
        requires
            at < self.players().len(),
        ensures
            entry == self.players()[at as int],
    {
        let (player_id, player) = self.players.entry(at);
        (player_id, *player)
    }

    /// Gets player by its [PlayerId]
    pub fn get_player(&self, player_id: PlayerId) -> (player: Option<GamePlayer>)
        requires
            self.wf(),
        ensures
            player == value_of(self.players(), player_id),
    {
        match self.players.get(player_id) {
            Some(player) => Some(*player),
            None => None,
        }
    }

    /// Gives a player the spacecraft it flies from now on. Returns whether
    /// there is such a player
    pub fn set_spacecraft(&mut self, player_id: PlayerId, spacecraft_id: Option<EntityId>) -> (found:
        bool)
        requires
            old(self).wf(),
        ensures
            final(self).wf(),
            final(self).next_id() == old(self).next_id(),
            found == value_of(old(self).players(), player_id).is_some(),
            match value_of(old(self).players(), player_id) {
                Some(player) => final(self).players() == crate::table::put(
                    old(self).players(),
                    player_id,
                    GamePlayer { spacecraft_id, score: player.score },
                ),
                None => final(self).players() == old(self).players(),
            },
    {
        match self.get_player(player_id) {
            Some(player) => {
                let ghost before = self.players@;
                let changed = GamePlayer { spacecraft_id, score: player.score };
                proof {
                    crate::table::lemma_put(before, player_id, changed, player_id);
                    crate::table::lemma_key_bound_splits(before, player_id);
                }
                let _ = self.players.insert(player_id, changed);
                proof {
                    assert forall|at: int| 0 <= at < self.players@.len() implies (
                    #[trigger] self.players@[at]).0 < self.player_counter by {
                        assert(self.players@[at].0 == before[at].0);
                    }
                }
                true
            },
            None => false,
        }
    }

    /// Handles the destruction of an entity: the first player, in the order
    /// of the identifiers, whose spacecraft it was has no spacecraft any more
    pub fn handle_entity_destroy(&mut self, entity_id: EntityId)
        requires
            old(self).wf(),
        ensures
            final(self).wf(),
            final(self).next_id() == old(self).next_id(),
            final(self).players() == grounded(old(self).players(), entity_id),
    {
        let ghost before = self.players@;
        let mut at: usize = 0;
        while at < self.players.len()
            invariant
                at <= self.players@.len(),
                before == old(self).players@,
                self.players@ == before,
                self.player_counter == old(self).player_counter,
                self.wf(),
                first_pilot(before, entity_id, 0) == first_pilot(before, entity_id, at as int),
            decreases self.players@.len() - at,
        {
            let (player_id, player) = self.players.entry(at);
            match player.spacecraft_id {
                Some(spacecraft_id) => {
                    if spacecraft_id == entity_id {
                        let changed = GamePlayer { spacecraft_id: None, score: player.score };
                        proof {
                            crate::table::lemma_key_index(before, player_id, at as int);
                            assert(first_pilot(before, entity_id, at as int) == Some(at as int));
                        }
                        let _ = self.players.insert(player_id, changed);
                        proof {
                            assert forall|k: int| 0 <= k < self.players@.len() implies (
                            #[trigger] self.players@[k]).0 < self.player_counter by {
                                assert(self.players@[k].0 == before[k].0);
                            }
                        }
                        return ;
                    }
                },
                None => {},
            }
            at += 1;
        }
        proof {
            assert(first_pilot(before, entity_id, at as int) is None);
        }
    }
}

} // verus!
