//! The invariant of the identifiers: every identifier in a game was handed
//! out, and names one unit or one player.
use vstd::prelude::*;
use crate::common::{Scalar, Vec2};
use crate::state::{Bullet, GameView, UnitId, UnitSlot};

verus! {

impl GameView {
    /// Whether no two units share an identifier, and no two players do.
    pub open spec fn distinct(self) -> bool {
        &&& forall|a: UnitSlot, b: UnitSlot|
            self.has_slot(a) && self.has_slot(b) && a != b ==> (#[trigger] self.unit(a)).id != (
            #[trigger] self.unit(b)).id
        &&& forall|i: int, j: int|
            0 <= i < j < self.players.len() ==> (#[trigger] self.players[i]).id != (
            #[trigger] self.players[j]).id
    }

    /// Whether every identifier in the game was handed out, where `clients`
    /// client identifiers and `units` unit identifiers were handed out so far.
    pub open spec fn issued(self, clients: nat, units: nat) -> bool {
        &&& forall|a: UnitSlot| self.has_slot(a) ==> (#[trigger] self.unit(a)).id.0 < units
        &&& forall|i: int|
            0 <= i < self.players.len() ==> (#[trigger] self.players[i]).id.0 < clients
    }

    /// The invariant of the identifiers: each was handed out, and names one
    /// unit or one player.
    pub open spec fn consistent(self, clients: nat, units: nat) -> bool {
        self.distinct() && self.issued(clients, units)
    }

    /// Whether `other` has the players and units of this game, slot by slot,
    /// as far as their identifiers go.
    pub open spec fn same_identities(self, other: GameView) -> bool {
        &&& self.players.len() == other.players.len()
        &&& forall|p: int|
            0 <= p < self.players.len() ==> {
                &&& (#[trigger] self.players[p]).id == other.players[p].id
                &&& self.players[p].units.len() == other.players[p].units.len()
            }
        &&& forall|p: int, u: int|
            0 <= p < self.players.len() && 0 <= u < self.players[p].units.len()
                ==> (#[trigger] self.players[p].units[u]).id == other.players[p].units[u].id
    }

    /// A game without players meets the invariant of the identifiers,
    /// whatever was handed out.
    pub proof fn lemma_empty_consistent(self, clients: nat, units: nat)
        requires
            self.players.len() == 0,
        ensures
            self.consistent(clients, units),
    {
    }

    /// The invariant of the identifiers goes by the identifiers alone.
    pub proof fn lemma_same_identities(self, other: GameView, clients: nat, units: nat)
        requires
            self.same_identities(other),
            self.consistent(clients, units),
        ensures
            other.consistent(clients, units),
    {
        assert forall|a: UnitSlot, b: UnitSlot|
            other.has_slot(a) && other.has_slot(b) && a != b implies (#[trigger] other.unit(a)).id
            != (#[trigger] other.unit(b)).id by {
            assert(self.has_slot(a) && self.has_slot(b));
            assert(self.unit(a).id == other.unit(a).id);
            assert(self.unit(b).id == other.unit(b).id);
        }
        assert forall|a: UnitSlot| other.has_slot(a) implies (#[trigger] other.unit(a)).id.0
            < units by {
            assert(self.has_slot(a));
            assert(self.unit(a).id == other.unit(a).id);
        }
        assert forall|i: int, j: int| 0 <= i < j < other.players.len() implies (
        #[trigger] other.players[i]).id != (#[trigger] other.players[j]).id by {
            assert(self.players[i].id == other.players[i].id);
            assert(self.players[j].id == other.players[j].id);
        }
        assert forall|i: int|
            0 <= i < other.players.len() implies (#[trigger] other.players[i]).id.0
            < clients by {
            assert(self.players[i].id == other.players[i].id);
        }
    }

    /// Neither bringing idle units to rest, nor turning units, nor a shot
    /// changes an identifier, or adds or removes a unit or a player.
    pub proof fn lemma_steps_identities(
        self,
        targets: Map<UnitId, Vec2>,
        id: UnitId,
        headings: Seq<Scalar>,
        bullets: Seq<Bullet>,
    )
        requires
            self.fits(),
        ensures
            self.same_identities(self.halt_idle(targets)),
            self.same_identities(self.faced(id, headings)),
            self.same_identities(GameView { bullets, ..self }),
    {
        let turned = self.faced(id, headings);
        assert forall|p: int, u: int|
            0 <= p < self.players.len() && 0 <= u < self.players[p].units.len() implies (
        #[trigger] self.players[p].units[u]).id == turned.players[p].units[u].id by {
            let slot = UnitSlot { player: p as usize, unit: u as usize };
            assert(self.players[p].units.len() <= usize::MAX);
            assert(turned.players[p].units[u] == self.faced_unit(id, headings, slot));
        }
    }
}

} // verus!
