//! What the commands of a client do to the units that they name: the units
//! turn, or they shoot.
use vstd::prelude::*;
use crate::common::Scalar;
use crate::scan::slots_upto;
use crate::state::{Bullet, GameState, GameView, PlayerView, Unit, UnitId, UnitSlot};

verus! {

/// A selection from a sequence depends on what the predicate says of the
/// items of the sequence alone.
proof fn lemma_filter_agree(slots: Seq<UnitSlot>, p: spec_fn(UnitSlot) -> bool, q: spec_fn(
    UnitSlot,
) -> bool)
    requires
        forall|i: int| 0 <= i < slots.len() ==> p(#[trigger] slots[i]) == q(slots[i]),
    ensures
        slots.filter(p) == slots.filter(q),
    decreases slots.len(),
{
    reveal(Seq::filter);
    if slots.len() > 0 {
        lemma_filter_agree(slots.drop_last(), p, q);
    }
}

/// The scan order depends on the number of players and of their units alone.
proof fn lemma_slots_same_shape(a: Seq<PlayerView>, b: Seq<PlayerView>, upto: nat)
    requires
        upto <= a.len() == b.len(),
        forall|p: int| 0 <= p < a.len() ==> (#[trigger] a[p]).units.len() == b[p].units.len(),
    ensures
        slots_upto(a, upto) == slots_upto(b, upto),
    decreases upto,
{
    if upto > 0 {
        lemma_slots_same_shape(a, b, (upto - 1) as nat);
        assert(a[upto - 1].units.len() == b[upto - 1].units.len());
    }
}

impl GameView {
    /// The unit at `slot` after the units with identifier `id` turned: the
    /// `k`-th of them, in scan order, faces along `headings[k]`. A unit
    /// beyond the headings keeps its angle, as every other unit does.
    pub open spec fn faced_unit(self, id: UnitId, headings: Seq<Scalar>, slot: UnitSlot) -> Unit {
        let unit = self.unit(slot);
        let k = self.units_with_id(id).index_of(slot);
        if unit.id == id && k < headings.len() {
            Unit { angle: headings[k], ..unit }
        } else {
            unit
        }
    }

    /// The game after the units with identifier `id` turned to `headings`.
    pub open spec fn faced(self, id: UnitId, headings: Seq<Scalar>) -> GameView {
        GameView {
            players: Seq::new(
                self.players.len(),
                |p: int|
                    PlayerView {
                        id: self.players[p].id,
                        units: Seq::new(
                            self.players[p].units.len(),
                            |u: int|
                                self.faced_unit(
                                    id,
                                    headings,
                                    UnitSlot { player: p as usize, unit: u as usize },
                                ),
                        ),
                    },
            ),
            ..self
        }
    }

    /// Turning the units to the same headings once more changes nothing.
    pub proof fn lemma_faced_twice(self, id: UnitId, headings: Seq<Scalar>)
        requires
            self.fits(),
        ensures
            self.faced(id, headings).faced(id, headings) == self.faced(id, headings),
            self.faced(id, headings).units_with_id(id) == self.units_with_id(id),
    {
        let once = self.faced(id, headings);
        let twice = once.faced(id, headings);
        lemma_slots_same_shape(self.players, once.players, self.players.len());
        self.lemma_slots();
        lemma_filter_agree(
            self.slots(),
            |slot: UnitSlot| self.unit(slot).id == id,
            |slot: UnitSlot| once.unit(slot).id == id,
        );
        assert forall|p: int| 0 <= p < once.players.len() implies #[trigger] twice.players[p]
            == once.players[p] by {
            assert(twice.players[p].units =~= once.players[p].units);
        }
        assert(twice.players =~= once.players);
    }

    /// The bullets that a shot of the units with identifier `id` adds: of
    /// `bullets`, one for each such unit, as far as there are any.
    pub open spec fn shots(self, id: UnitId, bullets: Seq<Bullet>) -> Seq<Bullet> {
        if bullets.len() <= self.units_with_id(id).len() {
            bullets
        } else {
            bullets.take(self.units_with_id(id).len() as int)
        }
    }
}

impl GameState {
    /// Turns the units with identifier `id`: the `k`-th of them, in scan
    /// order, faces along `headings[k]`. A unit beyond the headings keeps its
    /// angle.
    pub fn face(&mut self, id: UnitId, headings: &Vec<Scalar>)
        ensures
            final(self)@ == old(self)@.faced(id, headings@),
    {
        let found = self.units_with_id(id);
        proof {
            self.lemma_fits();
            self@.lemma_units_with_id(id);
        }
        let mut k: usize = 0;
        while k < found.len() && k < headings.len()
            invariant
                k <= found.len(),
                k <= headings.len(),
                found@ == old(self)@.units_with_id(id),
                old(self)@.fits(),
                forall|j: int|
                    0 <= j < found.len() ==> old(self)@.has_slot(#[trigger] found[j]) && old(
                        self,
                    )@.unit(found[j]).id == id,
                found@.no_duplicates(),
                self.bullets == old(self).bullets,
                self.players.len() == old(self).players.len(),
                forall|p: int|
                    0 <= p < self.players.len() ==> (#[trigger] self.players[p]).id == old(
                        self,
                    ).players[p].id && self.players[p].units.len() == old(
                        self,
                    ).players[p].units.len(),
                forall|j: int|
                    0 <= j < found.len() ==> self.players[found[j].player as int].units[found[j].unit as
                        int]
                        == (if j < k {
                        Unit { angle: headings[j], ..old(self)@.unit(#[trigger] found[j]) }
                    } else {
                        old(self)@.unit(found[j])
                    }),
                forall|slot: UnitSlot|
                    #![trigger old(self)@.has_slot(slot)]
                    old(self)@.has_slot(slot) && !found@.contains(slot)
                        ==> self.players[slot.player as int].units[slot.unit as int] == old(
                        self,
                    )@.unit(slot),
            decreases found.len() - k,
        {
            let slot = found[k];
            let ghost before = self.players@;
            assert(old(self)@.has_slot(slot));
            assert(old(self)@.players[slot.player as int] == old(
                self,
            ).players[slot.player as int]@);
            self.players[slot.player].units[slot.unit].angle = headings[k];
            proof {
                assert forall|j: int|
                    0 <= j < found.len() implies self.players[found[j].player as int].units[found[j].unit as
                    int]
                    == (if j < k + 1 {
                    Unit { angle: headings[j], ..old(self)@.unit(#[trigger] found[j]) }
                } else {
                    old(self)@.unit(found[j])
                }) by {
                    if j != k {
                        assert(found[j] != found[k as int]);
                    }
                }
                assert forall|other: UnitSlot|
                    #![trigger old(self)@.has_slot(other)]
                    old(self)@.has_slot(other) && !found@.contains(
                        other,
                    ) implies self.players[other.player as int].units[other.unit as int] == old(
                    self,
                )@.unit(other) by {
                    assert(other != found[k as int]);
                }
            }
            k += 1;
        }
        proof {
            let goal = old(self)@.faced(id, headings@);
            assert forall|p: int| 0 <= p < self@.players.len() implies #[trigger] self@.players[p]
                == goal.players[p] by {
                assert(self@.players[p] == self.players[p]@);
                assert(old(self)@.players[p] == old(self).players[p]@);
                assert forall|u: int|
                    0 <= u < self.players[p].units.len() implies self.players[p].units[u]
                    == #[trigger] goal.players[p].units[u] by {
                    let slot = UnitSlot { player: p as usize, unit: u as usize };
                    assert(old(self)@.has_slot(slot));
                    if old(self)@.unit(slot).id == id {
                        assert(found@.contains(slot));
                        let j = found@.index_of(slot);
                        assert(found[j] == slot);
                    } else {
                        if found@.contains(slot) {
                            let j = choose|j: int| 0 <= j < found.len() && found[j] == slot;
                            assert(old(self)@.unit(found[j]).id == id);
                        }
                    }
                }
                assert(self@.players[p].units =~= goal.players[p].units);
            }
            assert(self@.players =~= goal.players);
        }
    }

    /// Fires the units with identifier `id`: of `bullets`, one joins the game
    /// for each such unit. Nothing happens where no unit has that identifier.
    pub fn shoot(&mut self, id: UnitId, bullets: &Vec<Bullet>)
        ensures
            final(self)@ == (GameView {
                bullets: old(self)@.bullets + old(self)@.shots(id, bullets@),
                ..old(self)@
            }),
    {
        let shooters = self.units_with_id(id).len();
        let ghost start = self.bullets@;
        let mut k: usize = 0;
        while k < shooters && k < bullets.len()
            invariant
                k <= shooters,
                k <= bullets.len(),
                self.players == old(self).players,
                self.bullets@ == start + bullets@.take(k as int),
            decreases shooters - k,
        {
            self.bullets.push(bullets[k]);
            assert(self.bullets@ =~= start + bullets@.take(k + 1));
            k += 1;
        }
        assert(bullets@.take(bullets.len() as int) =~= bullets@);
    }
}

} // verus!
