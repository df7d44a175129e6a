//! The scan order of a game: its units player by player, the lookups that go
//! by it, and the pairs of units that a tick tries for collisions.
use vstd::prelude::*;
use crate::state::{ClientId, GameState, GameView, PlayerView, UnitId, UnitSlot};

verus! {

/// The slots of a player with index `player` and `count` units, in order.
pub open spec fn player_slots(player: int, count: nat) -> Seq<UnitSlot> {
    Seq::new(count, |u: int| UnitSlot { player: player as usize, unit: u as usize })
}

/// The slots of the first `upto` players, player by player.
pub open spec fn slots_upto(players: Seq<PlayerView>, upto: nat) -> Seq<UnitSlot>
    decreases upto,
{
    if upto == 0 {
        Seq::empty()
    } else {
        slots_upto(players, (upto - 1) as nat) + player_slots(
            upto - 1,
            players[upto - 1].units.len(),
        )
    }
}

/// Whether `a` comes before `b` in scan order.
pub open spec fn slot_before(a: UnitSlot, b: UnitSlot) -> bool {
    a.player < b.player || (a.player == b.player && a.unit < b.unit)
}

/// The slots of the first `upto` players are slots of these players, stand
/// in ascending order, and every slot of these players is among them.
proof fn lemma_slots_upto(players: Seq<PlayerView>, upto: nat)
    requires
        upto <= players.len() <= usize::MAX,
        forall|p: int| 0 <= p < players.len() ==> (#[trigger] players[p]).units.len() <= usize::MAX,
    ensures
        forall|k: int|
            0 <= k < slots_upto(players, upto).len() ==> {
                let slot = #[trigger] slots_upto(players, upto)[k];
                slot.player < upto && slot.unit < players[slot.player as int].units.len()
            },
        forall|i: int, j: int|
            0 <= i < j < slots_upto(players, upto).len() ==> slot_before(
                #[trigger] slots_upto(players, upto)[i],
                #[trigger] slots_upto(players, upto)[j],
            ),
        forall|slot: UnitSlot|
            slot.player < upto && slot.unit < players[slot.player as int].units.len()
                ==> #[trigger] slots_upto(players, upto).contains(slot),
    decreases upto,
{
    if upto > 0 {
        let head = slots_upto(players, (upto - 1) as nat);
        let tail = player_slots(upto - 1, players[upto - 1].units.len());
        let all = slots_upto(players, upto);
        lemma_slots_upto(players, (upto - 1) as nat);
        assert(all == head + tail);
        assert forall|k: int| 0 <= k < all.len() implies {
            let slot = #[trigger] all[k];
            slot.player < upto && slot.unit < players[slot.player as int].units.len()
        } by {
            if k >= head.len() {
                assert(all[k] == tail[k - head.len()]);
            } else {
                assert(all[k] == head[k]);
            }
        }
        assert forall|i: int, j: int| 0 <= i < j < all.len() implies slot_before(
            #[trigger] all[i],
            #[trigger] all[j],
        ) by {
            if i >= head.len() {
                assert(all[i] == tail[i - head.len()]);
                assert(all[j] == tail[j - head.len()]);
            } else if j >= head.len() {
                assert(all[i] == head[i]);
                assert(all[j] == tail[j - head.len()]);
            } else {
                assert(all[i] == head[i]);
                assert(all[j] == head[j]);
            }
        }
        assert forall|slot: UnitSlot|
            slot.player < upto && slot.unit < players[slot.player as int].units.len()
            implies #[trigger] all.contains(slot) by {
            if slot.player == upto - 1 {
                assert(tail[slot.unit as int] == slot);
                assert(all[head.len() + slot.unit] == slot);
            } else {
                assert(head.contains(slot));
                let k = choose|k: int| 0 <= k < head.len() && head[k] == slot;
                assert(all[k] == slot);
            }
        }
    }
}

/// Whether the pair `a` comes before the pair `b`: by their first slots, and
/// by their second slots where the first are the same.
pub open spec fn pair_before(a: (UnitSlot, UnitSlot), b: (UnitSlot, UnitSlot)) -> bool {
    slot_before(a.0, b.0) || (a.0 == b.0 && slot_before(a.1, b.1))
}

/// The pairs that `slots[first]` forms with the slots after it and before
/// index `upto`, in order.
pub open spec fn pairs_row(slots: Seq<UnitSlot>, first: int, upto: int) -> Seq<
    (UnitSlot, UnitSlot),
> {
    Seq::new((upto - first - 1) as nat, |k: int| (slots[first], slots[first + 1 + k]))
}

/// The pairs that each of the first `upto` slots forms with every slot after
/// it, row by row.
pub open spec fn pairs_upto(slots: Seq<UnitSlot>, upto: nat) -> Seq<(UnitSlot, UnitSlot)>
    decreases upto,
{
    if upto == 0 {
        Seq::empty()
    } else {
        pairs_upto(slots, (upto - 1) as nat) + pairs_row(slots, upto - 1, slots.len() as int)
    }
}

/// Whether `pair` is made of one of the first `upto` slots and a slot after
/// it.
spec fn pairs_row_of(slots: Seq<UnitSlot>, upto: nat, pair: (UnitSlot, UnitSlot)) -> bool {
    exists|i: int, j: int|
        0 <= i < upto && i < j < slots.len() && pair == (#[trigger] slots[i], #[trigger] slots[j])
}

/// The pairs of the first `upto` slots are made of one of these slots and a
/// later one, every such pair is among them, and they stand in ascending
/// order.
proof fn lemma_pairs_upto(slots: Seq<UnitSlot>, upto: nat)
    requires
        upto <= slots.len(),
        forall|i: int, j: int|
            0 <= i < j < slots.len() ==> slot_before(#[trigger] slots[i], #[trigger] slots[j]),
    ensures
        forall|k: int|
            0 <= k < pairs_upto(slots, upto).len() ==> pairs_row_of(
                slots,
                upto,
                #[trigger] pairs_upto(slots, upto)[k],
            ),
        forall|i: int, j: int|
            0 <= i < upto && i < j < slots.len() ==> pairs_upto(slots, upto).contains(
                (#[trigger] slots[i], #[trigger] slots[j]),
            ),
        forall|k: int, l: int|
            0 <= k < l < pairs_upto(slots, upto).len() ==> pair_before(
                #[trigger] pairs_upto(slots, upto)[k],
                #[trigger] pairs_upto(slots, upto)[l],
            ),
    decreases upto,
{
    if upto > 0 {
        let head = pairs_upto(slots, (upto - 1) as nat);
        let tail = pairs_row(slots, upto - 1, slots.len() as int);
        let all = pairs_upto(slots, upto);
        lemma_pairs_upto(slots, (upto - 1) as nat);
        assert(all == head + tail);
        assert forall|k: int| 0 <= k < all.len() implies pairs_row_of(
            slots,
            upto,
            #[trigger] all[k],
        ) by {
            if k >= head.len() {
                assert(all[k] == tail[k - head.len()]);
                assert(all[k] == (slots[upto - 1], slots[upto + (k - head.len())]));
            } else {
                assert(all[k] == head[k]);
                assert(pairs_row_of(slots, (upto - 1) as nat, head[k]));
                let (i, j) = choose|i: int, j: int|
                    0 <= i < upto - 1 && i < j < slots.len() && head[k] == (
                        #[trigger] slots[i],
                        #[trigger] slots[j],
                    );
                assert(all[k] == (slots[i], slots[j]));
            }
        }
        assert forall|i: int, j: int| 0 <= i < upto && i < j < slots.len() implies all.contains(
            (#[trigger] slots[i], #[trigger] slots[j]),
        ) by {
            let pair = (slots[i], slots[j]);
            if i == upto - 1 {
                assert(tail[j - upto] == pair);
                assert(all[head.len() + (j - upto)] == pair);
            } else {
                assert(head.contains(pair));
                let k = choose|k: int| 0 <= k < head.len() && head[k] == pair;
                assert(all[k] == pair);
            }
        }
        assert forall|k: int, l: int| 0 <= k < l < all.len() implies pair_before(
            #[trigger] all[k],
            #[trigger] all[l],
        ) by {
            if k >= head.len() {
                assert(all[k] == tail[k - head.len()]);
                assert(all[l] == tail[l - head.len()]);
            } else if l >= head.len() {
                assert(all[k] == head[k]);
                assert(all[l] == tail[l - head.len()]);
                assert(pairs_row_of(slots, (upto - 1) as nat, head[k]));
                let (i, j) = choose|i: int, j: int|
                    0 <= i < upto - 1 && i < j < slots.len() && head[k] == (
                        #[trigger] slots[i],
                        #[trigger] slots[j],
                    );
                assert(slot_before(slots[i], slots[upto - 1]));
            } else {
                assert(all[k] == head[k]);
                assert(all[l] == head[l]);
            }
        }
    }
}

/// A selection from slots in ascending order holds, in ascending order,
/// exactly the slots of them that it selects.
proof fn lemma_filter_ascending(slots: Seq<UnitSlot>, pred: spec_fn(UnitSlot) -> bool)
    requires
        forall|i: int, j: int|
            0 <= i < j < slots.len() ==> slot_before(#[trigger] slots[i], #[trigger] slots[j]),
    ensures
        forall|k: int|
            0 <= k < slots.filter(pred).len() ==> pred(#[trigger] slots.filter(pred)[k])
                && slots.contains(slots.filter(pred)[k]),
        forall|i: int|
            0 <= i < slots.len() && pred(slots[i]) ==> slots.filter(pred).contains(
                #[trigger] slots[i],
            ),
        forall|k: int, l: int|
            0 <= k < l < slots.filter(pred).len() ==> slot_before(
                #[trigger] slots.filter(pred)[k],
                #[trigger] slots.filter(pred)[l],
            ),
    decreases slots.len(),
{
    reveal(Seq::filter);
    if slots.len() > 0 {
        let before = slots.drop_last();
        let found = before.filter(pred);
        lemma_filter_ascending(before, pred);
        assert forall|k: int| 0 <= k < slots.filter(pred).len() implies pred(
            #[trigger] slots.filter(pred)[k],
        ) && slots.contains(slots.filter(pred)[k]) by {
            if k < found.len() {
                assert(before.contains(found[k]));
                let i = choose|i: int| 0 <= i < before.len() && before[i] == found[k];
                assert(slots[i] == found[k]);
            } else {
                assert(slots[slots.len() - 1] == slots.filter(pred)[k]);
            }
        }
        assert forall|i: int| 0 <= i < slots.len() && pred(slots[i]) implies slots.filter(
            pred,
        ).contains(#[trigger] slots[i]) by {
            if i < before.len() {
                assert(found.contains(before[i]));
                let k = choose|k: int| 0 <= k < found.len() && found[k] == before[i];
                assert(slots.filter(pred)[k] == slots[i]);
            } else {
                assert(slots.filter(pred)[found.len() as int] == slots[i]);
            }
        }
        assert forall|k: int, l: int| 0 <= k < l < slots.filter(pred).len() implies slot_before(
            #[trigger] slots.filter(pred)[k],
            #[trigger] slots.filter(pred)[l],
        ) by {
            if l == found.len() {
                assert(before.contains(found[k]));
                let i = choose|i: int| 0 <= i < before.len() && before[i] == found[k];
                assert(slot_before(slots[i], slots[slots.len() - 1]));
            }
        }
    }
}

impl GameView {
    /// Every slot of the game in scan order: player by player, and unit by
    /// unit within a player.
    pub open spec fn slots(self) -> Seq<UnitSlot> {
        slots_upto(self.players, self.players.len())
    }

    /// The scan order names every unit of the game exactly once, and in
    /// strictly ascending order of player and unit index.
    pub proof fn lemma_slots(self)
        requires
            self.fits(),
        ensures
            forall|k: int|
                0 <= k < self.slots().len() ==> self.has_slot(#[trigger] self.slots()[k]),
            forall|i: int, j: int|
                0 <= i < j < self.slots().len() ==> slot_before(
                    #[trigger] self.slots()[i],
                    #[trigger] self.slots()[j],
                ),
            forall|slot: UnitSlot| self.has_slot(slot) ==> #[trigger] self.slots().contains(slot),
            self.slots().no_duplicates(),
    {
        lemma_slots_upto(self.players, self.players.len());
    }

    /// Whether a player with identifier `id` takes part.
    pub open spec fn has_player(self, id: ClientId) -> bool {
        exists|i: int| 0 <= i < self.players.len() && #[trigger] self.players[i].id == id
    }

    /// The slots of the units with identifier `id`, in scan order.
    pub open spec fn units_with_id(self, id: UnitId) -> Seq<UnitSlot> {
        self.slots().filter(|slot: UnitSlot| self.unit(slot).id == id)
    }

    /// The units with identifier `id` are named in ascending order, each
    /// once, and no other slot is.
    pub proof fn lemma_units_with_id(self, id: UnitId)
        requires
            self.fits(),
        ensures
            forall|k: int|
                0 <= k < self.units_with_id(id).len() ==> self.has_slot(
                    #[trigger] self.units_with_id(id)[k],
                ) && self.unit(self.units_with_id(id)[k]).id == id,
            forall|slot: UnitSlot|
                self.has_slot(slot) && self.unit(slot).id == id
                    ==> #[trigger] self.units_with_id(id).contains(slot),
            forall|k: int, l: int|
                0 <= k < l < self.units_with_id(id).len() ==> slot_before(
                    #[trigger] self.units_with_id(id)[k],
                    #[trigger] self.units_with_id(id)[l],
                ),
            self.units_with_id(id).no_duplicates(),
    {
        let slots = self.slots();
        let pred = |slot: UnitSlot| self.unit(slot).id == id;
        let found = self.units_with_id(id);
        self.lemma_slots();
        lemma_filter_ascending(slots, pred);
        assert forall|k: int| 0 <= k < found.len() implies self.has_slot(#[trigger] found[k])
            && self.unit(found[k]).id == id by {
            assert(slots.contains(found[k]));
        }
        assert forall|slot: UnitSlot|
            self.has_slot(slot) && self.unit(slot).id == id implies #[trigger] found.contains(
            slot,
        ) by {
            assert(slots.contains(slot));
            let i = choose|i: int| 0 <= i < slots.len() && slots[i] == slot;
            assert(pred(slots[i]));
        }
    }

    /// Every pair of two units of the game, the earlier one in scan order
    /// first: the pairs of the first unit with each later one, then those of
    /// the second unit, and so on.
    pub open spec fn collision_pairs(self) -> Seq<(UnitSlot, UnitSlot)> {
        pairs_upto(self.slots(), self.slots().len())
    }

    /// The collision pairs hold every unordered pair of two units of the game
    /// exactly once, the earlier unit first, and in ascending order.
    pub proof fn lemma_collision_pairs(self)
        requires
            self.fits(),
        ensures
            forall|k: int|
                0 <= k < self.collision_pairs().len() ==> {
                    let pair = #[trigger] self.collision_pairs()[k];
                    self.has_slot(pair.0) && self.has_slot(pair.1) && slot_before(pair.0, pair.1)
                },
            forall|a: UnitSlot, b: UnitSlot|
                self.has_slot(a) && self.has_slot(b) && slot_before(a, b)
                    ==> #[trigger] self.collision_pairs().contains((a, b)),
            forall|k: int, l: int|
                0 <= k < l < self.collision_pairs().len() ==> pair_before(
                    #[trigger] self.collision_pairs()[k],
                    #[trigger] self.collision_pairs()[l],
                ),
            self.collision_pairs().no_duplicates(),
    {
        let slots = self.slots();
        let pairs = self.collision_pairs();
        self.lemma_slots();
        lemma_pairs_upto(slots, slots.len());
        assert forall|k: int| 0 <= k < pairs.len() implies {
            let pair = #[trigger] pairs[k];
            self.has_slot(pair.0) && self.has_slot(pair.1) && slot_before(pair.0, pair.1)
        } by {
            assert(pairs_row_of(slots, slots.len(), pairs[k]));
            let (i, j) = choose|i: int, j: int|
                0 <= i < slots.len() && i < j < slots.len() && pairs[k] == (
                    #[trigger] slots[i],
                    #[trigger] slots[j],
                );
            assert(self.has_slot(slots[i]) && self.has_slot(slots[j]));
        }
        assert forall|a: UnitSlot, b: UnitSlot|
            self.has_slot(a) && self.has_slot(b) && slot_before(
                a,
                b,
            ) implies #[trigger] pairs.contains((a, b)) by {
            assert(slots.contains(a) && slots.contains(b));
            let i = choose|i: int| 0 <= i < slots.len() && slots[i] == a;
            let j = choose|j: int| 0 <= j < slots.len() && slots[j] == b;
            if j < i {
                assert(slot_before(slots[j], slots[i]));
            }
            assert(pairs.contains((slots[i], slots[j])));
        }
    }
}

impl GameState {
    /// Whether a player with identifier `id` takes part.
    pub fn has_player(&self, id: ClientId) -> (found: bool)
        ensures
            found == self@.has_player(id),
    {
        let mut i: usize = 0;
        while i < self.players.len()
            invariant
                i <= self.players.len(),
                forall|k: int| 0 <= k < i ==> self@.players[k].id != id,
            decreases self.players.len() - i,
        {
            if self.players[i].id == id {
                assert(self@.players[i as int].id == id);
                return true;
            }
            i += 1;
        }
        false
    }

    /// Every slot of the game in scan order.
    pub fn all_slots(&self) -> (slots: Vec<UnitSlot>)
        ensures
            slots@ == self@.slots(),
    {
        let mut slots: Vec<UnitSlot> = Vec::new();
        let mut p: usize = 0;
        while p < self.players.len()
            invariant
                p <= self.players.len(),
                slots@ == slots_upto(self@.players, p as nat),
            decreases self.players.len() - p,
        {
            let count = self.players[p].units.len();
            let ghost before = slots@;
            let mut u: usize = 0;
            while u < count
                invariant
                    u <= count,
                    slots@ == before + player_slots(p as int, u as nat),
                decreases count - u,
            {
                slots.push(UnitSlot { player: p, unit: u });
                assert(slots@ =~= before + player_slots(p as int, (u + 1) as nat));
                u += 1;
            }
            assert(self@.players[p as int].units.len() == count);
            p += 1;
        }
        slots
    }

    /// The slots of the units with identifier `id`, in scan order.
    pub fn units_with_id(&self, id: UnitId) -> (found: Vec<UnitSlot>)
        ensures
            found@ == self@.units_with_id(id),
    {
        let slots = self.all_slots();
        let mut found: Vec<UnitSlot> = Vec::new();
        let ghost pred = |slot: UnitSlot| self@.unit(slot).id == id;
        proof {
            self.lemma_fits();
            self@.lemma_slots();
        }
        let mut i: usize = 0;
        while i < slots.len()
            invariant
                i <= slots.len(),
                slots@ == self@.slots(),
                pred == (|slot: UnitSlot| self@.unit(slot).id == id),
                found@ == slots@.take(i as int).filter(pred),
                forall|k: int| 0 <= k < slots.len() ==> self@.has_slot(#[trigger] slots[k]),
            decreases slots.len() - i,
        {
            let slot = slots[i];
            assert(self@.has_slot(slot));
            assert(self@.players[slot.player as int] == self.players@[slot.player as int]@);
            proof {
                assert(slots@.take(i + 1) =~= slots@.take(i as int).push(slot));
                slots@.take(i as int).lemma_filter_push(slot, pred);
            }
            if self.players[slot.player].units[slot.unit].id == id {
                found.push(slot);
            }
            i += 1;
        }
        assert(slots@.take(slots.len() as int) =~= slots@);
        found
    }

    /// Every pair of two units of the game, in the order in which collisions
    /// are to be resolved.
    pub fn collision_pairs(&self) -> (pairs: Vec<(UnitSlot, UnitSlot)>)
        ensures
            pairs@ == self@.collision_pairs(),
    {
        let slots = self.all_slots();
        let mut pairs: Vec<(UnitSlot, UnitSlot)> = Vec::new();
        let mut i: usize = 0;
        while i < slots.len()
            invariant
                i <= slots.len(),
                pairs@ == pairs_upto(slots@, i as nat),
            decreases slots.len() - i,
        {
            let ghost before = pairs@;
            let mut j: usize = i + 1;
            while j < slots.len()
                invariant
                    i < j <= slots.len(),
                    pairs@ == before + pairs_row(slots@, i as int, j as int),
                decreases slots.len() - j,
            {
                pairs.push((slots[i], slots[j]));
                assert(pairs@ =~= before + pairs_row(slots@, i as int, j + 1));
                j += 1;
            }
            i += 1;
        }
        pairs
    }
}

} // verus!
