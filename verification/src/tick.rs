//! The bookkeeping of a tick: idle units come to rest, bullets meet their
//! fate, and units without health leave.
use vstd::prelude::*;
use crate::common::Vec2;
use crate::state::{
    Bullet, BulletReport, ClientId, GameState, GameView, PlayerView, Pursuit, Unit, UnitId,
    UnitSlot,
};
use crate::targets::TargetMap;

verus! {

/// The unit as a tick leaves it before steering: at rest, unless it has a
/// pending target.
pub open spec fn halt_idle_unit(unit: Unit, targets: Map<UnitId, Vec2>) -> Unit {
    if targets.contains_key(unit.id) {
        unit
    } else {
        unit.halted()
    }
}

/// The player with each unit that has no pending target at rest.
pub open spec fn halt_idle_player(player: PlayerView, targets: Map<UnitId, Vec2>) -> PlayerView {
    PlayerView {
        units: player.units.map_values(|unit: Unit| halt_idle_unit(unit, targets)),
        ..player
    }
}

/// The units of the list that have health left, in order.
pub open spec fn living(units: Seq<Unit>) -> Seq<Unit> {
    units.filter(|unit: Unit| unit.health > 0)
}

/// The units that are selected are units of the list and have health left,
/// and no two of them share an identifier where no two units of the list do.
proof fn lemma_living(units: Seq<Unit>)
    ensures
        forall|k: int|
            0 <= k < living(units).len() ==> units.contains(#[trigger] living(units)[k]) && living(
                units,
            )[k].health > 0,
        (forall|i: int, j: int| 0 <= i < j < units.len() ==> units[i].id != units[j].id) ==> (
        forall|k: int, l: int|
            0 <= k < l < living(units).len() ==> living(units)[k].id != living(units)[l].id),
    decreases units.len(),
{
    reveal(Seq::filter);
    let kept = living(units);
    if units.len() > 0 {
        let before = units.drop_last();
        let found = living(before);
        lemma_living(before);
        assert forall|k: int| 0 <= k < kept.len() implies units.contains(#[trigger] kept[k])
            && kept[k].health > 0 by {
            if k < found.len() {
                assert(before.contains(found[k]));
                let i = choose|i: int| 0 <= i < before.len() && before[i] == found[k];
                assert(units[i] == kept[k]);
            } else {
                assert(units[units.len() - 1] == kept[k]);
            }
        }
        if forall|i: int, j: int| 0 <= i < j < units.len() ==> units[i].id != units[j].id {
            assert forall|i: int, j: int| 0 <= i < j < before.len() implies before[i].id
                != before[j].id by {
                assert(units[i].id != units[j].id);
            }
            assert forall|k: int, l: int| 0 <= k < l < kept.len() implies kept[k].id
                != kept[l].id by {
                if l == found.len() {
                    assert(before.contains(found[k]));
                    let i = choose|i: int| 0 <= i < before.len() && before[i] == found[k];
                    assert(units[i].id != units[units.len() - 1].id);
                } else {
                    assert(found[k].id != found[l].id);
                }
            }
        }
    }
}

impl GameView {
    /// The game with each unit that has no pending target at rest.
    pub open spec fn halt_idle(self, targets: Map<UnitId, Vec2>) -> GameView {
        GameView {
            players: self.players.map_values(
                |player: PlayerView| halt_idle_player(player, targets),
            ),
            ..self
        }
    }

    /// A unit without a pending target is at rest after the first step of a
    /// tick, and a unit with one moves as before. Either stays where it is,
    /// and keeps its identifier, its angle and its health.
    pub proof fn lemma_idle_unit_rests(self, targets: Map<UnitId, Vec2>, slot: UnitSlot)
        requires
            self.has_slot(slot),
        ensures
            self.halt_idle(targets).has_slot(slot),
            !targets.contains_key(self.unit(slot).id) ==> self.halt_idle(targets).unit(
                slot,
            ).speed_vector == Vec2::zero(),
            targets.contains_key(self.unit(slot).id) ==> self.halt_idle(targets).unit(slot)
                == self.unit(slot),
            self.halt_idle(targets).unit(slot) == (Unit {
                speed_vector: self.halt_idle(targets).unit(slot).speed_vector,
                ..self.unit(slot)
            }),
    {
    }

    /// Whether the unit at `slot` has a pending target.
    pub open spec fn pursues(self, targets: Map<UnitId, Vec2>, slot: UnitSlot) -> bool {
        targets.contains_key(self.unit(slot).id)
    }

    /// The unit at `slot` with its pending target.
    pub open spec fn pursuit(self, targets: Map<UnitId, Vec2>, slot: UnitSlot) -> Pursuit {
        Pursuit { slot, target: targets[self.unit(slot).id] }
    }

    /// The units that have a pending target, in scan order, each with its
    /// target.
    pub open spec fn pursuits(self, targets: Map<UnitId, Vec2>) -> Seq<Pursuit> {
        self.slots().filter(|slot: UnitSlot| self.pursues(targets, slot)).map_values(
            |slot: UnitSlot| self.pursuit(targets, slot),
        )
    }

    /// Whether `slot` names a unit that has health left.
    pub open spec fn alive(self, slot: UnitSlot) -> bool {
        self.has_slot(slot) && self.unit(slot).health > 0
    }

    /// The first slot of `touching`, from index `from` on, that names a unit
    /// with health left.
    pub open spec fn first_alive(self, touching: Seq<UnitSlot>, from: int) -> Option<UnitSlot>
        decreases touching.len() - from,
    {
        if from < 0 || from >= touching.len() {
            None
        } else if self.alive(touching[from]) {
            Some(touching[from])
        } else {
            self.first_alive(touching, from + 1)
        }
    }

    /// Which unit a bullet strikes depends on the players alone.
    pub proof fn lemma_first_alive_players(
        self,
        other: GameView,
        touching: Seq<UnitSlot>,
        from: int,
    )
        requires
            self.players == other.players,
        ensures
            self.first_alive(touching, from) == other.first_alive(touching, from),
        decreases touching.len() - from,
    {
        if 0 <= from < touching.len() && !self.alive(touching[from]) {
            self.lemma_first_alive_players(other, touching, from + 1);
        }
    }

    /// The unit that a bullet strikes is a unit of the game with health left.
    pub proof fn lemma_first_alive_is_alive(self, touching: Seq<UnitSlot>, from: int)
        ensures
            self.first_alive(touching, from) matches Some(slot) ==> self.alive(slot),
        decreases touching.len() - from,
    {
        if 0 <= from < touching.len() && !self.alive(touching[from]) {
            self.lemma_first_alive_is_alive(touching, from + 1);
        }
    }

    /// The game after a bullet struck the unit at `slot`.
    pub open spec fn strike(self, slot: UnitSlot) -> GameView
        recommends
            self.has_slot(slot),
    {
        let player = self.players[slot.player as int];
        let units = player.units.update(slot.unit as int, player.units[slot.unit as int].struck());
        GameView {
            players: self.players.update(slot.player as int, PlayerView { units, ..player }),
            ..self
        }
    }

    /// The game after `bullet` met its fate, where `self.bullets` holds the
    /// bullets that stayed so far. A bullet outside the world is gone. One
    /// that touches a unit with health left strikes the first such unit and is
    /// gone. Any other stays.
    pub open spec fn after_bullet(self, bullet: Bullet, report: BulletReport) -> GameView {
        if report.outside {
            self
        } else {
            match self.first_alive(report.touching@, 0) {
                Some(slot) => self.strike(slot),
                None => GameView { bullets: self.bullets.push(bullet), ..self },
            }
        }
    }

    /// The game after the first `upto` of `bullets` met their fate, one after
    /// the other. A bullet without a report stays.
    pub open spec fn resolve(
        self,
        bullets: Seq<Bullet>,
        reports: Seq<BulletReport>,
        upto: nat,
    ) -> GameView
        decreases upto,
    {
        if upto == 0 {
            GameView { bullets: Seq::empty(), ..self }
        } else {
            let before = self.resolve(bullets, reports, (upto - 1) as nat);
            if upto - 1 < reports.len() {
                before.after_bullet(bullets[upto - 1], reports[upto - 1])
            } else {
                GameView { bullets: before.bullets.push(bullets[upto - 1]), ..before }
            }
        }
    }

    /// The game after each of its bullets met its fate.
    pub open spec fn resolve_bullets(self, reports: Seq<BulletReport>) -> GameView {
        self.resolve(self.bullets, reports, self.bullets.len())
    }

    /// The game without the units that have no health left.
    pub open spec fn remove_dead(self) -> GameView {
        GameView {
            players: self.players.map_values(
                |player: PlayerView| PlayerView { units: living(player.units), ..player },
            ),
            ..self
        }
    }

    /// The game after the bookkeeping of one tick: the bullets meet their
    /// fate, then the units without health leave.
    pub open spec fn update(self, reports: Seq<BulletReport>) -> GameView {
        self.resolve_bullets(reports).remove_dead()
    }

    /// Whether `other` has the players and units of this game, slot by slot,
    /// each unit as it is here but for its health, which is no higher.
    pub open spec fn same_but_health(self, other: GameView) -> bool {
        &&& self.players.len() == other.players.len()
        &&& forall|p: int|
            0 <= p < self.players.len() ==> {
                &&& (#[trigger] self.players[p]).id == other.players[p].id
                &&& self.players[p].units.len() == other.players[p].units.len()
            }
        &&& forall|p: int, u: int|
            0 <= p < self.players.len() && 0 <= u < self.players[p].units.len() ==> {
                let here = #[trigger] self.players[p].units[u];
                let there = other.players[p].units[u];
                there == (Unit { health: there.health, ..here }) && there.health <= here.health
            }
    }

    /// Bullets that meet their fate take health from units and do nothing
    /// else to them: no unit moves, turns, comes or goes. The bullets that
    /// stay are bullets of the game, unchanged.
    pub proof fn lemma_resolve_health_only(
        self,
        bullets: Seq<Bullet>,
        reports: Seq<BulletReport>,
        upto: nat,
    )
        requires
            upto <= bullets.len(),
        ensures
            self.same_but_health(self.resolve(bullets, reports, upto)),
            self.same_identities(self.resolve(bullets, reports, upto)),
            forall|k: int|
                0 <= k < self.resolve(bullets, reports, upto).bullets.len() ==> bullets.contains(
                    #[trigger] self.resolve(bullets, reports, upto).bullets[k],
                ),
        decreases upto,
    {
        if upto > 0 {
            let before = self.resolve(bullets, reports, (upto - 1) as nat);
            let after = self.resolve(bullets, reports, upto);
            self.lemma_resolve_health_only(bullets, reports, (upto - 1) as nat);
            if upto - 1 < reports.len() {
                let report = reports[upto - 1];
                before.lemma_first_alive_is_alive(report.touching@, 0);
            }
            assert forall|k: int| 0 <= k < after.bullets.len() implies bullets.contains(
                #[trigger] after.bullets[k],
            ) by {
                if k < before.bullets.len() {
                    assert(after.bullets[k] == before.bullets[k]);
                } else {
                    assert(after.bullets[k] == bullets[upto - 1]);
                }
            }
        }
    }

    /// The bookkeeping of a tick moves nothing: every unit that is left is a
    /// unit of the same player before, with health left and changed in
    /// nothing but its health; no player comes or goes; and every bullet that
    /// is left is a bullet from before, unchanged.
    pub proof fn lemma_update_moves_nothing(self, reports: Seq<BulletReport>)
        requires
            self.fits(),
        ensures
            self.update(reports).players.len() == self.players.len(),
            forall|p: int|
                0 <= p < self.players.len() ==> (#[trigger] self.update(reports).players[p]).id
                    == self.players[p].id,
            forall|a: UnitSlot|
                self.update(reports).has_slot(a) ==> (#[trigger] self.update(reports).unit(
                    a,
                )).health
                    > 0 && exists|u: int|
                    0 <= u < self.players[a.player as int].units.len() && self.update(reports).unit(
                        a,
                    ) == (Unit {
                        health: self.update(reports).unit(a).health,
                        ..#[trigger] self.players[a.player as int].units[u]
                    }),
            forall|k: int|
                0 <= k < self.update(reports).bullets.len() ==> self.bullets.contains(
                    #[trigger] self.update(reports).bullets[k],
                ),
    {
        let resolved = self.resolve_bullets(reports);
        let after = self.update(reports);
        self.lemma_resolve_health_only(self.bullets, reports, self.bullets.len());
        assert forall|a: UnitSlot| after.has_slot(a) implies (#[trigger] after.unit(a)).health > 0
            && exists|u: int|
            0 <= u < self.players[a.player as int].units.len() && after.unit(a) == (Unit {
                health: after.unit(a).health,
                ..#[trigger] self.players[a.player as int].units[u]
            }) by {
            let from = resolved.players[a.player as int].units;
            lemma_living(from);
            assert(from.contains(after.unit(a)));
            let u = choose|u: int| 0 <= u < from.len() && from[u] == after.unit(a);
            let here = self.players[a.player as int].units[u];
            assert(from[u] == (Unit { health: from[u].health, ..here }));
        }
    }

    /// The bookkeeping of a tick lets no player go: who took part before
    /// takes part after.
    pub proof fn lemma_update_keeps_players(self, reports: Seq<BulletReport>, id: ClientId)
        requires
            self.fits(),
        ensures
            self.update(reports).has_player(id) == self.has_player(id),
    {
        let after = self.update(reports);
        self.lemma_update_moves_nothing(reports);
        if self.has_player(id) {
            let i = choose|i: int| 0 <= i < self.players.len() && self.players[i].id == id;
            assert(after.players[i].id == id);
        }
        if after.has_player(id) {
            let i = choose|i: int| 0 <= i < after.players.len() && after.players[i].id == id;
            assert(self.players[i].id == id);
        }
    }

    /// The tick keeps the invariant of the identifiers: what it does to the
    /// bullets changes no identifier, and the units that leave take theirs
    /// along.
    pub proof fn lemma_update_consistent(self, reports: Seq<BulletReport>, clients: nat, units: nat)
        requires
            self.fits(),
            self.consistent(clients, units),
        ensures
            self.update(reports).consistent(clients, units),
    {
        let resolved = self.resolve_bullets(reports);
        let after = self.update(reports);
        self.lemma_resolve_health_only(self.bullets, reports, self.bullets.len());
        self.lemma_same_identities(resolved, clients, units);
        assert forall|a: UnitSlot|
            after.has_slot(a) implies resolved.players[a.player as int].units.contains(
            #[trigger] after.unit(a),
        ) by {
            lemma_living(resolved.players[a.player as int].units);
        }
        assert forall|a: UnitSlot, b: UnitSlot|
            after.has_slot(a) && after.has_slot(b) && a != b implies (#[trigger] after.unit(a)).id
            != (#[trigger] after.unit(b)).id by {
            let from_a = resolved.players[a.player as int].units;
            let from_b = resolved.players[b.player as int].units;
            lemma_living(from_a);
            lemma_living(from_b);
            let i = choose|i: int| 0 <= i < from_a.len() && from_a[i] == after.unit(a);
            let j = choose|j: int| 0 <= j < from_b.len() && from_b[j] == after.unit(b);
            assert(self.players[a.player as int].units.len() == from_a.len());
            assert(self.players[b.player as int].units.len() == from_b.len());
            let old_a = UnitSlot { player: a.player, unit: i as usize };
            let old_b = UnitSlot { player: b.player, unit: j as usize };
            assert(resolved.has_slot(old_a) && resolved.has_slot(old_b));
            assert(resolved.unit(old_a) == after.unit(a));
            assert(resolved.unit(old_b) == after.unit(b));
            if a.player == b.player {
                assert(from_a[i].id != from_a[j].id ==> i != j);
                let kept = living(from_a);
                assert forall|x: int, y: int| 0 <= x < y < from_a.len() implies from_a[x].id
                    != from_a[y].id by {
                    let at_x = UnitSlot { player: a.player, unit: x as usize };
                    let at_y = UnitSlot { player: a.player, unit: y as usize };
                    assert(resolved.has_slot(at_x) && resolved.has_slot(at_y));
                    assert(resolved.unit(at_x).id != resolved.unit(at_y).id);
                }
                assert(after.unit(a) == kept[a.unit as int]);
                assert(after.unit(b) == kept[b.unit as int]);
                if a.unit < b.unit {
                    assert(kept[a.unit as int].id != kept[b.unit as int].id);
                } else {
                    assert(kept[b.unit as int].id != kept[a.unit as int].id);
                }
            }
        }
        assert forall|a: UnitSlot| after.has_slot(a) implies (#[trigger] after.unit(a)).id.0
            < units by {
            let from_a = resolved.players[a.player as int].units;
            let i = choose|i: int| 0 <= i < from_a.len() && from_a[i] == after.unit(a);
            assert(self.players[a.player as int].units.len() == from_a.len());
            let old_a = UnitSlot { player: a.player, unit: i as usize };
            assert(resolved.has_slot(old_a));
            assert(resolved.unit(old_a) == after.unit(a));
        }
        assert forall|i: int, j: int| 0 <= i < j < after.players.len() implies (
        #[trigger] after.players[i]).id != (#[trigger] after.players[j]).id by {
            assert(resolved.players[i].id != resolved.players[j].id);
        }
        assert forall|i: int|
            0 <= i < after.players.len() implies (#[trigger] after.players[i]).id.0
            < clients by {
            assert(resolved.players[i].id.0 < clients);
        }
    }
}

impl GameState {
    /// The units that have a pending target, in scan order, each with its
    /// target.
    pub fn pursuits(&self, unit_targets: &TargetMap) -> (found: Vec<Pursuit>)
        ensures
            found@ == self@.pursuits(unit_targets@),
    {
        let slots = self.all_slots();
        let mut found: Vec<Pursuit> = Vec::new();
        let ghost targets = unit_targets@;
        let ghost pursues = |slot: UnitSlot| self@.pursues(targets, slot);
        let ghost pursuit = |slot: UnitSlot| self@.pursuit(targets, slot);
        proof {
            self.lemma_fits();
            self@.lemma_slots();
        }
        let mut i: usize = 0;
        while i < slots.len()
            invariant
                i <= slots.len(),
                slots@ == self@.slots(),
                targets == unit_targets@,
                pursues == (|slot: UnitSlot| self@.pursues(targets, slot)),
                pursuit == (|slot: UnitSlot| self@.pursuit(targets, slot)),
                found@ == slots@.take(i as int).filter(pursues).map_values(pursuit),
                forall|k: int| 0 <= k < slots.len() ==> self@.has_slot(#[trigger] slots[k]),
            decreases slots.len() - i,
        {
            let slot = slots[i];
            assert(self@.has_slot(slot));
            assert(self@.players[slot.player as int] == self.players@[slot.player as int]@);
            proof {
                assert(slots@.take(i + 1) =~= slots@.take(i as int).push(slot));
                slots@.take(i as int).lemma_filter_push(slot, pursues);
            }
            let ghost before = slots@.take(i as int).filter(pursues);
            match unit_targets.get(self.players[slot.player].units[slot.unit].id) {
                Some(target) => {
                    found.push(Pursuit { slot, target });
                    assert(found@ =~= before.push(slot).map_values(pursuit));
                },
                None => {},
            }
            i += 1;
        }
        assert(slots@.take(slots.len() as int) =~= slots@);
        found
    }

    /// Brings each unit that has no pending target to rest.
    pub fn halt_idle(&mut self, unit_targets: &TargetMap)
        ensures
            final(self)@ == old(self)@.halt_idle(unit_targets@),
    {
        let ghost targets = unit_targets@;
        let mut p: usize = 0;
        while p < self.players.len()
            invariant
                p <= self.players.len(),
                self.players.len() == old(self).players.len(),
                self.bullets == old(self).bullets,
                targets == unit_targets@,
                forall|q: int|
                    0 <= q < p ==> (#[trigger] self.players[q])@ == halt_idle_player(
                        old(self).players[q]@,
                        targets,
                    ),
                forall|q: int|
                    p <= q < self.players.len() ==> (#[trigger] self.players[q])@ == old(
                        self,
                    ).players[q]@,
            decreases self.players.len() - p,
        {
            let count = self.players[p].units.len();
            let ghost entry = self.players@;
            let ghost units = self.players[p as int].units@;
            let mut u: usize = 0;
            while u < count
                invariant
                    u <= count,
                    p < self.players.len(),
                    self.players.len() == entry.len(),
                    self.bullets == old(self).bullets,
                    targets == unit_targets@,
                    count == units.len(),
                    units == entry[p as int].units@,
                    forall|q: int|
                        0 <= q < p ==> (#[trigger] entry[q])@ == halt_idle_player(
                            old(self).players[q]@,
                            targets,
                        ),
                    forall|q: int|
                        p <= q < entry.len() ==> (#[trigger] entry[q])@ == old(self).players[q]@,
                    forall|q: int|
                        0 <= q < entry.len() && q != p ==> #[trigger] self.players[q] == entry[q],
                    self.players[p as int].id == entry[p as int].id,
                    self.players[p as int].units.len() == count,
                    forall|v: int|
                        0 <= v < u ==> (#[trigger] self.players[p as int].units[v])
                            == halt_idle_unit(units[v], targets),
                    forall|v: int|
                        u <= v < count ==> (#[trigger] self.players[p as int].units[v]) == units[v],
                decreases count - u,
            {
                if !unit_targets.contains(self.players[p].units[u].id) {
                    self.players[p].units[u].speed_vector = Vec2::zero();
                }
                u += 1;
            }
            assert(self.players[p as int]@.units =~= halt_idle_player(
                old(self).players[p as int]@,
                targets,
            ).units);
            p += 1;
        }
        assert(self@.players =~= old(self)@.halt_idle(targets).players);
    }

    /// The first step of a tick: each unit that has no pending target comes
    /// to rest, and the units that have one are handed out with their
    /// targets, in scan order, for the steering.
    pub fn update_targets(&mut self, unit_targets: &TargetMap) -> (pursuits: Vec<Pursuit>)
        ensures
            final(self)@ == old(self)@.halt_idle(unit_targets@),
            pursuits@ == old(self)@.pursuits(unit_targets@),
    {
        let pursuits = self.pursuits(unit_targets);
        self.halt_idle(unit_targets);
        pursuits
    }

    /// The first slot of `touching` that names a unit with health left.
    pub fn first_alive(&self, touching: &Vec<UnitSlot>) -> (found: Option<UnitSlot>)
        ensures
            found == self@.first_alive(touching@, 0),
            found matches Some(slot) ==> self@.alive(slot),
    {
        let mut i: usize = 0;
        while i < touching.len()
            invariant
                i <= touching.len(),
                self@.first_alive(touching@, 0) == self@.first_alive(touching@, i as int),
            decreases touching.len() - i,
        {
            let slot = touching[i];
            if slot.player < self.players.len() {
                assert(self@.players[slot.player as int] == self.players@[slot.player as int]@);
                if slot.unit < self.players[slot.player].units.len() {
                    if self.players[slot.player].units[slot.unit].health > 0 {
                        return Some(slot);
                    }
                }
            }
            i += 1;
        }
        None
    }

    /// Lets a bullet strike the unit at `slot`. Nothing happens where the
    /// game has no such unit.
    pub fn strike(&mut self, slot: UnitSlot)
        ensures
            final(self)@ == if old(self)@.has_slot(slot) {
                old(self)@.strike(slot)
            } else {
                old(self)@
            },
    {
        if slot.player < self.players.len() {
            assert(self@.players[slot.player as int] == self.players@[slot.player as int]@);
            if slot.unit < self.players[slot.player].units.len() {
                self.players[slot.player].units[slot.unit].take_hit();
                assert(self@.players =~= old(self)@.strike(slot).players);
            }
        }
    }

    /// Lets each bullet meet its fate, in order: a bullet that `reports`
    /// places outside the world is gone; one that touches a unit with health
    /// left strikes the first such unit and is gone; any other stays.
    pub fn resolve_bullets(&mut self, reports: &Vec<BulletReport>)
        ensures
            final(self)@ == old(self)@.resolve_bullets(reports@),
    {
        let mut kept: Vec<Bullet> = Vec::new();
        let mut i: usize = 0;
        while i < self.bullets.len()
            invariant
                i <= self.bullets.len(),
                self.bullets@ == old(self).bullets@,
                (GameView { bullets: kept@, ..self@ }) == old(self)@.resolve(
                    old(self)@.bullets,
                    reports@,
                    i as nat,
                ),
            decreases self.bullets.len() - i,
        {
            let bullet = self.bullets[i];
            let ghost before = GameView { bullets: kept@, ..self@ };
            if i < reports.len() {
                let report = &reports[i];
                if !report.outside {
                    match self.first_alive(&report.touching) {
                        Some(slot) => {
                            proof {
                                self@.lemma_first_alive_players(before, report.touching@, 0);
                            }
                            self.strike(slot);
                        },
                        None => {
                            proof {
                                self@.lemma_first_alive_players(before, report.touching@, 0);
                            }
                            kept.push(bullet);
                        },
                    }
                }
            } else {
                kept.push(bullet);
            }
            i += 1;
        }
        self.bullets = kept;
    }

    /// Drops the units that have no health left.
    pub fn remove_dead(&mut self)
        ensures
            final(self)@ == old(self)@.remove_dead(),
    {
        let ghost alive = |unit: Unit| unit.health > 0;
        let mut p: usize = 0;
        while p < self.players.len()
            invariant
                p <= self.players.len(),
                self.players.len() == old(self).players.len(),
                self.bullets == old(self).bullets,
                alive == (|unit: Unit| unit.health > 0),
                forall|q: int|
                    0 <= q < p ==> (#[trigger] self.players[q])@ == (PlayerView {
                        units: old(self).players[q].units@.filter(alive),
                        ..old(self).players[q]@
                    }),
                forall|q: int|
                    p <= q < self.players.len() ==> (#[trigger] self.players[q])@ == old(
                        self,
                    ).players[q]@,
            decreases self.players.len() - p,
        {
            let mut living: Vec<Unit> = Vec::new();
            let count = self.players[p].units.len();
            let ghost units = self.players[p as int].units@;
            let mut u: usize = 0;
            while u < count
                invariant
                    u <= count,
                    p < self.players.len(),
                    count == units.len(),
                    units == self.players[p as int].units@,
                    alive == (|unit: Unit| unit.health > 0),
                    living@ == units.take(u as int).filter(alive),
                decreases count - u,
            {
                let unit = self.players[p].units[u];
                proof {
                    assert(units.take(u + 1) =~= units.take(u as int).push(unit));
                    units.take(u as int).lemma_filter_push(unit, alive);
                }
                if unit.health > 0 {
                    living.push(unit);
                }
                u += 1;
            }
            assert(units.take(count as int) =~= units);
            self.players[p].units = living;
            p += 1;
        }
        assert(self@.players =~= old(self)@.remove_dead().players);
    }

    /// The bookkeeping of one tick, on the bullets as they stand after their
    /// move: the bullets meet their fate as in
    /// [`resolve_bullets`](Self::resolve_bullets), then the units without
    /// health leave.
    pub fn update(&mut self, reports: &Vec<BulletReport>)
        ensures
            final(self)@ == old(self)@.update(reports@),
    {
        self.resolve_bullets(reports);
        self.remove_dead();
    }
}

} // verus!
