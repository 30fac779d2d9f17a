//! What the commands that change no hands do to a sound world: a recruit,
//! a build, an upgrade or a move inside the mover's own ground keeps it
//! sound.

use crate::apply::{build_effect, field_price, is_step, kept, recruit_effect, recruit_price, step_effect, town_price,
    upgrade_effect, upgrade_spec, validate_spec};
use crate::command::Command;
use crate::invariants::{disjoint, sound, territory_sound, tile_sound, units_sound};
use crate::movement::reach_ok;
use crate::rules::{Ruleset, TileKind};
use crate::state::{lemma_of_kind_same, 
    find_territory, find_unit, lemma_find_territory_ascending, lemma_find_unit_ascending, lemma_territory_pos_from,
    lemma_unit_pos_from, of_kind, territory_pos, unit_pos, Terrain, Tile, World,
};
use vstd::prelude::*;

verus! {

/// What the quiet commands leave in place, as far as soundness looks: the
/// planet, every territory but its gold, every tile's terrain, owner and
/// territory, which tiles are capitals, and water untouched.
pub open spec fn shape_kept(o: World, w: World) -> bool {
    &&& w.topology == o.topology
    &&& w.tiles@.len() == o.tiles@.len()
    &&& w.territories@.len() == o.territories@.len()
    &&& forall|j: int|
        0 <= j < w.territories@.len() ==> {
            let a = #[trigger] w.territories@[j];
            let b = o.territories@[j];
            &&& a.id == b.id
            &&& a.faction == b.faction
            &&& a.capital == b.capital
            &&& a.wheat == b.wheat
            &&& a.tiles@ == b.tiles@
            &&& a.gold >= 0
        }
    &&& forall|i: int|
        0 <= i < w.tiles@.len() ==> {
            let a = #[trigger] w.tiles@[i];
            let b = o.tiles@[i];
            &&& a.terrain == b.terrain
            &&& a.owner == b.owner
            &&& a.territory == b.territory
            &&& (a.kind == TileKind::Capital) == (b.kind == TileKind::Capital)
            &&& b.terrain != Terrain::Land ==> a == b
        }
}

/// Territory lookups by id land on the same positions when the ids sit in
/// the same places.
proof fn lemma_same_positions(o: World, w: World, id: crate::ids::TerritoryId)
    requires
        o.wf(),
        w.wf(),
        shape_kept(o, w),
    ensures
        territory_pos(w.territories@, id) == territory_pos(o.territories@, id),
{
    lemma_territory_pos_from(o.territories@, id, 0);
    lemma_territory_pos_from(w.territories@, id, 0);
    let p = territory_pos(o.territories@, id);
    let q = territory_pos(w.territories@, id);
    if p >= 0 {
        assert(w.territories@[p].id == id);
        lemma_find_territory_ascending(w.territories@, p);
    } else if q >= 0 {
        assert(o.territories@[q].id == w.territories@[q].id);
    }
}

/// A world whose shape is kept and whose units are sound is sound.
proof fn lemma_sound_carried(o: World, w: World)
    requires
        o.wf(),
        w.wf(),
        sound(o),
        shape_kept(o, w),
        units_sound(w),
    ensures
        sound(w),
{
    assert forall|i: int| 0 <= i < w.tiles@.len() implies #[trigger] tile_sound(w, i) by {
        assert(tile_sound(o, i));
        let a = w.tiles@[i];
        let b = o.tiles@[i];
        if a.terrain == Terrain::Land {
            match a.territory {
                Some(id) => {
                    lemma_same_positions(o, w, id);
                    lemma_territory_pos_from(o.territories@, id, 0);
                    let p = territory_pos(o.territories@, id);
                    assert(w.territories@[p].faction == o.territories@[p].faction);
                    assert(w.territories@[p].tiles@ == o.territories@[p].tiles@);
                },
                None => {},
            }
        }
    }
    assert forall|j: int| 0 <= j < w.territories@.len() implies #[trigger] territory_sound(w, w.territories@[j]) by {
        let a = w.territories@[j];
        let b = o.territories@[j];
        assert(territory_sound(o, b));
        assert(a.tiles@ == b.tiles@);
        assert forall|k: int| 0 <= k < a.tiles@.len() implies w.tiles@[(#[trigger] a.tiles@[k]).0 as int].territory
            == Some(a.id) by {
            assert(b.tiles@[k] == a.tiles@[k]);
            assert(w.tiles@[a.tiles@[k].0 as int].territory == o.tiles@[a.tiles@[k].0 as int].territory);
        }
        assert(a.capital.0 < w.tiles@.len());
        assert(w.tiles@[a.capital.0 as int].kind == TileKind::Capital);
        lemma_of_kind_same(w.tiles@, o.tiles@, a.tiles@, TileKind::Capital);
    }
    assert(disjoint(w.territories@)) by {
        assert(disjoint(o.territories@));
        assert forall|a: int, b: int, x: crate::ids::TileId|
            0 <= a < b < w.territories@.len() && #[trigger] w.territories@[a].tiles@.contains(x) implies !#[trigger] w.territories@[b].tiles@.contains(
            x,
        ) by {
            assert(w.territories@[a].tiles@ == o.territories@[a].tiles@);
            assert(w.territories@[b].tiles@ == o.territories@[b].tiles@);
            assert(o.territories@[a].tiles@.contains(x));
        }
    }
}

/// Treasuries after a quiet command: only the paying territory's gold moved,
/// and it paid no more than it held.
proof fn lemma_paid_shape(o: World, w: World, tid: crate::ids::TerritoryId, price: i32)
    requires
        o.wf(),
        sound(o),
        find_territory(o.territories@, tid) matches Some(t) && t.gold >= price,
        w.territories@.len() == o.territories@.len(),
        ({
            let ti = territory_pos(o.territories@, tid);
            let t = o.territories@[ti];
            &&& w.territories@[ti]@ == (crate::state::TerritoryModel { gold: crate::arith::clamp32(t.gold - price), ..t@ })
            &&& forall|j: int| 0 <= j < o.territories@.len() && j != ti ==> w.territories@[j] == o.territories@[j]
        }),
    ensures
        forall|j: int|
            0 <= j < w.territories@.len() ==> {
                let a = #[trigger] w.territories@[j];
                let b = o.territories@[j];
                &&& a.id == b.id
                &&& a.faction == b.faction
                &&& a.capital == b.capital
                &&& a.wheat == b.wheat
                &&& a.tiles@ == b.tiles@
                &&& a.gold >= 0
            },
{
    let ti = territory_pos(o.territories@, tid);
    assert forall|j: int| 0 <= j < w.territories@.len() implies {
        let a = #[trigger] w.territories@[j];
        let b = o.territories@[j];
        &&& a.id == b.id
        &&& a.faction == b.faction
        &&& a.capital == b.capital
        &&& a.wheat == b.wheat
        &&& a.tiles@ == b.tiles@
        &&& a.gold >= 0
    } by {
        assert(territory_sound(o, o.territories@[j]));
        if j == ti {
            assert(w.territories@[j]@.gold == w.territories@[j].gold);
        }
    }
}

proof fn lemma_recruit_keeps(o: World, w: World, r: Ruleset, tid: crate::ids::TerritoryId, at: crate::ids::TileId)
    requires
        o.wf(),
        sound(o),
        kept(o, w),
        validate_spec(o, r, Command::RecruitUnit { territory: tid, at }) is Ok,
        recruit_effect(o, w, r, tid, at),
    ensures
        sound(w),
{
    lemma_territory_pos_from(o.territories@, tid, 0);
    let ti = territory_pos(o.territories@, tid);
    let t = o.territories@[ti];
    assert(territory_sound(o, t));
    let k = choose|k: int| 0 <= k < t.tiles@.len() && t.tiles@[k] == at;
    assert(o.tiles@[at.0 as int].territory == Some(tid));
    assert(tile_sound(o, at.0 as int));
    assert(o.tiles@[at.0 as int].terrain == Terrain::Land);
    lemma_paid_shape(o, w, tid, recruit_price(o, r, tid));
    assert(shape_kept(o, w));
    let id = crate::ids::UnitId(o.counters().0);
    let n = o.units@.len();
    assert(units_sound(o));
    assert(units_sound(w)) by {
        assert forall|i: int| 0 <= i < w.units@.len() implies {
            let u = #[trigger] w.units@[i];
            &&& w.tiles@[u.tile.0 as int].unit == Some(u.id)
            &&& w.tiles@[u.tile.0 as int].terrain == Terrain::Land
        } by {
            if i < n {
                let u = o.units@[i];
                assert(o.tiles@[u.tile.0 as int].unit == Some(u.id));
                assert(u.tile != at);
            }
        }
        assert forall|x: int| 0 <= x < w.tiles@.len() implies match #[trigger] w.tiles@[x].unit {
            Some(uid) => find_unit(w.units@, uid) is Some,
            None => true,
        } by {
            if x == at.0 as int {
                lemma_find_unit_ascending(w.units@, n as int);
            } else {
                match o.tiles@[x].unit {
                    Some(uid) => {
                        lemma_unit_pos_from(o.units@, uid, 0);
                        let p = unit_pos(o.units@, uid);
                        lemma_find_unit_ascending(w.units@, p);
                    },
                    None => {},
                }
            }
        }
    }
    lemma_sound_carried(o, w);
}

proof fn lemma_build_keeps(o: World, w: World, r: Ruleset, tid: crate::ids::TerritoryId, at: crate::ids::TileId, kind: TileKind, price: i32)
    requires
        o.wf(),
        sound(o),
        kept(o, w),
        kind != TileKind::Capital,
        o.tiles@[at.0 as int].kind == TileKind::Empty,
        find_territory(o.territories@, tid) matches Some(t) && t.gold >= price && t.tiles@.contains(at),
        build_effect(o, w, r, tid, at, kind, price),
    ensures
        sound(w),
{
    lemma_territory_pos_from(o.territories@, tid, 0);
    let ti = territory_pos(o.territories@, tid);
    let t = o.territories@[ti];
    assert(territory_sound(o, t));
    let k = choose|k: int| 0 <= k < t.tiles@.len() && t.tiles@[k] == at;
    assert(o.tiles@[at.0 as int].territory == Some(tid));
    assert(tile_sound(o, at.0 as int));
    lemma_paid_shape(o, w, tid, price);
    assert(shape_kept(o, w));
    assert(units_sound(o));
    assert(units_sound(w)) by {
        assert forall|i: int| 0 <= i < w.units@.len() implies {
            let u = #[trigger] w.units@[i];
            &&& w.tiles@[u.tile.0 as int].unit == Some(u.id)
            &&& w.tiles@[u.tile.0 as int].terrain == Terrain::Land
        } by {
            assert(w.units@[i] == o.units@[i]);
        }
        assert forall|x: int| 0 <= x < w.tiles@.len() implies match #[trigger] w.tiles@[x].unit {
            Some(uid) => find_unit(w.units@, uid) is Some,
            None => true,
        } by {
            assert(w.tiles@[x].unit == o.tiles@[x].unit);
        }
    }
    lemma_sound_carried(o, w);
}

proof fn lemma_upgrade_keeps(o: World, w: World, r: Ruleset, uid: crate::ids::UnitId)
    requires
        o.wf(),
        sound(o),
        kept(o, w),
        upgrade_spec(o, r, uid) matches Some(plan) && (find_territory(o.territories@, plan.2) matches Some(t)
            && t.gold >= plan.1),
        upgrade_effect(o, w, r, uid),
    ensures
        sound(w),
{
    let plan = upgrade_spec(o, r, uid).unwrap();
    lemma_unit_pos_from(o.units@, uid, 0);
    let ui = unit_pos(o.units@, uid);
    lemma_paid_shape(o, w, plan.2, plan.1);
    assert(shape_kept(o, w));
    assert(units_sound(o));
    assert(units_sound(w)) by {
        assert forall|i: int| 0 <= i < w.units@.len() implies {
            let u = #[trigger] w.units@[i];
            &&& w.tiles@[u.tile.0 as int].unit == Some(u.id)
            &&& w.tiles@[u.tile.0 as int].terrain == Terrain::Land
        } by {
            assert(w.units@[i].tile == o.units@[i].tile);
            assert(w.units@[i].id == o.units@[i].id);
        }
        assert forall|x: int| 0 <= x < w.tiles@.len() implies match #[trigger] w.tiles@[x].unit {
            Some(id) => find_unit(w.units@, id) is Some,
            None => true,
        } by {
            match o.tiles@[x].unit {
                Some(id) => {
                    lemma_unit_pos_from(o.units@, id, 0);
                    let p = unit_pos(o.units@, id);
                    assert(w.units@[p].id == o.units@[p].id);
                    lemma_find_unit_ascending(w.units@, p);
                },
                None => {},
            }
        }
    }
    lemma_sound_carried(o, w);
}

proof fn lemma_step_keeps(o: World, w: World, r: Ruleset, uid: crate::ids::UnitId, to: crate::ids::TileId)
    requires
        o.wf(),
        sound(o),
        kept(o, w),
        to.0 < o.tiles@.len(),
        find_unit(o.units@, uid) is Some,
        reach_ok(o, r, uid, to.0 as int),
        is_step(o, uid, to),
        step_effect(o, w, uid, to),
    ensures
        sound(w),
{
    lemma_unit_pos_from(o.units@, uid, 0);
    let ui = unit_pos(o.units@, uid);
    let u = o.units@[ui];
    let from = u.tile.0 as int;
    assert(units_sound(o));
    assert(o.tiles@[from].unit == Some(uid));
    assert(to.0 as int != from && o.tiles@[to.0 as int].unit is None);
    assert(tile_sound(o, to.0 as int));
    assert(o.tiles@[to.0 as int].terrain == Terrain::Land);
    assert(shape_kept(o, w)) by {
        assert forall|j: int| 0 <= j < w.territories@.len() implies {
            let a = #[trigger] w.territories@[j];
            let b = o.territories@[j];
            &&& a.id == b.id
            &&& a.faction == b.faction
            &&& a.capital == b.capital
            &&& a.wheat == b.wheat
            &&& a.tiles@ == b.tiles@
            &&& a.gold >= 0
        } by {
            assert(territory_sound(o, o.territories@[j]));
        }
    }
    assert(units_sound(w)) by {
        assert forall|i: int| 0 <= i < w.units@.len() implies {
            let v = #[trigger] w.units@[i];
            &&& w.tiles@[v.tile.0 as int].unit == Some(v.id)
            &&& w.tiles@[v.tile.0 as int].terrain == Terrain::Land
        } by {
            if i != ui {
                let v = o.units@[i];
                assert(o.tiles@[v.tile.0 as int].unit == Some(v.id));
                assert(v.id != uid);
                assert(v.tile.0 as int != from);
                assert(v.tile != to);
            }
        }
        assert forall|x: int| 0 <= x < w.tiles@.len() implies match #[trigger] w.tiles@[x].unit {
            Some(id) => find_unit(w.units@, id) is Some,
            None => true,
        } by {
            if x == to.0 as int {
                assert(w.units@[ui].id == uid);
                lemma_find_unit_ascending(w.units@, ui);
            } else if x != from {
                match o.tiles@[x].unit {
                    Some(id) => {
                        lemma_unit_pos_from(o.units@, id, 0);
                        let p = unit_pos(o.units@, id);
                        assert(w.units@[p].id == o.units@[p].id);
                        lemma_find_unit_ascending(w.units@, p);
                    },
                    None => {},
                }
            }
        }
    }
    lemma_sound_carried(o, w);
}

/// A recruit, a build, an upgrade, or a move onto ground the mover's
/// faction already holds, once validated and applied, leaves a sound world
/// sound. (Captures and the end of a turn are not covered here.)
pub proof fn lemma_quiet_commands_keep_soundness(o: World, w: World, r: Ruleset, cmd: Command)
    requires
        o.wf(),
        sound(o),
        validate_spec(o, r, cmd) is Ok,
        kept(o, w),
        match cmd {
            Command::RecruitUnit { territory, at } => recruit_effect(o, w, r, territory, at),
            Command::BuildTown { territory, at } => build_effect(o, w, r, territory, at, TileKind::Town, town_price(o, r, territory)),
            Command::BuildField { territory, at } => build_effect(o, w, r, territory, at, TileKind::Field, field_price(o, r, territory)),
            Command::UpgradeUnit { unit } => upgrade_effect(o, w, r, unit),
            Command::MoveUnit { unit, to } => is_step(o, unit, to) && step_effect(o, w, unit, to),
            Command::EndTurn => false,
        },
    ensures
        sound(w),
{
    match cmd {
        Command::RecruitUnit { territory, at } => {
            lemma_recruit_keeps(o, w, r, territory, at);
        },
        Command::BuildTown { territory, at } => {
            lemma_build_keeps(o, w, r, territory, at, TileKind::Town, town_price(o, r, territory));
        },
        Command::BuildField { territory, at } => {
            lemma_build_keeps(o, w, r, territory, at, TileKind::Field, field_price(o, r, territory));
        },
        Command::UpgradeUnit { unit } => {
            lemma_upgrade_keeps(o, w, r, unit);
        },
        Command::MoveUnit { unit, to } => {
            lemma_step_keeps(o, w, r, unit, to);
        },
        Command::EndTurn => {},
    }
}

} // verus!
