//! Which units count toward each scaling price.

use crate::rules::UnitKind;
use vstd::prelude::*;

verus! {

/// Recruiting counts every unit in the territory.
pub fn any_unit(kind: UnitKind) -> (b: bool)
    ensures
        b,
{
    true
}

/// Upgrading to warrior counts warriors and knights, not pawns.
pub fn warrior_or_knight(kind: UnitKind) -> (b: bool)
    ensures
        b == (kind == UnitKind::Warrior || kind == UnitKind::Knight),
{
    match kind {
        UnitKind::Warrior | UnitKind::Knight => true,
        UnitKind::Pawn => false,
    }
}

/// Upgrading to knight counts knights only.
pub fn knight_only(kind: UnitKind) -> (b: bool)
    ensures
        b == (kind == UnitKind::Knight),
{
    match kind {
        UnitKind::Knight => true,
        _ => false,
    }
}

} // verus!
