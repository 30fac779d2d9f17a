//! The integer side of the geodesic sphere the planet is the dual of: its
//! closed-form sizes, and the lattice keys that give every mesh point exactly
//! one identity however many faces reach it.

use crate::arith::{decimal, join_num};
use vstd::prelude::*;
use vstd::string::*;

verus! {

/// Largest frequency the mesh is built at.
pub const MAX_FREQUENCY: u32 = 512;

/// Vertices of a frequency-`f` geodesic sphere: `10·f² + 2`.
pub open spec fn spec_vertex_count(f: int) -> int {
    10 * f * f + 2
}

/// Triangles of a frequency-`f` geodesic sphere: `20·f²`.
pub open spec fn spec_triangle_count(f: int) -> int {
    20 * f * f
}

/// Vertices of a frequency-`frequency` geodesic sphere: `10·f² + 2`.
pub fn vertex_count(frequency: u32) -> (n: u32)
    requires
        frequency <= MAX_FREQUENCY,
    ensures
        n == spec_vertex_count(frequency as int),
{
    proof {
        let f = frequency as int;
        assert(10 * f * f <= 10 * 512 * 512) by (nonlinear_arith)
            requires 0 <= f <= 512;
        assert(10 * f <= 10 * f * f + 10) by (nonlinear_arith)
            requires 0 <= f;
    }
    10 * frequency * frequency + 2
}

/// Triangles of a frequency-`frequency` geodesic sphere: `20·f²`.
pub fn triangle_count(frequency: u32) -> (n: u32)
    requires
        frequency <= MAX_FREQUENCY,
    ensures
        n == spec_triangle_count(frequency as int),
{
    proof {
        let f = frequency as int;
        assert(20 * f * f <= 20 * 512 * 512) by (nonlinear_arith)
            requires 0 <= f <= 512;
        assert(20 * f <= 20 * f * f + 20) by (nonlinear_arith)
            requires 0 <= f;
    }
    20 * frequency * frequency
}

/// The identity of a point of the subdivided mesh.
///
/// A point on an icosahedral edge is reached from both faces that share the
/// edge, and a corner from all five of its faces; naming points this way is
/// what keeps them from being made twice.
#[derive(Debug, Clone, Copy, PartialEq, Eq, Structural, PartialOrd, Ord, Hash)]
pub enum LatticeKey {
    /// One of the twelve icosahedral corners.
    Corner(u8),
    /// The point `step` of `n` along the edge between two corners, named
    /// from the lower-numbered corner.
    Edge { from: u8, to: u8, step: u32 },
    /// A point strictly inside one face.
    Interior { face: u8, i: u32, j: u32 },
}

/// The point `step` along the edge `from → to`, named canonically: from the
/// lower-numbered corner.
pub open spec fn spec_edge_key(from: u8, to: u8, n: u32, step: u32) -> LatticeKey {
    if from < to {
        LatticeKey::Edge { from, to, step }
    } else {
        LatticeKey::Edge { from: to, to: from, step: (n - step) as u32 }
    }
}

/// The point `step` along the edge `from → to`, named canonically, so that
/// walking an edge from either end names the same points.
pub fn edge_key(from: u8, to: u8, n: u32, step: u32) -> (k: LatticeKey)
    requires
        step <= n,
    ensures
        k == spec_edge_key(from, to, n, step),
{
    if from < to {
        LatticeKey::Edge { from, to, step }
    } else {
        LatticeKey::Edge { from: to, to: from, step: n - step }
    }
}

/// The key of barycentric point `(i, j)` of face `face` with corners
/// `corners` on a frequency-`n` lattice; `w = n − i − j` is the weight of
/// the first corner.
pub open spec fn spec_lattice_key(face: u8, corners: [u8; 3], n: u32, i: u32, j: u32) -> LatticeKey {
    let (a, b, c) = (corners@[0], corners@[1], corners@[2]);
    let w = n - i - j;
    if i == 0 && j == 0 {
        LatticeKey::Corner(a)
    } else if w == 0 && j == 0 {
        LatticeKey::Corner(b)
    } else if w == 0 && i == 0 {
        LatticeKey::Corner(c)
    } else if j == 0 {
        spec_edge_key(a, b, n, i)
    } else if i == 0 {
        spec_edge_key(a, c, n, j)
    } else if w == 0 {
        spec_edge_key(b, c, n, j)
    } else {
        LatticeKey::Interior { face, i, j }
    }
}

/// The key of barycentric point `(i, j)` of a face: a corner, a point on one
/// of its edges, or an interior point of the face.
pub fn lattice_key(face: u8, corners: [u8; 3], n: u32, i: u32, j: u32) -> (k: LatticeKey)
    requires
        i + j <= n,
    ensures
        k == spec_lattice_key(face, corners, n, i, j),
{
    let w = n - i - j;
    let (a, b, c) = (corners[0], corners[1], corners[2]);
    if i == 0 && j == 0 {
        LatticeKey::Corner(a)
    } else if w == 0 && j == 0 {
        LatticeKey::Corner(b)
    } else if w == 0 && i == 0 {
        LatticeKey::Corner(c)
    } else if j == 0 {
        edge_key(a, b, n, i)
    } else if i == 0 {
        edge_key(a, c, n, j)
    } else if w == 0 {
        edge_key(b, c, n, j)
    } else {
        LatticeKey::Interior { face, i, j }
    }
}

/// Walking an edge from either end names the same point.
pub proof fn lemma_edge_key_either_end(from: u8, to: u8, n: u32, step: u32)
    requires
        step <= n,
        from != to,
    ensures
        spec_edge_key(from, to, n, step) == spec_edge_key(to, from, n, (n - step) as u32),
{
}

/// What a refused frequency is told.
pub open spec fn frequency_text(frequency: u32) -> Seq<char> {
    "geodesic frequency must be 1..=512, got "@ + decimal(frequency as nat)
}

/// Whether the mesh can be built at a frequency, with the mesh's own words
/// when it cannot.
pub fn check_frequency(frequency: u32) -> (res: Result<(), String>)
    ensures
        res is Ok <==> 1 <= frequency <= MAX_FREQUENCY,
        res matches Err(m) ==> m@ == frequency_text(frequency),
{
    if 1 <= frequency && frequency <= MAX_FREQUENCY {
        Ok(())
    } else {
        Err(join_num("geodesic frequency must be 1..=512, got ".to_owned(), frequency as u64))
    }
}

/// The file format of an export.
#[derive(Debug, Clone, Copy, PartialEq, Eq, Structural)]
pub enum Format {
    /// Wavefront OBJ: geometry only.
    Obj,
    /// JSON: geometry plus per-tile data and fingerprints.
    Json,
}

/// Which of the two planets an export writes.
#[derive(Debug, Clone, Copy, PartialEq, Eq, Structural)]
pub enum Kind {
    /// The Goldberg dual: one polygon per tile.
    Tiles,
    /// The geodesic triangle mesh the dual is taken of.
    Mesh,
}

impl Kind {
    /// The name written into exports.
    pub fn as_str(self) -> (s: &'static str)
        ensures
            s@ == match self {
                Kind::Tiles => "tiles"@,
                Kind::Mesh => "mesh"@,
            },
    {
        match self {
            Kind::Tiles => "tiles",
            Kind::Mesh => "mesh",
        }
    }
}

} // verus!
