//! Fingerprints of a planet's integer structure: the geodesic lattice, the
//! adjacency the simulation plays on, and the Goldberg tiling, each written
//! in a fixed byte encoding and hashed with FNV-1a.

use crate::digest::{fnv1a_spec, le_u32, Digest};
use crate::geodesic::LatticeKey;
use crate::hash::{concat_map, lemma_concat_map_take};
use vstd::prelude::*;

verus! {

/// The encoding of a lattice key: a tag, then its fields.
pub open spec fn key_bytes(k: LatticeKey) -> Seq<u8> {
    match k {
        LatticeKey::Corner(v) => seq![0u8, v],
        LatticeKey::Edge { from, to, step } => seq![1u8, from, to] + le_u32(step),
        LatticeKey::Interior { face, i, j } => seq![2u8, face] + le_u32(i) + le_u32(j),
    }
}

/// Numbers one after another, each in four little-endian bytes.
pub open spec fn u32s_bytes(s: Seq<u32>) -> Seq<u8> {
    concat_map(s, |v: u32| le_u32(v))
}

/// The three corners of a triangle, or the three tiles around a corner.
pub open spec fn triple_bytes(t: [u32; 3]) -> Seq<u8> {
    le_u32(t@[0]) + le_u32(t@[1]) + le_u32(t@[2])
}

/// What the lattice fingerprint hashes: frequency, point count, each key,
/// triangle count, each triangle.
pub open spec fn lattice_bytes(frequency: u32, vertex_count: u32, keys: Seq<LatticeKey>, triangles: Seq<[u32; 3]>) -> Seq<u8> {
    le_u32(frequency) + le_u32(vertex_count) + concat_map(keys, |k: LatticeKey| key_bytes(k)) + le_u32(
        triangles.len() as u32,
    ) + concat_map(triangles, |t: [u32; 3]| triple_bytes(t))
}

/// One row of an adjacency: its length in a byte, then its members.
pub open spec fn row_bytes(r: Vec<u32>) -> Seq<u8> {
    seq![r@.len() as u8] + u32s_bytes(r@)
}

/// What the adjacency fingerprint hashes: row count, then each row.
pub open spec fn adjacency_bytes(rows: Seq<Vec<u32>>) -> Seq<u8> {
    le_u32(rows.len() as u32) + concat_map(rows, |r: Vec<u32>| row_bytes(r))
}

/// The integer part of a Goldberg cell: its side count, its corners and its
/// neighbours, in order.
pub struct CellShape {
    pub sides: u8,
    pub corners: Vec<u32>,
    pub neighbors: Vec<u32>,
}

pub open spec fn cell_bytes(c: CellShape) -> Seq<u8> {
    seq![c.sides] + u32s_bytes(c.corners@) + u32s_bytes(c.neighbors@)
}

/// What the tiling fingerprint hashes: frequency, cell count, each cell,
/// corner count, the three cells around each corner.
pub open spec fn tiling_bytes(frequency: u32, cells: Seq<CellShape>, corner_cells: Seq<[u32; 3]>) -> Seq<u8> {
    le_u32(frequency) + le_u32(cells.len() as u32) + concat_map(cells, |c: CellShape| cell_bytes(c)) + le_u32(
        corner_cells.len() as u32,
    ) + concat_map(corner_cells, |t: [u32; 3]| triple_bytes(t))
}

fn write_u32s(d: &mut Digest, s: &Vec<u32>)
    requires
        old(d).wf(),
    ensures
        final(d).wf(),
        final(d).bytes() == old(d).bytes() + u32s_bytes(s@),
{
    let ghost start = d.bytes();
    let ghost f = |v: u32| le_u32(v);
    let mut i: usize = 0;
    while i < s.len()
        invariant
            d.wf(),
            i <= s@.len(),
            f == (|v: u32| le_u32(v)),
            d.bytes() == start + concat_map(s@.take(i as int), f),
        decreases s@.len() - i,
    {
        proof {
            lemma_concat_map_take(s@, f, i as int);
        }
        d.u32(s[i]);
        proof {
            assert(d.bytes() =~= start + concat_map(s@.take(i + 1), f));
        }
        i = i + 1;
    }
    proof {
        assert(s@.take(i as int) =~= s@);
    }
}

fn write_triples(d: &mut Digest, s: &Vec<[u32; 3]>)
    requires
        old(d).wf(),
    ensures
        final(d).wf(),
        final(d).bytes() == old(d).bytes() + concat_map(s@, |t: [u32; 3]| triple_bytes(t)),
{
    let ghost start = d.bytes();
    let ghost f = |t: [u32; 3]| triple_bytes(t);
    let mut i: usize = 0;
    while i < s.len()
        invariant
            d.wf(),
            i <= s@.len(),
            f == (|t: [u32; 3]| triple_bytes(t)),
            d.bytes() == start + concat_map(s@.take(i as int), f),
        decreases s@.len() - i,
    {
        proof {
            lemma_concat_map_take(s@, f, i as int);
        }
        let t = s[i];
        let ghost before = d.bytes();
        d.u32(t[0]);
        d.u32(t[1]);
        d.u32(t[2]);
        proof {
            assert(d.bytes() =~= before + triple_bytes(t));
            assert(d.bytes() =~= start + concat_map(s@.take(i + 1), f));
        }
        i = i + 1;
    }
    proof {
        assert(s@.take(i as int) =~= s@);
    }
}

fn write_key(d: &mut Digest, k: LatticeKey)
    requires
        old(d).wf(),
    ensures
        final(d).wf(),
        final(d).bytes() == old(d).bytes() + key_bytes(k),
{
    let ghost start = d.bytes();
    match k {
        LatticeKey::Corner(v) => {
            d.byte(0);
            d.byte(v);
        },
        LatticeKey::Edge { from, to, step } => {
            d.byte(1);
            d.byte(from);
            d.byte(to);
            d.u32(step);
        },
        LatticeKey::Interior { face, i, j } => {
            d.byte(2);
            d.byte(face);
            d.u32(i);
            d.u32(j);
        },
    }
    assert(d.bytes() =~= start + key_bytes(k));
}

/// The fingerprint of a geodesic lattice's integer structure: its keys and
/// its triangles.
pub fn lattice_hash(frequency: u32, vertex_count: u32, keys: &Vec<LatticeKey>, triangles: &Vec<[u32; 3]>) -> (h: u64)
    ensures
        h == fnv1a_spec(lattice_bytes(frequency, vertex_count, keys@, triangles@)),
{
    let mut d = Digest::new();
    d.u32(frequency);
    d.u32(vertex_count);
    let ghost start = d.bytes();
    let ghost f = |k: LatticeKey| key_bytes(k);
    let mut i: usize = 0;
    while i < keys.len()
        invariant
            d.wf(),
            i <= keys@.len(),
            f == (|k: LatticeKey| key_bytes(k)),
            d.bytes() == start + concat_map(keys@.take(i as int), f),
        decreases keys@.len() - i,
    {
        proof {
            lemma_concat_map_take(keys@, f, i as int);
        }
        write_key(&mut d, keys[i]);
        proof {
            assert(d.bytes() =~= start + concat_map(keys@.take(i + 1), f));
        }
        i = i + 1;
    }
    proof {
        assert(keys@.take(i as int) =~= keys@);
    }
    #[verifier::truncate]
    let n = triangles.len() as u32;
    d.u32(n);
    write_triples(&mut d, triangles);
    proof {
        assert(d.bytes() =~= lattice_bytes(frequency, vertex_count, keys@, triangles@));
    }
    d.finish()
}

/// The fingerprint of an adjacency: each tile's neighbours, in order.
pub fn adjacency_hash(rows: &Vec<Vec<u32>>) -> (h: u64)
    ensures
        h == fnv1a_spec(adjacency_bytes(rows@)),
{
    let mut d = Digest::new();
    #[verifier::truncate]
    let n = rows.len() as u32;
    d.u32(n);
    let ghost start = d.bytes();
    let ghost f = |r: Vec<u32>| row_bytes(r);
    let mut i: usize = 0;
    while i < rows.len()
        invariant
            d.wf(),
            i <= rows@.len(),
            f == (|r: Vec<u32>| row_bytes(r)),
            d.bytes() == start + concat_map(rows@.take(i as int), f),
        decreases rows@.len() - i,
    {
        proof {
            lemma_concat_map_take(rows@, f, i as int);
        }
        let ghost before = d.bytes();
        #[verifier::truncate]
        let len = rows[i].len() as u8;
        d.byte(len);
        write_u32s(&mut d, &rows[i]);
        proof {
            assert(d.bytes() =~= before + row_bytes(rows@[i as int]));
            assert(d.bytes() =~= start + concat_map(rows@.take(i + 1), f));
        }
        i = i + 1;
    }
    proof {
        assert(rows@.take(i as int) =~= rows@);
        assert(d.bytes() =~= adjacency_bytes(rows@));
    }
    d.finish()
}

/// The fingerprint of a Goldberg tiling's integer structure: each cell's
/// sides, corners and neighbours, and the cells around each corner.
pub fn tiling_hash(frequency: u32, cells: &Vec<CellShape>, corner_cells: &Vec<[u32; 3]>) -> (h: u64)
    ensures
        h == fnv1a_spec(tiling_bytes(frequency, cells@, corner_cells@)),
{
    let mut d = Digest::new();
    d.u32(frequency);
    #[verifier::truncate]
    let n = cells.len() as u32;
    d.u32(n);
    let ghost start = d.bytes();
    let ghost f = |c: CellShape| cell_bytes(c);
    let mut i: usize = 0;
    while i < cells.len()
        invariant
            d.wf(),
            i <= cells@.len(),
            f == (|c: CellShape| cell_bytes(c)),
            d.bytes() == start + concat_map(cells@.take(i as int), f),
        decreases cells@.len() - i,
    {
        proof {
            lemma_concat_map_take(cells@, f, i as int);
        }
        let ghost before = d.bytes();
        let c = &cells[i];
        d.byte(c.sides);
        write_u32s(&mut d, &c.corners);
        write_u32s(&mut d, &c.neighbors);
        proof {
            assert(d.bytes() =~= before + cell_bytes(cells@[i as int]));
            assert(d.bytes() =~= start + concat_map(cells@.take(i + 1), f));
        }
        i = i + 1;
    }
    proof {
        assert(cells@.take(i as int) =~= cells@);
    }
    #[verifier::truncate]
    let m = corner_cells.len() as u32;
    d.u32(m);
    write_triples(&mut d, corner_cells);
    proof {
        assert(d.bytes() =~= tiling_bytes(frequency, cells@, corner_cells@));
    }
    d.finish()
}

} // verus!
