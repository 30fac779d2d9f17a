//! Small, legible topologies for tests: a line to reason about distance, grids
//! to reason about territories splitting, and closed surfaces (the smallest
//! real planet and a torus) for everything that must hold where a map has no
//! edge.
//!
//! Each shape is described by a neighbour relation that is symmetric by
//! construction; the builder lists exactly that relation for every tile, so
//! the topology is always accepted.

use crate::ids::TileId;
use crate::topology::{lists_view, valid_lists, Topology};
use vstd::arithmetic::div_mod::{lemma_fundamental_div_mod, lemma_fundamental_div_mod_converse};
use vstd::prelude::*;

verus! {

broadcast use vstd::seq_lib::group_seq_properties;

/// `rel` relates tiles of `0..n` only, never a tile to itself, and both ways.
pub open spec fn proper(n: int, rel: spec_fn(int, int) -> bool) -> bool {
    forall|a: int, b: int| #[trigger] rel(a, b) ==> 0 <= a < n && 0 <= b < n && a != b && rel(b, a)
}

/// Turn lists that hold exactly a proper relation into a topology.
fn topology_from(lists: Vec<Vec<TileId>>, Ghost(rel): Ghost<spec_fn(int, int) -> bool>) -> (t: Topology)
    requires
        lists@.len() <= u32::MAX,
        proper(lists@.len() as int, rel),
        forall|i: int, x: TileId| 0 <= i < lists@.len() ==> (#[trigger] lists@[i]@.contains(x) <==> rel(i, x.0 as int)),
    ensures
        t.count() == lists@.len(),
        forall|i: int, x: TileId| 0 <= i < lists@.len() ==> (#[trigger] t.adj()[i].contains(x) <==> rel(i, x.0 as int)),
{
    let ghost n = lists@.len() as int;
    proof {
        let lv = lists_view(lists@);
        assert forall|i: int, x: TileId| 0 <= i < lv.len() && #[trigger] lv[i].contains(x) implies !crate::topology::pair_fault(lv, i, x) by {
            assert(lists@[i]@.contains(x));
            assert(rel(i, x.0 as int));
            assert(rel(x.0 as int, i));
            let back = TileId(i as u32);
            assert(back.0 as int == i);
            assert(lists@[x.0 as int]@.contains(back));
        }
        assert(valid_lists(lv));
    }
    let ghost before = lists@;
    Topology::new(lists).unwrap()
}

/// Append `TileId(x)` when `cond` holds.
fn push_if(v: &mut Vec<TileId>, cond: bool, x: u32)
    ensures
        final(v)@ == if cond { old(v)@.push(TileId(x)) } else { old(v)@ },
{
    if cond {
        v.push(TileId(x));
    }
}

// ---------------------------------------------------------------------------
// Coordinates on a row-major grid
// ---------------------------------------------------------------------------

/// Tile `i` of a `w`-wide grid sits at column `i % w` of row `i / w`.
proof fn lemma_coords(w: int, h: int, i: int)
    requires
        w > 0,
        0 <= i < w * h,
    ensures
        0 <= i % w < w,
        0 <= i / w < h,
        i == (i / w) * w + i % w,
{
    lemma_fundamental_div_mod(i, w);
    assert(w * (i / w) == (i / w) * w) by (nonlinear_arith);
    assert(i / w < h) by (nonlinear_arith)
        requires
            i == (i / w) * w + i % w,
            0 <= i % w < w,
            i < w * h,
            w > 0;
    assert(0 <= i / w) by (nonlinear_arith)
        requires
            i == (i / w) * w + i % w,
            i % w < w,
            i >= 0,
            w > 0;
}

/// Column `c` of row `r` is tile `r·w + c`, and that tile is on the grid.
proof fn lemma_id(w: int, h: int, c: int, r: int)
    requires
        w > 0,
        0 <= c < w,
        0 <= r < h,
    ensures
        (r * w + c) % w == c,
        (r * w + c) / w == r,
        0 <= r * w + c < w * h,
{
    lemma_fundamental_div_mod_converse(r * w + c, w, r, c);
    assert(0 <= r * w + c < w * h) by (nonlinear_arith)
        requires
            0 <= c < w,
            0 <= r < h;
}

// ---------------------------------------------------------------------------
// A line
// ---------------------------------------------------------------------------

/// Tiles `a` and `b` are next to each other on a line of `n`.
pub open spec fn line_adjacent(n: int, a: int, b: int) -> bool {
    0 <= a < n && 0 <= b < n && (b == a + 1 || a == b + 1)
}

/// `n` tiles in a row: `0 — 1 — 2 — … — (n-1)`.
pub fn line(n: u32) -> (t: Topology)
    ensures
        t.count() == n,
        forall|i: int, x: TileId| 0 <= i < n ==> (#[trigger] t.adj()[i].contains(x) <==> line_adjacent(n as int, i, x.0 as int)),
{
    let mut lists: Vec<Vec<TileId>> = Vec::new();
    let mut i: u32 = 0;
    while i < n
        invariant
            i <= n,
            lists@.len() == i,
            forall|j: int, x: TileId| 0 <= j < i ==> (#[trigger] lists@[j]@.contains(x) <==> line_adjacent(n as int, j, x.0 as int)),
        decreases n - i,
    {
        let mut v: Vec<TileId> = Vec::new();
        push_if(&mut v, i > 0, if i > 0 { i - 1 } else { 0 });
        push_if(&mut v, i + 1 < n, if i + 1 < n { i + 1 } else { 0 });
        proof {
            assert forall|x: TileId| #[trigger] v@.contains(x) <==> line_adjacent(n as int, i as int, x.0 as int) by {
                if line_adjacent(n as int, i as int, x.0 as int) {
                    if x.0 == i + 1 {
                        assert(v@.last() == x);
                    } else {
                        assert(v@[0] == x);
                    }
                }
            }
        }
        lists.push(v);
        i = i + 1;
    }
    topology_from(lists, Ghost(|a: int, b: int| line_adjacent(n as int, a, b)))
}

/// The candidates whose flag is set, as a neighbour list.
fn pick(cands: &Vec<(bool, u32)>) -> (v: Vec<TileId>)
    ensures
        forall|x: TileId| #[trigger] v@.contains(x) <==> exists|k: int|
            0 <= k < cands@.len() && (#[trigger] cands@[k]).0 && cands@[k].1 == x.0,
{
    let mut v: Vec<TileId> = Vec::new();
    let mut k: usize = 0;
    while k < cands.len()
        invariant
            k <= cands@.len(),
            forall|x: TileId| #[trigger] v@.contains(x) <==> exists|j: int|
                0 <= j < k && (#[trigger] cands@[j]).0 && cands@[j].1 == x.0,
        decreases cands@.len() - k,
    {
        let (on, x) = cands[k];
        let ghost old_v = v@;
        if on {
            v.push(TileId(x));
        }
        proof {
            assert forall|y: TileId| #[trigger] v@.contains(y) <==> exists|j: int|
                0 <= j < k + 1 && (#[trigger] cands@[j]).0 && cands@[j].1 == y.0 by {
                if v@.contains(y) {
                    if old_v.contains(y) {
                        let j = choose|j: int| 0 <= j < k && (#[trigger] cands@[j]).0 && cands@[j].1 == y.0;
                        assert(0 <= j < k + 1 && cands@[j].0 && cands@[j].1 == y.0);
                    } else {
                        assert(on && y == TileId(x));
                        assert(0 <= k < k + 1 && cands@[k as int].0 && cands@[k as int].1 == y.0);
                    }
                }
                if exists|j: int| 0 <= j < k + 1 && (#[trigger] cands@[j]).0 && cands@[j].1 == y.0 {
                    let j = choose|j: int| 0 <= j < k + 1 && (#[trigger] cands@[j]).0 && cands@[j].1 == y.0;
                    if j < k {
                        assert(old_v.contains(y));
                        let q = choose|q: int| 0 <= q < old_v.len() && old_v[q] == y;
                        assert(v@[q] == y);
                    } else {
                        assert(y == TileId(x));
                        assert(v@.last() == y);
                    }
                }
            }
        }
        k = k + 1;
    }
    v
}

// ---------------------------------------------------------------------------
// A four-way grid
// ---------------------------------------------------------------------------

/// Tiles `a` and `b` share a side on a `w`×`h` grid numbered row by row.
pub open spec fn grid_adjacent(w: int, h: int, a: int, b: int) -> bool {
    &&& w > 0
    &&& 0 <= a < w * h
    &&& 0 <= b < w * h
    &&& {
        ||| a / w == b / w && (b % w == a % w + 1 || a % w == b % w + 1)
        ||| a % w == b % w && (b / w == a / w + 1 || a / w == b / w + 1)
    }
}

/// A `width` × `height` grid with four-way adjacency; tile ids run left to
/// right, top to bottom: `id = row * width + col`.
pub fn grid(width: u32, height: u32) -> (t: Topology)
    requires
        width * height <= u32::MAX,
    ensures
        t.count() == width * height,
        forall|i: int, x: TileId| 0 <= i < width * height ==> (#[trigger] t.adj()[i].contains(x)
            <==> grid_adjacent(width as int, height as int, i, x.0 as int)),
{
    let w = width;
    let h = height;
    let n = w * h;
    let mut lists: Vec<Vec<TileId>> = Vec::new();
    let mut i: u32 = 0;
    while i < n
        invariant
            n == w * h,
            n <= u32::MAX,
            i <= n,
            lists@.len() == i,
            forall|j: int, x: TileId| 0 <= j < i ==> (#[trigger] lists@[j]@.contains(x)
                <==> grid_adjacent(w as int, h as int, j, x.0 as int)),
        decreases n - i,
    {
        proof {
            if w == 0 {
                assert(w * h == 0) by (nonlinear_arith) requires w == 0;
            }
            lemma_coords(w as int, h as int, i as int);
        }
        let c = i % w;
        let r = i / w;
        proof {
            let (wi, hi, ci, ri, ii) = (w as int, h as int, c as int, r as int, i as int);
            assert(ii == ri * wi + ci);
            if r > 0 {
                assert(ii - wi >= 0) by (nonlinear_arith)
                    requires ii == ri * wi + ci, ri >= 1, ci >= 0, wi > 0;
            }
            if r + 1 < h {
                assert(ii + wi < wi * hi) by (nonlinear_arith)
                    requires ii == ri * wi + ci, ri + 1 < hi, 0 <= ci < wi;
            }
        }
        let left = if c > 0 { i - 1 } else { 0 };
        let right = if c + 1 < w { i + 1 } else { 0 };
        let up = if r > 0 { i - w } else { 0 };
        let down = if r + 1 < h { i + w } else { 0 };
        let cands = vec![(c > 0, left), (c + 1 < w, right), (r > 0, up), (r + 1 < h, down)];
        let v = pick(&cands);
        proof {
            let (wi, hi, ci, ri) = (w as int, h as int, c as int, r as int);
            assert(i == ri * wi + ci);
            assert forall|x: TileId| #[trigger] v@.contains(x) <==> grid_adjacent(wi, hi, i as int, x.0 as int) by {
                let xi = x.0 as int;
                if v@.contains(x) {
                    let k = choose|k: int| 0 <= k < cands@.len() && (#[trigger] cands@[k]).0 && cands@[k].1 == x.0;
                    if k == 0 {
                        lemma_id(wi, hi, ci - 1, ri);
                    } else if k == 1 {
                        lemma_id(wi, hi, ci + 1, ri);
                    } else if k == 2 {
                        assert((ri - 1) * wi + ci == i - wi) by (nonlinear_arith)
                            requires i == ri * wi + ci;
                        lemma_id(wi, hi, ci, ri - 1);
                    } else {
                        assert((ri + 1) * wi + ci == i + wi) by (nonlinear_arith)
                            requires i == ri * wi + ci;
                        lemma_id(wi, hi, ci, ri + 1);
                    }
                }
                if grid_adjacent(wi, hi, i as int, xi) {
                    lemma_coords(wi, hi, xi);
                    let (cx, rx) = (xi % wi, xi / wi);
                    if rx == ri && cx + 1 == ci {
                        assert(cands@[0].0 && cands@[0].1 == x.0);
                    } else if rx == ri && cx == ci + 1 {
                        assert(cands@[1].0 && cands@[1].1 == x.0);
                    } else if cx == ci && rx + 1 == ri {
                        assert(rx * wi + cx == i - wi) by (nonlinear_arith)
                            requires rx + 1 == ri, cx == ci, i == ri * wi + ci;
                        assert(cands@[2].0 && cands@[2].1 == x.0);
                    } else {
                        assert(rx * wi + cx == i + wi) by (nonlinear_arith)
                            requires rx == ri + 1, cx == ci, i == ri * wi + ci;
                        assert(cands@[3].0 && cands@[3].1 == x.0);
                    }
                }
            }
        }
        lists.push(v);
        i = i + 1;
    }
    proof {
        let rel = |a: int, b: int| grid_adjacent(w as int, h as int, a, b);
        assert forall|a: int, b: int| #[trigger] rel(a, b) implies 0 <= a < n && 0 <= b < n && a != b && rel(b, a) by {
            assert(grid_adjacent(w as int, h as int, a, b));
        }
    }
    topology_from(lists, Ghost(|a: int, b: int| grid_adjacent(w as int, h as int, a, b)))
}

// ---------------------------------------------------------------------------
// A hex grid
// ---------------------------------------------------------------------------

/// On a hex grid whose odd rows are shifted half a tile right, column `lower`
/// of the row below row `r` touches column `upper` of row `r`.
pub open spec fn hex_below(r: int, upper: int, lower: int) -> bool {
    if r % 2 == 0 {
        lower + 1 == upper || lower == upper
    } else {
        lower == upper || lower == upper + 1
    }
}

/// Tiles `a` and `b` share a side on a `w`×`h` hex grid in odd-row offset
/// layout, numbered row by row.
pub open spec fn hex_adjacent(w: int, h: int, a: int, b: int) -> bool {
    &&& w > 0
    &&& 0 <= a < w * h
    &&& 0 <= b < w * h
    &&& {
        ||| a / w == b / w && (b % w == a % w + 1 || a % w == b % w + 1)
        ||| b / w == a / w + 1 && hex_below(a / w, a % w, b % w)
        ||| a / w == b / w + 1 && hex_below(b / w, b % w, a % w)
    }
}

/// A `width` × `height` hex grid in odd-row offset layout, six-way
/// adjacency; ids run `row * width + col`.
pub fn hex_grid(width: u32, height: u32) -> (t: Topology)
    requires
        width * height <= u32::MAX,
    ensures
        t.count() == width * height,
        forall|i: int, x: TileId| 0 <= i < width * height ==> (#[trigger] t.adj()[i].contains(x)
            <==> hex_adjacent(width as int, height as int, i, x.0 as int)),
{
    let w = width;
    let h = height;
    let n = w * h;
    let mut lists: Vec<Vec<TileId>> = Vec::new();
    let mut i: u32 = 0;
    while i < n
        invariant
            n == w * h,
            n <= u32::MAX,
            i <= n,
            lists@.len() == i,
            forall|j: int, x: TileId| 0 <= j < i ==> (#[trigger] lists@[j]@.contains(x)
                <==> hex_adjacent(w as int, h as int, j, x.0 as int)),
        decreases n - i,
    {
        proof {
            if w == 0 {
                assert(w * h == 0) by (nonlinear_arith) requires w == 0;
            }
            lemma_coords(w as int, h as int, i as int);
        }
        let c = i % w;
        let r = i / w;
        let ghost (wi, hi, ci, ri, ii) = (w as int, h as int, c as int, r as int, i as int);
        proof {
            assert(ii == ri * wi + ci);
            if r > 0 {
                assert(ii - wi >= ci) by (nonlinear_arith)
                    requires ii == ri * wi + ci, ri >= 1, ci >= 0, wi > 0;
            }
            if r + 1 < h {
                assert(ii + wi + (wi - 1 - ci) < wi * hi) by (nonlinear_arith)
                    requires ii == ri * wi + ci, ri + 1 < hi, 0 <= ci < wi;
            }
        }
        let left = if c > 0 { i - 1 } else { 0 };
        let right = if c + 1 < w { i + 1 } else { 0 };
        let even = r % 2 == 0;
        let cands = if even {
            let ul = if c > 0 && r > 0 { i - w - 1 } else { 0 };
            let u = if r > 0 { i - w } else { 0 };
            let dl = if c > 0 && r + 1 < h { i + w - 1 } else { 0 };
            let d = if r + 1 < h { i + w } else { 0 };
            vec![(c > 0, left), (c + 1 < w, right), (c > 0 && r > 0, ul), (r > 0, u), (c > 0 && r + 1 < h, dl), (r + 1 < h, d)]
        } else {
            let u = if r > 0 { i - w } else { 0 };
            let ur = if c + 1 < w && r > 0 { i - w + 1 } else { 0 };
            let d = if r + 1 < h { i + w } else { 0 };
            let dr = if c + 1 < w && r + 1 < h { i + w + 1 } else { 0 };
            vec![(c > 0, left), (c + 1 < w, right), (r > 0, u), (c + 1 < w && r > 0, ur), (r + 1 < h, d), (c + 1 < w && r + 1 < h, dr)]
        };
        let v = pick(&cands);
        proof {
            assert(ri * wi - wi == (ri - 1) * wi) by (nonlinear_arith);
            assert(ri * wi + wi == (ri + 1) * wi) by (nonlinear_arith);
            assert forall|x: TileId| #[trigger] v@.contains(x) <==> hex_adjacent(wi, hi, ii, x.0 as int) by {
                let xi = x.0 as int;
                if v@.contains(x) {
                    let k = choose|k: int| 0 <= k < cands@.len() && (#[trigger] cands@[k]).0 && cands@[k].1 == x.0;
                    if k == 0 {
                        lemma_id(wi, hi, ci - 1, ri);
                    } else if k == 1 {
                        lemma_id(wi, hi, ci + 1, ri);
                    } else if even {
                        if k == 2 {
                            lemma_id(wi, hi, ci - 1, ri - 1);
                        } else if k == 3 {
                            lemma_id(wi, hi, ci, ri - 1);
                        } else if k == 4 {
                            lemma_id(wi, hi, ci - 1, ri + 1);
                        } else {
                            lemma_id(wi, hi, ci, ri + 1);
                        }
                    } else {
                        if k == 2 {
                            lemma_id(wi, hi, ci, ri - 1);
                        } else if k == 3 {
                            lemma_id(wi, hi, ci + 1, ri - 1);
                        } else if k == 4 {
                            lemma_id(wi, hi, ci, ri + 1);
                        } else {
                            lemma_id(wi, hi, ci + 1, ri + 1);
                        }
                    }
                }
                if hex_adjacent(wi, hi, ii, xi) {
                    lemma_coords(wi, hi, xi);
                    let (cx, rx) = (xi % wi, xi / wi);
                    assert(xi == rx * wi + cx);
                    if rx == ri {
                        if cx + 1 == ci {
                            assert(cands@[0].0 && cands@[0].1 == x.0);
                        } else {
                            assert(cands@[1].0 && cands@[1].1 == x.0);
                        }
                    } else if rx == ri + 1 {
                        assert(xi == ii + wi + (cx - ci));
                        if even {
                            if cx + 1 == ci {
                                assert(cands@[4].0 && cands@[4].1 == x.0);
                            } else {
                                assert(cands@[5].0 && cands@[5].1 == x.0);
                            }
                        } else {
                            if cx == ci {
                                assert(cands@[4].0 && cands@[4].1 == x.0);
                            } else {
                                assert(cands@[5].0 && cands@[5].1 == x.0);
                            }
                        }
                    } else {
                        assert(ri == rx + 1);
                        assert(xi == ii - wi + (cx - ci));
                        if even {
                            assert(rx % 2 == 1);
                            if cx + 1 == ci {
                                assert(cands@[2].0 && cands@[2].1 == x.0);
                            } else {
                                assert(cands@[3].0 && cands@[3].1 == x.0);
                            }
                        } else {
                            assert(rx % 2 == 0);
                            if cx == ci {
                                assert(cands@[2].0 && cands@[2].1 == x.0);
                            } else {
                                assert(cands@[3].0 && cands@[3].1 == x.0);
                            }
                        }
                    }
                }
            }
        }
        lists.push(v);
        i = i + 1;
    }
    proof {
        let rel = |a: int, b: int| hex_adjacent(w as int, h as int, a, b);
        assert forall|a: int, b: int| #[trigger] rel(a, b) implies 0 <= a < n && 0 <= b < n && a != b && rel(b, a) by {
            assert(hex_adjacent(w as int, h as int, a, b));
        }
    }
    topology_from(lists, Ghost(|a: int, b: int| hex_adjacent(w as int, h as int, a, b)))
}

// ---------------------------------------------------------------------------
// A torus
// ---------------------------------------------------------------------------

/// One step round a ring of `m`: `v + 1`, back to 0 after `m - 1`.
proof fn lemma_next(v: int, m: int)
    requires
        0 <= v < m,
    ensures
        (v + 1) % m == if v + 1 == m { 0 } else { v + 1 },
{
    if v + 1 == m {
        lemma_fundamental_div_mod_converse(v + 1, m, 1, 0);
    } else {
        lemma_fundamental_div_mod_converse(v + 1, m, 0, v + 1);
    }
}

/// Tiles `a` and `b` share a side on a `w`×`h` grid that wraps both ways.
pub open spec fn torus_adjacent(w: int, h: int, a: int, b: int) -> bool {
    &&& w >= 3
    &&& h >= 3
    &&& 0 <= a < w * h
    &&& 0 <= b < w * h
    &&& {
        ||| a / w == b / w && (b % w == (a % w + 1) % w || a % w == (b % w + 1) % w)
        ||| a % w == b % w && (b / w == (a / w + 1) % h || a / w == (b / w + 1) % h)
    }
}

/// A `width` × `height` grid that wraps in both directions: a closed surface
/// with no boundary, four neighbours per tile. Both sides are at least 3, or
/// a tile would be its own neighbour.
pub fn torus(width: u32, height: u32) -> (t: Topology)
    requires
        width >= 3,
        height >= 3,
        width * height <= u32::MAX,
    ensures
        t.count() == width * height,
        forall|i: int, x: TileId| 0 <= i < width * height ==> (#[trigger] t.adj()[i].contains(x)
            <==> torus_adjacent(width as int, height as int, i, x.0 as int)),
{
    let w = width;
    let h = height;
    let n = w * h;
    let mut lists: Vec<Vec<TileId>> = Vec::new();
    let mut i: u32 = 0;
    while i < n
        invariant
            n == w * h,
            n <= u32::MAX,
            w >= 3,
            h >= 3,
            i <= n,
            lists@.len() == i,
            forall|j: int, x: TileId| 0 <= j < i ==> (#[trigger] lists@[j]@.contains(x)
                <==> torus_adjacent(w as int, h as int, j, x.0 as int)),
        decreases n - i,
    {
        proof {
            lemma_coords(w as int, h as int, i as int);
        }
        let c = i % w;
        let r = i / w;
        let ghost (wi, hi, ci, ri, ii) = (w as int, h as int, c as int, r as int, i as int);
        proof {
            assert(ii == ri * wi + ci);
            assert(ri * wi - wi == (ri - 1) * wi) by (nonlinear_arith);
            assert(ri * wi + wi == (ri + 1) * wi) by (nonlinear_arith);
            assert((hi - 1) * wi + ci < wi * hi) by (nonlinear_arith)
                requires 0 <= ci < wi;
            assert(0 <= (hi - 1) * wi <= wi * hi) by (nonlinear_arith)
                requires hi >= 3, wi >= 3;
            assert(ii - ci + wi - 1 < wi * hi) by (nonlinear_arith)
                requires ii == ri * wi + ci, 0 <= ri < hi, 0 <= ci < wi;
            if r > 0 {
                assert(ii - wi >= ci) by (nonlinear_arith)
                    requires ii == ri * wi + ci, ri >= 1, ci >= 0, wi > 0;
            }
            if r + 1 < h {
                assert(ii + wi < wi * hi) by (nonlinear_arith)
                    requires ii == ri * wi + ci, ri + 1 < hi, 0 <= ci < wi;
            }
            if r == 0 {
                assert(ii + (hi - 1) * wi == (hi - 1) * wi + ci);
            }
        }
        let left = if c == 0 { i + w - 1 } else { i - 1 };
        let right = if c + 1 == w { i + 1 - w } else { i + 1 };
        let up = if r == 0 { i + (h - 1) * w } else { i - w };
        let down = if r + 1 == h { c } else { i + w };
        let cands = vec![(true, left), (true, right), (true, up), (true, down)];
        let v = pick(&cands);
        proof {
            lemma_next(ci, wi);
            lemma_next(ri, hi);
            assert forall|x: TileId| #[trigger] v@.contains(x) <==> torus_adjacent(wi, hi, ii, x.0 as int) by {
                let xi = x.0 as int;
                if v@.contains(x) {
                    let k = choose|k: int| 0 <= k < cands@.len() && (#[trigger] cands@[k]).0 && cands@[k].1 == x.0;
                    if k == 0 {
                        let cx = if ci == 0 { wi - 1 } else { ci - 1 };
                        lemma_id(wi, hi, cx, ri);
                        lemma_next(cx, wi);
                    } else if k == 1 {
                        let cx = if ci + 1 == wi { 0 } else { ci + 1 };
                        lemma_id(wi, hi, cx, ri);
                    } else if k == 2 {
                        let rx = if ri == 0 { hi - 1 } else { ri - 1 };
                        lemma_id(wi, hi, ci, rx);
                        lemma_next(rx, hi);
                    } else {
                        let rx = if ri + 1 == hi { 0 } else { ri + 1 };
                        lemma_id(wi, hi, ci, rx);
                    }
                }
                if torus_adjacent(wi, hi, ii, xi) {
                    lemma_coords(wi, hi, xi);
                    let (cx, rx) = (xi % wi, xi / wi);
                    assert(xi == rx * wi + cx);
                    lemma_next(cx, wi);
                    lemma_next(rx, hi);
                    if rx == ri && cx == (ci + 1) % wi {
                        assert(cands@[1].1 == x.0);
                    } else if rx == ri {
                        assert(cands@[0].1 == x.0);
                    } else if rx == (ri + 1) % hi {
                        if ri + 1 == hi {
                            assert(rx * wi == 0) by (nonlinear_arith) requires rx == 0;
                        }
                        assert(cands@[3].1 == x.0);
                    } else {
                        assert(cands@[2].1 == x.0);
                    }
                }
            }
        }
        lists.push(v);
        i = i + 1;
    }
    proof {
        let rel = |a: int, b: int| torus_adjacent(w as int, h as int, a, b);
        assert forall|a: int, b: int| #[trigger] rel(a, b) implies 0 <= a < n && 0 <= b < n && a != b && rel(b, a) by {
            assert(torus_adjacent(w as int, h as int, a, b));
            lemma_coords(w as int, h as int, a);
            lemma_next(a % (w as int), w as int);
            lemma_next(a / (w as int), h as int);
        }
    }
    topology_from(lists, Ghost(|a: int, b: int| torus_adjacent(w as int, h as int, a, b)))
}

// ---------------------------------------------------------------------------
// The icosahedron
// ---------------------------------------------------------------------------

/// Vertices of an icosahedron: the tiles of the smallest real planet.
pub const VERTEX_COUNT: usize = 12;

/// Faces of an icosahedron.
pub const FACE_COUNT: usize = 20;

/// The twenty faces, as vertex triples wound counter-clockwise seen from
/// outside.
pub const FACES: [[u8; 3]; 20] = [
    [0, 11, 5],
    [0, 5, 1],
    [0, 1, 7],
    [0, 7, 10],
    [0, 10, 11],
    [1, 5, 9],
    [5, 11, 4],
    [11, 10, 2],
    [10, 7, 6],
    [7, 1, 8],
    [3, 9, 4],
    [3, 4, 2],
    [3, 2, 6],
    [3, 6, 8],
    [3, 8, 9],
    [4, 9, 5],
    [2, 4, 11],
    [6, 2, 10],
    [8, 6, 7],
    [9, 8, 1],
];

/// Vertex `v` is a corner of face `f`.
pub open spec fn on_face(f: int, v: int) -> bool {
    FACES@[f]@[0] == v || FACES@[f]@[1] == v || FACES@[f]@[2] == v
}

/// Two distinct vertices of the icosahedron share a face, and so an edge.
pub open spec fn ico_adjacent(a: int, b: int) -> bool {
    a != b && exists|f: int| 0 <= f < 20 && #[trigger] on_face(f, a) && on_face(f, b)
}

/// Every corner of every face is one of the twelve vertices, and a face has
/// three distinct corners.
proof fn lemma_faces_sound()
    ensures
        forall|f: int, j: int| 0 <= f < 20 && 0 <= j < 3 ==> #[trigger] FACES@[f]@[j] < 12,
        forall|f: int| 0 <= f < 20 ==> (#[trigger] FACES@[f])@[0] != FACES@[f]@[1] && FACES@[f]@[1]
            != FACES@[f]@[2] && FACES@[f]@[0] != FACES@[f]@[2],
{
    assert forall|f: int| 0 <= f < 20 implies (#[trigger] FACES@[f])@[0] < 12 && FACES@[f]@[1] < 12 && FACES@[f]@[2] < 12
        && FACES@[f]@[0] != FACES@[f]@[1] && FACES@[f]@[1] != FACES@[f]@[2] && FACES@[f]@[0] != FACES@[f]@[2] by {
        if f == 0 {
            assert(FACES@[0]@[0] < 12 && FACES@[0]@[1] < 12 && FACES@[0]@[2] < 12);
            assert(FACES@[0]@[0] != FACES@[0]@[1] && FACES@[0]@[1] != FACES@[0]@[2] && FACES@[0]@[0] != FACES@[0]@[2]);
        } else if f == 1 {
            assert(FACES@[1]@[0] < 12 && FACES@[1]@[1] < 12 && FACES@[1]@[2] < 12);
            assert(FACES@[1]@[0] != FACES@[1]@[1] && FACES@[1]@[1] != FACES@[1]@[2] && FACES@[1]@[0] != FACES@[1]@[2]);
        } else if f == 2 {
            assert(FACES@[2]@[0] < 12 && FACES@[2]@[1] < 12 && FACES@[2]@[2] < 12);
            assert(FACES@[2]@[0] != FACES@[2]@[1] && FACES@[2]@[1] != FACES@[2]@[2] && FACES@[2]@[0] != FACES@[2]@[2]);
        } else if f == 3 {
            assert(FACES@[3]@[0] < 12 && FACES@[3]@[1] < 12 && FACES@[3]@[2] < 12);
            assert(FACES@[3]@[0] != FACES@[3]@[1] && FACES@[3]@[1] != FACES@[3]@[2] && FACES@[3]@[0] != FACES@[3]@[2]);
        } else if f == 4 {
            assert(FACES@[4]@[0] < 12 && FACES@[4]@[1] < 12 && FACES@[4]@[2] < 12);
            assert(FACES@[4]@[0] != FACES@[4]@[1] && FACES@[4]@[1] != FACES@[4]@[2] && FACES@[4]@[0] != FACES@[4]@[2]);
        } else if f == 5 {
            assert(FACES@[5]@[0] < 12 && FACES@[5]@[1] < 12 && FACES@[5]@[2] < 12);
            assert(FACES@[5]@[0] != FACES@[5]@[1] && FACES@[5]@[1] != FACES@[5]@[2] && FACES@[5]@[0] != FACES@[5]@[2]);
        } else if f == 6 {
            assert(FACES@[6]@[0] < 12 && FACES@[6]@[1] < 12 && FACES@[6]@[2] < 12);
            assert(FACES@[6]@[0] != FACES@[6]@[1] && FACES@[6]@[1] != FACES@[6]@[2] && FACES@[6]@[0] != FACES@[6]@[2]);
        } else if f == 7 {
            assert(FACES@[7]@[0] < 12 && FACES@[7]@[1] < 12 && FACES@[7]@[2] < 12);
            assert(FACES@[7]@[0] != FACES@[7]@[1] && FACES@[7]@[1] != FACES@[7]@[2] && FACES@[7]@[0] != FACES@[7]@[2]);
        } else if f == 8 {
            assert(FACES@[8]@[0] < 12 && FACES@[8]@[1] < 12 && FACES@[8]@[2] < 12);
            assert(FACES@[8]@[0] != FACES@[8]@[1] && FACES@[8]@[1] != FACES@[8]@[2] && FACES@[8]@[0] != FACES@[8]@[2]);
        } else if f == 9 {
            assert(FACES@[9]@[0] < 12 && FACES@[9]@[1] < 12 && FACES@[9]@[2] < 12);
            assert(FACES@[9]@[0] != FACES@[9]@[1] && FACES@[9]@[1] != FACES@[9]@[2] && FACES@[9]@[0] != FACES@[9]@[2]);
        } else if f == 10 {
            assert(FACES@[10]@[0] < 12 && FACES@[10]@[1] < 12 && FACES@[10]@[2] < 12);
            assert(FACES@[10]@[0] != FACES@[10]@[1] && FACES@[10]@[1] != FACES@[10]@[2] && FACES@[10]@[0] != FACES@[10]@[2]);
        } else if f == 11 {
            assert(FACES@[11]@[0] < 12 && FACES@[11]@[1] < 12 && FACES@[11]@[2] < 12);
            assert(FACES@[11]@[0] != FACES@[11]@[1] && FACES@[11]@[1] != FACES@[11]@[2] && FACES@[11]@[0] != FACES@[11]@[2]);
        } else if f == 12 {
            assert(FACES@[12]@[0] < 12 && FACES@[12]@[1] < 12 && FACES@[12]@[2] < 12);
            assert(FACES@[12]@[0] != FACES@[12]@[1] && FACES@[12]@[1] != FACES@[12]@[2] && FACES@[12]@[0] != FACES@[12]@[2]);
        } else if f == 13 {
            assert(FACES@[13]@[0] < 12 && FACES@[13]@[1] < 12 && FACES@[13]@[2] < 12);
            assert(FACES@[13]@[0] != FACES@[13]@[1] && FACES@[13]@[1] != FACES@[13]@[2] && FACES@[13]@[0] != FACES@[13]@[2]);
        } else if f == 14 {
            assert(FACES@[14]@[0] < 12 && FACES@[14]@[1] < 12 && FACES@[14]@[2] < 12);
            assert(FACES@[14]@[0] != FACES@[14]@[1] && FACES@[14]@[1] != FACES@[14]@[2] && FACES@[14]@[0] != FACES@[14]@[2]);
        } else if f == 15 {
            assert(FACES@[15]@[0] < 12 && FACES@[15]@[1] < 12 && FACES@[15]@[2] < 12);
            assert(FACES@[15]@[0] != FACES@[15]@[1] && FACES@[15]@[1] != FACES@[15]@[2] && FACES@[15]@[0] != FACES@[15]@[2]);
        } else if f == 16 {
            assert(FACES@[16]@[0] < 12 && FACES@[16]@[1] < 12 && FACES@[16]@[2] < 12);
            assert(FACES@[16]@[0] != FACES@[16]@[1] && FACES@[16]@[1] != FACES@[16]@[2] && FACES@[16]@[0] != FACES@[16]@[2]);
        } else if f == 17 {
            assert(FACES@[17]@[0] < 12 && FACES@[17]@[1] < 12 && FACES@[17]@[2] < 12);
            assert(FACES@[17]@[0] != FACES@[17]@[1] && FACES@[17]@[1] != FACES@[17]@[2] && FACES@[17]@[0] != FACES@[17]@[2]);
        } else if f == 18 {
            assert(FACES@[18]@[0] < 12 && FACES@[18]@[1] < 12 && FACES@[18]@[2] < 12);
            assert(FACES@[18]@[0] != FACES@[18]@[1] && FACES@[18]@[1] != FACES@[18]@[2] && FACES@[18]@[0] != FACES@[18]@[2]);
        } else if f == 19 {
            assert(FACES@[19]@[0] < 12 && FACES@[19]@[1] < 12 && FACES@[19]@[2] < 12);
            assert(FACES@[19]@[0] != FACES@[19]@[1] && FACES@[19]@[1] != FACES@[19]@[2] && FACES@[19]@[0] != FACES@[19]@[2]);
        }
    }
    assert forall|f: int, j: int| 0 <= f < 20 && 0 <= j < 3 implies #[trigger] FACES@[f]@[j] < 12 by {
        assert(FACES@[f]@[0] < 12 && FACES@[f]@[1] < 12 && FACES@[f]@[2] < 12);
    }
}

/// The smallest real planet: the dual of an icosahedron. Twelve tiles, each
/// a pentagon, on a closed surface.
pub fn icosahedron() -> (t: Topology)
    ensures
        t.count() == VERTEX_COUNT,
        forall|i: int, x: TileId| 0 <= i < 12 ==> (#[trigger] t.adj()[i].contains(x) <==> ico_adjacent(i, x.0 as int)),
{
    proof {
        lemma_faces_sound();
    }
    let mut lists: Vec<Vec<TileId>> = Vec::new();
    let mut i: u8 = 0;
    while i < 12
        invariant
            i <= 12,
            lists@.len() == i,
            forall|f: int, j: int| 0 <= f < 20 && 0 <= j < 3 ==> #[trigger] FACES@[f]@[j] < 12,
            forall|j: int, x: TileId| 0 <= j < i ==> (#[trigger] lists@[j]@.contains(x) <==> ico_adjacent(j, x.0 as int)),
        decreases 12 - i,
    {
        let mut cands: Vec<(bool, u32)> = Vec::new();
        let mut f: usize = 0;
        while f < 20
            invariant
                f <= 20,
                i < 12,
                cands@.len() == 3 * f,
                forall|k: int| 0 <= k < 3 * f ==> #[trigger] cands@[k] == (on_face(k / 3, i as int)
                    && FACES@[k / 3]@[k % 3] != i, FACES@[k / 3]@[k % 3] as u32),
            decreases 20 - f,
        {
            let face = FACES[f];
            let has = face[0] == i || face[1] == i || face[2] == i;
            let mut j: usize = 0;
            while j < 3
                invariant
                    j <= 3,
                    f < 20,
                    face == FACES@[f as int],
                    has == on_face(f as int, i as int),
                    cands@.len() == 3 * f + j,
                    forall|k: int| 0 <= k < 3 * f + j ==> #[trigger] cands@[k] == (on_face(k / 3, i as int)
                        && FACES@[k / 3]@[k % 3] != i, FACES@[k / 3]@[k % 3] as u32),
                decreases 3 - j,
            {
                cands.push((has && face[j] != i, face[j] as u32));
                j = j + 1;
            }
            f = f + 1;
        }
        let v = pick(&cands);
        proof {
            assert forall|x: TileId| #[trigger] v@.contains(x) <==> ico_adjacent(i as int, x.0 as int) by {
                let xi = x.0 as int;
                if v@.contains(x) {
                    let k = choose|k: int| 0 <= k < cands@.len() && (#[trigger] cands@[k]).0 && cands@[k].1 == x.0;
                    let f = k / 3;
                    assert(on_face(f, i as int) && on_face(f, xi));
                }
                if ico_adjacent(i as int, xi) {
                    let f = choose|f: int| 0 <= f < 20 && #[trigger] on_face(f, i as int) && on_face(f, xi);
                    let j: int = if FACES@[f]@[0] == xi { 0 } else if FACES@[f]@[1] == xi { 1 } else { 2 };
                    let k = 3 * f + j;
                    assert(k / 3 == f && k % 3 == j);
                    assert(cands@[k].0 && cands@[k].1 == x.0);
                }
            }
        }
        lists.push(v);
        i = i + 1;
    }
    proof {
        let rel = |a: int, b: int| ico_adjacent(a, b);
        assert forall|a: int, b: int| #[trigger] rel(a, b) implies 0 <= a < 12 && 0 <= b < 12 && a != b && rel(b, a) by {
            let f = choose|f: int| 0 <= f < 20 && #[trigger] on_face(f, a) && on_face(f, b);
            assert(on_face(f, b) && on_face(f, a));
        }
    }
    topology_from(lists, Ghost(|a: int, b: int| ico_adjacent(a, b)))
}

} // verus!
