//! Tile adjacency: the only spatial knowledge the simulation has.
//!
//! Every spatial question the rules ask ("the centre of a territory", "the
//! capital nearest the captured tile", "within four steps") is answered in
//! graph hops, which are integers and the same on every machine.

use crate::ids::TileId;
use crate::tileset::{contains_tile, has_tile, lemma_increasing_index, normalize_tiles, strictly_increasing};
use vstd::prelude::*;

verus! {

/// Who counts as adjacent to whom.
#[derive(Debug, PartialEq, Eq)]
pub struct Topology {
    /// Neighbours of each tile, ascending with no repeats.
    neighbors: Vec<Vec<TileId>>,
}

#[derive(Debug, Clone, Copy, PartialEq, Eq, Structural)]
pub enum TopologyError {
    OutOfRange { tile: TileId, neighbor: TileId, count: usize },
    Asymmetric { a: TileId, b: TileId },
    SelfLoop(TileId),
}

/// The views of a list of neighbour lists.
pub open spec fn lists_view(v: Seq<Vec<TileId>>) -> Seq<Seq<TileId>> {
    Seq::new(v.len(), |i: int| v[i]@)
}

/// Tile `i` lists `n`, and that entry is out of range, a self loop, or not
/// listed back.
pub open spec fn pair_fault(lists: Seq<Seq<TileId>>, i: int, n: TileId) -> bool {
    n.0 >= lists.len() || n.0 == i || !lists[n.0 as int].contains(TileId(i as u32))
}

/// The error `Topology::new` reports for a faulty entry.
pub open spec fn fault_of(lists: Seq<Seq<TileId>>, i: int, n: TileId) -> TopologyError {
    if n.0 >= lists.len() {
        TopologyError::OutOfRange { tile: TileId(i as u32), neighbor: n, count: lists.len() as usize }
    } else if n.0 == i {
        TopologyError::SelfLoop(n)
    } else {
        TopologyError::Asymmetric { a: TileId(i as u32), b: n }
    }
}

/// Every listed neighbour is in range, distinct from its tile, and lists the
/// tile back.
pub open spec fn valid_lists(lists: Seq<Seq<TileId>>) -> bool {
    forall|i: int, n: TileId| 0 <= i < lists.len() && #[trigger] lists[i].contains(n) ==> !pair_fault(lists, i, n)
}

/// Adjacency that a [`Topology`] may hold.
pub open spec fn valid_adjacency(adj: Seq<Seq<TileId>>) -> bool {
    &&& adj.len() <= u32::MAX
    &&& forall|i: int| 0 <= i < adj.len() ==> strictly_increasing(#[trigger] adj[i])
    &&& valid_lists(adj)
}

impl Topology {
    /// The neighbour lists.
    pub closed spec fn adj(&self) -> Seq<Seq<TileId>> {
        lists_view(self.neighbors@)
    }

    pub open spec fn count(&self) -> nat {
        self.adj().len()
    }

    /// Every topology holds valid adjacency; `use_type_invariant` reveals it.
    #[verifier::type_invariant]
    pub open spec fn inv(&self) -> bool {
        valid_adjacency(self.adj())
    }

    /// Build from raw adjacency lists, sorting them and refusing any that
    /// are out of range, list a tile as its own neighbour, or are not
    /// symmetric. The refusal names the first faulty entry, scanning tiles in
    /// order and each tile's neighbours in ascending order.
    pub fn new(neighbors: Vec<Vec<TileId>>) -> (res: Result<Topology, TopologyError>)
        requires
            neighbors@.len() <= u32::MAX,
        ensures
            res is Ok <==> valid_lists(lists_view(neighbors@)),
            res matches Ok(t) ==> {
                &&& t.count() == neighbors@.len()
                &&& forall|i: int, x: TileId|
                    0 <= i < neighbors@.len() ==> (#[trigger] t.adj()[i].contains(x)
                        <==> neighbors@[i]@.contains(x))
            },
            res matches Err(e) ==> exists|i: int, n: TileId|
                {
                    &&& 0 <= i < neighbors@.len()
                    &&& #[trigger] neighbors@[i]@.contains(n)
                    &&& pair_fault(lists_view(neighbors@), i, n)
                    &&& e == fault_of(lists_view(neighbors@), i, n)
                    &&& forall|j: int, m: TileId|
                        0 <= j < neighbors@.len() && #[trigger] neighbors@[j]@.contains(m) && (j < i
                            || (j == i && m.0 < n.0)) ==> !pair_fault(lists_view(neighbors@), j, m)
                },
    {
        let ghost input = lists_view(neighbors@);
        let count = neighbors.len();
        let mut lists: Vec<Vec<TileId>> = Vec::new();
        let mut i: usize = 0;
        while i < count
            invariant
                count == neighbors@.len(),
                i <= count,
                lists@.len() == i,
                forall|j: int| 0 <= j < i ==> strictly_increasing(#[trigger] lists@[j]@),
                forall|j: int, x: TileId|
                    0 <= j < i ==> (#[trigger] lists@[j]@.contains(x) <==> neighbors@[j]@.contains(x)),
            decreases count - i,
        {
            let sorted = normalize_tiles(&neighbors[i]);
            lists.push(sorted);
            i = i + 1;
        }
        let ghost norm = lists_view(lists@);
        assert forall|j: int, x: TileId| 0 <= j < count implies (#[trigger] norm[j].contains(x)
            <==> input[j].contains(x)) by {
            assert(lists@[j]@.contains(x) <==> neighbors@[j]@.contains(x));
        }
        assert forall|j: int, m: TileId| 0 <= j < count implies (pair_fault(norm, j, m)
            <==> pair_fault(input, j, m)) by {
            if m.0 < count {
                assert(norm[m.0 as int].contains(TileId(j as u32)) <==> input[m.0 as int].contains(
                    TileId(j as u32),
                ));
            }
        }

        let mut t: usize = 0;
        while t < count
            invariant
                count == neighbors@.len() == lists@.len() == norm.len() == input.len(),
                count <= u32::MAX,
                t <= count,
                norm == lists_view(lists@),
                input == lists_view(neighbors@),
                forall|j: int| 0 <= j < count ==> strictly_increasing(#[trigger] lists@[j]@),
                forall|j: int, x: TileId|
                    0 <= j < count ==> (#[trigger] norm[j].contains(x) <==> input[j].contains(x)),
                forall|j: int, m: TileId|
                    0 <= j < count ==> (pair_fault(norm, j, m) <==> pair_fault(input, j, m)),
                forall|j: int, m: TileId|
                    0 <= j < t && #[trigger] input[j].contains(m) ==> !pair_fault(input, j, m),
            decreases count - t,
        {
            let tile = TileId(t as u32);
            let list = &lists[t];
            let mut k: usize = 0;
            while k < list.len()
                invariant
                    count == neighbors@.len() == lists@.len() == norm.len() == input.len(),
                    count <= u32::MAX,
                    t < count,
                    tile == TileId(t as u32),
                    norm == lists_view(lists@),
                    input == lists_view(neighbors@),
                    list@ == lists@[t as int]@,
                    k <= list@.len(),
                    strictly_increasing(list@),
                    forall|j: int| 0 <= j < count ==> strictly_increasing(#[trigger] lists@[j]@),
                    forall|j: int, x: TileId|
                        0 <= j < count ==> (#[trigger] norm[j].contains(x) <==> input[j].contains(x)),
                    forall|j: int, m: TileId|
                        0 <= j < count ==> (pair_fault(norm, j, m) <==> pair_fault(input, j, m)),
                    forall|j: int, m: TileId|
                        0 <= j < t && #[trigger] input[j].contains(m) ==> !pair_fault(input, j, m),
                    forall|q: int| 0 <= q < k ==> !pair_fault(input, t as int, #[trigger] list@[q]),
                decreases list@.len() - k,
            {
                let n = list[k];
                let bad: Option<TopologyError> = if n.index() >= count {
                    Some(TopologyError::OutOfRange { tile, neighbor: n, count })
                } else if n.0 == tile.0 {
                    Some(TopologyError::SelfLoop(tile))
                } else if !contains_tile(&lists[n.index()], tile) {
                    Some(TopologyError::Asymmetric { a: tile, b: n })
                } else {
                    None
                };
                match bad {
                    Some(e) => {
                        proof {
                            assert(norm[t as int].contains(n));
                            assert(input[t as int].contains(n));
                            assert(neighbors@[t as int]@.contains(n));
                            assert forall|j: int, m: TileId|
                                0 <= j < neighbors@.len() && #[trigger] neighbors@[j]@.contains(m)
                                    && (j < t || (j == t && m.0 < n.0)) implies !pair_fault(
                                input,
                                j,
                                m,
                            ) by {
                                if j == t {
                                    assert(input[j].contains(m));
                                    assert(norm[j].contains(m));
                                    let q = choose|q: int| 0 <= q < list@.len() && list@[q] == m;
                                    if q >= k {
                                        if q > k {
                                            assert(list@[k as int].0 < list@[q].0);
                                        }
                                    }
                                } else {
                                    assert(input[j].contains(m));
                                }
                            }
                        }
                        return Err(e);
                    },
                    None => {},
                }
                k = k + 1;
            }
            proof {
                assert forall|j: int, m: TileId|
                    0 <= j < t + 1 && #[trigger] input[j].contains(m) implies !pair_fault(input, j, m) by {
                    if j == t {
                        assert(norm[j].contains(m));
                        let q = choose|q: int| 0 <= q < list@.len() && list@[q] == m;
                        assert(!pair_fault(input, t as int, list@[q]));
                    }
                }
            }
            t = t + 1;
        }
        proof {
            assert forall|i: int, n: TileId| 0 <= i < norm.len() && #[trigger] norm[i].contains(n) implies !pair_fault(norm, i, n) by {
                assert(input[i].contains(n));
            }
            assert forall|i: int| 0 <= i < norm.len() implies strictly_increasing(#[trigger] norm[i]) by {
                assert(strictly_increasing(lists@[i]@));
            }
        }
        assert(valid_adjacency(lists_view(lists@)));
        let topo = Topology { neighbors: lists };
        Ok(topo)
    }

    pub fn tile_count(&self) -> (n: usize)
        ensures
            n == self.count(),
    {
        self.neighbors.len()
    }

    /// The neighbours of a tile, ascending.
    pub fn neighbors(&self, tile: TileId) -> (ns: &[TileId])
        requires
            tile.0 < self.count(),
        ensures
            ns@ == self.adj()[tile.0 as int],
    {
        self.neighbors[tile.index()].as_slice()
    }
}

// ---------------------------------------------------------------------------
// Hop distance
// ---------------------------------------------------------------------------

/// Step `i` of `path` moves to a neighbour that `pass` allows.
pub open spec fn walk_step(adj: Seq<Seq<TileId>>, pass: Seq<bool>, path: Seq<int>, i: int) -> bool {
    &&& 0 <= path[i] < adj.len()
    &&& adj[path[i]].contains(TileId(path[i + 1] as u32))
    &&& 0 <= path[i + 1] < pass.len()
    &&& pass[path[i + 1]]
}

/// `path` starts at `from` and each step moves to a neighbour that `pass`
/// allows. `from` itself needs no permission.
pub open spec fn is_walk(adj: Seq<Seq<TileId>>, pass: Seq<bool>, from: int, path: Seq<int>) -> bool {
    &&& path.len() >= 1
    &&& path[0] == from
    &&& forall|i: int| 0 <= i < path.len() - 1 ==> #[trigger] walk_step(adj, pass, path, i)
}

/// `to` can be reached from `from` in at most `k` steps.
pub open spec fn within(adj: Seq<Seq<TileId>>, pass: Seq<bool>, from: int, to: int, k: nat) -> bool {
    exists|path: Seq<int>| #[trigger] is_walk(adj, pass, from, path) && path.last() == to && path.len() <= k + 1
}

/// The fewest steps from `from` to `to` is exactly `d`.
pub open spec fn exact_hops(adj: Seq<Seq<TileId>>, pass: Seq<bool>, from: int, to: int, d: nat) -> bool {
    within(adj, pass, from, to, d) && (d == 0 || !within(adj, pass, from, to, (d - 1) as nat))
}

/// `to` cannot be reached from `from` at all.
pub open spec fn unreachable(adj: Seq<Seq<TileId>>, pass: Seq<bool>, from: int, to: int) -> bool {
    forall|k: nat| !#[trigger] within(adj, pass, from, to, k)
}

/// `dist` is the hop distance from `from` to every tile, `None` where there
/// is no way through.
pub open spec fn is_hop_distance(adj: Seq<Seq<TileId>>, pass: Seq<bool>, from: int, dist: Seq<Option<u32>>) -> bool {
    &&& dist.len() == adj.len()
    &&& forall|t: int| 0 <= t < adj.len() ==> match #[trigger] dist[t] {
        Some(d) => exact_hops(adj, pass, from, t, d as nat),
        None => unreachable(adj, pass, from, t),
    }
}

pub proof fn lemma_within_monotone(adj: Seq<Seq<TileId>>, pass: Seq<bool>, from: int, to: int, a: nat, b: nat)
    requires
        a <= b,
        within(adj, pass, from, to, a),
    ensures
        within(adj, pass, from, to, b),
{
    let path = choose|path: Seq<int>| #[trigger] is_walk(adj, pass, from, path) && path.last() == to && path.len() <= a + 1;
    assert(is_walk(adj, pass, from, path));
}

pub proof fn lemma_within_zero(adj: Seq<Seq<TileId>>, pass: Seq<bool>, from: int, to: int)
    ensures
        within(adj, pass, from, to, 0) <==> to == from,
{
    if to == from {
        let path = seq![from];
        assert(is_walk(adj, pass, from, path));
    }
}

pub proof fn lemma_step(adj: Seq<Seq<TileId>>, pass: Seq<bool>, from: int, x: int, to: int, k: nat)
    requires
        0 <= x < adj.len(),
        within(adj, pass, from, x, k),
        adj[x].contains(TileId(to as u32)),
        0 <= to < pass.len(),
        pass[to],
    ensures
        within(adj, pass, from, to, k + 1),
{
    let path = choose|path: Seq<int>| #[trigger] is_walk(adj, pass, from, path) && path.last() == x && path.len() <= k + 1;
    let longer = path.push(to);
    assert forall|i: int| 0 <= i < longer.len() - 1 implies #[trigger] walk_step(adj, pass, longer, i) by {
        if i < path.len() - 1 {
            assert(walk_step(adj, pass, path, i));
            assert(longer[i] == path[i]);
            assert(longer[i + 1] == path[i + 1]);
        } else {
            assert(longer[i] == x);
            assert(longer[i + 1] == to);
        }
    }
    assert(is_walk(adj, pass, from, longer));
}

pub proof fn lemma_unstep(adj: Seq<Seq<TileId>>, pass: Seq<bool>, from: int, to: int, k: nat) -> (x: int)
    requires
        within(adj, pass, from, to, k + 1),
        !within(adj, pass, from, to, k),
    ensures
        0 <= x < adj.len(),
        within(adj, pass, from, x, k),
        adj[x].contains(TileId(to as u32)),
        0 <= to < pass.len(),
        pass[to],
{
    let path = choose|path: Seq<int>| #[trigger] is_walk(adj, pass, from, path) && path.last() == to && path.len() <= k + 2;
    if path.len() <= k + 1 {
        assert(is_walk(adj, pass, from, path));
        assert(false);
    }
    let shorter = path.drop_last();
    let x = path[path.len() - 2];
    assert forall|i: int| 0 <= i < shorter.len() - 1 implies #[trigger] walk_step(adj, pass, shorter, i) by {
        assert(walk_step(adj, pass, path, i));
        assert(shorter[i] == path[i]);
        assert(shorter[i + 1] == path[i + 1]);
    }
    assert(is_walk(adj, pass, from, shorter));
    assert(shorter.last() == x);
    assert(walk_step(adj, pass, path, path.len() - 2));
    assert(0 <= path[path.len() - 2] < adj.len());
    x
}

/// When no tile is first reached at step `d`, nothing new is ever reached.
pub proof fn lemma_stalled(adj: Seq<Seq<TileId>>, pass: Seq<bool>, from: int, d: nat, k: nat, to: int)
    requires
        d >= 1,
        k >= d,
        forall|x: int| #[trigger] within(adj, pass, from, x, d) ==> within(adj, pass, from, x, (d - 1) as nat),
        within(adj, pass, from, to, k),
    ensures
        within(adj, pass, from, to, (d - 1) as nat),
    decreases k,
{
    if k > d {
        let j = (k - 1) as nat;
        if within(adj, pass, from, to, j) {
            lemma_stalled(adj, pass, from, d, j, to);
        } else {
            let x = lemma_unstep(adj, pass, from, to, j);
            lemma_stalled(adj, pass, from, d, j, x);
            lemma_step(adj, pass, from, x, to, (d - 1) as nat);
        }
    }
}


/// After a whole layer is expanded, every tile one step further is reached.
proof fn lemma_layer_complete(adj: Seq<Seq<TileId>>, p: Seq<bool>, f: int, dist: Seq<Option<u32>>, frontier: Seq<TileId>, depth: u32)
    requires
        valid_adjacency(adj),
        p.len() == adj.len(),
        dist.len() == adj.len(),
        forall|t: int| 0 <= t < adj.len() ==> match #[trigger] dist[t] {
            Some(d) => d <= depth + 1 && exact_hops(adj, p, f, t, d as nat),
            None => !within(adj, p, f, t, depth as nat),
        },
        forall|t: int| 0 <= t < adj.len() ==> (#[trigger] dist[t] == Some(depth) <==> frontier.contains(TileId(t as u32))),
        forall|q: int, n: TileId| 0 <= q < frontier.len() && #[trigger] adj[frontier[q].0 as int].contains(n) && p[n.0 as int] ==> dist[n.0 as int] is Some,
    ensures
        forall|t: int| 0 <= t < adj.len() && dist[t] is None ==> !within(adj, p, f, t, (depth + 1) as nat),
{
    assert forall|t: int| 0 <= t < adj.len() && dist[t] is None implies !within(adj, p, f, t, (depth + 1) as nat) by {
        if within(adj, p, f, t, (depth + 1) as nat) {
            assert(!within(adj, p, f, t, depth as nat));
            let x = lemma_unstep(adj, p, f, t, depth as nat);
            match dist[x] {
                Some(d) => {
                    if d < depth {
                        lemma_step(adj, p, f, x, t, d as nat);
                        lemma_within_monotone(adj, p, f, t, (d + 1) as nat, depth as nat);
                    } else if d == depth {
                        assert(frontier.contains(TileId(x as u32)));
                        let q = choose|q: int| 0 <= q < frontier.len() && frontier[q] == TileId(x as u32);
                        assert(frontier[q].0 as int == x);
                        assert(adj[frontier[q].0 as int].contains(TileId(t as u32)));
                        assert(p[TileId(t as u32).0 as int]);
                    } else {
                        assert(!within(adj, p, f, x, (d - 1) as nat));
                        assert(((d - 1) as nat) == depth as nat);
                    }
                },
                None => {},
            }
        }
    }
}

/// An empty frontier at `depth` means no tile is first reached at `depth`.
proof fn lemma_nothing_new(adj: Seq<Seq<TileId>>, p: Seq<bool>, f: int, dist: Seq<Option<u32>>, frontier: Seq<TileId>, depth: u32, x: int)
    requires
        p.len() == adj.len(),
        0 <= f < adj.len(),
        depth >= 1,
        dist.len() == adj.len(),
        frontier.len() == 0,
        forall|t: int| 0 <= t < adj.len() ==> match #[trigger] dist[t] {
            Some(d) => d <= depth && exact_hops(adj, p, f, t, d as nat),
            None => !within(adj, p, f, t, depth as nat),
        },
        forall|t: int| 0 <= t < adj.len() ==> (#[trigger] dist[t] == Some(depth) <==> frontier.contains(TileId(t as u32))),
        within(adj, p, f, x, depth as nat),
    ensures
        within(adj, p, f, x, (depth - 1) as nat),
{
    if !within(adj, p, f, x, (depth - 1) as nat) {
        if 0 <= x < adj.len() {
            match dist[x] {
                Some(d) => {
                    if d < depth {
                        lemma_within_monotone(adj, p, f, x, d as nat, (depth - 1) as nat);
                    } else {
                        assert(frontier.contains(TileId(x as u32)));
                    }
                },
                None => {},
            }
        } else {
            lemma_walk_ends_in_range(adj, p, f, x, depth as nat);
        }
    }
}

proof fn lemma_walk_ends_in_range(adj: Seq<Seq<TileId>>, p: Seq<bool>, f: int, x: int, k: nat)
    requires
        p.len() == adj.len(),
        0 <= f < adj.len(),
        within(adj, p, f, x, k),
    ensures
        0 <= x < adj.len(),
{
    let path = choose|path: Seq<int>| #[trigger] is_walk(adj, p, f, path) && path.last() == x && path.len() <= k + 1;
    assert(is_walk(adj, p, f, path));
    if path.len() > 1 {
        let i = path.len() - 2;
        assert(walk_step(adj, p, path, i));
        assert(0 <= path[i] < adj.len());
        assert(0 <= path[i + 1] < p.len());
    }
}

/// An empty frontier at `depth` means the distances are final.
proof fn lemma_search_finished(adj: Seq<Seq<TileId>>, p: Seq<bool>, f: int, dist: Seq<Option<u32>>, frontier: Seq<TileId>, depth: u32)
    requires
        valid_adjacency(adj),
        p.len() == adj.len(),
        0 <= f < adj.len(),
        dist.len() == adj.len(),
        frontier.len() == 0,
        forall|t: int| 0 <= t < adj.len() ==> match #[trigger] dist[t] {
            Some(d) => d <= depth && exact_hops(adj, p, f, t, d as nat),
            None => !within(adj, p, f, t, depth as nat),
        },
        forall|t: int| 0 <= t < adj.len() ==> (#[trigger] dist[t] == Some(depth) <==> frontier.contains(TileId(t as u32))),
    ensures
        is_hop_distance(adj, p, f, dist),
{
    let count = adj.len();
    assert(depth >= 1) by {
        lemma_within_zero(adj, p, f, f);
        if depth == 0 {
            assert(dist[f] is Some);
            assert(dist[f] == Some(0u32));
        }
    }
    assert forall|t: int| 0 <= t < count implies match #[trigger] dist[t] {
        Some(d) => exact_hops(adj, p, f, t, d as nat),
        None => unreachable(adj, p, f, t),
    } by {
        if dist[t] is None {
            assert forall|k: nat| !#[trigger] within(adj, p, f, t, k) by {
                if within(adj, p, f, t, k) {
                    if k <= depth {
                        lemma_within_monotone(adj, p, f, t, k, depth as nat);
                    } else {
                        assert forall|x: int| #[trigger] within(adj, p, f, x, depth as nat) implies within(adj, p, f, x, (depth - 1) as nat) by {
                            lemma_nothing_new(adj, p, f, dist, frontier, depth, x);
                        }
                        lemma_stalled(adj, p, f, depth as nat, k, t);
                        lemma_within_monotone(adj, p, f, t, (depth - 1) as nat, depth as nat);
                    }
                }
            }
        }
    }
}

impl Topology {
    /// Hop distance from `from` to every tile, moving only onto tiles whose
    /// entry in `pass` is true. `from` itself is always at distance 0.
    #[verifier::rlimit(60)]
    pub fn distances_through(&self, from: TileId, pass: &Vec<bool>) -> (dist: Vec<Option<u32>>)
        requires
            from.0 < self.count(),
            pass@.len() == self.count(),
        ensures
            is_hop_distance(self.adj(), pass@, from.0 as int, dist@),
    {
        proof {
            use_type_invariant(self);
        }
        let ghost adj = self.adj();
        let ghost p = pass@;
        let ghost f = from.0 as int;
        let count = self.neighbors.len();
        let mut dist: Vec<Option<u32>> = Vec::new();
        let mut i: usize = 0;
        while i < count
            invariant
                i <= count,
                dist@.len() == i,
                forall|t: int| 0 <= t < i ==> dist@[t] is None,
            decreases count - i,
        {
            dist.push(None);
            i = i + 1;
        }
        dist.set(from.index(), Some(0));
        let mut frontier: Vec<TileId> = Vec::new();
        frontier.push(from);
        let mut depth: u32 = 0;
        let ghost mut visited: Set<int> = Set::empty().insert(f);
        proof {
            vstd::set_lib::lemma_int_range(0, count as int);
            assert forall|t: int| 0 <= t < count && dist@[t] is Some implies exact_hops(adj, p, f, t, 0) by {
                lemma_within_zero(adj, p, f, t);
                if t != f {
                    assert(dist@[t] is None);
                }
            }
            assert forall|t: int| 0 <= t < count && dist@[t] is None implies !within(adj, p, f, t, 0) by {
                lemma_within_zero(adj, p, f, t);
            }
            assert forall|t: int| 0 <= t < count implies (dist@[t] == Some(0u32) <==> frontier@.contains(TileId(t as u32))) by {
                if t == f {
                    assert(frontier@[0] == TileId(t as u32));
                }
                if frontier@.contains(TileId(t as u32)) {
                    let q = choose|q: int| 0 <= q < frontier@.len() && frontier@[q] == TileId(t as u32);
                    assert(q == 0);
                }
            }
            assert(visited.subset_of(vstd::set_lib::set_int_range(0, count as int)));
            vstd::set_lib::lemma_len_subset(visited, vstd::set_lib::set_int_range(0, count as int));
        }
        while frontier.len() > 0
            invariant
                valid_adjacency(adj),
                adj == self.adj(),
                count == adj.len(),
                p == pass@,
                p.len() == count,
                f == from.0,
                0 <= f < count,
                dist@.len() == count,
                forall|t: int| 0 <= t < count ==> match #[trigger] dist@[t] {
                    Some(d) => d <= depth && exact_hops(adj, p, f, t, d as nat),
                    None => !within(adj, p, f, t, depth as nat),
                },
                forall|t: int| 0 <= t < count ==> (#[trigger] dist@[t] == Some(depth) <==> frontier@.contains(TileId(t as u32))),
                forall|q: int| 0 <= q < frontier@.len() ==> (#[trigger] frontier@[q]).0 < count,
                visited.finite(),
                forall|t: int| #[trigger] visited.contains(t) <==> (0 <= t < count && dist@[t] is Some),
                visited.len() <= count,
                frontier@.len() > 0 ==> depth + 1 <= visited.len(),
            decreases count - visited.len() + (if frontier@.len() > 0 { 1int } else { 0int }),
        {
            let mut next: Vec<TileId> = Vec::new();
            let ghost visited_before = visited;
            let mut qi: usize = 0;
            while qi < frontier.len()
                invariant
                    valid_adjacency(adj),
                    adj == self.adj(),
                    count == adj.len(),
                    p == pass@,
                    p.len() == count,
                    f == from.0,
                    0 <= f < count,
                    depth + 1 <= visited_before.len() <= count,
                    qi <= frontier@.len(),
                    dist@.len() == count,
                    forall|t: int| 0 <= t < count ==> match #[trigger] dist@[t] {
                        Some(d) => d <= depth + 1 && exact_hops(adj, p, f, t, d as nat),
                        None => !within(adj, p, f, t, depth as nat),
                    },
                    forall|t: int| 0 <= t < count ==> (#[trigger] dist@[t] == Some(depth) <==> frontier@.contains(TileId(t as u32))),
                    forall|t: int| 0 <= t < count ==> (#[trigger] dist@[t] == Some((depth + 1) as u32) <==> next@.contains(TileId(t as u32))),
                    forall|q: int| 0 <= q < frontier@.len() ==> (#[trigger] frontier@[q]).0 < count,
                    forall|q: int| 0 <= q < next@.len() ==> (#[trigger] next@[q]).0 < count,
                    forall|q: int, n: TileId| 0 <= q < qi && #[trigger] adj[frontier@[q].0 as int].contains(n) && p[n.0 as int] ==> dist@[n.0 as int] is Some,
                    visited.finite(),
                    forall|t: int| #[trigger] visited.contains(t) <==> (0 <= t < count && dist@[t] is Some),
                    visited_before.subset_of(visited),
                    next@.len() > 0 ==> visited.len() >= visited_before.len() + 1,
                    visited.len() <= count,
                decreases frontier@.len() - qi,
            {
                let tile = frontier[qi];
                let ghost ft = tile.0 as int;
                assert(dist@[ft] == Some(depth));
                let ns = &self.neighbors[tile.index()];
                let mut k: usize = 0;
                while k < ns.len()
                    invariant
                        valid_adjacency(adj),
                        adj == self.adj(),
                        count == adj.len(),
                        p == pass@,
                        p.len() == count,
                        f == from.0,
                        0 <= f < count,
                        depth + 1 <= visited_before.len() <= count,
                        qi < frontier@.len(),
                        tile == frontier@[qi as int],
                        ft == tile.0,
                        0 <= ft < count,
                        ns@ == adj[ft],
                        dist@[ft] == Some(depth),
                        exact_hops(adj, p, f, ft, depth as nat),
                        k <= ns@.len(),
                        dist@.len() == count,
                        forall|t: int| 0 <= t < count ==> match #[trigger] dist@[t] {
                            Some(d) => d <= depth + 1 && exact_hops(adj, p, f, t, d as nat),
                            None => !within(adj, p, f, t, depth as nat),
                        },
                        forall|t: int| 0 <= t < count ==> (#[trigger] dist@[t] == Some(depth) <==> frontier@.contains(TileId(t as u32))),
                        forall|t: int| 0 <= t < count ==> (#[trigger] dist@[t] == Some((depth + 1) as u32) <==> next@.contains(TileId(t as u32))),
                        forall|q: int| 0 <= q < frontier@.len() ==> (#[trigger] frontier@[q]).0 < count,
                        forall|q: int| 0 <= q < next@.len() ==> (#[trigger] next@[q]).0 < count,
                        forall|q: int, n: TileId| 0 <= q < qi && #[trigger] adj[frontier@[q].0 as int].contains(n) && p[n.0 as int] ==> dist@[n.0 as int] is Some,
                        forall|j: int| 0 <= j < k && p[(#[trigger] ns@[j]).0 as int] ==> dist@[ns@[j].0 as int] is Some,
                        visited.finite(),
                        forall|t: int| #[trigger] visited.contains(t) <==> (0 <= t < count && dist@[t] is Some),
                        visited_before.subset_of(visited),
                        next@.len() > 0 ==> visited.len() >= visited_before.len() + 1,
                        visited.len() <= count,
                    decreases ns@.len() - k,
                {
                    let n = ns[k];
                    let ghost nt = n.0 as int;
                    assert(adj[ft].contains(n));
                    assert(!pair_fault(adj, ft, n));
                    if dist[n.index()].is_none() && pass[n.index()] {
                        proof {
                            assert(within(adj, p, f, ft, depth as nat));
                            assert(TileId(nt as u32) == n);
                            assert(adj[ft].contains(TileId(nt as u32)));
                            lemma_step(adj, p, f, ft, nt, depth as nat);
                        }
                        let ghost old_dist = dist@;
                        let ghost old_next = next@;
                        dist.set(n.index(), Some(depth + 1));
                        next.push(n);
                        proof {
                            assert(!visited.contains(nt));
                            vstd::set_lib::lemma_len_subset(visited_before, visited);
                            visited = visited.insert(nt);
                            assert(visited.subset_of(vstd::set_lib::set_int_range(0, count as int)));
                            vstd::set_lib::lemma_int_range(0, count as int);
                            vstd::set_lib::lemma_len_subset(visited, vstd::set_lib::set_int_range(0, count as int));
                            assert forall|t: int| 0 <= t < count implies (#[trigger] dist@[t] == Some((depth + 1) as u32) <==> next@.contains(TileId(t as u32))) by {
                                if t == nt {
                                    assert(next@[next@.len() - 1] == TileId(t as u32));
                                } else {
                                    assert(old_dist[t] == dist@[t]);
                                    if next@.contains(TileId(t as u32)) {
                                        let q = choose|q: int| 0 <= q < next@.len() && next@[q] == TileId(t as u32);
                                        if q < old_next.len() {
                                            assert(old_next[q] == TileId(t as u32));
                                        }
                                    }
                                    if old_next.contains(TileId(t as u32)) {
                                        let q = choose|q: int| 0 <= q < old_next.len() && old_next[q] == TileId(t as u32);
                                        assert(next@[q] == TileId(t as u32));
                                    }
                                }
                            }
                            assert forall|t: int| 0 <= t < count implies (#[trigger] dist@[t] == Some(depth) <==> frontier@.contains(TileId(t as u32))) by {
                                if t != nt {
                                    assert(old_dist[t] == dist@[t]);
                                }
                            }
                        }
                    }
                    k = k + 1;
                }
                proof {
                    assert forall|q: int, n: TileId| 0 <= q < qi + 1 && #[trigger] adj[frontier@[q].0 as int].contains(n) && p[n.0 as int] implies dist@[n.0 as int] is Some by {
                        if q == qi {
                            let j = choose|j: int| 0 <= j < ns@.len() && ns@[j] == n;
                            assert(p[ns@[j].0 as int]);
                        }
                    }
                }
                qi = qi + 1;
            }
            proof {
                lemma_layer_complete(adj, p, f, dist@, frontier@, depth);
            }
            proof {
                vstd::set_lib::lemma_len_subset(visited_before, visited);
            }
            depth = depth + 1;
            frontier = next;
            proof {
                if frontier@.len() > 0 {
                    assert(depth + 1 <= visited.len());
                }
            }
        }
        proof {
            lemma_search_finished(adj, p, f, dist@, frontier@, depth);
        }
        dist
    }
}

// ---------------------------------------------------------------------------
// Connectivity within a set of tiles
// ---------------------------------------------------------------------------

/// Some walk leads from `a` to `b`.
pub open spec fn connected(adj: Seq<Seq<TileId>>, pass: Seq<bool>, a: int, b: int) -> bool {
    exists|k: nat| #[trigger] within(adj, pass, a, b, k)
}

/// The membership mask of a tile list over `count` tiles.
pub open spec fn member_mask(count: nat, members: Seq<TileId>) -> Seq<bool> {
    Seq::new(count, |t: int| has_tile(members, t))
}

pub proof fn lemma_walk_reverse(adj: Seq<Seq<TileId>>, pass: Seq<bool>, a: int, b: int, k: nat)
    requires
        valid_adjacency(adj),
        pass.len() == adj.len(),
        0 <= a < adj.len(),
        pass[a],
        within(adj, pass, a, b, k),
    ensures
        within(adj, pass, b, a, k),
{
    let path = choose|path: Seq<int>| #[trigger] is_walk(adj, pass, a, path) && path.last() == b && path.len() <= k + 1;
    assert(is_walk(adj, pass, a, path));
    let n = path.len();
    let rev = Seq::new(n, |i: int| path[n - 1 - i]);
    assert forall|i: int| 0 <= i < rev.len() - 1 implies #[trigger] walk_step(adj, pass, rev, i) by {
        let j = n - 2 - i;
        assert(walk_step(adj, pass, path, j));
        assert(0 <= path[j] < adj.len());
        assert(adj[path[j]].contains(TileId(path[j + 1] as u32)));
        assert(0 <= path[j + 1] < pass.len());
        let nb = TileId(path[j + 1] as u32);
        assert(!pair_fault(adj, path[j], nb));
        assert(nb.0 == path[j + 1]);
        assert(adj[path[j + 1]].contains(TileId(path[j] as u32)));
        assert(rev[i] == path[j + 1]);
        assert(rev[i + 1] == path[j]);
        if j >= 1 {
            assert(walk_step(adj, pass, path, j - 1));
            assert(0 <= path[j - 1] < adj.len());
            assert(pass[path[(j - 1) + 1]]);
        } else {
            assert(path[j] == a);
        }
    }
    assert(is_walk(adj, pass, b, rev));
}

pub proof fn lemma_walk_join(adj: Seq<Seq<TileId>>, pass: Seq<bool>, a: int, b: int, c: int, k1: nat, k2: nat)
    requires
        within(adj, pass, a, b, k1),
        within(adj, pass, b, c, k2),
    ensures
        within(adj, pass, a, c, k1 + k2),
{
    let p1 = choose|path: Seq<int>| #[trigger] is_walk(adj, pass, a, path) && path.last() == b && path.len() <= k1 + 1;
    let p2 = choose|path: Seq<int>| #[trigger] is_walk(adj, pass, b, path) && path.last() == c && path.len() <= k2 + 1;
    assert(is_walk(adj, pass, a, p1));
    assert(is_walk(adj, pass, b, p2));
    let joined = p1 + p2.drop_first();
    let n1 = p1.len();
    assert forall|i: int| 0 <= i < joined.len() - 1 implies #[trigger] walk_step(adj, pass, joined, i) by {
        if i < n1 - 1 {
            assert(walk_step(adj, pass, p1, i));
            assert(joined[i] == p1[i]);
            assert(joined[i + 1] == p1[i + 1]);
        } else {
            let j = i - (n1 - 1);
            assert(walk_step(adj, pass, p2, j));
            assert(joined[i] == p2[j]);
            assert(joined[i + 1] == p2[j + 1]);
        }
    }
    assert(is_walk(adj, pass, a, joined));
    if p2.len() > 1 {
        assert(joined.last() == p2.last());
    }
}

pub proof fn lemma_hop_distance_unique(adj: Seq<Seq<TileId>>, pass: Seq<bool>, from: int, d1: Seq<Option<u32>>, d2: Seq<Option<u32>>)
    requires
        is_hop_distance(adj, pass, from, d1),
        is_hop_distance(adj, pass, from, d2),
    ensures
        d1 == d2,
{
    assert forall|t: int| 0 <= t < d1.len() implies d1[t] == d2[t] by {
        match (d1[t], d2[t]) {
            (Some(a), Some(b)) => {
                if a < b {
                    lemma_within_monotone(adj, pass, from, t, a as nat, (b - 1) as nat);
                } else if b < a {
                    lemma_within_monotone(adj, pass, from, t, b as nat, (a - 1) as nat);
                }
            },
            (Some(a), None) => {
                assert(!within(adj, pass, from, t, a as nat));
            },
            (None, Some(b)) => {
                assert(!within(adj, pass, from, t, b as nat));
            },
            (None, None) => {},
        }
    }
    assert(d1 =~= d2);
}

/// The hop distances from `from` under `pass`.
pub open spec fn hops(adj: Seq<Seq<TileId>>, pass: Seq<bool>, from: int) -> Seq<Option<u32>> {
    choose|d: Seq<Option<u32>>| is_hop_distance(adj, pass, from, d)
}

/// Total hop distance from a candidate to every member; an unreachable
/// member counts `u32::MAX`.
pub open spec fn total_hops(dist: Seq<Option<u32>>, members: Seq<TileId>) -> int
    decreases members.len(),
{
    if members.len() == 0 {
        0
    } else {
        total_hops(dist, members.drop_last()) + match dist[members.last().0 as int] {
            Some(d) => d as int,
            None => u32::MAX as int,
        }
    }
}

/// The centrality score of a candidate within a member set.
pub open spec fn centrality(adj: Seq<Seq<TileId>>, members: Seq<TileId>, c: TileId) -> int {
    total_hops(hops(adj, member_mask(adj.len(), members), c.0 as int), members)
}

impl Topology {
    /// All tile ids, ascending.
    pub fn tiles(&self) -> (v: Vec<TileId>)
        ensures
            v@.len() == self.count(),
            forall|i: int| 0 <= i < v@.len() ==> #[trigger] v@[i] == TileId(i as u32),
    {
        proof {
            use_type_invariant(self);
        }
        let n = self.neighbors.len();
        let mut v: Vec<TileId> = Vec::new();
        let mut i: usize = 0;
        while i < n
            invariant
                n == self.count(),
                n <= u32::MAX,
                i <= n,
                v@.len() == i,
                forall|j: int| 0 <= j < i ==> #[trigger] v@[j] == TileId(j as u32),
            decreases n - i,
        {
            v.push(TileId(i as u32));
            i = i + 1;
        }
        v
    }

    /// Hop distance from `from` to every tile reachable through tiles for
    /// which `passable` holds. `from` itself is always at distance 0, even
    /// when it is not passable.
    pub fn distances_from<F: Fn(TileId) -> bool>(&self, from: TileId, passable: F) -> (dist: Vec<Option<u32>>)
        requires
            from.0 < self.count(),
            forall|t: TileId| call_requires(passable, (t,)),
        ensures
            exists|m: Seq<bool>|
                {
                    &&& m.len() == self.count()
                    &&& forall|i: int| 0 <= i < m.len() ==> call_ensures(passable, (TileId(i as u32),), #[trigger] m[i])
                    &&& is_hop_distance(self.adj(), m, from.0 as int, dist@)
                },
    {
        proof {
            use_type_invariant(self);
        }
        let n = self.neighbors.len();
        let mut mask: Vec<bool> = Vec::new();
        let mut i: usize = 0;
        while i < n
            invariant
                n == self.count(),
                n <= u32::MAX,
                i <= n,
                mask@.len() == i,
                forall|t: TileId| call_requires(passable, (t,)),
                forall|j: int| 0 <= j < i ==> call_ensures(passable, (TileId(j as u32),), #[trigger] mask@[j]),
            decreases n - i,
        {
            let b = passable(TileId(i as u32));
            mask.push(b);
            i = i + 1;
        }
        let dist = self.distances_through(from, &mask);
        assert(mask@.len() == self.count());
        dist
    }

    /// Hop distance from `from` to `to` through tiles for which `passable`
    /// holds; `Some(0)` when they are the same tile.
    pub fn distance<F: Fn(TileId) -> bool>(&self, from: TileId, to: TileId, passable: F) -> (d: Option<u32>)
        requires
            from.0 < self.count(),
            to.0 < self.count(),
            forall|t: TileId| call_requires(passable, (t,)),
        ensures
            from == to ==> d == Some(0u32),
            from != to ==> exists|m: Seq<bool>|
                {
                    &&& m.len() == self.count()
                    &&& forall|i: int| 0 <= i < m.len() ==> call_ensures(passable, (TileId(i as u32),), #[trigger] m[i])
                    &&& match d {
                        Some(k) => exact_hops(self.adj(), m, from.0 as int, to.0 as int, k as nat),
                        None => unreachable(self.adj(), m, from.0 as int, to.0 as int),
                    }
                },
    {
        if from.0 == to.0 {
            return Some(0);
        }
        let dist = self.distances_from(from, passable);
        dist[to.index()]
    }

    /// Membership mask of a tile list.
    pub fn mask_of(&self, members: &Vec<TileId>) -> (m: Vec<bool>)
        requires
            forall|i: int| 0 <= i < members@.len() ==> (#[trigger] members@[i]).0 < self.count(),
        ensures
            m@ == member_mask(self.count(), members@),
    {
        let n = self.neighbors.len();
        let mut m: Vec<bool> = Vec::new();
        let mut i: usize = 0;
        while i < n
            invariant
                n == self.count(),
                i <= n,
                m@.len() == i,
                forall|j: int| 0 <= j < i ==> !#[trigger] m@[j],
            decreases n - i,
        {
            m.push(false);
            i = i + 1;
        }
        let mut k: usize = 0;
        while k < members.len()
            invariant
                n == self.count(),
                k <= members@.len(),
                m@.len() == n,
                forall|i: int| 0 <= i < members@.len() ==> (#[trigger] members@[i]).0 < n,
                forall|t: int| 0 <= t < n ==> (#[trigger] m@[t] <==> has_tile(members@.take(k as int), t)),
            decreases members@.len() - k,
        {
            let x = members[k];
            m.set(x.index(), true);
            proof {
                assert forall|t: int| 0 <= t < n implies (#[trigger] m@[t] <==> has_tile(members@.take(k + 1), t)) by {
                    let s1 = members@.take(k + 1);
                    let s0 = members@.take(k as int);
                    if has_tile(s1, t) {
                        let i = choose|i: int| 0 <= i < s1.len() && s1[i].0 == t;
                        if i < k {
                            assert(s0[i].0 == t);
                        }
                    }
                    if has_tile(s0, t) {
                        let i = choose|i: int| 0 <= i < s0.len() && s0[i].0 == t;
                        assert(s1[i].0 == t);
                    }
                    if t == x.0 {
                        assert(members@.take(k + 1)[k as int].0 == t);
                    }
                }
            }
            k = k + 1;
        }
        proof {
            assert(members@.take(k as int) =~= members@);
            assert(m@ =~= member_mask(n as nat, members@));
        }
        m
    }
}


// ---------------------------------------------------------------------------
// Components
// ---------------------------------------------------------------------------

proof fn lemma_connected_symm(adj: Seq<Seq<TileId>>, pass: Seq<bool>, a: int, b: int)
    requires
        valid_adjacency(adj),
        pass.len() == adj.len(),
        0 <= a < adj.len(),
        pass[a],
        connected(adj, pass, a, b),
    ensures
        connected(adj, pass, b, a),
{
    let k = choose|k: nat| #[trigger] within(adj, pass, a, b, k);
    lemma_walk_reverse(adj, pass, a, b, k);
    assert(within(adj, pass, b, a, k));
}

proof fn lemma_connected_trans(adj: Seq<Seq<TileId>>, pass: Seq<bool>, a: int, b: int, c: int)
    requires
        connected(adj, pass, a, b),
        connected(adj, pass, b, c),
    ensures
        connected(adj, pass, a, c),
{
    let k1 = choose|k: nat| #[trigger] within(adj, pass, a, b, k);
    let k2 = choose|k: nat| #[trigger] within(adj, pass, b, c, k);
    lemma_walk_join(adj, pass, a, b, c, k1, k2);
    assert(within(adj, pass, a, c, k1 + k2));
}

/// A walk that moves at all ends on a passable tile.
proof fn lemma_connected_end(adj: Seq<Seq<TileId>>, pass: Seq<bool>, a: int, b: int)
    requires
        connected(adj, pass, a, b),
        a != b,
    ensures
        0 <= b < pass.len(),
        pass[b],
{
    let k = choose|k: nat| #[trigger] within(adj, pass, a, b, k);
    let path = choose|path: Seq<int>| #[trigger] is_walk(adj, pass, a, path) && path.last() == b && path.len() <= k + 1;
    assert(is_walk(adj, pass, a, path));
    assert(path.len() >= 2);
    let i = path.len() - 2;
    assert(walk_step(adj, pass, path, i));
    assert(0 <= path[i] < adj.len());
    assert(path[i + 1] == b);
}

/// A walk that moves at all ends on a passable tile.
pub proof fn lemma_reached_passable(adj: Seq<Seq<TileId>>, pass: Seq<bool>, from: int, to: int, k: nat)
    requires
        within(adj, pass, from, to, k),
        from != to,
    ensures
        0 <= to < pass.len(),
        pass[to],
{
    assert(connected(adj, pass, from, to));
    lemma_connected_end(adj, pass, from, to);
}

/// One component: a non-empty ascending list whose first tile is a member,
/// holding exactly the members connected to that tile.
pub open spec fn component_ok(adj: Seq<Seq<TileId>>, members: Seq<TileId>, c: Seq<TileId>) -> bool {
    let m = member_mask(adj.len(), members);
    &&& c.len() > 0
    &&& strictly_increasing(c)
    &&& members.contains(c[0])
    &&& forall|x: TileId| #[trigger] c.contains(x) <==> (members.contains(x) && connected(adj, m, c[0].0 as int, x.0 as int))
}

/// `comps` splits `members` into its connected components (moving only
/// between members), ordered by their lowest tile.
pub open spec fn is_component_split(adj: Seq<Seq<TileId>>, members: Seq<TileId>, comps: Seq<Seq<TileId>>) -> bool {
    &&& forall|i: int| 0 <= i < comps.len() ==> component_ok(adj, members, #[trigger] comps[i])
    &&& forall|i: int, j: int| 0 <= i < j < comps.len() ==> (#[trigger] comps[i][0]).0 < (#[trigger] comps[j][0]).0
    &&& forall|x: TileId| #[trigger] members.contains(x) ==> exists|i: int| 0 <= i < comps.len() && #[trigger] comps[i].contains(x)
}

impl Topology {
    /// Split a tile set into connected components, using only edges that
    /// stay inside the set. Components come back ordered by their lowest
    /// member.
    #[verifier::rlimit(80)]
    pub fn components(&self, members: &Vec<TileId>) -> (comps: Vec<Vec<TileId>>)
        requires
            strictly_increasing(members@),
            forall|i: int| 0 <= i < members@.len() ==> (#[trigger] members@[i]).0 < self.count(),
        ensures
            is_component_split(self.adj(), members@, lists_view(comps@)),
    {
        proof {
            use_type_invariant(self);
        }
        let ghost adj = self.adj();
        let count = self.neighbors.len();
        let mask = self.mask_of(members);
        let ghost m = mask@;
        let n = members.len();
        let mut seen: Vec<bool> = Vec::new();
        let mut z: usize = 0;
        while z < count
            invariant
                z <= count,
                seen@.len() == z,
                forall|t: int| 0 <= t < z ==> !#[trigger] seen@[t],
            decreases count - z,
        {
            seen.push(false);
            z = z + 1;
        }
        let mut out: Vec<Vec<TileId>> = Vec::new();
        let mut i: usize = 0;
        while i < n
            invariant
                valid_adjacency(adj),
                adj == self.adj(),
                count == adj.len(),
                m == mask@,
                m == member_mask(count as nat, members@),
                n == members@.len(),
                i <= n,
                strictly_increasing(members@),
                forall|q: int| 0 <= q < n ==> (#[trigger] members@[q]).0 < count,
                seen@.len() == count,
                forall|c: int| 0 <= c < out@.len() ==> component_ok(adj, members@, #[trigger] out@[c]@),
                forall|c: int| 0 <= c < out@.len() ==> exists|q: int| 0 <= q < i && members@[q] == (#[trigger] out@[c]@)[0],
                forall|c: int, d: int| 0 <= c < d < out@.len() ==> (#[trigger] out@[c]@[0]).0 < (#[trigger] out@[d]@[0]).0,
                forall|t: int| 0 <= t < count ==> (#[trigger] seen@[t] <==> exists|c: int| 0 <= c < out@.len() && #[trigger] out@[c]@.contains(TileId(t as u32))),
                forall|q: int| 0 <= q < i ==> #[trigger] seen@[members@[q].0 as int],
            decreases n - i,
        {
            let start = members[i];
            proof {
                assert(members@.contains(start));
            }
            if !seen[start.index()] {
                let dist = self.distances_through(start, &mask);
                proof {
                    assert(m[start.0 as int]) by {
                        assert(members@[i as int] == start);
                    }
                    assert forall|q: int| 0 <= q < i implies #[trigger] dist@[members@[q].0 as int] is None by {
                        let x = members@[q];
                        assert(seen@[x.0 as int]);
                        let c = choose|c: int| 0 <= c < out@.len() && #[trigger] out@[c]@.contains(TileId(x.0 as u32));
                        assert(TileId(x.0 as u32) == x);
                        let f = out@[c]@[0];
                        assert(component_ok(adj, members@, out@[c]@));
                        assert(connected(adj, m, f.0 as int, x.0 as int));
                        if dist@[x.0 as int] is Some {
                            let d = dist@[x.0 as int]->0;
                            assert(exact_hops(adj, m, start.0 as int, x.0 as int, d as nat));
                            assert(connected(adj, m, start.0 as int, x.0 as int));
                            lemma_connected_symm(adj, m, start.0 as int, x.0 as int);
                            lemma_connected_trans(adj, m, f.0 as int, x.0 as int, start.0 as int);
                            assert(out@[c]@.contains(start));
                            assert(TileId(start.0 as u32) == start);
                            assert(seen@[start.0 as int]);
                        }
                    }
                }
                let mut comp: Vec<TileId> = Vec::new();
                let mut j: usize = 0;
                while j < n
                    invariant
                        valid_adjacency(adj),
                        adj == self.adj(),
                        count == adj.len(),
                        m == member_mask(count as nat, members@),
                        n == members@.len(),
                        i < n,
                        j <= n,
                        start == members@[i as int],
                        m[start.0 as int],
                        strictly_increasing(members@),
                        forall|q: int| 0 <= q < n ==> (#[trigger] members@[q]).0 < count,
                        is_hop_distance(adj, m, start.0 as int, dist@),
                        forall|q: int| 0 <= q < i ==> #[trigger] dist@[members@[q].0 as int] is None,
                        strictly_increasing(comp@),
                        forall|a: int| 0 <= a < comp@.len() ==> exists|q: int| 0 <= q < j && members@[q] == #[trigger] comp@[a],
                        forall|x: TileId| #[trigger] comp@.contains(x) ==> connected(adj, m, start.0 as int, x.0 as int),
                        forall|q: int| 0 <= q < j && connected(adj, m, start.0 as int, (#[trigger] members@[q]).0 as int) ==> comp@.contains(members@[q]),
                        j <= i ==> comp@.len() == 0,
                        j > i ==> comp@.len() > 0 && comp@[0] == start,
                    decreases n - j,
                {
                    let x = members[j];
                    let ghost before = comp@;
                    if dist[x.index()].is_some() {
                        comp.push(x);
                        proof {
                            let d = dist@[x.0 as int]->0;
                            assert(exact_hops(adj, m, start.0 as int, x.0 as int, d as nat));
                            assert(connected(adj, m, start.0 as int, x.0 as int));
                            assert forall|a: int, b: int| 0 <= a < b < comp@.len() implies comp@[a].0 < comp@[b].0 by {
                                if b == comp@.len() - 1 && a < before.len() {
                                    let q = choose|q: int| 0 <= q < j && members@[q] == #[trigger] before[a];
                                    assert(members@[q].0 < members@[j as int].0);
                                }
                            }
                            assert forall|a: int| 0 <= a < comp@.len() implies exists|q: int| 0 <= q < j + 1 && members@[q] == #[trigger] comp@[a] by {
                                if a < before.len() {
                                    let q = choose|q: int| 0 <= q < j && members@[q] == #[trigger] before[a];
                                    assert(members@[q] == comp@[a]);
                                } else {
                                    assert(members@[j as int] == comp@[a]);
                                }
                            }
                            assert forall|y: TileId| #[trigger] comp@.contains(y) implies connected(adj, m, start.0 as int, y.0 as int) by {
                                let a = choose|a: int| 0 <= a < comp@.len() && comp@[a] == y;
                                if a < before.len() {
                                    assert(before.contains(y));
                                }
                            }
                            assert forall|q: int| 0 <= q < j + 1 && connected(adj, m, start.0 as int, (#[trigger] members@[q]).0 as int) implies comp@.contains(members@[q]) by {
                                if q < j {
                                    assert(before.contains(members@[q]));
                                    let a = choose|a: int| 0 <= a < before.len() && before[a] == members@[q];
                                    assert(comp@[a] == members@[q]);
                                } else {
                                    assert(comp@[comp@.len() - 1] == members@[q]);
                                }
                            }
                            if j == i {
                                assert(comp@[0] == start);
                            } else if j < i {
                                assert(dist@[members@[j as int].0 as int] is None);
                            }
                        }
                    } else {
                        proof {
                            assert forall|q: int| 0 <= q < j + 1 && connected(adj, m, start.0 as int, (#[trigger] members@[q]).0 as int) implies comp@.contains(members@[q]) by {
                                if q == j {
                                    let k = choose|k: nat| #[trigger] within(adj, m, start.0 as int, x.0 as int, k);
                                    assert(unreachable(adj, m, start.0 as int, x.0 as int));
                                    assert(!within(adj, m, start.0 as int, x.0 as int, k));
                                }
                            }
                            if j == i {
                                lemma_within_zero(adj, m, start.0 as int, start.0 as int);
                                assert(exact_hops(adj, m, start.0 as int, start.0 as int, 0));
                                assert(dist@[start.0 as int] is Some);
                            }
                        }
                    }
                    j = j + 1;
                }
                let ghost cv = comp@;
                proof {
                    assert forall|x: TileId| #[trigger] cv.contains(x) <==> (members@.contains(x) && connected(adj, m, cv[0].0 as int, x.0 as int)) by {
                        if cv.contains(x) {
                            let a = choose|a: int| 0 <= a < cv.len() && cv[a] == x;
                            let q = choose|q: int| 0 <= q < n && members@[q] == #[trigger] cv[a];
                            assert(members@[q] == x);
                        }
                        if members@.contains(x) && connected(adj, m, cv[0].0 as int, x.0 as int) {
                            let q = choose|q: int| 0 <= q < members@.len() && members@[q] == x;
                            assert(connected(adj, m, start.0 as int, members@[q].0 as int));
                        }
                    }
                    assert(component_ok(adj, members@, cv));
                }
                let ghost old_out = out@;
                let ghost old_seen = seen@;
                let mut w: usize = 0;
                while w < comp.len()
                    invariant
                        w <= comp@.len(),
                        comp@ == cv,
                        seen@.len() == count,
                        count <= u32::MAX,
                        old_seen.len() == count,
                        forall|a: int| 0 <= a < cv.len() ==> (#[trigger] cv[a]).0 < count,
                        forall|t: int| 0 <= t < count ==> (#[trigger] seen@[t] <==> (old_seen[t] || cv.take(w as int).contains(TileId(t as u32)))),
                    decreases comp@.len() - w,
                {
                    let y = comp[w];
                    let ghost prev = seen@;
                    seen.set(y.index(), true);
                    proof {
                        assert forall|t: int| 0 <= t < count implies (#[trigger] seen@[t] <==> (old_seen[t] || cv.take(w + 1).contains(TileId(t as u32)))) by {
                            let s1 = cv.take(w + 1);
                            let s0 = cv.take(w as int);
                            if s1.contains(TileId(t as u32)) {
                                let a = choose|a: int| 0 <= a < s1.len() && s1[a] == TileId(t as u32);
                                if a < w {
                                    assert(s0[a] == TileId(t as u32));
                                }
                            }
                            if s0.contains(TileId(t as u32)) {
                                let a = choose|a: int| 0 <= a < s0.len() && s0[a] == TileId(t as u32);
                                assert(s1[a] == TileId(t as u32));
                            }
                            if t == y.0 {
                                assert(s1[w as int] == y);
                                assert(TileId(t as u32) == y);
                            } else {
                                assert(seen@[t] == prev[t]);
                                if s1.contains(TileId(t as u32)) {
                                    let a = choose|a: int| 0 <= a < s1.len() && s1[a] == TileId(t as u32);
                                    if a == w {
                                        assert(s1[a] == y);
                                    }
                                }
                            }
                        }
                    }
                    w = w + 1;
                }
                proof {
                    assert(cv.take(w as int) =~= cv);
                }
                out.push(comp);
                proof {
                    assert(out@[out@.len() - 1]@ == cv);
                    assert forall|c: int| 0 <= c < out@.len() implies component_ok(adj, members@, #[trigger] out@[c]@) by {
                        if c < old_out.len() {
                            assert(out@[c] == old_out[c]);
                        }
                    }
                    assert forall|c: int| 0 <= c < out@.len() implies exists|q: int| 0 <= q < i + 1 && members@[q] == (#[trigger] out@[c]@)[0] by {
                        if c < old_out.len() {
                            assert(out@[c] == old_out[c]);
                            let q = choose|q: int| 0 <= q < i && members@[q] == (#[trigger] old_out[c]@)[0];
                        } else {
                            assert(members@[i as int] == out@[c]@[0]);
                        }
                    }
                    assert forall|c: int, d: int| 0 <= c < d < out@.len() implies (#[trigger] out@[c]@[0]).0 < (#[trigger] out@[d]@[0]).0 by {
                        if d == out@.len() - 1 {
                            assert(out@[c] == old_out[c]);
                            let q = choose|q: int| 0 <= q < i && members@[q] == (#[trigger] old_out[c]@)[0];
                            assert(members@[q].0 < members@[i as int].0);
                        } else {
                            assert(out@[c] == old_out[c]);
                            assert(out@[d] == old_out[d]);
                        }
                    }
                    assert forall|t: int| 0 <= t < count implies (#[trigger] seen@[t] <==> exists|c: int| 0 <= c < out@.len() && #[trigger] out@[c]@.contains(TileId(t as u32))) by {
                        if seen@[t] {
                            if old_seen[t] {
                                let c = choose|c: int| 0 <= c < old_out.len() && #[trigger] old_out[c]@.contains(TileId(t as u32));
                                assert(out@[c] == old_out[c]);
                            } else {
                                assert(out@[out@.len() - 1]@.contains(TileId(t as u32)));
                            }
                        }
                        if exists|c: int| 0 <= c < out@.len() && #[trigger] out@[c]@.contains(TileId(t as u32)) {
                            let c = choose|c: int| 0 <= c < out@.len() && #[trigger] out@[c]@.contains(TileId(t as u32));
                            if c < old_out.len() {
                                assert(out@[c] == old_out[c]);
                                assert(old_seen[t]);
                            }
                        }
                    }
                    assert forall|q: int| 0 <= q < i + 1 implies #[trigger] seen@[members@[q].0 as int] by {
                        if q == i {
                            assert(cv[0] == start);
                            assert(cv.contains(start));
                            assert(TileId(start.0 as u32) == start);
                        }
                    }
                }
            } else {
                proof {
                    assert(seen@[members@[i as int].0 as int]);
                }
            }
            i = i + 1;
        }
        proof {
            let comps = lists_view(out@);
            assert forall|i: int| 0 <= i < comps.len() implies component_ok(adj, members@, #[trigger] comps[i]) by {
                assert(comps[i] == out@[i]@);
            }
            assert forall|a: int, b: int| 0 <= a < b < comps.len() implies (#[trigger] comps[a][0]).0 < (#[trigger] comps[b][0]).0 by {
                assert(comps[a] == out@[a]@);
                assert(comps[b] == out@[b]@);
            }
            assert forall|x: TileId| #[trigger] members@.contains(x) implies exists|c: int| 0 <= c < comps.len() && #[trigger] comps[c].contains(x) by {
                let q = choose|q: int| 0 <= q < members@.len() && members@[q] == x;
                assert(seen@[members@[q].0 as int]);
                assert(TileId(x.0 as u32) == x);
                let c = choose|c: int| 0 <= c < out@.len() && #[trigger] out@[c]@.contains(TileId(x.0 as u32));
                assert(comps[c] == out@[c]@);
            }
        }
        out
    }
}


// ---------------------------------------------------------------------------
// Centre of a tile set
// ---------------------------------------------------------------------------

proof fn lemma_total_hops_bound(dist: Seq<Option<u32>>, s: Seq<TileId>)
    ensures
        0 <= total_hops(dist, s) <= s.len() * 4294967295,
    decreases s.len(),
{
    if s.len() > 0 {
        lemma_total_hops_bound(dist, s.drop_last());
    }
}

pub proof fn lemma_hops_is(adj: Seq<Seq<TileId>>, pass: Seq<bool>, from: int, d: Seq<Option<u32>>)
    requires
        is_hop_distance(adj, pass, from, d),
    ensures
        hops(adj, pass, from) == d,
{
    let h = hops(adj, pass, from);
    assert(is_hop_distance(adj, pass, from, h));
    lemma_hop_distance_unique(adj, pass, from, h, d);
}

impl Topology {
    /// Total hop distance from `from` to every member, moving only between
    /// members; an unreachable member counts `u32::MAX`.
    fn total_distance(&self, members: &Vec<TileId>, mask: &Vec<bool>, from: TileId) -> (total: u64)
        requires
            strictly_increasing(members@),
            forall|i: int| 0 <= i < members@.len() ==> (#[trigger] members@[i]).0 < self.count(),
            mask@ == member_mask(self.count(), members@),
            from.0 < self.count(),
        ensures
            total == centrality(self.adj(), members@, from),
            total <= members@.len() * 4294967295,
    {
        proof {
            use_type_invariant(self);
        }
        let dist = self.distances_through(from, mask);
        proof {
            lemma_hops_is(self.adj(), mask@, from.0 as int, dist@);
            if members@.len() > 0 {
                lemma_increasing_index(members@, members@.len() - 1);
            }
        }
        let mut total: u64 = 0;
        let mut j: usize = 0;
        while j < members.len()
            invariant
                j <= members@.len(),
                members@.len() <= 4294967296,
                dist@.len() == self.count(),
                forall|i: int| 0 <= i < members@.len() ==> (#[trigger] members@[i]).0 < self.count(),
                total == total_hops(dist@, members@.take(j as int)),
                total <= j * 4294967295,
            decreases members@.len() - j,
        {
            let x = members[j];
            let v: u64 = match dist[x.index()] {
                Some(d) => d as u64,
                None => 4294967295u64,
            };
            proof {
                assert(members@.take(j + 1).drop_last() =~= members@.take(j as int));
                assert(members@.take(j + 1).last() == x);
            }
            total = total + v;
            j = j + 1;
        }
        proof {
            assert(members@.take(j as int) =~= members@);
        }
        total
    }

    #[verifier::spinoff_prover]
    /// The tiles of `candidates` closest to the centre of `members`: those
    /// with the smallest total hop distance to every member (moving only
    /// between members), every tie included, ascending.
    pub fn most_central(&self, members: &Vec<TileId>, candidates: &Vec<TileId>) -> (winners: Vec<TileId>)
        requires
            strictly_increasing(members@),
            forall|i: int| 0 <= i < members@.len() ==> (#[trigger] members@[i]).0 < self.count(),
            strictly_increasing(candidates@),
            forall|i: int| 0 <= i < candidates@.len() ==> (#[trigger] candidates@[i]).0 < self.count(),
        ensures
            strictly_increasing(winners@),
            forall|x: TileId| #[trigger] winners@.contains(x) <==> (candidates@.contains(x)
                && forall|d: TileId| #[trigger] candidates@.contains(d) ==> centrality(self.adj(), members@, x) <= centrality(self.adj(), members@, d)),
    {
        let ghost adj = self.adj();
        let mask = self.mask_of(members);
        let ghost bound: int = (members@.len() * 4294967295) as int;
        proof {
            if members@.len() > 0 {
                lemma_increasing_index(members@, members@.len() - 1);
            }
        }
        let mut best: u64 = u64::MAX;
        let mut winners: Vec<TileId> = Vec::new();
        let mut i: usize = 0;
        while i < candidates.len()
            invariant
                adj == self.adj(),
                mask@ == member_mask(self.count(), members@),
                strictly_increasing(members@),
                forall|q: int| 0 <= q < members@.len() ==> (#[trigger] members@[q]).0 < self.count(),
                members@.len() <= 4294967296,
                bound == members@.len() * 4294967295,
                strictly_increasing(candidates@),
                forall|q: int| 0 <= q < candidates@.len() ==> (#[trigger] candidates@[q]).0 < self.count(),
                i <= candidates@.len(),
                i == 0 ==> best == u64::MAX && winners@.len() == 0,
                i > 0 ==> best <= bound && exists|q: int| 0 <= q < i && centrality(adj, members@, #[trigger] candidates@[q]) == best,
                forall|q: int| 0 <= q < i ==> best <= centrality(adj, members@, #[trigger] candidates@[q]),
                strictly_increasing(winners@),
                forall|a: int| 0 <= a < winners@.len() ==> exists|q: int| 0 <= q < i && candidates@[q] == #[trigger] winners@[a],
                forall|x: TileId| #[trigger] winners@.contains(x) <==> (candidates@.take(i as int).contains(x) && centrality(adj, members@, x) == best),
            decreases candidates@.len() - i,
        {
            let c = candidates[i];
            let total = self.total_distance(members, &mask, c);
            let ghost before = winners@;
            let ghost old_best = best;
            proof {
                assert(total <= bound) by (nonlinear_arith)
                    requires total <= members@.len() * 4294967295, bound == members@.len() * 4294967295;
                assert forall|x: TileId| candidates@.take(i + 1).contains(x) <==> (candidates@.take(i as int).contains(x) || x == c) by {
                    let s1 = candidates@.take(i + 1);
                    let s0 = candidates@.take(i as int);
                    if s1.contains(x) {
                        let a = choose|a: int| 0 <= a < s1.len() && s1[a] == x;
                        if a < i {
                            assert(s0[a] == x);
                        }
                    }
                    if s0.contains(x) {
                        let a = choose|a: int| 0 <= a < s0.len() && s0[a] == x;
                        assert(s1[a] == x);
                    }
                    if x == c {
                        assert(s1[i as int] == x);
                    }
                }
                assert(!candidates@.take(i as int).contains(c)) by {
                    if candidates@.take(i as int).contains(c) {
                        let a = choose|a: int| 0 <= a < i && candidates@.take(i as int)[a] == c;
                        assert(candidates@[a].0 < candidates@[i as int].0);
                    }
                }
                assert(centrality(adj, members@, c) == total);
                assert(candidates@.take(i + 1)[i as int] == c);
                assert(candidates@.take(i + 1).contains(c));
            }
            if total < best {
                best = total;
                winners = Vec::new();
                winners.push(c);
                proof {
                    assert forall|x: TileId| #[trigger] winners@.contains(x) <==> (candidates@.take(i + 1).contains(x) && centrality(adj, members@, x) == best) by {
                        if candidates@.take(i + 1).contains(x) && centrality(adj, members@, x) == best {
                            if x != c {
                                let q = choose|q: int| 0 <= q < i && candidates@.take(i as int)[q] == x;
                                assert(candidates@[q] == x);
                                assert(old_best <= centrality(adj, members@, candidates@[q]));
                            }
                        }
                        if winners@.contains(x) {
                            assert(winners@[0] == x);
                        }
                    }
                    assert(winners@[0] == candidates@[i as int]);
                }
            } else if total == best {
                winners.push(c);
                proof {
                    assert forall|a: int, b: int| 0 <= a < b < winners@.len() implies winners@[a].0 < winners@[b].0 by {
                        if b == winners@.len() - 1 && a < before.len() {
                            let q = choose|q: int| 0 <= q < i && candidates@[q] == #[trigger] before[a];
                            assert(candidates@[q].0 < candidates@[i as int].0);
                        }
                    }
                    assert forall|a: int| 0 <= a < winners@.len() implies exists|q: int| 0 <= q < i + 1 && candidates@[q] == #[trigger] winners@[a] by {
                        if a < before.len() {
                            let q = choose|q: int| 0 <= q < i && candidates@[q] == #[trigger] before[a];
                            assert(candidates@[q] == winners@[a]);
                        } else {
                            assert(candidates@[i as int] == winners@[a]);
                        }
                    }
                    assert forall|x: TileId| #[trigger] winners@.contains(x) <==> (candidates@.take(i + 1).contains(x) && centrality(adj, members@, x) == best) by {
                        if winners@.contains(x) {
                            let a = choose|a: int| 0 <= a < winners@.len() && winners@[a] == x;
                            if a < before.len() {
                                assert(before.contains(x));
                            }
                        }
                        if candidates@.take(i + 1).contains(x) && centrality(adj, members@, x) == best {
                            if x == c {
                                assert(winners@[winners@.len() - 1] == x);
                            } else {
                                assert(before.contains(x));
                                let a = choose|a: int| 0 <= a < before.len() && before[a] == x;
                                assert(winners@[a] == x);
                            }
                        }
                    }
                }
            } else {
                proof {
                    assert forall|x: TileId| #[trigger] winners@.contains(x) <==> (candidates@.take(i + 1).contains(x) && centrality(adj, members@, x) == best) by {
                        if x == c {
                            assert(!before.contains(x)) by {
                                if before.contains(x) {
                                    assert(candidates@.take(i as int).contains(x));
                                }
                            }
                        }
                    }
                    assert forall|a: int| 0 <= a < winners@.len() implies exists|q: int| 0 <= q < i + 1 && candidates@[q] == #[trigger] winners@[a] by {
                        let q = choose|q: int| 0 <= q < i && candidates@[q] == #[trigger] before[a];
                        assert(candidates@[q] == winners@[a]);
                    }
                }
            }
            proof {
                assert(centrality(adj, members@, candidates@[i as int]) == total);
            }
            i = i + 1;
        }
        proof {
            assert(candidates@.take(i as int) =~= candidates@);
            assert forall|x: TileId| #[trigger] winners@.contains(x) <==> (candidates@.contains(x)
                && forall|d: TileId| #[trigger] candidates@.contains(d) ==> centrality(adj, members@, x) <= centrality(adj, members@, d)) by {
                if winners@.contains(x) {
                    assert forall|d: TileId| #[trigger] candidates@.contains(d) implies centrality(adj, members@, x) <= centrality(adj, members@, d) by {
                        let q = choose|q: int| 0 <= q < candidates@.len() && candidates@[q] == d;
                        assert(best <= centrality(adj, members@, candidates@[q]));
                    }
                }
                if candidates@.contains(x) && forall|d: TileId| #[trigger] candidates@.contains(d) ==> centrality(adj, members@, x) <= centrality(adj, members@, d) {
                    let q = choose|q: int| 0 <= q < i && centrality(adj, members@, #[trigger] candidates@[q]) == best;
                    assert(candidates@.contains(candidates@[q]));
                    let q2 = choose|q2: int| 0 <= q2 < candidates@.len() && candidates@[q2] == x;
                    assert(best <= centrality(adj, members@, candidates@[q2]));
                }
            }
        }
        winners
    }
}


/// Every two members are connected through members.
pub open spec fn all_connected(adj: Seq<Seq<TileId>>, members: Seq<TileId>) -> bool {
    forall|x: TileId, y: TileId| #[trigger] members.contains(x) && #[trigger] members.contains(y) ==> connected(
        adj,
        member_mask(adj.len(), members),
        x.0 as int,
        y.0 as int,
    )
}

/// Members in one component are connected.
#[verifier::rlimit(80)]
proof fn lemma_single_connected(adj: Seq<Seq<TileId>>, members: Seq<TileId>, comps: Seq<Seq<TileId>>, x: TileId, y: TileId)
    requires
        valid_adjacency(adj),
        forall|i: int| 0 <= i < members.len() ==> (#[trigger] members[i]).0 < adj.len(),
        comps.len() <= 1,
        is_component_split(adj, members, comps),
        members.contains(x),
        members.contains(y),
    ensures
        connected(adj, member_mask(adj.len(), members), x.0 as int, y.0 as int),
{
    let m = member_mask(adj.len(), members);
    let i = choose|i: int| 0 <= i < comps.len() && #[trigger] comps[i].contains(x);
    let j = choose|j: int| 0 <= j < comps.len() && #[trigger] comps[j].contains(y);
    let c = comps[0];
    assert(component_ok(adj, members, c));
    let f = c[0];
    let q = choose|q: int| 0 <= q < members.len() && members[q] == f;
    assert(members[q].0 < adj.len());
    assert(has_tile(members, f.0 as int));
    assert(m[f.0 as int]);
    lemma_connected_symm(adj, m, f.0 as int, x.0 as int);
    lemma_connected_trans(adj, m, x.0 as int, f.0 as int, y.0 as int);
}

/// The first tiles of two components are not connected.
proof fn lemma_two_apart(adj: Seq<Seq<TileId>>, members: Seq<TileId>, comps: Seq<Seq<TileId>>)
    requires
        comps.len() >= 2,
        is_component_split(adj, members, comps),
    ensures
        !connected(adj, member_mask(adj.len(), members), comps[1][0].0 as int, comps[0][0].0 as int),
        members.contains(comps[0][0]),
        members.contains(comps[1][0]),
{
    let m = member_mask(adj.len(), members);
    let c0 = comps[0];
    let c1 = comps[1];
    assert(component_ok(adj, members, c0));
    assert(component_ok(adj, members, c1));
    let f0 = c0[0];
    let f1 = c1[0];
    assert(f0.0 < f1.0);
    if connected(adj, m, f1.0 as int, f0.0 as int) {
        assert(c1.contains(f0));
        let k = choose|k: int| 0 <= k < c1.len() && c1[k] == f0;
        if k > 0 {
            assert(c1[0].0 < c1[k].0);
        }
    }
}

/// Distinct components of a split share no tile.
pub proof fn lemma_components_disjoint(adj: Seq<Seq<TileId>>, members: Seq<TileId>, comps: Seq<Seq<TileId>>, i: int, j: int, x: TileId)
    requires
        valid_adjacency(adj),
        forall|k: int| 0 <= k < members.len() ==> (#[trigger] members[k]).0 < adj.len(),
        is_component_split(adj, members, comps),
        0 <= i < j < comps.len(),
    ensures
        !(comps[i].contains(x) && comps[j].contains(x)),
{
    if comps[i].contains(x) && comps[j].contains(x) {
        let m = member_mask(adj.len(), members);
        let ci = comps[i];
        let cj = comps[j];
        assert(component_ok(adj, members, ci));
        assert(component_ok(adj, members, cj));
        let fi = ci[0];
        let fj = cj[0];
        assert(fi.0 < fj.0);
        let qi = choose|q: int| 0 <= q < members.len() && members[q] == fi;
        let qj = choose|q: int| 0 <= q < members.len() && members[q] == fj;
        assert(members[qi].0 < adj.len() && has_tile(members, fi.0 as int));
        assert(members[qj].0 < adj.len() && has_tile(members, fj.0 as int));
        assert(m[fi.0 as int]);
        assert(connected(adj, m, fj.0 as int, x.0 as int));
        assert(connected(adj, m, fi.0 as int, x.0 as int));
        lemma_connected_symm(adj, m, fi.0 as int, x.0 as int);
        lemma_connected_trans(adj, m, fj.0 as int, x.0 as int, fi.0 as int);
        assert(cj.contains(fi));
        let k = choose|k: int| 0 <= k < cj.len() && cj[k] == fi;
        if k > 0 {
            assert(cj[0].0 < cj[k].0);
        }
    }
}

/// A set splits into at most one component exactly when it is connected.
pub proof fn lemma_one_component(adj: Seq<Seq<TileId>>, members: Seq<TileId>, comps: Seq<Seq<TileId>>)
    requires
        valid_adjacency(adj),
        forall|i: int| 0 <= i < members.len() ==> (#[trigger] members[i]).0 < adj.len(),
        is_component_split(adj, members, comps),
    ensures
        comps.len() <= 1 <==> all_connected(adj, members),
{
    if comps.len() <= 1 {
        assert forall|x: TileId, y: TileId| #[trigger] members.contains(x) && #[trigger] members.contains(y) implies connected(adj, member_mask(adj.len(), members), x.0 as int, y.0 as int) by {
            lemma_single_connected(adj, members, comps, x, y);
        }
    } else {
        lemma_two_apart(adj, members, comps);
    }
}

} // verus!
