use crate::centers::{dist2, dist_squared, in_range, lemma_center_bounded};
use crate::room::Room;
use crate::types::Coord;
use vstd::prelude::*;

verus! {

/// The minimum spanning forest that petgraph's Kruskal implementation
/// returns for `n` nodes and weighted edges `(a, b, w)`, as `(a, b)` pairs.
pub uninterp spec fn spanning_forest_of(n: nat, edges: Seq<(usize, usize, u128)>) -> Seq<(usize, usize)>;

/// `a` and `b` are joined by an edge of `edges`, in either direction.
pub open spec fn has_edge(edges: Seq<(usize, usize)>, a: usize, b: usize) -> bool {
    edges.contains((a, b)) || edges.contains((b, a))
}

/// `p` is a walk along `edges`.
pub open spec fn is_walk(edges: Seq<(usize, usize)>, p: Seq<usize>) -> bool {
    &&& p.len() > 0
    &&& forall|i: int| 0 <= i < p.len() - 1 ==> #[trigger] has_edge(edges, p[i], p[i + 1])
}

/// `a` and `b` are connected by `edges`.
pub open spec fn joined(edges: Seq<(usize, usize)>, a: usize, b: usize) -> bool {
    exists|p: Seq<usize>| #[trigger] is_walk(edges, p) && p[0] == a && p.last() == b
}

/// Every node below `n` is connected to node 0.
pub open spec fn connects_all(n: nat, edges: Seq<(usize, usize)>) -> bool {
    forall|i: usize| i < n ==> #[trigger] joined(edges, 0, i)
}

/// No edge of `f` joins two nodes that the edges before it already connect:
/// `f` has no cycle.
pub open spec fn is_forest(f: Seq<(usize, usize)>) -> bool {
    forall|k: int| 0 <= k < f.len() ==> !joined(f.subrange(0, k), (#[trigger] f[k]).0, f[k].1)
}

/// The endpoint pairs of weighted edges.
pub open spec fn endpoints(edges: Seq<(usize, usize, u128)>) -> Seq<(usize, usize)> {
    edges.map_values(|e: (usize, usize, u128)| (e.0, e.1))
}

/// Relies on petgraph::algo::min_spanning_tree (Kruskal's algorithm with a
/// union-find) over an undirected graph with nodes `0..n` and the given
/// edges. Of its output only the edges are kept, as `(source, target)` node
/// indexes. Its source emits an edge exactly when the edge joins two
/// components of the edges emitted before it, after considering every input
/// edge; its documentation gives `n - c` edges for `c` components.
#[verifier::external_body]
fn min_spanning_forest(n: usize, edges: &Vec<(usize, usize, u128)>) -> (r: Vec<(usize, usize)>)
    requires
        n < u32::MAX,
        edges@.len() < u32::MAX,
        forall|k: int| 0 <= k < edges@.len() ==> (#[trigger] edges@[k]).0 < n && edges@[k].1 < n,
    ensures
        r@ == spanning_forest_of(n as nat, edges@),
        forall|k: int| 0 <= k < r@.len() ==> endpoints(edges@).contains(#[trigger] r@[k]),
        is_forest(r@),
        forall|k: int| 0 <= k < edges@.len() ==> joined(r@, (#[trigger] edges@[k]).0, edges@[k].1),
        n > 0 ==> r@.len() < n,
        n > 0 && connects_all(n as nat, endpoints(edges@)) ==> r@.len() == n - 1,
{
    let mut g = petgraph::graph::UnGraph::<usize, u128>::with_capacity(n, edges.len());
    let nodes: Vec<petgraph::graph::NodeIndex> = (0..n).map(|i| g.add_node(i)).collect();
    for e in edges.iter() {
        g.add_edge(nodes[e.0], nodes[e.1], e.2);
    }
    petgraph::algo::min_spanning_tree(&g).filter_map(|el| match el {
        petgraph::data::Element::Edge { source, target, .. } => Some((source, target)),
        petgraph::data::Element::Node { .. } => None,
    }).collect()
}

/// The three edges of each triangle `(a, b, c)`: `(a, b)`, `(b, c)`, `(c, a)`.
pub open spec fn triangle_edges(t: Seq<usize>) -> Seq<(usize, usize)> {
    Seq::new(
        (3 * (t.len() / 3)) as nat,
        |i: int|
            {
                let c = (i / 3) * 3;
                if i % 3 == 0 {
                    (t[c], t[c + 1])
                } else if i % 3 == 1 {
                    (t[c + 1], t[c + 2])
                } else {
                    (t[c + 2], t[c])
                }
            },
    )
}

/// The edges of a triangle list.
pub fn get_triangle_edge_indeces(triangles: &Vec<usize>) -> (r: Vec<(usize, usize)>)
    requires
        triangles@.len() % 3 == 0,
    ensures
        r@ == triangle_edges(triangles@),
{
    let mut out: Vec<(usize, usize)> = Vec::new();
    let mut i: usize = 0;
    while i < triangles.len()
        invariant
            triangles@.len() % 3 == 0,
            i % 3 == 0,
            i <= triangles@.len(),
            out@.len() == i,
            forall|k: int| 0 <= k < i ==> #[trigger] out@[k] == triangle_edges(triangles@)[k],
        decreases triangles.len() - i,
    {
        let a = triangles[i];
        let b = triangles[i + 1];
        let c = triangles[i + 2];
        out.push((a, b));
        out.push((b, c));
        out.push((c, a));
        assert forall|k: int| 0 <= k < i + 3 implies #[trigger] out@[k] == triangle_edges(triangles@)[k] by {
            if k >= i {
                assert((k / 3) * 3 == i as int);
            }
        }
        i += 3;
    }
    assert(out@ =~= triangle_edges(triangles@));
    out
}

/// Every room is well formed.
pub open spec fn rooms_wf(rooms: Seq<Room>) -> bool {
    forall|k: int| 0 <= k < rooms.len() ==> (#[trigger] rooms[k]).wf()
}

/// Every entry of the triangle list names a room.
pub open spec fn valid_triangles(t: Seq<usize>, n: int) -> bool {
    t.len() % 3 == 0 && forall|k: int| 0 <= k < t.len() ==> #[trigger] t[k] < n
}

/// The triangle edges weighted by the squared distance between the room centers.
pub open spec fn weighted_edges(t: Seq<usize>, rooms: Seq<Room>) -> Seq<(usize, usize, u128)> {
    triangle_edges(t).map_values(
        |e: (usize, usize)| (e.0, e.1, dist2(rooms[e.0 as int].center, rooms[e.1 as int].center) as u128),
    )
}

proof fn lemma_triangle_edges_valid(t: Seq<usize>, n: int)
    requires
        valid_triangles(t, n),
    ensures
        forall|k: int| 0 <= k < triangle_edges(t).len() ==> (#[trigger] triangle_edges(t)[k]).0 < n
            && triangle_edges(t)[k].1 < n,
{
    assert forall|k: int| 0 <= k < triangle_edges(t).len() implies (#[trigger] triangle_edges(t)[k]).0 < n
        && triangle_edges(t)[k].1 < n by {
        let c = (k / 3) * 3;
        assert(c + 2 < t.len());
        assert(t[c] < n && t[c + 1] < n && t[c + 2] < n);
    }
}

/// A room center lies in the coordinate range of its tiles.
proof fn lemma_center_in_range(room: Room)
    requires
        room.wf(),
    ensures
        in_range(room.center),
{
    assert forall|k: int| 0 <= k < room.tiles@.len() implies (#[trigger] room.tiles@[k]).x < u32::MAX
        && room.tiles@[k].y < u32::MAX by {
        assert(in_range(room.tiles@[k]));
    }
    lemma_center_bounded(room.tiles@, room.edge_tile_indexes@, room.center, u32::MAX as int);
}

/// The minimum spanning tree of the triangulation over the room centers,
/// weighted by squared center distance, as pairs of room indexes.
pub fn find_mst_indexes(triangles: &Vec<usize>, rooms: &Vec<Room>) -> (r: Vec<(usize, usize)>)
    requires
        rooms_wf(rooms@),
        valid_triangles(triangles@, rooms@.len() as int),
        rooms@.len() < u32::MAX,
        triangles@.len() < u32::MAX,
    ensures
        r@ == spanning_forest_of(rooms@.len(), weighted_edges(triangles@, rooms@)),
        forall|k: int| 0 <= k < r@.len() ==> triangle_edges(triangles@).contains(#[trigger] r@[k]),
        is_forest(r@),
        forall|k: int| 0 <= k < triangle_edges(triangles@).len() ==> joined(
            r@,
            (#[trigger] triangle_edges(triangles@)[k]).0,
            triangle_edges(triangles@)[k].1,
        ),
        rooms@.len() > 0 ==> r@.len() < rooms@.len(),
        rooms@.len() > 0 && connects_all(rooms@.len(), triangle_edges(triangles@)) ==> r@.len()
            == rooms@.len() - 1,
        rooms@.len() == 1 ==> r@.len() == 0,
{
    let edge_indices = get_triangle_edge_indeces(triangles);
    proof {
        lemma_triangle_edges_valid(triangles@, rooms@.len() as int);
    }
    let mut weighted: Vec<(usize, usize, u128)> = Vec::new();
    let mut i: usize = 0;
    while i < edge_indices.len()
        invariant
            rooms_wf(rooms@),
            edge_indices@ == triangle_edges(triangles@),
            forall|k: int| 0 <= k < edge_indices@.len() ==> (#[trigger] edge_indices@[k]).0 < rooms@.len()
                && edge_indices@[k].1 < rooms@.len(),
            i <= edge_indices@.len(),
            weighted@ =~= weighted_edges(triangles@, rooms@).subrange(0, i as int),
        decreases edge_indices.len() - i,
    {
        let (a, b) = edge_indices[i];
        assert(a < rooms@.len() && b < rooms@.len());
        proof {
            lemma_center_in_range(rooms@[a as int]);
            lemma_center_in_range(rooms@[b as int]);
        }
        let d = dist_squared(&rooms[a].center, &rooms[b].center);
        weighted.push((a, b, d));
        i += 1;
    }
    assert(weighted@ =~= weighted_edges(triangles@, rooms@));
    assert(endpoints(weighted@) =~= triangle_edges(triangles@));
    let r = min_spanning_forest(rooms.len(), &weighted);
    proof {
        assert forall|k: int| 0 <= k < triangle_edges(triangles@).len() implies joined(
            r@,
            (#[trigger] triangle_edges(triangles@)[k]).0,
            triangle_edges(triangles@)[k].1,
        ) by {
            assert(weighted@[k].0 == triangle_edges(triangles@)[k].0);
            assert(weighted@[k].1 == triangle_edges(triangles@)[k].1);
        }
        if rooms@.len() == 1 {
            assert forall|i: usize| i < 1 implies #[trigger] joined(triangle_edges(triangles@), 0, i) by {
                assert(is_walk(triangle_edges(triangles@), seq![0usize]));
            }
        }
    }
    r
}

} // verus!
