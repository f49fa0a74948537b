use crate::region::{at, in_grid, open_at};
use crate::room::{generate_rooms, is_scan, rooms_found, Room};
use crate::tile_map::{Tile, TileMap};
use crate::triangulation::{
    connects_all, find_mst_indexes, get_triangle_edge_indeces, is_forest, joined, rooms_wf, triangle_edges,
    valid_triangles,
};
use crate::types::{is_square, Coord};
use vstd::prelude::*;

verus! {

/// The rooms of a map, their triangulation and its minimum spanning tree.
#[derive(Clone, Debug)]
pub struct Roooms {
    /// The room structs.
    pub rooms: Vec<Room>,
    /// The triangulation over the room centers, three room indexes per triangle.
    pub triangulation: Option<Vec<usize>>,
    /// The minimum spanning tree as index pairs of the rooms.
    pub mst: Option<Vec<(usize, usize)>>,
}

/// The centers of a list of rooms.
pub open spec fn centers_of(rooms: Seq<Room>) -> Seq<Coord> {
    rooms.map_values(|r: Room| r.center)
}

/// Index pairs of rooms as pairs of their centers.
pub open spec fn pairs_as_centers(pairs: Seq<(usize, usize)>, rooms: Seq<Room>) -> Seq<(Coord, Coord)> {
    pairs.map_values(|p: (usize, usize)| (rooms[p.0 as int].center, rooms[p.1 as int].center))
}

/// Every index of every pair names a room.
pub open spec fn valid_pairs(pairs: Seq<(usize, usize)>, n: int) -> bool {
    forall|k: int| 0 <= k < pairs.len() ==> (#[trigger] pairs[k]).0 < n && pairs[k].1 < n
}

/// The centers of the rooms named by index pairs.
pub fn pairs_to_coords(pairs: &Vec<(usize, usize)>, rooms: &Vec<Room>) -> (r: Vec<(Coord, Coord)>)
    requires
        valid_pairs(pairs@, rooms@.len() as int),
    ensures
        r@ == pairs_as_centers(pairs@, rooms@),
{
    let mut out: Vec<(Coord, Coord)> = Vec::new();
    let mut i: usize = 0;
    while i < pairs.len()
        invariant
            valid_pairs(pairs@, rooms@.len() as int),
            i <= pairs@.len(),
            out@ =~= pairs_as_centers(pairs@, rooms@).subrange(0, i as int),
        decreases pairs.len() - i,
    {
        let (a, b) = pairs[i];
        assert(a < rooms@.len() && b < rooms@.len());
        out.push((rooms[a].center, rooms[b].center));
        i += 1;
    }
    assert(out@ =~= pairs_as_centers(pairs@, rooms@));
    out
}

impl Roooms {
    /// The parts agree: the tree, where there is one, is that of the triangulation.
    pub open spec fn wf(&self) -> bool {
        &&& rooms_wf(self.rooms@)
        &&& self.rooms@.len() < u32::MAX
        &&& self.triangulation.is_some() ==> valid_triangles(
            self.triangulation.unwrap()@,
            self.rooms@.len() as int,
        )
        &&& self.triangulation.is_some() ==> self.triangulation.unwrap()@.len() > 0
        &&& self.triangulation.is_some() == self.mst.is_some()
        &&& self.mst.is_some() ==> valid_pairs(self.mst.unwrap()@, self.rooms@.len() as int)
    }

    /// The triangulation, three room indexes per triangle, if one was set.
    pub open spec fn triangles(&self) -> Option<Seq<usize>> {
        match self.triangulation {
            Some(t) => Some(t@),
            None => None,
        }
    }

    /// Extracts the rooms of a tile grid (see `generate_rooms`); no
    /// triangulation and no tree yet.
    pub fn new(tiles: &mut TileMap, min_room_size: usize) -> (r: Roooms)
        requires
            is_square(old(tiles)@, old(tiles)@.len() as nat),
            old(tiles)@.len() < u32::MAX,
        ensures
            r.wf(),
            r.triangles().is_none(),
            r.mst.is_none(),
            is_square(final(tiles)@, old(tiles)@.len() as nat),
            forall|k: int| 0 <= k < r.rooms@.len() ==> (#[trigger] r.rooms@[k]).id == k,
            forall|k: int| 0 <= k < r.rooms@.len() ==> (#[trigger] r.rooms@[k]).tiles@.len() >= min_room_size,
            r.rooms@.len() <= 0x10000,
            forall|k: int, t: int|
                0 <= k < r.rooms@.len() && 0 <= t < r.rooms@[k].tiles@.len() ==> in_grid(
                    old(tiles)@.len() as int,
                    #[trigger] r.rooms@[k].tiles@[t],
                ),
            forall|k: int, t: int|
                0 <= k < r.rooms@.len() && 0 <= t < r.rooms@[k].tiles@.len() ==> open_at(
                    old(tiles)@,
                    #[trigger] r.rooms@[k].tiles@[t],
                ),
            forall|k1: int, k2: int, t1: int, t2: int|
                0 <= k1 < r.rooms@.len() && 0 <= k2 < r.rooms@.len() && k1 != k2 && 0 <= t1
                    < r.rooms@[k1].tiles@.len() && 0 <= t2 < r.rooms@[k2].tiles@.len() ==> #[trigger] r.rooms@[k1].tiles@[t1]
                    != #[trigger] r.rooms@[k2].tiles@[t2],
            r.rooms@.len() < 0x10000 ==> forall|a: int, b: int|
                0 <= a < old(tiles)@.len() && 0 <= b < old(tiles)@.len() ==> !open_at(
                    final(tiles)@,
                    #[trigger] at(a, b),
                ),
            exists|ms: Seq<Seq<Vec<Tile>>>, outs: Seq<Option<Room>>|
                #[trigger] is_scan(ms, outs, old(tiles)@.len() as int, min_room_size as int) && outs.len()
                    == old(tiles)@.len() * old(tiles)@.len() && ms[0] == old(tiles)@ && ms.last() == final(tiles)@
                    && r.rooms@ == rooms_found(outs),
    {
        let rooms = generate_rooms(tiles, min_room_size);
        Roooms { rooms, triangulation: None, mst: None }
    }

    /// Sets the triangulation over the room centers and computes its minimum
    /// spanning tree. An empty triangulation (the points were degenerate)
    /// leaves both unset: the rooms are then not connected.
    pub fn set_triangulation(&mut self, triangles: Vec<usize>)
        requires
            old(self).wf(),
            valid_triangles(triangles@, old(self).rooms@.len() as int),
            triangles@.len() < u32::MAX,
        ensures
            final(self).wf(),
            final(self).rooms@ == old(self).rooms@,
            triangles@.len() == 0 ==> final(self).triangles().is_none() && final(self).mst.is_none(),
            triangles@.len() > 0 ==> final(self).triangles() == Some(triangles@),
            triangles@.len() > 0 ==> final(self).mst.is_some() && find_mst_spec(
                final(self).mst.unwrap()@,
                triangles@,
                final(self).rooms@,
            ) && tree_facts(final(self).mst.unwrap()@, triangles@, final(self).rooms@.len()),
    {
        if triangles.len() == 0 {
            self.triangulation = None;
            self.mst = None;
            return;
        }
        let mst = find_mst_indexes(&triangles, &self.rooms);
        proof {
            assert forall|k: int| 0 <= k < mst@.len() implies (#[trigger] mst@[k]).0 < self.rooms@.len()
                && mst@[k].1 < self.rooms@.len() by {
                assert(triangle_edges(triangles@).contains(mst@[k]));
                let j = choose|j: int| 0 <= j < triangle_edges(triangles@).len() && triangle_edges(triangles@)[j] == mst@[k];
                let c = (j / 3) * 3;
                assert(c + 2 < triangles@.len());
                assert(triangles@[c] < self.rooms@.len() && triangles@[c + 1] < self.rooms@.len() && triangles@[c + 2] < self.rooms@.len());
            }
        }
        self.triangulation = Some(triangles);
        self.mst = Some(mst);
    }

    /// The room centers, in room order.
    pub fn get_room_centers(&self) -> (r: Vec<Coord>)
        ensures
            r@ == centers_of(self.rooms@),
    {
        let mut out: Vec<Coord> = Vec::new();
        let mut i: usize = 0;
        while i < self.rooms.len()
            invariant
                i <= self.rooms@.len(),
                out@ =~= centers_of(self.rooms@).subrange(0, i as int),
            decreases self.rooms.len() - i,
        {
            out.push(self.rooms[i].center);
            i += 1;
        }
        assert(out@ =~= centers_of(self.rooms@));
        out
    }

    /// The tree edges as pairs of room centers; empty without a tree.
    pub fn get_mst_as_coord(&self) -> (r: Vec<(Coord, Coord)>)
        requires
            self.wf(),
        ensures
            self.mst.is_none() ==> r@.len() == 0,
            self.mst.is_some() ==> r@ == pairs_as_centers(self.mst.unwrap()@, self.rooms@),
    {
        match &self.mst {
            Some(mst) => pairs_to_coords(mst, &self.rooms),
            None => Vec::new(),
        }
    }

    /// The triangulation edges as pairs of room centers, if there is a triangulation.
    pub fn get_triangulation_coords(&self) -> (r: Option<Vec<(Coord, Coord)>>)
        requires
            self.wf(),
        ensures
            self.triangles().is_none() ==> r.is_none(),
            self.triangles().is_some() ==> r.is_some() && r.unwrap()@ == pairs_as_centers(
                triangle_edges(self.triangles().unwrap()),
                self.rooms@,
            ),
    {
        match &self.triangulation {
            Some(tr) => Some(triangulation_to_coords(tr, &self.rooms)),
            None => None,
        }
    }
}

/// The shape of the tree over `n` rooms: its edges are triangle edges, it has
/// no cycle, it joins the ends of every triangle edge, it has fewer than `n`
/// edges, `n - 1` when the triangle edges connect all rooms, none for one room.
pub open spec fn tree_facts(mst: Seq<(usize, usize)>, triangles: Seq<usize>, n: nat) -> bool {
    &&& forall|k: int| 0 <= k < mst.len() ==> triangle_edges(triangles).contains(#[trigger] mst[k])
    &&& is_forest(mst)
    &&& forall|k: int|
        0 <= k < triangle_edges(triangles).len() ==> joined(
            mst,
            (#[trigger] triangle_edges(triangles)[k]).0,
            triangle_edges(triangles)[k].1,
        )
    &&& n > 0 ==> mst.len() < n
    &&& n > 0 && connects_all(n, triangle_edges(triangles)) ==> mst.len() == n - 1
    &&& n == 1 ==> mst.len() == 0
}

/// What `find_mst_indexes` gives for a triangulation of some rooms.
pub open spec fn find_mst_spec(mst: Seq<(usize, usize)>, triangles: Seq<usize>, rooms: Seq<Room>) -> bool {
    mst == crate::triangulation::spanning_forest_of(
        rooms.len(),
        crate::triangulation::weighted_edges(triangles, rooms),
    )
}

/// The triangulation edges as pairs of room centers.
pub fn triangulation_to_coords(triangles: &Vec<usize>, rooms: &Vec<Room>) -> (r: Vec<(Coord, Coord)>)
    requires
        valid_triangles(triangles@, rooms@.len() as int),
    ensures
        r@ == pairs_as_centers(triangle_edges(triangles@), rooms@),
{
    let edges = get_triangle_edge_indeces(triangles);
    proof {
        assert forall|k: int| 0 <= k < edges@.len() implies (#[trigger] edges@[k]).0 < rooms@.len()
            && edges@[k].1 < rooms@.len() by {
            let c = (k / 3) * 3;
            assert(c + 2 < triangles@.len());
            assert(triangles@[c] < rooms@.len() && triangles@[c + 1] < rooms@.len() && triangles@[c + 2] < rooms@.len());
        }
    }
    pairs_to_coords(&edges, rooms)
}

/// The minimum spanning tree of the triangulation as pairs of room centers.
pub fn mst_to_coords(rooms: &Vec<Room>, triangles: &Vec<usize>) -> (r: Vec<(Coord, Coord)>)
    requires
        rooms_wf(rooms@),
        valid_triangles(triangles@, rooms@.len() as int),
        rooms@.len() < u32::MAX,
        triangles@.len() < u32::MAX,
    ensures
        exists|mst: Seq<(usize, usize)>|
            #[trigger] find_mst_spec(mst, triangles@, rooms@) && tree_facts(mst, triangles@, rooms@.len()) && r@
                == pairs_as_centers(mst, rooms@),
{
    let mst = find_mst_indexes(triangles, rooms);
    proof {
        assert forall|k: int| 0 <= k < mst@.len() implies (#[trigger] mst@[k]).0 < rooms@.len()
            && mst@[k].1 < rooms@.len() by {
            assert(triangle_edges(triangles@).contains(mst@[k]));
            let j = choose|j: int| 0 <= j < triangle_edges(triangles@).len() && triangle_edges(triangles@)[j] == mst@[k];
            let c = (j / 3) * 3;
            assert(c + 2 < triangles@.len());
            assert(triangles@[c] < rooms@.len() && triangles@[c + 1] < rooms@.len() && triangles@[c + 2] < rooms@.len());
        }
    }
    let r = pairs_to_coords(&mst, rooms);
    assert(find_mst_spec(mst@, triangles@, rooms@) && tree_facts(mst@, triangles@, rooms@.len()));
    r
}

/// The rooms that a triangulation is built over.
pub struct RoomTriangulation {
    pub rooms: Vec<Room>,
}

impl RoomTriangulation {
    pub open spec fn rooms(&self) -> Seq<Room> {
        self.rooms@
    }

    pub fn new(rooms: Vec<Room>) -> (r: RoomTriangulation)
        ensures
            r.rooms() == rooms@,
    {
        RoomTriangulation { rooms }
    }
}

} // verus!
