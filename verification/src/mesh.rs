//! The unit sphere as triangles.
//!
//! The sphere is cut into quads along its circles of latitude and longitude,
//! and each quad into two triangles. What stands here is which grid point each
//! vertex of the triangle list is; where a grid point lies on the sphere is for
//! the caller to compute.

use vstd::prelude::*;

verus! {

/// Rows of quads, from pole to pole.
pub const MESH_LAT: usize = 12;

/// Columns of quads, once round.
pub const MESH_LON: usize = 20;

/// Vertices of the triangle list: six for each quad.
pub const MESH_VERTS: usize = 12 * 20 * 6;

/// A point of the grid: how many steps from the pole, and how many round.
#[derive(Clone, Copy, Debug, PartialEq, Eq, Structural)]
pub struct GridPoint {
    pub lat: usize,
    pub lon: usize,
}

impl GridPoint {
    /// Whether this is a given point of the grid.
    pub open spec fn is_at(self, p: (int, int)) -> bool {
        self.lat == p.0 && self.lon == p.1
    }
}

/// How far down a vertex of a quad lies: the six vertices are the corners
/// a, b, c and a, c, d, with b and c on the lower edge.
pub open spec fn down(k: int) -> int {
    if k == 1 || k == 2 || k == 4 {
        1
    } else {
        0
    }
}

/// How far round a vertex of a quad lies: c and d are on the far edge.
pub open spec fn round(k: int) -> int {
    if k == 2 || k == 4 || k == 5 {
        1
    } else {
        0
    }
}

/// The grid point of vertex `k` of a quad.
pub open spec fn quad_vertex(lat: int, lon: int, k: int) -> (int, int) {
    (lat + down(k), lon + round(k))
}

/// The grid point of a vertex of the triangle list. Quads come row by row.
pub open spec fn vertex(i: int) -> (int, int) {
    quad_vertex(i / 6 / (MESH_LON as int), i / 6 % (MESH_LON as int), i % 6)
}

/// Whether a list holds the vertices of all triangles in order.
pub open spec fn meshed(mesh: Seq<GridPoint>) -> bool {
    forall|i: int| 0 <= i < MESH_VERTS ==> (#[trigger] mesh[i]).is_at(vertex(i))
}

/// Lists the grid points of all triangles.
pub fn build_mesh(mesh: &mut [GridPoint])
    requires
        old(mesh)@.len() == MESH_VERTS,
    ensures
        final(mesh)@.len() == old(mesh)@.len(),
        meshed(final(mesh)@),
{
    let mut at: usize = 0;
    let mut lat: usize = 0;
    while lat < MESH_LAT
        invariant
            lat <= MESH_LAT,
            at == lat * MESH_LON * 6,
            mesh@.len() == MESH_VERTS,
            forall|i: int| 0 <= i < at ==> (#[trigger] mesh@[i]).is_at(vertex(i)),
        decreases MESH_LAT - lat,
    {
        let mut lon: usize = 0;
        while lon < MESH_LON
            invariant
                lat < MESH_LAT,
                lon <= MESH_LON,
                at == (lat * MESH_LON + lon) * 6,
                mesh@.len() == MESH_VERTS,
                forall|i: int| 0 <= i < at ==> (#[trigger] mesh@[i]).is_at(vertex(i)),
            decreases MESH_LON - lon,
        {
            let a: GridPoint = GridPoint { lat, lon };
            let b: GridPoint = GridPoint { lat: lat + 1, lon };
            let c: GridPoint = GridPoint { lat: lat + 1, lon: lon + 1 };
            let d: GridPoint = GridPoint { lat, lon: lon + 1 };
            mesh[at] = a;
            mesh[at + 1] = b;
            mesh[at + 2] = c;
            mesh[at + 3] = a;
            mesh[at + 4] = c;
            mesh[at + 5] = d;
            at += 6;
            lon += 1;
        }
        lat += 1;
    }
}

/// Every vertex is a point of the grid.
pub proof fn law_vertices_on_grid(i: int)
    requires
        0 <= i < MESH_VERTS,
    ensures
        0 <= vertex(i).0 <= MESH_LAT,
        0 <= vertex(i).1 <= MESH_LON,
{
}

/// Every quad of the grid is in the list, at one place only.
pub proof fn law_each_quad_once(lat: int, lon: int, k: int)
    requires
        0 <= lat < MESH_LAT,
        0 <= lon < MESH_LON,
        0 <= k < 6,
    ensures
        0 <= (lat * MESH_LON + lon) * 6 + k < MESH_VERTS,
        vertex((lat * MESH_LON + lon) * 6 + k) == quad_vertex(lat, lon, k),
        forall|i: int|
            0 <= i < MESH_VERTS && i % 6 == k && #[trigger] vertex(i) == quad_vertex(lat, lon, k)
                ==> i == (lat * MESH_LON + lon) * 6 + k,
{
}

/// The two triangles of a quad share the edge from a to c, which they run
/// along in opposite directions, so both face the same way; together they have
/// all four corners.
pub proof fn law_triangles_share_diagonal(lat: int, lon: int)
    ensures
        quad_vertex(lat, lon, 0) == quad_vertex(lat, lon, 3),
        quad_vertex(lat, lon, 2) == quad_vertex(lat, lon, 4),
        quad_vertex(lat, lon, 0) == (lat, lon),
        quad_vertex(lat, lon, 1) == (lat + 1, lon),
        quad_vertex(lat, lon, 2) == (lat + 1, lon + 1),
        quad_vertex(lat, lon, 5) == (lat, lon + 1),
{
}

/// Neighbouring quads meet without a gap: the far edge of one is the near edge
/// of the next one round, and the lower edge of one is the upper edge of the
/// one below.
pub proof fn law_quads_meet(lat: int, lon: int)
    ensures
        quad_vertex(lat, lon, 5) == quad_vertex(lat, lon + 1, 0),
        quad_vertex(lat, lon, 2) == quad_vertex(lat, lon + 1, 1),
        quad_vertex(lat, lon, 1) == quad_vertex(lat + 1, lon, 0),
        quad_vertex(lat, lon, 2) == quad_vertex(lat + 1, lon, 5),
{
}

/// A vertex of the list, from its number alone: six to a quad and twenty quads to a
/// row, the corners a, b, c and a, c, d of the quad in turn.
pub proof fn law_vertex_by_number(i: int, p: GridPoint)
    requires
        0 <= i < 1440,
        p.is_at(vertex(i)),
    ensures
        ({
            let (lat, lon) = (i / 120, i / 6 % 20);
            &&& i % 6 == 0 || i % 6 == 3 ==> p.lat == lat && p.lon == lon
            &&& i % 6 == 1 ==> p.lat == lat + 1 && p.lon == lon
            &&& i % 6 == 2 || i % 6 == 4 ==> p.lat == lat + 1 && p.lon == lon + 1
            &&& i % 6 == 5 ==> p.lat == lat && p.lon == lon + 1
        }),
{
    assert(i / 6 / 20 == i / 120);
}

/// The triangles as a whole: for every quad of the grid, its six vertices stand
/// together in the list, where its row and its column say.
pub proof fn law_mesh_by_quads(mesh: Seq<GridPoint>, lat: int, lon: int)
    requires
        meshed(mesh),
        0 <= lat < 12,
        0 <= lon < 20,
    ensures
        ({
            let at = 120 * lat + 6 * lon;
            &&& mesh[at].lat == lat && mesh[at].lon == lon
            &&& mesh[at + 1].lat == lat + 1 && mesh[at + 1].lon == lon
            &&& mesh[at + 2].lat == lat + 1 && mesh[at + 2].lon == lon + 1
            &&& mesh[at + 3].lat == lat && mesh[at + 3].lon == lon
            &&& mesh[at + 4].lat == lat + 1 && mesh[at + 4].lon == lon + 1
            &&& mesh[at + 5].lat == lat && mesh[at + 5].lon == lon + 1
        }),
{
    let at: int = 120 * lat + 6 * lon;
    law_vertex_by_number(at, mesh[at]);
    law_vertex_by_number(at + 1, mesh[at + 1]);
    law_vertex_by_number(at + 2, mesh[at + 2]);
    law_vertex_by_number(at + 3, mesh[at + 3]);
    law_vertex_by_number(at + 4, mesh[at + 4]);
    law_vertex_by_number(at + 5, mesh[at + 5]);
}

} // verus!
