//! A sphere with the triangle fan that draws it.

use vstd::prelude::*;
use crate::geometry::{is_unit, paced, Point, Sphere};
use crate::operations::vector;
use crate::settings::LENGTH;

verus! {

/// A sphere together with the triangle fan that draws it.
///
/// * `sphere`: the sphere
/// * `vertices`: the vertices of the fan
/// * `indices`: the triangles of the fan, three indices into `vertices` each
pub struct Object {
    pub sphere: Sphere,
    pub vertices: [Point; 33],
    pub indices: [u16; 96],
}

/// Entry `place` of the index list of a triangle fan round vertex 0: triangle
/// `k` joins the hub to the boundary vertices `k + 1` and `k + 2`, and the
/// last triangle closes the fan on boundary vertex 1.
pub open spec fn fan_of(place: int) -> int {
    let triangle = place / 3;
    let corner = place % 3;
    if corner == 0 {
        0
    } else if corner == 1 {
        triangle + 1
    } else if triangle == 31 {
        1
    } else {
        triangle + 2
    }
}

/// `indices` lists the triangles of the fan.
pub open spec fn is_fan(indices: [u16; 96]) -> bool {
    forall|place: int| 0 <= place < 96 ==> #[trigger] indices[place] == fan_of(place)
}

/// `vertices` holds a hub at the origin, in the colour of the first boundary
/// point of `sphere`, followed by the boundary points of `sphere` in order.
pub open spec fn is_mesh(vertices: [Point; 33], sphere: Sphere) -> bool {
    &&& vertices[0].position@ =~= seq![0i32, 0i32]
    &&& vertices[0].color =~= sphere.points[0].color
    &&& forall|k: int| 0 <= k < 32 ==> #[trigger] vertices[k + 1] == sphere.points[k]
}

/// The vertices of the triangle fan that draws `sphere`.
pub fn vertices_data(sphere: Sphere) -> (data: [Point; 33])
    ensures
        is_mesh(data, sphere),
{
    let mut data: [Point; 33] = [Point::default(); 33];
    data[0].color = sphere.points[0].color;
    let mut index: usize = 0;
    while index < LENGTH
        invariant
            index <= LENGTH,
            data[0].position@ =~= seq![0i32, 0i32],
            data[0].color =~= sphere.points[0].color,
            forall|k: int| 0 <= k < index ==> #[trigger] data[k + 1] == sphere.points[k],
        decreases LENGTH - index,
    {
        data[index + 1] = sphere.points[index];
        index += 1;
    }
    data
}

/// The indices of the triangle fan that draws a sphere.
pub fn indices_data() -> (data: [u16; 96])
    ensures
        is_fan(data),
{
    let mut data: [u16; 96] = [0; 96];
    let mut index: usize = 0;
    while index < LENGTH
        invariant
            index <= LENGTH,
            forall|place: int| 0 <= place < 3 * index ==> #[trigger] data[place] == fan_of(place),
        decreases LENGTH - index,
    {
        data[3 * index] = 0;
        data[3 * index + 1] = (index as u16) + 1;
        data[3 * index + 2] = if index + 1 == LENGTH {
            1
        } else {
            (index as u16) + 2
        };
        index += 1;
    }
    data
}

impl Object {
    /// A new object: a sphere at `center`, with `radius`, launched along
    /// `heading` at a speed drawn at random, and its triangle fan.
    pub fn new(center: [i32; 2], radius: i32, heading: [i32; 2]) -> (out: Object)
        ensures
            out.sphere.launched(center, radius, heading),
            radius >= 0 && is_unit(vector(heading)) ==> paced(out.sphere@.velocity, radius as int),
            is_mesh(out.vertices, out.sphere),
            is_fan(out.indices),
    {
        let sphere = Sphere::new(center, radius, heading);
        Object { sphere, vertices: vertices_data(sphere), indices: indices_data() }
    }

    /// Moves the sphere to `center` and gives it `velocity`.
    pub fn update(&mut self, center: [i32; 2], velocity: [i32; 2])
        ensures
            *final(self) == (Object {
                sphere: Sphere { center, velocity, ..old(self).sphere },
                ..*old(self)
            }),
    {
        self.sphere.center = center;
        self.sphere.velocity = velocity;
    }
}

} // verus!
