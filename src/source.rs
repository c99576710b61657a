//! Sources that emit gammatons into the scene.
use vstd::prelude::*;

use crate::aabb::Point3;
use crate::bins::TriangleBins;
use crate::ton::Ton;

verus! {

/// Where a source emits from.
pub enum Shape {
    /// A point shooting equally in all directions.
    Point { position: Point3 },
    /// A hemisphere around the y axis, shooting inward from its surface.
    Hemisphere {
        /// The center of the hemisphere's bottom disk.
        center: Point3,
        /// The distance of the origins from the center, in grid units.
        radius: u32,
    },
    /// The triangles of a mesh, picked by area and shooting along their
    /// normals; the bins hold the triangles' indices.
    Mesh { triangles: TriangleBins<usize> },
}

/// Emits tons that all start with the same probabilities and substances.
pub struct TonSource {
    pub shape: Shape,
    pub p_straight: u32,
    pub p_parabolic: u32,
    pub p_flow: u32,
    pub interaction_radius: u32,
    pub parabola_height: u32,
    pub substances: Vec<u32>,
    pub emission_count: u32,
    pub pickup_rates: Vec<u32>,
}

pub struct TonSourceBuilder {
    pub shape: Shape,
    pub p_straight: u32,
    pub p_parabolic: u32,
    pub p_flow: u32,
    pub substances: Vec<u32>,
    pub emission_count: u32,
    pub pickup_rates: Vec<u32>,
    pub interaction_radius: u32,
    pub parabola_height: u32,
}

fn copy_of(v: &Vec<u32>) -> (r: Vec<u32>)
    ensures
        r@ == v@,
{
    let mut r: Vec<u32> = Vec::new();
    let mut i: usize = 0;
    while i < v.len()
        invariant
            i <= v.len(),
            r@ == v@.subrange(0, i as int),
        decreases v.len() - i,
    {
        r.push(v[i]);
        i = i + 1;
        assert(r@ =~= v@.subrange(0, i as int));
    }
    assert(v@.subrange(0, i as int) =~= v@);
    r
}

impl TonSourceBuilder {
    /// A point source at the origin that emits 10000 tons with no motion
    /// probabilities and no substances, an interaction radius of 100 and a
    /// parabola height of 50 grid units.
    pub fn new() -> (r: TonSourceBuilder)
        ensures
            r.shape == (Shape::Point { position: Point3 { x: 0, y: 0, z: 0 } }),
            r.p_straight == 0 && r.p_parabolic == 0 && r.p_flow == 0,
            r.substances@.len() == 0,
            r.pickup_rates@.len() == 0,
            r.emission_count == 10000,
            r.interaction_radius == 100,
            r.parabola_height == 50,
    {
        TonSourceBuilder {
            shape: Shape::Point { position: Point3 { x: 0, y: 0, z: 0 } },
            p_straight: 0,
            p_parabolic: 0,
            p_flow: 0,
            substances: Vec::new(),
            emission_count: 10000,
            pickup_rates: Vec::new(),
            interaction_radius: 100,
            parabola_height: 50,
        }
    }

    pub fn p_straight(self, p_straight: u32) -> (r: TonSourceBuilder)
        ensures
            r == (TonSourceBuilder { p_straight, ..self }),
    {
        TonSourceBuilder { p_straight, ..self }
    }

    pub fn p_parabolic(self, p_parabolic: u32) -> (r: TonSourceBuilder)
        ensures
            r == (TonSourceBuilder { p_parabolic, ..self }),
    {
        TonSourceBuilder { p_parabolic, ..self }
    }

    pub fn p_flow(self, p_flow: u32) -> (r: TonSourceBuilder)
        ensures
            r == (TonSourceBuilder { p_flow, ..self }),
    {
        TonSourceBuilder { p_flow, ..self }
    }

    pub fn substances(self, substances: &Vec<u32>) -> (r: TonSourceBuilder)
        ensures
            r.substances@ == substances@,
            r == (TonSourceBuilder { substances: r.substances, ..self }),
    {
        let substances = copy_of(substances);
        TonSourceBuilder { substances, ..self }
    }

    pub fn point_shaped(self, pos_x: i32, pos_y: i32, pos_z: i32) -> (r: TonSourceBuilder)
        ensures
            r == (TonSourceBuilder {
                shape: Shape::Point { position: Point3 { x: pos_x, y: pos_y, z: pos_z } },
                ..self
            }),
    {
        TonSourceBuilder {
            shape: Shape::Point { position: Point3 { x: pos_x, y: pos_y, z: pos_z } },
            ..self
        }
    }

    pub fn hemisphere_shaped(self, center: Point3, radius: u32) -> (r: TonSourceBuilder)
        ensures
            r == (TonSourceBuilder { shape: Shape::Hemisphere { center, radius }, ..self }),
    {
        TonSourceBuilder { shape: Shape::Hemisphere { center, radius }, ..self }
    }

    /// Emits from the triangles of a mesh, binned by area.
    pub fn mesh_shaped(self, triangles: TriangleBins<usize>) -> (r: TonSourceBuilder)
        ensures
            r == (TonSourceBuilder { shape: Shape::Mesh { triangles }, ..self }),
    {
        TonSourceBuilder { shape: Shape::Mesh { triangles }, ..self }
    }

    pub fn emission_count(self, emission_count: u32) -> (r: TonSourceBuilder)
        ensures
            r == (TonSourceBuilder { emission_count, ..self }),
    {
        TonSourceBuilder { emission_count, ..self }
    }

    pub fn interaction_radius(self, interaction_radius: u32) -> (r: TonSourceBuilder)
        ensures
            r == (TonSourceBuilder { interaction_radius, ..self }),
    {
        TonSourceBuilder { interaction_radius, ..self }
    }

    pub fn parabola_height(self, parabola_height: u32) -> (r: TonSourceBuilder)
        ensures
            r == (TonSourceBuilder { parabola_height, ..self }),
    {
        TonSourceBuilder { parabola_height, ..self }
    }

    pub fn pickup_rates(self, pickup_rates: Vec<u32>) -> (r: TonSourceBuilder)
        ensures
            r == (TonSourceBuilder { pickup_rates, ..self }),
    {
        TonSourceBuilder { pickup_rates, ..self }
    }

    /// The source; every substance needs a pickup rate.
    pub fn build(self) -> (r: TonSource)
        requires
            self.pickup_rates@.len() == self.substances@.len(),
        ensures
            r.wf(),
            r == (TonSource {
                shape: self.shape,
                p_straight: self.p_straight,
                p_parabolic: self.p_parabolic,
                p_flow: self.p_flow,
                interaction_radius: self.interaction_radius,
                parabola_height: self.parabola_height,
                substances: self.substances,
                emission_count: self.emission_count,
                pickup_rates: self.pickup_rates,
            }),
    {
        TonSource {
            shape: self.shape,
            p_straight: self.p_straight,
            p_parabolic: self.p_parabolic,
            p_flow: self.p_flow,
            interaction_radius: self.interaction_radius,
            parabola_height: self.parabola_height,
            substances: self.substances,
            emission_count: self.emission_count,
            pickup_rates: self.pickup_rates,
        }
    }
}

impl TonSource {
    pub open spec fn wf(&self) -> bool {
        self.pickup_rates@.len() == self.substances@.len()
    }

    pub fn emission_count(&self) -> (r: u32)
        ensures
            r == self.emission_count,
    {
        self.emission_count
    }

    /// A fresh ton as this source emits it.
    pub fn emit_ton(&self) -> (t: Ton)
        requires
            self.wf(),
        ensures
            t.wf(),
            t.p_straight == self.p_straight,
            t.p_parabolic == self.p_parabolic,
            t.p_flow == self.p_flow,
            t.interaction_radius == self.interaction_radius,
            t.parabola_height == self.parabola_height,
            t.substances@ == self.substances@,
            t.pickup_rates@ == self.pickup_rates@,
    {
        Ton {
            p_straight: self.p_straight,
            p_parabolic: self.p_parabolic,
            p_flow: self.p_flow,
            interaction_radius: self.interaction_radius,
            parabola_height: self.parabola_height,
            substances: copy_of(&self.substances),
            pickup_rates: copy_of(&self.pickup_rates),
        }
    }
}

} // verus!
