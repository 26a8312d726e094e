use vstd::prelude::*;

verus! {

/// Kind tag shared by every entity in the galaxy's identity space.
/// Exactly one of the three concrete tables holds the details of an id,
/// and this tag says which one.
#[derive(Clone, Copy, PartialEq, Eq, Structural, Hash, Debug)]
pub enum GalaxyObjectType {
    System,
    Sector,
    SectorFuture,
}

/// The shared identity of an entity: id plus kind tag. Every sector,
/// future and star system reuses one of these ids.
#[derive(Clone, Copy, PartialEq, Eq, Structural, Hash, Debug)]
pub struct GalaxyObject {
    pub id: i32,
    pub obj_type: GalaxyObjectType,
}

/// Payload for creating a galaxy object; the store assigns the id.
#[derive(Clone, Copy, Debug)]
pub struct NewGalaxyObject {
    pub obj_type: GalaxyObjectType,
}

/// A materialized node of the spatial hierarchy. Root sectors have no
/// parent; every other sector points at the sector that spawned it.
#[derive(Clone, Copy, Debug)]
pub struct StarSector {
    pub id: i32,
    pub parent_id: Option<i32>,
}

/// Payload for inserting a sector row under an already assigned id.
#[derive(Clone, Copy, Debug)]
pub struct NewStarSector {
    pub id: i32,
    pub parent_id: Option<i32>,
}

/// A leaf entity: a concrete star system belonging to exactly one sector.
#[derive(Clone, Debug)]
pub struct StarSystem {
    pub id: i32,
    pub name: String,
    pub sector_id: i32,
}

/// Payload for inserting a star system row.
#[derive(Clone, Debug)]
pub struct NewStarSystem {
    pub id: i32,
    pub name: String,
    pub sector_id: i32,
}

/// A deferred promise to generate a sector's contents later.
///
/// `stars` and `radius` are fixed-point quantities in thousandths, so a
/// value of 5_000 stands for five stars. All star and radius arithmetic
/// of this crate uses this scale.
#[derive(Clone, Copy, Debug)]
pub struct StarSectorFuture {
    pub id: i32,
    pub parent_id: i32,
    pub radius: u64,
    pub stars: u64,
}

/// Payload for inserting a sector future row.
#[derive(Clone, Copy, Debug)]
pub struct NewStarSectorFuture {
    pub id: i32,
    pub parent_id: i32,
    pub radius: u64,
    pub stars: u64,
}

/// A stored undirected link between two galaxy objects of one batch.
/// Each side carries the kind tag so a consumer can resolve the id
/// without a type-discovery lookup.
#[derive(Clone, Copy, Debug)]
pub struct StarLink {
    pub id: i32,
    pub a_id: i32,
    pub a_obj_type: GalaxyObjectType,
    pub b_id: i32,
    pub b_obj_type: GalaxyObjectType,
}

/// A link that has not been stored yet (no id). Equality is undirected:
/// swapping the two sides gives an equal link.
#[derive(Clone, Copy, Debug)]
pub struct NewStarLink {
    pub a_id: i32,
    pub a_obj_type: GalaxyObjectType,
    pub b_id: i32,
    pub b_obj_type: GalaxyObjectType,
}

impl NewStarLink {
    /// The identity on the first side of the link.
    pub open spec fn side_a_spec(self) -> GalaxyObject {
        GalaxyObject { id: self.a_id, obj_type: self.a_obj_type }
    }

    /// The identity on the second side of the link.
    pub open spec fn side_b_spec(self) -> GalaxyObject {
        GalaxyObject { id: self.b_id, obj_type: self.b_obj_type }
    }

    pub fn new(a: &GalaxyObject, b: &GalaxyObject) -> (r: NewStarLink)
        ensures
            r.side_a_spec() == *a,
            r.side_b_spec() == *b,
    {
        NewStarLink { a_id: a.id, a_obj_type: a.obj_type, b_id: b.id, b_obj_type: b.obj_type }
    }

    pub fn side_a(&self) -> (r: GalaxyObject)
        ensures
            r == self.side_a_spec(),
    {
        GalaxyObject { id: self.a_id, obj_type: self.a_obj_type }
    }

    pub fn side_b(&self) -> (r: GalaxyObject)
        ensures
            r == self.side_b_spec(),
    {
        GalaxyObject { id: self.b_id, obj_type: self.b_obj_type }
    }
}

/// Orientation-independent equality of links: the same two endpoints in
/// either order.
pub open spec fn link_eq(x: NewStarLink, y: NewStarLink) -> bool {
    ||| (x.side_a_spec() == y.side_a_spec() && x.side_b_spec() == y.side_b_spec())
    ||| (x.side_a_spec() == y.side_b_spec() && x.side_b_spec() == y.side_a_spec())
}

impl PartialEq for NewStarLink {
    fn eq(&self, other: &NewStarLink) -> (r: bool) {
        (self.side_a() == other.side_a() && self.side_b() == other.side_b())
            || (self.side_a() == other.side_b() && self.side_b() == other.side_a())
    }
}

impl vstd::std_specs::cmp::PartialEqSpecImpl for NewStarLink {
    open spec fn obeys_eq_spec() -> bool {
        true
    }

    open spec fn eq_spec(&self, other: &NewStarLink) -> bool {
        link_eq(*self, *other)
    }
}

impl Eq for NewStarLink {}

/// The sides of a stored link, as an unstored link value, for talking
/// about undirected equality of stored links.
pub open spec fn sides_of(l: StarLink) -> NewStarLink {
    NewStarLink { a_id: l.a_id, a_obj_type: l.a_obj_type, b_id: l.b_id, b_obj_type: l.b_obj_type }
}

/// Anything that carries a galaxy object identity.
pub trait ToGalaxyObject {
    spec fn galaxy_object_spec(&self) -> GalaxyObject;

    fn to_galaxy_object(&self) -> (r: GalaxyObject)
        ensures
            r == self.galaxy_object_spec();
}

impl ToGalaxyObject for GalaxyObject {
    open spec fn galaxy_object_spec(&self) -> GalaxyObject {
        *self
    }

    fn to_galaxy_object(&self) -> (r: GalaxyObject) {
        *self
    }
}

impl ToGalaxyObject for StarSector {
    open spec fn galaxy_object_spec(&self) -> GalaxyObject {
        GalaxyObject { id: self.id, obj_type: GalaxyObjectType::Sector }
    }

    fn to_galaxy_object(&self) -> (r: GalaxyObject) {
        GalaxyObject { id: self.id, obj_type: GalaxyObjectType::Sector }
    }
}

impl ToGalaxyObject for StarSectorFuture {
    open spec fn galaxy_object_spec(&self) -> GalaxyObject {
        GalaxyObject { id: self.id, obj_type: GalaxyObjectType::SectorFuture }
    }

    fn to_galaxy_object(&self) -> (r: GalaxyObject) {
        GalaxyObject { id: self.id, obj_type: GalaxyObjectType::SectorFuture }
    }
}

impl ToGalaxyObject for StarSystem {
    open spec fn galaxy_object_spec(&self) -> GalaxyObject {
        GalaxyObject { id: self.id, obj_type: GalaxyObjectType::System }
    }

    fn to_galaxy_object(&self) -> (r: GalaxyObject) {
        GalaxyObject { id: self.id, obj_type: GalaxyObjectType::System }
    }
}

/// Everything the store can answer with when an operation fails.
#[derive(Clone, Copy, PartialEq, Eq, Structural, Debug)]
pub enum Error {
    /// A lookup or update by id affected zero rows.
    NotFound,
    /// A referenced parent or sector id does not exist at insert time.
    ConstraintViolation,
}

} // verus!
