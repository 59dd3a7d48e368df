//! The kinds of bodies and of distance constraints, and the rules that pick the
//! computation to run for them.
use vstd::prelude::*;

verus! {

/// The shape of a body.
#[derive(Clone, Copy, PartialEq, Eq, Structural, Debug)]
pub enum Shape {
    Sphere,
    Cube,
}

/// The contact test that applies to a pair of bodies.
#[derive(Clone, Copy, PartialEq, Eq, Structural, Debug)]
pub enum ContactKind {
    /// Two spheres: compare the distance of the centres with the sum of the radii.
    Spheres,
    /// Two cubes: look for an edge of either cube that enters the other.
    Cubes,
}

pub open spec fn spec_contact_kind(a: Shape, b: Shape) -> Option<ContactKind> {
    match (a, b) {
        (Shape::Sphere, Shape::Sphere) => Some(ContactKind::Spheres),
        (Shape::Cube, Shape::Cube) => Some(ContactKind::Cubes),
        _ => None,
    }
}

/// The contact test for two bodies of shapes `a` and `b`; `None` when the pair
/// mixes a sphere and a cube, which never collide.
pub fn contact_kind(a: Shape, b: Shape) -> (r: Option<ContactKind>)
    ensures
        r == spec_contact_kind(a, b),
{
    match (a, b) {
        (Shape::Sphere, Shape::Sphere) => Some(ContactKind::Spheres),
        (Shape::Cube, Shape::Cube) => Some(ContactKind::Cubes),
        _ => None,
    }
}

/// The choice of contact test does not depend on the order of the two bodies.
pub proof fn lemma_contact_kind_symmetric(a: Shape, b: Shape)
    ensures
        spec_contact_kind(a, b) == spec_contact_kind(b, a),
{
}

/// How a distance constraint between two bodies acts.
#[derive(Clone, Copy, PartialEq, Eq, Structural, Debug)]
pub enum LineKind {
    /// Keeps the two bodies at the rest length.
    Exact,
    /// Keeps the two bodies at least the rest length apart.
    Min,
    /// Keeps the two bodies at most the rest length apart.
    Max,
}

pub open spec fn spec_applies(kind: LineKind, at_least: bool, at_most: bool) -> bool {
    match kind {
        LineKind::Exact => true,
        LineKind::Min => !at_least,
        LineKind::Max => !at_most,
    }
}

impl LineKind {
    /// Whether a constraint of this kind corrects its two bodies, given whether their
    /// distance is at least (`at_least`) and at most (`at_most`) the rest length.
    pub fn applies(self, at_least: bool, at_most: bool) -> (r: bool)
        ensures
            r == spec_applies(self, at_least, at_most),
    {
        match self {
            LineKind::Exact => true,
            LineKind::Min => !at_least,
            LineKind::Max => !at_most,
        }
    }
}

/// At the rest length no constraint but an exact one corrects anything, and a
/// minimum and a maximum constraint never both act on comparable distances.
pub proof fn lemma_bounds_at_rest(at_least: bool, at_most: bool)
    ensures
        at_least && at_most ==> !spec_applies(LineKind::Min, at_least, at_most) && !spec_applies(
            LineKind::Max,
            at_least,
            at_most,
        ),
        (at_least || at_most) ==> !(spec_applies(LineKind::Min, at_least, at_most) && spec_applies(
            LineKind::Max,
            at_least,
            at_most,
        )),
        spec_applies(LineKind::Exact, at_least, at_most),
{
}

} // verus!
