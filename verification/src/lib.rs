//! Verified building blocks of a position-based rigid-body simulator: the collision
//! tree and the two walks over it, the cube corner enumeration, the contact and
//! constraint rules, the frame layout of the software renderer and its pointer state.
pub mod collider;
pub mod cube;
pub mod mouse;
pub mod raster;
pub mod shape;
pub mod walk;
