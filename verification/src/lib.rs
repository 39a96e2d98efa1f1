//! Integer polygon triangulation: ear clipping on small contours, a sweep
//! line triangulation into flat index buffers or into meshes whose
//! triangles know their neighbours, simplification of arbitrary input
//! through i_overlay, meshes of evenly spread points, the splitting of
//! linked triangles around a new point, and the bit, heap and geometry
//! utilities they rest on.
#![allow(unused_imports)]

pub mod geom;
pub mod location;
pub mod bits;
pub mod heap;
pub mod index;
pub mod triangulation;
pub mod builder;
pub mod meta;
pub mod phantom;
pub mod chain;
pub mod ring;
pub mod earcut;
pub mod split;
pub mod vertex;
pub mod segment;
pub mod locator;
pub mod uniform;
pub mod monotone;
pub mod net;
pub mod solver;
pub mod binder;
pub mod triangulator;
pub mod uniform_mesh;
pub mod delaunay;
