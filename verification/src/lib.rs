//! The integer core of an offline renderer.
//!
//! Rendering itself is arithmetic on doubles, and that arithmetic lives with
//! the caller. What is decided on whole numbers lives here, each piece with a
//! proved contract:
//!
//! - [`schedule`]: which worker renders which pixel, and how the workers'
//!   buffers fold back into one frame in row order;
//! - [`order`]: doubles as integer keys that compare as the doubles' values
//!   do, and the nearest of several hits along a ray;
//! - [`objects`]: whether what the caller found by solving a shape's equation
//!   makes a hit of a sphere, a plane, a triangle or a bounding box;
//! - [`transport`]: which secondary rays leave a hit, and how their light is
//!   blended;
//! - [`mesh`] and [`obj`]: the bounding box of a mesh, and the vertices and
//!   triangles that a Wavefront OBJ text states;
//! - [`encode`]: a frame of 8-bit RGB pixels as bytes and as a PNG stream;
//! - [`camera`] and [`material`]: the canvas a camera falls back on, and the
//!   uniform texture.

pub mod camera;
pub mod encode;
pub mod material;
pub mod mesh;
pub mod obj;
pub mod objects;
pub mod order;
pub mod schedule;
pub mod transport;
