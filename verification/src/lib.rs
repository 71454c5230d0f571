//! The decisions of a real-time ray tracer for a handheld console.
//!
//! Four spheres orbit over an infinite checkerboard. The geometry, which is
//! floating point throughout, is computed by the program around this library,
//! and so is everything that touches the hardware. What stands here is what is
//! decided and laid out along the way, each with a contract:
//!
//! - [`binary32`] reads bit patterns of numbers: their order and their whole
//!   parts, exactly. [`rsqrt`] turns one into a first guess of its reciprocal
//!   square root.
//! - [`scene`] holds the spheres and the bound around them.
//! - [`trace`] decides what a ray runs into and what follows from it, [`checker`]
//!   what colour the floor is there, and [`shading`] what light it gets. [`reach`]
//!   shows that holding a ray against the bound only saves time.
//! - [`bounds`] finds the rectangle of a sphere on the screen, [`spans`] the
//!   pixels of a scanline that are worth a ray, and [`sprite`] traces a frame
//!   into the sprite buffer. [`pixel`] packs and blends its colours.
//! - [`camera`] says where a place is seen, [`enclosure`] shows that the rectangle
//!   holds the sphere, and [`silhouette`] that the rays miss nothing of it.
//! - [`matcap`] and [`mesh`] are the textures and triangles of the second
//!   renderer.
//! - [`present`] is what the graphics engine is handed.
//! - [`run`] decides how a run goes, and [`report`] writes down its numbers,
//!   with [`decimal`] for the digits.

pub mod binary32;
pub mod bounds;
pub mod camera;
pub mod checker;
pub mod decimal;
pub mod enclosure;
pub mod matcap;
pub mod mesh;
pub mod pixel;
pub mod present;
pub mod reach;
pub mod report;
pub mod rsqrt;
pub mod run;
pub mod scene;
pub mod screen;
pub mod shading;
pub mod silhouette;
pub mod spans;
pub mod sprite;
pub mod trace;
