//! A ray caster for scenes of spheres, computed in exact integer arithmetic.
//!
//! Every length, intensity and colour channel is an integer that counts
//! steps: millionths of a unit. Sums and products of such numbers are exact,
//! a product of two lengths counting squared steps. A quotient or a square
//! root is rounded down to a whole step. The world is the cube of the
//! positions whose coordinates do not exceed a thousand units in magnitude;
//! inside it nothing overflows.
//!
//! A picture is made pixel by pixel: a ray from the centre of the world
//! through the pixel's place on the viewport (`scene`), the places where it
//! meets the spheres (`sphere`), the nearest of them (`nearest`), the sum of
//! what the lights send there (`light`), and the sphere's colour under that
//! light as four bytes (`shade`), written to a pixel buffer (`canvas`).
//!
//! Each function's contract says which integers it returns. What holds of
//! all scenes is stated beside the functions, in the form of proof
//! functions.

pub mod canvas;
pub mod fixed;
pub mod light;
pub mod nearest;
pub mod ray;
pub mod scene;
pub mod shade;
pub mod sphere;
pub mod vector;
