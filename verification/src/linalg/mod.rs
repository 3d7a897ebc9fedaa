//! Linear algebra on the signed permutation matrices of 4-dimensional space.
pub mod axis;
pub mod facet;
pub mod mat4;
pub mod sign;
pub mod vec4;

pub use axis::Axis;
pub use facet::Facet;
pub use mat4::{Mat4, TransformByMat4};
pub use sign::Sign;
pub use vec4::Vec4;
