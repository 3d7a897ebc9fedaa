//! Hypercube (3^4) puzzle model and search building blocks.
pub mod action;
pub mod bits;
pub mod canonical;
pub mod codegen;
pub mod linalg;
pub mod lut;
pub mod permutation;
pub mod prune;
pub mod puzzle;
pub mod search;

pub mod stage_utils;
pub mod util;
pub mod xy_rot;

pub use linalg::{Axis, Facet, Mat4, Sign, TransformByMat4, Vec4};
pub use puzzle::{
    parse_twists, twists_to_string, PieceType, SimplePuzzleSim, Twist, TwistData, TwistSet,
};

pub mod stages;
