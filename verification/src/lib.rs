//! A verified 2-D articulated-arm library: a chain of rigid segments anchored
//! at one point, with forward-kinematics propagation and an iterative
//! two-pass reaching solver that bends the chain toward a movable target.
//!
//! All geometry is carried out in fixed-point integer arithmetic:
//! coordinates in sub-units (`SUBUNITS` per world unit), angles in
//! millidegrees, trigonometric values scaled by `TRIG_ONE`.

pub mod geom;
pub mod limb;
pub mod model;
pub mod num;
pub mod segment;
pub mod solver;
pub mod trig;
