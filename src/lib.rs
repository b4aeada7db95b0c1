//! Plane fitting for 3-D point clouds: the verified, exact parts of the
//! pipeline (the point-file tokenizer and the point-count precondition of
//! the plane estimator).
pub mod point_cloud;
pub mod theta;
