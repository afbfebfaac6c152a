//! Integer core of the stereo-image slate-area pipeline: placing the stereo
//! camera's csv records on the image grid, the k-means clustering of the
//! pixels by colour, and the naming of the files that a processed frame
//! produces.

pub mod clustering;
mod random;
pub mod stereo;
pub mod kmeans;
pub mod paths;
