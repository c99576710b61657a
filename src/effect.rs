//! Effects performed on the scene after each iteration.
use vstd::prelude::*;

verus! {

/// Writes the density of every substance as a grey-scale texture of the
/// given size into a directory, one per entity and substance.
pub struct DensityMap {
    pub texture_width: usize,
    pub texture_height: usize,
    pub output_directory: String,
}

impl DensityMap {
    pub fn new(texture_width: usize, texture_height: usize, output_directory: &str) -> (r:
        DensityMap)
        ensures
            r.texture_width == texture_width,
            r.texture_height == texture_height,
            r.output_directory@ == output_directory@,
    {
        DensityMap { texture_width, texture_height, output_directory: output_directory.to_owned() }
    }
}

} // verus!
