//! The materials of occupied voxels, and the split of the output raster into
//! row bands for parallel rendering.

use vstd::prelude::*;

verus! {

/// A material attached to an occupied voxel. Colors are 8-bit RGB.
#[derive(Clone, Copy, Debug, PartialEq, Eq)]
pub enum VoxelMaterial {
    /// A diffuse reflector; `roughness` 255 is purely diffuse, lower codes
    /// blend in more of the mirror reflection.
    Rough { color: [u8; 3], roughness: u8 },
    /// A light source with a log-scaled intensity code.
    Emission { color: [u8; 3], emission: u8 },
}

impl VoxelMaterial {
    pub fn rough(color: [u8; 3], roughness: u8) -> (m: Self)
        ensures
            m == (VoxelMaterial::Rough { color, roughness }),
    {
        VoxelMaterial::Rough { color, roughness }
    }

    pub fn emissive(color: [u8; 3], emission: u8) -> (m: Self)
        ensures
            m == (VoxelMaterial::Emission { color, emission }),
    {
        VoxelMaterial::Emission { color, emission }
    }
}

/// The rows `[start, stop)` that worker `worker` of `workers` renders: bands
/// of `height / workers` rows each, in worker order.
pub fn row_band(height: u32, workers: u32, worker: u32) -> (r: (u32, u32))
    requires
        0 < workers,
        worker < workers,
    ensures
        r.0 == (height / workers) * worker,
        r.1 == (height / workers) * (worker + 1),
        r.0 <= r.1 <= height,
{
    let unit = height / workers;
    proof {
        assert(unit * (worker + 1) <= unit * workers) by (nonlinear_arith)
            requires worker + 1 <= workers, 0 <= unit;
        assert(unit * workers <= height) by (nonlinear_arith)
            requires unit == height / workers, workers > 0;
        assert(unit * worker <= unit * (worker + 1)) by (nonlinear_arith)
            requires 0 <= unit;
    }
    (unit * worker, unit * (worker + 1))
}

} // verus!
