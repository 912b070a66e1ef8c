pub mod all_pairs;
pub mod atom;
pub mod atom_data;
pub mod bins;
pub mod cylinder;
pub mod deform;
pub mod derive_plan;
pub mod device;
pub mod domain;
pub mod drawn;
pub mod dump;
pub mod dump_formats;
pub mod dump_registry;
pub mod enclosure;
pub mod energy;
pub mod exact;
pub mod exchange;
pub mod fixes;
pub mod frustum;
pub mod geometry;
pub mod ghosts;
pub mod group;
pub mod input;
pub mod labels;
pub mod margins;
pub mod migration;
pub mod neighbor;
pub mod neighbor_list;
pub mod bond;
pub mod border_steps;
pub mod borders;
pub mod boundary;
pub mod carried;
pub mod cell_grid;
pub mod coherence;
pub mod columns;
pub mod comm;
pub mod composite;
pub mod cone;
pub mod conserve;
pub mod constants;
pub mod copies;
pub mod coverage;
pub mod parts;
pub mod passes;
pub mod reach;
pub mod refresh;
pub mod region;
pub mod resident;
pub mod restart;
pub mod returned;
pub mod sampling;
pub mod scalar;
pub mod serial;
pub mod shapes;
pub mod slots;
pub mod spread;
pub mod stages;
pub mod stencil;
pub mod strain;
pub mod store;
pub mod sweep;
pub mod text;
pub mod thermo;
pub mod transport;
pub mod unrounded;
pub mod vec3;
pub mod verlet;
pub mod virial;
pub mod vtp;
pub mod wrapping;

use vstd::prelude::*;

verus! {

/// How the particle data must be refreshed before the next force evaluation.
#[derive(Clone, Copy, PartialEq, Eq, Structural, Debug)]
pub enum CommState {
    FullRebuild,
    CommunicateOnly,
}

impl Default for CommState {
    fn default() -> (r: Self)
        ensures
            r == CommState::FullRebuild,
    {
        CommState::FullRebuild
    }
}

} // verus!
