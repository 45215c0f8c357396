use vstd::prelude::*;

verus! {

/// How a surface scatters light: diffuse, mirror-like, or transparent.
#[derive(Copy, Clone, Debug, PartialEq, Eq, Structural)]
pub enum MaterialType {
    Matte,
    Metal,
    Dialectric,
}

} // verus!
